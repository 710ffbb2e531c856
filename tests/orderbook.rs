use top_book::{Level, LevelInfo, Operation, Orderbook, Source};

fn level(price: f64, size: f64) -> Level {
    Level { price: (price * 100000.0).round() as i64, size: (size * 100000.0).round() as i64 }
}

fn units(x: f64) -> i64 {
    (x * 100000.0).round() as i64
}

fn update(source: Source, asks: Vec<Level>, bids: Vec<Level>) -> Operation {
    Operation::Update { asks, bids, source }
}

fn snapshot(source: Source, asks: Vec<Level>, bids: Vec<Level>) -> Operation {
    Operation::Snapshot { asks, bids, source }
}

fn prices(side: &Vec<LevelInfo>) -> Vec<i64> {
    side.iter().map(|l| l.price).collect()
}

#[test]
fn should_insert_two_on_each_side() {
    let mut orderbook = Orderbook::new(5);
    assert_eq!((0, 0), orderbook.len());

    orderbook.process(Operation::Update {
        asks: vec![level(8476.98, 1.0), level(8477.0, 1.0)],
        bids: vec![level(8476.97, 1.0), level(8475.55, 1.0)],
        source: Source::OKX,
    });

    assert_eq!((2, 2), orderbook.len());
    assert_eq!(units(8476.98), orderbook.asks()[0].price);
    assert_eq!(units(8477.0), orderbook.asks()[1].price);

    assert_eq!(units(8476.97), orderbook.bids()[0].price);
    assert_eq!(units(8475.55), orderbook.bids()[1].price);
}

#[test]
fn should_keep_the_expected_size() {
    let mut orderbook = Orderbook::new(2);
    assert_eq!((0, 0), orderbook.len());

    orderbook.process(Operation::Update {
        asks: vec![level(8476.98, 1.0), level(8477.0, 1.0)],
        bids: vec![level(8476.97, 1.0), level(8475.55, 1.0)],
        source: Source::OKX,
    });
    assert_eq!((2, 2), orderbook.len());
    orderbook.process(Operation::Update {
        asks: vec![level(8475.98, 1.0)],
        bids: vec![level(8477.97, 1.0)],
        source: Source::OKX,
    });

    assert_eq!((2, 2), orderbook.len());
    assert_eq!(units(8475.98), orderbook.asks()[0].price);
    assert_eq!(units(8476.98), orderbook.asks()[1].price);

    assert_eq!(units(8477.97), orderbook.bids()[0].price);
    assert_eq!(units(8476.97), orderbook.bids()[1].price);
}

#[test]
fn sides_stay_in_canonical_order() {
    let mut book = Orderbook::new(0);
    book.process(update(Source::OKX, vec![level(10.0, 1.0), level(12.0, 1.0)], vec![level(9.0, 1.0), level(7.0, 1.0)]));
    book.process(update(Source::Deribit, vec![level(11.0, 2.0), level(13.0, 2.0)], vec![level(9.5, 2.0), level(8.0, 2.0)]));
    book.process(snapshot(Source::OKX, vec![level(10.5, 1.0)], vec![level(8.5, 1.0)]));
    assert_eq!(prices(book.asks()), vec![units(10.5), units(11.0), units(13.0)]);
    assert_eq!(prices(book.bids()), vec![units(9.5), units(8.5), units(8.0)]);
}

#[test]
fn depth_bounds_each_side() {
    let mut book = Orderbook::new(3);
    let asks = vec![level(1.0, 1.0), level(2.0, 1.0), level(3.0, 1.0), level(4.0, 1.0), level(5.0, 1.0)];
    let bids = vec![level(0.9, 1.0), level(0.8, 1.0), level(0.7, 1.0), level(0.6, 1.0)];
    book.process(update(Source::OKX, asks, bids));
    assert_eq!(book.len(), (3, 3));
    assert_eq!(prices(book.asks()), vec![units(1.0), units(2.0), units(3.0)]);
    assert_eq!(prices(book.bids()), vec![units(0.9), units(0.8), units(0.7)]);
    book.process(snapshot(Source::Deribit, vec![level(0.95, 1.0)], vec![level(0.97, 1.0)]));
    assert_eq!(book.len(), (3, 3));
    assert_eq!(book.depth(), 3);
}

#[test]
fn zero_depth_is_unbounded() {
    let mut book = Orderbook::new(0);
    let asks: Vec<Level> = (1..=300).map(|i| Level { price: i, size: 1 }).collect();
    book.process(update(Source::OKX, asks, vec![]));
    assert_eq!(book.len(), (300, 0));
}

#[test]
fn zero_size_removes_sole_contribution() {
    let mut book = Orderbook::new(5);
    book.process(update(Source::OKX, vec![level(100.0, 1.0), level(101.0, 2.0)], vec![level(99.0, 3.0)]));
    book.process(update(Source::OKX, vec![level(100.0, 0.0)], vec![level(99.0, 0.000001)]));
    assert_eq!(book.len(), (1, 0));
    assert_eq!(prices(book.asks()), vec![units(101.0)]);
    assert_eq!(book.asks()[0].size(Source::OKX), units(2.0));
}

#[test]
fn level_survives_until_every_source_is_zero() {
    let mut book = Orderbook::new(5);
    book.process(update(Source::OKX, vec![level(100.0, 1.0)], vec![]));
    book.process(update(Source::Deribit, vec![level(100.0, 2.5)], vec![]));
    assert_eq!(book.len(), (1, 0));
    assert_eq!(book.asks()[0].size(Source::OKX), units(1.0));
    assert_eq!(book.asks()[0].size(Source::Deribit), units(2.5));

    book.process(update(Source::Deribit, vec![level(100.0, 0.0)], vec![]));
    assert_eq!(book.len(), (1, 0));
    assert_eq!(book.asks()[0].size(Source::OKX), units(1.0));
    assert_eq!(book.asks()[0].size(Source::Deribit), 0);

    book.process(update(Source::OKX, vec![level(100.0, 0.0)], vec![]));
    assert_eq!(book.len(), (0, 0));
}

#[test]
fn snapshot_replaces_only_its_source() {
    let mut book = Orderbook::new(0);
    book.process(update(Source::OKX, vec![level(10.0, 1.0), level(11.0, 1.0), level(12.0, 1.0)], vec![level(9.0, 1.0)]));
    book.process(update(Source::Deribit, vec![level(11.0, 4.0)], vec![]));
    book.process(snapshot(Source::OKX, vec![level(13.0, 5.0)], vec![]));
    assert_eq!(prices(book.asks()), vec![units(11.0), units(13.0)]);
    assert_eq!(book.asks()[0].size(Source::Deribit), units(4.0));
    assert_eq!(book.asks()[0].size(Source::OKX), 0);
    assert_eq!(book.asks()[1].size(Source::OKX), units(5.0));
    assert_eq!(book.len(), (2, 0));
}

#[test]
fn repeated_zero_update_changes_nothing() {
    let mut book = Orderbook::new(5);
    book.process(update(Source::OKX, vec![level(10.0, 1.0)], vec![level(9.0, 1.0)]));
    book.process(update(Source::Deribit, vec![level(10.0, 0.0), level(10.5, 0.0)], vec![level(9.0, 0.0)]));
    assert_eq!(book.len(), (1, 1));
    assert_eq!(book.asks()[0].size(Source::OKX), units(1.0));
    book.process(update(Source::Deribit, vec![level(10.0, 0.0), level(10.5, 0.0)], vec![level(9.0, 0.0)]));
    assert_eq!(book.len(), (1, 1));
    assert_eq!(prices(book.asks()), vec![units(10.0)]);
    assert_eq!(book.bids()[0].size(Source::OKX), units(1.0));
}

#[test]
fn zero_size_for_a_new_price_adds_nothing() {
    let mut book = Orderbook::new(0);
    book.process(update(Source::OKX, vec![level(10.0, 1.0)], vec![]));
    book.process(update(Source::OKX, vec![level(9.0, 0.0), level(11.0, 0.0)], vec![level(5.0, 0.0)]));
    assert_eq!(book.len(), (1, 0));
}

#[test]
fn negative_size_is_a_quantity() {
    let mut book = Orderbook::new(0);
    book.process(update(Source::OKX, vec![level(10.0, 1.0)], vec![]));
    book.process(update(Source::Deribit, vec![level(9.0, -1.0), level(11.0, -2.0)], vec![]));
    assert_eq!(prices(book.asks()), vec![units(9.0), units(10.0), units(11.0)]);
    assert_eq!(book.asks()[2].size(Source::Deribit), units(-2.0));
}

#[test]
fn update_overwrites_existing_size() {
    let mut book = Orderbook::new(0);
    book.process(update(Source::OKX, vec![], vec![level(50.0, 1.0)]));
    book.process(update(Source::OKX, vec![], vec![level(50.0, 7.25)]));
    assert_eq!(book.len(), (0, 1));
    assert_eq!(book.bids()[0].size(Source::OKX), units(7.25));
    assert!(!book.bids()[0].is_empty());
}
