use vstd::prelude::*;
use crate::laws::lemma_next_side_ok;

verus! {

/// Number of fixed-point units in one whole unit of price or size.
///
/// Prices and sizes are held as integers counting steps of 1/100000, the
/// book's tolerance: two prices closer than one step are the same price, and
/// a size under one step is no quantity at all.
pub const UNITS_PER_WHOLE: i64 = 100000;

/// A venue that feeds the book.
#[derive(PartialEq, Eq, Structural, Clone, Copy, Debug, Hash)]
pub enum Source {
    OKX,
    Deribit,
}

/// A (price, size) pair reported by one venue for one side.
#[derive(Clone, Copy, Debug)]
pub struct Level {
    pub price: i64,
    pub size: i64,
}

impl Level {
    fn is_zero(&self) -> (r: bool)
        ensures
            r == (self.size == 0),
    {
        self.size == 0
    }
}

/// A price with the size that each source contributes there (zero: none).
#[derive(Clone, Copy, Debug)]
pub struct LevelInfo {
    pub price: i64,
    pub okx: i64,
    pub deribit: i64,
}

impl LevelInfo {
    pub open spec fn contribution(self, s: Source) -> int {
        match s {
            Source::OKX => self.okx as int,
            Source::Deribit => self.deribit as int,
        }
    }

    /// Some source still contributes a quantity at this price.
    pub open spec fn has_quantity(self) -> bool {
        self.okx != 0 || self.deribit != 0
    }

    pub open spec fn with_size(self, s: Source, size: i64) -> LevelInfo {
        match s {
            Source::OKX => LevelInfo { okx: size, ..self },
            Source::Deribit => LevelInfo { deribit: size, ..self },
        }
    }

    pub open spec fn single(s: Source, l: Level) -> LevelInfo {
        LevelInfo { price: l.price, okx: 0, deribit: 0 }.with_size(s, l.size)
    }

    /// The size that `s` contributes at this price.
    pub fn size(&self, s: Source) -> (r: i64)
        ensures
            r == self.contribution(s),
    {
        match s {
            Source::OKX => self.okx,
            Source::Deribit => self.deribit,
        }
    }

    pub fn is_empty(&self) -> (r: bool)
        ensures
            r == !self.has_quantity(),
    {
        self.okx == 0 && self.deribit == 0
    }

    fn set_size(&mut self, s: Source, size: i64)
        ensures
            *final(self) == old(self).with_size(s, size),
    {
        match s {
            Source::OKX => self.okx = size,
            Source::Deribit => self.deribit = size,
        }
    }

    fn new_single(s: Source, l: &Level) -> (r: LevelInfo)
        ensures
            r == LevelInfo::single(s, *l),
    {
        let mut r = LevelInfo { price: l.price, okx: 0, deribit: 0 };
        r.set_size(s, l.size);
        r
    }
}

/// `a` comes before `b` on a side walked in the given direction.
pub open spec fn better(a: int, b: int, ascending: bool) -> bool {
    if ascending {
        a < b
    } else {
        a > b
    }
}

/// Incoming levels in canonical order, one per price.
pub open spec fn sorted_levels(s: Seq<Level>, ascending: bool) -> bool {
    forall|i: int, j: int|
        0 <= i < j < s.len() ==> better(#[trigger] s[i].price as int, #[trigger] s[j].price as int, ascending)
}

/// A side of the book: canonical order, one level per price, none empty.
pub open spec fn side_ok(s: Seq<LevelInfo>, ascending: bool) -> bool {
    &&& forall|i: int, j: int|
        0 <= i < j < s.len() ==> better(#[trigger] s[i].price as int, #[trigger] s[j].price as int, ascending)
    &&& forall|i: int| 0 <= i < s.len() ==> (#[trigger] s[i]).has_quantity()
}

/// The level, if any, that a source's new incoming level adds at a price not yet held.
pub open spec fn fresh_level(src: Source, l: Level) -> Seq<LevelInfo> {
    if l.size != 0 {
        seq![LevelInfo::single(src, l)]
    } else {
        seq![]
    }
}

/// The side that results from applying `incoming` for `src` to `current`,
/// walking both in canonical order, with no depth bound.
pub open spec fn merged(
    current: Seq<LevelInfo>,
    src: Source,
    incoming: Seq<Level>,
    ascending: bool,
) -> Seq<LevelInfo>
    decreases current.len() + incoming.len(),
{
    if incoming.len() == 0 {
        current
    } else if current.len() == 0 {
        fresh_level(src, incoming[0]) + merged(current, src, incoming.drop_first(), ascending)
    } else if current[0].price == incoming[0].price {
        let l = current[0].with_size(src, incoming[0].size);
        let rest = merged(current.drop_first(), src, incoming.drop_first(), ascending);
        if l.has_quantity() {
            seq![l] + rest
        } else {
            rest
        }
    } else if better(current[0].price as int, incoming[0].price as int, ascending) {
        seq![current[0]] + merged(current.drop_first(), src, incoming, ascending)
    } else {
        fresh_level(src, incoming[0]) + merged(current, src, incoming.drop_first(), ascending)
    }
}

/// The first `depth` elements of `s`; all of them when `depth` is zero.
pub open spec fn capped<T>(s: Seq<T>, depth: nat) -> Seq<T> {
    if depth == 0 || s.len() <= depth {
        s
    } else {
        s.take(depth as int)
    }
}

/// `s` with every contribution of `src` removed, and levels left with none dropped.
pub open spec fn without_source(s: Seq<LevelInfo>, src: Source) -> Seq<LevelInfo>
    decreases s.len(),
{
    if s.len() == 0 {
        seq![]
    } else {
        let l = s[0].with_size(src, 0);
        let rest = without_source(s.drop_first(), src);
        if l.has_quantity() {
            seq![l] + rest
        } else {
            rest
        }
    }
}

/// An event from one venue: its full book (snapshot) or its changes (update).
/// Asks come in ascending and bids in descending order of price.
pub enum Operation {
    Snapshot { asks: Vec<Level>, bids: Vec<Level>, source: Source },
    Update { asks: Vec<Level>, bids: Vec<Level>, source: Source },
}

impl Operation {
    pub open spec fn source_of(&self) -> Source {
        match self {
            Operation::Snapshot { source, .. } => *source,
            Operation::Update { source, .. } => *source,
        }
    }

    /// The incoming levels for one side: asks when `ascending`, else bids.
    pub open spec fn levels(&self, ascending: bool) -> Seq<Level> {
        match self {
            Operation::Snapshot { asks, bids, .. } => if ascending { asks@ } else { bids@ },
            Operation::Update { asks, bids, .. } => if ascending { asks@ } else { bids@ },
        }
    }

    pub open spec fn is_snapshot(&self) -> bool {
        self is Snapshot
    }

    /// Asks ascending and bids descending, each with one level per price.
    pub open spec fn conforms(&self) -> bool {
        sorted_levels(self.levels(true), true) && sorted_levels(self.levels(false), false)
    }
}

/// One side after applying `op`: a snapshot first clears its source's
/// contributions, then both kinds merge the source's levels in, up to `depth`.
pub open spec fn next_side(side: Seq<LevelInfo>, op: Operation, ascending: bool, depth: nat) -> Seq<LevelInfo> {
    let src = op.source_of();
    let base = if op.is_snapshot() { without_source(side, src) } else { side };
    capped(merged(base, src, op.levels(ascending), ascending), depth)
}

/// The consolidated book: asks ascending, bids descending, each at most
/// `depth` levels long unless `depth` is zero.
pub struct Orderbook {
    asks: Vec<LevelInfo>,
    bids: Vec<LevelInfo>,
    depth: usize,
}

impl Orderbook {
    pub closed spec fn asks_view(&self) -> Seq<LevelInfo> {
        self.asks@
    }

    pub closed spec fn bids_view(&self) -> Seq<LevelInfo> {
        self.bids@
    }

    pub closed spec fn depth_view(&self) -> nat {
        self.depth as nat
    }

    pub open spec fn wf(&self) -> bool {
        &&& side_ok(self.asks_view(), true)
        &&& side_ok(self.bids_view(), false)
        &&& self.depth_view() > 0 ==> self.asks_view().len() <= self.depth_view()
            && self.bids_view().len() <= self.depth_view()
    }

    fn process_side(
        current: &Vec<LevelInfo>,
        source: Source,
        incoming: &Vec<Level>,
        depth: usize,
        ascending: bool,
    ) -> (r: Vec<LevelInfo>)
        ensures
            r@ == capped(merged(current@, source, incoming@, ascending), depth as nat),
    {
        let ghost whole = merged(current@, source, incoming@, ascending);
        let mut resp: Vec<LevelInfo> = Vec::new();
        let mut i: usize = 0;
        let mut j: usize = 0;
        let cur_len = current.len();
        let inc_len = incoming.len();
        assert(current@.skip(0) =~= current@);
        assert(incoming@.skip(0) =~= incoming@);
        assert(resp@ + whole =~= whole);
        while (i < cur_len || j < inc_len) && (depth == 0 || resp.len() < depth)
            invariant
                cur_len == current@.len(),
                inc_len == incoming@.len(),
                i <= cur_len,
                j <= inc_len,
                depth == 0 || resp@.len() <= depth,
                resp@ + merged(current@.skip(i as int), source, incoming@.skip(j as int), ascending)
                    == whole,
            decreases cur_len - i + inc_len - j,
        {
            let ghost cs = current@.skip(i as int);
            let ghost is = incoming@.skip(j as int);
            let ghost before = resp@;
            if j < inc_len {
                assert(is.drop_first() =~= incoming@.skip(j + 1));
                assert(is[0] == incoming@[j as int]);
            }
            if i < cur_len {
                assert(cs.drop_first() =~= current@.skip(i + 1));
                assert(cs[0] == current@[i as int]);
            }
            if j == inc_len {
                resp.push(current[i]);
                i = i + 1;
                assert(cs =~= seq![cs[0]] + cs.drop_first());
                assert(before + cs =~= resp@ + current@.skip(i as int));
                assert(incoming@.skip(j as int) =~= Seq::<Level>::empty());
            } else if i == cur_len || (current[i].price != incoming[j].price && !(if ascending {
                current[i].price < incoming[j].price
            } else {
                current[i].price > incoming[j].price
            })) {
                if !incoming[j].is_zero() {
                    resp.push(LevelInfo::new_single(source, &incoming[j]));
                }
                j = j + 1;
                assert(before + fresh_level(source, is[0]) + merged(cs, source, is.drop_first(), ascending)
                    =~= resp@ + merged(cs, source, is.drop_first(), ascending));
            } else if current[i].price == incoming[j].price {
                let mut l = current[i];
                l.set_size(source, incoming[j].size);
                if !l.is_empty() {
                    resp.push(l);
                }
                i = i + 1;
                j = j + 1;
                let ghost rest = merged(cs.drop_first(), source, is.drop_first(), ascending);
                assert(before + seq![l] + rest =~= before + (seq![l] + rest));
            } else {
                resp.push(current[i]);
                i = i + 1;
                let ghost rest = merged(cs.drop_first(), source, is, ascending);
                assert(before + seq![cs[0]] + rest =~= before + (seq![cs[0]] + rest));
            }
        }
        if i == cur_len && j == inc_len {
            assert(current@.skip(i as int) =~= Seq::<LevelInfo>::empty());
            assert(incoming@.skip(j as int) =~= Seq::<Level>::empty());
            assert(resp@ =~= whole);
        } else {
            assert(whole.take(depth as int) =~= resp@);
        }
        resp
    }

    /// Every level of `side` with `source`'s contribution removed, dropping
    /// levels that are left with none.
    fn strip_source(side: &Vec<LevelInfo>, source: Source) -> (r: Vec<LevelInfo>)
        ensures
            r@ == without_source(side@, source),
    {
        let ghost whole = without_source(side@, source);
        let mut r: Vec<LevelInfo> = Vec::new();
        let mut i: usize = 0;
        assert(side@.skip(0) =~= side@);
        assert(r@ + whole =~= whole);
        while i < side.len()
            invariant
                i <= side@.len(),
                r@ + without_source(side@.skip(i as int), source) == whole,
            decreases side@.len() - i,
        {
            let ghost rest = side@.skip(i as int);
            let ghost before = r@;
            assert(rest.drop_first() =~= side@.skip(i + 1));
            let mut l = side[i];
            l.set_size(source, 0);
            if !l.is_empty() {
                r.push(l);
            }
            i = i + 1;
            assert(before + seq![l] + without_source(side@.skip(i as int), source)
                =~= before + (seq![l] + without_source(side@.skip(i as int), source)));
        }
        assert(side@.skip(i as int) =~= Seq::<LevelInfo>::empty());
        assert(r@ + Seq::<LevelInfo>::empty() =~= r@);
        r
    }

    fn process_asks(&mut self, source: Source, asks: &Vec<Level>)
        ensures
            final(self).asks@ == capped(merged(old(self).asks@, source, asks@, true), old(self).depth as nat),
            final(self).bids == old(self).bids,
            final(self).depth == old(self).depth,
    {
        self.asks = Orderbook::process_side(&self.asks, source, asks, self.depth, true);
    }

    fn process_bids(&mut self, source: Source, bids: &Vec<Level>)
        ensures
            final(self).bids@ == capped(merged(old(self).bids@, source, bids@, false), old(self).depth as nat),
            final(self).asks == old(self).asks,
            final(self).depth == old(self).depth,
    {
        self.bids = Orderbook::process_side(&self.bids, source, bids, self.depth, false);
    }

    /// Applies one event to the book.
    pub fn process(&mut self, operation: Operation)
        ensures
            final(self).asks_view() == next_side(old(self).asks_view(), operation, true, old(self).depth_view()),
            final(self).bids_view() == next_side(old(self).bids_view(), operation, false, old(self).depth_view()),
            final(self).depth_view() == old(self).depth_view(),
            final(self).depth_view() > 0 ==> final(self).asks_view().len() <= final(self).depth_view()
                && final(self).bids_view().len() <= final(self).depth_view(),
            old(self).wf() && operation.conforms() ==> final(self).wf(),
    {
        proof {
            lemma_next_side_ok(self.asks@, operation, true, self.depth as nat);
            lemma_next_side_ok(self.bids@, operation, false, self.depth as nat);
        }
        match operation {
            Operation::Snapshot { asks, bids, source } => {
                self.asks = Orderbook::strip_source(&self.asks, source);
                self.bids = Orderbook::strip_source(&self.bids, source);
                self.process_asks(source, &asks);
                self.process_bids(source, &bids);
            },
            Operation::Update { asks, bids, source } => {
                self.process_asks(source, &asks);
                self.process_bids(source, &bids);
            },
        }
    }

    /// The number of ask levels and of bid levels.
    pub fn len(&self) -> (r: (usize, usize))
        ensures
            r.0 == self.asks_view().len(),
            r.1 == self.bids_view().len(),
    {
        (self.asks.len(), self.bids.len())
    }

    /// An empty book that keeps at most `depth` levels per side (zero: no bound).
    pub fn new(depth: usize) -> (r: Self)
        ensures
            r.asks_view() == Seq::<LevelInfo>::empty(),
            r.bids_view() == Seq::<LevelInfo>::empty(),
            r.depth_view() == depth,
            r.wf(),
    {
        Self { asks: vec![], bids: vec![], depth }
    }

    /// The ask levels, best (lowest) price first.
    pub fn asks(&self) -> (r: &Vec<LevelInfo>)
        ensures
            r@ == self.asks_view(),
    {
        &self.asks
    }

    /// The bid levels, best (highest) price first.
    pub fn bids(&self) -> (r: &Vec<LevelInfo>)
        ensures
            r@ == self.bids_view(),
    {
        &self.bids
    }

    pub fn depth(&self) -> (r: usize)
        ensures
            r == self.depth_view(),
    {
        self.depth
    }
}

} // verus!
