use vstd::prelude::*;
use crate::orderbook::{
    better, capped, fresh_level, merged, next_side, side_ok, sorted_levels, without_source,
    LevelInfo, Level, Operation, Source,
};

verus! {

/// Every price in `s` comes after `b` in the side's order.
pub open spec fn all_after(s: Seq<LevelInfo>, b: int, ascending: bool) -> bool {
    forall|k: int| 0 <= k < s.len() ==> better(b, #[trigger] s[k].price as int, ascending)
}

pub open spec fn levels_after(s: Seq<Level>, b: int, ascending: bool) -> bool {
    forall|k: int| 0 <= k < s.len() ==> better(b, #[trigger] s[k].price as int, ascending)
}

proof fn lemma_prepend_ok(x: LevelInfo, rest: Seq<LevelInfo>, ascending: bool)
    requires
        x.has_quantity(),
        side_ok(rest, ascending),
        all_after(rest, x.price as int, ascending),
    ensures
        side_ok(seq![x] + rest, ascending),
{
    let s = seq![x] + rest;
    assert forall|i: int, j: int| 0 <= i < j < s.len() implies better(
        #[trigger] s[i].price as int,
        #[trigger] s[j].price as int,
        ascending,
    ) by {
        if i == 0 {
            assert(s[j] == rest[j - 1]);
        } else {
            assert(s[i] == rest[i - 1] && s[j] == rest[j - 1]);
        }
    }
    assert forall|i: int| 0 <= i < s.len() implies (#[trigger] s[i]).has_quantity() by {
        if i > 0 {
            assert(s[i] == rest[i - 1]);
        }
    }
}

proof fn lemma_merged_after(
    current: Seq<LevelInfo>,
    src: Source,
    incoming: Seq<Level>,
    ascending: bool,
    b: int,
)
    requires
        all_after(current, b, ascending),
        levels_after(incoming, b, ascending),
    ensures
        all_after(merged(current, src, incoming, ascending), b, ascending),
    decreases current.len() + incoming.len(),
{
    let m = merged(current, src, incoming, ascending);
    if incoming.len() == 0 {
    } else {
        let inc1 = incoming.drop_first();
        assert(levels_after(inc1, b, ascending)) by {
            assert forall|k: int| 0 <= k < inc1.len() implies better(b, #[trigger] inc1[k].price as int, ascending) by {
                assert(inc1[k] == incoming[k + 1]);
            }
        }
        if current.len() > 0 {
            let cur1 = current.drop_first();
            assert(all_after(cur1, b, ascending)) by {
                assert forall|k: int| 0 <= k < cur1.len() implies better(b, #[trigger] cur1[k].price as int, ascending) by {
                    assert(cur1[k] == current[k + 1]);
                }
            }
            lemma_merged_after(cur1, src, inc1, ascending, b);
            lemma_merged_after(cur1, src, incoming, ascending, b);
            assert(better(b, current[0].price as int, ascending));
        }
        lemma_merged_after(current, src, inc1, ascending, b);
        assert(better(b, incoming[0].price as int, ascending));
        assert forall|k: int| 0 <= k < m.len() implies better(b, #[trigger] m[k].price as int, ascending) by {
            if current.len() > 0 && current[0].price == incoming[0].price {
                let l = current[0].with_size(src, incoming[0].size);
                let rest = merged(current.drop_first(), src, inc1, ascending);
                if l.has_quantity() && k > 0 {
                    assert(m[k] == rest[k - 1]);
                }
            } else if current.len() > 0 && better(current[0].price as int, incoming[0].price as int, ascending) {
                let rest = merged(current.drop_first(), src, incoming, ascending);
                if k > 0 {
                    assert(m[k] == rest[k - 1]);
                }
            } else {
                let f = fresh_level(src, incoming[0]);
                let rest = merged(current, src, inc1, ascending);
                if k >= f.len() {
                    assert(m[k] == rest[k - f.len()]);
                }
            }
        }
    }
}

proof fn lemma_sorted_tail(s: Seq<LevelInfo>, ascending: bool)
    requires
        s.len() > 0,
        side_ok(s, ascending),
    ensures
        side_ok(s.drop_first(), ascending),
        all_after(s.drop_first(), s[0].price as int, ascending),
{
    let t = s.drop_first();
    assert forall|k: int| 0 <= k < t.len() implies better(s[0].price as int, #[trigger] t[k].price as int, ascending) by {
        assert(t[k] == s[k + 1]);
    }
    assert forall|i: int, j: int| 0 <= i < j < t.len() implies better(
        #[trigger] t[i].price as int,
        #[trigger] t[j].price as int,
        ascending,
    ) by {
        assert(t[i] == s[i + 1] && t[j] == s[j + 1]);
    }
    assert forall|i: int| 0 <= i < t.len() implies (#[trigger] t[i]).has_quantity() by {
        assert(t[i] == s[i + 1]);
    }
}

proof fn lemma_sorted_levels_tail(s: Seq<Level>, ascending: bool)
    requires
        s.len() > 0,
        sorted_levels(s, ascending),
    ensures
        sorted_levels(s.drop_first(), ascending),
        levels_after(s.drop_first(), s[0].price as int, ascending),
{
    let t = s.drop_first();
    assert forall|k: int| 0 <= k < t.len() implies better(s[0].price as int, #[trigger] t[k].price as int, ascending) by {
        assert(t[k] == s[k + 1]);
    }
    assert forall|i: int, j: int| 0 <= i < j < t.len() implies better(
        #[trigger] t[i].price as int,
        #[trigger] t[j].price as int,
        ascending,
    ) by {
        assert(t[i] == s[i + 1] && t[j] == s[j + 1]);
    }
}

/// Merging a source's canonically ordered levels into a well-formed side
/// gives a well-formed side: canonical order, one level per price, none empty.
pub proof fn lemma_merged_ok(
    current: Seq<LevelInfo>,
    src: Source,
    incoming: Seq<Level>,
    ascending: bool,
)
    requires
        side_ok(current, ascending),
        sorted_levels(incoming, ascending),
    ensures
        side_ok(merged(current, src, incoming, ascending), ascending),
    decreases current.len() + incoming.len(),
{
    if incoming.len() == 0 {
        return;
    }
    lemma_sorted_levels_tail(incoming, ascending);
    let inc1 = incoming.drop_first();
    let p = incoming[0].price as int;
    if current.len() > 0 {
        lemma_sorted_tail(current, ascending);
    }
    if current.len() > 0 && current[0].price == incoming[0].price {
        let cur1 = current.drop_first();
        lemma_merged_ok(cur1, src, inc1, ascending);
        lemma_merged_after(cur1, src, inc1, ascending, p);
        let l = current[0].with_size(src, incoming[0].size);
        if l.has_quantity() {
            lemma_prepend_ok(l, merged(cur1, src, inc1, ascending), ascending);
        }
    } else if current.len() > 0 && better(current[0].price as int, p, ascending) {
        let cur1 = current.drop_first();
        let c = current[0].price as int;
        lemma_merged_ok(cur1, src, incoming, ascending);
        assert(levels_after(incoming, c, ascending));
        lemma_merged_after(cur1, src, incoming, ascending, c);
        lemma_prepend_ok(current[0], merged(cur1, src, incoming, ascending), ascending);
    } else {
        lemma_merged_ok(current, src, inc1, ascending);
        if current.len() > 0 {
            assert(all_after(current, p, ascending)) by {
                assert forall|k: int| 0 <= k < current.len() implies better(p, #[trigger] current[k].price as int, ascending) by {
                    if k > 0 {
                        assert(current.drop_first()[k - 1] == current[k]);
                    }
                }
            }
        }
        lemma_merged_after(current, src, inc1, ascending, p);
        let rest = merged(current, src, inc1, ascending);
        if incoming[0].size != 0 {
            lemma_prepend_ok(LevelInfo::single(src, incoming[0]), rest, ascending);
        } else {
            assert(fresh_level(src, incoming[0]) + rest =~= rest);
        }
    }
}

/// Removing one source from a well-formed side leaves a well-formed side.
pub proof fn lemma_without_source_ok(s: Seq<LevelInfo>, src: Source, ascending: bool)
    requires
        side_ok(s, ascending),
    ensures
        side_ok(without_source(s, src), ascending),
        forall|b: int| all_after(s, b, ascending) ==> all_after(#[trigger] without_source(s, src), b, ascending),
    decreases s.len(),
{
    if s.len() == 0 {
        return;
    }
    lemma_sorted_tail(s, ascending);
    let t = s.drop_first();
    lemma_without_source_ok(t, src, ascending);
    let l = s[0].with_size(src, 0);
    let rest = without_source(t, src);
    if l.has_quantity() {
        lemma_prepend_ok(l, rest, ascending);
    }
    assert forall|b: int| all_after(s, b, ascending) implies all_after(#[trigger] without_source(s, src), b, ascending) by {
        assert(all_after(t, b, ascending)) by {
            assert forall|k: int| 0 <= k < t.len() implies better(b, #[trigger] t[k].price as int, ascending) by {
                assert(t[k] == s[k + 1]);
            }
        }
        let w = without_source(s, src);
        assert(better(b, s[0].price as int, ascending));
        assert forall|k: int| 0 <= k < w.len() implies better(b, #[trigger] w[k].price as int, ascending) by {
            if l.has_quantity() && k > 0 {
                assert(w[k] == rest[k - 1]);
            }
        }
    }
}

/// The first `depth` levels of a well-formed side form a well-formed side,
/// at most `depth` long when `depth` is not zero.
pub proof fn lemma_capped_ok(s: Seq<LevelInfo>, depth: nat, ascending: bool)
    requires
        side_ok(s, ascending),
    ensures
        side_ok(capped(s, depth), ascending),
        depth > 0 ==> capped(s, depth).len() <= depth,
{
    let c = capped(s, depth);
    assert forall|i: int| 0 <= i < c.len() implies c[i] == s[i] by {}
}

/// After any event, each side holds at most `depth` levels when `depth` is
/// not zero; and when the side was well formed and the event's levels come in
/// canonical order with one per price, the side is well formed again.
pub proof fn lemma_next_side_ok(side: Seq<LevelInfo>, op: Operation, ascending: bool, depth: nat)
    ensures
        depth > 0 ==> next_side(side, op, ascending, depth).len() <= depth,
        side_ok(side, ascending) && sorted_levels(op.levels(ascending), ascending) ==> side_ok(
            next_side(side, op, ascending, depth),
            ascending,
        ),
{
    let src = op.source_of();
    let base = if op.is_snapshot() { without_source(side, src) } else { side };
    let m = merged(base, src, op.levels(ascending), ascending);
    if side_ok(side, ascending) && sorted_levels(op.levels(ascending), ascending) {
        lemma_without_source_ok(side, src, ascending);
        lemma_merged_ok(base, src, op.levels(ascending), ascending);
        lemma_capped_ok(m, depth, ascending);
    }
}


/// The size that `t` contributes at `price` on `side`, as the first level at
/// that price gives it; zero where no level has that price.
pub open spec fn size_at(side: Seq<LevelInfo>, price: int, t: Source) -> int
    decreases side.len(),
{
    if side.len() == 0 {
        0
    } else if side[0].price == price {
        side[0].contribution(t)
    } else {
        size_at(side.drop_first(), price, t)
    }
}

/// The size that the first incoming level at `price` carries, if there is one.
pub open spec fn incoming_at(incoming: Seq<Level>, price: int) -> Option<int>
    decreases incoming.len(),
{
    if incoming.len() == 0 {
        None
    } else if incoming[0].price == price {
        Some(incoming[0].size as int)
    } else {
        incoming_at(incoming.drop_first(), price)
    }
}

/// Some level of `side` stands at `price`.
pub open spec fn has_level(side: Seq<LevelInfo>, price: int) -> bool {
    exists|k: int| 0 <= k < side.len() && #[trigger] side[k].price == price
}

/// What `t` holds at `price` once `src`'s levels are applied: the incoming
/// size where `src` reports that price, else what the side held before.
pub open spec fn merged_size(
    current: Seq<LevelInfo>,
    src: Source,
    incoming: Seq<Level>,
    price: int,
    t: Source,
) -> int {
    match incoming_at(incoming, price) {
        Some(size) => if t == src {
            size
        } else {
            size_at(current, price, t)
        },
        None => size_at(current, price, t),
    }
}

proof fn lemma_size_at_absent(s: Seq<LevelInfo>, price: int, ascending: bool)
    requires
        all_after(s, price, ascending),
    ensures
        forall|t: Source| #[trigger] size_at(s, price, t) == 0,
        !has_level(s, price),
    decreases s.len(),
{
    if s.len() > 0 {
        let t1 = s.drop_first();
        assert forall|k: int| 0 <= k < t1.len() implies better(price, #[trigger] t1[k].price as int, ascending) by {
            assert(t1[k] == s[k + 1]);
        }
        lemma_size_at_absent(t1, price, ascending);
        assert(better(price, s[0].price as int, ascending));
        assert forall|t: Source| #[trigger] size_at(s, price, t) == 0 by {
            assert(size_at(t1, price, t) == 0);
        }
    }
}

proof fn lemma_incoming_absent(s: Seq<Level>, price: int, ascending: bool)
    requires
        levels_after(s, price, ascending),
    ensures
        incoming_at(s, price) is None,
    decreases s.len(),
{
    if s.len() > 0 {
        let t1 = s.drop_first();
        assert forall|k: int| 0 <= k < t1.len() implies better(price, #[trigger] t1[k].price as int, ascending) by {
            assert(t1[k] == s[k + 1]);
        }
        lemma_incoming_absent(t1, price, ascending);
        assert(better(price, s[0].price as int, ascending));
    }
}

proof fn lemma_head_after(s: Seq<LevelInfo>, price: int, ascending: bool)
    requires
        s.len() > 0,
        side_ok(s, ascending),
        better(price, s[0].price as int, ascending),
    ensures
        all_after(s, price, ascending),
{
    assert forall|k: int| 0 <= k < s.len() implies better(price, #[trigger] s[k].price as int, ascending) by {
        if k > 0 {
            assert(better(s[0].price as int, s[k].price as int, ascending));
        }
    }
}

proof fn lemma_size_at_prepend(x: LevelInfo, rest: Seq<LevelInfo>, price: int, t: Source)
    ensures
        size_at(seq![x] + rest, price, t) == if x.price == price {
            x.contribution(t)
        } else {
            size_at(rest, price, t)
        },
{
    assert((seq![x] + rest).drop_first() =~= rest);
}

/// Applying a source's canonically ordered levels to a well-formed side sets
/// that source's size at each price it reports, and leaves every other size
/// as it was.
pub proof fn lemma_merged_sizes(
    current: Seq<LevelInfo>,
    src: Source,
    incoming: Seq<Level>,
    ascending: bool,
    price: int,
    t: Source,
)
    requires
        side_ok(current, ascending),
        sorted_levels(incoming, ascending),
    ensures
        size_at(merged(current, src, incoming, ascending), price, t) == merged_size(
            current,
            src,
            incoming,
            price,
            t,
        ),
    decreases current.len() + incoming.len(),
{
    if incoming.len() == 0 {
        return;
    }
    lemma_sorted_levels_tail(incoming, ascending);
    let inc1 = incoming.drop_first();
    let q = incoming[0].price as int;
    if current.len() > 0 {
        lemma_sorted_tail(current, ascending);
    }
    if current.len() > 0 && current[0].price == incoming[0].price {
        let cur1 = current.drop_first();
        let rest = merged(cur1, src, inc1, ascending);
        let l = current[0].with_size(src, incoming[0].size);
        lemma_merged_sizes(cur1, src, inc1, ascending, price, t);
        if l.has_quantity() {
            lemma_size_at_prepend(l, rest, price, t);
        }
        if price == q {
            lemma_size_at_absent(cur1, q, ascending);
            lemma_incoming_absent(inc1, q, ascending);
        }
    } else if current.len() > 0 && better(current[0].price as int, q, ascending) {
        let cur1 = current.drop_first();
        let c = current[0].price as int;
        let rest = merged(cur1, src, incoming, ascending);
        lemma_merged_sizes(cur1, src, incoming, ascending, price, t);
        lemma_size_at_prepend(current[0], rest, price, t);
        if price == c {
            assert(levels_after(incoming, c, ascending));
            lemma_incoming_absent(incoming, c, ascending);
        }
    } else {
        let rest = merged(current, src, inc1, ascending);
        lemma_merged_sizes(current, src, inc1, ascending, price, t);
        if incoming[0].size != 0 {
            lemma_size_at_prepend(LevelInfo::single(src, incoming[0]), rest, price, t);
        } else {
            assert(fresh_level(src, incoming[0]) + rest =~= rest);
        }
        if price == q {
            lemma_incoming_absent(inc1, q, ascending);
            if current.len() > 0 {
                lemma_head_after(current, q, ascending);
                lemma_size_at_absent(current, q, ascending);
            }
        }
    }
}

/// Removing one source from a well-formed side zeroes that source's size at
/// every price and keeps every other source's size.
pub proof fn lemma_without_source_sizes(s: Seq<LevelInfo>, src: Source, ascending: bool, price: int, t: Source)
    requires
        side_ok(s, ascending),
    ensures
        size_at(without_source(s, src), price, t) == if t == src {
            0
        } else {
            size_at(s, price, t)
        },
    decreases s.len(),
{
    if s.len() == 0 {
        return;
    }
    lemma_sorted_tail(s, ascending);
    let t1 = s.drop_first();
    let l = s[0].with_size(src, 0);
    let rest = without_source(t1, src);
    lemma_without_source_sizes(t1, src, ascending, price, t);
    if l.has_quantity() {
        lemma_size_at_prepend(l, rest, price, t);
    }
    if price == s[0].price {
        lemma_size_at_absent(t1, price, ascending);
    }
}

/// Keeping only the first `depth` levels hides levels and changes no size:
/// each size is the one before, or zero.
pub proof fn lemma_capped_sizes(s: Seq<LevelInfo>, depth: nat, price: int, t: Source)
    ensures
        size_at(capped(s, depth), price, t) == size_at(s, price, t) || size_at(capped(s, depth), price, t) == 0,
{
    if !(depth == 0 || s.len() <= depth) {
        lemma_take_sizes(s, depth as int, price, t);
    }
}

proof fn lemma_take_sizes(s: Seq<LevelInfo>, n: int, price: int, t: Source)
    requires
        0 <= n <= s.len(),
    ensures
        size_at(s.take(n), price, t) == size_at(s, price, t) || size_at(s.take(n), price, t) == 0,
    decreases n,
{
    if n > 0 {
        assert(s.take(n).drop_first() =~= s.drop_first().take(n - 1));
        lemma_take_sizes(s.drop_first(), n - 1, price, t);
    }
}

/// On a well-formed side a level stands at a price exactly when some source
/// contributes a quantity there.
pub proof fn lemma_has_level(s: Seq<LevelInfo>, ascending: bool, price: int)
    requires
        side_ok(s, ascending),
    ensures
        has_level(s, price) <==> exists|t: Source| #[trigger] size_at(s, price, t) != 0,
    decreases s.len(),
{
    if s.len() == 0 {
        return;
    }
    lemma_sorted_tail(s, ascending);
    let t1 = s.drop_first();
    lemma_has_level(t1, ascending, price);
    if s[0].price == price {
        assert(s[0].has_quantity());
        assert(has_level(s, price)) by {
            assert(s[0].price == price);
        }
        if s[0].okx != 0 {
            assert(size_at(s, price, Source::OKX) != 0);
        } else {
            assert(size_at(s, price, Source::Deribit) != 0);
        }
    } else {
        if has_level(s, price) {
            let k = choose|k: int| 0 <= k < s.len() && #[trigger] s[k].price == price;
            assert(t1[k - 1].price == price);
        }
        if has_level(t1, price) {
            let k = choose|k: int| 0 <= k < t1.len() && #[trigger] t1[k].price == price;
            assert(s[k + 1].price == price);
        }
        assert forall|t: Source| #[trigger] size_at(s, price, t) == size_at(t1, price, t) by {}
        if exists|t: Source| #[trigger] size_at(s, price, t) != 0 {
            let t = choose|t: Source| #[trigger] size_at(s, price, t) != 0;
            assert(size_at(t1, price, t) != 0);
        }
        if exists|t: Source| #[trigger] size_at(t1, price, t) != 0 {
            let t = choose|t: Source| #[trigger] size_at(t1, price, t) != 0;
            assert(size_at(s, price, t) != 0);
        }
    }
}

proof fn lemma_merged_zero_len(current: Seq<LevelInfo>, src: Source, incoming: Seq<Level>, ascending: bool)
    requires
        forall|k: int| 0 <= k < incoming.len() ==> #[trigger] incoming[k].size == 0,
    ensures
        merged(current, src, incoming, ascending).len() <= current.len(),
    decreases current.len() + incoming.len(),
{
    if incoming.len() > 0 {
        let inc1 = incoming.drop_first();
        assert forall|k: int| 0 <= k < inc1.len() implies #[trigger] inc1[k].size == 0 by {
            assert(inc1[k] == incoming[k + 1]);
        }
        assert(incoming[0].size == 0);
        lemma_merged_zero_len(current, src, inc1, ascending);
        if current.len() > 0 {
            lemma_merged_zero_len(current.drop_first(), src, inc1, ascending);
            lemma_merged_zero_len(current.drop_first(), src, incoming, ascending);
        }
    }
}

proof fn lemma_merged_absent_zero(current: Seq<LevelInfo>, src: Source, ascending: bool, price: i64)
    requires
        side_ok(current, ascending),
        size_at(current, price as int, src) == 0,
    ensures
        merged(current, src, seq![Level { price, size: 0 }], ascending) == current,
    decreases current.len(),
{
    let zero = seq![Level { price, size: 0 }];
    let none = zero.drop_first();
    assert(none =~= Seq::<Level>::empty());
    assert(merged(current, src, none, ascending) == current);
    assert(fresh_level(src, zero[0]) =~= Seq::<LevelInfo>::empty());
    if current.len() == 0 {
        assert(fresh_level(src, zero[0]) + current =~= current);
    } else {
        lemma_sorted_tail(current, ascending);
        let cur1 = current.drop_first();
        assert(current =~= seq![current[0]] + cur1);
        if current[0].price == price {
            assert(current[0].contribution(src) == 0);
            assert(current[0].with_size(src, 0) == current[0]);
            assert(merged(cur1, src, none, ascending) == cur1);
        } else if better(current[0].price as int, price as int, ascending) {
            lemma_merged_absent_zero(cur1, src, ascending, price);
        } else {
            assert(fresh_level(src, zero[0]) + current =~= current);
        }
    }
}

/// An update that gives a price size zero takes the updating source's
/// contribution away there; where that source was the only one with a
/// quantity at that price, the level is gone.
pub proof fn law_zero_size_deletes(side: Seq<LevelInfo>, op: Operation, ascending: bool, depth: nat, price: int)
    requires
        !op.is_snapshot(),
        side_ok(side, ascending),
        sorted_levels(op.levels(ascending), ascending),
        incoming_at(op.levels(ascending), price) == Some(0int),
    ensures
        size_at(next_side(side, op, ascending, depth), price, op.source_of()) == 0,
        (forall|t: Source| t != op.source_of() ==> #[trigger] size_at(side, price, t) == 0) ==> !has_level(
            next_side(side, op, ascending, depth),
            price,
        ),
{
    let src = op.source_of();
    let inc = op.levels(ascending);
    let m = merged(side, src, inc, ascending);
    let r = next_side(side, op, ascending, depth);
    lemma_merged_ok(side, src, inc, ascending);
    lemma_capped_ok(m, depth, ascending);
    lemma_merged_sizes(side, src, inc, ascending, price, src);
    lemma_capped_sizes(m, depth, price, src);
    if forall|t: Source| t != src ==> #[trigger] size_at(side, price, t) == 0 {
        assert forall|t: Source| #[trigger] size_at(r, price, t) == 0 by {
            lemma_merged_sizes(side, src, inc, ascending, price, t);
            lemma_capped_sizes(m, depth, price, t);
        }
        lemma_has_level(r, ascending, price);
    }
}

/// A price where exactly two sources contribute keeps its level when one of
/// them alone sends size zero there, with the other's size unchanged; it goes
/// once the other sends size zero as well.
pub proof fn law_multi_source_survival(
    side: Seq<LevelInfo>,
    first: Operation,
    second: Operation,
    ascending: bool,
    depth: nat,
    price: i64,
)
    requires
        side_ok(side, ascending),
        depth == 0 || side.len() <= depth,
        !first.is_snapshot(),
        !second.is_snapshot(),
        first.source_of() != second.source_of(),
        first.levels(ascending) == seq![Level { price, size: 0 }],
        second.levels(ascending) == seq![Level { price, size: 0 }],
        size_at(side, price as int, first.source_of()) != 0,
        size_at(side, price as int, second.source_of()) != 0,
        forall|t: Source|
            t != first.source_of() && t != second.source_of() ==> #[trigger] size_at(side, price as int, t) == 0,
    ensures
        has_level(next_side(side, first, ascending, depth), price as int),
        size_at(next_side(side, first, ascending, depth), price as int, second.source_of()) == size_at(
            side,
            price as int,
            second.source_of(),
        ),
        !has_level(next_side(next_side(side, first, ascending, depth), second, ascending, depth), price as int),
{
    let a = first.source_of();
    let b = second.source_of();
    let zero = seq![Level { price, size: 0 }];
    let p = price as int;
    assert(zero.drop_first() =~= Seq::<Level>::empty());
    assert(sorted_levels(zero, ascending));
    assert(incoming_at(zero, p) == Some(0int));
    let once = merged(side, a, zero, ascending);
    lemma_merged_zero_len(side, a, zero, ascending);
    assert(next_side(side, first, ascending, depth) == once);
    lemma_merged_ok(side, a, zero, ascending);
    lemma_merged_sizes(side, a, zero, ascending, p, b);
    lemma_has_level(once, ascending, p);
    law_zero_size_deletes(side, first, ascending, depth, p);
    assert forall|t: Source| t != b implies #[trigger] size_at(once, p, t) == 0 by {
        lemma_merged_sizes(side, a, zero, ascending, p, t);
    }
    law_zero_size_deletes(once, second, ascending, depth, p);
}

/// After a snapshot from a source, that source holds at
/// each price exactly what the snapshot reports (nothing earlier lingers,
/// however deep it was), every other source keeps its sizes, and the depth
/// bound at most hides a level.
pub proof fn law_snapshot_exclusive(side: Seq<LevelInfo>, op: Operation, ascending: bool, depth: nat, price: int, t: Source)
    requires
        op.is_snapshot(),
        side_ok(side, ascending),
        sorted_levels(op.levels(ascending), ascending),
    ensures
        ({
            let r = next_side(side, op, ascending, depth);
            let expected = if t == op.source_of() {
                match incoming_at(op.levels(ascending), price) {
                    Some(size) => size,
                    None => 0,
                }
            } else {
                size_at(side, price, t)
            };
            &&& size_at(r, price, t) == expected || size_at(r, price, t) == 0
            &&& depth == 0 ==> size_at(r, price, t) == expected
        }),
{
    let src = op.source_of();
    let inc = op.levels(ascending);
    let base = without_source(side, src);
    lemma_without_source_ok(side, src, ascending);
    lemma_without_source_sizes(side, src, ascending, price, t);
    lemma_merged_sizes(base, src, inc, ascending, price, t);
    lemma_capped_sizes(merged(base, src, inc, ascending), depth, price, t);
}

/// Deleting is idempotent: an update that sends size zero at a price where
/// its source holds nothing leaves the side as it was, so applying the same
/// zero-size update twice gives what applying it once gives.
pub proof fn law_deletion_idempotent(side: Seq<LevelInfo>, op: Operation, ascending: bool, depth: nat, price: i64)
    requires
        !op.is_snapshot(),
        side_ok(side, ascending),
        depth == 0 || side.len() <= depth,
        op.levels(ascending) == seq![Level { price, size: 0 }],
    ensures
        size_at(side, price as int, op.source_of()) == 0 ==> next_side(side, op, ascending, depth) == side,
        next_side(next_side(side, op, ascending, depth), op, ascending, depth) == next_side(
            side,
            op,
            ascending,
            depth,
        ),
{
    let src = op.source_of();
    let zero = seq![Level { price, size: 0 }];
    assert(zero.drop_first() =~= Seq::<Level>::empty());
    assert(sorted_levels(zero, ascending));
    assert(incoming_at(zero, price as int) == Some(0int));
    let once = merged(side, src, zero, ascending);
    lemma_merged_zero_len(side, src, zero, ascending);
    assert(next_side(side, op, ascending, depth) == once);
    if size_at(side, price as int, src) == 0 {
        lemma_merged_absent_zero(side, src, ascending, price);
    }
    lemma_merged_ok(side, src, zero, ascending);
    law_zero_size_deletes(side, op, ascending, depth, price as int);
    lemma_merged_absent_zero(once, src, ascending, price);
    lemma_merged_zero_len(once, src, zero, ascending);
}

} // verus!
