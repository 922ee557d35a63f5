//! The order in which a strategy presents lots for consumption.

use vstd::prelude::*;
use crate::lot::{Lot, Strategy, draws_before};
use crate::store::distinct_ids;

verus! {

/// Every lot of `c` is drawn from before all the lots behind it.
pub open spec fn in_strategy_order(c: Seq<Lot>, strategy: Strategy) -> bool {
    forall|i: int, j: int| 0 <= i < j < c.len() ==> draws_before(strategy, c[i], c[j])
}

/// `c` holds exactly the lots of `lots`, arranged as `strategy` draws them.
pub open spec fn is_strategy_order(c: Seq<Lot>, lots: Seq<Lot>, strategy: Strategy) -> bool {
    c.to_multiset() == lots.to_multiset() && in_strategy_order(c, strategy)
}

/// The lots of `lots` arranged as `strategy` draws them.
pub open spec fn strategy_order(lots: Seq<Lot>, strategy: Strategy) -> Seq<Lot> {
    choose|c: Seq<Lot>| is_strategy_order(c, lots, strategy)
}

/// No lot is drawn from before itself, and of two lots at most one is drawn
/// from before the other.
pub proof fn lemma_draws_before_asymmetric(strategy: Strategy, a: Lot, b: Lot)
    ensures
        !(draws_before(strategy, a, b) && draws_before(strategy, b, a)),
        !draws_before(strategy, a, a),
{
}

/// If `a` goes before `b` and `b` before `c`, then `a` goes before `c`.
pub proof fn lemma_draws_before_transitive(strategy: Strategy, a: Lot, b: Lot, c: Lot)
    requires
        draws_before(strategy, a, b),
        draws_before(strategy, b, c),
    ensures
        draws_before(strategy, a, c),
{
}

/// Of two lots with different identifiers, one goes before the other.
pub proof fn lemma_draws_before_total(strategy: Strategy, a: Lot, b: Lot)
    requires
        a.id != b.id,
    ensures
        draws_before(strategy, a, b) || draws_before(strategy, b, a),
{
}

/// A set of lots has at most one arrangement in strategy order.
pub proof fn lemma_strategy_order_unique(a: Seq<Lot>, b: Seq<Lot>, strategy: Strategy)
    requires
        a.to_multiset() == b.to_multiset(),
        in_strategy_order(a, strategy),
        in_strategy_order(b, strategy),
    ensures
        a == b,
    decreases a.len(),
{
    a.to_multiset_ensures();
    b.to_multiset_ensures();
    if a.len() == 0 {
        assert(b.len() == 0);
        assert(a =~= b);
    } else {
        let n = a.len() - 1;
        let x = a[n];
        assert(a.to_multiset().count(x) > 0);
        assert(b.to_multiset().count(x) > 0);
        assert(b.contains(x));
        let j = choose|j: int| 0 <= j < b.len() && b[j] == x;
        if j < n {
            let y = b[n];
            assert(draws_before(strategy, x, y));
            assert(b.to_multiset().count(y) > 0);
            assert(a.to_multiset().count(y) > 0);
            assert(a.contains(y));
            let i = choose|i: int| 0 <= i < a.len() && a[i] == y;
            lemma_draws_before_asymmetric(strategy, x, y);
            if i < n {
                assert(draws_before(strategy, a[i], a[n]));
            }
            assert(false);
        }
        assert(a.drop_last() =~= a.remove(n));
        assert(b.drop_last() =~= b.remove(n));
        assert(a.drop_last().to_multiset() =~= b.drop_last().to_multiset());
        lemma_strategy_order_unique(a.drop_last(), b.drop_last(), strategy);
        assert(a =~= a.drop_last().push(x));
        assert(b =~= b.drop_last().push(x));
    }
}

/// Puts one more lot into an arrangement that is in strategy order, at the
/// place where it belongs.
proof fn arrange_one_more(c: Seq<Lot>, lot: Lot, strategy: Strategy) -> (r: Seq<Lot>)
    requires
        in_strategy_order(c, strategy),
        forall|k: int| 0 <= k < c.len() ==> c[k].id != lot.id,
    ensures
        in_strategy_order(r, strategy),
        r.to_multiset() == c.to_multiset().insert(lot),
    decreases c.len(),
{
    c.to_multiset_ensures();
    if c.len() == 0 {
        let r = seq![lot];
        assert(r =~= c.push(lot));
        r
    } else if draws_before(strategy, c.last(), lot) {
        let r = c.push(lot);
        assert forall|i: int, j: int| 0 <= i < j < r.len() implies draws_before(
            strategy,
            r[i],
            r[j],
        ) by {
            if j == c.len() && i < c.len() - 1 {
                lemma_draws_before_transitive(strategy, c[i], c.last(), lot);
            }
        }
        r
    } else {
        let head = c.drop_last();
        let last = c.last();
        lemma_draws_before_total(strategy, lot, last);
        let inner = arrange_one_more(head, lot, strategy);
        let r = inner.push(last);
        inner.to_multiset_ensures();
        head.to_multiset_ensures();
        assert(c =~= head.push(last));
        assert forall|i: int| 0 <= i < inner.len() implies draws_before(
            strategy,
            #[trigger] inner[i],
            last,
        ) by {
            assert(inner.to_multiset().count(inner[i]) > 0);
            if inner[i] != lot {
                assert(head.to_multiset().count(inner[i]) > 0);
                assert(head.contains(inner[i]));
                let k = choose|k: int| 0 <= k < head.len() && head[k] == inner[i];
                assert(draws_before(strategy, c[k], c[c.len() - 1]));
            }
        }
        assert(r.to_multiset() =~= c.to_multiset().insert(lot));
        r
    }
}

/// Lots with distinct identifiers have an arrangement in strategy order:
/// `strategy_order` is that arrangement.
pub proof fn lemma_strategy_order_exists(lots: Seq<Lot>, strategy: Strategy)
    requires
        distinct_ids(lots),
    ensures
        is_strategy_order(strategy_order(lots, strategy), lots, strategy),
    decreases lots.len(),
{
    if lots.len() == 0 {
        assert(is_strategy_order(lots, lots, strategy));
    } else {
        let head = lots.drop_last();
        let last = lots.last();
        lemma_strategy_order_exists(head, strategy);
        let c = strategy_order(head, strategy);
        c.to_multiset_ensures();
        head.to_multiset_ensures();
        assert forall|k: int| 0 <= k < c.len() implies c[k].id != last.id by {
            assert(c.to_multiset().count(c[k]) > 0);
            assert(head.contains(c[k]));
            let m = choose|m: int| 0 <= m < head.len() && head[m] == c[k];
            assert(lots[m].id != lots[lots.len() - 1].id);
        }
        let r = arrange_one_more(c, last, strategy);
        assert(lots =~= head.push(last));
        assert(is_strategy_order(r, lots, strategy));
    }
}

/// Whatever arrangement of `lots` is in strategy order is `strategy_order`.
pub proof fn lemma_strategy_order_is(c: Seq<Lot>, lots: Seq<Lot>, strategy: Strategy)
    requires
        is_strategy_order(c, lots, strategy),
    ensures
        c == strategy_order(lots, strategy),
{
    let d = strategy_order(lots, strategy);
    assert(is_strategy_order(d, lots, strategy));
    lemma_strategy_order_unique(c, d, strategy);
}

} // verus!
