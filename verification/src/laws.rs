//! What holds of every state of the engine and of every consumption.

use vstd::prelude::*;
use crate::consumption::{ConsumptionRequest, LotChange, candidates_current, change_for, changes,
    changes_within, draw_at, lots_after, lots_after_within, lots_left, lots_left_within, outlasts,
    receipt, receipts, receipts_within, remainder, shortfall, taken_within, touched, with_change,
    with_changes, lemma_distinct_index, lemma_lots_after_next, lemma_lots_left,
    lemma_taken_within_next, lemma_touched, lemma_touched_is};
use crate::engine::{ConsumptionEngine, consume_lots, consume_records, consume_shortfall,
    lemma_strategy_order_current};
use crate::ledger::{Spec, cost_basis_total, realized_total, total_consumed, lemma_consumed_push};
use crate::lot::{Lot, lots_value, total_quantity, lemma_total_remove, lemma_total_take_le,
    lemma_total_take_next, lemma_total_update};
use crate::order::{strategy_order, lemma_strategy_order_exists};
use crate::stats::realized_gain;
use crate::store::{LotStore, all_positive, ascending_ids, distinct_ids, lot_index, lot_map,
    valid_lots, lemma_lot_index, lemma_lot_map_contains, lemma_lot_map_determines,
    lemma_lot_map_remove, lemma_lot_map_update};

verus! {

/// Conservation: in every state of the engine, the quantity on hand and the
/// quantity consumed add up to the quantity ever acquired. Purchases are
/// the only operations that raise the quantity acquired, each by what it
/// bought; a consumption leaves it as it was.
pub proof fn law_conservation(engine: &ConsumptionEngine)
    requires
        engine.wf(),
    ensures
        total_quantity(engine.lots()) + total_consumed(engine.records()) == engine.acquired(),
{
}

/// No lot lingers with nothing in it: every lot of the engine holds a
/// positive quantity, and every record consumed a positive quantity.
pub proof fn law_no_empty_lot(engine: &ConsumptionEngine)
    requires
        engine.wf(),
    ensures
        forall|i: int| 0 <= i < engine.lots().len() ==> engine.lots()[i].quantity > 0,
        forall|i: int| 0 <= i < engine.records().len() ==> engine.records()[i].quantity > 0,
{
}

/// No lot of a store holds nothing.
pub proof fn law_store_no_empty_lot(store: &LotStore)
    requires
        store.wf(),
    ensures
        forall|i: int| 0 <= i < store@.len() ==> store@[i].quantity > 0,
{
}

/// The first `k` candidates reached give, together, the lesser of what they
/// hold and what is needed.
pub proof fn lemma_receipts_total(c: Seq<Lot>, request: ConsumptionRequest, k: int)
    requires
        0 <= k <= touched(c, request.quantity_needed as nat),
    ensures
        total_consumed(receipts_within(c, request, k)) == if total_quantity(c.take(k))
            >= request.quantity_needed {
            request.quantity_needed as nat
        } else {
            total_quantity(c.take(k))
        },
    decreases k,
{
    let n = request.quantity_needed as nat;
    lemma_touched(c, n);
    if k == 0 {
        assert(c.take(0) =~= Seq::<Lot>::empty());
        assert(receipts_within(c, request, 0) =~= Seq::<Spec>::empty());
    } else {
        lemma_receipts_total(c, request, k - 1);
        lemma_total_take_next(c, k - 1);
        assert(total_quantity(c.take(k - 1)) < n);
        let entry = receipt(c[k - 1], draw_at(c, n, k - 1), request);
        assert(receipts_within(c, request, k) =~= receipts_within(c, request, k - 1).push(entry));
        lemma_consumed_push(receipts_within(c, request, k - 1), entry);
    }
}

/// Every request is accounted for: what the records consumed and what is
/// reported as the shortfall add up to what was asked for.
pub proof fn law_request_accounted(c: Seq<Lot>, request: ConsumptionRequest)
    ensures
        total_consumed(receipts(c, request)) + shortfall(c, request.quantity_needed as nat)
            == request.quantity_needed,
{
    let n = request.quantity_needed as nat;
    let k = touched(c, n) as int;
    lemma_touched(c, n);
    lemma_receipts_total(c, request, k);
    if k == c.len() {
        assert(c.take(k) =~= c);
    } else {
        lemma_total_take_le(c, k);
    }
}

/// What the lots are before any candidate has given: the lots themselves.
proof fn lemma_left_at_start(lots: Seq<Lot>, c: Seq<Lot>, needed: nat)
    requires
        ascending_ids(lots),
        all_positive(lots),
    ensures
        lots_left_within(lots, c, needed, 0) == lots,
{
    let before = lot_map(lots);
    lemma_lots_left(lots, c, needed, 0);
    assert(c.take(0) =~= Seq::<Lot>::empty());
    assert forall|id: u64| before.dom().contains(id) implies (#[trigger] before[id]).quantity
        > 0 by {
        lemma_lot_map_contains(lots, id);
    }
    assert(lots_after_within(before, c, needed, 0) =~= before);
    lemma_lot_map_determines(lots_left_within(lots, c, needed, 0), lots);
}

/// One more candidate of a true snapshot: the lots left are those left
/// before with its change carried out, and they hold less by what it gave.
proof fn lemma_left_next(lots: Seq<Lot>, c: Seq<Lot>, needed: nat, i: int)
    requires
        ascending_ids(lots),
        all_positive(lots),
        0 <= i < touched(c, needed),
        distinct_ids(c.take(i + 1)),
        lots.contains(c[i]),
    ensures
        lots_left_within(lots, c, needed, i + 1) == with_change(
            lots_left_within(lots, c, needed, i),
            change_for(c[i], draw_at(c, needed, i)),
        ),
        total_quantity(lots_left_within(lots, c, needed, i + 1)) + draw_at(c, needed, i)
            == total_quantity(lots_left_within(lots, c, needed, i)),
        0 < draw_at(c, needed, i) <= c[i].quantity,
{
    let before = lot_map(lots);
    let lot = c[i];
    let prev = lots_left_within(lots, c, needed, i);
    let left = lots_left_within(lots, c, needed, i + 1);
    lemma_touched(c, needed);
    lemma_lots_left(lots, c, needed, i);
    lemma_lots_left(lots, c, needed, i + 1);
    let m = choose|m: int| 0 <= m < lots.len() && lots[m] == c[i];
    lemma_lot_index(lots, m);
    lemma_taken_within_next(c, needed, i, lot.id);
    lemma_lots_after_next(before, c, needed, i);
    assert(lot_map(prev).dom().contains(lot.id));
    lemma_lot_map_contains(prev, lot.id);
    let idx = lot_index(prev, lot.id);
    lemma_lot_index(prev, idx);
    assert(prev[idx] == lot);
    let draw = draw_at(c, needed, i);
    assert(total_quantity(c.take(i)) < needed);
    if draw == lot.quantity {
        lemma_lot_map_remove(prev, idx);
        lemma_lot_map_determines(left, prev.remove(idx));
        lemma_total_remove(prev, idx);
    } else {
        let rest = Lot { quantity: (lot.quantity - draw) as u64, ..lot };
        lemma_lot_map_update(prev, idx, rest);
        lemma_lot_map_determines(left, prev.update(idx, rest));
        lemma_total_update(prev, idx, rest);
    }
}

/// What is left after the first `k` candidates have given is what the first
/// `k` changes make of the lots; and what is left and what the records say
/// was given add up to what was there.
proof fn lemma_left_and_given(lots: Seq<Lot>, c: Seq<Lot>, request: ConsumptionRequest, k: int)
    requires
        ascending_ids(lots),
        all_positive(lots),
        0 <= k <= touched(c, request.quantity_needed as nat),
        distinct_ids(c.take(k)),
        forall|j: int| 0 <= j < k ==> lots.contains(#[trigger] c[j]),
    ensures
        lots_left_within(lots, c, request.quantity_needed as nat, k) == with_changes(
            lots,
            changes_within(c, request.quantity_needed as nat, k),
        ),
        total_quantity(lots_left_within(lots, c, request.quantity_needed as nat, k))
            + total_consumed(receipts_within(c, request, k)) == total_quantity(lots),
    decreases k,
{
    let n = request.quantity_needed as nat;
    lemma_touched(c, n);
    if k == 0 {
        lemma_left_at_start(lots, c, n);
        assert(receipts_within(c, request, 0) =~= Seq::<Spec>::empty());
        assert(changes_within(c, n, 0) =~= Seq::<LotChange>::empty());
    } else {
        let i = k - 1;
        let short = c.take(i);
        let long = c.take(k);
        assert forall|a: int, b: int| 0 <= a < b < short.len() implies short[a].id
            != short[b].id by {
            assert(long[a].id != long[b].id);
        }
        lemma_left_and_given(lots, c, request, i);
        assert(lots.contains(c[i]));
        lemma_left_next(lots, c, n, i);
        let entry = receipt(c[i], draw_at(c, n, i), request);
        assert(receipts_within(c, request, k) =~= receipts_within(c, request, i).push(entry));
        lemma_consumed_push(receipts_within(c, request, i), entry);
        assert(changes_within(c, n, k).drop_last() =~= changes_within(c, n, i));
    }
}

/// The changes say what was done: carried out in order on the lots that
/// the store held, the changes of a consumption from a true snapshot give
/// the lots that the consumption leaves.
pub proof fn law_changes_give_lots_left(lots: Seq<Lot>, c: Seq<Lot>, request: ConsumptionRequest)
    requires
        valid_lots(lots),
        candidates_current(lots, c, request.quantity_needed as nat),
    ensures
        with_changes(lots, changes(c, request.quantity_needed as nat)) == lots_left(
            lots,
            c,
            request.quantity_needed as nat,
        ),
{
    let n = request.quantity_needed as nat;
    let k = touched(c, n) as int;
    lemma_touched(c, n);
    let reached = c.take(k);
    assert forall|a: int, b: int| 0 <= a < b < reached.len() implies reached[a].id
        != reached[b].id by {
        assert(c[a].id != c[b].id);
    }
    lemma_left_and_given(lots, c, request, k);
}

/// Conservation across one consumption: served from a true snapshot, the
/// lots that are left and the records that were written hold together what
/// the lots held before. Nothing is fabricated and nothing is lost.
pub proof fn law_consumption_conserves(lots: Seq<Lot>, c: Seq<Lot>, request: ConsumptionRequest)
    requires
        valid_lots(lots),
        candidates_current(lots, c, request.quantity_needed as nat),
    ensures
        total_quantity(lots_left(lots, c, request.quantity_needed as nat)) + total_consumed(
            receipts(c, request),
        ) == total_quantity(lots),
{
    let n = request.quantity_needed as nat;
    let k = touched(c, n) as int;
    lemma_touched(c, n);
    let reached = c.take(k);
    assert forall|a: int, b: int| 0 <= a < b < reached.len() implies reached[a].id
        != reached[b].id by {
        assert(c[a].id != c[b].id);
    }
    lemma_left_and_given(lots, c, request, k);
}

/// Conservation across `consume`: whatever the request and the strategy,
/// the lots that `consume` leaves and the records that it writes hold
/// together what the store held before; and the records and the shortfall
/// make up the request if the store covers it.
pub proof fn law_consume_conserves(lots: Seq<Lot>, request: ConsumptionRequest)
    requires
        valid_lots(lots),
    ensures
        total_quantity(consume_lots(lots, request)) + total_consumed(
            consume_records(lots, request),
        ) == total_quantity(lots),
        total_quantity(lots) >= request.quantity_needed ==> total_consumed(
            consume_records(lots, request),
        ) == request.quantity_needed && consume_shortfall(lots, request) == 0,
{
    if total_quantity(lots) >= request.quantity_needed {
        let n = request.quantity_needed as nat;
        lemma_strategy_order_exists(lots, request.strategy);
        let c = strategy_order(lots, request.strategy);
        lemma_strategy_order_current(lots, c, request.strategy, n);
        law_consumption_conserves(lots, c, request);
        law_request_accounted(c, request);
    }
}

/// No lot lingers with nothing in it: whatever the candidates, every lot
/// that a consumption leaves holds a positive quantity.
pub proof fn law_lots_left_positive(lots: Seq<Lot>, c: Seq<Lot>, needed: nat)
    ensures
        all_positive(lots_left(lots, c, needed)),
{
    let k = touched(c, needed) as int;
    let kept = lots.filter(outlasts(c, needed, k));
    let left = lots_left(lots, c, needed);
    assert forall|j: int| 0 <= j < left.len() implies left[j].quantity > 0 by {
        lots.lemma_filter_pred(outlasts(c, needed, k), j);
        assert(left[j] == remainder(c, needed, k)(kept[j]));
    }
}

/// Shortfall: a request for more than the candidates hold takes everything
/// they hold. Every candidate is reached and gives all it holds, none of
/// them remains among the lots, and the shortfall is the request less what
/// the candidates held.
pub proof fn law_shortfall_takes_everything(
    before: Map<u64, Lot>,
    c: Seq<Lot>,
    request: ConsumptionRequest,
)
    requires
        total_quantity(c) < request.quantity_needed,
        distinct_ids(c),
        forall|i: int|
            0 <= i < c.len() ==> before.dom().contains(c[i].id) && before[c[i].id] == c[i],
    ensures
        shortfall(c, request.quantity_needed as nat) == request.quantity_needed - total_quantity(
            c,
        ),
        receipts(c, request).len() == c.len(),
        forall|i: int|
            0 <= i < c.len() ==> (#[trigger] receipts(c, request)[i]).quantity == c[i].quantity,
        total_consumed(receipts(c, request)) == total_quantity(c),
        forall|i: int|
            0 <= i < c.len() ==> !lots_after(before, c, request.quantity_needed as nat).dom().contains(
                #[trigger] c[i].id,
            ),
{
    let n = request.quantity_needed as nat;
    assert forall|j: int| 0 <= j < c.len() implies total_quantity(#[trigger] c.take(j)) < n by {
        lemma_total_take_le(c, j);
    }
    lemma_touched_is(c, n, c.len() as int);
    assert(c.take(c.len() as int) =~= c);
    assert forall|i: int| 0 <= i < c.len() implies draw_at(c, n, i) == c[i].quantity by {
        lemma_total_take_next(c, i);
        lemma_total_take_le(c, i + 1);
    }
    law_request_accounted(c, request);
    assert forall|i: int| 0 <= i < c.len() implies !lots_after(before, c, n).dom().contains(
        #[trigger] c[i].id,
    ) by {
        lemma_distinct_index(c, i);
        assert(taken_within(c, n, c.len() as int, c[i].id) == draw_at(c, n, i));
    }
}

/// Shortfall on `consume`: where the store holds nothing, a request comes
/// back whole as the shortfall, which is then the request less what the
/// store held, and all that was available, namely nothing, is consumed.
/// (Where the store holds something but not enough, `consume` takes nothing
/// and reports the whole request.)
pub proof fn law_consume_from_nothing(lots: Seq<Lot>, request: ConsumptionRequest)
    requires
        total_quantity(lots) == 0,
        request.quantity_needed > total_quantity(lots),
    ensures
        consume_shortfall(lots, request) == request.quantity_needed - total_quantity(lots),
        total_consumed(consume_records(lots, request)) == total_quantity(lots),
        total_quantity(consume_lots(lots, request)) == 0,
{
}

/// A draw on one lot: asking for less than the lot holds leaves the lot
/// with the rest, its price and its date unchanged; asking for all it holds
/// or more removes it. No other lot is touched.
pub proof fn law_draw_on_one_lot(before: Map<u64, Lot>, lot: Lot, needed: nat)
    requires
        forall|id: u64| before.dom().contains(id) ==> (#[trigger] before[id]).quantity > 0,
        before.dom().contains(lot.id),
        before[lot.id] == lot,
        needed > 0,
    ensures
        lots_after(before, seq![lot], needed) == if needed < lot.quantity {
            before.insert(lot.id, Lot { quantity: (lot.quantity - needed) as u64, ..lot })
        } else {
            before.remove(lot.id)
        },
{
    let c = seq![lot];
    assert(c.drop_last() =~= Seq::<Lot>::empty());
    assert(c.take(0) =~= Seq::<Lot>::empty());
    assert(c.take(1) =~= c);
    assert(touched(c, needed) == 1);
    assert(lots_after_within(before, c, needed, 0) =~= before);
    lemma_lots_after_next(before, c, needed, 0);
}

/// Aggregation: a purchase raises the acquisition value by its quantity
/// times its unit price, so after any number of purchases into an empty
/// store the acquisition value is the sum of those products.
pub proof fn law_acquisition_value_adds(lots: Seq<Lot>, lot: Lot)
    ensures
        lots_value(Seq::<Lot>::empty()) == 0,
        lots_value(lots.push(lot)) == lots_value(lots) + lot.quantity * lot.unit_price,
{
    assert(lots.push(lot).drop_last() =~= lots);
}

/// Aggregation: the realised value less the cost basis is the gain realised
/// across all consumptions; a loss is a negative gain.
pub proof fn law_realized_gain(records: Seq<Spec>)
    ensures
        realized_total(records) - cost_basis_total(records) == realized_gain(records),
    decreases records.len(),
{
    if records.len() > 0 {
        law_realized_gain(records.drop_last());
        let e = records.last();
        assert(e.quantity * (e.sale_price - e.orig_price) == e.quantity * e.sale_price
            - e.quantity * e.orig_price) by (nonlinear_arith);
    }
}

} // verus!
