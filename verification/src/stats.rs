//! The running totals: what the lots on hand cost, what the consumed
//! quantities realised, and what they had cost.

use vstd::prelude::*;
use crate::engine::ConsumptionEngine;
use crate::ledger::{Ledger, Spec, cost_basis_total, realized_total, total_consumed,
    lemma_consumed_take_le};
use crate::lot::{Lot, lots_value, total_quantity, lemma_total_take_le};
use crate::store::LotStore;

verus! {

/// The three totals, taken from one state of the engine.
#[derive(Clone, Copy, Debug, PartialEq, Eq, Structural)]
pub struct Statistics {
    /// What the lots on hand cost at acquisition.
    pub acquisition_value: u128,
    /// What the consumed quantities realised.
    pub sell_value: u128,
    /// What the consumed quantities had cost.
    pub orig_value: u128,
}

/// The gain realised by a sequence of records: for each, the quantity times
/// the difference between the realised unit price and the unit price of the
/// lot it came from. A loss is a negative gain.
pub open spec fn realized_gain(records: Seq<Spec>) -> int
    decreases records.len(),
{
    if records.len() == 0 {
        0
    } else {
        realized_gain(records.drop_last()) + records.last().quantity * (records.last().sale_price
            - records.last().orig_price)
    }
}

/// The product of two `u64` values fits a `u128`, with room to add up as
/// many products as the factors on one side add up to a `u64`.
proof fn lemma_product_bound(q: nat, p: nat)
    requires
        p <= u64::MAX,
    ensures
        q * p <= q * u64::MAX,
{
    assert(q * p <= q * u64::MAX) by (nonlinear_arith)
        requires
            p <= u64::MAX,
    ;
}

/// Lots cost no more than their total quantity at the highest unit price.
pub proof fn lemma_lots_value_bound(lots: Seq<Lot>)
    ensures
        lots_value(lots) <= total_quantity(lots) * u64::MAX,
    decreases lots.len(),
{
    if lots.len() > 0 {
        lemma_lots_value_bound(lots.drop_last());
        let q = lots.last().quantity as nat;
        let t = total_quantity(lots.drop_last());
        lemma_product_bound(q, lots.last().unit_price as nat);
        assert((t + q) * u64::MAX == t * u64::MAX + q * u64::MAX) by (nonlinear_arith);
    }
}

/// Records realised no more than their total quantity at the highest unit
/// price, and had cost no more than that either.
pub proof fn lemma_record_values_bound(records: Seq<Spec>)
    ensures
        realized_total(records) <= total_consumed(records) * u64::MAX,
        cost_basis_total(records) <= total_consumed(records) * u64::MAX,
    decreases records.len(),
{
    if records.len() > 0 {
        lemma_record_values_bound(records.drop_last());
        let q = records.last().quantity as nat;
        let t = total_consumed(records.drop_last());
        lemma_product_bound(q, records.last().sale_price as nat);
        lemma_product_bound(q, records.last().orig_price as nat);
        assert((t + q) * u64::MAX == t * u64::MAX + q * u64::MAX) by (nonlinear_arith);
    }
}

/// A total quantity that fits a `u64` keeps every value within a `u128`.
proof fn lemma_value_fits(total: nat)
    requires
        total <= u64::MAX,
    ensures
        total * u64::MAX <= u128::MAX,
{
    assert(total * u64::MAX <= u128::MAX) by (nonlinear_arith)
        requires
            total <= 0xffff_ffff_ffff_ffff,
            u64::MAX == 0xffff_ffff_ffff_ffff,
            u128::MAX == 0xffff_ffff_ffff_ffff_ffff_ffff_ffff_ffff,
    ;
}

/// The sum over the current lots of quantity times unit price.
pub fn acquisition_value(store: &LotStore) -> (value: u128)
    requires
        store.wf(),
    ensures
        value == lots_value(store@),
{
    let lots = store.lots();
    let mut value: u128 = 0;
    let mut i: usize = 0;
    while i < lots.len()
        invariant
            i <= lots@.len(),
            total_quantity(lots@) <= u64::MAX,
            value == lots_value(lots@.take(i as int)),
        decreases lots@.len() - i,
    {
        let lot = lots[i];
        proof {
            let next = lots@.take(i as int + 1);
            assert(next.drop_last() =~= lots@.take(i as int));
            lemma_lots_value_bound(next);
            lemma_total_take_le(lots@, i as int + 1);
            lemma_value_fits(total_quantity(next));
            assert(total_quantity(next) * u64::MAX <= total_quantity(lots@) * u64::MAX)
                by (nonlinear_arith)
                requires
                    total_quantity(next) <= total_quantity(lots@),
            ;
            lemma_value_fits(total_quantity(lots@));
            lemma_product_bound(lot.quantity as nat, lot.unit_price as nat);
            lemma_value_fits(lot.quantity as nat);
        }
        value = value + (lot.quantity as u128) * (lot.unit_price as u128);
        i += 1;
    }
    assert(lots@.take(lots@.len() as int) =~= lots@);
    value
}

/// The sum over all records of quantity consumed times realised unit price.
pub fn realized_value(ledger: &Ledger) -> (value: u128)
    requires
        ledger.wf(),
    ensures
        value == realized_total(ledger@),
{
    let records = ledger.records();
    let mut value: u128 = 0;
    let mut i: usize = 0;
    while i < records.len()
        invariant
            i <= records@.len(),
            total_consumed(records@) <= u64::MAX,
            value == realized_total(records@.take(i as int)),
        decreases records@.len() - i,
    {
        let entry = records[i];
        proof {
            let next = records@.take(i as int + 1);
            assert(next.drop_last() =~= records@.take(i as int));
            lemma_record_values_bound(next);
            lemma_consumed_take_le(records@, i as int + 1);
            assert(total_consumed(next) * u64::MAX <= total_consumed(records@) * u64::MAX)
                by (nonlinear_arith)
                requires
                    total_consumed(next) <= total_consumed(records@),
            ;
            lemma_value_fits(total_consumed(records@));
            lemma_product_bound(entry.quantity as nat, entry.sale_price as nat);
            lemma_value_fits(entry.quantity as nat);
        }
        value = value + (entry.quantity as u128) * (entry.sale_price as u128);
        i += 1;
    }
    assert(records@.take(records@.len() as int) =~= records@);
    value
}

/// The sum over all records of quantity consumed times the unit price of
/// the lot it came from.
pub fn cost_basis_value(ledger: &Ledger) -> (value: u128)
    requires
        ledger.wf(),
    ensures
        value == cost_basis_total(ledger@),
{
    let records = ledger.records();
    let mut value: u128 = 0;
    let mut i: usize = 0;
    while i < records.len()
        invariant
            i <= records@.len(),
            total_consumed(records@) <= u64::MAX,
            value == cost_basis_total(records@.take(i as int)),
        decreases records@.len() - i,
    {
        let entry = records[i];
        proof {
            let next = records@.take(i as int + 1);
            assert(next.drop_last() =~= records@.take(i as int));
            lemma_record_values_bound(next);
            lemma_consumed_take_le(records@, i as int + 1);
            assert(total_consumed(next) * u64::MAX <= total_consumed(records@) * u64::MAX)
                by (nonlinear_arith)
                requires
                    total_consumed(next) <= total_consumed(records@),
            ;
            lemma_value_fits(total_consumed(records@));
            lemma_product_bound(entry.quantity as nat, entry.orig_price as nat);
            lemma_value_fits(entry.quantity as nat);
        }
        value = value + (entry.quantity as u128) * (entry.orig_price as u128);
        i += 1;
    }
    assert(records@.take(records@.len() as int) =~= records@);
    value
}

/// The three totals of one state of the engine.
pub fn inventory_statistics(engine: &ConsumptionEngine) -> (stats: Statistics)
    requires
        engine.wf(),
    ensures
        stats.acquisition_value == lots_value(engine.lots()),
        stats.sell_value == realized_total(engine.records()),
        stats.orig_value == cost_basis_total(engine.records()),
{
    Statistics {
        acquisition_value: acquisition_value(engine.store()),
        sell_value: realized_value(engine.ledger()),
        orig_value: cost_basis_value(engine.ledger()),
    }
}

} // verus!
