//! Snapshots of the lots and of the ledger as rows for display.

use vstd::prelude::*;
use crate::engine::ConsumptionEngine;
use crate::ledger::Spec;
use crate::lot::Lot;

verus! {

/// One row of a listing. A row for a lot on hand has its quantity, its unit
/// price and its acquisition date; a row for a consumption has its quantity,
/// both unit prices and its date. The other cells are empty.
#[derive(Debug)]
pub struct TaoPurchase {
    pub quantity: Option<u64>,
    pub orig_price: Option<u64>,
    pub selling_price: Option<u64>,
    pub purchase_date: Option<String>,
    pub liquidation_date: Option<String>,
}

impl TaoPurchase {
    /// The row is the listing of `lot`.
    pub open spec fn shows_lot(&self, lot: Lot) -> bool {
        &&& self.quantity == Some(lot.quantity)
        &&& self.orig_price == Some(lot.unit_price)
        &&& self.selling_price is None
        &&& self.purchase_date is Some
        &&& self.purchase_date->0@ == lot.acquired_at.text()
        &&& self.liquidation_date is None
    }

    /// The row is the listing of the consumption record `entry`.
    pub open spec fn shows_record(&self, entry: Spec) -> bool {
        &&& self.quantity == Some(entry.quantity)
        &&& self.orig_price == Some(entry.orig_price)
        &&& self.selling_price == Some(entry.sale_price)
        &&& self.purchase_date is None
        &&& self.liquidation_date is Some
        &&& self.liquidation_date->0@ == entry.liquidation_date.text()
    }
}

/// The lots on hand, one row each, in ascending order of identifier.
pub fn print_inventory(engine: &ConsumptionEngine) -> (rows: Vec<TaoPurchase>)
    ensures
        rows@.len() == engine.lots().len(),
        forall|i: int| 0 <= i < rows@.len() ==> (#[trigger] rows@[i]).shows_lot(engine.lots()[i]),
{
    let lots = engine.store().lots();
    let mut rows: Vec<TaoPurchase> = Vec::new();
    let mut i: usize = 0;
    while i < lots.len()
        invariant
            i <= lots@.len(),
            rows@.len() == i,
            forall|k: int| 0 <= k < i ==> (#[trigger] rows@[k]).shows_lot(lots@[k]),
        decreases lots@.len() - i,
    {
        let lot = lots[i];
        rows.push(
            TaoPurchase {
                quantity: Some(lot.quantity),
                orig_price: Some(lot.unit_price),
                selling_price: None,
                purchase_date: Some(lot.acquired_at.to_string()),
                liquidation_date: None,
            },
        );
        i += 1;
    }
    rows
}

/// The consumption records, one row each, oldest first.
pub fn print_inventory_used(engine: &ConsumptionEngine) -> (rows: Vec<TaoPurchase>)
    ensures
        rows@.len() == engine.records().len(),
        forall|i: int|
            0 <= i < rows@.len() ==> (#[trigger] rows@[i]).shows_record(engine.records()[i]),
{
    let records = engine.ledger().records();
    let mut rows: Vec<TaoPurchase> = Vec::new();
    let mut i: usize = 0;
    while i < records.len()
        invariant
            i <= records@.len(),
            rows@.len() == i,
            forall|k: int| 0 <= k < i ==> (#[trigger] rows@[k]).shows_record(records@[k]),
        decreases records@.len() - i,
    {
        let entry = records[i];
        rows.push(
            TaoPurchase {
                quantity: Some(entry.quantity),
                orig_price: Some(entry.orig_price),
                selling_price: Some(entry.sale_price),
                purchase_date: None,
                liquidation_date: Some(entry.liquidation_date.to_string()),
            },
        );
        i += 1;
    }
    rows
}

} // verus!
