use tao_inventory::consumption::{ConsumptionRequest, LotChange};
use tao_inventory::datetime::DateTime;
use tao_inventory::engine::{
    check_inventory, record_purchase, use_tao, ConsumptionEngine, ConsumptionStatus,
};
use tao_inventory::error::AppError;
use tao_inventory::ledger::Spec;
use tao_inventory::lot::{Lot, Strategy};

fn day(d: u32) -> DateTime {
    DateTime::new(2024, 1, d, 12, 0, 0)
}

fn three_lots() -> ConsumptionEngine {
    let mut engine = ConsumptionEngine::new();
    assert_eq!(record_purchase(&mut engine, 10, 5, day(1)), Ok(1));
    assert_eq!(record_purchase(&mut engine, 20, 3, day(2)), Ok(2));
    assert_eq!(record_purchase(&mut engine, 30, 8, day(3)), Ok(3));
    engine
}

fn request(quantity_needed: u64, strategy: Strategy) -> ConsumptionRequest {
    ConsumptionRequest { quantity_needed, strategy, realized_unit_price: 9, occurred_at: day(9) }
}

fn record(quantity: u64, orig_price: u64) -> Spec {
    Spec { quantity, orig_price, sale_price: 9, liquidation_date: day(9) }
}

fn lot(id: u64, quantity: u64, unit_price: u64, d: u32) -> Lot {
    Lot { id, quantity, unit_price, acquired_at: day(d) }
}

#[test]
fn fifo_draws_from_the_earliest_lots() {
    let mut engine = three_lots();
    let out = engine.consume(&request(15, Strategy::Fifo)).unwrap();
    assert_eq!(out.records, vec![record(10, 5), record(5, 3)]);
    assert_eq!(out.shortfall, 0);
    assert_eq!(engine.store().lots(), &vec![lot(2, 15, 3, 2), lot(3, 30, 8, 3)]);
}

#[test]
fn lifo_draws_from_the_latest_lot() {
    let mut engine = three_lots();
    let out = engine.consume(&request(15, Strategy::Lifo)).unwrap();
    assert_eq!(out.records, vec![record(15, 8)]);
    assert_eq!(out.shortfall, 0);
    assert_eq!(
        engine.store().lots(),
        &vec![lot(1, 10, 5, 1), lot(2, 20, 3, 2), lot(3, 15, 8, 3)]
    );
}

#[test]
fn lofo_draws_from_the_cheapest_lot() {
    let mut engine = three_lots();
    let out = engine.consume(&request(15, Strategy::Lofo)).unwrap();
    assert_eq!(out.records, vec![record(15, 3)]);
    assert_eq!(
        engine.store().lots(),
        &vec![lot(1, 10, 5, 1), lot(2, 5, 3, 2), lot(3, 30, 8, 3)]
    );
}

#[test]
fn hifo_draws_from_the_dearest_lot() {
    let mut engine = three_lots();
    let out = engine.consume(&request(15, Strategy::Hifo)).unwrap();
    assert_eq!(out.records, vec![record(15, 8)]);
    assert_eq!(
        engine.store().lots(),
        &vec![lot(1, 10, 5, 1), lot(2, 20, 3, 2), lot(3, 15, 8, 3)]
    );
}

#[test]
fn use_tao_returns_the_records() {
    let mut engine = three_lots();
    let out = use_tao(&mut engine, 15, day(9), 9, Strategy::Fifo).unwrap();
    assert_eq!(out.records, vec![record(10, 5), record(5, 3)]);
    assert_eq!(
        out.changes,
        vec![LotChange::Delete { id: 1 }, LotChange::Reduce { id: 2, new_quantity: 15 }]
    );
    assert_eq!(out.shortfall, 0);
    assert!(check_inventory(&engine, 45));
    assert!(!check_inventory(&engine, 46));
}

#[test]
fn purchase_of_nothing_is_refused() {
    let mut engine = ConsumptionEngine::new();
    assert_eq!(record_purchase(&mut engine, 0, 5, day(1)), Err(AppError::InvariantViolation));
    assert_eq!(engine.store().len(), 0);
}

#[test]
fn status_tells_whether_the_request_was_served() {
    let mut engine = three_lots();
    let served = engine.consume(&request(60, Strategy::Fifo)).unwrap();
    assert_eq!(served.status(), ConsumptionStatus::Fulfilled);
    let refused = engine.consume(&request(1, Strategy::Fifo)).unwrap();
    assert_eq!(refused.status(), ConsumptionStatus::InsufficientInventory);
    assert_eq!(refused.shortfall, 1);
    let nothing = engine.consume(&request(0, Strategy::Fifo)).unwrap();
    assert_eq!(nothing.status(), ConsumptionStatus::Fulfilled);
}

#[test]
fn purchases_are_numbered_in_order_and_never_renumbered() {
    let mut engine = three_lots();
    engine.consume(&request(60, Strategy::Lifo)).unwrap();
    assert_eq!(engine.store().len(), 0);
    assert_eq!(record_purchase(&mut engine, 4, 2, day(5)), Ok(4));
    assert_eq!(engine.store().lots(), &vec![lot(4, 4, 2, 5)]);
    assert_eq!(engine.total_acquired(), 64);
}

#[test]
fn equal_keys_give_in_order_of_identifier() {
    let mut engine = ConsumptionEngine::new();
    record_purchase(&mut engine, 5, 7, day(1)).unwrap();
    record_purchase(&mut engine, 5, 7, day(1)).unwrap();
    record_purchase(&mut engine, 5, 7, day(1)).unwrap();
    for strategy in [Strategy::Fifo, Strategy::Lifo, Strategy::Lofo, Strategy::Hifo] {
        let mut copy = ConsumptionEngine::restore(
            engine.store().duplicate(),
            engine.ledger().duplicate(),
        )
        .unwrap();
        let out = copy.consume(&request(7, strategy)).unwrap();
        assert_eq!(out.records, vec![record(5, 7), record(2, 7)]);
        assert_eq!(copy.store().lots(), &vec![lot(2, 3, 7, 1), lot(3, 5, 7, 1)]);
    }
}
