use tao_inventory::consumption::{ConsumptionRequest, LotChange};
use tao_inventory::datetime::DateTime;
use tao_inventory::engine::{check_inventory, record_purchase, use_tao, ConsumptionEngine};
use tao_inventory::error::AppError;
use tao_inventory::ledger::{Ledger, Spec};
use tao_inventory::lot::{Lot, Strategy};
use tao_inventory::report::{print_inventory, print_inventory_used};
use tao_inventory::stats::{
    acquisition_value, cost_basis_value, inventory_statistics, realized_value, Statistics,
};
use tao_inventory::store::LotStore;

fn day(d: u32) -> DateTime {
    DateTime::new(2024, 1, d, 12, 0, 0)
}

fn lot(id: u64, quantity: u64, unit_price: u64, d: u32) -> Lot {
    Lot { id, quantity, unit_price, acquired_at: day(d) }
}

fn request(quantity_needed: u64, strategy: Strategy, price: u64) -> ConsumptionRequest {
    ConsumptionRequest { quantity_needed, strategy, realized_unit_price: price, occurred_at: day(20) }
}

fn three_lots() -> ConsumptionEngine {
    let mut engine = ConsumptionEngine::new();
    record_purchase(&mut engine, 10, 5, day(1)).unwrap();
    record_purchase(&mut engine, 20, 3, day(2)).unwrap();
    record_purchase(&mut engine, 30, 8, day(3)).unwrap();
    engine
}

fn on_hand(engine: &ConsumptionEngine) -> u64 {
    engine.store().lots().iter().map(|l| l.quantity).sum()
}

fn consumed(engine: &ConsumptionEngine) -> u64 {
    engine.ledger().records().iter().map(|r| r.quantity).sum()
}

#[test]
fn quantity_is_conserved_over_a_run_of_operations() {
    let mut engine = ConsumptionEngine::new();
    let mut inserted: u64 = 0;
    let strategies = [Strategy::Fifo, Strategy::Lifo, Strategy::Lofo, Strategy::Hifo];
    for round in 0..40u64 {
        let quantity = 1 + (round * 7) % 13;
        if record_purchase(&mut engine, quantity, 1 + round % 5, day(1 + (round % 9) as u32)).is_ok() {
            inserted += quantity;
        }
        let wanted = (round * 11) % 17;
        let out = engine.consume(&request(wanted, strategies[(round % 4) as usize], 9)).unwrap();
        let given: u64 = out.records.iter().map(|r| r.quantity).sum();
        assert_eq!(given + out.shortfall, wanted);
        assert_eq!(on_hand(&engine) + consumed(&engine), inserted);
        assert_eq!(engine.total_acquired(), inserted);
        assert_eq!(engine.store().total_quantity(), on_hand(&engine));
        assert_eq!(engine.ledger().total_consumed(), consumed(&engine));
        assert!(engine.store().lots().iter().all(|l| l.quantity > 0));
        assert!(engine.ledger().records().iter().all(|r| r.quantity > 0));
    }
    assert!(engine.ledger().len() > 0);
}

#[test]
fn partial_draw_leaves_the_rest() {
    let mut engine = ConsumptionEngine::new();
    record_purchase(&mut engine, 10, 5, day(1)).unwrap();
    let out = engine.consume(&request(5, Strategy::Fifo, 9)).unwrap();
    assert_eq!(
        out.records,
        vec![Spec { quantity: 5, orig_price: 5, sale_price: 9, liquidation_date: day(20) }]
    );
    assert_eq!(out.shortfall, 0);
    assert_eq!(engine.store().lots(), &vec![lot(1, 5, 5, 1)]);
}

#[test]
fn exact_draw_deletes_the_lot() {
    let mut engine = ConsumptionEngine::new();
    record_purchase(&mut engine, 10, 5, day(1)).unwrap();
    let out = engine.consume(&request(10, Strategy::Fifo, 9)).unwrap();
    assert_eq!(
        out.records,
        vec![Spec { quantity: 10, orig_price: 5, sale_price: 9, liquidation_date: day(20) }]
    );
    assert_eq!(out.shortfall, 0);
    assert!(engine.store().lots().is_empty());
    assert_eq!(engine.store().total_quantity(), 0);
}

#[test]
fn a_request_beyond_the_store_consumes_nothing() {
    let mut engine = three_lots();
    let before = engine.store().lots().clone();
    let out = engine.consume(&request(61, Strategy::Fifo, 9)).unwrap();
    assert!(out.records.is_empty());
    assert_eq!(out.shortfall, 61);
    assert_eq!(engine.store().lots(), &before);
    assert_eq!(engine.ledger().len(), 0);
    let again = use_tao(&mut engine, 61, day(20), 9, Strategy::Hifo).unwrap();
    assert!(again.records.is_empty());
    assert!(again.changes.is_empty());
    assert_eq!(again.shortfall, 61);
}

#[test]
fn a_request_on_an_empty_store_is_all_shortfall() {
    let mut engine = ConsumptionEngine::new();
    let out = engine.consume(&request(7, Strategy::Lofo, 9)).unwrap();
    assert!(out.records.is_empty());
    assert_eq!(out.shortfall, 7);
}

#[test]
fn a_request_for_the_whole_store_empties_it() {
    let mut engine = three_lots();
    let out = engine.consume(&request(60, Strategy::Hifo, 9)).unwrap();
    let taken: Vec<(u64, u64)> = out.records.iter().map(|r| (r.quantity, r.orig_price)).collect();
    assert_eq!(taken, vec![(30, 8), (10, 5), (20, 3)]);
    assert_eq!(out.shortfall, 0);
    assert!(engine.store().lots().is_empty());
    assert!(!check_inventory(&engine, 1));
    assert!(check_inventory(&engine, 0));
}

#[test]
fn a_request_for_nothing_changes_nothing() {
    let mut engine = three_lots();
    let out = engine.consume(&request(0, Strategy::Fifo, 9)).unwrap();
    assert!(out.records.is_empty());
    assert_eq!(out.shortfall, 0);
    assert_eq!(engine.store().len(), 3);
}

#[test]
fn short_candidates_give_all_and_report_the_shortfall() {
    let mut engine = three_lots();
    let candidates = vec![lot(2, 20, 3, 2), lot(1, 10, 5, 1)];
    let out = engine.draw_from(&candidates, &request(45, Strategy::Lofo, 9)).unwrap();
    let taken: Vec<(u64, u64)> = out.records.iter().map(|r| (r.quantity, r.orig_price)).collect();
    assert_eq!(taken, vec![(20, 3), (10, 5)]);
    assert_eq!(out.shortfall, 15);
    assert_eq!(engine.store().lots(), &vec![lot(3, 30, 8, 3)]);
    assert_eq!(engine.ledger().total_consumed(), 30);
    assert_eq!(engine.total_acquired(), 60);
}

#[test]
fn candidates_behind_the_last_one_reached_are_not_looked_at() {
    let mut engine = three_lots();
    // The second candidate is not in the store, but the request stops at the first.
    let candidates = vec![lot(3, 30, 8, 3), lot(9, 1, 1, 1)];
    let out = engine.draw_from(&candidates, &request(30, Strategy::Hifo, 9)).unwrap();
    assert_eq!(out.records.len(), 1);
    assert_eq!(out.shortfall, 0);
    assert_eq!(engine.store().lots(), &vec![lot(1, 10, 5, 1), lot(2, 20, 3, 2)]);
}

fn assert_untouched(engine: &ConsumptionEngine, lots: &Vec<Lot>, records: usize) {
    assert_eq!(engine.store().lots(), lots);
    assert_eq!(engine.ledger().len(), records);
    assert_eq!(engine.total_acquired(), 60);
    assert_eq!(engine.store().total_quantity(), 60);
}

#[test]
fn a_stale_snapshot_aborts_and_leaves_the_state_as_it_was() {
    let mut engine = three_lots();
    let before = engine.store().lots().clone();

    // A lot that has vanished, behind one that is still there.
    let gone = vec![lot(1, 10, 5, 1), lot(7, 5, 5, 1)];
    let r = engine.draw_from(&gone, &request(12, Strategy::Fifo, 9));
    assert_eq!(r.err(), Some(AppError::ConcurrentModification));
    assert_untouched(&engine, &before, 0);

    // A lot whose quantity is no longer what the snapshot says.
    let changed = vec![lot(1, 10, 5, 1), lot(2, 25, 3, 2)];
    let r = engine.draw_from(&changed, &request(12, Strategy::Fifo, 9));
    assert_eq!(r.err(), Some(AppError::ConcurrentModification));
    assert_untouched(&engine, &before, 0);

    // A lot presented twice.
    let twice = vec![lot(1, 10, 5, 1), lot(1, 10, 5, 1)];
    let r = engine.draw_from(&twice, &request(12, Strategy::Fifo, 9));
    assert_eq!(r.err(), Some(AppError::ConcurrentModification));
    assert_untouched(&engine, &before, 0);

    // The same request on a fresh snapshot goes through.
    let fresh = engine.store().iterate_by(Strategy::Fifo);
    let out = engine.draw_from(&fresh, &request(12, Strategy::Fifo, 9)).unwrap();
    assert_eq!(out.records.len(), 2);
    assert_eq!(engine.store().lots(), &vec![lot(2, 18, 3, 2), lot(3, 30, 8, 3)]);

    // And the snapshot taken before it is now stale.
    let r = engine.draw_from(&fresh, &request(1, Strategy::Fifo, 9));
    assert_eq!(r.err(), Some(AppError::ConcurrentModification));
    assert_eq!(engine.store().lots(), &vec![lot(2, 18, 3, 2), lot(3, 30, 8, 3)]);
    assert_eq!(engine.ledger().len(), 2);
}

#[test]
fn acquisition_value_sums_quantity_times_price() {
    let engine = three_lots();
    assert_eq!(acquisition_value(engine.store()), 10 * 5 + 20 * 3 + 30 * 8);
    assert_eq!(acquisition_value(&LotStore::new()), 0);
}

#[test]
fn realized_value_less_cost_basis_is_the_gain() {
    let mut engine = three_lots();
    engine.consume(&request(15, Strategy::Fifo, 9)).unwrap();
    engine.consume(&request(10, Strategy::Hifo, 2)).unwrap();
    // 10 at 5 and 5 at 3 sold at 9; 10 at 8 sold at 2.
    assert_eq!(realized_value(engine.ledger()), 15 * 9 + 10 * 2);
    assert_eq!(cost_basis_value(engine.ledger()), 10 * 5 + 5 * 3 + 10 * 8);
    let gain: i128 = (10 * (9 - 5) + 5 * (9 - 3) + 10 * (2 - 8)) as i128;
    assert_eq!(
        realized_value(engine.ledger()) as i128 - cost_basis_value(engine.ledger()) as i128,
        gain
    );
    assert_eq!(
        inventory_statistics(&engine),
        Statistics { acquisition_value: 15 * 3 + 20 * 8, sell_value: 155, orig_value: 145 }
    );
}

#[test]
fn values_do_not_overflow_at_the_limits() {
    let mut engine = ConsumptionEngine::new();
    record_purchase(&mut engine, u64::MAX, u64::MAX, day(1)).unwrap();
    let square = (u64::MAX as u128) * (u64::MAX as u128);
    assert_eq!(acquisition_value(engine.store()), square);
    engine.consume(&request(u64::MAX, Strategy::Fifo, u64::MAX)).unwrap();
    assert_eq!(realized_value(engine.ledger()), square);
    assert_eq!(cost_basis_value(engine.ledger()), square);
    assert_eq!(acquisition_value(engine.store()), 0);
    // Everything that can ever be acquired has been.
    assert_eq!(record_purchase(&mut engine, 1, 1, day(2)), Err(AppError::InvariantViolation));
}

#[test]
fn listings_show_lots_and_records() {
    let mut engine = three_lots();
    engine.consume(&request(15, Strategy::Fifo, 9)).unwrap();
    let lots = print_inventory(&engine);
    assert_eq!(lots.len(), 2);
    assert_eq!(lots[0].quantity, Some(15));
    assert_eq!(lots[0].orig_price, Some(3));
    assert_eq!(lots[0].selling_price, None);
    assert_eq!(lots[0].purchase_date.as_deref(), Some("2024-01-02 12:00:00"));
    assert_eq!(lots[0].liquidation_date, None);
    assert_eq!(lots[1].quantity, Some(30));
    let used = print_inventory_used(&engine);
    assert_eq!(used.len(), 2);
    assert_eq!(used[0].quantity, Some(10));
    assert_eq!(used[0].orig_price, Some(5));
    assert_eq!(used[0].selling_price, Some(9));
    assert_eq!(used[0].purchase_date, None);
    assert_eq!(used[0].liquidation_date.as_deref(), Some("2024-01-20 12:00:00"));
    assert_eq!(used[1].quantity, Some(5));
    assert_eq!(used[1].orig_price, Some(3));
}

#[test]
fn records_keep_the_price_of_their_lot() {
    let mut engine = three_lots();
    let first = engine.consume(&request(5, Strategy::Lofo, 9)).unwrap();
    record_purchase(&mut engine, 5, 1, day(4)).unwrap();
    engine.consume(&request(10, Strategy::Lofo, 4)).unwrap();
    assert_eq!(first.records[0].orig_price, 3);
    assert_eq!(engine.ledger().records()[0], first.records[0]);
    let prices: Vec<(u64, u64, u64)> = engine
        .ledger()
        .records()
        .iter()
        .map(|r| (r.quantity, r.orig_price, r.sale_price))
        .collect();
    assert_eq!(prices, vec![(5, 3, 9), (5, 1, 4), (5, 3, 4)]);
}

#[test]
fn an_engine_is_restored_from_its_parts() {
    let store = LotStore::restore(vec![lot(4, 6, 2, 1)], 5).unwrap();
    let ledger = Ledger::restore(vec![Spec {
        quantity: 4,
        orig_price: 2,
        sale_price: 3,
        liquidation_date: day(2),
    }])
    .unwrap();
    let mut engine = ConsumptionEngine::restore(store, ledger).unwrap();
    assert_eq!(engine.total_acquired(), 10);
    assert_eq!(record_purchase(&mut engine, 1, 1, day(3)), Ok(5));
    assert_eq!(engine.total_acquired(), 11);
}

#[test]
fn restoring_refuses_what_cannot_be_valid() {
    let zero = Spec { quantity: 0, orig_price: 2, sale_price: 3, liquidation_date: day(2) };
    assert_eq!(Ledger::restore(vec![zero]).err(), Some(AppError::PersistenceError));
    let big = Spec { quantity: u64::MAX, orig_price: 2, sale_price: 3, liquidation_date: day(2) };
    let one = Spec { quantity: 1, orig_price: 2, sale_price: 3, liquidation_date: day(2) };
    assert_eq!(Ledger::restore(vec![big, one]).err(), Some(AppError::PersistenceError));
    let store = LotStore::restore(vec![lot(1, 1, 1, 1)], 2).unwrap();
    let ledger = Ledger::restore(vec![big]).unwrap();
    assert_eq!(
        ConsumptionEngine::restore(store, ledger).err(),
        Some(AppError::PersistenceError)
    );
    let ledger = Ledger::restore(Vec::new()).unwrap();
    assert_eq!(ledger.len(), 0);
    assert_eq!(ledger.duplicate().total_consumed(), 0);
}

#[test]
fn the_changes_carried_out_on_a_copy_give_the_same_lots() {
    let strategies = [Strategy::Fifo, Strategy::Lifo, Strategy::Lofo, Strategy::Hifo];
    for (round, strategy) in strategies.iter().enumerate() {
        let mut engine = three_lots();
        let mut copy = engine.store().duplicate();
        let out = engine.consume(&request(35 + round as u64 * 5, *strategy, 9)).unwrap();
        assert_eq!(out.changes.len(), out.records.len());
        for change in &out.changes {
            match *change {
                LotChange::Delete { id } => copy.delete(id).unwrap(),
                LotChange::Reduce { id, new_quantity } => copy.reduce(id, new_quantity).unwrap(),
            }
        }
        assert_eq!(copy.lots(), engine.store().lots());
    }
}
