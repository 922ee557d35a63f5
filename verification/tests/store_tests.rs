use tao_inventory::datetime::DateTime;
use tao_inventory::error::AppError;
use tao_inventory::lot::{precedes, Lot, Strategy};
use tao_inventory::store::LotStore;

fn at(day: u32, hour: u32) -> DateTime {
    DateTime::new(2023, 6, day, hour, 0, 0)
}

fn lot(id: u64, quantity: u64, unit_price: u64, acquired_at: DateTime) -> Lot {
    Lot { id, quantity, unit_price, acquired_at }
}

#[test]
fn empty_store_totals_zero() {
    let store = LotStore::new();
    assert_eq!(store.total_quantity(), 0);
    assert_eq!(store.len(), 0);
    assert!(store.iterate_by(Strategy::Fifo).is_empty());
    assert_eq!(store.get(1), None);
}

#[test]
fn insert_numbers_lots_from_one() {
    let mut store = LotStore::new();
    assert_eq!(store.insert(7, 100, at(1, 0)), Ok(1));
    assert_eq!(store.insert(3, 250, at(2, 0)), Ok(2));
    assert_eq!(store.total_quantity(), 10);
    assert_eq!(store.lots(), &vec![lot(1, 7, 100, at(1, 0)), lot(2, 3, 250, at(2, 0))]);
    assert_eq!(store.get(2), Some(lot(2, 3, 250, at(2, 0))));
}

#[test]
fn insert_refuses_an_empty_lot() {
    let mut store = LotStore::new();
    assert_eq!(store.insert(0, 100, at(1, 0)), Err(AppError::InvariantViolation));
    assert_eq!(store.len(), 0);
    assert_eq!(store.insert(1, 100, at(1, 0)), Ok(1));
}

#[test]
fn insert_refuses_a_total_beyond_the_range() {
    let mut store = LotStore::new();
    assert_eq!(store.insert(u64::MAX - 1, 1, at(1, 0)), Ok(1));
    assert_eq!(store.insert(2, 1, at(1, 0)), Err(AppError::InvariantViolation));
    assert_eq!(store.insert(1, 1, at(1, 0)), Ok(2));
    assert_eq!(store.total_quantity(), u64::MAX);
}

#[test]
fn insert_refuses_when_identifiers_are_used_up() {
    let rows = vec![lot(u64::MAX - 1, 5, 1, at(1, 0))];
    let mut store = LotStore::restore(rows, u64::MAX).unwrap();
    assert_eq!(store.insert(1, 1, at(2, 0)), Err(AppError::PersistenceError));
    assert_eq!(store.len(), 1);
    assert_eq!(store.total_quantity(), 5);
}

#[test]
fn reduce_lowers_the_quantity_in_place() {
    let mut store = LotStore::new();
    store.insert(10, 4, at(1, 0)).unwrap();
    store.insert(20, 6, at(2, 0)).unwrap();
    assert_eq!(store.reduce(1, 4), Ok(()));
    assert_eq!(store.lots(), &vec![lot(1, 4, 4, at(1, 0)), lot(2, 20, 6, at(2, 0))]);
    assert_eq!(store.total_quantity(), 24);
}

#[test]
fn reduce_refuses_what_is_out_of_range() {
    let mut store = LotStore::new();
    store.insert(10, 4, at(1, 0)).unwrap();
    assert_eq!(store.reduce(1, 0), Err(AppError::InvariantViolation));
    assert_eq!(store.reduce(1, 10), Err(AppError::InvariantViolation));
    assert_eq!(store.reduce(1, 11), Err(AppError::InvariantViolation));
    assert_eq!(store.reduce(2, 5), Err(AppError::NotFound));
    assert_eq!(store.reduce(2, 0), Err(AppError::NotFound));
    assert_eq!(store.lots(), &vec![lot(1, 10, 4, at(1, 0))]);
    assert_eq!(store.reduce(1, 9), Ok(()));
    assert_eq!(store.reduce(1, 1), Ok(()));
    assert_eq!(store.reduce(1, 1), Err(AppError::InvariantViolation));
}

#[test]
fn delete_removes_for_good() {
    let mut store = LotStore::new();
    store.insert(10, 4, at(1, 0)).unwrap();
    store.insert(20, 6, at(2, 0)).unwrap();
    store.insert(30, 8, at(3, 0)).unwrap();
    assert_eq!(store.delete(2), Ok(()));
    assert_eq!(store.lots(), &vec![lot(1, 10, 4, at(1, 0)), lot(3, 30, 8, at(3, 0))]);
    assert_eq!(store.total_quantity(), 40);
    assert_eq!(store.delete(2), Err(AppError::NotFound));
    assert_eq!(store.get(2), None);
    // A deleted identifier is never handed out again.
    assert_eq!(store.insert(1, 1, at(4, 0)), Ok(4));
}

#[test]
fn iterate_by_orders_by_the_strategy_key() {
    let mut store = LotStore::new();
    store.insert(10, 5, at(2, 0)).unwrap();
    store.insert(20, 3, at(1, 0)).unwrap();
    store.insert(30, 8, at(3, 0)).unwrap();
    let ids = |s: Strategy| store.iterate_by(s).iter().map(|l| l.id).collect::<Vec<u64>>();
    assert_eq!(ids(Strategy::Fifo), vec![2, 1, 3]);
    assert_eq!(ids(Strategy::Lifo), vec![3, 1, 2]);
    assert_eq!(ids(Strategy::Lofo), vec![2, 1, 3]);
    assert_eq!(ids(Strategy::Hifo), vec![3, 1, 2]);
}

#[test]
fn iterate_by_breaks_ties_by_ascending_identifier() {
    let mut store = LotStore::new();
    store.insert(1, 5, at(1, 0)).unwrap();
    store.insert(2, 5, at(1, 0)).unwrap();
    store.insert(3, 5, at(1, 0)).unwrap();
    for s in [Strategy::Fifo, Strategy::Lifo, Strategy::Lofo, Strategy::Hifo] {
        let ids: Vec<u64> = store.iterate_by(s).iter().map(|l| l.id).collect();
        assert_eq!(ids, vec![1, 2, 3]);
    }
}

#[test]
fn iterate_by_is_a_snapshot() {
    let mut store = LotStore::new();
    store.insert(10, 5, at(1, 0)).unwrap();
    let snapshot = store.iterate_by(Strategy::Fifo);
    store.delete(1).unwrap();
    assert_eq!(snapshot, vec![lot(1, 10, 5, at(1, 0))]);
    assert!(store.iterate_by(Strategy::Fifo).is_empty());
}

#[test]
fn time_is_ordered_field_by_field() {
    let early = DateTime::new(2023, 12, 31, 23, 59, 59);
    let late = DateTime::new(2024, 1, 1, 0, 0, 0);
    assert!(early.earlier_than(&late));
    assert!(!late.earlier_than(&early));
    assert!(!early.earlier_than(&early));
    assert!(DateTime::new(2024, 1, 1, 0, 0, 0).earlier_than(&DateTime::new(2024, 1, 1, 0, 0, 1)));
    assert!(DateTime::new(2024, 1, 1, 0, 59, 0).earlier_than(&DateTime::new(2024, 1, 1, 1, 0, 0)));
    assert!(DateTime::new(-5, 1, 1, 0, 0, 0).earlier_than(&DateTime::new(0, 1, 1, 0, 0, 0)));
}

#[test]
fn precedes_follows_each_strategy() {
    let a = lot(1, 1, 5, at(1, 0));
    let b = lot(2, 1, 3, at(2, 0));
    assert!(precedes(Strategy::Fifo, &a, &b));
    assert!(!precedes(Strategy::Fifo, &b, &a));
    assert!(precedes(Strategy::Lifo, &b, &a));
    assert!(precedes(Strategy::Lofo, &b, &a));
    assert!(precedes(Strategy::Hifo, &a, &b));
    assert!(!precedes(Strategy::Hifo, &a, &a));
}

#[test]
fn usage_setting_selects_the_strategy() {
    assert_eq!(Strategy::from_usage_type(1), Strategy::Fifo);
    assert_eq!(Strategy::from_usage_type(2), Strategy::Lifo);
    assert_eq!(Strategy::from_usage_type(3), Strategy::Lofo);
    assert_eq!(Strategy::from_usage_type(4), Strategy::Hifo);
    assert_eq!(Strategy::from_usage_type(0), Strategy::Hifo);
    assert_eq!(Strategy::from_usage_type(-7), Strategy::Hifo);
    for s in [Strategy::Fifo, Strategy::Lifo, Strategy::Lofo, Strategy::Hifo] {
        assert_eq!(Strategy::from_usage_type(s.usage_type()), s);
    }
}

#[test]
fn restore_takes_valid_rows() {
    let rows = vec![lot(3, 5, 1, at(1, 0)), lot(8, 6, 2, at(2, 0))];
    let mut store = LotStore::restore(rows.clone(), 9).unwrap();
    assert_eq!(store.lots(), &rows);
    assert_eq!(store.total_quantity(), 11);
    assert_eq!(store.insert(1, 1, at(3, 0)), Ok(9));
    // Identifiers of lots that are gone stay used.
    let mut later = LotStore::restore(rows.clone(), 20).unwrap();
    assert_eq!(later.insert(1, 1, at(3, 0)), Ok(20));
    let mut empty = LotStore::restore(Vec::new(), 1).unwrap();
    assert_eq!(empty.insert(1, 1, at(3, 0)), Ok(1));
    let mut used_up = LotStore::restore(Vec::new(), 5).unwrap();
    assert_eq!(used_up.insert(1, 1, at(3, 0)), Ok(5));
}

#[test]
fn restore_refuses_corrupt_rows() {
    let err = |rows: Vec<Lot>, next_id: u64| LotStore::restore(rows, next_id).err();
    // an empty lot
    assert_eq!(err(vec![lot(1, 0, 1, at(1, 0))], 2), Some(AppError::PersistenceError));
    // an identifier twice
    assert_eq!(
        err(vec![lot(1, 1, 1, at(1, 0)), lot(1, 2, 1, at(1, 0))], 2),
        Some(AppError::PersistenceError)
    );
    // identifiers out of order
    assert_eq!(
        err(vec![lot(2, 1, 1, at(1, 0)), lot(1, 2, 1, at(1, 0))], 3),
        Some(AppError::PersistenceError)
    );
    // a total beyond the range
    assert_eq!(
        err(vec![lot(1, u64::MAX, 1, at(1, 0)), lot(2, 1, 1, at(1, 0))], 3),
        Some(AppError::PersistenceError)
    );
    // a next identifier that a lot already has, or that is below one
    assert_eq!(err(vec![lot(4, 1, 1, at(1, 0))], 4), Some(AppError::PersistenceError));
    assert_eq!(err(vec![lot(4, 1, 1, at(1, 0))], 3), Some(AppError::PersistenceError));
    assert_eq!(err(vec![lot(u64::MAX, 1, 1, at(1, 0))], u64::MAX), Some(AppError::PersistenceError));
    // no next identifier at all
    assert_eq!(err(Vec::new(), 0), Some(AppError::PersistenceError));
}

#[test]
fn duplicate_is_independent() {
    let mut store = LotStore::new();
    store.insert(10, 5, at(1, 0)).unwrap();
    let mut copy = store.duplicate();
    copy.delete(1).unwrap();
    assert_eq!(store.len(), 1);
    assert_eq!(copy.len(), 0);
    assert_eq!(copy.insert(1, 1, at(1, 0)), Ok(2));
    assert_eq!(store.insert(1, 1, at(1, 0)), Ok(2));
}
