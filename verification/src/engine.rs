//! The consumption engine: a lot store, the ledger of what was consumed
//! from it, and the operations that keep the two in step.

use vstd::prelude::*;
use crate::consumption::{ConsumptionRequest, LotChange, candidates_current, change_for, changes,
    changes_within, draw_at, lots_after, lots_after_within, lots_left, receipt, receipts,
    receipts_within, shortfall, touched,
    lemma_lots_after_next, lemma_lots_left, lemma_taken_within_next, lemma_touched,
    lemma_touched_is};
use crate::datetime::DateTime;
use crate::error::AppError;
use crate::history::{Books, Operation, after, books_balanced};
use crate::ledger::{Ledger, Spec, total_consumed, lemma_consumed_push, lemma_consumed_concat};
use crate::lot::{Lot, Strategy, total_quantity, lemma_total_push, lemma_total_take_next,
    lemma_total_take_monotone, lemma_total_take_le, lemma_total_remove, lemma_total_update,
    lemma_total_of_rearrangement};
use crate::order::{is_strategy_order, strategy_order, lemma_draws_before_asymmetric};
use crate::store::{LotStore, ascending_ids, distinct_ids, has_lot, lot_index, lot_map, valid_lots,
    lemma_lot_index, lemma_lot_map_contains, lemma_lot_map_determines, lemma_lot_map_remove,
    lemma_lot_map_update};

verus! {

/// How a consumption ended. Neither is a failure.
#[derive(Clone, Copy, Debug, PartialEq, Eq, Structural)]
pub enum ConsumptionStatus {
    /// The request was served in full.
    Fulfilled,
    /// Part of the request, or all of it, could not be served.
    InsufficientInventory,
}

/// What a consumption returns.
#[derive(Debug)]
pub struct ConsumptionOutcome {
    /// One record for each lot drawn from, in the order of drawing.
    pub records: Vec<Spec>,
    /// What was done to each lot drawn from, in the same order.
    pub changes: Vec<LotChange>,
    /// The part of the request that was not served; zero when it was served
    /// in full.
    pub shortfall: u64,
}

impl ConsumptionOutcome {
    /// `InsufficientInventory` exactly when there is a shortfall.
    pub fn status(&self) -> (s: ConsumptionStatus)
        ensures
            s == if self.shortfall > 0 {
                ConsumptionStatus::InsufficientInventory
            } else {
                ConsumptionStatus::Fulfilled
            },
    {
        if self.shortfall > 0 {
            ConsumptionStatus::InsufficientInventory
        } else {
            ConsumptionStatus::Fulfilled
        }
    }
}

/// Why a purchase is refused, if it is: an empty lot, or one that would
/// carry the quantity ever acquired past `u64::MAX`, violates the invariant;
/// a store that has handed out its last identifier is full.
pub open spec fn purchase_refusal(acquired: nat, next_id: u64, quantity: u64) -> Option<AppError> {
    if quantity == 0 || acquired + quantity > u64::MAX {
        Some(AppError::InvariantViolation)
    } else if next_id == u64::MAX {
        Some(AppError::PersistenceError)
    } else {
        None
    }
}

/// The records that `consume` writes for `request` when the store holds
/// `lots`: none if the lots do not cover the request, and else one for each
/// lot reached in the order of the request's strategy.
pub open spec fn consume_records(lots: Seq<Lot>, request: ConsumptionRequest) -> Seq<Spec> {
    if total_quantity(lots) < request.quantity_needed {
        Seq::empty()
    } else {
        receipts(strategy_order(lots, request.strategy), request)
    }
}

/// The changes that `consume` makes to the store: none if the lots do not
/// cover the request, and else one for each lot reached.
pub open spec fn consume_changes(lots: Seq<Lot>, request: ConsumptionRequest) -> Seq<LotChange> {
    if total_quantity(lots) < request.quantity_needed {
        Seq::empty()
    } else {
        changes(strategy_order(lots, request.strategy), request.quantity_needed as nat)
    }
}

/// The shortfall that `consume` reports: the whole request if the lots do
/// not cover it, and else nothing.
pub open spec fn consume_shortfall(lots: Seq<Lot>, request: ConsumptionRequest) -> nat {
    if total_quantity(lots) < request.quantity_needed {
        request.quantity_needed as nat
    } else {
        0
    }
}

/// The lots that `consume` leaves: all of them if they do not cover the
/// request, and else what is left once the request has been served in the
/// order of its strategy.
pub open spec fn consume_lots(lots: Seq<Lot>, request: ConsumptionRequest) -> Seq<Lot> {
    if total_quantity(lots) < request.quantity_needed {
        lots
    } else {
        lots_left(lots, strategy_order(lots, request.strategy), request.quantity_needed as nat)
    }
}

/// An arrangement of a store's lots in strategy order is a true snapshot:
/// every lot of it is in the store, and none occurs twice.
pub proof fn lemma_strategy_order_current(
    lots: Seq<Lot>,
    c: Seq<Lot>,
    strategy: Strategy,
    needed: nat,
)
    requires
        ascending_ids(lots),
        is_strategy_order(c, lots, strategy),
    ensures
        candidates_current(lots, c, needed),
        distinct_ids(c),
        total_quantity(c) == total_quantity(lots),
{
    c.to_multiset_ensures();
    lots.to_multiset_ensures();
    lemma_touched(c, needed);
    assert forall|i: int| 0 <= i < c.len() implies lots.contains(#[trigger] c[i]) by {
        assert(c.to_multiset().count(c[i]) > 0);
    }
    assert forall|i: int, j: int| 0 <= i < j < c.len() implies c[i].id != c[j].id by {
        assert(lots.contains(c[i]));
        assert(lots.contains(c[j]));
        let a = choose|a: int| 0 <= a < lots.len() && lots[a] == c[i];
        let b = choose|b: int| 0 <= b < lots.len() && lots[b] == c[j];
        lemma_lot_index(lots, a);
        lemma_lot_index(lots, b);
        lemma_draws_before_asymmetric(strategy, c[i], c[j]);
    }
    lemma_total_of_rearrangement(c, lots);
}

/// A lot store together with the ledger of everything consumed from it.
pub struct ConsumptionEngine {
    store: LotStore,
    ledger: Ledger,
    acquired: u64,
}

impl ConsumptionEngine {
    /// The current lots, in ascending order of identifier.
    pub closed spec fn lots(&self) -> Seq<Lot> {
        self.store@
    }

    /// The consumption records, oldest first.
    pub closed spec fn records(&self) -> Seq<Spec> {
        self.ledger@
    }

    /// The quantity ever acquired: what the store held when the engine was
    /// set up, plus every purchase recorded since.
    pub closed spec fn acquired(&self) -> nat {
        self.acquired as nat
    }

    /// The identifier that the next purchase will receive.
    pub closed spec fn next_id(&self) -> u64 {
        self.store.next_id()
    }

    /// The store and the ledger are each in order.
    pub closed spec fn parts_wf(&self) -> bool {
        self.store.wf() && self.ledger.wf()
    }

    /// The engine's state as a value.
    pub open spec fn books(&self) -> Books {
        Books {
            lots: self.lots(),
            records: self.records(),
            acquired: self.acquired(),
            next_id: self.next_id(),
        }
    }

    /// The engine's invariant: its books are balanced, which includes
    /// conservation: what is on hand and what was consumed add up to what
    /// was ever acquired.
    pub open spec fn wf(&self) -> bool {
        self.parts_wf() && books_balanced(self.books())
    }

    /// The abstract state of two engines is the same.
    pub open spec fn same_state(&self, other: &ConsumptionEngine) -> bool {
        &&& self.lots() == other.lots()
        &&& self.records() == other.records()
        &&& self.acquired() == other.acquired()
        &&& self.next_id() == other.next_id()
    }

    /// An engine with no lots and no records.
    pub fn new() -> (e: ConsumptionEngine)
        ensures
            e.wf(),
            e.lots() == Seq::<Lot>::empty(),
            e.records() == Seq::<Spec>::empty(),
            e.acquired() == 0,
            e.next_id() == 1,
    {
        ConsumptionEngine { store: LotStore::new(), ledger: Ledger::new(), acquired: 0 }
    }

    /// Sets an engine up on a store and the ledger that belongs to it. Fails
    /// with `PersistenceError` exactly when the quantity on hand and the
    /// quantity consumed together exceed `u64::MAX`.
    pub fn restore(store: LotStore, ledger: Ledger) -> (r: Result<ConsumptionEngine, AppError>)
        requires
            store.wf(),
            ledger.wf(),
        ensures
            match r {
                Ok(e) => {
                    &&& e.wf()
                    &&& e.lots() == store@
                    &&& e.records() == ledger@
                    &&& e.next_id() == store.next_id()
                    &&& e.acquired() == total_quantity(store@) + total_consumed(ledger@)
                },
                Err(e) => e == AppError::PersistenceError && total_quantity(store@)
                    + total_consumed(ledger@) > u64::MAX,
            },
    {
        let on_hand: u64 = store.total_quantity();
        let consumed: u64 = ledger.total_consumed();
        if consumed > u64::MAX - on_hand {
            return Err(AppError::PersistenceError);
        }
        Ok(ConsumptionEngine { store, ledger, acquired: on_hand + consumed })
    }

    /// Serves `request` from `candidates`, a snapshot of lots in the order
    /// in which they are to give. Each candidate in turn gives the lesser of
    /// what it holds and what is still needed; a lot that gives all it holds
    /// is deleted, the last one may be left with a rest; one record is
    /// written for each. What the candidates cannot cover is the shortfall.
    ///
    /// The snapshot must still be true: if a candidate that the request
    /// reaches is no longer in the store as presented, or is presented
    /// twice, the call fails with `ConcurrentModification` and nothing is
    /// changed.
    pub fn draw_from(&mut self, candidates: &Vec<Lot>, request: &ConsumptionRequest) -> (r: Result<
        ConsumptionOutcome,
        AppError,
    >)
        requires
            old(self).wf(),
        ensures
            final(self).wf(),
            final(self).acquired() == old(self).acquired(),
            final(self).next_id() == old(self).next_id(),
            match r {
                Ok(out) => {
                    &&& candidates_current(
                        old(self).lots(),
                        candidates@,
                        request.quantity_needed as nat,
                    )
                    &&& out.records@ == receipts(candidates@, *request)
                    &&& out.changes@ == changes(candidates@, request.quantity_needed as nat)
                    &&& out.shortfall == shortfall(candidates@, request.quantity_needed as nat)
                    &&& final(self).lots() == lots_left(
                        old(self).lots(),
                        candidates@,
                        request.quantity_needed as nat,
                    )
                    &&& lot_map(final(self).lots()) == lots_after(
                        lot_map(old(self).lots()),
                        candidates@,
                        request.quantity_needed as nat,
                    )
                    &&& final(self).records() == old(self).records() + out.records@
                },
                Err(e) => {
                    &&& e == AppError::ConcurrentModification
                    &&& !candidates_current(
                        old(self).lots(),
                        candidates@,
                        request.quantity_needed as nat,
                    )
                    &&& final(self).same_state(old(self))
                },
            },
    {
        let needed: u64 = request.quantity_needed;
        let ghost c = candidates@;
        let ghost n = needed as nat;
        let ghost lots0 = self.store@;
        let ghost before = lot_map(self.store@);
        let mut working = self.store.duplicate();
        let mut records: Vec<Spec> = Vec::new();
        let mut done: Vec<LotChange> = Vec::new();
        let mut remaining: u64 = needed;
        let mut i: usize = 0;
        proof {
            assert(c.take(0) =~= Seq::<Lot>::empty());
            assert(lot_map(working@) =~= lots_after_within(before, c, n, 0));
            assert(records@ =~= receipts_within(c, *request, 0));
            assert(done@ =~= changes_within(c, n, 0));
        }
        while i < candidates.len() && remaining > 0
            invariant
                c == candidates@,
                n == needed as nat,
                needed == request.quantity_needed,
                self.wf(),
                lots0 == self.store@,
                before == lot_map(lots0),
                valid_lots(lots0),
                working.wf(),
                working.next_id() == self.store.next_id(),
                i <= c.len(),
                remaining <= needed,
                remaining as int == if total_quantity(c.take(i as int)) >= n {
                    0
                } else {
                    n - total_quantity(c.take(i as int))
                },
                forall|j: int| 0 <= j < i ==> total_quantity(#[trigger] c.take(j)) < n,
                forall|j: int| 0 <= j < i ==> lots0.contains(#[trigger] c[j]),
                distinct_ids(c.take(i as int)),
                lot_map(working@) == lots_after_within(before, c, n, i as int),
                records@ == receipts_within(c, *request, i as int),
                done@ == changes_within(c, n, i as int),
                forall|j: int| 0 <= j < records@.len() ==> records@[j].quantity > 0,
                total_consumed(records@) == needed - remaining,
                total_quantity(working@) + (needed - remaining) == total_quantity(lots0),
            decreases c.len() - i,
        {
            let lot = candidates[i];
            let stale = match working.get(lot.id) {
                Some(current) => current != lot,
                None => true,
            };
            proof {
                lemma_touched(c, n);
                lemma_total_take_next(c, i as int);
                if touched(c, n) <= i {
                    lemma_total_take_monotone(c, touched(c, n) as int, i as int);
                }
                assert(i < touched(c, n));
            }
            if stale {
                proof {
                    if candidates_current(lots0, c, n) {
                        assert(lots0.contains(c[i as int]));
                        let m = choose|m: int| 0 <= m < lots0.len() && lots0[m] == c[i as int];
                        lemma_lot_index(lots0, m);
                        let long = c.take(i as int + 1);
                        assert forall|a: int, b: int| 0 <= a < b < long.len() implies long[a].id
                            != long[b].id by {
                            assert(c[a].id != c[b].id);
                        }
                        lemma_taken_within_next(c, n, i as int, lot.id);
                        assert(lot_map(working@).dom().contains(lot.id));
                        assert(lot_map(working@)[lot.id] == lot);
                        lemma_lot_map_contains(working@, lot.id);
                        assert(false);
                    }
                }
                return Err(AppError::ConcurrentModification);
            }
            let draw: u64 = if lot.quantity <= remaining {
                lot.quantity
            } else {
                remaining
            };
            proof {
                let idx = lot_index(working@, lot.id);
                assert(has_lot(working@, lot.id) && working@[idx] == lot);
                lemma_lot_index(working@, idx);
                assert(lot.quantity > 0);
                assert(draw == draw_at(c, n, i as int));
                // The lot has not given before: every earlier candidate gave all it held.
                if has_lot(c.take(i as int), lot.id) {
                    let j = lot_index(c.take(i as int), lot.id);
                    assert(c[j].id == lot.id);
                    assert(lots0.contains(c[j]));
                    let m = choose|m: int| 0 <= m < lots0.len() && lots0[m] == c[j];
                    lemma_lot_index(lots0, m);
                    lemma_total_take_next(c, j);
                    lemma_total_take_monotone(c, j + 1, i as int);
                    assert(draw_at(c, n, j) == c[j].quantity);
                    assert(false);
                }
                assert(before.dom().contains(lot.id));
                assert(before[lot.id] == lot);
                lemma_lot_map_contains(lots0, lot.id);
                let short = c.take(i as int);
                let long = c.take(i as int + 1);
                assert forall|a: int, b: int| 0 <= a < b < long.len() implies long[a].id
                    != long[b].id by {
                    if b < i {
                        assert(short[a].id != short[b].id);
                    } else {
                        assert(short[a].id == c[a].id);
                    }
                }
                lemma_lots_after_next(before, c, n, i as int);
                lemma_total_remove(working@, idx);
                lemma_lot_map_remove(working@, idx);
                let rest = Lot { quantity: (lot.quantity - draw) as u64, ..lot };
                lemma_total_update(working@, idx, rest);
                lemma_lot_map_update(working@, idx, rest);
            }
            let change = if draw == lot.quantity {
                LotChange::Delete { id: lot.id }
            } else {
                LotChange::Reduce { id: lot.id, new_quantity: lot.quantity - draw }
            };
            let step = match change {
                LotChange::Delete { id } => working.delete(id),
                LotChange::Reduce { id, new_quantity } => working.reduce(id, new_quantity),
            };
            match step {
                Ok(()) => {},
                Err(AppError::NotFound) => {
                    return Err(AppError::ConcurrentModification);
                },
                Err(e) => {
                    return Err(e);
                },
            }
            let entry = Spec {
                quantity: draw,
                orig_price: lot.unit_price,
                sale_price: request.realized_unit_price,
                liquidation_date: request.occurred_at,
            };
            proof {
                lemma_consumed_push(records@, entry);
                assert(entry == receipt(c[i as int], draw_at(c, n, i as int), *request));
                assert(records@.push(entry) =~= receipts_within(c, *request, i as int + 1));
                assert(change == change_for(c[i as int], draw_at(c, n, i as int)));
                assert(done@.push(change) =~= changes_within(c, n, i as int + 1));
            }
            records.push(entry);
            done.push(change);
            remaining = remaining - draw;
            i += 1;
        }
        proof {
            if i == c.len() {
                assert(c.take(i as int) =~= c);
            } else {
                lemma_total_take_le(c, i as int);
            }
            lemma_touched_is(c, n, i as int);
            lemma_lots_left(lots0, c, n, i as int);
            lemma_lot_map_determines(working@, lots_left(lots0, c, n));
            lemma_consumed_concat(self.ledger@, records@);
            let reached = c.take(i as int);
            assert forall|a: int, b: int| 0 <= a < b < i implies c[a].id != c[b].id by {
                assert(reached[a].id != reached[b].id);
            }
        }
        self.store = working;
        self.ledger.extend(&records);
        Ok(ConsumptionOutcome { records, changes: done, shortfall: remaining })
    }

    /// Serves `request` from the store. If the lots on hand do not cover
    /// the request, nothing is consumed and the whole request comes back as
    /// the shortfall. Otherwise the lots give in the order of the request's
    /// strategy, as `draw_from` says, and the shortfall is zero. The engine
    /// holds the store for the whole call, so no lot can change under it
    /// and the call never fails.
    pub fn consume(&mut self, request: &ConsumptionRequest) -> (r: Result<
        ConsumptionOutcome,
        AppError,
    >)
        requires
            old(self).wf(),
        ensures
            final(self).wf(),
            final(self).acquired() == old(self).acquired(),
            final(self).next_id() == old(self).next_id(),
            final(self).books() == after(
                old(self).books(),
                Operation::Consume { request: *request },
            ),
            r is Ok,
            r->Ok_0.records@ == consume_records(old(self).lots(), *request),
            r->Ok_0.changes@ == consume_changes(old(self).lots(), *request),
            r->Ok_0.shortfall == consume_shortfall(old(self).lots(), *request),
            final(self).lots() == consume_lots(old(self).lots(), *request),
            final(self).records() == old(self).records() + r->Ok_0.records@,
            total_quantity(old(self).lots()) < request.quantity_needed ==> final(self).same_state(
                old(self),
            ),
    {
        if self.store.total_quantity() < request.quantity_needed {
            let out = ConsumptionOutcome {
                records: Vec::new(),
                changes: Vec::new(),
                shortfall: request.quantity_needed,
            };
            assert(self.ledger@ + out.records@ =~= self.ledger@);
            return Ok(out);
        }
        let candidates = self.store.iterate_by(request.strategy);
        proof {
            lemma_strategy_order_current(
                self.store@,
                candidates@,
                request.strategy,
                request.quantity_needed as nat,
            );
        }
        self.draw_from(&candidates, request)
    }

    /// The lot store.
    pub fn store(&self) -> (s: &LotStore)
        ensures
            s@ == self.lots(),
            s.next_id() == self.next_id(),
            self.wf() ==> s.wf(),
    {
        &self.store
    }

    /// The consumption ledger.
    pub fn ledger(&self) -> (l: &Ledger)
        ensures
            l@ == self.records(),
            self.wf() ==> l.wf(),
    {
        &self.ledger
    }

    /// The quantity ever acquired.
    pub fn total_acquired(&self) -> (t: u64)
        ensures
            t == self.acquired(),
    {
        self.acquired
    }
}

/// Records a purchase as a new lot and returns the lot's identifier.
/// Refused exactly as `purchase_refusal` says, and then nothing is changed.
pub fn record_purchase(
    engine: &mut ConsumptionEngine,
    quantity: u64,
    price_per_ton: u64,
    date_time: DateTime,
) -> (r: Result<u64, AppError>)
    requires
        old(engine).wf(),
    ensures
        final(engine).wf(),
        final(engine).records() == old(engine).records(),
        final(engine).books() == after(
            old(engine).books(),
            Operation::Purchase { quantity, unit_price: price_per_ton, acquired_at: date_time },
        ),
        match purchase_refusal(old(engine).acquired(), old(engine).next_id(), quantity) {
            Some(e) => r == Err::<u64, AppError>(e) && final(engine).same_state(old(engine)),
            None => {
                &&& r == Ok::<u64, AppError>(old(engine).next_id())
                &&& final(engine).next_id() == old(engine).next_id() + 1
                &&& final(engine).acquired() == old(engine).acquired() + quantity
                &&& final(engine).lots() == old(engine).lots().push(
                    Lot {
                        id: old(engine).next_id(),
                        quantity,
                        unit_price: price_per_ton,
                        acquired_at: date_time,
                    },
                )
            },
        },
{
    if quantity == 0 || quantity > u64::MAX - engine.acquired {
        return Err(AppError::InvariantViolation);
    }
    match engine.store.insert(quantity, price_per_ton, date_time) {
        Ok(id) => {
            engine.acquired = engine.acquired + quantity;
            proof {
                lemma_total_push(
                    old(engine).lots(),
                    Lot { id, quantity, unit_price: price_per_ton, acquired_at: date_time },
                );
            }
            Ok(id)
        },
        Err(e) => Err(e),
    }
}

/// Consumes `quantity_needed` under `strategy`, realising `selling_price`
/// per unit at `liquidation_date_time`: `consume` on the request that these
/// four make up. The outcome holds the records written and the changes made
/// to the store, for whoever keeps the store's tables to carry out.
pub fn use_tao(
    engine: &mut ConsumptionEngine,
    quantity_needed: u64,
    liquidation_date_time: DateTime,
    selling_price: u64,
    strategy: Strategy,
) -> (r: Result<ConsumptionOutcome, AppError>)
    requires
        old(engine).wf(),
    ensures
        final(engine).wf(),
        r is Ok,
        ({
            let request = ConsumptionRequest {
                quantity_needed,
                strategy,
                realized_unit_price: selling_price,
                occurred_at: liquidation_date_time,
            };
            &&& final(engine).books() == after(old(engine).books(), Operation::Consume { request })
            &&& r->Ok_0.records@ == consume_records(old(engine).lots(), request)
            &&& r->Ok_0.changes@ == consume_changes(old(engine).lots(), request)
            &&& r->Ok_0.shortfall == consume_shortfall(old(engine).lots(), request)
        }),
{
    let request = ConsumptionRequest {
        quantity_needed,
        strategy,
        realized_unit_price: selling_price,
        occurred_at: liquidation_date_time,
    };
    engine.consume(&request)
}

/// Whether the lots on hand cover `quantity_needed`.
pub fn check_inventory(engine: &ConsumptionEngine, quantity_needed: u64) -> (enough: bool)
    requires
        engine.wf(),
    ensures
        enough == (total_quantity(engine.lots()) >= quantity_needed),
{
    engine.store.total_quantity() >= quantity_needed
}

} // verus!
