//! The lot store: the mapping from lot identifier to lot record.
//!
//! The store keeps its lots in ascending order of identifier, which is the
//! order in which they were created. Its view is that sequence.

use vstd::prelude::*;
use crate::datetime::DateTime;
use crate::error::AppError;
use crate::lot::{Lot, Strategy, draws_before, precedes, total_quantity, lemma_total_push,
    lemma_total_remove, lemma_total_update, lemma_total_take_next, lemma_total_take_le,
    lemma_total_bounds_each};
use crate::order::{in_strategy_order, is_strategy_order, strategy_order, lemma_draws_before_total,
    lemma_draws_before_transitive, lemma_strategy_order_is};

verus! {

/// Identifiers grow strictly along the sequence, so none occurs twice.
pub open spec fn ascending_ids(lots: Seq<Lot>) -> bool {
    forall|i: int, j: int| 0 <= i < j < lots.len() ==> lots[i].id < lots[j].id
}

/// No identifier occurs twice.
pub open spec fn distinct_ids(lots: Seq<Lot>) -> bool {
    forall|i: int, j: int| 0 <= i < j < lots.len() ==> lots[i].id != lots[j].id
}

/// No lot is empty.
pub open spec fn all_positive(lots: Seq<Lot>) -> bool {
    forall|i: int| 0 <= i < lots.len() ==> lots[i].quantity > 0
}

/// What a store may hold: distinct lots in order of creation, none of them
/// empty, with a total that a `u64` can carry.
pub open spec fn valid_lots(lots: Seq<Lot>) -> bool {
    &&& ascending_ids(lots)
    &&& all_positive(lots)
    &&& total_quantity(lots) <= u64::MAX
}

/// Some lot in `lots` has the identifier `id`.
pub open spec fn has_lot(lots: Seq<Lot>, id: u64) -> bool {
    exists|i: int| 0 <= i < lots.len() && lots[i].id == id
}

/// Where the lot with identifier `id` stands in `lots`.
pub open spec fn lot_index(lots: Seq<Lot>, id: u64) -> int {
    choose|i: int| 0 <= i < lots.len() && lots[i].id == id
}

/// The lots as a mapping from identifier to record.
pub open spec fn lot_map(lots: Seq<Lot>) -> Map<u64, Lot> {
    Map::new(|id: u64| has_lot(lots, id), |id: u64| lots[lot_index(lots, id)])
}

/// Rows from which a store can be restored: valid lots, and a next
/// identifier that is at least 1 and above the identifiers of all of them.
pub open spec fn restorable(lots: Seq<Lot>, next_id: u64) -> bool {
    &&& valid_lots(lots)
    &&& next_id >= 1
    &&& lots.len() > 0 ==> lots.last().id < next_id
}

/// Why `insert` refuses, if it does: an empty lot, or one that would carry
/// the total past `u64::MAX`, violates the store's invariant; a store that
/// has handed out its last identifier is full.
pub open spec fn insert_refusal(lots: Seq<Lot>, next_id: u64, quantity: u64) -> Option<AppError> {
    if quantity == 0 || total_quantity(lots) + quantity > u64::MAX {
        Some(AppError::InvariantViolation)
    } else if next_id == u64::MAX {
        Some(AppError::PersistenceError)
    } else {
        None
    }
}

/// Why `reduce` refuses, if it does.
pub open spec fn reduce_refusal(lots: Seq<Lot>, id: u64, new_quantity: u64) -> Option<AppError> {
    if !has_lot(lots, id) {
        Some(AppError::NotFound)
    } else if !(0 < new_quantity < lots[lot_index(lots, id)].quantity) {
        Some(AppError::InvariantViolation)
    } else {
        None
    }
}

/// In a sequence with ascending identifiers, a lot is found where it stands.
pub proof fn lemma_lot_index(lots: Seq<Lot>, i: int)
    requires
        ascending_ids(lots),
        0 <= i < lots.len(),
    ensures
        has_lot(lots, lots[i].id),
        lot_index(lots, lots[i].id) == i,
        lot_map(lots).dom().contains(lots[i].id),
        lot_map(lots)[lots[i].id] == lots[i],
{
    let j = lot_index(lots, lots[i].id);
    assert(0 <= j < lots.len() && lots[j].id == lots[i].id);
    if j < i {
        assert(lots[j].id < lots[i].id);
    }
    if i < j {
        assert(lots[i].id < lots[j].id);
    }
}

/// A lot that stands in the sequence is the one that the mapping gives for
/// its identifier, and the mapping knows no other identifiers.
pub proof fn lemma_lot_map_contains(lots: Seq<Lot>, id: u64)
    requires
        ascending_ids(lots),
        lot_map(lots).dom().contains(id),
    ensures
        0 <= lot_index(lots, id) < lots.len(),
        lots[lot_index(lots, id)].id == id,
        lots.contains(lot_map(lots)[id]),
{
}

/// Taking a lot out of the sequence takes its identifier out of the mapping.
pub proof fn lemma_lot_map_remove(lots: Seq<Lot>, i: int)
    requires
        ascending_ids(lots),
        0 <= i < lots.len(),
    ensures
        ascending_ids(lots.remove(i)),
        lot_map(lots.remove(i)) == lot_map(lots).remove(lots[i].id),
{
    let less = lots.remove(i);
    assert forall|id: u64| #[trigger] lot_map(less).dom().contains(id) <==> lot_map(lots).remove(
        lots[i].id,
    ).dom().contains(id) by {
        if has_lot(less, id) {
            let j = lot_index(less, id);
            if j < i {
                lemma_lot_index(lots, j);
            } else {
                lemma_lot_index(lots, j + 1);
            }
        }
        if has_lot(lots, id) && id != lots[i].id {
            let j = lot_index(lots, id);
            if j < i {
                assert(less[j].id == id);
            } else {
                assert(less[j - 1].id == id);
            }
        }
    }
    assert forall|id: u64| #[trigger] lot_map(less).dom().contains(id) implies lot_map(less)[id]
        == lot_map(lots).remove(lots[i].id)[id] by {
        let j = lot_index(less, id);
        if j < i {
            lemma_lot_index(lots, j);
        } else {
            lemma_lot_index(lots, j + 1);
        }
    }
    assert(lot_map(less) =~= lot_map(lots).remove(lots[i].id));
}

/// Replacing a lot by one with the same identifier replaces it in the
/// mapping.
pub proof fn lemma_lot_map_update(lots: Seq<Lot>, i: int, lot: Lot)
    requires
        ascending_ids(lots),
        0 <= i < lots.len(),
        lot.id == lots[i].id,
    ensures
        ascending_ids(lots.update(i, lot)),
        lot_map(lots.update(i, lot)) == lot_map(lots).insert(lot.id, lot),
{
    let next = lots.update(i, lot);
    assert forall|id: u64| #[trigger] lot_map(next).dom().contains(id) <==> lot_map(lots).insert(
        lot.id,
        lot,
    ).dom().contains(id) by {
        if has_lot(next, id) {
            let j = lot_index(next, id);
            assert(lots[j].id == id);
        }
        if has_lot(lots, id) {
            let j = lot_index(lots, id);
            assert(next[j].id == id);
        }
        if id == lot.id {
            assert(next[i].id == id);
        }
    }
    assert forall|id: u64| #[trigger] lot_map(next).dom().contains(id) implies lot_map(next)[id]
        == lot_map(lots).insert(lot.id, lot)[id] by {
        let j = lot_index(next, id);
        lemma_lot_index(next, j);
        assert(lots[j].id == id);
        lemma_lot_index(lots, j);
    }
    assert(lot_map(next) =~= lot_map(lots).insert(lot.id, lot));
}

/// Appending a lot whose identifier is above all others adds it to the
/// mapping.
pub proof fn lemma_lot_map_push(lots: Seq<Lot>, lot: Lot)
    requires
        ascending_ids(lots),
        forall|i: int| 0 <= i < lots.len() ==> lots[i].id < lot.id,
    ensures
        ascending_ids(lots.push(lot)),
        lot_map(lots.push(lot)) == lot_map(lots).insert(lot.id, lot),
{
    let next = lots.push(lot);
    assert forall|id: u64| #[trigger] lot_map(next).dom().contains(id) <==> lot_map(lots).insert(
        lot.id,
        lot,
    ).dom().contains(id) by {
        if has_lot(next, id) {
            let j = lot_index(next, id);
            if j < lots.len() {
                assert(lots[j].id == id);
            }
        }
        if has_lot(lots, id) {
            let j = lot_index(lots, id);
            assert(next[j].id == id);
        }
        if id == lot.id {
            assert(next[lots.len() as int].id == id);
        }
    }
    assert forall|id: u64| #[trigger] lot_map(next).dom().contains(id) implies lot_map(next)[id]
        == lot_map(lots).insert(lot.id, lot)[id] by {
        let j = lot_index(next, id);
        lemma_lot_index(next, j);
        if j < lots.len() {
            lemma_lot_index(lots, j);
        }
    }
    assert(lot_map(next) =~= lot_map(lots).insert(lot.id, lot));
}

/// Two stores that hold the same mapping hold the same sequence.
pub proof fn lemma_lot_map_determines(a: Seq<Lot>, b: Seq<Lot>)
    requires
        ascending_ids(a),
        ascending_ids(b),
        lot_map(a) == lot_map(b),
    ensures
        a == b,
    decreases a.len(),
{
    if a.len() == 0 {
        if b.len() > 0 {
            lemma_lot_index(b, 0);
            assert(lot_map(a).dom().contains(b[0].id));
        }
        assert(a =~= b);
    } else {
        let n = a.len() - 1;
        lemma_lot_index(a, n);
        assert(lot_map(b).dom().contains(a[n].id));
        let j = lot_index(b, a[n].id);
        lemma_lot_index(b, j);
        assert(b[j] == a[n]);
        if j < b.len() - 1 {
            let m = b.len() - 1;
            lemma_lot_index(b, m);
            assert(lot_map(a).dom().contains(b[m].id));
            let k = lot_index(a, b[m].id);
            lemma_lot_index(a, k);
            assert(a[k].id == b[m].id);
            assert(false);
        }
        lemma_lot_map_remove(a, n);
        lemma_lot_map_remove(b, j);
        assert(a.remove(n) =~= a.drop_last());
        assert(b.remove(j) =~= b.drop_last());
        lemma_lot_map_determines(a.drop_last(), b.drop_last());
        assert(a =~= a.drop_last().push(a[n]));
        assert(b =~= b.drop_last().push(b[j]));
    }
}

/// The store of lots.
pub struct LotStore {
    lots: Vec<Lot>,
    next_id: u64,
    on_hand: u64,
}

impl View for LotStore {
    type V = Seq<Lot>;

    /// The lots, in ascending order of identifier.
    closed spec fn view(&self) -> Seq<Lot> {
        self.lots@
    }
}

impl LotStore {
    /// The identifier that the next insertion will receive.
    pub closed spec fn next_id(&self) -> u64 {
        self.next_id
    }

    /// The running total agrees with the lots.
    pub closed spec fn total_is_current(&self) -> bool {
        self.on_hand == total_quantity(self.lots@)
    }

    /// The store's invariant.
    pub open spec fn wf(&self) -> bool {
        &&& valid_lots(self@)
        &&& forall|i: int| 0 <= i < self@.len() ==> self@[i].id < self.next_id()
        &&& self.next_id() >= 1
        &&& self.total_is_current()
    }

    /// The abstract state of two stores is the same.
    pub open spec fn same_state(&self, other: &LotStore) -> bool {
        self@ == other@ && self.next_id() == other.next_id()
    }

    /// An empty store, whose first lot will be number 1.
    pub fn new() -> (s: LotStore)
        ensures
            s.wf(),
            s@ == Seq::<Lot>::empty(),
            s.next_id() == 1,
    {
        LotStore { lots: Vec::new(), next_id: 1, on_hand: 0 }
    }

    /// Opens a store on persisted rows, given in ascending order of
    /// identifier, and on the identifier that the next lot is to receive,
    /// so that the identifiers of lots long gone are not handed out again.
    /// Fails with `PersistenceError` exactly when the rows and the
    /// identifier are not `restorable`.
    pub fn restore(lots: Vec<Lot>, next_id: u64) -> (r: Result<LotStore, AppError>)
        ensures
            match r {
                Ok(s) => restorable(lots@, next_id) && s.wf() && s@ == lots@ && s.next_id()
                    == next_id,
                Err(e) => e == AppError::PersistenceError && !restorable(lots@, next_id),
            },
    {
        let mut sum: u64 = 0;
        let mut i: usize = 0;
        while i < lots.len()
            invariant
                i <= lots@.len(),
                valid_lots(lots@.take(i as int)),
                sum == total_quantity(lots@.take(i as int)),
            decreases lots@.len() - i,
        {
            let lot = lots[i];
            proof {
                lemma_total_take_next(lots@, i as int);
                lemma_total_take_le(lots@, i as int + 1);
            }
            if lot.quantity == 0 || lot.quantity > u64::MAX - sum {
                return Err(AppError::PersistenceError);
            }
            if i > 0 && lots[i - 1].id >= lot.id {
                return Err(AppError::PersistenceError);
            }
            sum = sum + lot.quantity;
            i += 1;
            proof {
                let before = lots@.take(i as int - 1);
                let now = lots@.take(i as int);
                assert(now =~= before.push(lot));
                assert forall|a: int, b: int| 0 <= a < b < now.len() implies now[a].id
                    < now[b].id by {
                    if b == now.len() - 1 && a < b - 1 {
                        assert(before[a].id < before[b - 1].id);
                    }
                }
            }
        }
        assert(lots@.take(lots@.len() as int) =~= lots@);
        if next_id == 0 || (lots.len() > 0 && lots[lots.len() - 1].id >= next_id) {
            return Err(AppError::PersistenceError);
        }
        Ok(LotStore { lots, next_id, on_hand: sum })
    }

    /// A second store in the same state.
    pub fn duplicate(&self) -> (s: LotStore)
        ensures
            s.same_state(self),
            s.wf() == self.wf(),
    {
        let mut lots: Vec<Lot> = Vec::new();
        let mut i: usize = 0;
        while i < self.lots.len()
            invariant
                i <= self.lots@.len(),
                lots@ == self.lots@.take(i as int),
            decreases self.lots@.len() - i,
        {
            lots.push(self.lots[i]);
            i += 1;
        }
        assert(self.lots@.take(self.lots@.len() as int) =~= self.lots@);
        LotStore { lots, next_id: self.next_id, on_hand: self.on_hand }
    }

    /// How many lots the store holds.
    pub fn len(&self) -> (n: usize)
        ensures
            n == self@.len(),
    {
        self.lots.len()
    }

    /// The lots, in ascending order of identifier.
    pub fn lots(&self) -> (v: &Vec<Lot>)
        ensures
            v@ == self@,
    {
        &self.lots
    }

    /// The sum of all current lots' quantities; zero for an empty store.
    pub fn total_quantity(&self) -> (t: u64)
        requires
            self.wf(),
        ensures
            t == total_quantity(self@),
    {
        self.on_hand
    }

    /// Where the lot `id` stands, if the store has it.
    fn position(&self, id: u64) -> (r: Option<usize>)
        requires
            self.wf(),
        ensures
            match r {
                Some(i) => i < self@.len() && self@[i as int].id == id && has_lot(self@, id)
                    && lot_index(self@, id) == i,
                None => !has_lot(self@, id),
            },
    {
        let mut i: usize = 0;
        while i < self.lots.len()
            invariant
                self.wf(),
                i <= self.lots@.len(),
                forall|k: int| 0 <= k < i ==> self.lots@[k].id != id,
            decreases self.lots@.len() - i,
        {
            if self.lots[i].id == id {
                proof {
                    lemma_lot_index(self@, i as int);
                }
                return Some(i);
            }
            i += 1;
        }
        None
    }

    /// The lot `id`, if the store has it.
    pub fn get(&self, id: u64) -> (r: Option<Lot>)
        requires
            self.wf(),
        ensures
            r == if has_lot(self@, id) {
                Some(self@[lot_index(self@, id)])
            } else {
                None
            },
    {
        match self.position(id) {
            Some(i) => Some(self.lots[i]),
            None => None,
        }
    }

    /// The lots in the order in which `strategy` draws from them: FIFO by
    /// ascending acquisition time, LIFO by descending acquisition time, LOFO
    /// by ascending unit price, HIFO by descending unit price, and lots with
    /// equal keys by ascending identifier. The result is a snapshot: later
    /// changes to the store do not reach it.
    pub fn iterate_by(&self, strategy: Strategy) -> (out: Vec<Lot>)
        requires
            self.wf(),
        ensures
            is_strategy_order(out@, self@, strategy),
            out@ == strategy_order(self@, strategy),
    {
        let mut out: Vec<Lot> = Vec::new();
        let mut i: usize = 0;
        assert(out@ =~= self.lots@.take(0));
        while i < self.lots.len()
            invariant
                self.wf(),
                i <= self.lots@.len(),
                out@.to_multiset() == self.lots@.take(i as int).to_multiset(),
                in_strategy_order(out@, strategy),
            decreases self.lots@.len() - i,
        {
            let lot = self.lots[i];
            let mut p: usize = 0;
            while p < out.len() && precedes(strategy, &out[p], &lot)
                invariant
                    p <= out@.len(),
                    forall|k: int| 0 <= k < p ==> draws_before(strategy, out@[k], lot),
                decreases out@.len() - p,
            {
                p += 1;
            }
            proof {
                let seen = self.lots@.take(i as int);
                out@.to_multiset_ensures();
                seen.to_multiset_ensures();
                assert forall|k: int| p <= k < out@.len() implies draws_before(
                    strategy,
                    lot,
                    out@[k],
                ) by {
                    assert(out@.to_multiset().count(out@[k]) > 0);
                    assert(seen.contains(out@[k]));
                    let m = choose|m: int| 0 <= m < seen.len() && seen[m] == out@[k];
                    assert(self@[m].id < self@[i as int].id);
                    assert(out@.to_multiset().count(out@[p as int]) > 0);
                    assert(seen.contains(out@[p as int]));
                    let mp = choose|m: int| 0 <= m < seen.len() && seen[m] == out@[p as int];
                    assert(self@[mp].id < self@[i as int].id);
                    lemma_draws_before_total(strategy, lot, out@[p as int]);
                    if p < k {
                        lemma_draws_before_transitive(strategy, lot, out@[p as int], out@[k]);
                    }
                }
                let grown = out@.insert(p as int, lot);
                out@.insert_ensures(p as int, lot);
                vstd::seq_lib::to_multiset_insert(out@, p as int, lot);
                assert(self.lots@.take(i as int + 1) =~= seen.push(lot));
                assert forall|a: int, b: int| 0 <= a < b < grown.len() implies draws_before(
                    strategy,
                    grown[a],
                    grown[b],
                ) by {
                    if a < p && b > p {
                        assert(grown[b] == out@[b - 1]);
                    } else if a > p {
                        assert(grown[a] == out@[a - 1]);
                        assert(grown[b] == out@[b - 1]);
                    } else if a == p {
                        assert(grown[b] == out@[b - 1]);
                    }
                }
            }
            out.insert(p, lot);
            i += 1;
        }
        proof {
            assert(self.lots@.take(self.lots@.len() as int) =~= self.lots@);
            lemma_strategy_order_is(out@, self@, strategy);
        }
        out
    }

    /// Creates a lot and returns its identifier. Refused exactly as
    /// `insert_refusal` says, and then the store is unchanged.
    pub fn insert(&mut self, quantity: u64, unit_price: u64, acquired_at: DateTime) -> (r: Result<
        u64,
        AppError,
    >)
        requires
            old(self).wf(),
        ensures
            final(self).wf(),
            match insert_refusal(old(self)@, old(self).next_id(), quantity) {
                Some(e) => r == Err::<u64, AppError>(e) && final(self).same_state(old(self)),
                None => {
                    &&& r == Ok::<u64, AppError>(old(self).next_id())
                    &&& final(self).next_id() == old(self).next_id() + 1
                    &&& final(self)@ == old(self)@.push(
                        Lot { id: old(self).next_id(), quantity, unit_price, acquired_at },
                    )
                },
            },
    {
        if quantity == 0 || quantity > u64::MAX - self.on_hand {
            return Err(AppError::InvariantViolation);
        }
        if self.next_id == u64::MAX {
            return Err(AppError::PersistenceError);
        }
        let id: u64 = self.next_id;
        let lot = Lot { id, quantity, unit_price, acquired_at };
        proof {
            lemma_total_push(self.lots@, lot);
        }
        self.lots.push(lot);
        self.next_id = id + 1;
        self.on_hand = self.on_hand + quantity;
        Ok(id)
    }

    /// Lowers the quantity of lot `id` to `new_quantity`, which must lie
    /// strictly between zero and what the lot holds. Refused exactly as
    /// `reduce_refusal` says, and then the store is unchanged.
    pub fn reduce(&mut self, id: u64, new_quantity: u64) -> (r: Result<(), AppError>)
        requires
            old(self).wf(),
        ensures
            final(self).wf(),
            final(self).next_id() == old(self).next_id(),
            match reduce_refusal(old(self)@, id, new_quantity) {
                Some(e) => r == Err::<(), AppError>(e) && final(self)@ == old(self)@,
                None => {
                    let i = lot_index(old(self)@, id);
                    &&& r == Ok::<(), AppError>(())
                    &&& final(self)@ == old(self)@.update(
                        i,
                        Lot { quantity: new_quantity, ..old(self)@[i] },
                    )
                },
            },
    {
        match self.position(id) {
            None => Err(AppError::NotFound),
            Some(i) => {
                let lot = self.lots[i];
                if new_quantity == 0 || new_quantity >= lot.quantity {
                    return Err(AppError::InvariantViolation);
                }
                let reduced = Lot { quantity: new_quantity, ..lot };
                proof {
                    lemma_total_update(self.lots@, i as int, reduced);
                    lemma_total_bounds_each(self.lots@, i as int);
                }
                self.on_hand = self.on_hand - (lot.quantity - new_quantity);
                self.lots.set(i, reduced);
                Ok(())
            },
        }
    }

    /// Removes lot `id` for good. Fails with `NotFound`, leaving the store
    /// unchanged, exactly when the store has no such lot.
    pub fn delete(&mut self, id: u64) -> (r: Result<(), AppError>)
        requires
            old(self).wf(),
        ensures
            final(self).wf(),
            final(self).next_id() == old(self).next_id(),
            if has_lot(old(self)@, id) {
                r == Ok::<(), AppError>(()) && final(self)@ == old(self)@.remove(
                    lot_index(old(self)@, id),
                )
            } else {
                r == Err::<(), AppError>(AppError::NotFound) && final(self)@ == old(self)@
            },
    {
        match self.position(id) {
            None => Err(AppError::NotFound),
            Some(i) => {
                proof {
                    lemma_total_remove(self.lots@, i as int);
                }
                let lot = self.lots.remove(i);
                self.on_hand = self.on_hand - lot.quantity;
                Ok(())
            },
        }
    }
}

} // verus!
