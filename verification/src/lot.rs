//! Lots, cost-flow strategies, and the order in which a strategy draws.

use vstd::prelude::*;
use crate::datetime::DateTime;

verus! {

/// A batch of inventory acquired at one time and one unit price.
#[derive(Clone, Copy, Debug, PartialEq, Eq, Structural)]
pub struct Lot {
    /// Assigned by the store when the lot is created; never reused.
    pub id: u64,
    /// What is left of the lot. Positive for as long as the lot exists.
    pub quantity: u64,
    /// Value per unit, fixed at acquisition.
    pub unit_price: u64,
    /// When the lot was acquired.
    pub acquired_at: DateTime,
}

/// The policy that decides which lot is drawn from first.
#[derive(Clone, Copy, Debug, PartialEq, Eq, Structural)]
pub enum Strategy {
    /// First in, first out: the earliest acquisition first.
    Fifo,
    /// Last in, first out: the latest acquisition first.
    Lifo,
    /// Lowest cost first out: the cheapest unit price first.
    Lofo,
    /// Highest cost first out: the dearest unit price first.
    Hifo,
}

impl Strategy {
    /// The strategy that a stored usage setting selects.
    pub open spec fn of_usage_type(usage_type: i64) -> Strategy {
        if usage_type == 1 {
            Strategy::Fifo
        } else if usage_type == 2 {
            Strategy::Lifo
        } else if usage_type == 3 {
            Strategy::Lofo
        } else {
            Strategy::Hifo
        }
    }

    /// Reads a stored usage setting: 1 is FIFO, 2 is LIFO, 3 is LOFO, and
    /// every other value is HIFO.
    pub fn from_usage_type(usage_type: i64) -> (s: Strategy)
        ensures
            s == Strategy::of_usage_type(usage_type),
    {
        if usage_type == 1 {
            Strategy::Fifo
        } else if usage_type == 2 {
            Strategy::Lifo
        } else if usage_type == 3 {
            Strategy::Lofo
        } else {
            Strategy::Hifo
        }
    }

    /// The usage setting under which this strategy is stored.
    pub fn usage_type(&self) -> (code: i64)
        ensures
            1 <= code <= 4,
            Strategy::of_usage_type(code) == *self,
            code == 1 <==> *self == Strategy::Fifo,
            code == 2 <==> *self == Strategy::Lifo,
            code == 3 <==> *self == Strategy::Lofo,
    {
        match self {
            Strategy::Fifo => 1,
            Strategy::Lifo => 2,
            Strategy::Lofo => 3,
            Strategy::Hifo => 4,
        }
    }
}

/// Under `strategy`, lot `a` is drawn from before lot `b`. The strategy's key
/// decides; lots with equal keys go by ascending identifier.
pub open spec fn draws_before(strategy: Strategy, a: Lot, b: Lot) -> bool {
    match strategy {
        Strategy::Fifo => a.acquired_at.is_before(b.acquired_at) || (a.acquired_at
            == b.acquired_at && a.id < b.id),
        Strategy::Lifo => b.acquired_at.is_before(a.acquired_at) || (a.acquired_at
            == b.acquired_at && a.id < b.id),
        Strategy::Lofo => a.unit_price < b.unit_price || (a.unit_price == b.unit_price && a.id
            < b.id),
        Strategy::Hifo => a.unit_price > b.unit_price || (a.unit_price == b.unit_price && a.id
            < b.id),
    }
}

/// Whether `a` is drawn from before `b` under `strategy`.
pub fn precedes(strategy: Strategy, a: &Lot, b: &Lot) -> (r: bool)
    ensures
        r == draws_before(strategy, *a, *b),
{
    match strategy {
        Strategy::Fifo => a.acquired_at.earlier_than(&b.acquired_at) || (a.acquired_at
            == b.acquired_at && a.id < b.id),
        Strategy::Lifo => b.acquired_at.earlier_than(&a.acquired_at) || (a.acquired_at
            == b.acquired_at && a.id < b.id),
        Strategy::Lofo => a.unit_price < b.unit_price || (a.unit_price == b.unit_price && a.id
            < b.id),
        Strategy::Hifo => a.unit_price > b.unit_price || (a.unit_price == b.unit_price && a.id
            < b.id),
    }
}

/// The quantity that a sequence of lots holds together.
pub open spec fn total_quantity(lots: Seq<Lot>) -> nat
    decreases lots.len(),
{
    if lots.len() == 0 {
        0
    } else {
        total_quantity(lots.drop_last()) + lots.last().quantity as nat
    }
}

/// What a sequence of lots cost at acquisition: each quantity times its unit
/// price, summed.
pub open spec fn lots_value(lots: Seq<Lot>) -> nat
    decreases lots.len(),
{
    if lots.len() == 0 {
        0
    } else {
        lots_value(lots.drop_last()) + lots.last().quantity as nat * lots.last().unit_price as nat
    }
}

/// Appending a lot adds its quantity to the total.
pub proof fn lemma_total_push(lots: Seq<Lot>, lot: Lot)
    ensures
        total_quantity(lots.push(lot)) == total_quantity(lots) + lot.quantity,
{
    assert(lots.push(lot).drop_last() =~= lots);
}

/// The first `i + 1` lots hold what the first `i` hold plus lot `i`.
pub proof fn lemma_total_take_next(lots: Seq<Lot>, i: int)
    requires
        0 <= i < lots.len(),
    ensures
        total_quantity(lots.take(i + 1)) == total_quantity(lots.take(i)) + lots[i].quantity,
{
    assert(lots.take(i + 1).drop_last() =~= lots.take(i));
}

/// A prefix holds no more than a longer prefix.
pub proof fn lemma_total_take_monotone(lots: Seq<Lot>, i: int, j: int)
    requires
        0 <= i <= j <= lots.len(),
    ensures
        total_quantity(lots.take(i)) <= total_quantity(lots.take(j)),
    decreases j - i,
{
    if i < j {
        lemma_total_take_next(lots, j - 1);
        lemma_total_take_monotone(lots, i, j - 1);
    }
}

/// A prefix holds no more than the whole.
pub proof fn lemma_total_take_le(lots: Seq<Lot>, i: int)
    requires
        0 <= i <= lots.len(),
    ensures
        total_quantity(lots.take(i)) <= total_quantity(lots),
{
    lemma_total_take_monotone(lots, i, lots.len() as int);
    assert(lots.take(lots.len() as int) =~= lots);
}

/// Taking one lot out lowers the total by what that lot holds.
pub proof fn lemma_total_remove(lots: Seq<Lot>, i: int)
    requires
        0 <= i < lots.len(),
    ensures
        total_quantity(lots) == total_quantity(lots.remove(i)) + lots[i].quantity,
    decreases lots.len(),
{
    if i == lots.len() - 1 {
        assert(lots.remove(i) =~= lots.drop_last());
    } else {
        lemma_total_remove(lots.drop_last(), i);
        assert(lots.remove(i).drop_last() =~= lots.drop_last().remove(i));
        assert(lots.remove(i).last() == lots.last());
    }
}

/// Replacing one lot changes the total by the difference of the quantities.
pub proof fn lemma_total_update(lots: Seq<Lot>, i: int, lot: Lot)
    requires
        0 <= i < lots.len(),
    ensures
        total_quantity(lots.update(i, lot)) + lots[i].quantity == total_quantity(lots)
            + lot.quantity,
{
    lemma_total_remove(lots, i);
    lemma_total_remove(lots.update(i, lot), i);
    assert(lots.update(i, lot).remove(i) =~= lots.remove(i));
}

/// No single lot holds more than the whole.
pub proof fn lemma_total_bounds_each(lots: Seq<Lot>, i: int)
    requires
        0 <= i < lots.len(),
    ensures
        lots[i].quantity <= total_quantity(lots),
{
    lemma_total_remove(lots, i);
}

/// Two arrangements of the same lots hold the same total.
pub proof fn lemma_total_of_rearrangement(a: Seq<Lot>, b: Seq<Lot>)
    requires
        a.to_multiset() == b.to_multiset(),
    ensures
        total_quantity(a) == total_quantity(b),
    decreases a.len(),
{
    a.to_multiset_ensures();
    b.to_multiset_ensures();
    if a.len() == 0 {
        assert(b.len() == 0);
    } else {
        let x = a.last();
        assert(a[a.len() - 1] == x);
        assert(a.to_multiset().count(x) > 0);
        assert(b.to_multiset().count(x) > 0);
        assert(b.contains(x));
        let j = choose|j: int| 0 <= j < b.len() && b[j] == x;
        assert(a.drop_last() =~= a.remove(a.len() - 1));
        assert(a.drop_last().to_multiset() =~= b.remove(j).to_multiset());
        lemma_total_of_rearrangement(a.drop_last(), b.remove(j));
        lemma_total_remove(b, j);
    }
}

} // verus!
