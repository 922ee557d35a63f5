//! Consumption records and the append-only ledger that keeps them.

use vstd::prelude::*;
use crate::datetime::DateTime;
use crate::error::AppError;

verus! {

/// The receipt of what one consumption request drew from one lot. Every
/// field is a copy: later changes to the lot do not reach the record.
#[derive(Clone, Copy, Debug, PartialEq, Eq, Structural)]
pub struct Spec {
    /// The quantity consumed from the lot; positive.
    pub quantity: u64,
    /// The lot's unit price at the moment of consumption.
    pub orig_price: u64,
    /// The unit price that the request realised.
    pub sale_price: u64,
    /// When the consumption took place.
    pub liquidation_date: DateTime,
}

/// The quantity that a sequence of records consumed together.
pub open spec fn total_consumed(records: Seq<Spec>) -> nat
    decreases records.len(),
{
    if records.len() == 0 {
        0
    } else {
        total_consumed(records.drop_last()) + records.last().quantity as nat
    }
}

/// What the consumed quantities realised: each quantity times the realised
/// unit price, summed.
pub open spec fn realized_total(records: Seq<Spec>) -> nat
    decreases records.len(),
{
    if records.len() == 0 {
        0
    } else {
        realized_total(records.drop_last()) + records.last().quantity as nat
            * records.last().sale_price as nat
    }
}

/// What the consumed quantities had cost: each quantity times the unit
/// price of the lot it came from, summed.
pub open spec fn cost_basis_total(records: Seq<Spec>) -> nat
    decreases records.len(),
{
    if records.len() == 0 {
        0
    } else {
        cost_basis_total(records.drop_last()) + records.last().quantity as nat
            * records.last().orig_price as nat
    }
}

/// What a ledger may hold: records of positive quantities, with a total that
/// a `u64` can carry.
pub open spec fn valid_records(records: Seq<Spec>) -> bool {
    &&& forall|i: int| 0 <= i < records.len() ==> records[i].quantity > 0
    &&& total_consumed(records) <= u64::MAX
}

/// Appending a record adds its quantity to the total.
pub proof fn lemma_consumed_push(records: Seq<Spec>, entry: Spec)
    ensures
        total_consumed(records.push(entry)) == total_consumed(records) + entry.quantity,
{
    assert(records.push(entry).drop_last() =~= records);
}

/// The total of two runs of records is the sum of their totals.
pub proof fn lemma_consumed_concat(a: Seq<Spec>, b: Seq<Spec>)
    ensures
        total_consumed(a + b) == total_consumed(a) + total_consumed(b),
    decreases b.len(),
{
    if b.len() == 0 {
        assert(a + b =~= a);
    } else {
        lemma_consumed_concat(a, b.drop_last());
        assert((a + b).drop_last() =~= a + b.drop_last());
    }
}

/// The first `i + 1` records consumed what the first `i` did plus record `i`.
pub proof fn lemma_consumed_take_next(records: Seq<Spec>, i: int)
    requires
        0 <= i < records.len(),
    ensures
        total_consumed(records.take(i + 1)) == total_consumed(records.take(i))
            + records[i].quantity,
{
    assert(records.take(i + 1).drop_last() =~= records.take(i));
}

/// A prefix consumed no more than the whole.
pub proof fn lemma_consumed_take_le(records: Seq<Spec>, i: int)
    requires
        0 <= i <= records.len(),
    ensures
        total_consumed(records.take(i)) <= total_consumed(records),
    decreases records.len() - i,
{
    if i < records.len() {
        lemma_consumed_take_next(records, i);
        lemma_consumed_take_le(records, i + 1);
    } else {
        assert(records.take(i) =~= records);
    }
}

/// The consumption ledger: every record ever written, oldest first.
pub struct Ledger {
    records: Vec<Spec>,
    consumed: u64,
}

impl View for Ledger {
    type V = Seq<Spec>;

    /// The records, oldest first.
    closed spec fn view(&self) -> Seq<Spec> {
        self.records@
    }
}

impl Ledger {
    /// The running total agrees with the records.
    pub closed spec fn total_is_current(&self) -> bool {
        self.consumed == total_consumed(self.records@)
    }

    /// The ledger's invariant.
    pub open spec fn wf(&self) -> bool {
        valid_records(self@) && self.total_is_current()
    }

    /// An empty ledger.
    pub fn new() -> (l: Ledger)
        ensures
            l.wf(),
            l@ == Seq::<Spec>::empty(),
    {
        Ledger { records: Vec::new(), consumed: 0 }
    }

    /// Opens a ledger on persisted records, oldest first. Fails with
    /// `PersistenceError` exactly when the records are not valid.
    pub fn restore(records: Vec<Spec>) -> (r: Result<Ledger, AppError>)
        ensures
            match r {
                Ok(l) => valid_records(records@) && l.wf() && l@ == records@,
                Err(e) => e == AppError::PersistenceError && !valid_records(records@),
            },
    {
        let mut sum: u64 = 0;
        let mut i: usize = 0;
        while i < records.len()
            invariant
                i <= records@.len(),
                valid_records(records@.take(i as int)),
                sum == total_consumed(records@.take(i as int)),
            decreases records@.len() - i,
        {
            let entry = records[i];
            proof {
                lemma_consumed_take_next(records@, i as int);
                lemma_consumed_take_le(records@, i as int + 1);
            }
            if entry.quantity == 0 || entry.quantity > u64::MAX - sum {
                return Err(AppError::PersistenceError);
            }
            sum = sum + entry.quantity;
            i += 1;
        }
        assert(records@.take(records@.len() as int) =~= records@);
        Ok(Ledger { records, consumed: sum })
    }

    /// A second ledger with the same records.
    pub fn duplicate(&self) -> (l: Ledger)
        ensures
            l@ == self@,
            l.wf() == self.wf(),
    {
        let mut records: Vec<Spec> = Vec::new();
        let mut i: usize = 0;
        while i < self.records.len()
            invariant
                i <= self.records@.len(),
                records@ == self.records@.take(i as int),
            decreases self.records@.len() - i,
        {
            records.push(self.records[i]);
            i += 1;
        }
        assert(self.records@.take(self.records@.len() as int) =~= self.records@);
        Ledger { records, consumed: self.consumed }
    }

    /// How many records the ledger holds.
    pub fn len(&self) -> (n: usize)
        ensures
            n == self@.len(),
    {
        self.records.len()
    }

    /// The records, oldest first.
    pub fn records(&self) -> (v: &Vec<Spec>)
        ensures
            v@ == self@,
    {
        &self.records
    }

    /// The quantity consumed by all records together.
    pub fn total_consumed(&self) -> (t: u64)
        requires
            self.wf(),
        ensures
            t == total_consumed(self@),
    {
        self.consumed
    }

    /// Writes the records of one consumption behind those already kept.
    pub(crate) fn extend(&mut self, entries: &Vec<Spec>)
        requires
            old(self).wf(),
            valid_records(old(self)@ + entries@),
        ensures
            final(self).wf(),
            final(self)@ == old(self)@ + entries@,
    {
        let mut i: usize = 0;
        while i < entries.len()
            invariant
                i <= entries@.len(),
                self.records@ == old(self).records@ + entries@.take(i as int),
                self.consumed == total_consumed(self.records@),
                valid_records(old(self).records@ + entries@),
            decreases entries@.len() - i,
        {
            let entry = entries[i];
            proof {
                let all = old(self).records@ + entries@;
                let k = old(self).records@.len() + i;
                assert(all.take(k as int) =~= self.records@);
                assert(all[k as int] == entry);
                lemma_consumed_take_next(all, k as int);
                lemma_consumed_take_le(all, k as int + 1);
                lemma_consumed_push(self.records@, entry);
                assert(entries@.take(i as int + 1) =~= entries@.take(i as int).push(entry));
            }
            self.records.push(entry);
            self.consumed = self.consumed + entry.quantity;
            i += 1;
        }
        assert(entries@.take(entries@.len() as int) =~= entries@);
    }
}

} // verus!
