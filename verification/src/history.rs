//! The books of an engine over a whole history of operations: a model of
//! the engine as a value that each operation maps to the next, and what
//! holds of it after any run of purchases and consumptions.

use vstd::prelude::*;
use crate::consumption::{ConsumptionRequest, draw_at, lots_left, receipts, touched, lemma_lots_left,
    lemma_touched};
use crate::datetime::DateTime;
use crate::engine::{consume_lots, consume_records, purchase_refusal, lemma_strategy_order_current};
use crate::laws::{law_consume_conserves, law_lots_left_positive};
use crate::ledger::{Spec, total_consumed, valid_records, lemma_consumed_concat};
use crate::lot::{Lot, total_quantity, lemma_total_push};
use crate::order::{strategy_order, lemma_strategy_order_exists};
use crate::store::{has_lot, lot_index, valid_lots};

verus! {

/// The state of an engine as a value.
pub struct Books {
    /// The current lots, in ascending order of identifier.
    pub lots: Seq<Lot>,
    /// The consumption records, oldest first.
    pub records: Seq<Spec>,
    /// The quantity ever acquired.
    pub acquired: nat,
    /// The identifier that the next purchase will receive.
    pub next_id: u64,
}

/// One operation on the books.
pub enum Operation {
    /// A purchase to be recorded as a new lot.
    Purchase { quantity: u64, unit_price: u64, acquired_at: DateTime },
    /// A consumption request.
    Consume { request: ConsumptionRequest },
}

/// The books of an engine that has seen no operation.
pub open spec fn opening_books() -> Books {
    Books { lots: Seq::empty(), records: Seq::empty(), acquired: 0, next_id: 1 }
}

/// What books must satisfy: valid lots with identifiers that were handed
/// out, valid records, and conservation.
pub open spec fn books_balanced(books: Books) -> bool {
    &&& valid_lots(books.lots)
    &&& forall|i: int| 0 <= i < books.lots.len() ==> books.lots[i].id < books.next_id
    &&& books.next_id >= 1
    &&& valid_records(books.records)
    &&& books.acquired <= u64::MAX
    &&& total_quantity(books.lots) + total_consumed(books.records) == books.acquired
}

/// The books after one operation. A purchase that is refused changes
/// nothing; one that is accepted appends its lot. A consumption leaves the
/// lots and writes the records that `consume` is specified to.
pub open spec fn after(books: Books, op: Operation) -> Books {
    match op {
        Operation::Purchase { quantity, unit_price, acquired_at } => {
            if purchase_refusal(books.acquired, books.next_id, quantity) is Some {
                books
            } else {
                Books {
                    lots: books.lots.push(
                        Lot { id: books.next_id, quantity, unit_price, acquired_at },
                    ),
                    records: books.records,
                    acquired: books.acquired + quantity as nat,
                    next_id: (books.next_id + 1) as u64,
                }
            }
        },
        Operation::Consume { request } => Books {
            lots: consume_lots(books.lots, request),
            records: books.records + consume_records(books.lots, request),
            acquired: books.acquired,
            next_id: books.next_id,
        },
    }
}

/// The books after a run of operations, applied in order.
pub open spec fn after_all(start: Books, ops: Seq<Operation>) -> Books
    decreases ops.len(),
{
    if ops.len() == 0 {
        start
    } else {
        after(after_all(start, ops.drop_last()), ops.last())
    }
}

/// The quantity that a run of operations inserted: the sum of the
/// quantities of its purchases that were accepted.
pub open spec fn inserted(start: Books, ops: Seq<Operation>) -> nat
    decreases ops.len(),
{
    if ops.len() == 0 {
        0
    } else {
        let so_far = after_all(start, ops.drop_last());
        inserted(start, ops.drop_last()) + match ops.last() {
            Operation::Purchase { quantity, .. } => if purchase_refusal(
                so_far.acquired,
                so_far.next_id,
                quantity,
            ) is None {
                quantity as nat
            } else {
                0
            },
            Operation::Consume { .. } => 0,
        }
    }
}

/// Every record of a consumption from positive lots consumed something.
proof fn lemma_receipts_positive(c: Seq<Lot>, request: ConsumptionRequest)
    requires
        forall|i: int| 0 <= i < c.len() ==> c[i].quantity > 0,
    ensures
        forall|i: int|
            0 <= i < receipts(c, request).len() ==> (#[trigger] receipts(c, request)[i]).quantity
                > 0,
{
    let n = request.quantity_needed as nat;
    lemma_touched(c, n);
    assert forall|i: int| 0 <= i < receipts(c, request).len() implies (#[trigger] receipts(
        c,
        request,
    )[i]).quantity > 0 by {
        assert(total_quantity(c.take(i)) < n);
        assert(draw_at(c, n, i) > 0);
    }
}

/// One operation keeps balanced books balanced, and raises what is on hand
/// and consumed together by exactly what it inserted.
pub proof fn law_operation_keeps_balance(books: Books, op: Operation)
    requires
        books_balanced(books),
    ensures
        books_balanced(after(books, op)),
        after(books, op).acquired == books.acquired + inserted(books, seq![op]),
{
    let next = after(books, op);
    assert(seq![op].drop_last() =~= Seq::<Operation>::empty());
    assert(seq![op].last() == op);
    assert(inserted(books, seq![op].drop_last()) == 0);
    assert(after_all(books, seq![op].drop_last()) == books);
    match op {
        Operation::Purchase { quantity, unit_price, acquired_at } => {
            if purchase_refusal(books.acquired, books.next_id, quantity) is None {
                lemma_total_push(
                    books.lots,
                    Lot { id: books.next_id, quantity, unit_price, acquired_at },
                );
            }
        },
        Operation::Consume { request } => {
            law_consume_conserves(books.lots, request);
            if total_quantity(books.lots) < request.quantity_needed {
                assert(books.records + consume_records(books.lots, request) =~= books.records);
            } else {
                let n = request.quantity_needed as nat;
                lemma_strategy_order_exists(books.lots, request.strategy);
                let c = strategy_order(books.lots, request.strategy);
                lemma_strategy_order_current(books.lots, c, request.strategy, n);
                let k = touched(c, n) as int;
                lemma_lots_left(books.lots, c, n, k);
                law_lots_left_positive(books.lots, c, n);
                let left = lots_left(books.lots, c, n);
                assert forall|i: int| 0 <= i < left.len() implies left[i].id
                    < books.next_id by {
                    assert(has_lot(books.lots, left[i].id));
                    let j = lot_index(books.lots, left[i].id);
                    assert(books.lots[j].id < books.next_id);
                }
                c.to_multiset_ensures();
                books.lots.to_multiset_ensures();
                assert forall|i: int| 0 <= i < c.len() implies c[i].quantity > 0 by {
                    assert(c.to_multiset().count(c[i]) > 0);
                    assert(books.lots.contains(c[i]));
                }
                lemma_receipts_positive(c, request);
                lemma_consumed_concat(books.records, receipts(c, request));
            }
        },
    }
}

/// Conservation over a whole history: after any run of purchases and
/// consumptions on balanced books, the books are balanced again, and the
/// quantity on hand and the quantity consumed have together grown by
/// exactly the quantity that the run inserted.
pub proof fn law_history_conserves(start: Books, ops: Seq<Operation>)
    requires
        books_balanced(start),
    ensures
        books_balanced(after_all(start, ops)),
        total_quantity(after_all(start, ops).lots) + total_consumed(after_all(start, ops).records)
            == total_quantity(start.lots) + total_consumed(start.records) + inserted(start, ops),
    decreases ops.len(),
{
    if ops.len() > 0 {
        let so_far = after_all(start, ops.drop_last());
        law_history_conserves(start, ops.drop_last());
        law_operation_keeps_balance(so_far, ops.last());
        let op = ops.last();
        assert(seq![op].drop_last() =~= Seq::<Operation>::empty());
        assert(seq![op].last() == op);
        assert(inserted(so_far, seq![op].drop_last()) == 0);
        assert(after_all(so_far, seq![op].drop_last()) == so_far);
    }
}

/// Conservation from the start: after any run of purchases and
/// consumptions on opening books, the sum of the quantities of all current
/// lots and of all records equals the sum of the quantities of all inserts
/// ever made; and no lot holds nothing.
pub proof fn law_conservation_from_opening(ops: Seq<Operation>)
    ensures
        total_quantity(after_all(opening_books(), ops).lots) + total_consumed(
            after_all(opening_books(), ops).records,
        ) == inserted(opening_books(), ops),
        forall|i: int|
            0 <= i < after_all(opening_books(), ops).lots.len() ==> after_all(
                opening_books(),
                ops,
            ).lots[i].quantity > 0,
{
    law_history_conserves(opening_books(), ops);
}

} // verus!
