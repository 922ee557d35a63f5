//! What a consumption request takes from an ordered run of candidate lots.
//!
//! Everything here is stated over the candidates in the order in which they
//! are presented: candidate `i` gives whatever the request still lacks after
//! the candidates before it, and no more than it holds.

use vstd::prelude::*;
use crate::datetime::DateTime;
use crate::ledger::Spec;
use crate::lot::{Lot, Strategy, total_quantity, lemma_total_take_monotone};
use crate::store::{ascending_ids, distinct_ids, has_lot, lot_index, lot_map, lemma_lot_map_push};

verus! {

/// A request to consume inventory.
#[derive(Clone, Copy, Debug, PartialEq, Eq, Structural)]
pub struct ConsumptionRequest {
    /// How much is asked for.
    pub quantity_needed: u64,
    /// Which lots give first.
    pub strategy: Strategy,
    /// The unit price realised for the whole request.
    pub realized_unit_price: u64,
    /// When the consumption takes place.
    pub occurred_at: DateTime,
}

/// One change that a consumption makes to the store.
#[derive(Clone, Copy, Debug, PartialEq, Eq, Structural)]
pub enum LotChange {
    /// The lot gave all it held and is removed.
    Delete { id: u64 },
    /// The lot gave part of what it held and keeps `new_quantity`.
    Reduce { id: u64, new_quantity: u64 },
}

/// How many of the candidates the request reaches: candidate `i` is reached
/// when the candidates before it hold less than what is needed.
pub open spec fn touched(c: Seq<Lot>, needed: nat) -> nat
    decreases c.len(),
{
    if c.len() == 0 {
        0
    } else if total_quantity(c.drop_last()) < needed {
        c.len()
    } else {
        touched(c.drop_last(), needed)
    }
}

/// What the request draws from candidate `i`: the lesser of what the lot
/// holds and what the candidates before it have left open.
pub open spec fn draw_at(c: Seq<Lot>, needed: nat, i: int) -> nat {
    let before = total_quantity(c.take(i));
    if before >= needed {
        0
    } else if c[i].quantity <= needed - before {
        c[i].quantity as nat
    } else {
        (needed - before) as nat
    }
}

/// The part of the request that the candidates cannot cover.
pub open spec fn shortfall(c: Seq<Lot>, needed: nat) -> nat {
    if total_quantity(c) >= needed {
        0
    } else {
        (needed - total_quantity(c)) as nat
    }
}

/// The record of drawing `taken` from `lot` for `request`.
pub open spec fn receipt(lot: Lot, taken: nat, request: ConsumptionRequest) -> Spec {
    Spec {
        quantity: taken as u64,
        orig_price: lot.unit_price,
        sale_price: request.realized_unit_price,
        liquidation_date: request.occurred_at,
    }
}

/// The first `k` records of serving `request` from the candidates `c`.
pub open spec fn receipts_within(c: Seq<Lot>, request: ConsumptionRequest, k: int) -> Seq<Spec> {
    Seq::new(
        k as nat,
        |i: int| receipt(c[i], draw_at(c, request.quantity_needed as nat, i), request),
    )
}

/// The records of serving `request` from the candidates `c`: one for each
/// candidate reached, in the order of the candidates.
pub open spec fn receipts(c: Seq<Lot>, request: ConsumptionRequest) -> Seq<Spec> {
    receipts_within(c, request, touched(c, request.quantity_needed as nat) as int)
}

/// The change that drawing `taken` from `lot` makes to the store.
pub open spec fn change_for(lot: Lot, taken: nat) -> LotChange {
    if taken == lot.quantity {
        LotChange::Delete { id: lot.id }
    } else {
        LotChange::Reduce { id: lot.id, new_quantity: (lot.quantity - taken) as u64 }
    }
}

/// The first `k` changes of serving a request for `needed` from `c`.
pub open spec fn changes_within(c: Seq<Lot>, needed: nat, k: int) -> Seq<LotChange> {
    Seq::new(k as nat, |i: int| change_for(c[i], draw_at(c, needed, i)))
}

/// The changes of serving a request for `needed` from the candidates `c`:
/// one for each candidate reached, in the order of the candidates.
pub open spec fn changes(c: Seq<Lot>, needed: nat) -> Seq<LotChange> {
    changes_within(c, needed, touched(c, needed) as int)
}

/// The lots once `change` has been carried out on them. A change to a lot
/// that is not there changes nothing.
pub open spec fn with_change(lots: Seq<Lot>, change: LotChange) -> Seq<Lot> {
    match change {
        LotChange::Delete { id } => if has_lot(lots, id) {
            lots.remove(lot_index(lots, id))
        } else {
            lots
        },
        LotChange::Reduce { id, new_quantity } => if has_lot(lots, id) {
            lots.update(
                lot_index(lots, id),
                Lot { quantity: new_quantity, ..lots[lot_index(lots, id)] },
            )
        } else {
            lots
        },
    }
}

/// The lots once a run of changes has been carried out on them in order.
pub open spec fn with_changes(lots: Seq<Lot>, changes: Seq<LotChange>) -> Seq<Lot>
    decreases changes.len(),
{
    if changes.len() == 0 {
        lots
    } else {
        with_change(with_changes(lots, changes.drop_last()), changes.last())
    }
}

/// What the first `k` candidates give up of the lot `id`.
pub open spec fn taken_within(c: Seq<Lot>, needed: nat, k: int, id: u64) -> nat {
    if has_lot(c.take(k), id) {
        draw_at(c, needed, lot_index(c.take(k), id))
    } else {
        0
    }
}

/// The lots that remain once the first `k` candidates have given: every lot
/// keeps what was not taken from it, and a lot left with nothing is gone.
pub open spec fn lots_after_within(before: Map<u64, Lot>, c: Seq<Lot>, needed: nat, k: int) -> Map<
    u64,
    Lot,
> {
    Map::new(
        |id: u64| before.dom().contains(id) && taken_within(c, needed, k, id) < before[id].quantity,
        |id: u64|
            Lot {
                quantity: (before[id].quantity - taken_within(c, needed, k, id)) as u64,
                ..before[id]
            },
    )
}

/// The lots that remain once the request has been served from `c`.
pub open spec fn lots_after(before: Map<u64, Lot>, c: Seq<Lot>, needed: nat) -> Map<u64, Lot> {
    lots_after_within(before, c, needed, touched(c, needed) as int)
}

/// Whether a lot outlasts what the first `k` candidates take of it.
pub open spec fn outlasts(c: Seq<Lot>, needed: nat, k: int) -> spec_fn(Lot) -> bool {
    |lot: Lot| taken_within(c, needed, k, lot.id) < lot.quantity
}

/// A lot less what the first `k` candidates take of it.
pub open spec fn remainder(c: Seq<Lot>, needed: nat, k: int) -> spec_fn(Lot) -> Lot {
    |lot: Lot|
        Lot { quantity: (lot.quantity - taken_within(c, needed, k, lot.id)) as u64, ..lot }
}

/// The store's lots once the first `k` candidates have given: the lots that
/// outlast the taking, each with what is left of it, in their old order.
pub open spec fn lots_left_within(lots: Seq<Lot>, c: Seq<Lot>, needed: nat, k: int) -> Seq<Lot> {
    lots.filter(outlasts(c, needed, k)).map_values(remainder(c, needed, k))
}

/// The store's lots once the request has been served from `c`.
pub open spec fn lots_left(lots: Seq<Lot>, c: Seq<Lot>, needed: nat) -> Seq<Lot> {
    lots_left_within(lots, c, needed, touched(c, needed) as int)
}

/// The candidates that the request reaches are lots of `lots`, each as the
/// store holds it, and no lot is presented twice.
pub open spec fn candidates_current(lots: Seq<Lot>, c: Seq<Lot>, needed: nat) -> bool {
    let k = touched(c, needed);
    &&& forall|i: int| 0 <= i < k ==> lots.contains(#[trigger] c[i])
    &&& forall|i: int, j: int| 0 <= i < j < k ==> c[i].id != c[j].id
}

/// Among lots with distinct identifiers, a lot is found where it stands.
pub proof fn lemma_distinct_index(lots: Seq<Lot>, i: int)
    requires
        distinct_ids(lots),
        0 <= i < lots.len(),
    ensures
        has_lot(lots, lots[i].id),
        lot_index(lots, lots[i].id) == i,
{
    let j = lot_index(lots, lots[i].id);
    assert(0 <= j < lots.len() && lots[j].id == lots[i].id);
    if j < i {
        assert(lots[j].id != lots[i].id);
    }
    if i < j {
        assert(lots[i].id != lots[j].id);
    }
}

/// One more candidate changes what is taken of its own lot only.
pub proof fn lemma_taken_within_next(c: Seq<Lot>, needed: nat, i: int, id: u64)
    requires
        0 <= i < c.len(),
        distinct_ids(c.take(i + 1)),
    ensures
        taken_within(c, needed, i + 1, id) == if id == c[i].id {
            draw_at(c, needed, i)
        } else {
            taken_within(c, needed, i, id)
        },
        id == c[i].id ==> taken_within(c, needed, i, id) == 0,
{
    let short = c.take(i);
    let long = c.take(i + 1);
    assert(long[i] == c[i]);
    assert forall|a: int, b: int| 0 <= a < b < short.len() implies short[a].id
        != short[b].id by {
        assert(long[a].id != long[b].id);
    }
    if id == c[i].id {
        lemma_distinct_index(long, i);
        if has_lot(short, id) {
            let j = lot_index(short, id);
            assert(long[j].id == long[i].id);
        }
    } else {
        if has_lot(long, id) {
            let j = lot_index(long, id);
            assert(short[j].id == id);
            lemma_distinct_index(short, j);
        }
        if has_lot(short, id) {
            let j = lot_index(short, id);
            assert(long[j].id == id);
            lemma_distinct_index(long, j);
        }
    }
}

/// One more candidate, which the lots hold as presented, leaves the lots as
/// they were but for its own lot: that one is gone if it gave all it held,
/// and else keeps the rest.
pub proof fn lemma_lots_after_next(before: Map<u64, Lot>, c: Seq<Lot>, needed: nat, i: int)
    requires
        0 <= i < c.len(),
        distinct_ids(c.take(i + 1)),
        before.dom().contains(c[i].id),
        before[c[i].id] == c[i],
    ensures
        draw_at(c, needed, i) <= c[i].quantity,
        lots_after_within(before, c, needed, i + 1) == if draw_at(c, needed, i)
            == c[i].quantity {
            lots_after_within(before, c, needed, i).remove(c[i].id)
        } else {
            lots_after_within(before, c, needed, i).insert(
                c[i].id,
                Lot { quantity: (c[i].quantity - draw_at(c, needed, i)) as u64, ..c[i] },
            )
        },
{
    let now = lots_after_within(before, c, needed, i);
    let next = lots_after_within(before, c, needed, i + 1);
    let expected = if draw_at(c, needed, i) == c[i].quantity {
        now.remove(c[i].id)
    } else {
        now.insert(
            c[i].id,
            Lot { quantity: (c[i].quantity - draw_at(c, needed, i)) as u64, ..c[i] },
        )
    };
    assert forall|id: u64| next.dom().contains(id) <==> expected.dom().contains(id) by {
        lemma_taken_within_next(c, needed, i, id);
    }
    assert forall|id: u64| next.dom().contains(id) implies next[id] == expected[id] by {
        lemma_taken_within_next(c, needed, i, id);
    }
    assert(next =~= expected);
}

/// The lots left, read as a mapping, are `lots_after_within` of the lots
/// read as a mapping; they are in ascending order of identifier, and each
/// of them is what is left of a lot that was there before.
pub proof fn lemma_lots_left(lots: Seq<Lot>, c: Seq<Lot>, needed: nat, k: int)
    requires
        ascending_ids(lots),
    ensures
        ascending_ids(lots_left_within(lots, c, needed, k)),
        lot_map(lots_left_within(lots, c, needed, k)) == lots_after_within(
            lot_map(lots),
            c,
            needed,
            k,
        ),
        forall|j: int|
            0 <= j < lots_left_within(lots, c, needed, k).len() ==> has_lot(
                lots,
                #[trigger] lots_left_within(lots, c, needed, k)[j].id,
            ),
    decreases lots.len(),
{
    let keep = outlasts(c, needed, k);
    let rest = remainder(c, needed, k);
    let left = lots_left_within(lots, c, needed, k);
    if lots.len() == 0 {
        lots.lemma_filter_len(keep);
        assert(left.len() == 0);
        assert(lot_map(left) =~= lots_after_within(lot_map(lots), c, needed, k));
    } else {
        let head = lots.drop_last();
        let x = lots.last();
        let head_left = lots_left_within(head, c, needed, k);
        assert(lots =~= head.push(x));
        lemma_lots_left(head, c, needed, k);
        head.lemma_filter_push(x, keep);
        head.filter(keep).lemma_push_map_commute(rest, x);
        assert forall|i: int| 0 <= i < head.len() implies head[i].id < x.id by {
            assert(lots[i].id < lots[lots.len() - 1].id);
        }
        lemma_lot_map_push(head, x);
        assert forall|j: int| 0 <= j < head_left.len() implies (#[trigger] head_left[j]).id
            < x.id by {
            assert(has_lot(head, head_left[j].id));
            let i = lot_index(head, head_left[j].id);
            assert(head[i].id < x.id);
        }
        assert(!lot_map(head).dom().contains(x.id)) by {
            if has_lot(head, x.id) {
                let i = lot_index(head, x.id);
                assert(head[i].id < x.id);
            }
        }
        if keep(x) {
            assert(left =~= head_left.push(rest(x)));
            lemma_lot_map_push(head_left, rest(x));
            assert(lot_map(head_left).insert(x.id, rest(x)) =~= lots_after_within(
                lot_map(head).insert(x.id, x),
                c,
                needed,
                k,
            ));
        } else {
            assert(left =~= head_left);
            assert(lot_map(head_left) =~= lots_after_within(
                lot_map(head).insert(x.id, x),
                c,
                needed,
                k,
            ));
        }
        assert forall|j: int| 0 <= j < left.len() implies has_lot(lots, #[trigger] left[j].id) by {
            if j < head_left.len() {
                let i = lot_index(head, head_left[j].id);
                assert(lots[i].id == left[j].id);
            } else {
                assert(lots[lots.len() - 1].id == left[j].id);
            }
        }
    }
}

/// The candidates reached form a prefix: those before which less than the
/// need stands, and the first one not reached has the need covered before it.
pub proof fn lemma_touched(c: Seq<Lot>, needed: nat)
    ensures
        touched(c, needed) <= c.len(),
        forall|j: int|
            0 <= j < touched(c, needed) ==> total_quantity(#[trigger] c.take(j)) < needed,
        touched(c, needed) < c.len() ==> total_quantity(c.take(touched(c, needed) as int))
            >= needed,
    decreases c.len(),
{
    if c.len() > 0 {
        let d = c.drop_last();
        assert(d =~= c.take(c.len() - 1));
        lemma_touched(d, needed);
        if total_quantity(d) < needed {
            assert forall|j: int| 0 <= j < c.len() implies total_quantity(#[trigger] c.take(j))
                < needed by {
                lemma_total_take_monotone(c, j, c.len() - 1);
            }
        } else {
            let k = touched(d, needed) as int;
            assert forall|j: int| 0 <= j < k implies total_quantity(#[trigger] c.take(j))
                < needed by {
                assert(c.take(j) =~= d.take(j));
            }
            assert(c.take(k) =~= d.take(k));
        }
    }
}

/// A count that meets what `lemma_touched` states is `touched`.
pub proof fn lemma_touched_is(c: Seq<Lot>, needed: nat, k: int)
    requires
        0 <= k <= c.len(),
        forall|j: int| 0 <= j < k ==> total_quantity(#[trigger] c.take(j)) < needed,
        k < c.len() ==> total_quantity(c.take(k)) >= needed,
    ensures
        touched(c, needed) == k,
{
    lemma_touched(c, needed);
    let t = touched(c, needed) as int;
    if t < k {
        assert(total_quantity(c.take(t)) < needed);
    }
    if k < t {
        assert(total_quantity(c.take(k)) < needed);
    }
}

} // verus!
