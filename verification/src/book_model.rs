//! The state of a book as mathematics: a finite map from identifier to
//! resting order, and what "best" means in it.

use crate::order::{
    lemma_earlier_wins, lemma_outranks_asymmetric, lemma_outranks_total,
    lemma_outranks_transitive, Order, OrderSide,
};
use vstd::prelude::*;
use vstd::set_lib::{lemma_len_subset, lemma_set_disjoint_lens};

verus! {

/// Whether `book` is a state a book can be in: finitely many orders, each
/// stored under its own identifier.
pub open spec fn consistent(book: Map<u64, Order>) -> bool {
    &&& book.dom().finite()
    &&& forall|id: u64| book.contains_key(id) ==> (#[trigger] book[id]).oid == id
}

/// Whether an order with identifier `id` rests on `side`.
pub open spec fn rests_on(book: Map<u64, Order>, side: OrderSide, id: u64) -> bool {
    book.contains_key(id) && book[id].side == side
}

/// The identifiers of the orders resting on `side`.
pub open spec fn side_ids(book: Map<u64, Order>, side: OrderSide) -> Set<u64> {
    Set::new(|id: u64| rests_on(book, side, id))
}

/// Whether nothing rests on `side`.
pub open spec fn side_is_empty(book: Map<u64, Order>, side: OrderSide) -> bool {
    forall|id: u64| !rests_on(book, side, id)
}

/// Whether `order` rests on `side` and outranks every other order there.
pub open spec fn is_best(book: Map<u64, Order>, side: OrderSide, order: Order) -> bool {
    &&& rests_on(book, side, order.oid)
    &&& book[order.oid] == order
    &&& forall|id: u64| #[trigger]
        rests_on(book, side, id) && id != order.oid ==> order.sort_key().outranks(
            book[id].sort_key(),
        )
}

/// The most competitive order on `side`, if any order rests there.
pub open spec fn best_of(book: Map<u64, Order>, side: OrderSide) -> Option<Order> {
    if exists|order: Order| is_best(book, side, order) {
        Some(choose|order: Order| is_best(book, side, order))
    } else {
        None
    }
}

/// A side has at most one best order.
pub proof fn lemma_best_unique(book: Map<u64, Order>, side: OrderSide, a: Order, b: Order)
    requires
        is_best(book, side, a),
        is_best(book, side, b),
    ensures
        a == b,
{
    if a.oid != b.oid {
        assert(rests_on(book, side, a.oid));
        assert(rests_on(book, side, b.oid));
        lemma_outranks_asymmetric(a.sort_key(), b.sort_key());
    }
}

/// The best order of a side is the one that `best_of` names.
pub proof fn lemma_best_is_named(book: Map<u64, Order>, side: OrderSide, order: Order)
    requires
        is_best(book, side, order),
    ensures
        best_of(book, side) == Some(order),
{
    let named = choose|o: Order| is_best(book, side, o);
    lemma_best_unique(book, side, named, order);
}

/// A side on which nothing rests has no best order.
pub proof fn lemma_empty_side_has_no_best(book: Map<u64, Order>, side: OrderSide)
    requires
        side_is_empty(book, side),
    ensures
        best_of(book, side) is None,
{
    assert forall|order: Order| !is_best(book, side, order) by {
        assert(!rests_on(book, side, order.oid));
    }
}

/// The orders of one side are finitely many, and no more than the book holds.
pub proof fn lemma_side_ids_finite(book: Map<u64, Order>, side: OrderSide)
    requires
        book.dom().finite(),
    ensures
        side_ids(book, side).finite(),
        side_ids(book, side).len() <= book.len(),
{
    lemma_len_subset(side_ids(book, side), book.dom());
}

/// Every resting order rests on one side and one only: the two sides share no
/// identifier, and together they hold as many orders as the book.
pub proof fn lemma_sides_partition(book: Map<u64, Order>)
    requires
        book.dom().finite(),
    ensures
        side_ids(book, OrderSide::Bid).disjoint(side_ids(book, OrderSide::Ask)),
        side_ids(book, OrderSide::Bid).len() + side_ids(book, OrderSide::Ask).len() == book.len(),
{
    let bids = side_ids(book, OrderSide::Bid);
    let asks = side_ids(book, OrderSide::Ask);
    lemma_side_ids_finite(book, OrderSide::Bid);
    lemma_side_ids_finite(book, OrderSide::Ask);
    lemma_set_disjoint_lens(bids, asks);
    assert(bids + asks =~= book.dom());
}

/// Withdrawing an order takes its identifier, and no other, from its side.
pub proof fn lemma_side_ids_after_remove(book: Map<u64, Order>, side: OrderSide, id: u64)
    requires
        consistent(book),
        rests_on(book, side, id),
    ensures
        consistent(book.remove(id)),
        side_ids(book.remove(id), side) == side_ids(book, side).remove(id),
        side_ids(book.remove(id), side).len() == side_ids(book, side).len() - 1,
{
    lemma_side_ids_finite(book, side);
    assert(side_ids(book.remove(id), side) =~= side_ids(book, side).remove(id));
}

/// Placing an order under a fresh identifier adds that identifier to its
/// side and leaves the other side as it was.
pub proof fn lemma_side_ids_after_place(book: Map<u64, Order>, side: OrderSide, order: Order)
    requires
        consistent(book),
        !book.contains_key(order.oid),
    ensures
        consistent(book.insert(order.oid, order)),
        order.side == side ==> side_ids(book.insert(order.oid, order), side) == side_ids(
            book,
            side,
        ).insert(order.oid),
        order.side != side ==> side_ids(book.insert(order.oid, order), side) == side_ids(
            book,
            side,
        ),
        side_ids(book.insert(order.oid, order), side).len() == side_ids(book, side).len() + (if order.side
            == side {
            1int
        } else {
            0int
        }),
{
    lemma_side_ids_finite(book, side);
    let grown = book.insert(order.oid, order);
    if order.side == side {
        assert(side_ids(grown, side) =~= side_ids(book, side).insert(order.oid));
    } else {
        assert(side_ids(grown, side) =~= side_ids(book, side));
    }
}

/// A side on which something rests has a best order.
pub proof fn lemma_best_exists(book: Map<u64, Order>, side: OrderSide)
    requires
        consistent(book),
        !side_is_empty(book, side),
    ensures
        best_of(book, side) is Some,
        is_best(book, side, best_of(book, side).unwrap()),
    decreases side_ids(book, side).len(),
{
    let x = choose|id: u64| rests_on(book, side, id);
    let first = book[x];
    let rest = book.remove(x);
    lemma_side_ids_after_remove(book, side, x);
    if side_is_empty(rest, side) {
        assert forall|id: u64| #[trigger] rests_on(book, side, id) && id != x implies first.sort_key().outranks(
        book[id].sort_key()) by {
            assert(rests_on(rest, side, id));
        }
        lemma_best_is_named(book, side, first);
    } else {
        lemma_best_exists(rest, side);
        let top = best_of(rest, side).unwrap();
        assert(rests_on(rest, side, top.oid));
        if first.sort_key().outranks(top.sort_key()) {
            assert forall|id: u64| #[trigger] rests_on(book, side, id) && id != x implies first.sort_key().outranks(
            book[id].sort_key()) by {
                assert(rests_on(rest, side, id));
                if id != top.oid {
                    lemma_outranks_transitive(
                        first.sort_key(),
                        top.sort_key(),
                        book[id].sort_key(),
                    );
                }
            }
            lemma_best_is_named(book, side, first);
        } else {
            lemma_outranks_total(top.sort_key(), first.sort_key());
            assert forall|id: u64| #[trigger]
                rests_on(book, side, id) && id != top.oid implies top.sort_key().outranks(
                book[id].sort_key(),
            ) by {
                if id != x {
                    assert(rests_on(rest, side, id));
                }
            }
            lemma_best_is_named(book, side, top);
        }
    }
}

/// An order that another order of its side outranks is not the best.
pub proof fn lemma_outranked_is_not_best(
    book: Map<u64, Order>,
    side: OrderSide,
    winner: u64,
    loser: u64,
)
    requires
        rests_on(book, side, winner),
        rests_on(book, side, loser),
        book[winner].sort_key().outranks(book[loser].sort_key()),
    ensures
        !is_best(book, side, book[loser]),
        best_of(book, side) != Some(book[loser]),
{
    if is_best(book, side, book[loser]) {
        if book[loser].oid == winner {
            assert(book[book[loser].oid] == book[loser]);
        } else {
            assert(rests_on(book, side, winner));
            lemma_outranks_asymmetric(book[winner].sort_key(), book[loser].sort_key());
        }
    }
}

/// Of two orders resting on one side with the same type and the same price,
/// the one with the smaller identifier is judged better: while it rests, the
/// other is never the best of the side.
pub proof fn lemma_earlier_order_is_served_first(
    book: Map<u64, Order>,
    side: OrderSide,
    early: u64,
    late: u64,
)
    requires
        consistent(book),
        rests_on(book, side, early),
        rests_on(book, side, late),
        book[early].t == book[late].t,
        book[early].price.units() == book[late].price.units(),
        early < late,
    ensures
        book[early].sort_key().outranks(book[late].sort_key()),
        best_of(book, side) != Some(book[late]),
{
    lemma_earlier_wins(book[early].sort_key(), book[late].sort_key());
    lemma_outranked_is_not_best(book, side, early, late);
}

/// An order placed under a fresh identifier and then withdrawn by that
/// identifier comes back as it was placed, and the book is as before.
pub proof fn lemma_place_then_remove(book: Map<u64, Order>, order: Order)
    requires
        !book.contains_key(order.oid),
    ensures
        book.insert(order.oid, order).contains_key(order.oid),
        book.insert(order.oid, order)[order.oid] == order,
        book.insert(order.oid, order).remove(order.oid) == book,
{
    assert(book.insert(order.oid, order).remove(order.oid) =~= book);
}

/// The orders that withdrawing the best of `side` again and again returns,
/// in the order in which they come, until nothing rests on that side.
pub open spec fn drain(book: Map<u64, Order>, side: OrderSide) -> Seq<Order>
    decreases side_ids(book, side).len(),
    when consistent(book)
    via drain_decreases
{
    match best_of(book, side) {
        Some(order) => seq![order] + drain(book.remove(order.oid), side),
        None => Seq::empty(),
    }
}

#[via_fn]
proof fn drain_decreases(book: Map<u64, Order>, side: OrderSide) {
    if let Some(order) = best_of(book, side) {
        lemma_side_ids_after_remove(book, side, order.oid);
    }
}

/// The book that withdrawing the best of `side` again and again leaves
/// behind.
pub open spec fn drained(book: Map<u64, Order>, side: OrderSide) -> Map<u64, Order>
    decreases side_ids(book, side).len(),
    when consistent(book)
    via drained_decreases
{
    match best_of(book, side) {
        Some(order) => drained(book.remove(order.oid), side),
        None => book,
    }
}

#[via_fn]
proof fn drained_decreases(book: Map<u64, Order>, side: OrderSide) {
    if let Some(order) = best_of(book, side) {
        lemma_side_ids_after_remove(book, side, order.oid);
    }
}

/// A full drain of one side returns each order resting there once, every
/// order before all those that it outranks, and as many orders as rest on
/// the side.
pub proof fn lemma_drain(book: Map<u64, Order>, side: OrderSide)
    requires
        consistent(book),
    ensures
        drain(book, side).len() == side_ids(book, side).len(),
        forall|i: int|
            0 <= i < drain(book, side).len() ==> rests_on(
                book,
                side,
                (#[trigger] drain(book, side)[i]).oid,
            ) && book[drain(book, side)[i].oid] == drain(book, side)[i],
        forall|id: u64| #[trigger]
            rests_on(book, side, id) ==> drain(book, side).contains(book[id]),
        forall|i: int, j: int|
            0 <= i < j < drain(book, side).len() ==> (#[trigger] drain(book, side)[i]).sort_key().outranks(
                (#[trigger] drain(book, side)[j]).sort_key(),
            ),
    decreases side_ids(book, side).len(),
{
    lemma_side_ids_finite(book, side);
    let all = drain(book, side);
    if side_is_empty(book, side) {
        lemma_empty_side_has_no_best(book, side);
        assert(side_ids(book, side) =~= Set::<u64>::empty());
        assert(all =~= Seq::<Order>::empty());
    } else {
        lemma_best_exists(book, side);
        let top = best_of(book, side).unwrap();
        let rest = book.remove(top.oid);
        lemma_side_ids_after_remove(book, side, top.oid);
        lemma_drain(rest, side);
        let tail = drain(rest, side);
        assert(all =~= seq![top] + tail);
        assert forall|i: int| 0 <= i < all.len() implies rests_on(
            book,
            side,
            (#[trigger] all[i]).oid,
        ) && book[all[i].oid] == all[i] by {
            if i > 0 {
                assert(all[i] == tail[i - 1]);
                assert(rests_on(rest, side, tail[i - 1].oid));
            }
        }
        assert forall|id: u64| #[trigger] rests_on(book, side, id) implies all.contains(
            book[id],
        ) by {
            if id == top.oid {
                assert(all[0] == top);
            } else {
                assert(rests_on(rest, side, id));
                let k = tail.index_of(rest[id]);
                assert(all[k + 1] == tail[k]);
            }
        }
        assert forall|i: int, j: int| 0 <= i < j < all.len() implies (#[trigger] all[i]).sort_key().outranks(
            (#[trigger] all[j]).sort_key(),
        ) by {
            assert(all[j] == tail[j - 1]);
            assert(rests_on(rest, side, tail[j - 1].oid));
            if i == 0 {
                assert(rests_on(book, side, tail[j - 1].oid));
            } else {
                assert(all[i] == tail[i - 1]);
            }
        }
    }
}

/// Once a side is drained nothing rests on it, so the next withdrawal of its
/// best reports that it is empty; the other side is as it was.
pub proof fn lemma_drained(book: Map<u64, Order>, side: OrderSide)
    requires
        consistent(book),
    ensures
        consistent(drained(book, side)),
        side_is_empty(drained(book, side), side),
        best_of(drained(book, side), side) is None,
        drained(book, side) == book.remove_keys(side_ids(book, side)),
    decreases side_ids(book, side).len(),
{
    lemma_side_ids_finite(book, side);
    if side_is_empty(book, side) {
        lemma_empty_side_has_no_best(book, side);
        assert(book.remove_keys(side_ids(book, side)) =~= book);
    } else {
        lemma_best_exists(book, side);
        let top = best_of(book, side).unwrap();
        let rest = book.remove(top.oid);
        lemma_side_ids_after_remove(book, side, top.oid);
        lemma_drained(rest, side);
        assert(rest.remove_keys(side_ids(rest, side)) =~= book.remove_keys(side_ids(book, side)));
    }
}

/// The test for orders of `side`.
pub open spec fn of_side(side: OrderSide) -> spec_fn(Order) -> bool {
    |order: Order| order.side == side
}

/// Whether `orders` can be placed into `book` one after the other: no
/// identifier rests in the book already, and none occurs twice.
pub open spec fn placeable(book: Map<u64, Order>, orders: Seq<Order>) -> bool {
    &&& forall|i: int| 0 <= i < orders.len() ==> !book.contains_key((#[trigger] orders[i]).oid)
    &&& forall|i: int, j: int|
        0 <= i < j < orders.len() ==> (#[trigger] orders[i]).oid != (#[trigger] orders[j]).oid
}

/// The book after placing `orders` one after the other.
pub open spec fn place_all(book: Map<u64, Order>, orders: Seq<Order>) -> Map<u64, Order>
    decreases orders.len(),
{
    if orders.len() == 0 {
        book
    } else {
        place_all(book, orders.drop_last()).insert(orders.last().oid, orders.last())
    }
}

/// Placing orders under fresh identifiers keeps the book consistent, adds
/// exactly their identifiers, and adds to each side as many orders as were
/// placed for it.
pub proof fn lemma_place_all(book: Map<u64, Order>, orders: Seq<Order>, side: OrderSide)
    requires
        consistent(book),
        placeable(book, orders),
    ensures
        consistent(place_all(book, orders)),
        forall|id: u64|
            place_all(book, orders).contains_key(id) <==> book.contains_key(id) || exists|i: int|
                0 <= i < orders.len() && (#[trigger] orders[i]).oid == id,
        side_ids(place_all(book, orders), side).len() == side_ids(book, side).len()
            + orders.filter(of_side(side)).len(),
    decreases orders.len(),
{
    if orders.len() == 0 {
        assert(orders.filter(of_side(side)).len() == 0) by {
            orders.lemma_filter_len(of_side(side));
        }
    } else {
        let prefix = orders.drop_last();
        let last = orders.last();
        let before = place_all(book, prefix);
        assert forall|i: int| 0 <= i < prefix.len() implies !book.contains_key(
            (#[trigger] prefix[i]).oid,
        ) by {
            assert(prefix[i] == orders[i]);
        }
        assert forall|i: int, j: int| 0 <= i < j < prefix.len() implies (#[trigger] prefix[i]).oid
            != (#[trigger] prefix[j]).oid by {
            assert(prefix[i] == orders[i]);
            assert(prefix[j] == orders[j]);
        }
        lemma_place_all(book, prefix, side);
        assert(!before.contains_key(last.oid)) by {
            if before.contains_key(last.oid) {
                assert(orders[orders.len() - 1] == last);
                let i = choose|i: int| 0 <= i < prefix.len() && (#[trigger] prefix[i]).oid == last.oid;
                assert(prefix[i] == orders[i]);
            }
        }
        lemma_side_ids_after_place(before, side, last);
        let after = place_all(book, orders);
        assert(after == before.insert(last.oid, last));
        assert forall|id: u64|
            after.contains_key(id) <==> book.contains_key(id) || exists|i: int|
                0 <= i < orders.len() && (#[trigger] orders[i]).oid == id by {
            if after.contains_key(id) && !book.contains_key(id) {
                if id == last.oid {
                    assert(orders[orders.len() - 1].oid == id);
                } else {
                    let i = choose|i: int| 0 <= i < prefix.len() && (#[trigger] prefix[i]).oid == id;
                    assert(orders[i].oid == id);
                }
            }
            if exists|i: int| 0 <= i < orders.len() && (#[trigger] orders[i]).oid == id {
                let i = choose|i: int| 0 <= i < orders.len() && (#[trigger] orders[i]).oid == id;
                if i < prefix.len() {
                    assert(prefix[i].oid == id);
                }
            }
        }
        assert(orders =~= prefix.push(last));
        prefix.lemma_filter_len_push(of_side(side), last);
    }
}

/// After any run of placements under fresh identifiers, a full drain of a
/// side returns as many orders as the side held before plus as many as were
/// placed for it.
pub proof fn lemma_drain_returns_what_was_placed(
    book: Map<u64, Order>,
    orders: Seq<Order>,
    side: OrderSide,
)
    requires
        consistent(book),
        placeable(book, orders),
    ensures
        drain(place_all(book, orders), side).len() == drain(book, side).len() + orders.filter(
            of_side(side),
        ).len(),
        book == Map::<u64, Order>::empty() ==> drain(place_all(book, orders), side).len()
            == orders.filter(of_side(side)).len(),
{
    lemma_place_all(book, orders, side);
    lemma_drain(place_all(book, orders), side);
    lemma_drain(book, side);
    if book == Map::<u64, Order>::empty() {
        assert(side_ids(book, side) =~= Set::<u64>::empty());
    }
}

} // verus!
