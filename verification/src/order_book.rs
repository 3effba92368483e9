//! The book: resting orders found by identifier, and each side's keys kept
//! in rank so that the most competitive order is at hand.

use crate::book_model::{
    best_of, consistent, is_best, lemma_best_is_named, lemma_empty_side_has_no_best, rests_on,
    side_is_empty,
};
use crate::order::{Order, OrderSide, OrderSortKey};
use crate::ranking::{absent, current, insert_ranked, on_side, ranked, remove_ranked};
use std::collections::HashMap;
use vstd::prelude::*;

verus! {

broadcast use vstd::std_specs::hash::group_hash_axioms;

/// Whether `keys` is the ranking of exactly the orders of `book` that rest on
/// `side`: in ascending rank, each key that of a resting order, and each
/// resting order's key there.
pub open spec fn indexes(keys: Seq<OrderSortKey>, book: Map<u64, Order>, side: OrderSide) -> bool {
    &&& ranked(keys)
    &&& forall|i: int|
        0 <= i < keys.len() ==> rests_on(book, side, (#[trigger] keys[i]).oid) && book[keys[i].oid].sort_key()
            == keys[i]
    &&& forall|id: u64| #[trigger]
        rests_on(book, side, id) ==> keys.contains(book[id].sort_key())
}

proof fn lemma_indexes_side(keys: Seq<OrderSortKey>, book: Map<u64, Order>, side: OrderSide)
    requires
        indexes(keys, book, side),
    ensures
        on_side(keys, side),
{
    assert forall|i: int| 0 <= i < keys.len() implies (#[trigger] keys[i]).side == side by {
        assert(book[keys[i].oid].sort_key() == keys[i]);
    }
}

proof fn lemma_indexes_absent(
    keys: Seq<OrderSortKey>,
    book: Map<u64, Order>,
    side: OrderSide,
    oid: u64,
)
    requires
        indexes(keys, book, side),
        !book.contains_key(oid),
    ensures
        absent(keys, oid),
{
    assert forall|i: int| 0 <= i < keys.len() implies (#[trigger] keys[i]).oid != oid by {
        assert(rests_on(book, side, keys[i].oid));
    }
}

proof fn lemma_indexes_current(
    keys: Seq<OrderSortKey>,
    book: Map<u64, Order>,
    side: OrderSide,
    id: u64,
)
    requires
        indexes(keys, book, side),
        consistent(book),
        book.contains_key(id),
    ensures
        current(keys, book[id].sort_key()),
{
    assert forall|i: int| 0 <= i < keys.len() && (#[trigger] keys[i]).oid == id implies keys[i]
        == book[id].sort_key() by {
        assert(book[keys[i].oid].sort_key() == keys[i]);
    }
}

/// Placing an order on `side` and putting its key at `p` keeps the ranking
/// of that side in step with the book.
proof fn lemma_indexes_after_place(
    keys: Seq<OrderSortKey>,
    book: Map<u64, Order>,
    side: OrderSide,
    order: Order,
    p: int,
)
    requires
        indexes(keys, book, side),
        !book.contains_key(order.oid),
        order.side == side,
        0 <= p <= keys.len(),
        ranked(keys.insert(p, order.sort_key())),
    ensures
        indexes(keys.insert(p, order.sort_key()), book.insert(order.oid, order), side),
{
    let after = keys.insert(p, order.sort_key());
    let grown = book.insert(order.oid, order);
    assert forall|i: int| 0 <= i < after.len() implies rests_on(
        grown,
        side,
        (#[trigger] after[i]).oid,
    ) && grown[after[i].oid].sort_key() == after[i] by {
        if i != p {
            let b = if i < p { i } else { i - 1 };
            assert(after[i] == keys[b]);
            assert(rests_on(book, side, keys[b].oid));
        }
    }
    assert forall|id: u64| #[trigger] rests_on(grown, side, id) implies after.contains(
        grown[id].sort_key(),
    ) by {
        if id == order.oid {
            assert(after[p] == order.sort_key());
        } else {
            assert(rests_on(book, side, id));
            let b = keys.index_of(book[id].sort_key());
            let a = if b < p { b } else { b + 1 };
            assert(after[a] == keys[b]);
        }
    }
}

/// Placing an order on the other side leaves the ranking of `side` in step.
proof fn lemma_indexes_beside_place(
    keys: Seq<OrderSortKey>,
    book: Map<u64, Order>,
    side: OrderSide,
    order: Order,
)
    requires
        indexes(keys, book, side),
        !book.contains_key(order.oid),
        order.side != side,
    ensures
        indexes(keys, book.insert(order.oid, order), side),
{
    let grown = book.insert(order.oid, order);
    assert forall|i: int| 0 <= i < keys.len() implies rests_on(
        grown,
        side,
        (#[trigger] keys[i]).oid,
    ) && grown[keys[i].oid].sort_key() == keys[i] by {
        assert(rests_on(book, side, keys[i].oid));
    }
    assert forall|id: u64| #[trigger] rests_on(grown, side, id) implies keys.contains(
        grown[id].sort_key(),
    ) by {
        assert(rests_on(book, side, id));
    }
}

/// Taking the order `id` out of the book and its key, at `p`, out of the
/// ranking of its side keeps the two in step.
proof fn lemma_indexes_after_remove(
    keys: Seq<OrderSortKey>,
    book: Map<u64, Order>,
    side: OrderSide,
    id: u64,
    p: int,
)
    requires
        indexes(keys, book, side),
        consistent(book),
        rests_on(book, side, id),
        0 <= p < keys.len(),
        keys[p] == book[id].sort_key(),
    ensures
        indexes(keys.remove(p), book.remove(id), side),
{
    let after = keys.remove(p);
    let shrunk = book.remove(id);
    assert forall|i: int, j: int| 0 <= i < j < after.len() implies #[trigger] after[j].outranks(
        after[i],
    ) by {
        let bi = if i < p { i } else { i + 1 };
        let bj = if j < p { j } else { j + 1 };
        assert(after[i] == keys[bi]);
        assert(after[j] == keys[bj]);
        assert(keys[bj].outranks(keys[bi]));
    }
    assert forall|i: int| 0 <= i < after.len() implies rests_on(
        shrunk,
        side,
        (#[trigger] after[i]).oid,
    ) && shrunk[after[i].oid].sort_key() == after[i] by {
        let b = if i < p { i } else { i + 1 };
        assert(after[i] == keys[b]);
        assert(rests_on(book, side, keys[b].oid));
        if b < p {
            assert(keys[p].outranks(keys[b]));
        } else {
            assert(keys[b].outranks(keys[p]));
        }
    }
    assert forall|id2: u64| #[trigger] rests_on(shrunk, side, id2) implies after.contains(
        shrunk[id2].sort_key(),
    ) by {
        assert(rests_on(book, side, id2));
        let b = keys.index_of(book[id2].sort_key());
        assert(b != p);
        let a = if b < p { b } else { b - 1 };
        assert(after[a] == keys[b]);
    }
}

/// Taking an order out of the other side leaves the ranking of `side` in
/// step.
proof fn lemma_indexes_beside_remove(
    keys: Seq<OrderSortKey>,
    book: Map<u64, Order>,
    side: OrderSide,
    id: u64,
)
    requires
        indexes(keys, book, side),
        book.contains_key(id),
        book[id].side != side,
    ensures
        indexes(keys, book.remove(id), side),
{
    let shrunk = book.remove(id);
    assert forall|i: int| 0 <= i < keys.len() implies rests_on(
        shrunk,
        side,
        (#[trigger] keys[i]).oid,
    ) && shrunk[keys[i].oid].sort_key() == keys[i] by {
        assert(rests_on(book, side, keys[i].oid));
    }
    assert forall|id2: u64| #[trigger] rests_on(shrunk, side, id2) implies keys.contains(
        shrunk[id2].sort_key(),
    ) by {
        assert(rests_on(book, side, id2));
    }
}

/// The order behind the last key of a side's ranking is the best of that
/// side.
proof fn lemma_last_is_best(keys: Seq<OrderSortKey>, book: Map<u64, Order>, side: OrderSide)
    requires
        indexes(keys, book, side),
        consistent(book),
        keys.len() > 0,
    ensures
        rests_on(book, side, keys.last().oid),
        is_best(book, side, book[keys.last().oid]),
        best_of(book, side) == Some(book[keys.last().oid]),
{
    let top = keys.last();
    let order = book[top.oid];
    assert(rests_on(book, side, top.oid) && order.sort_key() == top);
    assert forall|id: u64| #[trigger] rests_on(book, side, id) && id != order.oid implies order.sort_key().outranks(
    book[id].sort_key()) by {
        let i = keys.index_of(book[id].sort_key());
        assert(keys[i].oid == id);
        assert(top.outranks(keys[i]));
    }
    lemma_best_is_named(book, side, order);
}

/// A side whose ranking is empty has nothing resting on it.
proof fn lemma_no_keys_no_best(keys: Seq<OrderSortKey>, book: Map<u64, Order>, side: OrderSide)
    requires
        indexes(keys, book, side),
        keys.len() == 0,
    ensures
        side_is_empty(book, side),
        best_of(book, side) is None,
{
    assert forall|id: u64| !rests_on(book, side, id) by {
        if rests_on(book, side, id) {
            assert(keys.contains(book[id].sort_key()));
        }
    }
    lemma_empty_side_has_no_best(book, side);
}

/// Dropping the last key of a side's ranking together with its order keeps
/// the two in step.
proof fn lemma_indexes_after_pop(keys: Seq<OrderSortKey>, book: Map<u64, Order>, side: OrderSide)
    requires
        indexes(keys, book, side),
        consistent(book),
        keys.len() > 0,
    ensures
        indexes(keys.drop_last(), book.remove(keys.last().oid), side),
{
    let p = keys.len() - 1;
    assert(rests_on(book, side, keys[p].oid));
    lemma_indexes_after_remove(keys, book, side, keys[p].oid, p);
    assert(keys.drop_last() =~= keys.remove(p));
}

/// The resting orders of one instrument.
#[derive(Debug)]
pub struct OrderBook {
    bids: Vec<OrderSortKey>,
    asks: Vec<OrderSortKey>,
    orders: HashMap<u64, Order>,
}

impl View for OrderBook {
    type V = Map<u64, Order>;

    /// The resting orders, by identifier.
    closed spec fn view(&self) -> Map<u64, Order> {
        self.orders@
    }
}

impl Clone for OrderBook {
    fn clone(&self) -> (book: OrderBook)
        ensures
            book@ == self@,
            self.wf() ==> book.wf(),
    {
        let bids = self.bids.clone();
        let asks = self.asks.clone();
        proof {
            assert(bids@ =~= self.bids@);
            assert(asks@ =~= self.asks@);
        }
        OrderBook { bids, asks, orders: self.orders.clone() }
    }
}

impl OrderBook {
    /// Whether the three structures agree: every order is stored under its
    /// own identifier, each side's ranking holds exactly the keys of the
    /// orders resting on that side, and the two rankings together hold as
    /// many keys as there are orders.
    pub closed spec fn wf(&self) -> bool {
        &&& consistent(self.orders@)
        &&& indexes(self.bids@, self.orders@, OrderSide::Bid)
        &&& indexes(self.asks@, self.orders@, OrderSide::Ask)
        &&& self.bids@.len() + self.asks@.len() == self.orders@.len()
    }

    /// An empty book.
    pub fn new() -> (book: OrderBook)
        ensures
            book.wf(),
            book@ == Map::<u64, Order>::empty(),
    {
        OrderBook { bids: Vec::new(), asks: Vec::new(), orders: HashMap::with_capacity(1024) }
    }

    /// Admits `order` under its identifier, which no resting order may carry.
    pub fn place_order(&mut self, order: Order)
        requires
            old(self).wf(),
            !old(self)@.contains_key(order.oid),
        ensures
            final(self).wf(),
            final(self)@ == old(self)@.insert(order.oid, order),
    {
        let key = order.make_sort_key();
        proof {
            lemma_indexes_side(self.bids@, self.orders@, OrderSide::Bid);
            lemma_indexes_side(self.asks@, self.orders@, OrderSide::Ask);
            lemma_indexes_absent(self.bids@, self.orders@, OrderSide::Bid, order.oid);
            lemma_indexes_absent(self.asks@, self.orders@, OrderSide::Ask, order.oid);
        }
        self.orders.insert(order.oid, order);
        match order.side {
            OrderSide::Bid => {
                let p = insert_ranked(&mut self.bids, key);
                proof {
                    lemma_indexes_after_place(
                        old(self).bids@,
                        old(self).orders@,
                        OrderSide::Bid,
                        order,
                        p as int,
                    );
                    lemma_indexes_beside_place(
                        old(self).asks@,
                        old(self).orders@,
                        OrderSide::Ask,
                        order,
                    );
                }
            },
            OrderSide::Ask => {
                let p = insert_ranked(&mut self.asks, key);
                proof {
                    lemma_indexes_after_place(
                        old(self).asks@,
                        old(self).orders@,
                        OrderSide::Ask,
                        order,
                        p as int,
                    );
                    lemma_indexes_beside_place(
                        old(self).bids@,
                        old(self).orders@,
                        OrderSide::Bid,
                        order,
                    );
                }
            },
        }
    }

    /// Withdraws the order with identifier `id` and returns it, or returns
    /// nothing and changes nothing where no such order rests.
    pub fn remove_order(&mut self, id: u64) -> (r: Option<Order>)
        requires
            old(self).wf(),
        ensures
            final(self).wf(),
            r == (if old(self)@.contains_key(id) {
                Some(old(self)@[id])
            } else {
                None
            }),
            final(self)@ == old(self)@.remove(id),
            !old(self)@.contains_key(id) ==> final(self)@ == old(self)@,
    {
        let order = match self.orders.remove(&id) {
            Some(order) => order,
            None => {
                assert(self.orders@ =~= old(self).orders@);
                return None;
            },
        };
        let key = order.make_sort_key();
        proof {
            lemma_indexes_side(self.bids@, old(self).orders@, OrderSide::Bid);
            lemma_indexes_side(self.asks@, old(self).orders@, OrderSide::Ask);
        }
        match order.side {
            OrderSide::Bid => {
                proof {
                    lemma_indexes_current(self.bids@, old(self).orders@, OrderSide::Bid, id);
                    assert(rests_on(old(self).orders@, OrderSide::Bid, id));
                }
                let found = remove_ranked(&mut self.bids, &key);
                proof {
                    assert(found is Some);
                    lemma_indexes_after_remove(
                        old(self).bids@,
                        old(self).orders@,
                        OrderSide::Bid,
                        id,
                        found.unwrap() as int,
                    );
                    lemma_indexes_beside_remove(
                        old(self).asks@,
                        old(self).orders@,
                        OrderSide::Ask,
                        id,
                    );
                }
            },
            OrderSide::Ask => {
                proof {
                    lemma_indexes_current(self.asks@, old(self).orders@, OrderSide::Ask, id);
                    assert(rests_on(old(self).orders@, OrderSide::Ask, id));
                }
                let found = remove_ranked(&mut self.asks, &key);
                proof {
                    assert(found is Some);
                    lemma_indexes_after_remove(
                        old(self).asks@,
                        old(self).orders@,
                        OrderSide::Ask,
                        id,
                        found.unwrap() as int,
                    );
                    lemma_indexes_beside_remove(
                        old(self).bids@,
                        old(self).orders@,
                        OrderSide::Bid,
                        id,
                    );
                }
            },
        }
        Some(order)
    }

    /// The order resting under `id`, if there is one.
    pub fn get(&self, id: u64) -> (r: Option<&Order>)
        ensures
            r == (if self@.contains_key(id) {
                Some(&self@[id])
            } else {
                None
            }),
    {
        self.orders.get(&id)
    }

    /// The most competitive bid, left where it is.
    pub fn peek_best_bid(&self) -> (r: Option<&Order>)
        requires
            self.wf(),
        ensures
            r == (match best_of(self@, OrderSide::Bid) {
                Some(order) => Some(&order),
                None => None,
            }),
            r matches Some(order) ==> is_best(self@, OrderSide::Bid, *order),
            r is None <==> side_is_empty(self@, OrderSide::Bid),
    {
        let n: usize = self.bids.len();
        if n == 0 {
            proof {
                lemma_no_keys_no_best(self.bids@, self.orders@, OrderSide::Bid);
            }
            return None;
        }
        let best = &self.bids[n - 1];
        proof {
            lemma_last_is_best(self.bids@, self.orders@, OrderSide::Bid);
        }
        self.orders.get(&best.oid)
    }

    /// The most competitive ask, left where it is.
    pub fn peek_best_ask(&self) -> (r: Option<&Order>)
        requires
            self.wf(),
        ensures
            r == (match best_of(self@, OrderSide::Ask) {
                Some(order) => Some(&order),
                None => None,
            }),
            r matches Some(order) ==> is_best(self@, OrderSide::Ask, *order),
            r is None <==> side_is_empty(self@, OrderSide::Ask),
    {
        let n: usize = self.asks.len();
        if n == 0 {
            proof {
                lemma_no_keys_no_best(self.asks@, self.orders@, OrderSide::Ask);
            }
            return None;
        }
        let best = &self.asks[n - 1];
        proof {
            lemma_last_is_best(self.asks@, self.orders@, OrderSide::Ask);
        }
        self.orders.get(&best.oid)
    }

    /// Withdraws the most competitive bid and returns it, or returns nothing
    /// and changes nothing where no bid rests.
    pub fn remove_best_bid(&mut self) -> (r: Option<Order>)
        requires
            old(self).wf(),
        ensures
            final(self).wf(),
            r == best_of(old(self)@, OrderSide::Bid),
            r matches Some(order) ==> is_best(old(self)@, OrderSide::Bid, order),
            r is None <==> side_is_empty(old(self)@, OrderSide::Bid),
            final(self)@ == (match r {
                Some(order) => old(self)@.remove(order.oid),
                None => old(self)@,
            }),
    {
        let best = match self.bids.pop() {
            Some(key) => key,
            None => {
                proof {
                    lemma_no_keys_no_best(self.bids@, self.orders@, OrderSide::Bid);
                }
                return None;
            },
        };
        proof {
            lemma_last_is_best(old(self).bids@, old(self).orders@, OrderSide::Bid);
            lemma_indexes_after_pop(old(self).bids@, old(self).orders@, OrderSide::Bid);
            lemma_indexes_beside_remove(
                old(self).asks@,
                old(self).orders@,
                OrderSide::Ask,
                best.oid,
            );
        }
        self.orders.remove(&best.oid)
    }

    /// Withdraws the most competitive ask and returns it, or returns nothing
    /// and changes nothing where no ask rests.
    pub fn remove_best_ask(&mut self) -> (r: Option<Order>)
        requires
            old(self).wf(),
        ensures
            final(self).wf(),
            r == best_of(old(self)@, OrderSide::Ask),
            r matches Some(order) ==> is_best(old(self)@, OrderSide::Ask, order),
            r is None <==> side_is_empty(old(self)@, OrderSide::Ask),
            final(self)@ == (match r {
                Some(order) => old(self)@.remove(order.oid),
                None => old(self)@,
            }),
    {
        let best = match self.asks.pop() {
            Some(key) => key,
            None => {
                proof {
                    lemma_no_keys_no_best(self.asks@, self.orders@, OrderSide::Ask);
                }
                return None;
            },
        };
        proof {
            lemma_last_is_best(old(self).asks@, old(self).orders@, OrderSide::Ask);
            lemma_indexes_after_pop(old(self).asks@, old(self).orders@, OrderSide::Ask);
            lemma_indexes_beside_remove(
                old(self).bids@,
                old(self).orders@,
                OrderSide::Bid,
                best.oid,
            );
        }
        self.orders.remove(&best.oid)
    }

    /// A well-formed book is in a consistent state.
    pub proof fn lemma_view_consistent(&self)
        requires
            self.wf(),
        ensures
            consistent(self@),
    {
    }
}

} // verus!
