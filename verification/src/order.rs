//! Orders and the keys by which a book ranks them.

use crate::amount::Amount;
use std::cmp::Ordering;
use vstd::prelude::*;

verus! {

/// How an order asks to be executed.
#[derive(Debug, Copy, Clone, PartialEq, Eq, Structural)]
pub enum OrderType {
    Market,
    Limit,
    Stop,
}

impl OrderType {
    /// The priority class: market orders are class 0, limit and stop orders
    /// share class 1. A smaller class is served first.
    pub open spec fn spec_priority(&self) -> u8 {
        match self {
            OrderType::Market => 0,
            OrderType::Limit => 1,
            OrderType::Stop => 1,
        }
    }

    #[verifier::when_used_as_spec(spec_priority)]
    pub fn priority(&self) -> (r: u8)
        ensures
            r == self.priority(),
    {
        match self {
            OrderType::Market => 0,
            OrderType::Limit => 1,
            OrderType::Stop => 1,
        }
    }

    /// How `self` compares with `other`: greater means served first, so the
    /// order of the classes is reversed.
    pub open spec fn ordering(self, other: Self) -> Ordering {
        if self.priority() < other.priority() {
            Ordering::Greater
        } else if self.priority() == other.priority() {
            Ordering::Equal
        } else {
            Ordering::Less
        }
    }

    pub fn cmp(&self, other: &Self) -> (r: Ordering)
        ensures
            r == self.ordering(*other),
    {
        let mine: u8 = self.priority();
        let theirs: u8 = other.priority();
        if mine < theirs {
            Ordering::Greater
        } else if mine == theirs {
            Ordering::Equal
        } else {
            Ordering::Less
        }
    }

}

impl PartialOrd for OrderType {
    fn partial_cmp(&self, other: &Self) -> (r: Option<Ordering>) {
        Some(self.cmp(other))
    }
}

impl vstd::std_specs::cmp::PartialOrdSpecImpl for OrderType {
    open spec fn obeys_partial_cmp_spec() -> bool {
        true
    }

    open spec fn partial_cmp_spec(&self, other: &Self) -> Option<Ordering> {
        Some(self.ordering(*other))
    }
}

/// Which side of the market an order rests on.
#[derive(Debug, Copy, Clone, PartialEq, Eq, Structural)]
pub enum OrderSide {
    Bid,
    Ask,
}

/// How long an order stays in force. The book stores it and never acts on it.
#[derive(Debug, Copy, Clone, PartialEq, Eq, Structural)]
pub enum OrderTimeInForce {
    /// Good till cancelled
    GTC,
    /// Immediate closing or cancellation
    IOC,
    /// Fill or kill
    FOK,
}

/// One order: its economic terms and what remains of it unfilled.
#[derive(Debug, Clone, Copy)]
pub struct Order {
    pub oid: u64,
    pub sid: u16,
    pub uid: u32,
    pub price: Amount,
    pub quantity: Amount,
    pub balance: Amount,
    pub t: OrderType,
    pub side: OrderSide,
    pub tif: OrderTimeInForce,
    pub ts: u64,
}

impl Default for Order {
    fn default() -> (r: Order)
        ensures
            r == (Order {
                oid: 0,
                sid: 0,
                uid: 0,
                price: Amount::zero(),
                quantity: Amount::zero(),
                balance: Amount::zero(),
                t: OrderType::Limit,
                side: OrderSide::Bid,
                tif: OrderTimeInForce::GTC,
                ts: 0,
            }),
    {
        Order {
            oid: 0,
            sid: 0,
            uid: 0,
            price: Amount::zero(),
            quantity: Amount::zero(),
            balance: Amount::zero(),
            t: OrderType::Limit,
            side: OrderSide::Bid,
            tif: OrderTimeInForce::GTC,
            ts: 0,
        }
    }
}

impl Order {
    /// Whether the remaining balance lies between zero and the quantity.
    pub open spec fn balanced(self) -> bool {
        0 <= self.balance.units() <= self.quantity.units()
    }

    /// Restores quantity and balance from an earlier snapshot of the same
    /// order. Every other field stays as it is.
    pub fn rollback_for(&mut self, order: &Order)
        requires
            old(self).oid == order.oid,
        ensures
            *final(self) == (Order { quantity: order.quantity, balance: order.balance, ..*old(self) }),
            order.balanced() ==> final(self).balanced(),
    {
        self.quantity = order.quantity;
        self.balance = order.balance;
    }

    /// The key under which this order is ranked.
    pub open spec fn sort_key(self) -> OrderSortKey {
        OrderSortKey { t: self.t, side: self.side, price: self.price, oid: self.oid }
    }

    pub fn make_sort_key(&self) -> (key: OrderSortKey)
        ensures
            key == self.sort_key(),
    {
        OrderSortKey { t: self.t, side: self.side, price: self.price, oid: self.oid }
    }
}

/// What ranking needs of an order, and nothing else.
#[derive(Debug, Clone, Copy, PartialEq, Eq)]
pub struct OrderSortKey {
    pub t: OrderType,
    pub side: OrderSide,
    pub price: Amount,
    pub oid: u64,
}

impl OrderSortKey {
    /// Whether the price of `self` is strictly more competitive than that of
    /// `other`, on the side of `self`: a bid competes by paying more, an ask
    /// by asking less.
    pub open spec fn price_beats(self, other: Self) -> bool {
        match self.side {
            OrderSide::Bid => self.price.units() > other.price.units(),
            OrderSide::Ask => self.price.units() < other.price.units(),
        }
    }

    /// Whether `self` is served strictly before `other`: by priority class,
    /// then by price, then by the smaller identifier. A key never outranks
    /// one with its own identifier.
    pub open spec fn outranks(self, other: Self) -> bool {
        &&& self.oid != other.oid
        &&& {
            ||| self.t.priority() < other.t.priority()
            ||| self.t.priority() == other.t.priority() && self.price_beats(other)
            ||| self.t.priority() == other.t.priority() && self.price.units()
                == other.price.units() && self.oid < other.oid
        }
    }

    /// How `self` compares with `other`: equal on equal identifiers whatever
    /// the other fields hold, greater where `self` is served first.
    pub open spec fn ordering(self, other: Self) -> Ordering {
        if self.oid == other.oid {
            Ordering::Equal
        } else if self.outranks(other) {
            Ordering::Greater
        } else {
            Ordering::Less
        }
    }

    pub fn cmp(&self, other: &Self) -> (r: Ordering)
        ensures
            r == self.ordering(*other),
    {
        if self.oid == other.oid {
            return Ordering::Equal;
        }
        match self.t.cmp(&other.t) {
            Ordering::Less => Ordering::Less,
            Ordering::Greater => Ordering::Greater,
            Ordering::Equal => {
                match (self.price.compare(&other.price), self.side) {
                    (Ordering::Less, OrderSide::Bid) => Ordering::Less,
                    (Ordering::Less, OrderSide::Ask) => Ordering::Greater,
                    (Ordering::Greater, OrderSide::Bid) => Ordering::Greater,
                    (Ordering::Greater, OrderSide::Ask) => Ordering::Less,
                    (Ordering::Equal, _) => {
                        if self.oid < other.oid {
                            Ordering::Greater
                        } else {
                            Ordering::Less
                        }
                    },
                }
            },
        }
    }

    /// Whether `self` is served strictly before `other`.
    pub fn beats(&self, other: &Self) -> (r: bool)
        ensures
            r == self.outranks(*other),
    {
        match self.cmp(other) {
            Ordering::Greater => true,
            _ => false,
        }
    }
}

impl PartialOrd for OrderSortKey {
    fn partial_cmp(&self, other: &Self) -> (r: Option<Ordering>) {
        Some(self.cmp(other))
    }
}

impl vstd::std_specs::cmp::PartialOrdSpecImpl for OrderSortKey {
    open spec fn obeys_partial_cmp_spec() -> bool {
        true
    }

    open spec fn partial_cmp_spec(&self, other: &Self) -> Option<Ordering> {
        Some(self.ordering(*other))
    }
}

/// What a comparison of two keys on one side tells: it is greater exactly
/// where the first outranks the second, less exactly where the second
/// outranks the first, and equal exactly on equal identifiers. Swapping the
/// keys swaps greater and less.
pub proof fn lemma_ordering_reflects_rank(a: OrderSortKey, b: OrderSortKey)
    requires
        a.side == b.side,
    ensures
        a.ordering(b) == Ordering::Greater <==> a.outranks(b),
        a.ordering(b) == Ordering::Less <==> b.outranks(a),
        a.ordering(b) == Ordering::Equal <==> a.oid == b.oid,
        a.ordering(b) == Ordering::Greater <==> b.ordering(a) == Ordering::Less,
{
}

/// No key outranks itself, nor any key with its own identifier.
pub proof fn lemma_outranks_irreflexive(a: OrderSortKey, b: OrderSortKey)
    requires
        a.oid == b.oid,
    ensures
        !a.outranks(b),
{
}

/// Of two keys on one side, at most one outranks the other.
pub proof fn lemma_outranks_asymmetric(a: OrderSortKey, b: OrderSortKey)
    requires
        a.side == b.side,
        a.outranks(b),
    ensures
        !b.outranks(a),
{
}

/// Of two keys on one side with different identifiers, one outranks the
/// other.
pub proof fn lemma_outranks_total(a: OrderSortKey, b: OrderSortKey)
    requires
        a.side == b.side,
        a.oid != b.oid,
    ensures
        a.outranks(b) || b.outranks(a),
{
}

/// Among keys on one side with different identifiers, outranking carries
/// over: who outranks a key outranks whatever that key outranks.
pub proof fn lemma_outranks_transitive(a: OrderSortKey, b: OrderSortKey, c: OrderSortKey)
    requires
        a.side == b.side,
        a.oid != c.oid,
        a.outranks(b),
        b.outranks(c),
    ensures
        a.outranks(c),
{
}

/// A market order outranks every limit or stop order with another
/// identifier, whatever the prices and sides.
pub proof fn lemma_market_preempts(a: OrderSortKey, b: OrderSortKey)
    requires
        a.oid != b.oid,
        a.t == OrderType::Market,
        b.t != OrderType::Market,
    ensures
        a.outranks(b),
        !b.outranks(a),
{
}

/// Within one priority class the better price wins: on the bid side the
/// strictly higher one, on the ask side the strictly lower one.
pub proof fn lemma_better_price_wins(a: OrderSortKey, b: OrderSortKey)
    requires
        a.oid != b.oid,
        a.side == b.side,
        a.t.priority() == b.t.priority(),
        a.side == OrderSide::Bid ==> a.price.units() > b.price.units(),
        a.side == OrderSide::Ask ==> a.price.units() < b.price.units(),
    ensures
        a.outranks(b),
        !b.outranks(a),
{
}

/// Within one priority class and at one price the earlier order wins: the
/// one with the smaller identifier.
pub proof fn lemma_earlier_wins(a: OrderSortKey, b: OrderSortKey)
    requires
        a.side == b.side,
        a.t.priority() == b.t.priority(),
        a.price.units() == b.price.units(),
        a.oid < b.oid,
    ensures
        a.outranks(b),
        !b.outranks(a),
{
}

} // verus!
