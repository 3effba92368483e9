//! Keys of one side, kept in ascending rank in a vector: every key outranks
//! the keys before it, so the best key is the last one.

use crate::order::{
    lemma_outranks_asymmetric, lemma_outranks_total, lemma_outranks_transitive, OrderSide,
    OrderSortKey,
};
use vstd::prelude::*;

verus! {

/// Whether every key outranks the keys before it. Keys that outrank one
/// another have different identifiers, so no identifier occurs twice.
pub open spec fn ranked(keys: Seq<OrderSortKey>) -> bool {
    forall|i: int, j: int| 0 <= i < j < keys.len() ==> #[trigger] keys[j].outranks(keys[i])
}

/// Whether every key belongs to `side`.
pub open spec fn on_side(keys: Seq<OrderSortKey>, side: OrderSide) -> bool {
    forall|i: int| 0 <= i < keys.len() ==> (#[trigger] keys[i]).side == side
}

/// Whether `key` can be looked up in `keys`: a key stored under its
/// identifier, if there is one, is `key` itself.
pub open spec fn current(keys: Seq<OrderSortKey>, key: OrderSortKey) -> bool {
    forall|i: int| 0 <= i < keys.len() && (#[trigger] keys[i]).oid == key.oid ==> keys[i] == key
}

/// Whether no key carries the identifier `oid`.
pub open spec fn absent(keys: Seq<OrderSortKey>, oid: u64) -> bool {
    forall|i: int| 0 <= i < keys.len() ==> (#[trigger] keys[i]).oid != oid
}

/// The number of keys that `key` outranks, found by bisection: they are the
/// keys before the position returned.
pub(crate) fn rank_position(keys: &Vec<OrderSortKey>, key: &OrderSortKey) -> (p: usize)
    requires
        ranked(keys@),
        on_side(keys@, key.side),
        current(keys@, *key),
    ensures
        p <= keys.len(),
        forall|i: int| 0 <= i < p ==> key.outranks(#[trigger] keys@[i]),
        forall|i: int| p <= i < keys.len() ==> !key.outranks(#[trigger] keys@[i]),
{
    let mut lo: usize = 0;
    let mut hi: usize = keys.len();
    while lo < hi
        invariant
            lo <= hi <= keys.len(),
            ranked(keys@),
            on_side(keys@, key.side),
            current(keys@, *key),
            forall|i: int| 0 <= i < lo ==> key.outranks(#[trigger] keys@[i]),
            forall|i: int| hi <= i < keys.len() ==> !key.outranks(#[trigger] keys@[i]),
        decreases hi - lo,
    {
        let mid: usize = lo + (hi - lo) / 2;
        if key.beats(&keys[mid]) {
            proof {
                let pivot = keys@[mid as int];
                assert forall|i: int| 0 <= i < mid + 1 implies key.outranks(#[trigger] keys@[i]) by {
                    if i < mid {
                        assert(pivot.outranks(keys@[i]));
                        if keys@[i].oid == key.oid {
                            lemma_outranks_asymmetric(*key, pivot);
                        } else {
                            lemma_outranks_transitive(*key, pivot, keys@[i]);
                        }
                    }
                }
            }
            lo = mid + 1;
        } else {
            proof {
                let pivot = keys@[mid as int];
                assert forall|i: int| mid <= i < keys.len() implies !key.outranks(
                    #[trigger] keys@[i],
                ) by {
                    if i > mid && key.outranks(keys@[i]) {
                        assert(keys@[i].outranks(pivot));
                        if pivot.oid == key.oid {
                            lemma_outranks_asymmetric(*key, keys@[i]);
                        } else {
                            lemma_outranks_transitive(*key, keys@[i], pivot);
                        }
                    }
                }
            }
            hi = mid;
        }
    }
    lo
}

/// Puts `key` where its rank places it and returns that position.
pub(crate) fn insert_ranked(keys: &mut Vec<OrderSortKey>, key: OrderSortKey) -> (p: usize)
    requires
        ranked(old(keys)@),
        on_side(old(keys)@, key.side),
        absent(old(keys)@, key.oid),
    ensures
        p <= old(keys)@.len(),
        final(keys)@ == old(keys)@.insert(p as int, key),
        ranked(final(keys)@),
        on_side(final(keys)@, key.side),
{
    let p: usize = rank_position(keys, &key);
    keys.insert(p, key);
    proof {
        let before = old(keys)@;
        let after = keys@;
        assert forall|i: int, j: int| 0 <= i < j < after.len() implies #[trigger] after[j].outranks(
            after[i],
        ) by {
            if j == p {
                assert(after[i] == before[i]);
            } else if i == p {
                assert(after[j] == before[j - 1]);
                lemma_outranks_total(key, before[j - 1]);
            } else {
                let bi = if i < p { i } else { i - 1 };
                let bj = if j < p { j } else { j - 1 };
                assert(after[i] == before[bi]);
                assert(after[j] == before[bj]);
                assert(before[bj].outranks(before[bi]));
            }
        }
        assert forall|i: int| 0 <= i < after.len() implies (#[trigger] after[i]).side
            == key.side by {
            if i < p {
                assert(after[i] == before[i]);
            } else if i > p {
                assert(after[i] == before[i - 1]);
            }
        }
    }
    p
}

/// Takes `key` out, if it is there, and returns the position it had.
pub(crate) fn remove_ranked(keys: &mut Vec<OrderSortKey>, key: &OrderSortKey) -> (r: Option<usize>)
    requires
        ranked(old(keys)@),
        on_side(old(keys)@, key.side),
        current(old(keys)@, *key),
    ensures
        match r {
            Some(p) => p < old(keys)@.len() && old(keys)@[p as int] == *key && final(keys)@ == old(
                keys,
            )@.remove(p as int),
            None => absent(old(keys)@, key.oid) && final(keys)@ == old(keys)@,
        },
        ranked(final(keys)@),
        on_side(final(keys)@, key.side),
{
    let p: usize = rank_position(keys, key);
    if p < keys.len() && keys[p].oid == key.oid {
        keys.remove(p);
        proof {
            let before = old(keys)@;
            let after = keys@;
            assert forall|i: int, j: int| 0 <= i < j < after.len() implies #[trigger] after[j].outranks(
                after[i],
            ) by {
                let bi = if i < p { i } else { i + 1 };
                let bj = if j < p { j } else { j + 1 };
                assert(after[i] == before[bi]);
                assert(after[j] == before[bj]);
                assert(before[bj].outranks(before[bi]));
            }
            assert forall|i: int| 0 <= i < after.len() implies (#[trigger] after[i]).side
                == key.side by {
                let bi = if i < p { i } else { i + 1 };
                assert(after[i] == before[bi]);
            }
        }
        Some(p)
    } else {
        proof {
            let before = old(keys)@;
            assert forall|i: int| 0 <= i < before.len() implies (#[trigger] before[i]).oid
                != key.oid by {
                if before[i].oid == key.oid {
                    assert(before[i] == *key);
                    if i < p {
                        assert(key.outranks(before[i]));
                    } else {
                        assert(i > p);
                        assert(before[i].outranks(before[p as int]));
                        assert(!key.outranks(before[p as int]));
                    }
                }
            }
        }
        None
    }
}

} // verus!
