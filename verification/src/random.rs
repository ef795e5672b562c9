//! Random choices, made by the `rand` crate with the random number generator
//! of the running thread.
//!
//! Nothing can be said of which value a call returns. Each contract states
//! what `rand` documents of every value that it may return, and is taken on
//! trust.

use vstd::prelude::*;
use rand::seq::{IteratorRandom, SliceRandom};
use rand::Rng;

verus! {

/// `Rng::gen_range(0, bound)`: a number below `bound`. `rand` panics on an
/// empty range.
#[verifier::external_body]
pub(crate) fn random_below(bound: usize) -> (drawn: usize)
    requires
        bound > 0,
    ensures
        drawn < bound,
{
    rand::thread_rng().gen_range(0, bound)
}

/// `IteratorRandom::choose`: one of `candidates`, and `None` only where
/// there is no candidate.
#[verifier::external_body]
pub(crate) fn choose_one(candidates: &Vec<usize>) -> (chosen: Option<usize>)
    ensures
        match chosen {
            Some(value) => candidates@.contains(value),
            None => candidates@.len() == 0,
        },
{
    candidates.iter().copied().choose(&mut rand::thread_rng())
}

/// Whether `picked` are `amount` of the items of `pool`, or all of them
/// where the pool holds fewer: none taken more often than the pool holds it.
pub open spec fn is_sample_of(picked: Seq<usize>, pool: Seq<usize>, amount: nat) -> bool {
    &&& picked.len() == if amount <= pool.len() {
        amount
    } else {
        pool.len()
    }
    &&& picked.to_multiset().subset_of(pool.to_multiset())
}

/// `SliceRandom::choose_multiple`: `amount` items of `pool` from different
/// places, in some order; the whole pool where it holds fewer.
#[verifier::external_body]
pub(crate) fn choose_multiple(pool: &Vec<usize>, amount: usize) -> (picked: Vec<usize>)
    ensures
        is_sample_of(picked@, pool@, amount as nat),
{
    pool.choose_multiple(&mut rand::thread_rng(), amount).copied().collect()
}

/// `SliceRandom::shuffle`: the same items in some order.
#[verifier::external_body]
pub(crate) fn shuffle(items: &mut Vec<usize>)
    ensures
        final(items)@.to_multiset() == old(items)@.to_multiset(),
{
    items.shuffle(&mut rand::thread_rng());
}

} // verus!
