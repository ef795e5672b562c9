//! The decisions of simulated annealing: which verdict of the router is the
//! better one, and whether a new placement is taken in place of the current
//! one.

use vstd::prelude::*;
use crate::routing::pathfinder::{NetListScore, PathfinderResult, Unreachable};

verus! {

/// The product of `a` and `b` in two parts: the product is the first part
/// times 2^64, plus the second.
pub fn wide_product(a: u128, b: u64) -> (product: (u128, u64))
    ensures
        product.0 * 0x1_0000_0000_0000_0000 + product.1 == a * b,
{
    let high_half: u128 = a / 0x1_0000_0000_0000_0000;
    let low_half: u128 = a % 0x1_0000_0000_0000_0000;
    let factor = b as u128;
    assert(high_half * factor <= 0xffff_ffff_ffff_ffff * 0xffff_ffff_ffff_ffff && low_half * factor
        <= 0xffff_ffff_ffff_ffff * 0xffff_ffff_ffff_ffff) by (nonlinear_arith)
        requires
            0 <= high_half <= 0xffff_ffff_ffff_ffff,
            0 <= low_half <= 0xffff_ffff_ffff_ffff,
            0 <= factor <= 0xffff_ffff_ffff_ffff,
    ;
    let upper: u128 = high_half * factor;
    let lower: u128 = low_half * factor;
    let carry: u128 = lower / 0x1_0000_0000_0000_0000;
    let low: u64 = (lower % 0x1_0000_0000_0000_0000) as u64;
    assert(a * b == (upper + carry) * 0x1_0000_0000_0000_0000 + low) by (nonlinear_arith)
        requires
            a == high_half * 0x1_0000_0000_0000_0000 + low_half,
            upper == high_half * factor,
            lower == low_half * factor,
            lower == carry * 0x1_0000_0000_0000_0000 + low,
            factor == b,
    ;
    (upper + carry, low)
}

impl NetListScore {
    /// The number by which the total is divided: the number of nets, and 1
    /// where there is no net.
    pub open spec fn divisor(self) -> int {
        if self.nets == 0 {
            1
        } else {
            self.nets as int
        }
    }

    /// Whether the mean of this score is at most that of `other`.
    pub open spec fn spec_at_most(self, other: Self) -> bool {
        self.total * other.divisor() <= other.total * self.divisor()
    }

    /// Whether the mean of this score is at most that of `other`. The two
    /// means are compared exactly, by their cross products.
    #[verifier::when_used_as_spec(spec_at_most)]
    pub fn at_most(self, other: Self) -> (r: bool)
        ensures
            r == self.spec_at_most(other),
    {
        let own_divisor: u64 = if self.nets == 0 {
            1
        } else {
            self.nets as u64
        };
        let other_divisor: u64 = if other.nets == 0 {
            1
        } else {
            other.nets as u64
        };
        let (left_high, left_low) = wide_product(self.total, other_divisor);
        let (right_high, right_low) = wide_product(other.total, own_divisor);
        left_high < right_high || (left_high == right_high && left_low <= right_low)
    }
}

/// Whether verdict `a` is better than verdict `b`: a routed design is better
/// than one that is not routed; of two routed designs the one with the lower
/// mean length, and of two that are not routed the one with the lower
/// congestion.
pub open spec fn spec_is_better(a: &PathfinderResult, b: &PathfinderResult) -> bool {
    match (a, b) {
        (PathfinderResult::Routed { score, .. }, PathfinderResult::Routed { score: other, .. }) =>
            !other.spec_at_most(*score),
        (PathfinderResult::Routed { .. }, PathfinderResult::NotRouted { .. }) => true,
        (PathfinderResult::NotRouted { .. }, PathfinderResult::Routed { .. }) => false,
        (
            PathfinderResult::NotRouted { congestion },
            PathfinderResult::NotRouted { congestion: other },
        ) => *congestion < *other,
    }
}

/// Whether verdict `a` is better than verdict `b`.
#[verifier::when_used_as_spec(spec_is_better)]
pub fn is_better(a: &PathfinderResult, b: &PathfinderResult) -> (r: bool)
    ensures
        r == spec_is_better(a, b),
{
    match (a, b) {
        (PathfinderResult::Routed { score, .. }, PathfinderResult::Routed { score: other, .. }) =>
            !other.at_most(*score),
        (PathfinderResult::Routed { .. }, PathfinderResult::NotRouted { .. }) => true,
        (PathfinderResult::NotRouted { .. }, PathfinderResult::Routed { .. }) => false,
        (
            PathfinderResult::NotRouted { congestion },
            PathfinderResult::NotRouted { congestion: other },
        ) => *congestion < *other,
    }
}

/// The verdict by which a placement is judged: that of the router, and where
/// a sink cannot be reached at all, the worst verdict there is.
pub fn energy(outcome: Result<PathfinderResult, Unreachable>) -> (verdict: PathfinderResult)
    ensures
        match outcome {
            Ok(found) => verdict == found,
            Err(_) => verdict == (PathfinderResult::NotRouted { congestion: u64::MAX }),
        },
{
    match outcome {
        Ok(found) => found,
        Err(_) => PathfinderResult::NotRouted { congestion: u64::MAX },
    }
}

/// Being better is a strict order: no verdict is better than itself, and a
/// verdict better than one that is better than a third is better than the
/// third.
pub proof fn lemma_better_is_strict_order(
    a: &PathfinderResult,
    b: &PathfinderResult,
    c: &PathfinderResult,
)
    ensures
        !spec_is_better(a, a),
        spec_is_better(a, b) ==> !spec_is_better(b, a),
        spec_is_better(a, b) && spec_is_better(b, c) ==> spec_is_better(a, c),
{
    match (a, b, c) {
        (
            PathfinderResult::Routed { score: x, .. },
            PathfinderResult::Routed { score: y, .. },
            PathfinderResult::Routed { score: z, .. },
        ) => {
            let (xt, xd) = (x.total as int, x.divisor());
            let (yt, yd) = (y.total as int, y.divisor());
            let (zt, zd) = (z.total as int, z.divisor());
            if xt * yd < yt * xd && yt * zd < zt * yd {
                assert(xt * zd < zt * xd) by (nonlinear_arith)
                    requires
                        xt * yd < yt * xd,
                        yt * zd < zt * yd,
                        xd > 0,
                        yd > 0,
                        zd > 0,
                        xt >= 0,
                        yt >= 0,
                        zt >= 0,
                {
                    assert(xt * yd * zd <= yt * xd * zd - zd);
                    assert(yt * zd * xd <= zt * yd * xd - xd);
                    assert(yt * xd * zd == yt * zd * xd);
                    assert(xt * zd * yd == xt * yd * zd);
                    assert(zt * xd * yd == zt * yd * xd);
                    assert(xt * zd * yd < zt * xd * yd);
                }
            }
        },
        _ => {},
    }
}

/// What is done with a new placement.
#[derive(Debug, Clone, Copy, PartialEq, Eq, Structural)]
pub enum Acceptance {
    /// It is taken.
    Always,
    /// It is not taken.
    Never,
    /// It is worse than the current one, and is taken with a chance that
    /// falls with the difference and rises with the temperature.
    Metropolis,
}

/// What is done with a placement whose verdict is `candidate` when the
/// current placement has the verdict `current`. A routed placement is taken
/// in place of one that is not routed, and never the other way round. Of two
/// routed placements, or two that are not routed, the new one is taken where
/// it is no worse, and left to chance where it is worse.
pub open spec fn spec_acceptance(current: &PathfinderResult, candidate: &PathfinderResult) -> Acceptance {
    match (current, candidate) {
        (PathfinderResult::NotRouted { .. }, PathfinderResult::Routed { .. }) => Acceptance::Always,
        (PathfinderResult::Routed { .. }, PathfinderResult::NotRouted { .. }) => Acceptance::Never,
        (
            PathfinderResult::Routed { score: current, .. },
            PathfinderResult::Routed { score: candidate, .. },
        ) => if candidate.spec_at_most(*current) {
            Acceptance::Always
        } else {
            Acceptance::Metropolis
        },
        (
            PathfinderResult::NotRouted { congestion: current },
            PathfinderResult::NotRouted { congestion: candidate },
        ) => if *candidate <= *current {
            Acceptance::Always
        } else {
            Acceptance::Metropolis
        },
    }
}

/// What is done with a placement whose verdict is `candidate` when the
/// current placement has the verdict `current`.
#[verifier::when_used_as_spec(spec_acceptance)]
pub fn acceptance(current: &PathfinderResult, candidate: &PathfinderResult) -> (decision: Acceptance)
    ensures
        decision == spec_acceptance(current, candidate),
{
    match (current, candidate) {
        (PathfinderResult::NotRouted { .. }, PathfinderResult::Routed { .. }) => Acceptance::Always,
        (PathfinderResult::Routed { .. }, PathfinderResult::NotRouted { .. }) => Acceptance::Never,
        (
            PathfinderResult::Routed { score: current, .. },
            PathfinderResult::Routed { score: candidate, .. },
        ) => if candidate.at_most(*current) {
            Acceptance::Always
        } else {
            Acceptance::Metropolis
        },
        (
            PathfinderResult::NotRouted { congestion: current },
            PathfinderResult::NotRouted { congestion: candidate },
        ) => if *candidate <= *current {
            Acceptance::Always
        } else {
            Acceptance::Metropolis
        },
    }
}

/// A placement that is no worse than the current one is always taken, and
/// one that gives up a routed design never.
pub proof fn lemma_acceptance(current: &PathfinderResult, candidate: &PathfinderResult)
    ensures
        !spec_is_better(current, candidate) ==> spec_acceptance(current, candidate)
            == Acceptance::Always,
        current is Routed && candidate is NotRouted ==> spec_acceptance(current, candidate)
            == Acceptance::Never,
        spec_acceptance(current, candidate) == Acceptance::Metropolis ==> spec_is_better(
            current,
            candidate,
        ),
{
}

/// Whether a new placement is taken, where `chance` says how the draw fell
/// that decides in the case left to chance.
pub fn accepts(current: &PathfinderResult, candidate: &PathfinderResult, chance: bool) -> (taken:
    bool)
    ensures
        taken == match spec_acceptance(current, candidate) {
            Acceptance::Always => true,
            Acceptance::Never => false,
            Acceptance::Metropolis => chance,
        },
{
    match acceptance(current, candidate) {
        Acceptance::Always => true,
        Acceptance::Never => false,
        Acceptance::Metropolis => chance,
    }
}

/// Among the replies of the workers of one step, the place of the best
/// verdict that was accepted, and of the first of them where several are
/// equally good; `None` where no worker accepted its placement.
pub fn select_best(replies: &Vec<Option<PathfinderResult>>) -> (best: Option<usize>)
    ensures
        match best {
            Some(at) => {
                &&& at < replies@.len()
                &&& replies@[at as int] is Some
                &&& forall|i: int|
                    0 <= i < replies@.len() && (#[trigger] replies@[i]) is Some ==> !spec_is_better(
                        &replies@[i].unwrap(),
                        &replies@[at as int].unwrap(),
                    )
                &&& forall|i: int|
                    0 <= i < at && (#[trigger] replies@[i]) is Some ==> spec_is_better(
                        &replies@[at as int].unwrap(),
                        &replies@[i].unwrap(),
                    )
            },
            None => forall|i: int| 0 <= i < replies@.len() ==> (#[trigger] replies@[i]) is None,
        },
{
    let mut best: Option<usize> = None;
    let mut i: usize = 0;
    while i < replies.len()
        invariant
            i <= replies@.len(),
            match best {
                Some(at) => {
                    &&& at < i
                    &&& replies@[at as int] is Some
                    &&& forall|k: int|
                        0 <= k < i && (#[trigger] replies@[k]) is Some ==> !spec_is_better(
                            &replies@[k].unwrap(),
                            &replies@[at as int].unwrap(),
                        )
                    &&& forall|k: int|
                        0 <= k < at && (#[trigger] replies@[k]) is Some ==> spec_is_better(
                            &replies@[at as int].unwrap(),
                            &replies@[k].unwrap(),
                        )
                },
                None => forall|k: int| 0 <= k < i ==> (#[trigger] replies@[k]) is None,
            },
        decreases replies@.len() - i,
    {
        if let Some(candidate) = &replies[i] {
            match best {
                None => {
                    proof {
                        lemma_better_is_strict_order(candidate, candidate, candidate);
                    }
                    best = Some(i);
                },
                Some(at) => {
                    let ghost held = replies@[at as int].unwrap();
                    if is_better(candidate, replies[at].as_ref().unwrap()) {
                        proof {
                            assert forall|k: int|
                                0 <= k < i + 1 && (#[trigger] replies@[k]) is Some implies !spec_is_better(
                                &replies@[k].unwrap(),
                                candidate,
                            ) by {
                                lemma_better_is_strict_order(&replies@[k].unwrap(), candidate, &held);
                                lemma_better_is_strict_order(candidate, candidate, candidate);
                            }
                            assert forall|k: int|
                                0 <= k < i && (#[trigger] replies@[k]) is Some implies spec_is_better(
                                candidate,
                                &replies@[k].unwrap(),
                            ) by {
                                lemma_total(candidate, &held, &replies@[k].unwrap());
                            }
                        }
                        best = Some(i);
                    }
                },
            }
        }
        i += 1;
    }
    best
}

/// A verdict better than one that a third is not better than is better than
/// the third.
proof fn lemma_total(a: &PathfinderResult, b: &PathfinderResult, c: &PathfinderResult)
    requires
        spec_is_better(a, b),
        !spec_is_better(c, b),
    ensures
        spec_is_better(a, c),
{
    match (a, b, c) {
        (
            PathfinderResult::Routed { score: x, .. },
            PathfinderResult::Routed { score: y, .. },
            PathfinderResult::Routed { score: z, .. },
        ) => {
            let (xt, xd) = (x.total as int, x.divisor());
            let (yt, yd) = (y.total as int, y.divisor());
            let (zt, zd) = (z.total as int, z.divisor());
            assert(xt * zd < zt * xd) by (nonlinear_arith)
                requires
                    xt * yd < yt * xd,
                    yt * zd <= zt * yd,
                    xd > 0,
                    yd > 0,
                    zd > 0,
                    xt >= 0,
                    yt >= 0,
                    zt >= 0,
            {
                assert(xt * yd * zd <= yt * xd * zd - zd);
                assert(yt * zd * xd <= zt * yd * xd);
                assert(yt * xd * zd == yt * zd * xd);
                assert(xt * zd * yd == xt * yd * zd);
                assert(zt * xd * yd == zt * yd * xd);
                assert(xt * zd * yd < zt * xd * yd);
            }
        },
        _ => {},
    }
}

} // verus!
