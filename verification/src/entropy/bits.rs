//! Bit patterns of 32-bit floating-point numbers.

use vstd::prelude::*;

verus! {

/// The pattern without the sign.
pub open spec fn magnitude(bits: u32) -> int {
    bits as int % 0x8000_0000
}

/// Neither infinite nor no number at all.
pub open spec fn is_finite(bits: u32) -> bool {
    magnitude(bits) < 0x7F80_0000
}

/// A number in the order of the numbers that patterns stand for; both zeros give 0.
pub open spec fn rank(bits: u32) -> int {
    if bits < 0x8000_0000 {
        magnitude(bits)
    } else {
        -magnitude(bits)
    }
}

/// The number closest to `x` between `low` and `high`.
pub open spec fn clamped(x: u32, low: u32, high: u32) -> u32 {
    if rank(x) < rank(low) {
        low
    } else if rank(x) > rank(high) {
        high
    } else {
        x
    }
}

/// The pattern of 0.0.
pub const ZERO: u32 = 0;

/// The pattern of 1.0.
pub const ONE: u32 = 0x3F80_0000;

/// The pattern of 1000.0.
pub const THOUSAND: u32 = 0x447A_0000;

pub fn rank_of(bits: u32) -> (r: i64)
    ensures
        r == rank(bits),
{
    if bits < 0x8000_0000 {
        bits as i64
    } else {
        -((bits - 0x8000_0000) as i64)
    }
}

pub fn finite(bits: u32) -> (r: bool)
    ensures
        r == is_finite(bits),
{
    bits % 0x8000_0000 < 0x7F80_0000
}

pub fn clamp_bits(x: u32, low: u32, high: u32) -> (r: u32)
    ensures
        r == clamped(x, low, high),
{
    if rank_of(x) < rank_of(low) {
        low
    } else if rank_of(x) > rank_of(high) {
        high
    } else {
        x
    }
}

/// What is wrong with a probability.
#[derive(Debug, Clone, Copy, PartialEq, Eq, Structural)]
pub enum ProbabilityFault {
    /// It is infinite or no number at all.
    NotFinite,
    /// It is zero or negative.
    NotPositive,
}

impl ProbabilityFault {
    /// A description.
    pub open spec fn description(self) -> Seq<char> {
        match self {
            ProbabilityFault::NotFinite => "distribution contains NaN or infinity"@,
            ProbabilityFault::NotPositive => "distribution contains non-positive probability"@,
        }
    }

    /// A description.
    pub fn text(self) -> (s: &'static str)
        ensures
            s@ == self.description(),
    {
        match self {
            ProbabilityFault::NotFinite => "distribution contains NaN or infinity",
            ProbabilityFault::NotPositive => "distribution contains non-positive probability",
        }
    }
}

/// What is wrong with the probability of the given pattern, if anything.
pub open spec fn probability_fault(bits: u32) -> Option<ProbabilityFault> {
    if !is_finite(bits) {
        Some(ProbabilityFault::NotFinite)
    } else if rank(bits) <= 0 {
        Some(ProbabilityFault::NotPositive)
    } else {
        None
    }
}

/// The fault of the first probability that has one.
pub open spec fn first_fault(probs: Seq<u32>) -> Option<ProbabilityFault>
    decreases probs.len(),
{
    if probs.len() == 0 {
        None
    } else if probability_fault(probs[0]) is Some {
        probability_fault(probs[0])
    } else {
        first_fault(probs.drop_first())
    }
}

/// Checks that all probabilities of a distribution are finite and positive: every byte
/// must be encodable. Whether they add up to 1 is not looked at.
pub fn check_probabilities(probs: &[u32]) -> (r: Option<ProbabilityFault>)
    ensures
        r == first_fault(probs@),
{
    let mut i: usize = 0;
    assert(probs@.skip(0) =~= probs@);
    while i < probs.len()
        invariant
            i <= probs@.len(),
            first_fault(probs@) == first_fault(probs@.skip(i as int)),
        decreases probs@.len() - i,
    {
        assert(probs@.skip(i as int).drop_first() =~= probs@.skip(i + 1));
        if !finite(probs[i]) {
            return Some(ProbabilityFault::NotFinite);
        }
        if rank_of(probs[i]) <= 0 {
            return Some(ProbabilityFault::NotPositive);
        }
        i = i + 1;
    }
    assert(probs@.skip(i as int) =~= Seq::empty());
    None
}

/// Clamping gives a number between the bounds, the number itself where it is, and a bound
/// only where the number lies beyond it.
pub proof fn clamping_keeps_what_is_within(x: u32, low: u32, high: u32)
    requires
        rank(low) <= rank(high),
    ensures
        rank(low) <= rank(clamped(x, low, high)) <= rank(high),
        rank(low) <= rank(x) <= rank(high) ==> clamped(x, low, high) == x,
        rank(x) < rank(low) ==> clamped(x, low, high) == low,
        rank(x) > rank(high) ==> clamped(x, low, high) == high,
{
}

/// Patterns without a sign are ordered as they are, those with one the other way round and
/// below. Those with all bits of the exponent set are not finite.
pub proof fn patterns_are_ordered(a: u32, b: u32)
    ensures
        a < 0x8000_0000 && b < 0x8000_0000 ==> (rank(a) < rank(b) <==> a < b),
        a >= 0x8000_0000 && b >= 0x8000_0000 ==> (rank(a) < rank(b) <==> a > b),
        0x8000_0000 < a && 0 < b < 0x8000_0000 ==> rank(a) < 0 < rank(b),
        rank(0) == 0 && rank(0x8000_0000) == 0,
        is_finite(a) <==> !(0x7F80_0000 <= a < 0x8000_0000 || a >= 0xFF80_0000),
{
}

/// A distribution has no fault exactly where all its probabilities are finite and positive;
/// otherwise the fault is that of some probability with none before it.
pub proof fn faults_are_found(probs: Seq<u32>)
    ensures
        first_fault(probs) is None <==> forall|i: int|
            0 <= i < probs.len() ==> 0 < #[trigger] probs[i] < 0x7F80_0000,
        first_fault(probs) is Some ==> exists|i: int|
            #![trigger probs[i]]
            0 <= i < probs.len() && !(0 < probs[i] < 0x7F80_0000) && (first_fault(probs)
                == Some(ProbabilityFault::NotFinite) <==> !is_finite(probs[i])) && forall|j: int|
                0 <= j < i ==> 0 < #[trigger] probs[j] < 0x7F80_0000,
    decreases probs.len(),
{
    if probs.len() > 0 {
        let rest = probs.drop_first();
        faults_are_found(rest);
        if probability_fault(probs[0]) is None {
            assert forall|i: int| 0 <= i < rest.len() implies rest[i] == probs[i + 1] by {}
            if first_fault(rest) is Some {
                let i = choose|i: int|
                    #![trigger rest[i]]
                    0 <= i < rest.len() && !(0 < rest[i] < 0x7F80_0000) && (first_fault(rest)
                        == Some(ProbabilityFault::NotFinite) <==> !is_finite(rest[i])) && forall|
                        j: int,
                    |
                        0 <= j < i ==> 0 < #[trigger] rest[j] < 0x7F80_0000;
                assert(!(0 < probs[i + 1] < 0x7F80_0000));
                assert forall|j: int| 0 <= j < i + 1 implies 0 < #[trigger] probs[j] < 0x7F80_0000 by {
                    if j > 0 {
                        assert(rest[j - 1] == probs[j]);
                    }
                }
            } else {
                assert forall|i: int| 0 <= i < probs.len() implies 0 < #[trigger] probs[i]
                    < 0x7F80_0000 by {
                    if i > 0 {
                        assert(rest[i - 1] == probs[i]);
                    }
                }
            }
        } else {
            assert(!(0 < probs[0] < 0x7F80_0000));
        }
    }
}

/// What [`check_probabilities`], [`clamp_bits`], [`finite`] and [`rank_of`] give.
pub proof fn patterns_are_judged(
    probs: &[u32],
    fault: Option<ProbabilityFault>,
    x: u32,
    is: bool,
    r: i64,
)
    requires
        call_ensures(check_probabilities, (probs,), fault),
        call_ensures(finite, (x,), is),
        call_ensures(rank_of, (x,), r),
    ensures
        fault is None <==> forall|i: int|
            0 <= i < probs@.len() ==> 0 < #[trigger] probs@[i] < 0x7F80_0000,
        is <==> !(0x7F80_0000 <= x < 0x8000_0000 || x >= 0xFF80_0000),
        x < 0x8000_0000 ==> r == x,
        x >= 0x8000_0000 ==> r == 0x8000_0000 - x,
{
    faults_are_found(probs@);
}

} // verus!
