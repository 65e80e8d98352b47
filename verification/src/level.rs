//! Samples and levels as IEEE 754 binary32 patterns, compared as their values.
use vstd::prelude::*;

verus! {

/// The first binary32 pattern with the sign bit set.
pub const SIGN_32: u32 = 0x8000_0000;

/// The binary32 pattern of positive infinity.
pub const INFINITY_32: u32 = 0x7F80_0000;

/// A binary32 value, by its pattern.
#[derive(Copy, Clone, Debug, PartialEq, Eq, Structural)]
pub struct Binary32 {
    /// The sign bit, the exponent field and the fraction field.
    pub bits: u32,
}

/// A level as it was given: its value, and the text that shows it.
#[derive(Debug)]
pub struct Level {
    /// The value.
    pub value: Binary32,
    /// The value in decimal, as messages show it.
    pub text: String,
}

impl Binary32 {
    /// Whether the pattern is not a number.
    pub open spec fn is_nan(self) -> bool {
        self.bits % SIGN_32 > INFINITY_32
    }

    /// A number that orders patterns as the values they stand for: the pattern
    /// without its sign bit, negated where that bit is set.
    pub open spec fn rank(self) -> int {
        if self.bits < SIGN_32 {
            self.bits as int
        } else {
            SIGN_32 - self.bits
        }
    }

    /// Whether the value is zero or greater; negative zero is zero.
    pub open spec fn is_non_negative(self) -> bool {
        !self.is_nan() && self.rank() >= 0
    }

    /// Whether both are numbers and this one is not less than the other.
    pub open spec fn at_least(self, other: Binary32) -> bool {
        !self.is_nan() && !other.is_nan() && self.rank() >= other.rank()
    }

    /// The value without its sign.
    pub open spec fn magnitude(self) -> Binary32 {
        Binary32 { bits: (self.bits % SIGN_32) as u32 }
    }

    /// Whether the value is zero or greater.
    pub fn non_negative(self) -> (r: bool)
        ensures
            r == self.is_non_negative(),
    {
        self.bits <= INFINITY_32 || self.bits == SIGN_32
    }

    /// The value without its sign.
    pub fn abs(self) -> (r: Binary32)
        ensures
            r == self.magnitude(),
    {
        Binary32 { bits: self.bits % SIGN_32 }
    }

    /// Whether this value is a number that reaches `level`.
    pub fn reaches(self, level: Binary32) -> (r: bool)
        ensures
            r == self.at_least(level),
    {
        if self.bits % SIGN_32 > INFINITY_32 || level.bits % SIGN_32 > INFINITY_32 {
            false
        } else if self.bits < SIGN_32 {
            if level.bits < SIGN_32 {
                self.bits >= level.bits
            } else {
                true
            }
        } else if level.bits < SIGN_32 {
            self.bits == SIGN_32 && level.bits == 0
        } else {
            self.bits <= level.bits
        }
    }
}

/// Zero, the sample of silence.
pub open spec fn silence() -> Binary32 {
    Binary32 { bits: 0 }
}

/// The loudest magnitude among the samples, passing over what is not a number.
pub open spec fn peak(samples: Seq<Binary32>) -> Binary32
    decreases samples.len(),
{
    if samples.len() == 0 {
        silence()
    } else {
        let before = peak(samples.drop_last());
        let last = samples.last().magnitude();
        if !last.is_nan() && last.bits > before.bits {
            last
        } else {
            before
        }
    }
}

/// Peak absolute sample value of a buffer.
pub fn peak_abs(samples: &[Binary32]) -> (r: Binary32)
    ensures
        r == peak(samples@),
{
    let mut m: Binary32 = Binary32 { bits: 0 };
    let mut i: usize = 0;
    while i < samples.len()
        invariant
            i <= samples.len(),
            m == peak(samples@.take(i as int)),
        decreases samples.len() - i,
    {
        let s = samples[i].abs();
        proof {
            assert(samples@.take(i + 1).drop_last() =~= samples@.take(i as int));
        }
        if s.bits <= INFINITY_32 && s.bits > m.bits {
            m = s;
        }
        i += 1;
    }
    assert(samples@.take(i as int) =~= samples@);
    m
}

/// Whether a measured peak counts as audible sound.
pub fn is_sounding(peak: Binary32, threshold: Binary32) -> (r: bool)
    ensures
        r == peak.at_least(threshold),
{
    peak.reaches(threshold)
}

/// The peak is the greatest magnitude: every sample that is a number stays at or
/// below it, and a nonzero peak is the magnitude of some sample.
pub proof fn lemma_peak_is_greatest(samples: Seq<Binary32>)
    ensures
        !peak(samples).is_nan(),
        peak(samples).bits < SIGN_32,
        forall|i: int|
            0 <= i < samples.len() && !samples[i].is_nan() ==> #[trigger] samples[i].magnitude().bits
                <= peak(samples).bits,
        peak(samples) == silence() || exists|i: int|
            0 <= i < samples.len() && #[trigger] samples[i].magnitude() == peak(samples),
    decreases samples.len(),
{
    if samples.len() > 0 {
        let front = samples.drop_last();
        lemma_peak_is_greatest(front);
        assert forall|i: int| 0 <= i < samples.len() && !samples[i].is_nan() implies
            #[trigger] samples[i].magnitude().bits <= peak(samples).bits by {
            if i < front.len() {
                assert(front[i] == samples[i]);
                assert(front[i].magnitude().bits <= peak(front).bits);
            }
        }
        if peak(samples) != silence() {
            let last = samples.last().magnitude();
            if peak(samples) == last {
                assert(samples[samples.len() - 1].magnitude() == peak(samples));
            } else {
                let i = choose|i: int|
                    0 <= i < front.len() && #[trigger] front[i].magnitude() == peak(front);
                assert(samples[i].magnitude() == peak(samples));
            }
        }
    }
}

} // verus!
