//! Threshold capability, per sample representation: the zero-crossing
//! (silence baseline), the maximum magnitude used as the full-scale
//! reference, and the per-sample silence classification.
//!
//! A sample is quieter than a dBFS threshold `t` exactly when its magnitude
//! is at most `full_scale * 10^(t / 20)`, since
//! `dbfs = 20 * log10(magnitude / full_scale)` is monotone in the magnitude.
//! The caller turns its threshold into that integer cutoff once (a floating
//! point step that lives outside this crate), and every per-sample comparison
//! stays in integers here.
//!
//! The unsigned 8-bit representation compares its raw value against the
//! cutoff rather than the distance from its 127 zero-crossing, mirroring the
//! dBFS conversion, which divides |value| by the maximum without subtracting
//! the offset; that known quirk is preserved deliberately.

use vstd::prelude::*;

verus! {

pub trait Threshold: Sized + Copy {
    /// The representation's silence baseline.
    spec fn spec_zero_crossing() -> Self;

    /// The representation's maximum magnitude (the full-scale reference).
    spec fn spec_max_val() -> Self;

    /// The magnitude compared against a full-scale cutoff.
    spec fn spec_magnitude(self) -> nat;

    /// The representation's zero crossing.
    fn zero_crossing() -> (r: Self)
        ensures
            r == Self::spec_zero_crossing(),
    ;

    /// The representation's maximum value.
    fn max_val() -> (r: Self)
        ensures
            r == Self::spec_max_val(),
    ;

    /// Whether this sample sits exactly on the zero crossing.
    fn is_zero(self) -> (r: bool)
        ensures
            r == (self == Self::spec_zero_crossing()),
    ;

    /// The sample's magnitude.
    fn magnitude(self) -> (r: u64)
        ensures
            r as nat == self.spec_magnitude(),
    ;

    /// Whether the sample counts as silent against a full-scale cutoff.
    fn is_silent(self, cutoff: u64) -> (r: bool)
        ensures
            r == (self.spec_magnitude() <= cutoff as nat),
    ;
}

impl Threshold for u8 {
    open spec fn spec_zero_crossing() -> u8 {
        127
    }

    open spec fn spec_max_val() -> u8 {
        u8::MAX
    }

    open spec fn spec_magnitude(self) -> nat {
        self as nat
    }

    fn zero_crossing() -> u8 {
        127
    }

    fn max_val() -> u8 {
        u8::MAX
    }

    fn is_zero(self) -> bool {
        self == 127
    }

    fn magnitude(self) -> u64 {
        self as u64
    }

    fn is_silent(self, cutoff: u64) -> bool {
        self as u64 <= cutoff
    }
}

impl Threshold for i16 {
    open spec fn spec_zero_crossing() -> i16 {
        0
    }

    open spec fn spec_max_val() -> i16 {
        i16::MAX
    }

    open spec fn spec_magnitude(self) -> nat {
        if self < 0 {
            (-(self as int)) as nat
        } else {
            self as nat
        }
    }

    fn zero_crossing() -> i16 {
        0
    }

    fn max_val() -> i16 {
        i16::MAX
    }

    fn is_zero(self) -> bool {
        self == 0
    }

    fn magnitude(self) -> u64 {
        let wide = self as i64;
        if wide < 0 {
            (-wide) as u64
        } else {
            wide as u64
        }
    }

    fn is_silent(self, cutoff: u64) -> bool {
        self.magnitude() <= cutoff
    }
}

impl Threshold for i32 {
    open spec fn spec_zero_crossing() -> i32 {
        0
    }

    open spec fn spec_max_val() -> i32 {
        i32::MAX
    }

    open spec fn spec_magnitude(self) -> nat {
        if self < 0 {
            (-(self as int)) as nat
        } else {
            self as nat
        }
    }

    fn zero_crossing() -> i32 {
        0
    }

    fn max_val() -> i32 {
        i32::MAX
    }

    fn is_zero(self) -> bool {
        self == 0
    }

    fn magnitude(self) -> u64 {
        let wide = self as i64;
        if wide < 0 {
            (-wide) as u64
        } else {
            wide as u64
        }
    }

    fn is_silent(self, cutoff: u64) -> bool {
        self.magnitude() <= cutoff
    }
}

/// Classifies every sample of a buffer against a full-scale magnitude cutoff:
/// entry `i` is true exactly when sample `i` is silent.
pub fn silence_mask<T: Threshold>(samples: &[T], cutoff: u64) -> (mask: Vec<bool>)
    ensures
        mask@.len() == samples@.len(),
        forall|i: int|
            0 <= i < samples@.len() ==> #[trigger] mask@[i] == (samples@[i].spec_magnitude()
                <= cutoff as nat),
{
    let n = samples.len();
    let mut mask: Vec<bool> = Vec::new();
    let mut i: usize = 0;
    while i < n
        invariant
            n == samples@.len(),
            0 <= i <= n,
            mask@.len() == i,
            forall|j: int|
                0 <= j < i ==> #[trigger] mask@[j] == (samples@[j].spec_magnitude()
                    <= cutoff as nat),
        decreases n - i,
    {
        let x = *vstd::slice::slice_index_get(samples, i);
        mask.push(x.is_silent(cutoff));
        i += 1;
    }
    mask
}

} // verus!
