//! Spectral-analysis support: the time-indexed window copy that feeds the
//! forward transform, and the normalization of the resulting magnitude bins.
//!
//! The transform itself runs outside the library on floating-point data; the
//! library prepares its input window and fixes the meaning of the normalized
//! output: every bin is scaled so that the loudest bin maps to 800 and a
//! silent spectrum stays all-zero, with the divisor clamped to at least 1.

use vstd::arithmetic::div_mod::{lemma_div_is_ordered, lemma_div_by_multiple};
use vstd::arithmetic::mul::lemma_mul_inequality;
use vstd::prelude::*;

verus! {

/// Scale target for the loudest bin of a normalized spectrum.
pub const SPECTRUM_PEAK: u64 = 800;

/// Largest value among the magnitude bins, 0 for an empty spectrum.
pub open spec fn max_bin(s: Seq<u64>) -> int
    decreases s.len(),
{
    if s.len() == 0 {
        0
    } else if max_bin(s.drop_last()) >= s.last() {
        max_bin(s.drop_last())
    } else {
        s.last() as int
    }
}

/// The divisor used by normalization: the loudest bin, clamped to at least 1
/// so that a silent spectrum never divides by zero.
pub open spec fn clamped_max_bin(s: Seq<u64>) -> int {
    if max_bin(s) >= 1 {
        max_bin(s)
    } else {
        1
    }
}

pub proof fn lemma_max_bin_ge(s: Seq<u64>, i: int)
    requires
        0 <= i < s.len(),
    ensures
        s[i] <= max_bin(s),
    decreases s.len(),
{
    if i < s.len() - 1 {
        lemma_max_bin_ge(s.drop_last(), i);
    }
}

/// Copies the window of `len` samples that starts at `start` out of a
/// snapshot of the playback buffer; positions past the end read as silence.
pub fn window_slice(samples: &Vec<i64>, start: usize, len: usize) -> (out: Vec<i64>)
    requires
        start + len <= usize::MAX,
    ensures
        out@.len() == len,
        forall|i: int|
            0 <= i < len ==> out@[i] == (if start + i < samples@.len() {
                samples@[start + i]
            } else {
                0i64
            }),
{
    let mut out: Vec<i64> = Vec::new();
    let mut i: usize = 0;
    while i < len
        invariant
            i <= len,
            start + len <= usize::MAX,
            out@.len() == i,
            forall|k: int|
                0 <= k < i ==> out@[k] == (if start + k < samples@.len() {
                    samples@[start + k]
                } else {
                    0i64
                }),
        decreases len - i,
    {
        if start + i < samples.len() {
            out.push(samples[start + i]);
        } else {
            out.push(0i64);
        }
        i = i + 1;
    }
    out
}

/// Scales every magnitude bin by `SPECTRUM_PEAK / max(1, loudest bin)`, so
/// the loudest bin maps to `SPECTRUM_PEAK` and silence maps to all zeros.
pub fn normalize_spectrum(bins: &Vec<u64>) -> (out: Vec<u64>)
    ensures
        out@.len() == bins@.len(),
        forall|i: int|
            0 <= i < bins@.len() ==> out@[i] == bins@[i] * SPECTRUM_PEAK / clamped_max_bin(
                bins@,
            ),
        (forall|i: int| 0 <= i < bins@.len() ==> bins@[i] == 0) ==> (forall|i: int|
            0 <= i < out@.len() ==> out@[i] == 0),
{
    let mut max: u64 = 0;
    let mut i: usize = 0;
    while i < bins.len()
        invariant
            i <= bins@.len(),
            max == max_bin(bins@.take(i as int)),
        decreases bins@.len() - i,
    {
        proof {
            assert(bins@.take(i + 1).drop_last() =~= bins@.take(i as int));
        }
        if bins[i] > max {
            max = bins[i];
        }
        i = i + 1;
    }
    proof {
        assert(bins@.take(bins@.len() as int) =~= bins@);
    }
    if max == 0 {
        max = 1;
    }
    let mut out: Vec<u64> = Vec::new();
    let mut i: usize = 0;
    while i < bins.len()
        invariant
            i <= bins@.len(),
            max == clamped_max_bin(bins@),
            out@.len() == i,
            forall|k: int|
                0 <= k < i ==> out@[k] == bins@[k] * SPECTRUM_PEAK / clamped_max_bin(bins@),
        decreases bins@.len() - i,
    {
        let scaled: u128 = bins[i] as u128 * SPECTRUM_PEAK as u128 / max as u128;
        proof {
            lemma_max_bin_ge(bins@, i as int);
            lemma_mul_inequality(bins@[i as int] as int, max as int, SPECTRUM_PEAK as int);
            lemma_div_is_ordered(
                bins@[i as int] * SPECTRUM_PEAK,
                max * SPECTRUM_PEAK,
                max as int,
            );
            lemma_div_by_multiple(SPECTRUM_PEAK as int, max as int);
        }
        out.push(scaled as u64);
        i = i + 1;
    }
    out
}

} // verus!
