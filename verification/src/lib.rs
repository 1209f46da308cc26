//! Core of a time-scrolling rhythm display driven by live spectral analysis
//! of an audio track.
//!
//! The verified library holds the logic of the system: the mono sample
//! buffer and its linear-interpolation resampler, the playback cursor state
//! machine with its observer lists, the spectral windowing and normalization
//! steps, and the chart model with its line parser and timing-window
//! projector. Device output, audio decoding, the FFT itself and all drawing
//! are thin unverified collaborators that hand this library plain values.
//!
//! Amplitudes are carried as fixed-point integers chosen by the caller; the
//! library never interprets their scale, it only moves, interpolates and
//! windows them.

pub mod beatmap;
pub mod clip;
pub mod playback;
pub mod spectrum;

use vstd::prelude::*;

verus! {

/// Copies a buffer of plain values element by element.
pub(crate) fn copy_vec<T: Copy>(v: &Vec<T>) -> (out: Vec<T>)
    ensures
        out@ == v@,
{
    let mut out: Vec<T> = Vec::new();
    let mut i: usize = 0;
    while i < v.len()
        invariant
            i <= v@.len(),
            out@ == v@.take(i as int),
        decreases v@.len() - i,
    {
        out.push(v[i]);
        proof {
            assert(out@ =~= v@.take(i + 1));
        }
        i = i + 1;
    }
    proof {
        assert(v@.take(v@.len() as int) =~= v@);
    }
    out
}

} // verus!
