//! The mono audio clip and the operations that produce it: the stride
//! down-mix applied to each decoded packet, the per-packet import decision,
//! and linear-interpolation resampling to a device rate.
//!
//! Decoding itself (container probing, codec work) happens outside the
//! library; it hands over each packet's interleaved samples as plain
//! fixed-point integers and receives the action to take for that packet.

use vstd::arithmetic::div_mod::{
    lemma_div_by_multiple, lemma_div_is_ordered, lemma_fundamental_div_mod,
    lemma_fundamental_div_mod_converse, lemma_mod_multiples_basic,
};
use vstd::arithmetic::mul::{
    lemma_mul_inequality, lemma_mul_is_commutative, lemma_mul_upper_bound,
};
use vstd::prelude::*;

verus! {

/// A decoded track: mono fixed-point amplitudes at a given sample rate.
pub struct AudioClip {
    pub name: String,
    pub samples: Vec<i64>,
    pub sample_rate: u32,
}

/// Number of mono samples produced by a stride down-mix of `len` interleaved
/// samples over `channels` channels: one per started frame.
pub open spec fn downmix_len(len: int, channels: int) -> int {
    (len + channels - 1) / channels
}

/// The stride down-mix: the first channel's sample of every frame.
pub open spec fn downmix_spec(s: Seq<i64>, channels: int) -> Seq<i64> {
    Seq::new(downmix_len(s.len() as int, channels) as nat, |j: int| s[j * channels])
}

/// Value of the signal linearly interpolated between `a` and `b` at the
/// fraction `num / den`, rounded toward `a`.
pub open spec fn lerp(a: i64, b: i64, num: int, den: int) -> int {
    if b >= a {
        a + (b - a) * num / den
    } else {
        a - (a - b) * num / den
    }
}

/// Sample `j` of the clip resampled from rate `src` to rate `tgt`: the
/// source is read at position `j * src / tgt` and interpolated between the
/// two samples around that position (the last sample past the end).
pub open spec fn resampled_at(samples: Seq<i64>, src: int, tgt: int, j: int) -> int {
    let pos = j * src;
    let idx = pos / tgt;
    let a = samples[idx];
    let b = if idx + 1 < samples.len() {
        samples[idx + 1]
    } else {
        samples[idx]
    };
    lerp(a, b, pos % tgt, tgt)
}

/// What the importer does with one unit of decoder output.
pub enum PacketEvent {
    /// A packet of this clip's track decoded into interleaved samples.
    Decoded { interleaved: Vec<i64>, channels: usize },
    /// A packet that belongs to another track of the container.
    WrongTrack,
    /// A packet the decoder could not make sense of.
    CorruptPacket,
    /// The source has no further packets.
    EndOfStream,
    /// Any other I/O or container failure.
    Fatal,
}

/// The importer's reaction to one `PacketEvent`.
#[derive(Debug, PartialEq, Eq)]
pub enum ImportAction {
    /// Extend the clip with these mono samples.
    Append { mono: Vec<i64> },
    /// Ignore this packet and continue with the next one.
    Skip,
    /// End the import successfully.
    Finish,
    /// Abort the import and surface the failure.
    Abort,
}

/// Down-mixes interleaved samples to mono by taking every `channels`-th
/// sample: the first channel of each frame, no averaging.
pub fn downmix_stride(interleaved: &Vec<i64>, channels: usize) -> (mono: Vec<i64>)
    requires
        channels >= 1,
        interleaved@.len() + channels <= usize::MAX,
    ensures
        mono@ == downmix_spec(interleaved@, channels as int),
{
    let len = interleaved.len();
    let mut mono: Vec<i64> = Vec::new();
    proof {
        assert(mono@.len() * channels == 0) by (nonlinear_arith)
            requires
                mono@.len() == 0,
        ;
    }
    let mut i: usize = 0;
    while i < len
        invariant
            channels >= 1,
            len == interleaved@.len(),
            len + channels <= usize::MAX,
            i == mono@.len() * channels,
            mono@.len() >= 1 ==> (mono@.len() - 1) * channels < len,
            forall|j: int| 0 <= j < mono@.len() ==> mono@[j] == interleaved@[j * channels],
        decreases len + channels - i,
    {
        mono.push(interleaved[i]);
        i = i + channels;
        proof {
            let m = mono@.len() as int;
            assert(m * channels == (m - 1) * channels + channels) by (nonlinear_arith);
            assert(mono@[m - 1] == interleaved@[(m - 1) * channels]);
        }
    }
    proof {
        let m = mono@.len() as int;
        let ch = channels as int;
        let l = len as int;
        // every index the loop read was in range, and the next one is not
        assert forall|j: int| 0 <= j < m implies #[trigger] (j * ch) < l by {
            lemma_mul_inequality(j, m - 1, ch);
        }
        // m * ch sits in [l, l + ch), so m == (l + ch - 1) / ch
        if m >= 1 {
            assert(m * ch == (m - 1) * ch + ch) by (nonlinear_arith);
        }
        assert(l <= m * ch < l + ch);
        lemma_fundamental_div_mod_converse(l + ch - 1, ch, m, l + ch - 1 - m * ch);
        assert(m == downmix_len(l, ch));
        vstd::arithmetic::div_mod::lemma_div_pos_is_pos(l + ch - 1, ch);
        assert(mono@ =~= downmix_spec(interleaved@, ch));
    }
    mono
}

/// Decides what the import loop does with one decoder outcome: decoded
/// packets are down-mixed and appended, corrupt or foreign packets are
/// skipped, end of stream finishes the import, anything else aborts it.
pub fn import_step(ev: PacketEvent) -> (act: ImportAction)
    requires
        ev matches PacketEvent::Decoded { interleaved, channels } ==> channels >= 1
            && interleaved@.len() + channels <= usize::MAX,
    ensures
        match ev {
            PacketEvent::Decoded { interleaved, channels } => act matches ImportAction::Append {
                mono,
            } && mono@ == downmix_spec(interleaved@, channels as int),
            PacketEvent::WrongTrack => act is Skip,
            PacketEvent::CorruptPacket => act is Skip,
            PacketEvent::EndOfStream => act is Finish,
            PacketEvent::Fatal => act is Abort,
        },
{
    match ev {
        PacketEvent::Decoded { interleaved, channels } => ImportAction::Append {
            mono: downmix_stride(&interleaved, channels),
        },
        PacketEvent::WrongTrack => ImportAction::Skip,
        PacketEvent::CorruptPacket => ImportAction::Skip,
        PacketEvent::EndOfStream => ImportAction::Finish,
        PacketEvent::Fatal => ImportAction::Abort,
    }
}

impl AudioClip {
    /// Resamples the clip to `sample_rate` by linear interpolation at the
    /// rate ratio, yielding `floor(len * target / source)` samples; the same
    /// rate returns an equivalent clip.
    pub fn resample(&self, sample_rate: u32) -> (out: AudioClip)
        requires
            self.sample_rate >= 1,
            self.samples@.len() * sample_rate <= usize::MAX,
        ensures
            out.sample_rate == sample_rate,
            out.name == self.name,
            out.samples@.len() == self.samples@.len() * sample_rate / (self.sample_rate as int),
            self.sample_rate == sample_rate ==> out.samples@ == self.samples@,
            forall|j: int|
                0 <= j < out.samples@.len() ==> out.samples@[j] == resampled_at(
                    self.samples@,
                    self.sample_rate as int,
                    sample_rate as int,
                    j,
                ),
    {
        let len = self.samples.len();
        let src = self.sample_rate as usize;
        let tgt = sample_rate as usize;
        if self.sample_rate == sample_rate {
            let samples = crate::copy_vec(&self.samples);
            proof {
                lemma_div_by_multiple(len as int, src as int);
                lemma_mul_is_commutative(len as int, src as int);
                assert forall|j: int| 0 <= j < len implies self.samples@[j] == resampled_at(
                    self.samples@,
                    src as int,
                    src as int,
                    j,
                ) by {
                    lemma_div_by_multiple(j, src as int);
                    lemma_mod_multiples_basic(j, src as int);
                    lemma_mul_is_commutative(j, src as int);
                    assert(j * src / (src as int) == j);
                    assert(j * src % (src as int) == 0);
                }
            }
            return AudioClip { name: self.name.clone(), samples, sample_rate };
        }
        proof {
            lemma_mul_is_commutative(len as int, tgt as int);
        }
        let out_len = len * tgt / src;
        let mut samples: Vec<i64> = Vec::new();
        let mut j: usize = 0;
        while j < out_len
            invariant
                src >= 1,
                len == self.samples@.len(),
                len * tgt <= usize::MAX,
                out_len == len * tgt / (src as int),
                samples@.len() == j,
                j <= out_len,
                forall|k: int|
                    0 <= k < j ==> samples@[k] == resampled_at(
                        self.samples@,
                        src as int,
                        tgt as int,
                        k,
                    ),
            decreases out_len - j,
        {
            proof {
                // j * src stays within the source's index budget
                lemma_mul_inequality(j + 1, out_len as int, src as int);
                lemma_fundamental_div_mod(len * tgt, src as int);
                lemma_mul_is_commutative(out_len as int, src as int);
                assert((j + 1) * src <= len * tgt);
                vstd::arithmetic::mul::lemma_mul_is_distributive_add_other_way(
                    src as int,
                    j as int,
                    1,
                );
                assert(j * src + src <= len * tgt);
            }
            let pos = j * src;
            proof {
                // a zero-length source or zero target rate has no output samples
                if tgt == 0 || len == 0 {
                    assert(len * tgt == 0) by (nonlinear_arith)
                        requires
                            tgt == 0 || len == 0,
                    ;
                    vstd::arithmetic::div_mod::lemma_basic_div(0, src as int);
                    assert(false);
                }
                // pos / tgt indexes an existing source sample
                assert(pos < len * tgt);
                lemma_div_is_ordered(pos as int, len * tgt - 1, tgt as int);
                assert(len * tgt - 1 == (len - 1) * tgt + (tgt - 1)) by (nonlinear_arith);
                lemma_fundamental_div_mod_converse(len * tgt - 1, tgt as int, len - 1, tgt - 1);
                assert(pos as int / (tgt as int) <= len - 1);
                vstd::arithmetic::div_mod::lemma_div_pos_is_pos(pos as int, tgt as int);
                vstd::arithmetic::div_mod::lemma_mod_division_less_than_divisor(
                    pos as int,
                    tgt as int,
                );
            }
            let idx = pos / tgt;
            let num = pos % tgt;
            let a = self.samples[idx];
            let b = if idx + 1 < len {
                self.samples[idx + 1]
            } else {
                a
            };
            let v = lerp_exec(a, b, num as u64, tgt as u64);
            samples.push(v);
            j = j + 1;
        }
        AudioClip { name: self.name.clone(), samples, sample_rate }
    }
}

/// Interpolates between `a` and `b` at the fraction `num / den`.
fn lerp_exec(a: i64, b: i64, num: u64, den: u64) -> (v: i64)
    requires
        1 <= den,
        num < den,
    ensures
        v == lerp(a, b, num as int, den as int),
        a <= b ==> a <= v <= b,
        b < a ==> b <= v <= a,
{
    if b >= a {
        let delta = (b as i128 - a as i128) as u128;
        proof {
            lemma_mul_upper_bound(delta as int, u64::MAX as int, num as int, u64::MAX as int);
        }
        let q = delta * num as u128 / den as u128;
        proof {
            lemma_mul_inequality(num as int, den as int, delta as int);
            lemma_mul_is_commutative(num as int, delta as int);
            lemma_mul_is_commutative(den as int, delta as int);
            lemma_div_is_ordered(delta * num, delta * den, den as int);
            lemma_div_by_multiple(delta as int, den as int);
            assert(q <= delta);
            vstd::arithmetic::div_mod::lemma_div_pos_is_pos(delta * num, den as int);
        }
        (a as i128 + q as i128) as i64
    } else {
        let delta = (a as i128 - b as i128) as u128;
        proof {
            lemma_mul_upper_bound(delta as int, u64::MAX as int, num as int, u64::MAX as int);
        }
        let q = delta * num as u128 / den as u128;
        proof {
            lemma_mul_inequality(num as int, den as int, delta as int);
            lemma_mul_is_commutative(num as int, delta as int);
            lemma_mul_is_commutative(den as int, delta as int);
            lemma_div_is_ordered(delta * num, delta * den, den as int);
            lemma_div_by_multiple(delta as int, den as int);
            assert(q <= delta);
            vstd::arithmetic::div_mod::lemma_div_pos_is_pos(delta * num, den as int);
        }
        (a as i128 - q as i128) as i64
    }
}

} // verus!
