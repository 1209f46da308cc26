//! Playback engine state: the cursor that a real-time output callback
//! advances through the sample buffer, and the observer lists it serves.
//!
//! The device callback itself lives outside the library; for every block it
//! asks for, it calls [`PlaybackState::fill_block`] under the state's lock
//! (emitting silence itself when the lock is contended) and then invokes the
//! closures whose tokens come back in the two `fire_*` lists. Observers are
//! carried here as plain tokens so that every decision about when they fire
//! is verified; the mapping from token to closure stays with the caller.

use vstd::prelude::*;

verus! {

/// Mathematical model of the playback state.
#[verifier::ext_equal]
pub struct PlaybackModel {
    pub time: int,
    pub samples: Seq<i64>,
    pub sample_rate: int,
    pub changed_cbs: Seq<u64>,
    pub changed_cbs_triggered_at: int,
    pub done_cbs: Seq<u64>,
}

impl PlaybackModel {
    /// The cursor stays inside the buffer, the throttle point never leads
    /// the cursor, and once the end is reached no done observer is left
    /// waiting.
    pub open spec fn wf(self) -> bool {
        &&& 0 <= self.time <= self.samples.len()
        &&& 0 <= self.changed_cbs_triggered_at <= self.time
        &&& 0 <= self.sample_rate
        &&& self.time == self.samples.len() ==> self.done_cbs.len() == 0
    }

    /// Cursor advance below which the changed observers stay silent.
    pub open spec fn threshold(self) -> int {
        self.sample_rate / 100
    }

    /// The cursor after a callback that asked for `frames` frames: one
    /// sample per frame, clamped to the end of the buffer.
    pub open spec fn stepped_time(self, frames: nat) -> int {
        if self.time + frames <= self.samples.len() {
            self.time + frames
        } else {
            self.samples.len() as int
        }
    }

    /// Whether this callback reaches the end of the buffer.
    pub open spec fn step_fires_done(self, frames: nat) -> bool {
        self.stepped_time(frames) >= self.samples.len()
    }

    /// Whether the cursor has passed the throttle point by at least
    /// `sample_rate / 100` samples after this callback.
    pub open spec fn step_fires_changed(self, frames: nat) -> bool {
        self.stepped_time(frames) >= self.changed_cbs_triggered_at + self.threshold()
    }

    /// The state after one callback: the cursor advances, a firing of the
    /// done observers empties their list, and a firing of the changed
    /// observers moves the throttle point to the new cursor.
    pub open spec fn step(self, frames: nat) -> PlaybackModel {
        PlaybackModel {
            time: self.stepped_time(frames),
            done_cbs: if self.step_fires_done(frames) {
                Seq::empty()
            } else {
                self.done_cbs
            },
            changed_cbs_triggered_at: if self.step_fires_changed(frames) {
                self.stepped_time(frames)
            } else {
                self.changed_cbs_triggered_at
            },
            ..self
        }
    }

    /// The done observers invoked by one callback.
    pub open spec fn step_done_fired(self, frames: nat) -> Seq<u64> {
        if self.step_fires_done(frames) {
            self.done_cbs
        } else {
            Seq::empty()
        }
    }

    /// The changed observers invoked by one callback.
    pub open spec fn step_changed_fired(self, frames: nat) -> Seq<u64> {
        if self.step_fires_changed(frames) {
            self.changed_cbs
        } else {
            Seq::empty()
        }
    }
}

/// The state after a sequence of callbacks asking for the given block sizes.
pub open spec fn run_blocks(s: PlaybackModel, blocks: Seq<nat>) -> PlaybackModel
    decreases blocks.len(),
{
    if blocks.len() == 0 {
        s
    } else {
        run_blocks(s.step(blocks.first()), blocks.drop_first())
    }
}

/// All done-observer firings of such a sequence, in order.
pub open spec fn run_done_fired(s: PlaybackModel, blocks: Seq<nat>) -> Seq<u64>
    decreases blocks.len(),
{
    if blocks.len() == 0 {
        Seq::empty()
    } else {
        s.step_done_fired(blocks.first()) + run_done_fired(
            s.step(blocks.first()),
            blocks.drop_first(),
        )
    }
}

/// One callback preserves well-formedness and never rewinds the cursor.
pub proof fn lemma_step_preserves_wf(s: PlaybackModel, frames: nat)
    requires
        s.wf(),
    ensures
        s.step(frames).wf(),
        s.time <= s.step(frames).time <= s.samples.len(),
        s.step(frames).samples == s.samples,
        s.step(frames).sample_rate == s.sample_rate,
        s.step(frames).changed_cbs == s.changed_cbs,
{
}

/// The cursor is monotonically non-decreasing across any sequence of
/// callback invocations and never exceeds the buffer length.
pub proof fn lemma_cursor_monotone(s: PlaybackModel, blocks: Seq<nat>)
    requires
        s.wf(),
    ensures
        run_blocks(s, blocks).wf(),
        s.time <= run_blocks(s, blocks).time <= s.samples.len(),
        run_blocks(s, blocks).samples == s.samples,
        run_blocks(s, blocks).sample_rate == s.sample_rate,
        s.changed_cbs_triggered_at <= run_blocks(s, blocks).changed_cbs_triggered_at,
    decreases blocks.len(),
{
    if blocks.len() > 0 {
        lemma_step_preserves_wf(s, blocks.first());
        lemma_cursor_monotone(s.step(blocks.first()), blocks.drop_first());
    }
}

/// A run over the concatenation of two block sequences is the second run
/// started from where the first ended.
proof fn lemma_run_append(s: PlaybackModel, a: Seq<nat>, b: Seq<nat>)
    ensures
        run_blocks(s, a + b) == run_blocks(run_blocks(s, a), b),
    decreases a.len(),
{
    if a.len() == 0 {
        assert(a + b =~= b);
    } else {
        assert((a + b).first() == a.first());
        assert((a + b).drop_first() =~= a.drop_first() + b);
        lemma_run_append(s.step(a.first()), a.drop_first(), b);
    }
}

/// Appending one block to a run is one more step.
proof fn lemma_run_snoc(s: PlaybackModel, blocks: Seq<nat>, b: nat)
    ensures
        run_blocks(s, blocks.push(b)) == run_blocks(s, blocks).step(b),
    decreases blocks.len(),
{
    if blocks.len() == 0 {
        assert(blocks.push(b).first() == b);
        assert(blocks.push(b).drop_first() =~= Seq::<nat>::empty());
        assert(run_blocks(s.step(b), Seq::<nat>::empty()) == s.step(b));
    } else {
        assert(blocks.push(b).first() == blocks.first());
        assert(blocks.push(b).drop_first() =~= blocks.drop_first().push(b));
        lemma_run_snoc(s.step(blocks.first()), blocks.drop_first(), b);
    }
}

/// The done observers fire exactly once: over any sequence of callbacks,
/// the concatenation of all done firings is exactly the registered list if
/// playback reached the end of the buffer, and empty otherwise. In
/// particular no token is handed out twice, however many callbacks follow
/// completion.
pub proof fn lemma_done_fired_once(s: PlaybackModel, blocks: Seq<nat>)
    requires
        s.wf(),
    ensures
        run_done_fired(s, blocks) == (if run_blocks(s, blocks).time
            == s.samples.len() as int {
            s.done_cbs
        } else {
            Seq::<u64>::empty()
        }),
    decreases blocks.len(),
{
    if blocks.len() == 0 {
        if s.time == s.samples.len() {
            assert(s.done_cbs =~= Seq::<u64>::empty());
        }
    } else {
        let f = blocks.first();
        let s1 = s.step(f);
        lemma_step_preserves_wf(s, f);
        lemma_cursor_monotone(s1, blocks.drop_first());
        lemma_done_fired_once(s1, blocks.drop_first());
        assert(run_done_fired(s, blocks) =~= s.step_done_fired(f) + run_done_fired(
            s1,
            blocks.drop_first(),
        ));
        if s.step_fires_done(f) {
            assert(s1.time == s.samples.len());
            assert(run_blocks(s1, blocks.drop_first()).time == s.samples.len());
            assert(run_done_fired(s, blocks) =~= s.done_cbs);
        } else {
            assert(run_done_fired(s, blocks) =~= run_done_fired(s1, blocks.drop_first()));
        }
    }
}

/// No callback fires the changed observers before the cursor has advanced
/// `sample_rate / 100` samples past the throttle point it started from.
pub proof fn lemma_changed_first_firing(s: PlaybackModel, blocks: Seq<nat>, j: int)
    requires
        s.wf(),
        0 <= j < blocks.len(),
        run_blocks(s, blocks.take(j)).step_fires_changed(blocks[j] as nat),
    ensures
        run_blocks(s, blocks.take(j + 1)).time >= s.changed_cbs_triggered_at + s.threshold(),
{
    let sj = run_blocks(s, blocks.take(j));
    lemma_cursor_monotone(s, blocks.take(j));
    assert(blocks.take(j + 1) =~= blocks.take(j).push(blocks[j]));
    lemma_run_snoc(s, blocks.take(j), blocks[j] as nat);
}

/// Any two firings of the changed observers within one run of callbacks are
/// separated by a cursor advance of at least `sample_rate / 100` samples:
/// after the earlier firing, once per threshold increment is all there is.
pub proof fn lemma_changed_throttle_spacing(s: PlaybackModel, blocks: Seq<nat>, i: int, j: int)
    requires
        s.wf(),
        0 <= i < j < blocks.len(),
        run_blocks(s, blocks.take(i)).step_fires_changed(blocks[i] as nat),
        run_blocks(s, blocks.take(j)).step_fires_changed(blocks[j] as nat),
    ensures
        run_blocks(s, blocks.take(j + 1)).time >= run_blocks(s, blocks.take(i + 1)).time
            + s.threshold(),
{
    let si = run_blocks(s, blocks.take(i));
    lemma_cursor_monotone(s, blocks.take(i));
    assert(blocks.take(i + 1) =~= blocks.take(i).push(blocks[i]));
    lemma_run_snoc(s, blocks.take(i), blocks[i] as nat);
    let si1 = run_blocks(s, blocks.take(i + 1));
    // the firing at step i moves the throttle point to the cursor
    assert(si1.changed_cbs_triggered_at == si1.time);
    lemma_step_preserves_wf(si, blocks[i] as nat);
    // the throttle point never moves backwards up to step j
    assert(blocks.take(j) =~= blocks.take(i + 1) + blocks.subrange(i + 1, j));
    lemma_run_append(s, blocks.take(i + 1), blocks.subrange(i + 1, j));
    let sj = run_blocks(s, blocks.take(j));
    lemma_cursor_monotone(si1, blocks.subrange(i + 1, j));
    assert(sj.changed_cbs_triggered_at >= si1.time);
    // and the firing at step j demands a full threshold past it
    assert(blocks.take(j + 1) =~= blocks.take(j).push(blocks[j]));
    lemma_run_snoc(s, blocks.take(j), blocks[j] as nat);
}

/// The playback cursor and observer bookkeeping, shared (behind a lock the
/// caller owns) between the output callback and the registration API.
pub struct PlaybackState {
    pub time: usize,
    pub samples: Vec<i64>,
    pub changed_cbs: Vec<u64>,
    pub changed_cbs_triggered_at: usize,
    pub done_cbs: Vec<u64>,
    pub sample_rate: usize,
}

impl View for PlaybackState {
    type V = PlaybackModel;

    open spec fn view(&self) -> PlaybackModel {
        PlaybackModel {
            time: self.time as int,
            samples: self.samples@,
            sample_rate: self.sample_rate as int,
            changed_cbs: self.changed_cbs@,
            changed_cbs_triggered_at: self.changed_cbs_triggered_at as int,
            done_cbs: self.done_cbs@,
        }
    }
}

/// What one callback hands back: the interleaved output block and the
/// tokens of the observers to invoke, in registration order.
pub struct BlockOutput {
    pub samples: Vec<i64>,
    pub fire_done: Vec<u64>,
    pub fire_changed: Vec<u64>,
}

impl PlaybackState {
    /// A fresh state with the cursor at the start and no observers.
    pub fn new(samples: Vec<i64>, sample_rate: usize) -> (s: PlaybackState)
        ensures
            s@ == (PlaybackModel {
                time: 0,
                samples: samples@,
                sample_rate: sample_rate as int,
                changed_cbs: Seq::empty(),
                changed_cbs_triggered_at: 0,
                done_cbs: Seq::empty(),
            }),
            s@.wf(),
    {
        PlaybackState {
            time: 0,
            samples,
            changed_cbs: Vec::new(),
            changed_cbs_triggered_at: 0,
            done_cbs: Vec::new(),
            sample_rate,
        }
    }

    /// Registers a changed observer; it will be throttled to at most one
    /// firing per `sample_rate / 100` samples of cursor advance.
    pub fn connect_changed(&mut self, token: u64)
        ensures
            final(self)@ == (PlaybackModel {
                changed_cbs: old(self)@.changed_cbs.push(token),
                ..old(self)@
            }),
            old(self)@.wf() ==> final(self)@.wf(),
    {
        self.changed_cbs.push(token);
    }

    /// Registers a done observer. If playback has already finished the
    /// observer must fire immediately: that is reported back instead of
    /// recording the token, so it can never fire a second time.
    pub fn connect_done(&mut self, token: u64) -> (fired: bool)
        ensures
            fired == (old(self)@.time >= old(self)@.samples.len()),
            fired ==> final(self)@ == old(self)@,
            !fired ==> final(self)@ == (PlaybackModel {
                done_cbs: old(self)@.done_cbs.push(token),
                ..old(self)@
            }),
            old(self)@.wf() ==> final(self)@.wf(),
    {
        if self.time >= self.samples.len() {
            true
        } else {
            self.done_cbs.push(token);
            false
        }
    }

    /// One output callback: fills a block of `frames` frames across
    /// `channels` channels with the sample under the cursor (silence past
    /// the end), advances the cursor one sample per frame, and reports which
    /// observers to invoke.
    pub fn fill_block(&mut self, frames: usize, channels: usize) -> (out: BlockOutput)
        requires
            old(self)@.wf(),
            old(self).time + frames <= usize::MAX,
            frames * channels <= usize::MAX,
        ensures
            final(self)@ == old(self)@.step(frames as nat),
            final(self)@.wf(),
            out.fire_done@ == old(self)@.step_done_fired(frames as nat),
            out.fire_changed@ == old(self)@.step_changed_fired(frames as nat),
            out.samples@.len() == frames * channels,
            forall|k: int|
                0 <= k < frames * channels ==> #[trigger] out.samples@[k] == (if old(self)@.time
                    + k / (channels as int) < old(self)@.samples.len() {
                    old(self)@.samples[old(self)@.time + k / (channels as int)]
                } else {
                    0i64
                }),
            forall|f: int, c: int|
                0 <= f < frames && 0 <= c < channels ==> #[trigger] out.samples@[f * channels + c]
                    == (if old(self)@.time + f < old(self)@.samples.len() {
                    old(self)@.samples[old(self)@.time + f]
                } else {
                    0i64
                }),
    {
        let len = self.samples.len();
        let total = frames * channels;
        let mut buf: Vec<i64> = Vec::new();
        let mut k: usize = 0;
        while k < total
            invariant
                len == self.samples@.len(),
                *self == *old(self),
                self.time + frames <= usize::MAX,
                total == frames * channels,
                k <= total,
                buf@.len() == k,
                forall|j: int|
                    0 <= j < k ==> buf@[j] == (if self@.time + j / (channels as int)
                        < self@.samples.len() {
                        self@.samples[self@.time + j / (channels as int)]
                    } else {
                        0i64
                    }),
            decreases total - k,
        {
            proof {
                if channels == 0 {
                    assert(frames * channels == 0) by (nonlinear_arith)
                        requires
                            channels == 0,
                    ;
                    assert(false);
                }
                // k / channels addresses a frame the cursor can reach
                vstd::arithmetic::div_mod::lemma_div_is_ordered(
                    k as int,
                    total - 1,
                    channels as int,
                );
                assert(frames * channels - 1 == (frames - 1) * channels + (channels - 1))
                    by (nonlinear_arith);
                vstd::arithmetic::div_mod::lemma_fundamental_div_mod_converse(
                    total - 1,
                    channels as int,
                    frames as int - 1,
                    channels as int - 1,
                );
                vstd::arithmetic::div_mod::lemma_div_pos_is_pos(k as int, channels as int);
            }
            let fi = k / channels;
            let v = if self.time + fi < len {
                self.samples[self.time + fi]
            } else {
                0i64
            };
            buf.push(v);
            k = k + 1;
        }
        proof {
            assert forall|fj: int, c: int|
                0 <= fj < frames && 0 <= c < channels implies #[trigger] buf@[fj * channels + c]
                == (if old(
                self,
            )@.time + fj < old(self)@.samples.len() {
                old(self)@.samples[old(self)@.time + fj]
            } else {
                0i64
            }) by {
                vstd::arithmetic::mul::lemma_mul_inequality(fj + 1, frames as int, channels as int);
                assert((fj + 1) * channels == fj * channels + channels) by (nonlinear_arith);
                vstd::arithmetic::mul::lemma_mul_nonnegative(fj, channels as int);
                vstd::arithmetic::div_mod::lemma_fundamental_div_mod_converse(
                    fj * channels + c,
                    channels as int,
                    fj,
                    c,
                );
            }
        }
        let new_time = if self.time + frames <= len {
            self.time + frames
        } else {
            len
        };
        self.time = new_time;
        let fire_done: Vec<u64>;
        if new_time >= len {
            fire_done = crate::copy_vec(&self.done_cbs);
            self.done_cbs = Vec::new();
        } else {
            fire_done = Vec::new();
        }
        let threshold = self.sample_rate / 100;
        let fire_changed: Vec<u64>;
        if new_time as u128 >= self.changed_cbs_triggered_at as u128 + threshold as u128 {
            fire_changed = crate::copy_vec(&self.changed_cbs);
            self.changed_cbs_triggered_at = new_time;
        } else {
            fire_changed = Vec::new();
        }
        proof {
            assert(self@ =~= old(self)@.step(frames as nat));
        }
        BlockOutput { samples: buf, fire_done, fire_changed }
    }
}

} // verus!
