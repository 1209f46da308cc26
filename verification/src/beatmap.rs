//! The chart model: timed hit events parsed from a line-oriented beatmap
//! text, and the timing-window projection that maps an event and a clock
//! position onto vertical screen-space extents.
//!
//! Lines are handed in as plain byte strings by whatever reads the file.
//! Every comma-first line is a hit line and must carry at least six
//! comma-separated fields (`x, y, time, type, hitsound, params`), all
//! numeric, with the event's end time as the first colon-delimited token of
//! the params field; a shorter or non-numeric hit line is a fatal parse
//! error, never a silent skip. A colon-first line is a `Key: value` header;
//! the `AudioFilename` key names the audio track. Anything else is ignored.

use vstd::arithmetic::div_mod::{
    lemma_div_is_ordered, lemma_div_by_multiple, lemma_div_pos_is_pos, lemma_fundamental_div_mod,
    lemma_fundamental_div_mod_converse, lemma_mod_division_less_than_divisor,
};
use vstd::arithmetic::mul::{
    lemma_mul_inequality, lemma_mul_is_commutative, lemma_mul_is_distributive_add_other_way,
    lemma_mul_nonnegative, lemma_mul_upper_bound,
};
use vstd::prelude::*;

verus! {

/// An instantaneous hit event.
#[derive(Debug, PartialEq, Eq, Structural)]
pub struct Note {
    pub x: u32,
    pub y: u32,
    pub time_ms: u64,
    pub typ: u8,
    pub hitsound: u8,
    pub endtime: u64,
}

/// A held hit event, active from `time_ms` to `endtime`.
#[derive(Debug, PartialEq, Eq, Structural)]
pub struct LongNote {
    pub x: u32,
    pub y: u32,
    pub time_ms: u64,
    pub typ: u8,
    pub hitsound: u8,
    pub endtime: u64,
}

/// One timed entry of the chart.
#[derive(Debug, PartialEq, Eq, Structural)]
pub enum HitObject {
    Note(Note),
    LongNote(LongNote),
}

/// The vertical screen-space extent of a visible event, in track
/// coordinates (`0` is the top of the track).
#[derive(Debug, PartialEq, Eq, Structural)]
pub enum Geometry {
    /// An instantaneous event's fixed-size marker anchored at `y`; the
    /// drawer grows it upward and leftward from the anchor.
    Marker { x: u32, y: u64 },
    /// A held event's bar from `top` down for `height`.
    Bar { x: u32, top: u64, height: u64 },
}

/// An instantaneous event is visible while its onset lies inside the
/// lookahead window `(now, now + window]`.
pub open spec fn instant_visible(time_ms: u64, now_ms: u64, window_ms: u64) -> bool {
    now_ms < time_ms <= now_ms + window_ms
}

/// Anchor of a visible instantaneous event: the track's bottom edge when the
/// onset is now, rising linearly to its top edge a full window ahead.
pub open spec fn instant_y(time_ms: u64, now_ms: u64, window_ms: u64, track_height: u64) -> int {
    track_height - (time_ms - now_ms) * track_height / (window_ms as int)
}

/// A held event is visible from the moment its onset enters the lookahead
/// window until its end time has passed.
pub open spec fn held_visible(time_ms: u64, end_ms: u64, now_ms: u64, window_ms: u64) -> bool {
    now_ms + window_ms > time_ms && now_ms < end_ms
}

/// Top edge of a visible held event's bar: the track top while the event's
/// end still lies beyond the window, then sinking as the tail exits.
pub open spec fn held_top(end_ms: u64, now_ms: u64, window_ms: u64, track_height: u64) -> int {
    if end_ms >= now_ms + window_ms {
        0
    } else {
        (now_ms + window_ms - end_ms) * track_height / (window_ms as int)
    }
}

/// Height of a visible held event's bar: the clipped projection of the
/// active interval onto the window, reaching the track bottom once the
/// onset has passed.
pub open spec fn held_height(
    time_ms: u64,
    end_ms: u64,
    now_ms: u64,
    window_ms: u64,
    track_height: u64,
) -> int {
    let top = held_top(end_ms, now_ms, window_ms, track_height);
    if time_ms <= now_ms {
        track_height - top
    } else {
        track_height - (time_ms - now_ms) * track_height / (window_ms as int) - top
    }
}

/// For non-negative `a` and `b`, the floors of `a / d` and `b / d` sum to at
/// most the floor of their sum's quotient.
proof fn lemma_div_sum_le(a: int, b: int, d: int)
    requires
        a >= 0,
        b >= 0,
        d >= 1,
    ensures
        a / d + b / d <= (a + b) / d,
{
    lemma_fundamental_div_mod(a, d);
    lemma_fundamental_div_mod(b, d);
    lemma_mod_division_less_than_divisor(a, d);
    lemma_mod_division_less_than_divisor(b, d);
    lemma_div_pos_is_pos(a, d);
    lemma_div_pos_is_pos(b, d);
    let q = a / d + b / d;
    let r = a % d + b % d;
    assert(d * (a / d) + d * (b / d) == d * q) by {
        vstd::arithmetic::mul::lemma_mul_is_distributive_add(d, a / d, b / d);
    }
    assert(a + b == q * d + r) by {
        lemma_mul_is_commutative(q, d);
    }
    if r < d {
        lemma_fundamental_div_mod_converse(a + b, d, q, r);
    } else {
        assert(a + b == (q + 1) * d + (r - d)) by (nonlinear_arith)
            requires
                a + b == q * d + r,
        ;
        lemma_fundamental_div_mod_converse(a + b, d, q + 1, r - d);
    }
}

/// For `x <= cap`, `x * scale / cap'` with `cap' >= x`'s bound stays at most
/// `scale`: the quotient of a part never exceeds the whole.
proof fn lemma_scaled_le(x: int, cap: int, scale: int)
    requires
        0 <= x <= cap,
        1 <= cap,
        0 <= scale,
    ensures
        0 <= x * scale / cap <= scale,
{
    lemma_mul_inequality(x, cap, scale);
    lemma_div_is_ordered(x * scale, cap * scale, cap);
    lemma_mul_is_commutative(cap, scale);
    lemma_div_by_multiple(scale, cap);
    lemma_mul_nonnegative(x, scale);
    lemma_div_pos_is_pos(x * scale, cap);
}

impl Note {
    /// Projects the event onto the track for the clock position `now_ms`, a
    /// lookahead of `window_ms` and a track of height `track_height`;
    /// `None` when the event is outside the window.
    pub fn project(&self, now_ms: u64, window_ms: u64, track_height: u64) -> (g: Option<Geometry>)
        requires
            window_ms >= 1,
        ensures
            g is Some <==> instant_visible(self.time_ms, now_ms, window_ms),
            instant_visible(self.time_ms, now_ms, window_ms) ==> g == Some(Geometry::Marker {
                x: self.x,
                y: instant_y(self.time_ms, now_ms, window_ms, track_height) as u64,
            }),
    {
        if now_ms < self.time_ms && self.time_ms as u128 <= now_ms as u128 + window_ms as u128 {
            let d = self.time_ms - now_ms;
            proof {
                lemma_mul_upper_bound(d as int, u64::MAX as int, track_height as int, u64::MAX as int);
            }
            let q = d as u128 * track_height as u128 / window_ms as u128;
            proof {
                lemma_scaled_le(d as int, window_ms as int, track_height as int);
            }
            Some(Geometry::Marker { x: self.x, y: track_height - q as u64 })
        } else {
            None
        }
    }
}

impl LongNote {
    /// Projects the held event onto the track: a bar that grows from the
    /// track bottom as the onset approaches, fills the track while held,
    /// and shrinks from the top as the end time exits the window.
    pub fn project(&self, now_ms: u64, window_ms: u64, track_height: u64) -> (g: Option<Geometry>)
        requires
            window_ms >= 1,
            self.time_ms <= self.endtime,
        ensures
            g is Some <==> held_visible(self.time_ms, self.endtime, now_ms, window_ms),
            held_visible(self.time_ms, self.endtime, now_ms, window_ms) ==> g == Some(
                Geometry::Bar {
                    x: self.x,
                    top: held_top(self.endtime, now_ms, window_ms, track_height) as u64,
                    height: held_height(
                        self.time_ms,
                        self.endtime,
                        now_ms,
                        window_ms,
                        track_height,
                    ) as u64,
                },
            ),
    {
        let nw = now_ms as u128 + window_ms as u128;
        if !((self.time_ms as u128) < nw && now_ms < self.endtime) {
            return None;
        }
        let top: u64 = if self.endtime as u128 >= nw {
            0u64
        } else {
            let hd = (nw - self.endtime as u128) as u64;
            proof {
                lemma_mul_upper_bound(
                    hd as int,
                    u64::MAX as int,
                    track_height as int,
                    u64::MAX as int,
                );
            }
            let q = hd as u128 * track_height as u128 / window_ms as u128;
            proof {
                lemma_scaled_le(hd as int, window_ms as int, track_height as int);
            }
            q as u64
        };
        proof {
            if (self.endtime as int) < now_ms + window_ms {
                lemma_scaled_le(
                    (now_ms + window_ms - self.endtime) as int,
                    window_ms as int,
                    track_height as int,
                );
            }
        }
        let height: u64 = if self.time_ms <= now_ms {
            track_height - top
        } else {
            let tl = self.time_ms - now_ms;
            proof {
                lemma_mul_upper_bound(
                    tl as int,
                    u64::MAX as int,
                    track_height as int,
                    u64::MAX as int,
                );
            }
            let q2 = tl as u128 * track_height as u128 / window_ms as u128;
            proof {
                lemma_scaled_le(tl as int, window_ms as int, track_height as int);
                // the bar's top offset and onset offset together stay inside
                // the track: their source intervals tile at most one window
                if self.endtime < now_ms + window_ms {
                    let hd = now_ms + window_ms - self.endtime;
                    lemma_div_sum_le(
                        tl * track_height,
                        hd * track_height,
                        window_ms as int,
                    );
                    lemma_mul_is_distributive_add_other_way(
                        track_height as int,
                        tl as int,
                        hd as int,
                    );
                    lemma_scaled_le((tl + hd) as int, window_ms as int, track_height as int);
                }
            }
            track_height - q2 as u64 - top
        };
        Some(Geometry::Bar { x: self.x, top, height })
    }
}

impl HitObject {
    /// The event's onset time.
    pub fn time_ms(&self) -> (t: u64)
        ensures
            t == (match *self {
                HitObject::Note(n) => n.time_ms,
                HitObject::LongNote(l) => l.time_ms,
            }),
    {
        match self {
            HitObject::Note(n) => n.time_ms,
            HitObject::LongNote(l) => l.time_ms,
        }
    }

    /// Whether the event's times are ordered as projection expects.
    pub open spec fn times_ordered(self) -> bool {
        self matches HitObject::LongNote(l) ==> l.time_ms <= l.endtime
    }

    /// Projects the event for the current clock position, whichever variant
    /// it is.
    pub fn project(&self, now_ms: u64, window_ms: u64, track_height: u64) -> (g: Option<Geometry>)
        requires
            window_ms >= 1,
            self.times_ordered(),
        ensures
            g == (match *self {
                HitObject::Note(n) => if instant_visible(n.time_ms, now_ms, window_ms) {
                    Some(Geometry::Marker {
                        x: n.x,
                        y: instant_y(n.time_ms, now_ms, window_ms, track_height) as u64,
                    })
                } else {
                    None
                },
                HitObject::LongNote(l) => if held_visible(
                    l.time_ms,
                    l.endtime,
                    now_ms,
                    window_ms,
                ) {
                    Some(Geometry::Bar {
                        x: l.x,
                        top: held_top(l.endtime, now_ms, window_ms, track_height) as u64,
                        height: held_height(
                            l.time_ms,
                            l.endtime,
                            now_ms,
                            window_ms,
                            track_height,
                        ) as u64,
                    })
                } else {
                    None
                },
            }),
    {
        match self {
            HitObject::Note(n) => n.project(now_ms, window_ms, track_height),
            HitObject::LongNote(l) => l.project(now_ms, window_ms, track_height),
        }
    }
}

/// First position at or after `from` where `b` occurs in `s`, or `s.len()`
/// when it does not occur there.
pub open spec fn find_byte_from(s: Seq<u8>, b: u8, from: int) -> int
    decreases s.len() - from,
{
    if from < 0 || from >= s.len() {
        s.len() as int
    } else if s[from] == b {
        from
    } else {
        find_byte_from(s, b, from + 1)
    }
}

pub proof fn lemma_find_byte_from(s: Seq<u8>, b: u8, from: int)
    requires
        0 <= from <= s.len(),
    ensures
        from <= find_byte_from(s, b, from) <= s.len(),
        find_byte_from(s, b, from) < s.len() ==> s[find_byte_from(s, b, from)] == b,
        forall|k: int| from <= k < find_byte_from(s, b, from) ==> s[k] != b,
    decreases s.len() - from,
{
    if from < s.len() && s[from] != b {
        lemma_find_byte_from(s, b, from + 1);
    }
}

/// The separator-delimited pieces of `s` from `start` on: separators are
/// consumed, empty pieces are kept, and a trailing separator yields a final
/// empty piece.
pub open spec fn split_bytes_from(s: Seq<u8>, sep: u8, start: int) -> Seq<Seq<u8>>
    decreases s.len() - start,
    via split_bytes_from_decreases
{
    let i = find_byte_from(s, sep, start);
    if i >= s.len() {
        seq![s.subrange(start, s.len() as int)]
    } else {
        seq![s.subrange(start, i)] + split_bytes_from(s, sep, i + 1)
    }
}

#[via_fn]
proof fn split_bytes_from_decreases(s: Seq<u8>, sep: u8, start: int) {
    if 0 <= start <= s.len() {
        lemma_find_byte_from(s, sep, start);
    }
}

/// Scans `line` for `sep` from position `from` on.
pub fn find_byte(line: &Vec<u8>, sep: u8, from: usize) -> (j: usize)
    requires
        from <= line@.len(),
    ensures
        j == find_byte_from(line@, sep, from as int),
{
    let mut j: usize = from;
    while j < line.len()
        invariant
            from <= j <= line@.len(),
            find_byte_from(line@, sep, from as int) == find_byte_from(line@, sep, j as int),
        decreases line@.len() - j,
    {
        if line[j] == sep {
            return j;
        }
        j = j + 1;
    }
    j
}

/// Copies `line[a..b]` into a fresh buffer.
pub fn slice_bytes(line: &Vec<u8>, a: usize, b: usize) -> (out: Vec<u8>)
    requires
        a <= b <= line@.len(),
    ensures
        out@ == line@.subrange(a as int, b as int),
{
    let mut out: Vec<u8> = Vec::new();
    proof {
        assert(out@ =~= line@.subrange(a as int, a as int));
    }
    let mut i: usize = a;
    while i < b
        invariant
            a <= i <= b <= line@.len(),
            out@ == line@.subrange(a as int, i as int),
        decreases b - i,
    {
        out.push(line[i]);
        proof {
            assert(out@ =~= line@.subrange(a as int, i + 1));
        }
        i = i + 1;
    }
    out
}

/// Splits `line` at every occurrence of `sep`.
pub fn split_bytes(line: &Vec<u8>, sep: u8) -> (out: Vec<Vec<u8>>)
    ensures
        out.deep_view() == split_bytes_from(line@, sep, 0),
{
    let mut out: Vec<Vec<u8>> = Vec::new();
    let mut pos: usize = 0;
    loop
        invariant_except_break
            pos <= line@.len(),
            split_bytes_from(line@, sep, 0) == out.deep_view() + split_bytes_from(
                line@,
                sep,
                pos as int,
            ),
        ensures
            out.deep_view() == split_bytes_from(line@, sep, 0),
        decreases line@.len() - pos,
    {
        let j = find_byte(line, sep, pos);
        proof {
            lemma_find_byte_from(line@, sep, pos as int);
        }
        let piece = slice_bytes(line, pos, j);
        let ghost prefix = out.deep_view();
        out.push(piece);
        proof {
            assert(out.deep_view() =~~= prefix.push(piece@));
        }
        if j == line.len() {
            proof {
                assert(prefix.push(piece@) =~~= prefix + seq![piece@]);
                assert(out.deep_view() =~~= split_bytes_from(line@, sep, 0));
            }
            break;
        }
        pos = j + 1;
        proof {
            assert(prefix.push(piece@) =~~= prefix + seq![piece@]);
            assert(split_bytes_from(line@, sep, 0) =~~= out.deep_view() + split_bytes_from(
                line@,
                sep,
                pos as int,
            ));
        }
    }
    out
}

/// Whether `s` consists of ASCII decimal digits only.
pub open spec fn is_digits(s: Seq<u8>) -> bool {
    forall|k: int| 0 <= k < s.len() ==> 48 <= #[trigger] s[k] <= 57
}

/// The number written in decimal by the digits of `s`.
pub open spec fn digits_val(s: Seq<u8>) -> int
    decreases s.len(),
{
    if s.len() == 0 {
        0
    } else {
        digits_val(s.drop_last()) * 10 + (s.last() - 48)
    }
}

/// Whether `s` is a well-formed unsigned decimal that fits in a `u64`.
pub open spec fn parses_as_u64(s: Seq<u8>) -> bool {
    s.len() >= 1 && is_digits(s) && digits_val(s) <= u64::MAX
}

proof fn lemma_digits_val_nonneg(s: Seq<u8>)
    requires
        is_digits(s),
    ensures
        digits_val(s) >= 0,
    decreases s.len(),
{
    if s.len() > 0 {
        lemma_digits_val_nonneg(s.drop_last());
    }
}

/// Reading further digits never decreases the value already read.
proof fn lemma_digits_val_prefix(s: Seq<u8>, i: int)
    requires
        0 <= i <= s.len(),
        is_digits(s),
    ensures
        digits_val(s.take(i)) <= digits_val(s),
    decreases s.len() - i,
{
    if i < s.len() {
        assert(s.take(i + 1).drop_last() =~= s.take(i));
        assert(is_digits(s.take(i)));
        lemma_digits_val_nonneg(s.take(i));
        lemma_digits_val_prefix(s, i + 1);
    } else {
        assert(s.take(i) =~= s);
    }
}

/// Parses an unsigned decimal number; `None` for an empty field, a
/// non-digit byte, or a value past `u64::MAX`.
pub fn parse_u64(field: &Vec<u8>) -> (r: Option<u64>)
    ensures
        match r {
            Some(v) => parses_as_u64(field@) && v == digits_val(field@),
            None => !parses_as_u64(field@),
        },
{
    if field.len() == 0 {
        return None;
    }
    let mut acc: u64 = 0;
    let mut i: usize = 0;
    while i < field.len()
        invariant
            i <= field@.len(),
            forall|k: int| 0 <= k < i ==> 48 <= #[trigger] field@[k] <= 57,
            acc == digits_val(field@.take(i as int)),
        decreases field@.len() - i,
    {
        let ch = field[i];
        if ch < 48 || ch > 57 {
            return None;
        }
        let d = (ch - 48) as u64;
        proof {
            assert(field@.take(i + 1).drop_last() =~= field@.take(i as int));
            lemma_fundamental_div_mod((u64::MAX - d) as int, 10);
        }
        if acc > (u64::MAX - d) / 10 {
            proof {
                if is_digits(field@) {
                    lemma_digits_val_prefix(field@, i + 1);
                }
            }
            return None;
        }
        acc = acc * 10 + d;
        i = i + 1;
    }
    proof {
        assert(field@.take(field@.len() as int) =~= field@);
    }
    Some(acc)
}

/// A fatal chart parse failure.
#[derive(Debug, PartialEq, Eq, Structural)]
pub enum ChartError {
    /// A hit line with fewer than the six required fields.
    TooFewFields,
    /// A numeric field that is empty, non-decimal or out of range.
    BadNumber,
}

/// A line is a hit line when a comma (byte 44) appears before any colon.
pub open spec fn is_hit_line(l: Seq<u8>) -> bool {
    find_byte_from(l, 44, 0) < l.len() && find_byte_from(l, 44, 0) < find_byte_from(l, 58, 0)
}

/// A line is a `Key: value` header when a colon (byte 58) appears before
/// any comma.
pub open spec fn is_header_line(l: Seq<u8>) -> bool {
    find_byte_from(l, 58, 0) < l.len() && find_byte_from(l, 58, 0) < find_byte_from(l, 44, 0)
}

/// The header line's key: everything before its first colon.
pub open spec fn header_key(l: Seq<u8>) -> Seq<u8> {
    l.subrange(0, find_byte_from(l, 58, 0))
}

/// Drops leading spaces (byte 32).
pub open spec fn trim_spaces(s: Seq<u8>) -> Seq<u8>
    decreases s.len(),
{
    if s.len() > 0 && s.first() == 32 {
        trim_spaces(s.drop_first())
    } else {
        s
    }
}

/// The header line's value: everything after its first colon, with the
/// spaces that follow the colon trimmed.
pub open spec fn header_value(l: Seq<u8>) -> Seq<u8> {
    trim_spaces(l.subrange(find_byte_from(l, 58, 0) + 1, l.len() as int))
}

/// The bytes of the header key `AudioFilename`.
pub open spec fn audio_filename_key() -> Seq<u8> {
    seq![65u8, 117u8, 100u8, 105u8, 111u8, 70u8, 105u8, 108u8, 101u8, 110u8, 97u8, 109u8, 101u8]
}

/// The first colon-delimited token of a params field.
pub open spec fn first_colon_token(params: Seq<u8>) -> Seq<u8> {
    params.subrange(0, find_byte_from(params, 58, 0))
}

/// The event denoted by one hit line, or the error it raises: at least six
/// comma-separated fields, all numeric within their widths, the end time
/// read from the params field; the type's bit 128 picks the held variant.
pub open spec fn parse_hit_spec(l: Seq<u8>) -> Result<HitObject, ChartError> {
    let fs = split_bytes_from(l, 44, 0);
    if fs.len() < 6 {
        Err(ChartError::TooFewFields)
    } else if !(parses_as_u64(fs[0]) && digits_val(fs[0]) <= u32::MAX && parses_as_u64(fs[1])
        && digits_val(fs[1]) <= u32::MAX && parses_as_u64(fs[2]) && parses_as_u64(fs[3])
        && digits_val(fs[3]) <= u8::MAX && parses_as_u64(fs[4]) && digits_val(fs[4]) <= u8::MAX
        && parses_as_u64(first_colon_token(fs[5]))) {
        Err(ChartError::BadNumber)
    } else {
        let typ = digits_val(fs[3]) as u8;
        if typ & 128 != 0 {
            Ok(
                HitObject::LongNote(
                    LongNote {
                        x: digits_val(fs[0]) as u32,
                        y: digits_val(fs[1]) as u32,
                        time_ms: digits_val(fs[2]) as u64,
                        typ,
                        hitsound: digits_val(fs[4]) as u8,
                        endtime: digits_val(first_colon_token(fs[5])) as u64,
                    },
                ),
            )
        } else {
            Ok(
                HitObject::Note(
                    Note {
                        x: digits_val(fs[0]) as u32,
                        y: digits_val(fs[1]) as u32,
                        time_ms: digits_val(fs[2]) as u64,
                        typ,
                        hitsound: digits_val(fs[4]) as u8,
                        endtime: digits_val(first_colon_token(fs[5])) as u64,
                    },
                ),
            )
        }
    }
}

/// Abstract value of a parsed chart.
#[verifier::ext_equal]
pub struct ChartModel {
    pub audio_file_name: Seq<u8>,
    pub hitobjects: Seq<HitObject>,
}

/// Effect of one line on the chart built so far: a hit line appends its
/// event or fails the parse, an `AudioFilename` header sets the track name,
/// any other line changes nothing.
pub open spec fn chart_line_step(m: ChartModel, l: Seq<u8>) -> Result<ChartModel, ChartError> {
    if is_hit_line(l) {
        match parse_hit_spec(l) {
            Ok(h) => Ok(ChartModel { hitobjects: m.hitobjects.push(h), ..m }),
            Err(e) => Err(e),
        }
    } else if is_header_line(l) {
        if header_key(l) == audio_filename_key() {
            Ok(ChartModel { audio_file_name: header_value(l), ..m })
        } else {
            Ok(m)
        }
    } else {
        Ok(m)
    }
}

/// The chart denoted by a sequence of lines: a left-to-right fold of
/// `chart_line_step` from the empty chart, stopped by the first error.
pub open spec fn parse_chart_spec(lines: Seq<Seq<u8>>) -> Result<ChartModel, ChartError>
    decreases lines.len(),
{
    if lines.len() == 0 {
        Ok(ChartModel { audio_file_name: Seq::empty(), hitobjects: Seq::empty() })
    } else {
        match parse_chart_spec(lines.drop_last()) {
            Ok(m) => chart_line_step(m, lines.last()),
            Err(e) => Err(e),
        }
    }
}

/// Once a prefix of the input fails to parse, the whole input fails the
/// same way.
proof fn lemma_parse_chart_err_persists(lines: Seq<Seq<u8>>, k: int)
    requires
        0 <= k <= lines.len(),
        parse_chart_spec(lines.take(k)) is Err,
    ensures
        parse_chart_spec(lines) == parse_chart_spec(lines.take(k)),
    decreases lines.len() - k,
{
    if k < lines.len() {
        assert(lines.take(k + 1).drop_last() =~= lines.take(k));
        lemma_parse_chart_err_persists(lines, k + 1);
    } else {
        assert(lines.take(k) =~= lines);
    }
}

/// Compares a header key with `AudioFilename`.
fn is_audio_filename_key(key: &Vec<u8>) -> (r: bool)
    ensures
        r == (key@ == audio_filename_key()),
{
    if key.len() != 13 {
        return false;
    }
    let r = key[0] == 65 && key[1] == 117 && key[2] == 100 && key[3] == 105 && key[4] == 111
        && key[5] == 70 && key[6] == 105 && key[7] == 108 && key[8] == 101 && key[9] == 110
        && key[10] == 97 && key[11] == 109 && key[12] == 101;
    proof {
        if r {
            assert(key@ =~= audio_filename_key());
        }
    }
    r
}

/// Parses a numeric field and checks it against an upper bound.
fn parse_field(field: &Vec<u8>, max: u64) -> (r: Option<u64>)
    ensures
        match r {
            Some(v) => parses_as_u64(field@) && v == digits_val(field@) && v <= max,
            None => !(parses_as_u64(field@) && digits_val(field@) <= max),
        },
{
    match parse_u64(field) {
        Some(v) => if v <= max {
            Some(v)
        } else {
            None
        },
        None => None,
    }
}

/// Parses one hit line into its event.
pub fn parse_hit_line(line: &Vec<u8>) -> (r: Result<HitObject, ChartError>)
    ensures
        r == parse_hit_spec(line@),
{
    let fields = split_bytes(line, 44);
    proof {
        assert forall|k: int| 0 <= k < fields@.len() implies fields.deep_view()[k]
            == fields@[k]@ by {
            assert(fields@[k].deep_view() =~= fields@[k]@);
        }
    }
    if fields.len() < 6 {
        return Err(ChartError::TooFewFields);
    }
    let x = match parse_field(&fields[0], 4294967295u64) {
        Some(v) => v,
        None => {
            return Err(ChartError::BadNumber);
        },
    };
    let y = match parse_field(&fields[1], 4294967295u64) {
        Some(v) => v,
        None => {
            return Err(ChartError::BadNumber);
        },
    };
    let time_ms = match parse_field(&fields[2], u64::MAX) {
        Some(v) => v,
        None => {
            return Err(ChartError::BadNumber);
        },
    };
    let typ64 = match parse_field(&fields[3], 255u64) {
        Some(v) => v,
        None => {
            return Err(ChartError::BadNumber);
        },
    };
    let hitsound = match parse_field(&fields[4], 255u64) {
        Some(v) => v,
        None => {
            return Err(ChartError::BadNumber);
        },
    };
    let cend = find_byte(&fields[5], 58, 0);
    proof {
        lemma_find_byte_from(fields@[5]@, 58, 0);
    }
    let endtok = slice_bytes(&fields[5], 0, cend);
    let endtime = match parse_field(&endtok, u64::MAX) {
        Some(v) => v,
        None => {
            return Err(ChartError::BadNumber);
        },
    };
    let typ = typ64 as u8;
    if typ & 128 != 0 {
        Ok(
            HitObject::LongNote(
                LongNote {
                    x: x as u32,
                    y: y as u32,
                    time_ms,
                    typ,
                    hitsound: hitsound as u8,
                    endtime,
                },
            ),
        )
    } else {
        Ok(
            HitObject::Note(
                Note { x: x as u32, y: y as u32, time_ms, typ, hitsound: hitsound as u8, endtime },
            ),
        )
    }
}

/// The parsed chart: the audio track it names and its ordered hit events.
#[derive(Debug, PartialEq, Eq)]
pub struct BeatMap {
    pub audio_file_name: Vec<u8>,
    pub hitobjects: Vec<HitObject>,
}

impl View for BeatMap {
    type V = ChartModel;

    open spec fn view(&self) -> ChartModel {
        ChartModel { audio_file_name: self.audio_file_name@, hitobjects: self.hitobjects@ }
    }
}

impl BeatMap {
    /// Parses the chart text line by line. The result is exactly the fold
    /// of the line grammar over the input: every hit line contributes one
    /// event in order, the last `AudioFilename` header names the audio
    /// track, and the first malformed line aborts the parse with its error.
    pub fn new(lines: &Vec<Vec<u8>>) -> (r: Result<BeatMap, ChartError>)
        ensures
            match r {
                Ok(b) => parse_chart_spec(lines.deep_view()) == Ok::<ChartModel, ChartError>(b@),
                Err(e) => parse_chart_spec(lines.deep_view()) == Err::<ChartModel, ChartError>(e),
            },
    {
        let ghost ls = lines.deep_view();
        let mut audio_file_name: Vec<u8> = Vec::new();
        let mut hitobjects: Vec<HitObject> = Vec::new();
        let mut i: usize = 0;
        while i < lines.len()
            invariant
                i <= lines@.len(),
                ls == lines.deep_view(),
                parse_chart_spec(ls.take(i as int)) == Ok::<ChartModel, ChartError>(
                    ChartModel { audio_file_name: audio_file_name@, hitobjects: hitobjects@ },
                ),
            decreases lines@.len() - i,
        {
            let line = &lines[i];
            proof {
                assert(ls.take(i + 1).drop_last() =~= ls.take(i as int));
                assert(line@ =~= ls[i as int]);
                assert(ls.take(i + 1).last() == ls[i as int]);
            }
            let comma = find_byte(line, 44, 0);
            let colon = find_byte(line, 58, 0);
            proof {
                lemma_find_byte_from(line@, 44, 0);
                lemma_find_byte_from(line@, 58, 0);
            }
            if comma < line.len() && comma < colon {
                match parse_hit_line(line) {
                    Ok(h) => {
                        hitobjects.push(h);
                    },
                    Err(e) => {
                        proof {
                            lemma_parse_chart_err_persists(ls, i + 1);
                        }
                        return Err(e);
                    },
                }
            } else if colon < line.len() && colon < comma {
                let key = slice_bytes(line, 0, colon);
                let mut vstart: usize = colon + 1;
                while vstart < line.len() && line[vstart] == 32
                    invariant
                        colon + 1 <= vstart <= line@.len(),
                        trim_spaces(line@.subrange(colon + 1, line@.len() as int)) == trim_spaces(
                            line@.subrange(vstart as int, line@.len() as int),
                        ),
                    decreases line@.len() - vstart,
                {
                    proof {
                        assert(line@.subrange(vstart as int, line@.len() as int).drop_first()
                            =~= line@.subrange(vstart + 1, line@.len() as int));
                    }
                    vstart = vstart + 1;
                }
                let value = slice_bytes(line, vstart, line.len());
                proof {
                    assert(value@ == header_value(line@));
                }
                if is_audio_filename_key(&key) {
                    audio_file_name = value;
                }
            }
            i = i + 1;
            proof {
                assert(parse_chart_spec(ls.take(i as int)) matches Ok(m) && m =~= (ChartModel {
                    audio_file_name: audio_file_name@,
                    hitobjects: hitobjects@,
                }));
            }
        }
        proof {
            assert(ls.take(lines@.len() as int) =~= ls);
        }
        Ok(BeatMap { audio_file_name, hitobjects })
    }
}

} // verus!
