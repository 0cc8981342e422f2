//! The importer for the legacy line-oriented chart text format.
//!
//! The text (after its fixed 3-byte marker, which the caller strips) is
//! split on measure separators — the byte sequence `\n--` — into a metadata
//! block followed by measures. Metadata lines are split once on `=`;
//! recognized keys fill the descriptive fields, and a `t` key whose value
//! holds no `-` is read as a fixed-point BPM (three fractional digits kept,
//! scaled by [`crate::chart::BPM_SCALE`]). Each measure's note rows (four lane characters
//! followed by `|` somewhere in the line) share the measure's ticks evenly:
//! `resolution * 4 / row count`, truncating. Per lane, `1` emits a tap, a
//! run of `2`s becomes a hold emitted at the first following non-`2`, and
//! the run state carries across rows and measures. A measure without note
//! rows advances no ticks.
use crate::chart::{
    intervals_wf, BeatInfo, BeatInfoView, Chart, ChartView, DoubleEvent, Interval, LaserSection,
    MetaInfo, MetaInfoView, NoteInfo, NoteInfoView,
};
use vstd::prelude::*;

verus! {

/// Why legacy chart text was refused. Both cases are recoverable and carry
/// enough to report the offending place.
#[derive(Clone, Copy, Debug, PartialEq, Eq)]
pub enum KshParseError {
    /// A `t=` value in the metadata block (at the given line of that block)
    /// is not a plain decimal number.
    BadBpm { line: usize },
    /// The tick cursor left the 32-bit grid — a machine limit, not part of
    /// the format.
    TickOverflow,
}

// ---------------------------------------------------------------------------
// Splitting the text
// ---------------------------------------------------------------------------

/// A measure separator (`\n--`) starts at byte `i`.
pub open spec fn sep_at(s: Seq<u8>, i: int) -> bool {
    0 <= i && i + 3 <= s.len() && s[i] == 10 && s[i + 1] == 45 && s[i + 2] == 45
}

/// The first separator position at or after `i`, or the text length when
/// none is left.
pub open spec fn first_sep_from(s: Seq<u8>, i: int) -> int
    decreases s.len() - i when 0 <= i <= s.len()
{
    if i + 3 > s.len() {
        s.len() as int
    } else if sep_at(s, i) {
        i
    } else {
        first_sep_from(s, i + 1)
    }
}

/// The first position of byte `b` at or after `i`, or the length.
pub open spec fn first_byte_from(s: Seq<u8>, i: int, b: u8) -> int
    decreases s.len() - i when 0 <= i <= s.len()
{
    if i >= s.len() {
        s.len() as int
    } else if s[i] == b {
        i
    } else {
        first_byte_from(s, i + 1, b)
    }
}

/// The text from `off` on, split on measure separators.
pub open spec fn split_parts_from(s: Seq<u8>, off: int) -> Seq<Seq<u8>>
    decreases s.len() - off when 0 <= off <= s.len()
{
    let p = first_sep_from(s, off);
    if off <= p && p + 3 <= s.len() {
        seq![s.subrange(off, p)] + split_parts_from(s, p + 3)
    } else {
        seq![s.subrange(off, s.len() as int)]
    }
}

/// A line with one trailing carriage return removed.
pub open spec fn trim_cr(l: Seq<u8>) -> Seq<u8> {
    if l.len() > 0 && l.last() == 13 {
        l.drop_last()
    } else {
        l
    }
}

/// The text from `off` on, split into lines at `\n`, each stripped of one
/// trailing carriage return; a trailing newline yields no empty final line.
pub open spec fn split_lines_from(s: Seq<u8>, off: int) -> Seq<Seq<u8>>
    decreases s.len() - off when 0 <= off <= s.len()
{
    if off >= s.len() {
        Seq::empty()
    } else {
        let p = first_byte_from(s, off, 10);
        if off <= p && p < s.len() {
            seq![trim_cr(s.subrange(off, p))] + split_lines_from(s, p + 1)
        } else {
            seq![trim_cr(s.subrange(off, s.len() as int))]
        }
    }
}

// ---------------------------------------------------------------------------
// The metadata block
// ---------------------------------------------------------------------------

pub open spec fn is_digit(b: u8) -> bool {
    48 <= b <= 57
}

pub open spec fn all_digits(s: Seq<u8>) -> bool {
    forall|i: int| 0 <= i < s.len() ==> is_digit(#[trigger] s[i])
}

/// The number a run of decimal digit bytes denotes.
pub open spec fn digits_val(s: Seq<u8>) -> int
    decreases s.len(),
{
    if s.len() == 0 {
        0
    } else {
        digits_val(s.drop_last()) * 10 + (s.last() - 48)
    }
}

pub open spec fn pow10(n: nat) -> int
    decreases n,
{
    if n == 0 {
        1
    } else {
        10 * pow10((n - 1) as nat)
    }
}

pub proof fn lemma_digits_val_bound(s: Seq<u8>)
    requires
        all_digits(s),
    ensures
        0 <= digits_val(s) < pow10(s.len()),
    decreases s.len(),
{
    if s.len() > 0 {
        assert(all_digits(s.drop_last())) by {
            assert(forall|i: int| 0 <= i < s.len() - 1 ==> s.drop_last()[i] == s[i]);
        }
        lemma_digits_val_bound(s.drop_last());
    }
}

/// The first three fractional digits, scaled to thousandths.
pub open spec fn frac3(s: Seq<u8>) -> int {
    if s.len() >= 3 {
        digits_val(s.take(3))
    } else if s.len() == 2 {
        digits_val(s) * 10
    } else if s.len() == 1 {
        digits_val(s) * 100
    } else {
        0
    }
}

/// The fixed-point BPM a metadata value denotes: decimal digits with at
/// most one point, at least one digit, at most 15 integer digits; the value
/// in [`crate::chart::BPM_SCALE`] units, fractional digits past the third
/// dropped.
pub open spec fn parse_bpm(v: Seq<u8>) -> Option<u64> {
    let d = first_byte_from(v, 0, 46);
    let ip = v.subrange(0, d);
    let fp = if d < v.len() {
        v.subrange(d + 1, v.len() as int)
    } else {
        Seq::empty()
    };
    if all_digits(ip) && all_digits(fp) && ip.len() + fp.len() > 0 && ip.len() <= 15 {
        Some((digits_val(ip) * 1000 + frac3(fp)) as u64)
    } else {
        None
    }
}

/// Whether a `t=` value is a range (holds a `-`) and is therefore ignored.
pub open spec fn has_dash(v: Seq<u8>) -> bool {
    exists|i: int| 0 <= i < v.len() && #[trigger] v[i] == 45
}

pub open spec fn key_is_title(l: Seq<u8>, e: int) -> bool {
    e == 5 && l[0] == 116 && l[1] == 105 && l[2] == 116 && l[3] == 108 && l[4] == 101
}

pub open spec fn key_is_artist(l: Seq<u8>, e: int) -> bool {
    e == 6 && l[0] == 97 && l[1] == 114 && l[2] == 116 && l[3] == 105 && l[4] == 115 && l[5]
        == 116
}

pub open spec fn key_is_effect(l: Seq<u8>, e: int) -> bool {
    e == 6 && l[0] == 101 && l[1] == 102 && l[2] == 102 && l[3] == 101 && l[4] == 99 && l[5]
        == 116
}

pub open spec fn key_is_jacket(l: Seq<u8>, e: int) -> bool {
    e == 6 && l[0] == 106 && l[1] == 97 && l[2] == 99 && l[3] == 107 && l[4] == 101 && l[5] == 116
}

pub open spec fn key_is_illustrator(l: Seq<u8>, e: int) -> bool {
    e == 11 && l[0] == 105 && l[1] == 108 && l[2] == 108 && l[3] == 117 && l[4] == 115 && l[5]
        == 116 && l[6] == 114 && l[7] == 97 && l[8] == 116 && l[9] == 111 && l[10] == 114
}

pub open spec fn key_is_t(l: Seq<u8>, e: int) -> bool {
    e == 1 && l[0] == 116
}

/// Folding the metadata block from line `i` on: lines without `=` and
/// unrecognized keys are skipped, recognized keys fill their fields, and a
/// non-range `t` value must parse as a BPM.
pub open spec fn meta_fold_from(
    m: MetaInfoView,
    bpm: Seq<DoubleEvent>,
    ls: Seq<Seq<u8>>,
    i: int,
) -> Result<(MetaInfoView, Seq<DoubleEvent>), KshParseError>
    decreases ls.len() - i when 0 <= i <= ls.len()
{
    if i >= ls.len() {
        Ok((m, bpm))
    } else {
        let l = ls[i];
        let e = first_byte_from(l, 0, 61);
        if e >= l.len() {
            meta_fold_from(m, bpm, ls, i + 1)
        } else {
            let value = l.subrange(e + 1, l.len() as int);
            if key_is_title(l, e) {
                meta_fold_from(MetaInfoView { title: value, ..m }, bpm, ls, i + 1)
            } else if key_is_artist(l, e) {
                meta_fold_from(MetaInfoView { artist: value, ..m }, bpm, ls, i + 1)
            } else if key_is_effect(l, e) {
                meta_fold_from(MetaInfoView { chart_author: value, ..m }, bpm, ls, i + 1)
            } else if key_is_jacket(l, e) {
                meta_fold_from(MetaInfoView { jacket_filename: value, ..m }, bpm, ls, i + 1)
            } else if key_is_illustrator(l, e) {
                meta_fold_from(MetaInfoView { jacket_author: value, ..m }, bpm, ls, i + 1)
            } else if key_is_t(l, e) {
                if has_dash(value) {
                    meta_fold_from(m, bpm, ls, i + 1)
                } else {
                    match parse_bpm(value) {
                        None => Err(KshParseError::BadBpm { line: i as usize }),
                        Some(v) => meta_fold_from(
                            m,
                            bpm.push(DoubleEvent { y: 0, v }),
                            ls,
                            i + 1,
                        ),
                    }
                }
            } else {
                meta_fold_from(m, bpm, ls, i + 1)
            }
        }
    }
}

// ---------------------------------------------------------------------------
// The measures
// ---------------------------------------------------------------------------

/// Four lane characters in `0`..`2` followed by `|` start at byte `j`.
pub open spec fn is_note_at(l: Seq<u8>, j: int) -> bool {
    &&& 0 <= j && j + 5 <= l.len()
    &&& 48 <= l[j] <= 50
    &&& 48 <= l[j + 1] <= 50
    &&& 48 <= l[j + 2] <= 50
    &&& 48 <= l[j + 3] <= 50
    &&& l[j + 4] == 124
}

/// A note row: some window of the line matches the row pattern.
pub open spec fn note_line(l: Seq<u8>) -> bool {
    exists|j: int| is_note_at(l, j)
}

/// How many of the first `i` lines are note rows.
pub open spec fn count_notes_upto(ls: Seq<Seq<u8>>, i: int) -> int
    decreases i,
{
    if i <= 0 {
        0
    } else {
        count_notes_upto(ls, i - 1) + if note_line(ls[i - 1]) {
            1int
        } else {
            0int
        }
    }
}

/// The per-lane state of the importer between rows.
#[verifier::ext_equal]
pub ghost struct MeasureState {
    /// The tick cursor.
    pub y: u32,
    /// The last character seen per lane.
    pub last: Seq<u8>,
    /// Where the current hold run started, per lane.
    pub long: Seq<u32>,
    /// The notes emitted so far, per lane.
    pub bt: Seq<Seq<Interval>>,
}

/// What one lane of a row emits: a finished hold at the first non-`2`
/// after a run of `2`s, and a tap for `1`.
pub open spec fn lane_emit(lane: Seq<Interval>, last: u8, ch: u8, y: u32, long_y: u32) -> Seq<
    Interval,
> {
    let with_hold = if ch != 50 && last == 50 {
        lane.push(Interval { y: long_y, l: (y - long_y) as u32 })
    } else {
        lane
    };
    if ch == 49 {
        with_hold.push(Interval { y, l: 0 })
    } else {
        with_hold
    }
}

/// Where a lane's hold run starts after this row: the first `2` after a
/// non-`2` remembers the current tick.
pub open spec fn lane_long(last: u8, ch: u8, y: u32, long_y: u32) -> u32 {
    if ch == 50 && last != 50 {
        y
    } else {
        long_y
    }
}

/// What one row does to the measure state: nothing for a non-note row;
/// otherwise each lane steps and the cursor advances by the row's ticks.
pub open spec fn line_step(st: MeasureState, l: Seq<u8>, tpl: u32) -> Result<
    MeasureState,
    KshParseError,
> {
    if !note_line(l) {
        Ok(st)
    } else if st.y + tpl > u32::MAX {
        Err(KshParseError::TickOverflow)
    } else {
        Ok(
            MeasureState {
                y: (st.y + tpl) as u32,
                last: seq![l[0], l[1], l[2], l[3]],
                long: seq![
                    lane_long(st.last[0], l[0], st.y, st.long[0]),
                    lane_long(st.last[1], l[1], st.y, st.long[1]),
                    lane_long(st.last[2], l[2], st.y, st.long[2]),
                    lane_long(st.last[3], l[3], st.y, st.long[3]),
                ],
                bt: seq![
                    lane_emit(st.bt[0], st.last[0], l[0], st.y, st.long[0]),
                    lane_emit(st.bt[1], st.last[1], l[1], st.y, st.long[1]),
                    lane_emit(st.bt[2], st.last[2], l[2], st.y, st.long[2]),
                    lane_emit(st.bt[3], st.last[3], l[3], st.y, st.long[3]),
                ],
            },
        )
    }
}

/// Folding one measure's lines from index `i` on.
pub open spec fn lines_fold(st: MeasureState, ls: Seq<Seq<u8>>, tpl: u32, i: int) -> Result<
    MeasureState,
    KshParseError,
>
    decreases ls.len() - i when 0 <= i <= ls.len()
{
    if i >= ls.len() {
        Ok(st)
    } else {
        match line_step(st, ls[i], tpl) {
            Err(e) => Err(e),
            Ok(st2) => lines_fold(st2, ls, tpl, i + 1),
        }
    }
}

/// Folding the measures from part `i` on: a measure without note rows is
/// skipped without advancing the cursor; otherwise each row consumes
/// `resolution * 4 / row count` ticks, truncating.
pub open spec fn measures_fold(st: MeasureState, parts: Seq<Seq<u8>>, res: u32, i: int) -> Result<
    MeasureState,
    KshParseError,
>
    decreases parts.len() - i when 0 <= i <= parts.len()
{
    if i >= parts.len() {
        Ok(st)
    } else {
        let ls = split_lines_from(parts[i], 0);
        let cnt = count_notes_upto(ls, ls.len() as int);
        if cnt == 0 {
            measures_fold(st, parts, res, i + 1)
        } else {
            let tpl = ((res * 4) / cnt) as u32;
            match lines_fold(st, ls, tpl, 0) {
                Err(e) => Err(e),
                Ok(st2) => measures_fold(st2, parts, res, i + 1),
            }
        }
    }
}

/// The importer's starting state: cursor at 0, every lane outside a hold
/// run and empty.
pub open spec fn init_measure_state() -> MeasureState {
    MeasureState {
        y: 0,
        last: seq![48u8, 48u8, 48u8, 48u8],
        long: seq![0u32, 0u32, 0u32, 0u32],
        bt: seq![Seq::empty(), Seq::empty(), Seq::empty(), Seq::empty()],
    }
}

/// The chart denoted by legacy chart text (after the 3-byte marker):
/// the rules above written out — split on measure separators, the metadata
/// keys, BPM as fixed point, the per-lane note state machine, ticks per
/// row = `resolution * 4 / row count`, truncating.
pub open spec fn from_ksh_spec(text: Seq<u8>) -> Result<ChartView, KshParseError> {
    let parts = split_parts_from(text, 0);
    let meta_ls = split_lines_from(parts[0], 0);
    match meta_fold_from(MetaInfo::new_spec(), Seq::empty(), meta_ls, 0) {
        Err(e) => Err(e),
        Ok((m, bpm)) => match measures_fold(init_measure_state(), parts, 240, 1) {
            Err(e) => Err(e),
            Ok(st) => Ok(
                ChartView {
                    meta: m,
                    note: NoteInfoView {
                        bt: st.bt,
                        fx: seq![Seq::empty(), Seq::empty()],
                        laser: seq![Seq::empty(), Seq::empty()],
                    },
                    beat: BeatInfoView { bpm, resolution: 240 },
                },
            ),
        },
    }
}

// ---------------------------------------------------------------------------
// Executable scanning
// ---------------------------------------------------------------------------

/// Finds the first occurrence of `b` at or after `from`.
#[verifier::loop_isolation(false)]
fn find_byte(s: &Vec<u8>, from: usize, b: u8) -> (p: usize)
    requires
        from <= s@.len(),
    ensures
        p == first_byte_from(s@, from as int, b),
        from <= p <= s@.len(),
        p < s@.len() ==> s@[p as int] == b,
{
    let mut i = from;
    while i < s.len()
        invariant
            from <= i <= s@.len(),
            first_byte_from(s@, i as int, b) == first_byte_from(s@, from as int, b),
        decreases s@.len() - i,
    {
        if s[i] == b {
            return i;
        }
        i = i + 1;
    }
    i
}

/// Finds the first measure separator at or after `from`; the text length
/// means none is left.
#[verifier::loop_isolation(false)]
fn find_sep(s: &Vec<u8>, from: usize) -> (p: usize)
    requires
        from <= s@.len(),
    ensures
        p == first_sep_from(s@, from as int),
        from <= p <= s@.len(),
        p + 3 <= s@.len() ==> sep_at(s@, p as int),
        p + 3 > s@.len() ==> p == s@.len(),
{
    let mut i = from;
    while s.len() >= 3 && i <= s.len() - 3
        invariant
            from <= i <= s@.len(),
            first_sep_from(s@, i as int) == first_sep_from(s@, from as int),
        decreases s@.len() - i,
    {
        if s[i] == 10 && s[i + 1] == 45 && s[i + 2] == 45 {
            return i;
        }
        i = i + 1;
    }
    proof {
        assert(first_sep_from(s@, i as int) == s@.len());
    }
    s.len()
}

/// An exact copy of the bytes in `[a, b)`.
#[verifier::loop_isolation(false)]
fn copy_range(s: &Vec<u8>, a: usize, b: usize) -> (r: Vec<u8>)
    requires
        a <= b <= s@.len(),
    ensures
        r@ == s@.subrange(a as int, b as int),
{
    let mut r: Vec<u8> = Vec::new();
    let mut i = a;
    while i < b
        invariant
            a <= i <= b,
            r@ =~= s@.subrange(a as int, i as int),
        decreases b - i,
    {
        r.push(s[i]);
        i = i + 1;
    }
    proof {
        assert(r@ =~= s@.subrange(a as int, b as int));
    }
    r
}

/// Splits the whole text on measure separators.
#[verifier::loop_isolation(false)]
fn split_parts_exec(s: &Vec<u8>) -> (r: Vec<Vec<u8>>)
    ensures
        r@.map_values(|v: Vec<u8>| v@) == split_parts_from(s@, 0),
        r@.len() >= 1,
{
    let mut done: Vec<Vec<u8>> = Vec::new();
    let mut off: usize = 0;
    loop
        invariant
            off <= s@.len(),
            split_parts_from(s@, 0) =~= done@.map_values(|v: Vec<u8>| v@) + split_parts_from(
                s@,
                off as int,
            ),
        decreases s@.len() - off,
    {
        let p = find_sep(s, off);
        if p < s.len() {
            proof {
                assert(p + 3 <= s@.len());
            }
            let part = copy_range(s, off, p);
            done.push(part);
            proof {
                assert(done@.map_values(|v: Vec<u8>| v@) =~= done@.drop_last().map_values(
                    |v: Vec<u8>| v@,
                ).push(s@.subrange(off as int, p as int)));
            }
            off = p + 3;
        } else {
            let part = copy_range(s, off, s.len());
            done.push(part);
            proof {
                assert(done@.map_values(|v: Vec<u8>| v@) =~= done@.drop_last().map_values(
                    |v: Vec<u8>| v@,
                ).push(s@.subrange(off as int, s@.len() as int)));
                assert(split_parts_from(s@, 0) =~= done@.map_values(|v: Vec<u8>| v@));
            }
            return done;
        }
    }
}

/// Splits one part into lines.
#[verifier::loop_isolation(false)]
fn split_lines_exec(s: &Vec<u8>) -> (r: Vec<Vec<u8>>)
    ensures
        r@.map_values(|v: Vec<u8>| v@) == split_lines_from(s@, 0),
{
    let mut done: Vec<Vec<u8>> = Vec::new();
    let mut off: usize = 0;
    while off < s.len()
        invariant
            off <= s@.len(),
            split_lines_from(s@, 0) =~= done@.map_values(|v: Vec<u8>| v@) + split_lines_from(
                s@,
                off as int,
            ),
        decreases s@.len() - off,
    {
        let p = find_byte(s, off, 10);
        let upto = if p < s.len() {
            p
        } else {
            s.len()
        };
        let mut line = copy_range(s, off, upto);
        if line.len() > 0 && line[line.len() - 1] == 13 {
            line.pop();
        }
        proof {
            assert(line@ =~= trim_cr(s@.subrange(off as int, upto as int)));
        }
        done.push(line);
        proof {
            assert(done@.map_values(|v: Vec<u8>| v@) =~= done@.drop_last().map_values(
                |v: Vec<u8>| v@,
            ).push(trim_cr(s@.subrange(off as int, upto as int))));
        }
        if p < s.len() {
            off = p + 1;
        } else {
            proof {
                assert(split_lines_from(s@, 0) =~= done@.map_values(|v: Vec<u8>| v@));
            }
            return done;
        }
    }
    proof {
        assert(split_lines_from(s@, 0) =~= done@.map_values(|v: Vec<u8>| v@));
    }
    done
}

/// Decides whether a line is a note row.
#[verifier::loop_isolation(false)]
fn is_note_line_exec(l: &Vec<u8>) -> (r: bool)
    ensures
        r == note_line(l@),
{
    let mut j: usize = 0;
    while l.len() >= 5 && j <= l.len() - 5
        invariant
            j <= l@.len(),
            forall|k: int| 0 <= k < j ==> !is_note_at(l@, k),
        decreases l@.len() - j,
    {
        if 48 <= l[j] && l[j] <= 50 && 48 <= l[j + 1] && l[j + 1] <= 50 && 48 <= l[j + 2] && l[j
            + 2] <= 50 && 48 <= l[j + 3] && l[j + 3] <= 50 && l[j + 4] == 124 {
            proof {
                assert(is_note_at(l@, j as int));
            }
            return true;
        }
        j = j + 1;
    }
    proof {
        assert(!note_line(l@)) by {
            if note_line(l@) {
                let w = choose|w: int| is_note_at(l@, w);
                assert(w + 5 <= l@.len());
            }
        }
    }
    false
}

/// `pow10(15)` written out, for the overflow bounds of the BPM parser.
proof fn lemma_pow10_vals()
    ensures
        pow10(3) == 1000,
        pow10(15) == 1000000000000000int,
{
    assert(pow10(0) == 1);
    assert(pow10(1) == 10);
    assert(pow10(2) == 100);
    assert(pow10(3) == 1000);
    assert(pow10(4) == 10000);
    assert(pow10(5) == 100000);
    assert(pow10(6) == 1000000);
    assert(pow10(7) == 10000000);
    assert(pow10(8) == 100000000);
    assert(pow10(9) == 1000000000);
    assert(pow10(10) == 10000000000);
    assert(pow10(11) == 100000000000);
    assert(pow10(12) == 1000000000000);
    assert(pow10(13) == 10000000000000);
    assert(pow10(14) == 100000000000000);
    assert(pow10(15) == 1000000000000000);
}

/// Powers of ten grow with the exponent.
proof fn lemma_pow10_mono(a: nat, b: nat)
    requires
        a <= b,
    ensures
        1 <= pow10(a) <= pow10(b),
    decreases b,
{
    if b == 0 {
    } else if a == b {
        lemma_pow10_mono((a - 1) as nat, (b - 1) as nat);
    } else {
        lemma_pow10_mono(a, (b - 1) as nat);
    }
}

/// Reads a run of digits `s[from..to)` left to right.
#[verifier::loop_isolation(false)]
fn read_digits(s: &Vec<u8>, from: usize, to: usize) -> (r: Option<u64>)
    requires
        from <= to <= s@.len(),
        to - from <= 15,
    ensures
        ({
            let part = s@.subrange(from as int, to as int);
            match r {
                Some(v) => all_digits(part) && v == digits_val(part) && v < pow10(
                    (to - from) as nat,
                ),
                None => !all_digits(part),
            }
        }),
{
    let ghost part = s@.subrange(from as int, to as int);
    let mut val: u64 = 0;
    let mut i = from;
    while i < to
        invariant
            from <= i <= to,
            forall|j: int| from <= j < i ==> is_digit(#[trigger] s@[j]),
            val == digits_val(s@.subrange(from as int, i as int)),
            val < pow10((i - from) as nat),
        decreases to - i,
    {
        let c = s[i];
        if c < 48 || c > 57 {
            proof {
                assert(part[i - from as int] == s@[i as int]);
                assert(!all_digits(part));
            }
            return None;
        }
        proof {
            lemma_pow10_mono(((i - from) + 1) as nat, 15);
            lemma_pow10_vals();
            assert(pow10(((i - from) + 1) as nat) == 10 * pow10((i - from) as nat));
            assert(s@.subrange(from as int, i + 1).drop_last() =~= s@.subrange(
                from as int,
                i as int,
            ));
            assert(s@.subrange(from as int, i + 1).last() == s@[i as int]);
        }
        val = val * 10 + (c - 48) as u64;
        i = i + 1;
    }
    proof {
        assert(all_digits(part)) by {
            assert(forall|j: int| 0 <= j < part.len() ==> part[j] == s@[from + j]);
        }
    }
    Some(val)
}

/// Reads a metadata `t=` value as a fixed-point BPM.
#[verifier::loop_isolation(false)]
fn parse_bpm_exec(v: &Vec<u8>) -> (r: Option<u64>)
    ensures
        r == parse_bpm(v@),
{
    let d = find_byte(v, 0, 46);
    if d > 15 {
        return None;
    }
    let ipv = match read_digits(v, 0, d) {
        None => {
            return None;
        },
        Some(x) => x,
    };
    let flen: usize = if d < v.len() {
        v.len() - d - 1
    } else {
        0
    };
    let ghost fp: Seq<u8> = if (d as int) < v@.len() {
        v@.subrange(d + 1, v@.len() as int)
    } else {
        Seq::empty()
    };
    if d == v.len() && d == 0 {
        return None;
    }
    if d < v.len() {
        // every fractional byte must be a digit
        let mut i = d + 1;
        while i < v.len()
            invariant
                d + 1 <= i <= v@.len(),
                (d as int) < v@.len(),
                fp == v@.subrange(d + 1, v@.len() as int),
                forall|j: int| d + 1 <= j < i ==> is_digit(#[trigger] v@[j]),
            decreases v@.len() - i,
        {
            let c = v[i];
            if c < 48 || c > 57 {
                proof {
                    assert(fp[i - (d + 1) as int] == v@[i as int]);
                    assert(!all_digits(fp));
                }
                return None;
            }
            i = i + 1;
        }
        proof {
            assert(all_digits(fp)) by {
                assert(forall|j: int| 0 <= j < fp.len() ==> fp[j] == v@[d + 1 + j]);
            }
        }
        if flen == 0 && d == 0 {
            return None;
        }
    }
    let k: usize = if flen >= 3 {
        3
    } else {
        flen
    };
    let fval: u64 = if k == 0 {
        0
    } else {
        match read_digits(v, d + 1, d + 1 + k) {
            None => {
                proof {
                    assert(false);
                }
                0
            },
            Some(x) => x,
        }
    };
    proof {
        if k > 0 {
            assert(v@.subrange(d + 1, d + 1 + k) =~= fp.take(k as int));
        }
        if flen == 1 {
            assert(fp.take(1) =~= fp);
        }
        if flen == 2 {
            assert(fp.take(2) =~= fp);
        }
        lemma_pow10_vals();
        lemma_pow10_mono(d as nat, 15);
        assert(frac3(fp) < 1000) by {
            if flen >= 1 {
                lemma_digits_val_bound(if flen >= 3 {
                    fp.take(3)
                } else {
                    fp
                });
                lemma_pow10_mono(1, 3);
                lemma_pow10_mono(2, 3);
            }
        }
    }
    let scaled: u64 = if flen == 0 {
        0
    } else if flen == 1 {
        fval * 100
    } else if flen == 2 {
        fval * 10
    } else {
        fval
    };
    Some(ipv * 1000 + scaled)
}

/// Decides whether a `t=` value holds a dash.
#[verifier::loop_isolation(false)]
fn has_dash_exec(v: &Vec<u8>) -> (r: bool)
    ensures
        r == has_dash(v@),
{
    let mut i: usize = 0;
    while i < v.len()
        invariant
            i <= v@.len(),
            forall|j: int| 0 <= j < i ==> v@[j] != 45,
        decreases v@.len() - i,
    {
        if v[i] == 45 {
            return true;
        }
        i = i + 1;
    }
    false
}

// ---------------------------------------------------------------------------
// The importer
// ---------------------------------------------------------------------------

/// Where a lane's last emitted note ends (0 for an empty lane).
pub open spec fn lane_end(s: Seq<Interval>) -> int {
    if s.len() == 0 {
        0
    } else {
        s.last().y + s.last().l
    }
}

/// The importer's per-lane invariant between rows: the lane is well-formed
/// and ends by the cursor, and during a hold run the run start lies between
/// the lane's end and the cursor.
pub open spec fn lane_inv(b: Seq<Interval>, last: u8, long: u32, y: u32) -> bool {
    &&& intervals_wf(b)
    &&& lane_end(b) <= y
    &&& (last == 50 ==> long <= y && lane_end(b) <= long)
}

/// Appending a note that starts no earlier than the lane's end keeps the
/// lane invariant.
proof fn lemma_push_wf(b: Seq<Interval>, x: Interval)
    requires
        intervals_wf(b),
        lane_end(b) <= x.y,
    ensures
        intervals_wf(b.push(x)),
        lane_end(b.push(x)) == x.y + x.l,
{
    let nb = b.push(x);
    assert forall|i: int| 0 <= i < nb.len() - 1 implies #[trigger] nb[i].y + nb[i].l <= nb[i
        + 1].y by {
        if i < b.len() - 1 {
            assert(nb[i] == b[i] && nb[i + 1] == b[i + 1]);
        } else {
            assert(nb[i] == b.last() && nb[i + 1] == x);
        }
    }
}

/// One row step of one lane keeps the lane invariant at the advanced
/// cursor.
proof fn lemma_lane_step_inv(b: Seq<Interval>, last: u8, ch: u8, y: u32, long: u32, tpl: u32)
    requires
        lane_inv(b, last, long, y),
        y + tpl <= u32::MAX,
    ensures
        lane_inv(
            lane_emit(b, last, ch, y, long),
            ch,
            lane_long(last, ch, y, long),
            (y + tpl) as u32,
        ),
{
    let with_hold = if ch != 50 && last == 50 {
        b.push(Interval { y: long, l: (y - long) as u32 })
    } else {
        b
    };
    if ch != 50 && last == 50 {
        lemma_push_wf(b, Interval { y: long, l: (y - long) as u32 });
    }
    assert(intervals_wf(with_hold) && lane_end(with_hold) <= y);
    if ch == 49 {
        lemma_push_wf(with_hold, Interval { y, l: 0 });
    }
}

/// Reads the chart denoted by legacy chart text (after its 3-byte marker):
/// the whole of [`from_ksh_spec`], and with it the lane invariants of the
/// resulting chart.
#[verifier::loop_isolation(false)]
#[verifier::rlimit(100)]
pub fn chart_from_ksh_text(text: &Vec<u8>) -> (r: Result<Chart, KshParseError>)
    ensures
        r is Ok <==> from_ksh_spec(text@) is Ok,
        r is Ok ==> r->Ok_0@ == from_ksh_spec(text@)->Ok_0 && r->Ok_0@.wf(),
        r is Err ==> r->Err_0 == from_ksh_spec(text@)->Err_0,
{
    let parts = split_parts_exec(text);
    let ghost pviews = parts@.map_values(|v: Vec<u8>| v@);
    let meta_lines = split_lines_exec(&parts[0]);
    let ghost mls = meta_lines@.map_values(|v: Vec<u8>| v@);
    proof {
        assert(parts@[0]@ == pviews[0]);
    }

    let mut meta = MetaInfo::new();
    let mut bpm: Vec<DoubleEvent> = Vec::new();
    let mut i: usize = 0;
    while i < meta_lines.len()
        invariant
            i <= mls.len(),
            meta_fold_from(meta@, bpm@, mls, i as int) == meta_fold_from(
                MetaInfo::new_spec(),
                Seq::empty(),
                mls,
                0,
            ),
            forall|j: int| 0 <= j < bpm@.len() ==> (#[trigger] bpm@[j]).y == 0,
        decreases mls.len() - i,
    {
        let ghost pre_m = meta@;
        let ghost pre_b = bpm@;
        let line = &meta_lines[i];
        proof {
            assert(line@ == mls[i as int]);
        }
        let e = find_byte(line, 0, 61);
        if e < line.len() {
            let value = copy_range(line, e + 1, line.len());
            let is_title = e == 5 && line[0] == 116 && line[1] == 105 && line[2] == 116 && line[3]
                == 108 && line[4] == 101;
            let is_artist = e == 6 && line[0] == 97 && line[1] == 114 && line[2] == 116 && line[3]
                == 105 && line[4] == 115 && line[5] == 116;
            let is_effect = e == 6 && line[0] == 101 && line[1] == 102 && line[2] == 102 && line[3]
                == 101 && line[4] == 99 && line[5] == 116;
            let is_jacket = e == 6 && line[0] == 106 && line[1] == 97 && line[2] == 99 && line[3]
                == 107 && line[4] == 101 && line[5] == 116;
            let is_illustrator = e == 11 && line[0] == 105 && line[1] == 108 && line[2] == 108
                && line[3] == 117 && line[4] == 115 && line[5] == 116 && line[6] == 114 && line[7]
                == 97 && line[8] == 116 && line[9] == 111 && line[10] == 114;
            let is_t = e == 1 && line[0] == 116;
            if is_title {
                meta.title = value;
                proof {
                    assert(meta@ =~= (MetaInfoView {
                        title: mls[i as int].subrange(e + 1, mls[i as int].len() as int),
                        ..pre_m
                    }));
                }
            } else if is_artist {
                meta.artist = value;
                proof {
                    assert(meta@ =~= (MetaInfoView {
                        artist: mls[i as int].subrange(e + 1, mls[i as int].len() as int),
                        ..pre_m
                    }));
                }
            } else if is_effect {
                meta.chart_author = value;
                proof {
                    assert(meta@ =~= (MetaInfoView {
                        chart_author: mls[i as int].subrange(e + 1, mls[i as int].len() as int),
                        ..pre_m
                    }));
                }
            } else if is_jacket {
                meta.jacket_filename = value;
                proof {
                    assert(meta@ =~= (MetaInfoView {
                        jacket_filename: mls[i as int].subrange(e + 1, mls[i as int].len() as int),
                        ..pre_m
                    }));
                }
            } else if is_illustrator {
                meta.jacket_author = value;
                proof {
                    assert(meta@ =~= (MetaInfoView {
                        jacket_author: mls[i as int].subrange(e + 1, mls[i as int].len() as int),
                        ..pre_m
                    }));
                }
            } else if is_t {
                if !has_dash_exec(&value) {
                    match parse_bpm_exec(&value) {
                        None => {
                            proof {
                                assert(meta_fold_from(pre_m, pre_b, mls, i as int)
                                    == Err::<(MetaInfoView, Seq<DoubleEvent>), KshParseError>(
                                    KshParseError::BadBpm { line: i as usize },
                                ));
                            }
                            return Err(KshParseError::BadBpm { line: i });
                        },
                        Some(vv) => {
                            bpm.push(DoubleEvent { y: 0, v: vv });
                            proof {
                                assert(bpm@ =~= pre_b.push(DoubleEvent { y: 0, v: vv }));
                            }
                        },
                    }
                }
            }
        }
        i = i + 1;
    }
    let ghost meta_result = (meta@, bpm@);
    proof {
        assert(meta_fold_from(MetaInfo::new_spec(), Seq::empty(), mls, 0) == Ok::<
            (MetaInfoView, Seq<DoubleEvent>),
            KshParseError,
        >(meta_result));
    }

    let mut y: u32 = 0;
    let mut l0: u8 = 48;
    let mut l1: u8 = 48;
    let mut l2: u8 = 48;
    let mut l3: u8 = 48;
    let mut g0: u32 = 0;
    let mut g1: u32 = 0;
    let mut g2: u32 = 0;
    let mut g3: u32 = 0;
    let mut b0: Vec<Interval> = Vec::new();
    let mut b1: Vec<Interval> = Vec::new();
    let mut b2: Vec<Interval> = Vec::new();
    let mut b3: Vec<Interval> = Vec::new();
    proof {
        assert((MeasureState {
            y,
            last: seq![l0, l1, l2, l3],
            long: seq![g0, g1, g2, g3],
            bt: seq![b0@, b1@, b2@, b3@],
        }) =~~= init_measure_state());
    }
    let mut mi: usize = 1;
    while mi < parts.len()
        invariant
            1 <= mi <= pviews.len(),
            measures_fold(
                MeasureState {
                    y,
                    last: seq![l0, l1, l2, l3],
                    long: seq![g0, g1, g2, g3],
                    bt: seq![b0@, b1@, b2@, b3@],
                },
                pviews,
                240,
                mi as int,
            ) == measures_fold(init_measure_state(), pviews, 240, 1),
            lane_inv(b0@, l0, g0, y),
            lane_inv(b1@, l1, g1, y),
            lane_inv(b2@, l2, g2, y),
            lane_inv(b3@, l3, g3, y),
        decreases pviews.len() - mi,
    {
        let ghost st_measure = MeasureState {
            y,
            last: seq![l0, l1, l2, l3],
            long: seq![g0, g1, g2, g3],
            bt: seq![b0@, b1@, b2@, b3@],
        };
        let part = &parts[mi];
        proof {
            assert(part@ == pviews[mi as int]);
        }
        let lines = split_lines_exec(part);
        let ghost lsv = lines@.map_values(|v: Vec<u8>| v@);
        let mut cnt: usize = 0;
        let mut k: usize = 0;
        while k < lines.len()
            invariant
                k <= lsv.len(),
                cnt <= k,
                cnt == count_notes_upto(lsv, k as int),
            decreases lsv.len() - k,
        {
            proof {
                assert(lines@[k as int]@ == lsv[k as int]);
            }
            if is_note_line_exec(&lines[k]) {
                cnt = cnt + 1;
            }
            k = k + 1;
        }
        if cnt > 0 {
            let tpl: u32 = if cnt > 960 {
                proof {
                    vstd::arithmetic::div_mod::lemma_basic_div(960, cnt as int);
                }
                0
            } else {
                960 / (cnt as u32)
            };
            let mut li: usize = 0;
            let mut failed = false;
            while li < lines.len()
                invariant
                    li <= lsv.len(),
                    !failed ==> lines_fold(
                        MeasureState {
                            y,
                            last: seq![l0, l1, l2, l3],
                            long: seq![g0, g1, g2, g3],
                            bt: seq![b0@, b1@, b2@, b3@],
                        },
                        lsv,
                        tpl,
                        li as int,
                    ) == lines_fold(st_measure, lsv, tpl, 0),
                    failed ==> lines_fold(st_measure, lsv, tpl, 0) == Err::<
                        MeasureState,
                        KshParseError,
                    >(KshParseError::TickOverflow),
                    lane_inv(b0@, l0, g0, y),
                    lane_inv(b1@, l1, g1, y),
                    lane_inv(b2@, l2, g2, y),
                    lane_inv(b3@, l3, g3, y),
                decreases lsv.len() - li + (if failed { 0int } else { 1int }),
            {
                if failed {
                    break ;
                }
                let ghost st_line = MeasureState {
                    y,
                    last: seq![l0, l1, l2, l3],
                    long: seq![g0, g1, g2, g3],
                    bt: seq![b0@, b1@, b2@, b3@],
                };
                let line = &lines[li];
                proof {
                    assert(line@ == lsv[li as int]);
                }
                if is_note_line_exec(line) {
                    proof {
                        let w = choose|w: int| is_note_at(line@, w);
                        assert(line@.len() >= 5);
                    }
                    if y > u32::MAX - tpl {
                        failed = true;
                    } else {
                        let c0 = line[0];
                        let c1 = line[1];
                        let c2 = line[2];
                        let c3 = line[3];
                        let ghost ob0 = b0@;
                        let ghost ob1 = b1@;
                        let ghost ob2 = b2@;
                        let ghost ob3 = b3@;
                        if c0 != 50 && l0 == 50 {
                            b0.push(Interval { y: g0, l: y - g0 });
                        }
                        if c0 == 49 {
                            b0.push(Interval { y, l: 0 });
                        }
                        if c0 == 50 && l0 != 50 {
                            g0 = y;
                        }
                        if c1 != 50 && l1 == 50 {
                            b1.push(Interval { y: g1, l: y - g1 });
                        }
                        if c1 == 49 {
                            b1.push(Interval { y, l: 0 });
                        }
                        if c1 == 50 && l1 != 50 {
                            g1 = y;
                        }
                        if c2 != 50 && l2 == 50 {
                            b2.push(Interval { y: g2, l: y - g2 });
                        }
                        if c2 == 49 {
                            b2.push(Interval { y, l: 0 });
                        }
                        if c2 == 50 && l2 != 50 {
                            g2 = y;
                        }
                        if c3 != 50 && l3 == 50 {
                            b3.push(Interval { y: g3, l: y - g3 });
                        }
                        if c3 == 49 {
                            b3.push(Interval { y, l: 0 });
                        }
                        if c3 == 50 && l3 != 50 {
                            g3 = y;
                        }
                        proof {
                            assert(b0@ =~= lane_emit(ob0, l0, c0, y, st_line.long[0]));
                            assert(b1@ =~= lane_emit(ob1, l1, c1, y, st_line.long[1]));
                            assert(b2@ =~= lane_emit(ob2, l2, c2, y, st_line.long[2]));
                            assert(b3@ =~= lane_emit(ob3, l3, c3, y, st_line.long[3]));
                            lemma_lane_step_inv(ob0, l0, c0, y, st_line.long[0], tpl);
                            lemma_lane_step_inv(ob1, l1, c1, y, st_line.long[1], tpl);
                            lemma_lane_step_inv(ob2, l2, c2, y, st_line.long[2], tpl);
                            lemma_lane_step_inv(ob3, l3, c3, y, st_line.long[3], tpl);
                        }
                        l0 = c0;
                        l1 = c1;
                        l2 = c2;
                        l3 = c3;
                        y = y + tpl;
                        proof {
                            let st_new = MeasureState {
                                y,
                                last: seq![l0, l1, l2, l3],
                                long: seq![g0, g1, g2, g3],
                                bt: seq![b0@, b1@, b2@, b3@],
                            };
                            assert(st_new =~~= line_step(st_line, lsv[li as int], tpl)->Ok_0);
                            assert(line_step(st_line, lsv[li as int], tpl) == Ok::<
                                MeasureState,
                                KshParseError,
                            >(st_new));
                        }
                    }
                }
                li = li + 1;
            }
            if failed {
                proof {
                    assert(measures_fold(st_measure, pviews, 240, mi as int) == Err::<
                        MeasureState,
                        KshParseError,
                    >(KshParseError::TickOverflow));
                }
                return Err(KshParseError::TickOverflow);
            }
            proof {
                let st_cur = MeasureState {
                    y,
                    last: seq![l0, l1, l2, l3],
                    long: seq![g0, g1, g2, g3],
                    bt: seq![b0@, b1@, b2@, b3@],
                };
                assert(lines_fold(st_measure, lsv, tpl, 0) == Ok::<MeasureState, KshParseError>(
                    st_cur,
                ));
                assert(measures_fold(st_measure, pviews, 240, mi as int) == measures_fold(
                    st_cur,
                    pviews,
                    240,
                    mi as int + 1,
                ));
            }
        } else {
            proof {
                assert(measures_fold(st_measure, pviews, 240, mi as int) == measures_fold(
                    st_measure,
                    pviews,
                    240,
                    mi as int + 1,
                ));
            }
        }
        mi = mi + 1;
    }

    let mut btv: Vec<Vec<Interval>> = Vec::new();
    btv.push(b0);
    btv.push(b1);
    btv.push(b2);
    btv.push(b3);
    let mut fxv: Vec<Vec<Interval>> = Vec::new();
    fxv.push(Vec::new());
    fxv.push(Vec::new());
    let mut lv: Vec<Vec<LaserSection>> = Vec::new();
    lv.push(Vec::new());
    lv.push(Vec::new());
    let note = NoteInfo { bt: btv, fx: fxv, laser: lv };
    let beat = BeatInfo { bpm, resolution: 240 };
    let chart = Chart { meta, note, beat };
    proof {
        let spec_r = from_ksh_spec(text@);
        assert(spec_r is Ok);
        assert(chart@ =~~= spec_r->Ok_0);
        assert(chart@.wf());
    }
    Ok(chart)
}

} // verus!
