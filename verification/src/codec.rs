//! The persisted chart format: a length-prefixed little-endian binary
//! encoding of the whole data model, with a proved round trip — decoding an
//! encoded chart yields a chart equal in every field, including the absence
//! of the optional slam and easing values.
//!
//! Every number is 8 little-endian bytes; byte strings and lists carry
//! their length first; an `Option` carries one tag byte (0 absent,
//! 1 present).
use crate::chart::{laser_lane_view, BeatInfo, Chart, ChartView, DifficultyInfo, DoubleEvent,
    GraphSectionPoint, Interval, LaserSection, LaserSectionView, MetaInfo, MetaInfoView, NoteInfo,
    NoteInfoView};
use vstd::arithmetic::div_mod::{
    lemma_div_denominator, lemma_fundamental_div_mod, lemma_multiply_divide_lt,
};
use vstd::std_specs::vec::spec_vec_len;
use vstd::prelude::*;

verus! {

pub open spec fn pow256(n: nat) -> int
    decreases n,
{
    if n == 0 {
        1
    } else {
        256 * pow256((n - 1) as nat)
    }
}

/// A number as `n` little-endian bytes.
pub open spec fn le_bytes(v: int, n: nat) -> Seq<u8>
    decreases n,
{
    if n == 0 {
        Seq::empty()
    } else {
        seq![(v % 256) as u8] + le_bytes(v / 256, (n - 1) as nat)
    }
}

/// The number `n` little-endian bytes denote, read at position `i`.
pub open spec fn from_le(s: Seq<u8>, i: int, n: nat) -> int
    decreases n,
{
    if n == 0 {
        0
    } else {
        s[i] + 256 * from_le(s, i + 1, (n - 1) as nat)
    }
}

proof fn lemma_le_bytes_len(v: int, n: nat)
    ensures
        le_bytes(v, n).len() == n,
    decreases n,
{
    if n > 0 {
        lemma_le_bytes_len(v / 256, (n - 1) as nat);
    }
}

proof fn lemma_pow256_vals()
    ensures
        pow256(7) == 0x100000000000000,
        pow256(8) == 0x10000000000000000,
{
    assert(pow256(0) == 1);
    assert(pow256(1) == 0x100);
    assert(pow256(2) == 0x10000);
    assert(pow256(3) == 0x1000000);
    assert(pow256(4) == 0x100000000);
    assert(pow256(5) == 0x10000000000);
    assert(pow256(6) == 0x1000000000000);
    assert(pow256(7) == 0x100000000000000);
    assert(pow256(8) == 0x10000000000000000);
}

proof fn lemma_from_le_bytes(s: Seq<u8>, i: int, v: int, n: nat)
    requires
        0 <= i,
        i + n <= s.len(),
        0 <= v < pow256(n),
        s.subrange(i, i + n) == le_bytes(v, n),
    ensures
        from_le(s, i, n) == v,
    decreases n,
{
    if n > 0 {
        lemma_le_bytes_len(v / 256, (n - 1) as nat);
        assert(s.subrange(i, i + n)[0] == le_bytes(v, n)[0]);
        assert(s[i] == (v % 256) as u8);
        assert(0 <= v / 256 < pow256((n - 1) as nat)) by {
            lemma_multiply_divide_lt(v, 256, pow256((n - 1) as nat));
        }
        assert(s.subrange(i + 1, i + n) == le_bytes(v / 256, (n - 1) as nat)) by {
            assert(s.subrange(i + 1, i + n) =~= s.subrange(i, i + n).subrange(1, n as int));
            assert(s.subrange(i, i + n).subrange(1, n as int) =~= le_bytes(v / 256, (n - 1) as nat));
        }
        lemma_from_le_bytes(s, i + 1, v / 256, (n - 1) as nat);
        lemma_fundamental_div_mod(v, 256);
    }
}

// ---------------------------------------------------------------------------
// Primitive fields
// ---------------------------------------------------------------------------

pub open spec fn enc_u64(x: u64) -> Seq<u8> {
    le_bytes(x as int, 8)
}

pub open spec fn par_u64(s: Seq<u8>, i: int) -> Option<(u64, int)> {
    if 0 <= i && i + 8 <= s.len() && 0 <= from_le(s, i, 8) < 0x10000000000000000 {
        Some(((from_le(s, i, 8)) as u64, i + 8))
    } else {
        None
    }
}

proof fn lemma_rt_u64(s: Seq<u8>, i: int, x: u64)
    requires
        0 <= i,
        i + 8 <= s.len(),
        s.subrange(i, i + 8) == enc_u64(x),
    ensures
        par_u64(s, i) == Some((x, i + 8)),
{
    lemma_pow256_vals();
    lemma_from_le_bytes(s, i, x as int, 8);
}

proof fn lemma_enc_u64_len(x: u64)
    ensures
        enc_u64(x).len() == 8,
{
    lemma_le_bytes_len(x as int, 8);
}

/// A `u32` field travels as a `u64`.
pub open spec fn par_u32(s: Seq<u8>, i: int) -> Option<(u32, int)> {
    match par_u64(s, i) {
        None => None,
        Some((v, j)) => if v <= u32::MAX {
            Some((v as u32, j))
        } else {
            None
        },
    }
}

proof fn lemma_rt_u32(s: Seq<u8>, i: int, x: u32)
    requires
        0 <= i,
        i + 8 <= s.len(),
        s.subrange(i, i + 8) == enc_u64(x as u64),
    ensures
        par_u32(s, i) == Some((x, i + 8)),
{
    lemma_rt_u64(s, i, x as u64);
}

/// A byte string: its length, then its bytes.
pub open spec fn enc_bytes(b: Seq<u8>) -> Seq<u8> {
    enc_u64(b.len() as u64) + b
}

pub open spec fn par_bytes(s: Seq<u8>, i: int) -> Option<(Seq<u8>, int)> {
    match par_u64(s, i) {
        None => None,
        Some((n, j)) => if j + n <= s.len() {
            Some((s.subrange(j, j + n), j + n))
        } else {
            None
        },
    }
}

proof fn lemma_rt_bytes(s: Seq<u8>, i: int, b: Seq<u8>)
    requires
        0 <= i,
        b.len() < 0x10000000000000000,
        i + enc_bytes(b).len() <= s.len(),
        s.subrange(i, i + enc_bytes(b).len() as int) == enc_bytes(b),
    ensures
        enc_bytes(b).len() == 8 + b.len(),
        par_bytes(s, i) == Some((b, i + 8 + b.len())),
{
    lemma_enc_u64_len(b.len() as u64);
    let e = enc_bytes(b);
    assert(s.subrange(i, i + 8) =~= e.subrange(0, 8));
    assert(e.subrange(0, 8) =~= enc_u64(b.len() as u64));
    lemma_rt_u64(s, i, b.len() as u64);
    assert(s.subrange(i + 8, i + 8 + b.len()) =~= e.subrange(8, e.len() as int));
    assert(e.subrange(8, e.len() as int) =~= b);
}

/// An optional `u32`: one tag byte, then the value when present.
pub open spec fn enc_opt(o: Option<u32>) -> Seq<u8> {
    match o {
        None => seq![0u8],
        Some(x) => seq![1u8] + enc_u64(x as u64),
    }
}

pub open spec fn par_opt(s: Seq<u8>, i: int) -> Option<(Option<u32>, int)> {
    if 0 <= i && i + 1 <= s.len() {
        if s[i] == 0 {
            Some((None, i + 1))
        } else if s[i] == 1 {
            match par_u32(s, i + 1) {
                None => None,
                Some((x, j)) => Some((Some(x), j)),
            }
        } else {
            None
        }
    } else {
        None
    }
}

proof fn lemma_rt_opt(s: Seq<u8>, i: int, o: Option<u32>)
    requires
        0 <= i,
        i + enc_opt(o).len() <= s.len(),
        s.subrange(i, i + enc_opt(o).len() as int) == enc_opt(o),
    ensures
        enc_opt(o).len() == (if o is Some {
            9int
        } else {
            1int
        }),
        par_opt(s, i) == Some((o, i + enc_opt(o).len())),
{
    let e = enc_opt(o);
    match o {
        None => {
            assert(s.subrange(i, i + 1)[0] == e[0]);
        },
        Some(x) => {
            lemma_enc_u64_len(x as u64);
            assert(s.subrange(i, i + 9)[0] == e[0]);
            assert(s.subrange(i + 1, i + 9) =~= e.subrange(1, 9));
            assert(e.subrange(1, 9) =~= enc_u64(x as u64));
            lemma_rt_u32(s, i + 1, x);
        },
    }
}

/// The bound every encoded length must fit: lengths travel as `u64`.
pub open spec fn len_ok(n: int) -> bool {
    n < 0x10000000000000000
}

/// A sub-slice of a region that matches an encoding matches the
/// encoding's corresponding slice.
proof fn lemma_sub_of_match(s: Seq<u8>, i: int, e: Seq<u8>, a: int, b: int)
    requires
        0 <= i,
        i + e.len() <= s.len(),
        s.subrange(i, i + e.len() as int) == e,
        0 <= a <= b <= e.len(),
    ensures
        s.subrange(i + a, i + b) == e.subrange(a, b),
{
    assert forall|k: int| 0 <= k < b - a implies s.subrange(i + a, i + b)[k] == e.subrange(a, b)[k] by {
        assert(s.subrange(i, i + e.len() as int)[a + k] == e[a + k]);
    }
    assert(s.subrange(i + a, i + b) =~= e.subrange(a, b));
}

pub open spec fn ok_bs(b: Seq<u8>) -> bool {
    len_ok(b.len() as int)
}

/// A `u8` field travels as a `u64`.
pub open spec fn par_u8(s: Seq<u8>, i: int) -> Option<(u8, int)> {
    match par_u64(s, i) {
        None => None,
        Some((v, j)) => if v <= u8::MAX {
            Some((v as u8, j))
        } else {
            None
        },
    }
}

proof fn lemma_rt_u8(s: Seq<u8>, i: int, x: u8)
    requires
        0 <= i,
        i + 8 <= s.len(),
        s.subrange(i, i + 8) == enc_u64(x as u64),
    ensures
        par_u8(s, i) == Some((x, i + 8)),
{
    lemma_rt_u64(s, i, x as u64);
}

// ---------------------------------------------------------------------------
// Element fields
// ---------------------------------------------------------------------------

pub open spec fn ok_iv(x: Interval) -> bool {
    true
}

pub open spec fn enc_iv(x: Interval) -> Seq<u8> {
    enc_u64(x.y as u64) + enc_u64(x.l as u64)
}

pub open spec fn par_iv(s: Seq<u8>, i: int) -> Option<(Interval, int)> {
    match par_u32(s, i) {
        None => None,
        Some((y, j)) => match par_u32(s, j) {
            None => None,
            Some((l, k)) => Some((Interval { y, l }, k)),
        },
    }
}

proof fn lemma_rt_iv(s: Seq<u8>, i: int, x: Interval)
    requires
        0 <= i,
        ok_iv(x),
        i + enc_iv(x).len() <= s.len(),
        s.subrange(i, i + enc_iv(x).len() as int) == enc_iv(x),
    ensures
        par_iv(s, i) == Some((x, i + enc_iv(x).len() as int)),
{
    let e = enc_iv(x);
    lemma_enc_u64_len(x.y as u64);
    lemma_enc_u64_len(x.l as u64);
    lemma_sub_of_match(s, i, e, 0, 8);
    assert(e.subrange(0, 8) =~= enc_u64(x.y as u64));
    lemma_rt_u32(s, i, x.y);
    lemma_sub_of_match(s, i, e, 8, 16);
    assert(e.subrange(8, 16) =~= enc_u64(x.l as u64));
    lemma_rt_u32(s, i + 8, x.l);
}

pub open spec fn ok_ev(x: DoubleEvent) -> bool {
    true
}

pub open spec fn enc_ev(x: DoubleEvent) -> Seq<u8> {
    enc_u64(x.y as u64) + enc_u64(x.v)
}

pub open spec fn par_ev(s: Seq<u8>, i: int) -> Option<(DoubleEvent, int)> {
    match par_u32(s, i) {
        None => None,
        Some((y, j)) => match par_u64(s, j) {
            None => None,
            Some((v, k)) => Some((DoubleEvent { y, v }, k)),
        },
    }
}

proof fn lemma_rt_ev(s: Seq<u8>, i: int, x: DoubleEvent)
    requires
        0 <= i,
        ok_ev(x),
        i + enc_ev(x).len() <= s.len(),
        s.subrange(i, i + enc_ev(x).len() as int) == enc_ev(x),
    ensures
        par_ev(s, i) == Some((x, i + enc_ev(x).len() as int)),
{
    let e = enc_ev(x);
    lemma_enc_u64_len(x.y as u64);
    lemma_enc_u64_len(x.v);
    lemma_sub_of_match(s, i, e, 0, 8);
    assert(e.subrange(0, 8) =~= enc_u64(x.y as u64));
    lemma_rt_u32(s, i, x.y);
    lemma_sub_of_match(s, i, e, 8, 16);
    assert(e.subrange(8, 16) =~= enc_u64(x.v));
    lemma_rt_u64(s, i + 8, x.v);
}

pub open spec fn ok_gsp(x: GraphSectionPoint) -> bool {
    true
}

pub open spec fn enc_gsp(x: GraphSectionPoint) -> Seq<u8> {
    enc_u64(x.ry as u64) + enc_u64(x.v as u64) + enc_opt(x.vf) + enc_opt(x.a) + enc_opt(x.b)
}

pub open spec fn par_gsp(s: Seq<u8>, i: int) -> Option<(GraphSectionPoint, int)> {
    match par_u32(s, i) {
        None => None,
        Some((ry, j1)) => match par_u32(s, j1) {
            None => None,
            Some((v, j2)) => match par_opt(s, j2) {
                None => None,
                Some((vf, j3)) => match par_opt(s, j3) {
                    None => None,
                    Some((a, j4)) => match par_opt(s, j4) {
                        None => None,
                        Some((b, j5)) => Some((GraphSectionPoint { ry, v, vf, a, b }, j5)),
                    },
                },
            },
        },
    }
}

proof fn lemma_rt_gsp(s: Seq<u8>, i: int, x: GraphSectionPoint)
    requires
        0 <= i,
        ok_gsp(x),
        i + enc_gsp(x).len() <= s.len(),
        s.subrange(i, i + enc_gsp(x).len() as int) == enc_gsp(x),
    ensures
        par_gsp(s, i) == Some((x, i + enc_gsp(x).len() as int)),
{
    let e = enc_gsp(x);
    lemma_enc_u64_len(x.ry as u64);
    lemma_enc_u64_len(x.v as u64);
    let n1: int = 8;
    let n2: int = 16;
    let n3: int = n2 + enc_opt(x.vf).len() as int;
    let n4: int = n3 + enc_opt(x.a).len() as int;
    let n5: int = n4 + enc_opt(x.b).len() as int;
    lemma_sub_of_match(s, i, e, 0, n1);
    assert(e.subrange(0, n1) =~= enc_u64(x.ry as u64));
    lemma_rt_u32(s, i, x.ry);
    lemma_sub_of_match(s, i, e, n1, n2);
    assert(e.subrange(n1, n2) =~= enc_u64(x.v as u64));
    lemma_rt_u32(s, i + n1, x.v);
    lemma_sub_of_match(s, i, e, n2, n3);
    assert(e.subrange(n2, n3) =~= enc_opt(x.vf));
    lemma_rt_opt(s, i + n2, x.vf);
    lemma_sub_of_match(s, i, e, n3, n4);
    assert(e.subrange(n3, n4) =~= enc_opt(x.a));
    lemma_rt_opt(s, i + n3, x.a);
    lemma_sub_of_match(s, i, e, n4, n5);
    assert(e.subrange(n4, n5) =~= enc_opt(x.b));
    lemma_rt_opt(s, i + n4, x.b);
}

/// [`lemma_rt_bytes`] in the uniform element shape.
proof fn lemma_rt_bytes_shim(s: Seq<u8>, i: int, b: Seq<u8>)
    requires
        0 <= i,
        ok_bs(b),
        i + enc_bytes(b).len() <= s.len(),
        s.subrange(i, i + enc_bytes(b).len() as int) == enc_bytes(b),
    ensures
        par_bytes(s, i) == Some((b, i + enc_bytes(b).len() as int)),
{
    lemma_rt_bytes(s, i, b);
}

pub open spec fn enc_iv_list(l: Seq<Interval>) -> Seq<u8>
    decreases l.len(),
{
    if l.len() == 0 {
        Seq::empty()
    } else {
        enc_iv(l[0]) + enc_iv_list(l.drop_first())
    }
}

pub open spec fn par_iv_list(s: Seq<u8>, i: int, n: nat) -> Option<(Seq<Interval>, int)>
    decreases n,
{
    if n == 0 {
        Some((Seq::empty(), i))
    } else {
        match par_iv(s, i) {
            None => None,
            Some((x, j)) => match par_iv_list(s, j, (n - 1) as nat) {
                None => None,
                Some((rest, k)) => Some((seq![x] + rest, k)),
            },
        }
    }
}

proof fn lemma_rt_iv_list(s: Seq<u8>, i: int, l: Seq<Interval>)
    requires
        0 <= i,
        forall|j: int| 0 <= j < l.len() ==> ok_iv(#[trigger] l[j]),
        i + enc_iv_list(l).len() <= s.len(),
        s.subrange(i, i + enc_iv_list(l).len() as int) == enc_iv_list(l),
    ensures
        par_iv_list(s, i, l.len()) == Some((l, i + enc_iv_list(l).len() as int)),
    decreases l.len(),
{
    if l.len() > 0 {
        let e = enc_iv_list(l);
        let e0 = enc_iv(l[0]);
        let er = enc_iv_list(l.drop_first());
        assert(e == e0 + er);
        lemma_sub_of_match(s, i, e, 0, e0.len() as int);
        assert(e.subrange(0, e0.len() as int) =~= e0);
        lemma_rt_iv(s, i, l[0]);
        lemma_sub_of_match(s, i, e, e0.len() as int, e.len() as int);
        assert(e.subrange(e0.len() as int, e.len() as int) =~= er);
        assert(forall|j: int|
            0 <= j < l.drop_first().len() ==> ok_iv(#[trigger] l.drop_first()[j]));
        lemma_rt_iv_list(s, i + e0.len(), l.drop_first());
        assert(seq![l[0]] + l.drop_first() =~= l);
    }
}

pub open spec fn enc_iv_seq(l: Seq<Interval>) -> Seq<u8> {
    enc_u64(l.len() as u64) + enc_iv_list(l)
}

pub open spec fn par_iv_seq(s: Seq<u8>, i: int) -> Option<(Seq<Interval>, int)> {
    match par_u64(s, i) {
        None => None,
        Some((n, j)) => par_iv_list(s, j, n as nat),
    }
}

pub open spec fn ok_iv_seq(l: Seq<Interval>) -> bool {
    len_ok(l.len() as int) && forall|j: int| 0 <= j < l.len() ==> ok_iv(#[trigger] l[j])
}

proof fn lemma_rt_iv_seq(s: Seq<u8>, i: int, l: Seq<Interval>)
    requires
        0 <= i,
        ok_iv_seq(l),
        i + enc_iv_seq(l).len() <= s.len(),
        s.subrange(i, i + enc_iv_seq(l).len() as int) == enc_iv_seq(l),
    ensures
        par_iv_seq(s, i) == Some((l, i + enc_iv_seq(l).len() as int)),
{
    let e = enc_iv_seq(l);
    lemma_enc_u64_len(l.len() as u64);
    lemma_sub_of_match(s, i, e, 0, 8);
    assert(e.subrange(0, 8) =~= enc_u64(l.len() as u64));
    lemma_rt_u64(s, i, l.len() as u64);
    lemma_sub_of_match(s, i, e, 8, e.len() as int);
    assert(e.subrange(8, e.len() as int) =~= enc_iv_list(l));
    lemma_rt_iv_list(s, i + 8, l);
}

pub open spec fn ok_lane(x: Seq<Interval>) -> bool {
    ok_iv_seq(x)
}

pub open spec fn enc_lane_list(l: Seq<Seq<Interval>>) -> Seq<u8>
    decreases l.len(),
{
    if l.len() == 0 {
        Seq::empty()
    } else {
        enc_iv_seq(l[0]) + enc_lane_list(l.drop_first())
    }
}

pub open spec fn par_lane_list(s: Seq<u8>, i: int, n: nat) -> Option<(Seq<Seq<Interval>>, int)>
    decreases n,
{
    if n == 0 {
        Some((Seq::empty(), i))
    } else {
        match par_iv_seq(s, i) {
            None => None,
            Some((x, j)) => match par_lane_list(s, j, (n - 1) as nat) {
                None => None,
                Some((rest, k)) => Some((seq![x] + rest, k)),
            },
        }
    }
}

proof fn lemma_rt_lane_list(s: Seq<u8>, i: int, l: Seq<Seq<Interval>>)
    requires
        0 <= i,
        forall|j: int| 0 <= j < l.len() ==> ok_lane(#[trigger] l[j]),
        i + enc_lane_list(l).len() <= s.len(),
        s.subrange(i, i + enc_lane_list(l).len() as int) == enc_lane_list(l),
    ensures
        par_lane_list(s, i, l.len()) == Some((l, i + enc_lane_list(l).len() as int)),
    decreases l.len(),
{
    if l.len() > 0 {
        let e = enc_lane_list(l);
        let e0 = enc_iv_seq(l[0]);
        let er = enc_lane_list(l.drop_first());
        assert(e == e0 + er);
        lemma_sub_of_match(s, i, e, 0, e0.len() as int);
        assert(e.subrange(0, e0.len() as int) =~= e0);
        lemma_rt_iv_seq(s, i, l[0]);
        lemma_sub_of_match(s, i, e, e0.len() as int, e.len() as int);
        assert(e.subrange(e0.len() as int, e.len() as int) =~= er);
        assert(forall|j: int|
            0 <= j < l.drop_first().len() ==> ok_lane(#[trigger] l.drop_first()[j]));
        lemma_rt_lane_list(s, i + e0.len(), l.drop_first());
        assert(seq![l[0]] + l.drop_first() =~= l);
    }
}

pub open spec fn enc_lane_seq(l: Seq<Seq<Interval>>) -> Seq<u8> {
    enc_u64(l.len() as u64) + enc_lane_list(l)
}

pub open spec fn par_lane_seq(s: Seq<u8>, i: int) -> Option<(Seq<Seq<Interval>>, int)> {
    match par_u64(s, i) {
        None => None,
        Some((n, j)) => par_lane_list(s, j, n as nat),
    }
}

pub open spec fn ok_lane_seq(l: Seq<Seq<Interval>>) -> bool {
    len_ok(l.len() as int) && forall|j: int| 0 <= j < l.len() ==> ok_lane(#[trigger] l[j])
}

proof fn lemma_rt_lane_seq(s: Seq<u8>, i: int, l: Seq<Seq<Interval>>)
    requires
        0 <= i,
        ok_lane_seq(l),
        i + enc_lane_seq(l).len() <= s.len(),
        s.subrange(i, i + enc_lane_seq(l).len() as int) == enc_lane_seq(l),
    ensures
        par_lane_seq(s, i) == Some((l, i + enc_lane_seq(l).len() as int)),
{
    let e = enc_lane_seq(l);
    lemma_enc_u64_len(l.len() as u64);
    lemma_sub_of_match(s, i, e, 0, 8);
    assert(e.subrange(0, 8) =~= enc_u64(l.len() as u64));
    lemma_rt_u64(s, i, l.len() as u64);
    lemma_sub_of_match(s, i, e, 8, e.len() as int);
    assert(e.subrange(8, e.len() as int) =~= enc_lane_list(l));
    lemma_rt_lane_list(s, i + 8, l);
}

pub open spec fn enc_gsp_list(l: Seq<GraphSectionPoint>) -> Seq<u8>
    decreases l.len(),
{
    if l.len() == 0 {
        Seq::empty()
    } else {
        enc_gsp(l[0]) + enc_gsp_list(l.drop_first())
    }
}

pub open spec fn par_gsp_list(s: Seq<u8>, i: int, n: nat) -> Option<(Seq<GraphSectionPoint>, int)>
    decreases n,
{
    if n == 0 {
        Some((Seq::empty(), i))
    } else {
        match par_gsp(s, i) {
            None => None,
            Some((x, j)) => match par_gsp_list(s, j, (n - 1) as nat) {
                None => None,
                Some((rest, k)) => Some((seq![x] + rest, k)),
            },
        }
    }
}

proof fn lemma_rt_gsp_list(s: Seq<u8>, i: int, l: Seq<GraphSectionPoint>)
    requires
        0 <= i,
        forall|j: int| 0 <= j < l.len() ==> ok_gsp(#[trigger] l[j]),
        i + enc_gsp_list(l).len() <= s.len(),
        s.subrange(i, i + enc_gsp_list(l).len() as int) == enc_gsp_list(l),
    ensures
        par_gsp_list(s, i, l.len()) == Some((l, i + enc_gsp_list(l).len() as int)),
    decreases l.len(),
{
    if l.len() > 0 {
        let e = enc_gsp_list(l);
        let e0 = enc_gsp(l[0]);
        let er = enc_gsp_list(l.drop_first());
        assert(e == e0 + er);
        lemma_sub_of_match(s, i, e, 0, e0.len() as int);
        assert(e.subrange(0, e0.len() as int) =~= e0);
        lemma_rt_gsp(s, i, l[0]);
        lemma_sub_of_match(s, i, e, e0.len() as int, e.len() as int);
        assert(e.subrange(e0.len() as int, e.len() as int) =~= er);
        assert(forall|j: int|
            0 <= j < l.drop_first().len() ==> ok_gsp(#[trigger] l.drop_first()[j]));
        lemma_rt_gsp_list(s, i + e0.len(), l.drop_first());
        assert(seq![l[0]] + l.drop_first() =~= l);
    }
}

pub open spec fn enc_gsp_seq(l: Seq<GraphSectionPoint>) -> Seq<u8> {
    enc_u64(l.len() as u64) + enc_gsp_list(l)
}

pub open spec fn par_gsp_seq(s: Seq<u8>, i: int) -> Option<(Seq<GraphSectionPoint>, int)> {
    match par_u64(s, i) {
        None => None,
        Some((n, j)) => par_gsp_list(s, j, n as nat),
    }
}

pub open spec fn ok_gsp_seq(l: Seq<GraphSectionPoint>) -> bool {
    len_ok(l.len() as int) && forall|j: int| 0 <= j < l.len() ==> ok_gsp(#[trigger] l[j])
}

proof fn lemma_rt_gsp_seq(s: Seq<u8>, i: int, l: Seq<GraphSectionPoint>)
    requires
        0 <= i,
        ok_gsp_seq(l),
        i + enc_gsp_seq(l).len() <= s.len(),
        s.subrange(i, i + enc_gsp_seq(l).len() as int) == enc_gsp_seq(l),
    ensures
        par_gsp_seq(s, i) == Some((l, i + enc_gsp_seq(l).len() as int)),
{
    let e = enc_gsp_seq(l);
    lemma_enc_u64_len(l.len() as u64);
    lemma_sub_of_match(s, i, e, 0, 8);
    assert(e.subrange(0, 8) =~= enc_u64(l.len() as u64));
    lemma_rt_u64(s, i, l.len() as u64);
    lemma_sub_of_match(s, i, e, 8, e.len() as int);
    assert(e.subrange(8, e.len() as int) =~= enc_gsp_list(l));
    lemma_rt_gsp_list(s, i + 8, l);
}

pub open spec fn ok_sec(x: LaserSectionView) -> bool {
    ok_gsp_seq(x.v)
}

pub open spec fn enc_sec(x: LaserSectionView) -> Seq<u8> {
    enc_u64(x.y as u64) + enc_u64(x.wide as u64) + enc_gsp_seq(x.v)
}

pub open spec fn par_sec(s: Seq<u8>, i: int) -> Option<(LaserSectionView, int)> {
    match par_u32(s, i) {
        None => None,
        Some((y, j1)) => match par_u8(s, j1) {
            None => None,
            Some((wide, j2)) => match par_gsp_seq(s, j2) {
                None => None,
                Some((v, j3)) => Some((LaserSectionView { y, wide, v }, j3)),
            },
        },
    }
}

proof fn lemma_rt_sec(s: Seq<u8>, i: int, x: LaserSectionView)
    requires
        0 <= i,
        ok_sec(x),
        i + enc_sec(x).len() <= s.len(),
        s.subrange(i, i + enc_sec(x).len() as int) == enc_sec(x),
    ensures
        par_sec(s, i) == Some((x, i + enc_sec(x).len() as int)),
{
    let e = enc_sec(x);
    lemma_enc_u64_len(x.y as u64);
    lemma_enc_u64_len(x.wide as u64);
    lemma_sub_of_match(s, i, e, 0, 8);
    assert(e.subrange(0, 8) =~= enc_u64(x.y as u64));
    lemma_rt_u32(s, i, x.y);
    lemma_sub_of_match(s, i, e, 8, 16);
    assert(e.subrange(8, 16) =~= enc_u64(x.wide as u64));
    lemma_rt_u8(s, i + 8, x.wide);
    lemma_sub_of_match(s, i, e, 16, e.len() as int);
    assert(e.subrange(16, e.len() as int) =~= enc_gsp_seq(x.v));
    lemma_rt_gsp_seq(s, i + 16, x.v);
    assert((LaserSectionView { y: x.y, wide: x.wide, v: x.v }) =~= x);
}

pub open spec fn enc_sec_list(l: Seq<LaserSectionView>) -> Seq<u8>
    decreases l.len(),
{
    if l.len() == 0 {
        Seq::empty()
    } else {
        enc_sec(l[0]) + enc_sec_list(l.drop_first())
    }
}

pub open spec fn par_sec_list(s: Seq<u8>, i: int, n: nat) -> Option<(Seq<LaserSectionView>, int)>
    decreases n,
{
    if n == 0 {
        Some((Seq::empty(), i))
    } else {
        match par_sec(s, i) {
            None => None,
            Some((x, j)) => match par_sec_list(s, j, (n - 1) as nat) {
                None => None,
                Some((rest, k)) => Some((seq![x] + rest, k)),
            },
        }
    }
}

proof fn lemma_rt_sec_list(s: Seq<u8>, i: int, l: Seq<LaserSectionView>)
    requires
        0 <= i,
        forall|j: int| 0 <= j < l.len() ==> ok_sec(#[trigger] l[j]),
        i + enc_sec_list(l).len() <= s.len(),
        s.subrange(i, i + enc_sec_list(l).len() as int) == enc_sec_list(l),
    ensures
        par_sec_list(s, i, l.len()) == Some((l, i + enc_sec_list(l).len() as int)),
    decreases l.len(),
{
    if l.len() > 0 {
        let e = enc_sec_list(l);
        let e0 = enc_sec(l[0]);
        let er = enc_sec_list(l.drop_first());
        assert(e == e0 + er);
        lemma_sub_of_match(s, i, e, 0, e0.len() as int);
        assert(e.subrange(0, e0.len() as int) =~= e0);
        lemma_rt_sec(s, i, l[0]);
        lemma_sub_of_match(s, i, e, e0.len() as int, e.len() as int);
        assert(e.subrange(e0.len() as int, e.len() as int) =~= er);
        assert(forall|j: int|
            0 <= j < l.drop_first().len() ==> ok_sec(#[trigger] l.drop_first()[j]));
        lemma_rt_sec_list(s, i + e0.len(), l.drop_first());
        assert(seq![l[0]] + l.drop_first() =~= l);
    }
}

pub open spec fn enc_sec_seq(l: Seq<LaserSectionView>) -> Seq<u8> {
    enc_u64(l.len() as u64) + enc_sec_list(l)
}

pub open spec fn par_sec_seq(s: Seq<u8>, i: int) -> Option<(Seq<LaserSectionView>, int)> {
    match par_u64(s, i) {
        None => None,
        Some((n, j)) => par_sec_list(s, j, n as nat),
    }
}

pub open spec fn ok_sec_seq(l: Seq<LaserSectionView>) -> bool {
    len_ok(l.len() as int) && forall|j: int| 0 <= j < l.len() ==> ok_sec(#[trigger] l[j])
}

proof fn lemma_rt_sec_seq(s: Seq<u8>, i: int, l: Seq<LaserSectionView>)
    requires
        0 <= i,
        ok_sec_seq(l),
        i + enc_sec_seq(l).len() <= s.len(),
        s.subrange(i, i + enc_sec_seq(l).len() as int) == enc_sec_seq(l),
    ensures
        par_sec_seq(s, i) == Some((l, i + enc_sec_seq(l).len() as int)),
{
    let e = enc_sec_seq(l);
    lemma_enc_u64_len(l.len() as u64);
    lemma_sub_of_match(s, i, e, 0, 8);
    assert(e.subrange(0, 8) =~= enc_u64(l.len() as u64));
    lemma_rt_u64(s, i, l.len() as u64);
    lemma_sub_of_match(s, i, e, 8, e.len() as int);
    assert(e.subrange(8, e.len() as int) =~= enc_sec_list(l));
    lemma_rt_sec_list(s, i + 8, l);
}

pub open spec fn ok_side(x: Seq<LaserSectionView>) -> bool {
    ok_sec_seq(x)
}

pub open spec fn enc_side_list(l: Seq<Seq<LaserSectionView>>) -> Seq<u8>
    decreases l.len(),
{
    if l.len() == 0 {
        Seq::empty()
    } else {
        enc_sec_seq(l[0]) + enc_side_list(l.drop_first())
    }
}

pub open spec fn par_side_list(s: Seq<u8>, i: int, n: nat) -> Option<(Seq<Seq<LaserSectionView>>, int)>
    decreases n,
{
    if n == 0 {
        Some((Seq::empty(), i))
    } else {
        match par_sec_seq(s, i) {
            None => None,
            Some((x, j)) => match par_side_list(s, j, (n - 1) as nat) {
                None => None,
                Some((rest, k)) => Some((seq![x] + rest, k)),
            },
        }
    }
}

proof fn lemma_rt_side_list(s: Seq<u8>, i: int, l: Seq<Seq<LaserSectionView>>)
    requires
        0 <= i,
        forall|j: int| 0 <= j < l.len() ==> ok_side(#[trigger] l[j]),
        i + enc_side_list(l).len() <= s.len(),
        s.subrange(i, i + enc_side_list(l).len() as int) == enc_side_list(l),
    ensures
        par_side_list(s, i, l.len()) == Some((l, i + enc_side_list(l).len() as int)),
    decreases l.len(),
{
    if l.len() > 0 {
        let e = enc_side_list(l);
        let e0 = enc_sec_seq(l[0]);
        let er = enc_side_list(l.drop_first());
        assert(e == e0 + er);
        lemma_sub_of_match(s, i, e, 0, e0.len() as int);
        assert(e.subrange(0, e0.len() as int) =~= e0);
        lemma_rt_sec_seq(s, i, l[0]);
        lemma_sub_of_match(s, i, e, e0.len() as int, e.len() as int);
        assert(e.subrange(e0.len() as int, e.len() as int) =~= er);
        assert(forall|j: int|
            0 <= j < l.drop_first().len() ==> ok_side(#[trigger] l.drop_first()[j]));
        lemma_rt_side_list(s, i + e0.len(), l.drop_first());
        assert(seq![l[0]] + l.drop_first() =~= l);
    }
}

pub open spec fn enc_side_seq(l: Seq<Seq<LaserSectionView>>) -> Seq<u8> {
    enc_u64(l.len() as u64) + enc_side_list(l)
}

pub open spec fn par_side_seq(s: Seq<u8>, i: int) -> Option<(Seq<Seq<LaserSectionView>>, int)> {
    match par_u64(s, i) {
        None => None,
        Some((n, j)) => par_side_list(s, j, n as nat),
    }
}

pub open spec fn ok_side_seq(l: Seq<Seq<LaserSectionView>>) -> bool {
    len_ok(l.len() as int) && forall|j: int| 0 <= j < l.len() ==> ok_side(#[trigger] l[j])
}

proof fn lemma_rt_side_seq(s: Seq<u8>, i: int, l: Seq<Seq<LaserSectionView>>)
    requires
        0 <= i,
        ok_side_seq(l),
        i + enc_side_seq(l).len() <= s.len(),
        s.subrange(i, i + enc_side_seq(l).len() as int) == enc_side_seq(l),
    ensures
        par_side_seq(s, i) == Some((l, i + enc_side_seq(l).len() as int)),
{
    let e = enc_side_seq(l);
    lemma_enc_u64_len(l.len() as u64);
    lemma_sub_of_match(s, i, e, 0, 8);
    assert(e.subrange(0, 8) =~= enc_u64(l.len() as u64));
    lemma_rt_u64(s, i, l.len() as u64);
    lemma_sub_of_match(s, i, e, 8, e.len() as int);
    assert(e.subrange(8, e.len() as int) =~= enc_side_list(l));
    lemma_rt_side_list(s, i + 8, l);
}

pub open spec fn enc_ev_list(l: Seq<DoubleEvent>) -> Seq<u8>
    decreases l.len(),
{
    if l.len() == 0 {
        Seq::empty()
    } else {
        enc_ev(l[0]) + enc_ev_list(l.drop_first())
    }
}

pub open spec fn par_ev_list(s: Seq<u8>, i: int, n: nat) -> Option<(Seq<DoubleEvent>, int)>
    decreases n,
{
    if n == 0 {
        Some((Seq::empty(), i))
    } else {
        match par_ev(s, i) {
            None => None,
            Some((x, j)) => match par_ev_list(s, j, (n - 1) as nat) {
                None => None,
                Some((rest, k)) => Some((seq![x] + rest, k)),
            },
        }
    }
}

proof fn lemma_rt_ev_list(s: Seq<u8>, i: int, l: Seq<DoubleEvent>)
    requires
        0 <= i,
        forall|j: int| 0 <= j < l.len() ==> ok_ev(#[trigger] l[j]),
        i + enc_ev_list(l).len() <= s.len(),
        s.subrange(i, i + enc_ev_list(l).len() as int) == enc_ev_list(l),
    ensures
        par_ev_list(s, i, l.len()) == Some((l, i + enc_ev_list(l).len() as int)),
    decreases l.len(),
{
    if l.len() > 0 {
        let e = enc_ev_list(l);
        let e0 = enc_ev(l[0]);
        let er = enc_ev_list(l.drop_first());
        assert(e == e0 + er);
        lemma_sub_of_match(s, i, e, 0, e0.len() as int);
        assert(e.subrange(0, e0.len() as int) =~= e0);
        lemma_rt_ev(s, i, l[0]);
        lemma_sub_of_match(s, i, e, e0.len() as int, e.len() as int);
        assert(e.subrange(e0.len() as int, e.len() as int) =~= er);
        assert(forall|j: int|
            0 <= j < l.drop_first().len() ==> ok_ev(#[trigger] l.drop_first()[j]));
        lemma_rt_ev_list(s, i + e0.len(), l.drop_first());
        assert(seq![l[0]] + l.drop_first() =~= l);
    }
}

pub open spec fn enc_ev_seq(l: Seq<DoubleEvent>) -> Seq<u8> {
    enc_u64(l.len() as u64) + enc_ev_list(l)
}

pub open spec fn par_ev_seq(s: Seq<u8>, i: int) -> Option<(Seq<DoubleEvent>, int)> {
    match par_u64(s, i) {
        None => None,
        Some((n, j)) => par_ev_list(s, j, n as nat),
    }
}

pub open spec fn ok_ev_seq(l: Seq<DoubleEvent>) -> bool {
    len_ok(l.len() as int) && forall|j: int| 0 <= j < l.len() ==> ok_ev(#[trigger] l[j])
}

proof fn lemma_rt_ev_seq(s: Seq<u8>, i: int, l: Seq<DoubleEvent>)
    requires
        0 <= i,
        ok_ev_seq(l),
        i + enc_ev_seq(l).len() <= s.len(),
        s.subrange(i, i + enc_ev_seq(l).len() as int) == enc_ev_seq(l),
    ensures
        par_ev_seq(s, i) == Some((l, i + enc_ev_seq(l).len() as int)),
{
    let e = enc_ev_seq(l);
    lemma_enc_u64_len(l.len() as u64);
    lemma_sub_of_match(s, i, e, 0, 8);
    assert(e.subrange(0, 8) =~= enc_u64(l.len() as u64));
    lemma_rt_u64(s, i, l.len() as u64);
    lemma_sub_of_match(s, i, e, 8, e.len() as int);
    assert(e.subrange(8, e.len() as int) =~= enc_ev_list(l));
    lemma_rt_ev_list(s, i + 8, l);
}

pub open spec fn enc_bs_list(l: Seq<Seq<u8>>) -> Seq<u8>
    decreases l.len(),
{
    if l.len() == 0 {
        Seq::empty()
    } else {
        enc_bytes(l[0]) + enc_bs_list(l.drop_first())
    }
}

pub open spec fn par_bs_list(s: Seq<u8>, i: int, n: nat) -> Option<(Seq<Seq<u8>>, int)>
    decreases n,
{
    if n == 0 {
        Some((Seq::empty(), i))
    } else {
        match par_bytes(s, i) {
            None => None,
            Some((x, j)) => match par_bs_list(s, j, (n - 1) as nat) {
                None => None,
                Some((rest, k)) => Some((seq![x] + rest, k)),
            },
        }
    }
}

proof fn lemma_rt_bs_list(s: Seq<u8>, i: int, l: Seq<Seq<u8>>)
    requires
        0 <= i,
        forall|j: int| 0 <= j < l.len() ==> ok_bs(#[trigger] l[j]),
        i + enc_bs_list(l).len() <= s.len(),
        s.subrange(i, i + enc_bs_list(l).len() as int) == enc_bs_list(l),
    ensures
        par_bs_list(s, i, l.len()) == Some((l, i + enc_bs_list(l).len() as int)),
    decreases l.len(),
{
    if l.len() > 0 {
        let e = enc_bs_list(l);
        let e0 = enc_bytes(l[0]);
        let er = enc_bs_list(l.drop_first());
        assert(e == e0 + er);
        lemma_sub_of_match(s, i, e, 0, e0.len() as int);
        assert(e.subrange(0, e0.len() as int) =~= e0);
        lemma_rt_bytes_shim(s, i, l[0]);
        lemma_sub_of_match(s, i, e, e0.len() as int, e.len() as int);
        assert(e.subrange(e0.len() as int, e.len() as int) =~= er);
        assert(forall|j: int|
            0 <= j < l.drop_first().len() ==> ok_bs(#[trigger] l.drop_first()[j]));
        lemma_rt_bs_list(s, i + e0.len(), l.drop_first());
        assert(seq![l[0]] + l.drop_first() =~= l);
    }
}

pub open spec fn enc_bs_seq(l: Seq<Seq<u8>>) -> Seq<u8> {
    enc_u64(l.len() as u64) + enc_bs_list(l)
}

pub open spec fn par_bs_seq(s: Seq<u8>, i: int) -> Option<(Seq<Seq<u8>>, int)> {
    match par_u64(s, i) {
        None => None,
        Some((n, j)) => par_bs_list(s, j, n as nat),
    }
}

pub open spec fn ok_bs_seq(l: Seq<Seq<u8>>) -> bool {
    len_ok(l.len() as int) && forall|j: int| 0 <= j < l.len() ==> ok_bs(#[trigger] l[j])
}

proof fn lemma_rt_bs_seq(s: Seq<u8>, i: int, l: Seq<Seq<u8>>)
    requires
        0 <= i,
        ok_bs_seq(l),
        i + enc_bs_seq(l).len() <= s.len(),
        s.subrange(i, i + enc_bs_seq(l).len() as int) == enc_bs_seq(l),
    ensures
        par_bs_seq(s, i) == Some((l, i + enc_bs_seq(l).len() as int)),
{
    let e = enc_bs_seq(l);
    lemma_enc_u64_len(l.len() as u64);
    lemma_sub_of_match(s, i, e, 0, 8);
    assert(e.subrange(0, 8) =~= enc_u64(l.len() as u64));
    lemma_rt_u64(s, i, l.len() as u64);
    lemma_sub_of_match(s, i, e, 8, e.len() as int);
    assert(e.subrange(8, e.len() as int) =~= enc_bs_list(l));
    lemma_rt_bs_list(s, i + 8, l);
}

// ---------------------------------------------------------------------------
// The chart
// ---------------------------------------------------------------------------

/// The twelve descriptive byte-string fields, in encoding order.
pub open spec fn meta_fields(m: MetaInfoView) -> Seq<Seq<u8>> {
    seq![
        m.title,
        m.title_translit,
        m.subtitle,
        m.artist,
        m.artist_translit,
        m.chart_author,
        m.difficulty.name,
        m.difficulty.short_name,
        m.disp_bpm,
        m.jacket_filename,
        m.jacket_author,
        m.information,
    ]
}

pub open spec fn ok_meta(m: MetaInfoView) -> bool {
    ok_bs_seq(meta_fields(m))
}

pub open spec fn enc_meta(m: MetaInfoView) -> Seq<u8> {
    enc_bs_seq(meta_fields(m)) + enc_u64(m.difficulty.idx as u64) + enc_u64(m.level as u64)
}

pub open spec fn par_meta(s: Seq<u8>, i: int) -> Option<(MetaInfoView, int)> {
    match par_bs_seq(s, i) {
        None => None,
        Some((l, j1)) => if l.len() == 12 {
            match par_u8(s, j1) {
                None => None,
                Some((idx, j2)) => match par_u8(s, j2) {
                    None => None,
                    Some((level, j3)) => Some(
                        (
                            MetaInfoView {
                                title: l[0],
                                title_translit: l[1],
                                subtitle: l[2],
                                artist: l[3],
                                artist_translit: l[4],
                                chart_author: l[5],
                                difficulty: crate::chart::DifficultyInfoView {
                                    name: l[6],
                                    short_name: l[7],
                                    idx,
                                },
                                level,
                                disp_bpm: l[8],
                                jacket_filename: l[9],
                                jacket_author: l[10],
                                information: l[11],
                            },
                            j3,
                        ),
                    ),
                },
            }
        } else {
            None
        },
    }
}

proof fn lemma_rt_meta(s: Seq<u8>, i: int, m: MetaInfoView)
    requires
        0 <= i,
        ok_meta(m),
        i + enc_meta(m).len() <= s.len(),
        s.subrange(i, i + enc_meta(m).len() as int) == enc_meta(m),
    ensures
        par_meta(s, i) == Some((m, i + enc_meta(m).len() as int)),
{
    let e = enc_meta(m);
    let e1 = enc_bs_seq(meta_fields(m));
    let n1 = e1.len() as int;
    lemma_enc_u64_len(m.difficulty.idx as u64);
    lemma_enc_u64_len(m.level as u64);
    lemma_sub_of_match(s, i, e, 0, n1);
    assert(e.subrange(0, n1) =~= e1);
    lemma_rt_bs_seq(s, i, meta_fields(m));
    lemma_sub_of_match(s, i, e, n1, n1 + 8);
    assert(e.subrange(n1, n1 + 8) =~= enc_u64(m.difficulty.idx as u64));
    lemma_rt_u8(s, i + n1, m.difficulty.idx);
    lemma_sub_of_match(s, i, e, n1 + 8, n1 + 16);
    assert(e.subrange(n1 + 8, n1 + 16) =~= enc_u64(m.level as u64));
    lemma_rt_u8(s, i + n1 + 8, m.level);
    let l = meta_fields(m);
    assert((MetaInfoView {
        title: l[0],
        title_translit: l[1],
        subtitle: l[2],
        artist: l[3],
        artist_translit: l[4],
        chart_author: l[5],
        difficulty: crate::chart::DifficultyInfoView {
            name: l[6],
            short_name: l[7],
            idx: m.difficulty.idx,
        },
        level: m.level,
        disp_bpm: l[8],
        jacket_filename: l[9],
        jacket_author: l[10],
        information: l[11],
    }) =~~= m);
}

pub open spec fn ok_note(n: NoteInfoView) -> bool {
    ok_lane_seq(n.bt) && ok_lane_seq(n.fx) && ok_side_seq(n.laser)
}

pub open spec fn enc_note(n: NoteInfoView) -> Seq<u8> {
    enc_lane_seq(n.bt) + enc_lane_seq(n.fx) + enc_side_seq(n.laser)
}

pub open spec fn par_note(s: Seq<u8>, i: int) -> Option<(NoteInfoView, int)> {
    match par_lane_seq(s, i) {
        None => None,
        Some((bt, j1)) => match par_lane_seq(s, j1) {
            None => None,
            Some((fx, j2)) => match par_side_seq(s, j2) {
                None => None,
                Some((laser, j3)) => Some((NoteInfoView { bt, fx, laser }, j3)),
            },
        },
    }
}

proof fn lemma_rt_note(s: Seq<u8>, i: int, n: NoteInfoView)
    requires
        0 <= i,
        ok_note(n),
        i + enc_note(n).len() <= s.len(),
        s.subrange(i, i + enc_note(n).len() as int) == enc_note(n),
    ensures
        par_note(s, i) == Some((n, i + enc_note(n).len() as int)),
{
    let e = enc_note(n);
    let e1 = enc_lane_seq(n.bt);
    let e2 = enc_lane_seq(n.fx);
    let e3 = enc_side_seq(n.laser);
    let n1 = e1.len() as int;
    let n2 = n1 + e2.len() as int;
    let n3 = n2 + e3.len() as int;
    lemma_sub_of_match(s, i, e, 0, n1);
    assert(e.subrange(0, n1) =~= e1);
    lemma_rt_lane_seq(s, i, n.bt);
    lemma_sub_of_match(s, i, e, n1, n2);
    assert(e.subrange(n1, n2) =~= e2);
    lemma_rt_lane_seq(s, i + n1, n.fx);
    lemma_sub_of_match(s, i, e, n2, n3);
    assert(e.subrange(n2, n3) =~= e3);
    lemma_rt_sec_seq_side(s, i + n2, n.laser);
    assert((NoteInfoView { bt: n.bt, fx: n.fx, laser: n.laser }) =~= n);
}

/// [`lemma_rt_side_seq`] under its caller's name.
proof fn lemma_rt_sec_seq_side(s: Seq<u8>, i: int, l: Seq<Seq<LaserSectionView>>)
    requires
        0 <= i,
        ok_side_seq(l),
        i + enc_side_seq(l).len() <= s.len(),
        s.subrange(i, i + enc_side_seq(l).len() as int) == enc_side_seq(l),
    ensures
        par_side_seq(s, i) == Some((l, i + enc_side_seq(l).len() as int)),
{
    lemma_rt_side_seq(s, i, l);
}

pub open spec fn ok_beat(b: crate::chart::BeatInfoView) -> bool {
    ok_ev_seq(b.bpm)
}

pub open spec fn enc_beat(b: crate::chart::BeatInfoView) -> Seq<u8> {
    enc_ev_seq(b.bpm) + enc_u64(b.resolution as u64)
}

pub open spec fn par_beat(s: Seq<u8>, i: int) -> Option<(crate::chart::BeatInfoView, int)> {
    match par_ev_seq(s, i) {
        None => None,
        Some((bpm, j1)) => match par_u32(s, j1) {
            None => None,
            Some((resolution, j2)) => Some(
                (crate::chart::BeatInfoView { bpm, resolution }, j2),
            ),
        },
    }
}

proof fn lemma_rt_beat(s: Seq<u8>, i: int, b: crate::chart::BeatInfoView)
    requires
        0 <= i,
        ok_beat(b),
        i + enc_beat(b).len() <= s.len(),
        s.subrange(i, i + enc_beat(b).len() as int) == enc_beat(b),
    ensures
        par_beat(s, i) == Some((b, i + enc_beat(b).len() as int)),
{
    let e = enc_beat(b);
    let e1 = enc_ev_seq(b.bpm);
    let n1 = e1.len() as int;
    lemma_enc_u64_len(b.resolution as u64);
    lemma_sub_of_match(s, i, e, 0, n1);
    assert(e.subrange(0, n1) =~= e1);
    lemma_rt_ev_seq(s, i, b.bpm);
    lemma_sub_of_match(s, i, e, n1, n1 + 8);
    assert(e.subrange(n1, n1 + 8) =~= enc_u64(b.resolution as u64));
    lemma_rt_u32(s, i + n1, b.resolution);
    assert((crate::chart::BeatInfoView { bpm: b.bpm, resolution: b.resolution }) =~= b);
}

/// Every length in the chart fits the format's 64-bit length fields; true
/// of every chart the executable model can hold.
pub open spec fn ok_chart(c: ChartView) -> bool {
    ok_meta(c.meta) && ok_note(c.note) && ok_beat(c.beat)
}

pub open spec fn enc_chart(c: ChartView) -> Seq<u8> {
    enc_meta(c.meta) + enc_note(c.note) + enc_beat(c.beat)
}

pub open spec fn par_chart(s: Seq<u8>, i: int) -> Option<(ChartView, int)> {
    match par_meta(s, i) {
        None => None,
        Some((meta, j1)) => match par_note(s, j1) {
            None => None,
            Some((note, j2)) => match par_beat(s, j2) {
                None => None,
                Some((beat, j3)) => Some((ChartView { meta, note, beat }, j3)),
            },
        },
    }
}

proof fn lemma_rt_chart(s: Seq<u8>, i: int, c: ChartView)
    requires
        0 <= i,
        ok_chart(c),
        i + enc_chart(c).len() <= s.len(),
        s.subrange(i, i + enc_chart(c).len() as int) == enc_chart(c),
    ensures
        par_chart(s, i) == Some((c, i + enc_chart(c).len() as int)),
{
    let e = enc_chart(c);
    let e1 = enc_meta(c.meta);
    let e2 = enc_note(c.note);
    let e3 = enc_beat(c.beat);
    let n1 = e1.len() as int;
    let n2 = n1 + e2.len() as int;
    let n3 = n2 + e3.len() as int;
    lemma_sub_of_match(s, i, e, 0, n1);
    assert(e.subrange(0, n1) =~= e1);
    lemma_rt_meta(s, i, c.meta);
    lemma_sub_of_match(s, i, e, n1, n2);
    assert(e.subrange(n1, n2) =~= e2);
    lemma_rt_note(s, i + n1, c.note);
    lemma_sub_of_match(s, i, e, n2, n3);
    assert(e.subrange(n2, n3) =~= e3);
    lemma_rt_beat(s, i + n2, c.beat);
    assert((ChartView { meta: c.meta, note: c.note, beat: c.beat }) =~= c);
}

/// The round-trip law of the persisted format: decoding an encoded chart
/// yields the chart back, equal in every field — the optional slam and
/// easing values included — consuming the encoding exactly.
pub proof fn lemma_codec_round_trip(c: ChartView)
    requires
        ok_chart(c),
    ensures
        par_chart(enc_chart(c), 0) == Some((c, enc_chart(c).len() as int)),
{
    let e = enc_chart(c);
    assert(e.subrange(0, e.len() as int) =~= e);
    lemma_rt_chart(e, 0, c);
}

// ---------------------------------------------------------------------------
// Executable encoding
// ---------------------------------------------------------------------------

proof fn lemma_pow256_mono(a: nat, b: nat)
    requires
        a <= b,
    ensures
        1 <= pow256(a) <= pow256(b),
    decreases b,
{
    if b == 0 {
    } else if a == b {
        lemma_pow256_mono((a - 1) as nat, (b - 1) as nat);
    } else {
        lemma_pow256_mono(a, (b - 1) as nat);
    }
}

/// `n` bytes denote a number below `256^n`.
proof fn lemma_from_le_bound(s: Seq<u8>, i: int, n: nat)
    requires
        0 <= i,
        i + n <= s.len(),
    ensures
        0 <= from_le(s, i, n) < pow256(n),
    decreases n,
{
    if n > 0 {
        lemma_from_le_bound(s, i + 1, (n - 1) as nat);
    }
}

/// Writing one more little-endian byte extends the encoding by the next
/// byte of the number.
proof fn lemma_le_bytes_snoc(v: int, n: nat)
    requires
        0 <= v,
    ensures
        le_bytes(v, (n + 1) as nat) == le_bytes(v, n).push((v / pow256(n) % 256) as u8),
    decreases n,
{
    lemma_pow256_mono(0, n);
    if n == 0 {
        assert(v / pow256(0) == v) by {
            vstd::arithmetic::div_mod::lemma_div_basics_2(v);
        }
        assert(le_bytes(v / 256, 0) =~= Seq::<u8>::empty());
        assert(le_bytes(v, 1) =~= seq![(v % 256) as u8] + le_bytes(v / 256, 0));
        assert(le_bytes(v, 1) =~= le_bytes(v, 0).push((v / pow256(0) % 256) as u8));
    } else {
        lemma_le_bytes_snoc(v / 256, (n - 1) as nat);
        assert((v / 256) / pow256((n - 1) as nat) == v / pow256(n)) by {
            lemma_pow256_mono(0, (n - 1) as nat);
            lemma_div_denominator(v, 256, pow256((n - 1) as nat));
        }
        assert(le_bytes(v, (n + 1) as nat) =~= seq![(v % 256) as u8] + le_bytes(
            v / 256,
            n,
        ));
        assert(le_bytes(v, (n + 1) as nat) =~= le_bytes(v, n).push((v / pow256(n) % 256) as u8));
    }
}

/// Appends the 8 little-endian bytes of `x`.
#[verifier::loop_isolation(false)]
fn write_u64(out: &mut Vec<u8>, x: u64)
    ensures
        final(out)@ == old(out)@ + enc_u64(x),
{
    let mut cur = x;
    let mut k: usize = 0;
    proof {
        assert(out@ =~= old(out)@ + le_bytes(x as int, 0));
    }
    while k < 8
        invariant
            k <= 8,
            out@ == old(out)@ + le_bytes(x as int, k as nat),
            cur == (x as int) / pow256(k as nat),
        decreases 8 - k,
    {
        proof {
            lemma_le_bytes_snoc(x as int, k as nat);
            lemma_pow256_mono(0, k as nat);
        }
        out.push((cur % 256) as u8);
        proof {
            assert(out@ =~= old(out)@ + le_bytes(x as int, (k + 1) as nat));
            lemma_div_denominator(x as int, pow256(k as nat), 256);
            assert(pow256(k as nat) * 256 == pow256((k + 1) as nat)) by {
                assert(pow256((k + 1) as nat) == 256 * pow256(k as nat));
            }
        }
        cur = cur / 256;
        k = k + 1;
    }
}

fn write_u32(out: &mut Vec<u8>, x: u32)
    ensures
        final(out)@ == old(out)@ + enc_u64(x as u64),
{
    write_u64(out, x as u64);
}

fn write_opt(out: &mut Vec<u8>, o: Option<u32>)
    ensures
        final(out)@ == old(out)@ + enc_opt(o),
{
    match o {
        None => {
            out.push(0);
            proof {
                assert(out@ =~= old(out)@ + enc_opt(o));
            }
        },
        Some(x) => {
            out.push(1);
            write_u64(out, x as u64);
            proof {
                assert(out@ =~= old(out)@ + enc_opt(o));
            }
        },
    }
}

/// Appends a length-prefixed byte string.
#[verifier::loop_isolation(false)]
fn write_bytes(out: &mut Vec<u8>, b: &Vec<u8>)
    ensures
        final(out)@ == old(out)@ + enc_bytes(b@),
        ok_bs(b@),
{
    write_u64(out, b.len() as u64);
    let mut i: usize = 0;
    while i < b.len()
        invariant
            i <= b@.len(),
            out@ == old(out)@ + enc_u64(b@.len() as u64) + b@.subrange(0, i as int),
        decreases b@.len() - i,
    {
        out.push(b[i]);
        proof {
            assert(out@ =~= old(out)@ + enc_u64(b@.len() as u64) + b@.subrange(0, i + 1));
        }
        i = i + 1;
    }
    proof {
        assert(b@.subrange(0, b@.len() as int) =~= b@);
        assert(out@ =~= old(out)@ + enc_bytes(b@));
    }
}

fn write_iv(out: &mut Vec<u8>, x: Interval)
    ensures
        final(out)@ == old(out)@ + enc_iv(x),
{
    write_u32(out, x.y);
    write_u32(out, x.l);
    proof {
        assert(out@ =~= old(out)@ + enc_iv(x));
    }
}

fn write_ev(out: &mut Vec<u8>, x: DoubleEvent)
    ensures
        final(out)@ == old(out)@ + enc_ev(x),
{
    write_u32(out, x.y);
    write_u64(out, x.v);
    proof {
        assert(out@ =~= old(out)@ + enc_ev(x));
    }
}

fn write_gsp(out: &mut Vec<u8>, x: GraphSectionPoint)
    ensures
        final(out)@ == old(out)@ + enc_gsp(x),
{
    write_u32(out, x.ry);
    write_u32(out, x.v);
    write_opt(out, x.vf);
    write_opt(out, x.a);
    write_opt(out, x.b);
    proof {
        assert(out@ =~= old(out)@ + enc_gsp(x));
    }
}

proof fn lemma_enc_iv_list_snoc(l: Seq<Interval>, x: Interval)
    ensures
        enc_iv_list(l.push(x)) == enc_iv_list(l) + enc_iv(x),
    decreases l.len(),
{
    if l.len() == 0 {
        assert(l.push(x).drop_first() =~= l);
        assert(enc_iv_list(l.push(x)) =~= enc_iv_list(l) + enc_iv(x));
    } else {
        assert(l.push(x).drop_first() =~= l.drop_first().push(x));
        assert(l.push(x)[0] == l[0]);
        lemma_enc_iv_list_snoc(l.drop_first(), x);
        assert(enc_iv_list(l.push(x)) =~= enc_iv_list(l) + enc_iv(x));
    }
}

proof fn lemma_enc_lane_list_snoc(l: Seq<Seq<Interval>>, x: Seq<Interval>)
    ensures
        enc_lane_list(l.push(x)) == enc_lane_list(l) + enc_iv_seq(x),
    decreases l.len(),
{
    if l.len() == 0 {
        assert(l.push(x).drop_first() =~= l);
        assert(enc_lane_list(l.push(x)) =~= enc_lane_list(l) + enc_iv_seq(x));
    } else {
        assert(l.push(x).drop_first() =~= l.drop_first().push(x));
        assert(l.push(x)[0] == l[0]);
        lemma_enc_lane_list_snoc(l.drop_first(), x);
        assert(enc_lane_list(l.push(x)) =~= enc_lane_list(l) + enc_iv_seq(x));
    }
}

proof fn lemma_enc_gsp_list_snoc(l: Seq<GraphSectionPoint>, x: GraphSectionPoint)
    ensures
        enc_gsp_list(l.push(x)) == enc_gsp_list(l) + enc_gsp(x),
    decreases l.len(),
{
    if l.len() == 0 {
        assert(l.push(x).drop_first() =~= l);
        assert(enc_gsp_list(l.push(x)) =~= enc_gsp_list(l) + enc_gsp(x));
    } else {
        assert(l.push(x).drop_first() =~= l.drop_first().push(x));
        assert(l.push(x)[0] == l[0]);
        lemma_enc_gsp_list_snoc(l.drop_first(), x);
        assert(enc_gsp_list(l.push(x)) =~= enc_gsp_list(l) + enc_gsp(x));
    }
}

proof fn lemma_enc_sec_list_snoc(l: Seq<LaserSectionView>, x: LaserSectionView)
    ensures
        enc_sec_list(l.push(x)) == enc_sec_list(l) + enc_sec(x),
    decreases l.len(),
{
    if l.len() == 0 {
        assert(l.push(x).drop_first() =~= l);
        assert(enc_sec_list(l.push(x)) =~= enc_sec_list(l) + enc_sec(x));
    } else {
        assert(l.push(x).drop_first() =~= l.drop_first().push(x));
        assert(l.push(x)[0] == l[0]);
        lemma_enc_sec_list_snoc(l.drop_first(), x);
        assert(enc_sec_list(l.push(x)) =~= enc_sec_list(l) + enc_sec(x));
    }
}

proof fn lemma_enc_side_list_snoc(l: Seq<Seq<LaserSectionView>>, x: Seq<LaserSectionView>)
    ensures
        enc_side_list(l.push(x)) == enc_side_list(l) + enc_sec_seq(x),
    decreases l.len(),
{
    if l.len() == 0 {
        assert(l.push(x).drop_first() =~= l);
        assert(enc_side_list(l.push(x)) =~= enc_side_list(l) + enc_sec_seq(x));
    } else {
        assert(l.push(x).drop_first() =~= l.drop_first().push(x));
        assert(l.push(x)[0] == l[0]);
        lemma_enc_side_list_snoc(l.drop_first(), x);
        assert(enc_side_list(l.push(x)) =~= enc_side_list(l) + enc_sec_seq(x));
    }
}

proof fn lemma_enc_ev_list_snoc(l: Seq<DoubleEvent>, x: DoubleEvent)
    ensures
        enc_ev_list(l.push(x)) == enc_ev_list(l) + enc_ev(x),
    decreases l.len(),
{
    if l.len() == 0 {
        assert(l.push(x).drop_first() =~= l);
        assert(enc_ev_list(l.push(x)) =~= enc_ev_list(l) + enc_ev(x));
    } else {
        assert(l.push(x).drop_first() =~= l.drop_first().push(x));
        assert(l.push(x)[0] == l[0]);
        lemma_enc_ev_list_snoc(l.drop_first(), x);
        assert(enc_ev_list(l.push(x)) =~= enc_ev_list(l) + enc_ev(x));
    }
}

proof fn lemma_enc_bs_list_snoc(l: Seq<Seq<u8>>, x: Seq<u8>)
    ensures
        enc_bs_list(l.push(x)) == enc_bs_list(l) + enc_bytes(x),
    decreases l.len(),
{
    if l.len() == 0 {
        assert(l.push(x).drop_first() =~= l);
        assert(enc_bs_list(l.push(x)) =~= enc_bs_list(l) + enc_bytes(x));
    } else {
        assert(l.push(x).drop_first() =~= l.drop_first().push(x));
        assert(l.push(x)[0] == l[0]);
        lemma_enc_bs_list_snoc(l.drop_first(), x);
        assert(enc_bs_list(l.push(x)) =~= enc_bs_list(l) + enc_bytes(x));
    }
}

#[verifier::loop_isolation(false)]
fn write_iv_seq(out: &mut Vec<u8>, l: &Vec<Interval>)
    ensures
        final(out)@ == old(out)@ + enc_iv_seq(l@),
        ok_iv_seq(l@),
{
    write_u64(out, l.len() as u64);
    let mut i: usize = 0;
    while i < l.len()
        invariant
            i <= l@.len(),
            out@ == old(out)@ + enc_u64(l@.len() as u64) + enc_iv_list(l@.subrange(0, i as int)),
        decreases l@.len() - i,
    {
        write_iv(out, l[i]);
        proof {
            assert(l@.subrange(0, i + 1) =~= l@.subrange(0, i as int).push(l@[i as int]));
            lemma_enc_iv_list_snoc(l@.subrange(0, i as int), l@[i as int]);
            assert(out@ =~= old(out)@ + enc_u64(l@.len() as u64) + enc_iv_list(
                l@.subrange(0, i + 1),
            ));
        }
        i = i + 1;
    }
    proof {
        assert(l@.subrange(0, l@.len() as int) =~= l@);
        assert(out@ =~= old(out)@ + enc_iv_seq(l@));
    }
}

#[verifier::loop_isolation(false)]
fn write_lane_seq(out: &mut Vec<u8>, l: &Vec<Vec<Interval>>)
    ensures
        final(out)@ == old(out)@ + enc_lane_seq(l@.map_values(|v: Vec<Interval>| v@)),
        ok_lane_seq(l@.map_values(|v: Vec<Interval>| v@)),
{
    let ghost lv = l@.map_values(|v: Vec<Interval>| v@);
    write_u64(out, l.len() as u64);
    let mut i: usize = 0;
    while i < l.len()
        invariant
            i <= l@.len(),
            lv == l@.map_values(|v: Vec<Interval>| v@),
            lv.len() == l@.len(),
            out@ == old(out)@ + enc_u64(lv.len() as u64) + enc_lane_list(lv.subrange(0, i as int)),
            forall|j: int| 0 <= j < i ==> ok_lane(#[trigger] lv[j]),
        decreases l@.len() - i,
    {
        write_iv_seq(out, &l[i]);
        proof {
            assert(lv[i as int] == l@[i as int]@);
            assert(lv.subrange(0, i + 1) =~= lv.subrange(0, i as int).push(lv[i as int]));
            lemma_enc_lane_list_snoc(lv.subrange(0, i as int), lv[i as int]);
            assert(out@ =~= old(out)@ + enc_u64(lv.len() as u64) + enc_lane_list(
                lv.subrange(0, i + 1),
            ));
        }
        i = i + 1;
    }
    proof {
        assert(lv.subrange(0, lv.len() as int) =~= lv);
        assert(out@ =~= old(out)@ + enc_lane_seq(lv));
    }
}

#[verifier::loop_isolation(false)]
fn write_gsp_seq(out: &mut Vec<u8>, l: &Vec<GraphSectionPoint>)
    ensures
        final(out)@ == old(out)@ + enc_gsp_seq(l@),
        ok_gsp_seq(l@),
{
    write_u64(out, l.len() as u64);
    let mut i: usize = 0;
    while i < l.len()
        invariant
            i <= l@.len(),
            out@ == old(out)@ + enc_u64(l@.len() as u64) + enc_gsp_list(l@.subrange(0, i as int)),
        decreases l@.len() - i,
    {
        write_gsp(out, l[i]);
        proof {
            assert(l@.subrange(0, i + 1) =~= l@.subrange(0, i as int).push(l@[i as int]));
            lemma_enc_gsp_list_snoc(l@.subrange(0, i as int), l@[i as int]);
            assert(out@ =~= old(out)@ + enc_u64(l@.len() as u64) + enc_gsp_list(
                l@.subrange(0, i + 1),
            ));
        }
        i = i + 1;
    }
    proof {
        assert(l@.subrange(0, l@.len() as int) =~= l@);
        assert(out@ =~= old(out)@ + enc_gsp_seq(l@));
    }
}

fn write_sec(out: &mut Vec<u8>, x: &LaserSection)
    ensures
        final(out)@ == old(out)@ + enc_sec(x@),
        ok_sec(x@),
{
    write_u32(out, x.y);
    write_u64(out, x.wide as u64);
    write_gsp_seq(out, &x.v);
    proof {
        assert(out@ =~= old(out)@ + enc_sec(x@));
    }
}

#[verifier::loop_isolation(false)]
fn write_sec_seq(out: &mut Vec<u8>, l: &Vec<LaserSection>)
    ensures
        final(out)@ == old(out)@ + enc_sec_seq(laser_lane_view(l@)),
        ok_sec_seq(laser_lane_view(l@)),
{
    let ghost lv = laser_lane_view(l@);
    write_u64(out, l.len() as u64);
    let mut i: usize = 0;
    while i < l.len()
        invariant
            i <= l@.len(),
            lv == laser_lane_view(l@),
            lv.len() == l@.len(),
            out@ == old(out)@ + enc_u64(lv.len() as u64) + enc_sec_list(lv.subrange(0, i as int)),
            forall|j: int| 0 <= j < i ==> ok_sec(#[trigger] lv[j]),
        decreases l@.len() - i,
    {
        proof {
            assert(lv[i as int] == l@[i as int]@);
        }
        write_sec(out, &l[i]);
        proof {
            assert(lv.subrange(0, i + 1) =~= lv.subrange(0, i as int).push(lv[i as int]));
            lemma_enc_sec_list_snoc(lv.subrange(0, i as int), lv[i as int]);
            assert(out@ =~= old(out)@ + enc_u64(lv.len() as u64) + enc_sec_list(
                lv.subrange(0, i + 1),
            ));
        }
        i = i + 1;
    }
    proof {
        assert(lv.subrange(0, lv.len() as int) =~= lv);
        assert(out@ =~= old(out)@ + enc_sec_seq(lv));
    }
}

#[verifier::loop_isolation(false)]
fn write_side_seq(out: &mut Vec<u8>, l: &Vec<Vec<LaserSection>>)
    ensures
        final(out)@ == old(out)@ + enc_side_seq(l@.map_values(|v: Vec<LaserSection>| laser_lane_view(v@))),
        ok_side_seq(l@.map_values(|v: Vec<LaserSection>| laser_lane_view(v@))),
{
    let ghost lv = l@.map_values(|v: Vec<LaserSection>| laser_lane_view(v@));
    write_u64(out, l.len() as u64);
    let mut i: usize = 0;
    while i < l.len()
        invariant
            i <= l@.len(),
            lv == l@.map_values(|v: Vec<LaserSection>| laser_lane_view(v@)),
            lv.len() == l@.len(),
            out@ == old(out)@ + enc_u64(lv.len() as u64) + enc_side_list(lv.subrange(0, i as int)),
            forall|j: int| 0 <= j < i ==> ok_side(#[trigger] lv[j]),
        decreases l@.len() - i,
    {
        proof {
            assert(lv[i as int] == laser_lane_view(l@[i as int]@));
        }
        write_sec_seq(out, &l[i]);
        proof {
            assert(lv.subrange(0, i + 1) =~= lv.subrange(0, i as int).push(lv[i as int]));
            lemma_enc_side_list_snoc(lv.subrange(0, i as int), lv[i as int]);
            assert(out@ =~= old(out)@ + enc_u64(lv.len() as u64) + enc_side_list(
                lv.subrange(0, i + 1),
            ));
        }
        i = i + 1;
    }
    proof {
        assert(lv.subrange(0, lv.len() as int) =~= lv);
        assert(out@ =~= old(out)@ + enc_side_seq(lv));
    }
}

#[verifier::loop_isolation(false)]
fn write_ev_seq(out: &mut Vec<u8>, l: &Vec<DoubleEvent>)
    ensures
        final(out)@ == old(out)@ + enc_ev_seq(l@),
        ok_ev_seq(l@),
{
    write_u64(out, l.len() as u64);
    let mut i: usize = 0;
    while i < l.len()
        invariant
            i <= l@.len(),
            out@ == old(out)@ + enc_u64(l@.len() as u64) + enc_ev_list(l@.subrange(0, i as int)),
        decreases l@.len() - i,
    {
        write_ev(out, l[i]);
        proof {
            assert(l@.subrange(0, i + 1) =~= l@.subrange(0, i as int).push(l@[i as int]));
            lemma_enc_ev_list_snoc(l@.subrange(0, i as int), l@[i as int]);
            assert(out@ =~= old(out)@ + enc_u64(l@.len() as u64) + enc_ev_list(
                l@.subrange(0, i + 1),
            ));
        }
        i = i + 1;
    }
    proof {
        assert(l@.subrange(0, l@.len() as int) =~= l@);
        assert(out@ =~= old(out)@ + enc_ev_seq(l@));
    }
}

/// Encodes the whole chart in the persisted format.
#[verifier::rlimit(100)]
pub fn encode_chart(c: &Chart) -> (out: Vec<u8>)
    ensures
        out@ == enc_chart(c@),
        ok_chart(c@),
{
    let mut out: Vec<u8> = Vec::new();
    let ghost fields = meta_fields(c@.meta);
    write_u64(&mut out, 12);
    let ghost base = out@;
    let mut gf: Ghost<Seq<Seq<u8>>> = Ghost(Seq::empty());
    proof {
        assert(out@ =~= base + enc_bs_list(gf@));
    }
    write_bytes(&mut out, &c.meta.title);
    proof {
        lemma_enc_bs_list_snoc(gf@, c.meta.title@);
        gf@ = gf@.push(c.meta.title@);
        assert(out@ =~= base + enc_bs_list(gf@));
    }
    write_bytes(&mut out, &c.meta.title_translit);
    proof {
        lemma_enc_bs_list_snoc(gf@, c.meta.title_translit@);
        gf@ = gf@.push(c.meta.title_translit@);
        assert(out@ =~= base + enc_bs_list(gf@));
    }
    write_bytes(&mut out, &c.meta.subtitle);
    proof {
        lemma_enc_bs_list_snoc(gf@, c.meta.subtitle@);
        gf@ = gf@.push(c.meta.subtitle@);
        assert(out@ =~= base + enc_bs_list(gf@));
    }
    write_bytes(&mut out, &c.meta.artist);
    proof {
        lemma_enc_bs_list_snoc(gf@, c.meta.artist@);
        gf@ = gf@.push(c.meta.artist@);
        assert(out@ =~= base + enc_bs_list(gf@));
    }
    write_bytes(&mut out, &c.meta.artist_translit);
    proof {
        lemma_enc_bs_list_snoc(gf@, c.meta.artist_translit@);
        gf@ = gf@.push(c.meta.artist_translit@);
        assert(out@ =~= base + enc_bs_list(gf@));
    }
    write_bytes(&mut out, &c.meta.chart_author);
    proof {
        lemma_enc_bs_list_snoc(gf@, c.meta.chart_author@);
        gf@ = gf@.push(c.meta.chart_author@);
        assert(out@ =~= base + enc_bs_list(gf@));
    }
    write_bytes(&mut out, &c.meta.difficulty.name);
    proof {
        lemma_enc_bs_list_snoc(gf@, c.meta.difficulty.name@);
        gf@ = gf@.push(c.meta.difficulty.name@);
        assert(out@ =~= base + enc_bs_list(gf@));
    }
    write_bytes(&mut out, &c.meta.difficulty.short_name);
    proof {
        lemma_enc_bs_list_snoc(gf@, c.meta.difficulty.short_name@);
        gf@ = gf@.push(c.meta.difficulty.short_name@);
        assert(out@ =~= base + enc_bs_list(gf@));
    }
    write_bytes(&mut out, &c.meta.disp_bpm);
    proof {
        lemma_enc_bs_list_snoc(gf@, c.meta.disp_bpm@);
        gf@ = gf@.push(c.meta.disp_bpm@);
        assert(out@ =~= base + enc_bs_list(gf@));
    }
    write_bytes(&mut out, &c.meta.jacket_filename);
    proof {
        lemma_enc_bs_list_snoc(gf@, c.meta.jacket_filename@);
        gf@ = gf@.push(c.meta.jacket_filename@);
        assert(out@ =~= base + enc_bs_list(gf@));
    }
    write_bytes(&mut out, &c.meta.jacket_author);
    proof {
        lemma_enc_bs_list_snoc(gf@, c.meta.jacket_author@);
        gf@ = gf@.push(c.meta.jacket_author@);
        assert(out@ =~= base + enc_bs_list(gf@));
    }
    write_bytes(&mut out, &c.meta.information);
    proof {
        lemma_enc_bs_list_snoc(gf@, c.meta.information@);
        gf@ = gf@.push(c.meta.information@);
        assert(out@ =~= base + enc_bs_list(gf@));
        assert(gf@ =~= fields);
        assert(out@ =~= enc_bs_seq(fields));
        assert(forall|j: int| 0 <= j < fields.len() ==> ok_bs(#[trigger] fields[j]));
    }
    write_u64(&mut out, c.meta.difficulty.idx as u64);
    write_u64(&mut out, c.meta.level as u64);
    proof {
        assert(out@ =~= enc_meta(c@.meta));
        assert(ok_meta(c@.meta));
    }
    let ghost after_meta = out@;
    write_lane_seq(&mut out, &c.note.bt);
    write_lane_seq(&mut out, &c.note.fx);
    write_side_seq(&mut out, &c.note.laser);
    proof {
        assert(out@ =~= after_meta + enc_note(c@.note));
        assert(ok_note(c@.note));
    }
    let ghost after_note = out@;
    write_ev_seq(&mut out, &c.beat.bpm);
    write_u64(&mut out, c.beat.resolution as u64);
    proof {
        assert(out@ =~= after_note + enc_beat(c@.beat));
        assert(ok_beat(c@.beat));
        assert(out@ =~= enc_chart(c@));
    }
    out
}

// ---------------------------------------------------------------------------
// Executable decoding
// ---------------------------------------------------------------------------

/// Reads 8 little-endian bytes.
#[verifier::loop_isolation(false)]
fn read_u64(s: &Vec<u8>, i: usize) -> (r: Option<(u64, usize)>)
    ensures
        ({
            let p = par_u64(s@, i as int);
            match r {
                None => p is None,
                Some((v, j)) => p == Some((v, j as int)) && j <= s@.len(),
            }
        }),
{
    if s.len() < 8 || i > s.len() - 8 {
        return None;
    }
    proof {
        lemma_from_le_bound(s@, i as int, 8);
        lemma_pow256_vals();
    }
    let mut acc: u64 = 0;
    let mut k: usize = 8;
    while k > 0
        invariant
            k <= 8,
            i + 8 <= s@.len(),
            acc == from_le(s@, (i + k) as int, (8 - k) as nat),
            acc < pow256((8 - k) as nat),
        decreases k,
    {
        proof {
            lemma_pow256_mono((8 - k) as nat, 7);
            lemma_pow256_vals();
            lemma_from_le_bound(s@, (i + k - 1) as int, (8 - k + 1) as nat);
        }
        acc = acc * 256 + s[i + k - 1] as u64;
        k = k - 1;
    }
    Some((acc, i + 8))
}

fn read_u32(s: &Vec<u8>, i: usize) -> (r: Option<(u32, usize)>)
    ensures
        ({
            let p = par_u32(s@, i as int);
            match r {
                None => p is None,
                Some((v, j)) => p == Some((v, j as int)) && j <= s@.len(),
            }
        }),
{
    match read_u64(s, i) {
        None => None,
        Some((v, j)) => if v <= u32::MAX as u64 {
            Some((v as u32, j))
        } else {
            None
        },
    }
}

fn read_u8(s: &Vec<u8>, i: usize) -> (r: Option<(u8, usize)>)
    ensures
        ({
            let p = par_u8(s@, i as int);
            match r {
                None => p is None,
                Some((v, j)) => p == Some((v, j as int)) && j <= s@.len(),
            }
        }),
{
    match read_u64(s, i) {
        None => None,
        Some((v, j)) => if v <= u8::MAX as u64 {
            Some((v as u8, j))
        } else {
            None
        },
    }
}

fn read_opt(s: &Vec<u8>, i: usize) -> (r: Option<(Option<u32>, usize)>)
    ensures
        ({
            let p = par_opt(s@, i as int);
            match r {
                None => p is None,
                Some((v, j)) => p == Some((v, j as int)) && j <= s@.len(),
            }
        }),
{
    if i >= s.len() {
        return None;
    }
    let tag = s[i];
    if tag == 0 {
        Some((None, i + 1))
    } else if tag == 1 {
        match read_u32(s, i + 1) {
            None => None,
            Some((x, j)) => Some((Some(x), j)),
        }
    } else {
        None
    }
}

/// Reads a length-prefixed byte string.
#[verifier::loop_isolation(false)]
fn read_bytes(s: &Vec<u8>, i: usize) -> (r: Option<(Vec<u8>, usize)>)
    ensures
        ({
            let p = par_bytes(s@, i as int);
            match r {
                None => p is None,
                Some((v, j)) => p == Some((v@, j as int)) && j <= s@.len(),
            }
        }),
{
    match read_u64(s, i) {
        None => None,
        Some((n, j)) => {
            if n <= (s.len() - j) as u64 {
                let m = n as usize;
                let mut out: Vec<u8> = Vec::new();
                let mut k: usize = 0;
                while k < m
                    invariant
                        k <= m,
                        j + m <= s@.len(),
                        out@ =~= s@.subrange(j as int, (j + k) as int),
                    decreases m - k,
                {
                    out.push(s[j + k]);
                    proof {
                        assert(out@ =~= s@.subrange(j as int, (j + k + 1) as int));
                    }
                    k = k + 1;
                }
                Some((out, j + m))
            } else {
                None
            }
        },
    }
}

fn read_iv(s: &Vec<u8>, i: usize) -> (r: Option<(Interval, usize)>)
    ensures
        ({
            let p = par_iv(s@, i as int);
            match r {
                None => p is None,
                Some((v, j)) => p == Some((v, j as int)) && j <= s@.len(),
            }
        }),
{
    match read_u32(s, i) {
        None => None,
        Some((y, j1)) => match read_u32(s, j1) {
            None => None,
            Some((l, j2)) => Some((Interval { y, l }, j2)),
        },
    }
}

fn read_ev(s: &Vec<u8>, i: usize) -> (r: Option<(DoubleEvent, usize)>)
    ensures
        ({
            let p = par_ev(s@, i as int);
            match r {
                None => p is None,
                Some((v, j)) => p == Some((v, j as int)) && j <= s@.len(),
            }
        }),
{
    match read_u32(s, i) {
        None => None,
        Some((y, j1)) => match read_u64(s, j1) {
            None => None,
            Some((v, j2)) => Some((DoubleEvent { y, v }, j2)),
        },
    }
}

fn read_gsp(s: &Vec<u8>, i: usize) -> (r: Option<(GraphSectionPoint, usize)>)
    ensures
        ({
            let p = par_gsp(s@, i as int);
            match r {
                None => p is None,
                Some((v, j)) => p == Some((v, j as int)) && j <= s@.len(),
            }
        }),
{
    match read_u32(s, i) {
        None => None,
        Some((ry, j1)) => match read_u32(s, j1) {
            None => None,
            Some((v, j2)) => match read_opt(s, j2) {
                None => None,
                Some((vf, j3)) => match read_opt(s, j3) {
                    None => None,
                    Some((a, j4)) => match read_opt(s, j4) {
                        None => None,
                        Some((b, j5)) => Some((GraphSectionPoint { ry, v, vf, a, b }, j5)),
                    },
                },
            },
        },
    }
}

#[verifier::loop_isolation(false)]
#[verifier::rlimit(100)]
fn read_iv_seq(s: &Vec<u8>, i: usize) -> (r: Option<(Vec<Interval>, usize)>)
    ensures
        ({
            let p = par_iv_seq(s@, i as int);
            match r {
                None => p is None,
                Some((v, j)) => p == Some((v@, j as int)) && j <= s@.len(),
            }
        }),
{
    match read_u64(s, i) {
        None => None,
        Some((n, j0)) => {
            let mut done: Vec<Interval> = Vec::new();
            let mut pos: usize = j0;
            let mut k: u64 = 0;
            proof {
                assert(done@ =~= Seq::empty());
            }
            while k < n
                invariant
                    k <= n,
                    pos <= s@.len(),
                    par_iv_list(s@, j0 as int, n as nat) == (match par_iv_list(
                        s@,
                        pos as int,
                        (n - k) as nat,
                    ) {
                        None => None,
                        Some((rest, e)) => Some((done@ + rest, e)),
                    }),
                decreases n - k,
            {
                match read_iv(s, pos) {
                    None => {
                        return None;
                    },
                    Some((x, p2)) => {
                        let ghost pre = done@;
                        let ghost xv = x;
                        let ghost q = par_iv_list(s@, p2 as int, (n - k - 1) as nat);
                        done.push(x);
                        proof {
                            assert(done@ =~= pre.push(xv));
                            if q is Some {
                                assert(pre + (seq![xv] + (q->0).0) =~= pre.push(xv) + (q->0).0);
                            }
                        }
                        pos = p2;
                    },
                }
                k = k + 1;
            }
            proof {
                assert(par_iv_list(s@, pos as int, 0) == Some::<(Seq<Interval>, int)>((
                    Seq::<Interval>::empty(),
                    pos as int,
                )));
                assert(done@ + Seq::empty() =~= done@);
            }
            Some((done, pos))
        },
    }
}

#[verifier::loop_isolation(false)]
#[verifier::rlimit(100)]
fn read_lane_seq(s: &Vec<u8>, i: usize) -> (r: Option<(Vec<Vec<Interval>>, usize)>)
    ensures
        ({
            let p = par_lane_seq(s@, i as int);
            match r {
                None => p is None,
                Some((v, j)) => p == Some((v@.map_values(|v: Vec<Interval>| v@), j as int)) && j <= s@.len(),
            }
        }),
{
    match read_u64(s, i) {
        None => None,
        Some((n, j0)) => {
            let mut done: Vec<Vec<Interval>> = Vec::new();
            let mut pos: usize = j0;
            let mut k: u64 = 0;
            proof {
                assert(done@.map_values(|v: Vec<Interval>| v@) =~= Seq::empty());
            }
            while k < n
                invariant
                    k <= n,
                    pos <= s@.len(),
                    par_lane_list(s@, j0 as int, n as nat) == (match par_lane_list(
                        s@,
                        pos as int,
                        (n - k) as nat,
                    ) {
                        None => None,
                        Some((rest, e)) => Some((done@.map_values(|v: Vec<Interval>| v@) + rest, e)),
                    }),
                decreases n - k,
            {
                match read_iv_seq(s, pos) {
                    None => {
                        return None;
                    },
                    Some((x, p2)) => {
                        let ghost pre = done@.map_values(|v: Vec<Interval>| v@);
                        let ghost xv = x@;
                        let ghost q = par_lane_list(s@, p2 as int, (n - k - 1) as nat);
                        done.push(x);
                        proof {
                            assert(done@.map_values(|v: Vec<Interval>| v@) =~= pre.push(xv));
                            if q is Some {
                                assert(pre + (seq![xv] + (q->0).0) =~= pre.push(xv) + (q->0).0);
                            }
                        }
                        pos = p2;
                    },
                }
                k = k + 1;
            }
            proof {
                assert(par_lane_list(s@, pos as int, 0) == Some::<(Seq<Seq<Interval>>, int)>((
                    Seq::<Seq<Interval>>::empty(),
                    pos as int,
                )));
                assert(done@.map_values(|v: Vec<Interval>| v@) + Seq::empty() =~= done@.map_values(|v: Vec<Interval>| v@));
            }
            Some((done, pos))
        },
    }
}

#[verifier::loop_isolation(false)]
#[verifier::rlimit(100)]
fn read_gsp_seq(s: &Vec<u8>, i: usize) -> (r: Option<(Vec<GraphSectionPoint>, usize)>)
    ensures
        ({
            let p = par_gsp_seq(s@, i as int);
            match r {
                None => p is None,
                Some((v, j)) => p == Some((v@, j as int)) && j <= s@.len(),
            }
        }),
{
    match read_u64(s, i) {
        None => None,
        Some((n, j0)) => {
            let mut done: Vec<GraphSectionPoint> = Vec::new();
            let mut pos: usize = j0;
            let mut k: u64 = 0;
            proof {
                assert(done@ =~= Seq::empty());
            }
            while k < n
                invariant
                    k <= n,
                    pos <= s@.len(),
                    par_gsp_list(s@, j0 as int, n as nat) == (match par_gsp_list(
                        s@,
                        pos as int,
                        (n - k) as nat,
                    ) {
                        None => None,
                        Some((rest, e)) => Some((done@ + rest, e)),
                    }),
                decreases n - k,
            {
                match read_gsp(s, pos) {
                    None => {
                        return None;
                    },
                    Some((x, p2)) => {
                        let ghost pre = done@;
                        let ghost xv = x;
                        let ghost q = par_gsp_list(s@, p2 as int, (n - k - 1) as nat);
                        done.push(x);
                        proof {
                            assert(done@ =~= pre.push(xv));
                            if q is Some {
                                assert(pre + (seq![xv] + (q->0).0) =~= pre.push(xv) + (q->0).0);
                            }
                        }
                        pos = p2;
                    },
                }
                k = k + 1;
            }
            proof {
                assert(par_gsp_list(s@, pos as int, 0) == Some::<(Seq<GraphSectionPoint>, int)>((
                    Seq::<GraphSectionPoint>::empty(),
                    pos as int,
                )));
                assert(done@ + Seq::empty() =~= done@);
            }
            Some((done, pos))
        },
    }
}

fn read_sec(s: &Vec<u8>, i: usize) -> (r: Option<(LaserSection, usize)>)
    ensures
        ({
            let p = par_sec(s@, i as int);
            match r {
                None => p is None,
                Some((v, j)) => p == Some((v@, j as int)) && j <= s@.len(),
            }
        }),
{
    match read_u32(s, i) {
        None => None,
        Some((y, j1)) => match read_u8(s, j1) {
            None => None,
            Some((wide, j2)) => match read_gsp_seq(s, j2) {
                None => None,
                Some((v, j3)) => {
                    let sec = LaserSection { y, wide, v };
                    proof {
                        assert(sec@ =~= (par_sec(s@, i as int)->0).0);
                    }
                    Some((sec, j3))
                },
            },
        },
    }
}

#[verifier::loop_isolation(false)]
#[verifier::rlimit(100)]
fn read_sec_seq(s: &Vec<u8>, i: usize) -> (r: Option<(Vec<LaserSection>, usize)>)
    ensures
        ({
            let p = par_sec_seq(s@, i as int);
            match r {
                None => p is None,
                Some((v, j)) => p == Some((laser_lane_view(v@), j as int)) && j <= s@.len(),
            }
        }),
{
    match read_u64(s, i) {
        None => None,
        Some((n, j0)) => {
            let mut done: Vec<LaserSection> = Vec::new();
            let mut pos: usize = j0;
            let mut k: u64 = 0;
            proof {
                assert(laser_lane_view(done@) =~= Seq::empty());
            }
            while k < n
                invariant
                    k <= n,
                    pos <= s@.len(),
                    par_sec_list(s@, j0 as int, n as nat) == (match par_sec_list(
                        s@,
                        pos as int,
                        (n - k) as nat,
                    ) {
                        None => None,
                        Some((rest, e)) => Some((laser_lane_view(done@) + rest, e)),
                    }),
                decreases n - k,
            {
                match read_sec(s, pos) {
                    None => {
                        return None;
                    },
                    Some((x, p2)) => {
                        let ghost pre = laser_lane_view(done@);
                        let ghost xv = x@;
                        let ghost q = par_sec_list(s@, p2 as int, (n - k - 1) as nat);
                        done.push(x);
                        proof {
                            assert(laser_lane_view(done@) =~= pre.push(xv));
                            if q is Some {
                                assert(pre + (seq![xv] + (q->0).0) =~= pre.push(xv) + (q->0).0);
                            }
                        }
                        pos = p2;
                    },
                }
                k = k + 1;
            }
            proof {
                assert(par_sec_list(s@, pos as int, 0) == Some::<(Seq<LaserSectionView>, int)>((
                    Seq::<LaserSectionView>::empty(),
                    pos as int,
                )));
                assert(laser_lane_view(done@) + Seq::empty() =~= laser_lane_view(done@));
            }
            Some((done, pos))
        },
    }
}

#[verifier::loop_isolation(false)]
#[verifier::rlimit(100)]
fn read_side_seq(s: &Vec<u8>, i: usize) -> (r: Option<(Vec<Vec<LaserSection>>, usize)>)
    ensures
        ({
            let p = par_side_seq(s@, i as int);
            match r {
                None => p is None,
                Some((v, j)) => p == Some((v@.map_values(|v: Vec<LaserSection>| laser_lane_view(v@)), j as int)) && j <= s@.len(),
            }
        }),
{
    match read_u64(s, i) {
        None => None,
        Some((n, j0)) => {
            let mut done: Vec<Vec<LaserSection>> = Vec::new();
            let mut pos: usize = j0;
            let mut k: u64 = 0;
            proof {
                assert(done@.map_values(|v: Vec<LaserSection>| laser_lane_view(v@)) =~= Seq::empty());
            }
            while k < n
                invariant
                    k <= n,
                    pos <= s@.len(),
                    par_side_list(s@, j0 as int, n as nat) == (match par_side_list(
                        s@,
                        pos as int,
                        (n - k) as nat,
                    ) {
                        None => None,
                        Some((rest, e)) => Some((done@.map_values(|v: Vec<LaserSection>| laser_lane_view(v@)) + rest, e)),
                    }),
                decreases n - k,
            {
                match read_sec_seq(s, pos) {
                    None => {
                        return None;
                    },
                    Some((x, p2)) => {
                        let ghost pre = done@.map_values(|v: Vec<LaserSection>| laser_lane_view(v@));
                        let ghost xv = laser_lane_view(x@);
                        let ghost q = par_side_list(s@, p2 as int, (n - k - 1) as nat);
                        done.push(x);
                        proof {
                            assert(done@.map_values(|v: Vec<LaserSection>| laser_lane_view(v@)) =~= pre.push(xv));
                            if q is Some {
                                assert(pre + (seq![xv] + (q->0).0) =~= pre.push(xv) + (q->0).0);
                            }
                        }
                        pos = p2;
                    },
                }
                k = k + 1;
            }
            proof {
                assert(par_side_list(s@, pos as int, 0) == Some::<(Seq<Seq<LaserSectionView>>, int)>((
                    Seq::<Seq<LaserSectionView>>::empty(),
                    pos as int,
                )));
                assert(done@.map_values(|v: Vec<LaserSection>| laser_lane_view(v@)) + Seq::empty() =~= done@.map_values(|v: Vec<LaserSection>| laser_lane_view(v@)));
            }
            Some((done, pos))
        },
    }
}

#[verifier::loop_isolation(false)]
#[verifier::rlimit(100)]
fn read_ev_seq(s: &Vec<u8>, i: usize) -> (r: Option<(Vec<DoubleEvent>, usize)>)
    ensures
        ({
            let p = par_ev_seq(s@, i as int);
            match r {
                None => p is None,
                Some((v, j)) => p == Some((v@, j as int)) && j <= s@.len(),
            }
        }),
{
    match read_u64(s, i) {
        None => None,
        Some((n, j0)) => {
            let mut done: Vec<DoubleEvent> = Vec::new();
            let mut pos: usize = j0;
            let mut k: u64 = 0;
            proof {
                assert(done@ =~= Seq::empty());
            }
            while k < n
                invariant
                    k <= n,
                    pos <= s@.len(),
                    par_ev_list(s@, j0 as int, n as nat) == (match par_ev_list(
                        s@,
                        pos as int,
                        (n - k) as nat,
                    ) {
                        None => None,
                        Some((rest, e)) => Some((done@ + rest, e)),
                    }),
                decreases n - k,
            {
                match read_ev(s, pos) {
                    None => {
                        return None;
                    },
                    Some((x, p2)) => {
                        let ghost pre = done@;
                        let ghost xv = x;
                        let ghost q = par_ev_list(s@, p2 as int, (n - k - 1) as nat);
                        done.push(x);
                        proof {
                            assert(done@ =~= pre.push(xv));
                            if q is Some {
                                assert(pre + (seq![xv] + (q->0).0) =~= pre.push(xv) + (q->0).0);
                            }
                        }
                        pos = p2;
                    },
                }
                k = k + 1;
            }
            proof {
                assert(par_ev_list(s@, pos as int, 0) == Some::<(Seq<DoubleEvent>, int)>((
                    Seq::<DoubleEvent>::empty(),
                    pos as int,
                )));
                assert(done@ + Seq::empty() =~= done@);
            }
            Some((done, pos))
        },
    }
}

#[verifier::loop_isolation(false)]
#[verifier::rlimit(100)]
fn read_bs_seq(s: &Vec<u8>, i: usize) -> (r: Option<(Vec<Vec<u8>>, usize)>)
    ensures
        ({
            let p = par_bs_seq(s@, i as int);
            match r {
                None => p is None,
                Some((v, j)) => p == Some((v@.map_values(|v: Vec<u8>| v@), j as int)) && j <= s@.len(),
            }
        }),
{
    match read_u64(s, i) {
        None => None,
        Some((n, j0)) => {
            let mut done: Vec<Vec<u8>> = Vec::new();
            let mut pos: usize = j0;
            let mut k: u64 = 0;
            proof {
                assert(done@.map_values(|v: Vec<u8>| v@) =~= Seq::empty());
            }
            while k < n
                invariant
                    k <= n,
                    pos <= s@.len(),
                    par_bs_list(s@, j0 as int, n as nat) == (match par_bs_list(
                        s@,
                        pos as int,
                        (n - k) as nat,
                    ) {
                        None => None,
                        Some((rest, e)) => Some((done@.map_values(|v: Vec<u8>| v@) + rest, e)),
                    }),
                decreases n - k,
            {
                match read_bytes(s, pos) {
                    None => {
                        return None;
                    },
                    Some((x, p2)) => {
                        let ghost pre = done@.map_values(|v: Vec<u8>| v@);
                        let ghost xv = x@;
                        let ghost q = par_bs_list(s@, p2 as int, (n - k - 1) as nat);
                        done.push(x);
                        proof {
                            assert(done@.map_values(|v: Vec<u8>| v@) =~= pre.push(xv));
                            if q is Some {
                                assert(pre + (seq![xv] + (q->0).0) =~= pre.push(xv) + (q->0).0);
                            }
                        }
                        pos = p2;
                    },
                }
                k = k + 1;
            }
            proof {
                assert(par_bs_list(s@, pos as int, 0) == Some::<(Seq<Seq<u8>>, int)>((
                    Seq::<Seq<u8>>::empty(),
                    pos as int,
                )));
                assert(done@.map_values(|v: Vec<u8>| v@) + Seq::empty() =~= done@.map_values(|v: Vec<u8>| v@));
            }
            Some((done, pos))
        },
    }
}

#[verifier::rlimit(100)]
fn read_meta(s: &Vec<u8>, i: usize) -> (r: Option<(MetaInfo, usize)>)
    ensures
        ({
            let p = par_meta(s@, i as int);
            match r {
                None => p is None,
                Some((v, j)) => p == Some((v@, j as int)) && j <= s@.len(),
            }
        }),
{
    match read_bs_seq(s, i) {
        None => None,
        Some((fields, j1)) => {
            if fields.len() != 12 {
                return None;
            }
            match read_u8(s, j1) {
                None => None,
                Some((idx, j2)) => match read_u8(s, j2) {
                    None => None,
                    Some((level, j3)) => {
                        let ghost l = fields@.map_values(|v: Vec<u8>| v@);
                        let mut f = fields;
                        let title = f.remove(0);
                        let title_translit = f.remove(0);
                        let subtitle = f.remove(0);
                        let artist = f.remove(0);
                        let artist_translit = f.remove(0);
                        let chart_author = f.remove(0);
                        let dname = f.remove(0);
                        let dshort = f.remove(0);
                        let disp_bpm = f.remove(0);
                        let jacket_filename = f.remove(0);
                        let jacket_author = f.remove(0);
                        let information = f.remove(0);
                        let m = MetaInfo {
                            title,
                            title_translit,
                            subtitle,
                            artist,
                            artist_translit,
                            chart_author,
                            difficulty: DifficultyInfo {
                                name: dname,
                                short_name: dshort,
                                idx,
                            },
                            level,
                            disp_bpm,
                            jacket_filename,
                            jacket_author,
                            information,
                        };
                        proof {
                            assert(m@ =~~= (par_meta(s@, i as int)->0).0);
                        }
                        Some((m, j3))
                    },
                },
            }
        },
    }
}

fn read_note(s: &Vec<u8>, i: usize) -> (r: Option<(NoteInfo, usize)>)
    ensures
        ({
            let p = par_note(s@, i as int);
            match r {
                None => p is None,
                Some((v, j)) => p == Some((v@, j as int)) && j <= s@.len(),
            }
        }),
{
    match read_lane_seq(s, i) {
        None => None,
        Some((bt, j1)) => match read_lane_seq(s, j1) {
            None => None,
            Some((fx, j2)) => match read_side_seq(s, j2) {
                None => None,
                Some((laser, j3)) => {
                    let n = NoteInfo { bt, fx, laser };
                    proof {
                        assert(n@ =~~= (par_note(s@, i as int)->0).0);
                    }
                    Some((n, j3))
                },
            },
        },
    }
}

fn read_beat(s: &Vec<u8>, i: usize) -> (r: Option<(BeatInfo, usize)>)
    ensures
        ({
            let p = par_beat(s@, i as int);
            match r {
                None => p is None,
                Some((v, j)) => p == Some((v@, j as int)) && j <= s@.len(),
            }
        }),
{
    match read_ev_seq(s, i) {
        None => None,
        Some((bpm, j1)) => match read_u32(s, j1) {
            None => None,
            Some((resolution, j2)) => {
                let b = BeatInfo { bpm, resolution };
                proof {
                    assert(b@ =~= (par_beat(s@, i as int)->0).0);
                }
                Some((b, j2))
            },
        },
    }
}

/// Decodes a chart from the persisted format; succeeds exactly when the
/// bytes are one whole encoded chart.
pub fn decode_chart(bytes: &Vec<u8>) -> (r: Option<Chart>)
    ensures
        r is Some <==> (par_chart(bytes@, 0) matches Some((c, j)) && j == bytes@.len()),
        r is Some ==> par_chart(bytes@, 0) == Some((r->0@, bytes@.len() as int)),
{
    match read_meta(bytes, 0) {
        None => None,
        Some((meta, j1)) => match read_note(bytes, j1) {
            None => None,
            Some((note, j2)) => match read_beat(bytes, j2) {
                None => None,
                Some((beat, j3)) => {
                    if j3 == bytes.len() {
                        let c = Chart { meta, note, beat };
                        proof {
                            assert(c@ =~= (par_chart(bytes@, 0)->0).0);
                        }
                        Some(c)
                    } else {
                        None
                    }
                },
            },
        },
    }
}

/// Encoding then decoding reproduces the chart exactly: the executable
/// shape of the round-trip law above.
pub fn encode_then_decode(c: &Chart) -> (r: Option<Chart>)
    ensures
        r is Some,
        r->0@ == c@,
{
    let bytes = encode_chart(c);
    proof {
        lemma_codec_round_trip(c@);
    }
    decode_chart(&bytes)
}

} // verus!
