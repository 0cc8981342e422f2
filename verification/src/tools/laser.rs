//! The laser-curve editing state machine: hit-testing, building new
//! sections, adjusting curve control points, and committing every change
//! through the action stack.
//!
//! Screen geometry is handed in as plain values: the surrounding event loop
//! converts pointer positions to whole pixels and fractional ticks to
//! milli-ticks, and supplies the pixel draw ranges that the coordinate
//! mapper assigns to a curve segment.
use crate::action_stack::{
    apply_spec, insert_section, remove_section, ActionError, ActionStack, ChartAction,
    RedoEntryView, UndoEntryView,
};
use crate::chart::{Chart, GraphSectionPoint, LaserSection, LaserSectionView, VALUE_SCALE};
use vstd::arithmetic::div_mod::lemma_div_is_ordered;
use vstd::prelude::*;

verus! {

/// Default easing parameter of a freshly drawn curve point: the midpoint.
pub const CURVE_DEFAULT: u32 = 5000;

/// One pixel sub-range that the external coordinate mapper assigns to a
/// span of ticks: a left edge, a top edge, a height, and the tick interval
/// `(t0, t1)` it covers, all as whole numbers.
#[derive(Clone, Copy, Debug, PartialEq, Eq)]
pub struct DrawRange {
    pub x: i64,
    pub y: i64,
    pub h: i64,
    pub t0: i64,
    pub t1: i64,
}

/// A pointer position in whole pixels.
#[derive(Clone, Copy, Debug, PartialEq, Eq)]
pub struct ScreenPos {
    pub x: i64,
    pub y: i64,
}

/// Why a curve-geometry query failed. Both cases mean the coordinate
/// mapper's ranges do not cover the queried segment; they are surfaced as
/// recoverable errors rather than treated as unreachable.
#[derive(Clone, Copy, Debug, PartialEq, Eq)]
pub enum GeometryError {
    /// No supplied range contains the easing parameter.
    CurveOutsideRanges,
    /// The range found has a zero-length tick interval (`t1 == t0`).
    DegenerateRange,
}

/// Magnitude bound on screen geometry inputs (pixels, ticks per range,
/// track widths), so that the fixed-point products below stay inside `i64`.
pub const GEOMETRY_BOUND: i64 = 1048576;

pub open spec fn abs_spec(n: int) -> int {
    if n >= 0 {
        n
    } else {
        -n
    }
}

/// Truncating signed division, the rounding of the editor's fixed-point
/// geometry.
pub open spec fn div_trunc_spec(n: int, d: int) -> int
    recommends
        d != 0,
{
    if (n >= 0) == (d >= 0) {
        abs_spec(n) / abs_spec(d)
    } else {
        -(abs_spec(n) / abs_spec(d))
    }
}

/// Truncating division on machine integers.
fn div_trunc(n: i64, d: i64) -> (r: i64)
    requires
        d != 0,
        -0x4000_0000_0000_0000 < n < 0x4000_0000_0000_0000,
        -0x4000_0000_0000_0000 < d < 0x4000_0000_0000_0000,
    ensures
        r == div_trunc_spec(n as int, d as int),
        abs_spec(r as int) == abs_spec(n as int) / abs_spec(d as int),
{
    let na: u64 = if n >= 0 {
        n as u64
    } else {
        (-n) as u64
    };
    let da: u64 = if d >= 0 {
        d as u64
    } else {
        (-d) as u64
    };
    let q = na / da;
    proof {
        lemma_div_is_ordered(q as int, na as int, da as int);
        assert(q <= na);
    }
    if (n >= 0) == (d >= 0) {
        q as i64
    } else {
        -(q as i64)
    }
}

/// Whether all fields of every range stay inside [`GEOMETRY_BOUND`].
pub open spec fn ranges_bounded(rs: Seq<DrawRange>) -> bool {
    forall|i: int|
        0 <= i < rs.len() ==> {
            let r = #[trigger] rs[i];
            &&& -GEOMETRY_BOUND <= r.x <= GEOMETRY_BOUND
            &&& -GEOMETRY_BOUND <= r.y <= GEOMETRY_BOUND
            &&& -GEOMETRY_BOUND <= r.h <= GEOMETRY_BOUND
            &&& -GEOMETRY_BOUND <= r.t0 <= GEOMETRY_BOUND
            &&& -GEOMETRY_BOUND <= r.t1 <= GEOMETRY_BOUND
        }
}

/// The first supplied range whose tick interval contains the easing
/// parameter `a`.
pub open spec fn range_for(rs: Seq<DrawRange>, a: int) -> Option<int>
    decreases rs.len(),
{
    if rs.len() == 0 {
        None
    } else if rs[0].t0 <= a && a <= rs[0].t1 {
        Some(0)
    } else {
        match range_for(rs.drop_first(), a) {
            Some(i) => Some(i + 1),
            None => None,
        }
    }
}

pub proof fn lemma_range_for(rs: Seq<DrawRange>, a: int)
    ensures
        match range_for(rs, a) {
            Some(i) => 0 <= i < rs.len() && rs[i].t0 <= a && a <= rs[i].t1 && forall|j: int|
                0 <= j < i ==> !(#[trigger] rs[j].t0 <= a && a <= rs[j].t1),
            None => forall|j: int|
                0 <= j < rs.len() ==> !(#[trigger] rs[j].t0 <= a && a <= rs[j].t1),
        },
    decreases rs.len(),
{
    if rs.len() > 0 && !(rs[0].t0 <= a && a <= rs[0].t1) {
        lemma_range_for(rs.drop_first(), a);
        assert forall|j: int| 1 <= j < rs.len() implies rs.drop_first()[j - 1] == rs[j] by {}
    }
}

/// Where on screen the curve control point between two adjacent points
/// sits, resolved through the supplied draw ranges with truncating
/// fixed-point arithmetic: `None` when the segment defines no control point
/// (missing easing parameters or a zero-length segment), the exact pixel
/// position otherwise.
pub open spec fn control_point_pos_spec(
    p0: GraphSectionPoint,
    p1: GraphSectionPoint,
    ranges: Seq<DrawRange>,
    track_width: int,
    x_offset: int,
) -> Result<Option<ScreenPos>, GeometryError> {
    if p0.a is None || p0.b is None {
        Ok(None)
    } else if p0.ry == p1.ry {
        Ok(None)
    } else {
        let a = p0.a->0 as int;
        let start_value = (if p0.vf is Some {
            p0.vf->0
        } else {
            p0.v
        }) as int;
        match range_for(ranges, a) {
            None => Err(GeometryError::CurveOutsideRanges),
            Some(i) => {
                let rg = ranges[i];
                if rg.t1 == rg.t0 {
                    Err(GeometryError::DegenerateRange)
                } else {
                    let value_width = p1.v - start_value;
                    let xf = start_value + div_trunc_spec(
                        p0.b->0 * value_width,
                        VALUE_SCALE as int,
                    );
                    let x2 = (VALUE_SCALE as int) / 10 + div_trunc_spec(xf * 8, 10);
                    let px = div_trunc_spec(x2 * track_width, VALUE_SCALE as int) + rg.x
                        + track_width / 2 - x_offset;
                    let py = rg.y + div_trunc_spec(rg.h * (a - rg.t0), rg.t1 - rg.t0);
                    Ok(Some(ScreenPos { x: px as i64, y: py as i64 }))
                }
            },
        }
    }
}

/// Resolves the screen position of the control point between `p0` and its
/// successor `p1`. The section invariant (`p0.ry <= p1.ry`) makes a segment
/// that ends before it starts impossible here, so no fatal case is left; a
/// parameter outside every range is a recoverable error.
pub fn control_point_pos(
    p0: &GraphSectionPoint,
    p1: &GraphSectionPoint,
    ranges: &Vec<DrawRange>,
    track_width: i64,
    x_offset: i64,
) -> (r: Result<Option<ScreenPos>, GeometryError>)
    requires
        p0.ry <= p1.ry,
        p0.in_range(),
        p1.in_range(),
        ranges_bounded(ranges@),
        0 <= track_width <= GEOMETRY_BOUND,
        -GEOMETRY_BOUND <= x_offset <= GEOMETRY_BOUND,
    ensures
        r == control_point_pos_spec(*p0, *p1, ranges@, track_width as int, x_offset as int),
{
    let (a32, b32) = match (p0.a, p0.b) {
        (Some(a), Some(b)) => (a, b),
        _ => {
            return Ok(None);
        },
    };
    if p0.ry == p1.ry {
        return Ok(None);
    }
    let a: i64 = a32 as i64;
    let start_value: i64 = match p0.vf {
        Some(vf) => vf as i64,
        None => p0.v as i64,
    };
    proof {
        lemma_range_for(ranges@, a as int);
    }
    let mut i: usize = 0;
    let mut found: Option<usize> = None;
    while i < ranges.len() && found.is_none()
        invariant
            i <= ranges@.len(),
            found is None ==> forall|j: int|
                0 <= j < i ==> !(#[trigger] ranges@[j].t0 <= a && a <= ranges@[j].t1),
            found is Some ==> {
                let k = found->0 as int;
                &&& k < ranges@.len()
                &&& ranges@[k].t0 <= a && a <= ranges@[k].t1
                &&& forall|j: int| 0 <= j < k ==> !(#[trigger] ranges@[j].t0 <= a && a <= ranges@[j].t1)
            },
        decreases ranges@.len() - i + (if found is Some { 0int } else { 1int }),
    {
        let rg = ranges[i];
        if rg.t0 <= a && a <= rg.t1 {
            found = Some(i);
        } else {
            i = i + 1;
        }
    }
    let k = match found {
        None => {
            return Err(GeometryError::CurveOutsideRanges);
        },
        Some(k) => k,
    };
    proof {
        let si = range_for(ranges@, a as int)->0;
        if si < k as int {
            assert(!(ranges@[si].t0 <= a && a <= ranges@[si].t1));
        }
        if (k as int) < si {
            assert(!(ranges@[k as int].t0 <= a && a <= ranges@[k as int].t1));
        }
        assert(si == k as int);
    }
    let rg = ranges[k];
    if rg.t1 == rg.t0 {
        return Err(GeometryError::DegenerateRange);
    }
    let value_width: i64 = p1.v as i64 - start_value;
    let bv: i64 = b32 as i64;
    proof {
        assert(-100000000 <= bv * value_width <= 100000000) by (nonlinear_arith)
            requires
                0 <= bv <= 10000,
                -10000 <= value_width <= 10000,
        ;
    }
    let bw: i64 = bv * value_width;
    let xf: i64 = start_value + div_trunc(bw, VALUE_SCALE as i64);
    proof {
        assert(abs_spec(bw as int) / (VALUE_SCALE as int) <= 100000000int / (VALUE_SCALE as int)) by {
            lemma_div_is_ordered(abs_spec(bw as int), 100000000, VALUE_SCALE as int);
        }
        assert(-10000 <= xf && xf <= 20000);
    }
    let x2: i64 = (VALUE_SCALE / 10) as i64 + div_trunc(xf * 8, 10);
    proof {
        assert(abs_spec(8 * xf as int) / 10 <= 160000int / 10) by {
            lemma_div_is_ordered(abs_spec(8 * xf as int), 160000, 10);
        }
        assert(-15000 <= x2 && x2 <= 17000);
        assert(x2 * track_width <= 17000 * GEOMETRY_BOUND && x2 * track_width >= -15000
            * GEOMETRY_BOUND) by (nonlinear_arith)
            requires
                -15000 <= x2 <= 17000,
                0 <= track_width <= GEOMETRY_BOUND,
        ;
    }
    let xt: i64 = x2 * track_width;
    proof {
        assert(abs_spec(xt as int) / (VALUE_SCALE as int) <= 17825792000int / (VALUE_SCALE as int))
            by {
            lemma_div_is_ordered(abs_spec(xt as int), 17825792000, VALUE_SCALE as int);
        }
    }
    let px: i64 = div_trunc(xt, VALUE_SCALE as i64) + rg.x + (track_width as u64 / 2) as i64
        - x_offset;
    proof {
        assert(-GEOMETRY_BOUND <= rg.h <= GEOMETRY_BOUND);
    }
    let diff: i64 = a - rg.t0;
    let hv: i64 = rg.h;
    proof {
        assert(-2097152 * GEOMETRY_BOUND <= hv * diff <= 2097152 * GEOMETRY_BOUND)
            by (nonlinear_arith)
            requires
                -GEOMETRY_BOUND <= hv <= GEOMETRY_BOUND,
                -GEOMETRY_BOUND - 10000 <= diff <= GEOMETRY_BOUND + 10000,
        ;
    }
    let ht: i64 = hv * diff;
    let span: i64 = rg.t1 - rg.t0;
    proof {
        assert(abs_spec(span as int) >= 1);
        lemma_div_is_ordered_by_denominator_shim(abs_spec(ht as int), abs_spec(span as int));
    }
    let py: i64 = rg.y + div_trunc(ht, span);
    proof {
        assert(track_width / 2 == (track_width as u64 / 2) as i64 as int);
    }
    Ok(Some(ScreenPos { x: px, y: py }))
}

/// For a non-negative numerator, dividing by a larger denominator gives no
/// larger a quotient than dividing by one.
proof fn lemma_div_is_ordered_by_denominator_shim(x: int, d: int)
    requires
        x >= 0,
        d >= 1,
    ensures
        x / d <= x,
{
    vstd::arithmetic::div_mod::lemma_div_is_ordered_by_denominator(x, 1, d);
    assert(x / 1 == x) by {
        vstd::arithmetic::div_mod::lemma_div_basics_1(x);
    }
}

// ---------------------------------------------------------------------------
// The laser tool
// ---------------------------------------------------------------------------

/// Which committed section an `Edit` gesture works on, and which curve
/// segment (if any) is being bent.
#[derive(Clone, Copy, Debug, PartialEq, Eq)]
pub struct LaserEditState {
    pub section_index: usize,
    pub curving_index: Option<usize>,
}

/// The editor's gesture state: idle, building a fresh section, or modifying
/// a committed one.
#[derive(Clone, Copy, Debug, PartialEq, Eq)]
pub enum LaserEditMode {
    Idle,
    New,
    Edit(LaserEditState),
}

/// The laser editing tool for one side of the track.
pub struct LaserTool {
    right: bool,
    section: LaserSection,
    mode: LaserEditMode,
}

/// The mathematical value of a [`LaserTool`].
#[verifier::ext_equal]
pub ghost struct LaserToolView {
    pub right: bool,
    pub section: LaserSectionView,
    pub mode: LaserEditMode,
}

impl View for LaserTool {
    type V = LaserToolView;

    closed spec fn view(&self) -> LaserToolView {
        LaserToolView { right: self.right, section: self.section@, mode: self.mode }
    }
}

impl LaserToolView {
    /// The tool invariant: a gesture in progress always carries a
    /// well-formed working section (so that finalizing it can never commit
    /// a malformed one), with at least the two points a fresh gesture
    /// starts with while in `New`, and a curving index that names an
    /// existing segment while in `Edit`.
    pub open spec fn wf(self) -> bool {
        match self.mode {
            LaserEditMode::Idle => true,
            LaserEditMode::New => self.section.v.len() >= 2 && self.section.wf(),
            LaserEditMode::Edit(st) => self.section.wf() && (st.curving_index is Some
                ==> st.curving_index->0 + 1 < self.section.v.len()),
        }
    }
}

/// A fresh curve point of the newer tool: eased with midpoint parameters.
pub open spec fn gsp_spec(ry: u32, v: u32) -> GraphSectionPoint {
    GraphSectionPoint { ry, v, vf: None, a: Some(CURVE_DEFAULT), b: Some(CURVE_DEFAULT) }
}

/// The relative offset a new interaction at `tick` gets: clamped to the
/// section start and widened to the second-to-last point's offset, so it
/// never decreases.
pub open spec fn calc_ry_spec(sec: LaserSectionView, tick: u32) -> u32 {
    let base: u32 = if tick <= sec.y {
        0
    } else {
        (tick - sec.y) as u32
    };
    if sec.v.len() >= 2 && sec.v[sec.v.len() - 2].ry > base {
        sec.v[sec.v.len() - 2].ry
    } else {
        base
    }
}

/// Where the open trailing point moves when the pointer stands at `tick`
/// with lane value `val`: at the widened offset; a slam (same offset as the
/// second-to-last point) keeps the approached value and records `val` as
/// the post-jump value.
pub open spec fn open_point_spec(sec: LaserSectionView, tick: u32, val: u32) -> GraphSectionPoint
    recommends
        sec.v.len() >= 2,
{
    let ry = calc_ry_spec(sec, tick);
    let last = sec.v.last();
    let sl = sec.v[sec.v.len() - 2];
    if sl.ry == ry {
        GraphSectionPoint { ry, v: sl.v, vf: Some(val), a: last.a, b: last.b }
    } else {
        GraphSectionPoint { ry, v: val, vf: None, a: last.a, b: last.b }
    }
}

/// Whether an interaction at `tick` with value `val` closes a `New`
/// gesture: it lands exactly on the second-to-last point — on its offset
/// alone when that point is a slam, on offset and value otherwise.
pub open spec fn finalize_cond(sec: LaserSectionView, tick: u32, val: u32) -> bool
    recommends
        sec.v.len() >= 2,
{
    let ry = calc_ry_spec(sec, tick);
    let sl = sec.v[sec.v.len() - 2];
    if sl.vf is Some {
        ry == sl.ry
    } else {
        ry == sl.ry && val == sl.v
    }
}

/// The index of the first section of a side whose span contains `tick`.
pub open spec fn hit_test_spec(s: Seq<LaserSectionView>, tick: u32) -> Option<int>
    decreases s.len(),
{
    if s.len() == 0 {
        None
    } else if s[0].contains_tick(tick) {
        Some(0)
    } else {
        match hit_test_spec(s.drop_first(), tick) {
            Some(i) => Some(i + 1),
            None => None,
        }
    }
}

pub proof fn lemma_hit_test(s: Seq<LaserSectionView>, tick: u32)
    ensures
        match hit_test_spec(s, tick) {
            Some(i) => 0 <= i < s.len() && s[i].contains_tick(tick) && forall|j: int|
                0 <= j < i ==> !(#[trigger] s[j]).contains_tick(tick),
            None => forall|j: int| 0 <= j < s.len() ==> !(#[trigger] s[j]).contains_tick(tick),
        },
    decreases s.len(),
{
    if s.len() > 0 && !s[0].contains_tick(tick) {
        lemma_hit_test(s.drop_first(), tick);
        assert forall|j: int| 1 <= j < s.len() implies s.drop_first()[j - 1] == s[j] by {}
    }
}

/// Whether a control point at `p` is within the 5-pixel pick radius of the
/// pointer at `pos`.
pub open spec fn close_hit(p: ScreenPos, pos: ScreenPos) -> bool {
    (p.x - pos.x) * (p.x - pos.x) + (p.y - pos.y) * (p.y - pos.y) < 25
}

/// The views of per-segment range lists.
pub open spec fn window_views(wrs: Seq<Vec<DrawRange>>) -> Seq<Seq<DrawRange>> {
    wrs.map_values(|v: Vec<DrawRange>| v@)
}

/// Scanning the curve control points of adjacent point pairs, from segment
/// `i` on with `acc` already picked: the last segment whose control point
/// lies within the pick radius wins; a geometry failure aborts the scan.
pub open spec fn curving_scan(
    points: Seq<GraphSectionPoint>,
    wrs: Seq<Seq<DrawRange>>,
    tw: int,
    xo: int,
    pos: ScreenPos,
    i: int,
    acc: Option<int>,
) -> Result<Option<int>, GeometryError>
    decreases points.len() - i,
{
    if i < 0 || i + 1 >= points.len() {
        Ok(acc)
    } else {
        match control_point_pos_spec(points[i], points[i + 1], wrs[i], tw, xo) {
            Err(e) => Err(e),
            Ok(None) => curving_scan(points, wrs, tw, xo, pos, i + 1, acc),
            Ok(Some(p)) => curving_scan(
                points,
                wrs,
                tw,
                xo,
                pos,
                i + 1,
                if close_hit(p, pos) {
                    Some(i)
                } else {
                    acc
                },
            ),
        }
    }
}

impl LaserTool {
    /// A fresh idle tool for the left (`right == false`) or right side.
    pub fn new(right: bool) -> (r: LaserTool)
        ensures
            r@.right == right,
            r@.mode == LaserEditMode::Idle,
            r@.section =~= (LaserSectionView { y: 0, wide: 0, v: Seq::empty() }),
            r@.wf(),
    {
        LaserTool {
            right,
            mode: LaserEditMode::Idle,
            section: LaserSection { y: 0, wide: 0, v: Vec::new() },
        }
    }

    /// Which side this tool edits.
    pub fn right(&self) -> (r: bool)
        ensures
            r == self@.right,
    {
        self.right
    }

    /// The working section of the gesture in progress.
    pub fn section(&self) -> (r: &LaserSection)
        ensures
            r@ == self@.section,
    {
        &self.section
    }

    /// The current gesture state.
    pub fn mode(&self) -> (r: LaserEditMode)
        ensures
            r == self@.mode,
    {
        self.mode
    }

    /// A fresh eased curve point.
    fn gsp(ry: u32, v: u32) -> (r: GraphSectionPoint)
        ensures
            r == gsp_spec(ry, v),
    {
        GraphSectionPoint { ry, v, vf: None, a: Some(CURVE_DEFAULT), b: Some(CURVE_DEFAULT) }
    }

    /// The second-to-last point of the working section, if there are two.
    fn get_second_to_last(&self) -> (r: Option<GraphSectionPoint>)
        ensures
            r is Some <==> self@.section.v.len() >= 2,
            r is Some ==> r->0 == self@.section.v[self@.section.v.len() - 2],
    {
        let len = self.section.v.len();
        if len >= 2 {
            Some(self.section.v[len - 2])
        } else {
            None
        }
    }

    /// The widened relative offset for an interaction at `tick`.
    fn calc_ry(&self, tick: u32) -> (r: u32)
        ensures
            r == calc_ry_spec(self@.section, tick),
    {
        let ry = if tick <= self.section.y {
            0
        } else {
            tick - self.section.y
        };
        match self.get_second_to_last() {
            Some(sl) => {
                if sl.ry > ry {
                    sl.ry
                } else {
                    ry
                }
            },
            None => ry,
        }
    }

    /// The index of the committed section on this tool's side whose span
    /// contains `tick`, if one exists: the earliest such section.
    #[verifier::rlimit(100)]
    pub fn hit_test(&self, chart: &Chart, tick: u32) -> (r: Option<usize>)
        requires
            chart@.note.laser.len() == 2,
        ensures
            ({
                let side: int = if self@.right {
                    1
                } else {
                    0
                };
                let spec_r = hit_test_spec(chart@.note.laser[side], tick);
                &&& r is Some <==> spec_r is Some
                &&& (r is Some ==> r->0 as int == spec_r->0 && r->0 < chart@.note.laser[side].len())
            }),
    {
        let side: usize = if self.right {
            1
        } else {
            0
        };
        let lane = &chart.note.laser[side];
        let ghost vs = chart@.note.laser[side as int];
        proof {
            assert(vs == crate::chart::laser_lane_view(lane@));
        }
        let mut i: usize = 0;
        while i < lane.len()
            invariant
                i <= lane@.len(),
                vs == crate::chart::laser_lane_view(lane@),
                vs == chart@.note.laser[if self@.right { 1int } else { 0int }],
                vs.len() == lane@.len(),
                forall|j: int| 0 <= j < i ==> !(#[trigger] vs[j]).contains_tick(tick),
            decreases lane@.len() - i,
        {
            proof {
                assert(vs[i as int] == lane@[i as int]@);
            }
            if lane[i].contains_tick(tick) {
                proof {
                    lemma_hit_test(vs, tick);
                    let si = hit_test_spec(vs, tick);
                    assert(si is Some);
                    if si->0 < i as int {
                        assert(!vs[si->0].contains_tick(tick));
                    }
                    if (i as int) < si->0 {
                        assert(!vs[i as int].contains_tick(tick));
                    }
                    assert(vs[i as int].contains_tick(tick));
                    assert(!(si->0 < i as int) && !((i as int) < si->0));
                    assert(i as int == si->0);
                    assert(vs == chart@.note.laser[if self@.right { 1int } else { 0int }]);
                }
                return Some(i);
            }
            i = i + 1;
        }
        proof {
            lemma_hit_test(vs, tick);
        }
        None
    }

    /// Moves the open trailing point of a `New` gesture to the pointer,
    /// turning it into a slam when it lands on the second-to-last point's
    /// offset.
    fn track_open_point(&mut self, tick: u32, val: u32)
        requires
            old(self)@.mode == LaserEditMode::New,
            old(self)@.wf(),
            val <= VALUE_SCALE,
        ensures
            final(self)@.right == old(self)@.right,
            final(self)@.mode == old(self)@.mode,
            final(self)@.section.y == old(self)@.section.y,
            final(self)@.section.wide == old(self)@.section.wide,
            final(self)@.section.v == old(self)@.section.v.update(
                old(self)@.section.v.len() - 1,
                open_point_spec(old(self)@.section, tick, val),
            ),
            final(self)@.wf(),
    {
        let ry = self.calc_ry(tick);
        let len = self.section.v.len();
        let last = self.section.v[len - 1];
        let sl = self.section.v[len - 2];
        let np = if sl.ry == ry {
            GraphSectionPoint { ry, v: sl.v, vf: Some(val), a: last.a, b: last.b }
        } else {
            GraphSectionPoint { ry, v: val, vf: None, a: last.a, b: last.b }
        };
        self.section.v.set(len - 1, np);
        proof {
            let ns = self@.section;
            assert forall|i: int| 0 <= i < ns.v.len() - 1 implies #[trigger] ns.v[i].ry <= ns.v[i
                + 1].ry by {
                if i + 1 < ns.v.len() - 1 {
                    assert(ns.v[i] == old(self)@.section.v[i]);
                    assert(ns.v[i + 1] == old(self)@.section.v[i + 1]);
                }
            }
            assert forall|i: int| 0 <= i < ns.v.len() implies (#[trigger] ns.v[i]).in_range() by {
                if i < ns.v.len() - 1 {
                    assert(ns.v[i] == old(self)@.section.v[i]);
                }
            }
        }
    }
}

/// An index option widened to mathematical integers.
pub open spec fn opt_int(o: Option<usize>) -> Option<int> {
    match o {
        Some(u) => Some(u as int),
        None => None,
    }
}

/// A pair at distance 5 or more on either axis is outside the pick radius.
proof fn lemma_far_hit(dx: int, dy: int)
    requires
        dx >= 5 || dx <= -5 || dy >= 5 || dy <= -5,
    ensures
        dx * dx + dy * dy >= 25,
{
    assert(dx * dx >= 0 && dy * dy >= 0 && (dx >= 5 || dx <= -5 ==> dx * dx >= 25) && (dy >= 5
        || dy <= -5 ==> dy * dy >= 25)) by (nonlinear_arith);
}

impl LaserTool {
    /// The section a finalized `New` gesture commits: the working section
    /// without its open trailing point.
    pub open spec fn committed_spec(t: LaserToolView) -> LaserSectionView {
        LaserSectionView { y: t.section.y, wide: t.section.wide, v: t.section.v.drop_last() }
    }

    /// Advances a `New` gesture: the open point follows the pointer; an
    /// interaction landing exactly on the second-to-last point finalizes
    /// the gesture and commits the section (well-formed by the tool
    /// invariant: first offset 0, offsets non-decreasing) through the
    /// action stack; any other appends a new open point.
    #[verifier::rlimit(100)]
    fn drag_new(&mut self, tick: u32, val: u32, actions: &mut ActionStack)
        requires
            old(self)@.mode == LaserEditMode::New,
            old(self)@.wf(),
            old(actions)@.wf(),
            val <= VALUE_SCALE,
        ensures
            final(self)@.wf(),
            final(actions)@.wf(),
            final(self)@.right == old(self)@.right,
            if finalize_cond(old(self)@.section, tick, val) {
                let side: int = if old(self)@.right {
                    1
                } else {
                    0
                };
                let committed = Self::committed_spec(old(self)@);
                &&& committed.wf()
                &&& final(self)@.mode == LaserEditMode::Idle
                &&& final(self)@.section == (LaserSectionView { y: 0, wide: 1, v: Seq::empty() })
                &&& final(actions)@.chart == insert_section(old(actions)@.chart, side, committed)
                &&& final(actions)@.redo == Seq::<RedoEntryView>::empty()
                &&& final(actions)@.undo.len() == old(actions)@.undo.len() + 1
                &&& final(actions)@.undo.drop_last() == old(actions)@.undo
                &&& final(actions)@.undo.last().before == old(actions)@.chart
                &&& (final(actions)@.undo.last().action matches ChartAction::AddLaserSection {
                    right: r2,
                    section: s2,
                } && r2 == old(self)@.right && s2@ == committed)
            } else {
                &&& final(actions)@ == old(actions)@
                &&& final(self)@.mode == LaserEditMode::New
                &&& final(self)@.section.y == old(self)@.section.y
                &&& final(self)@.section.wide == old(self)@.section.wide
                &&& final(self)@.section.v == old(self)@.section.v.update(
                    old(self)@.section.v.len() - 1,
                    open_point_spec(old(self)@.section, tick, val),
                ).push(gsp_spec(calc_ry_spec(old(self)@.section, tick), val))
            },
    {
        let ghost pre = self@;
        let fin = {
            let ry = self.calc_ry(tick);
            match self.get_second_to_last() {
                Some(sl) => match sl.vf {
                    Some(_) => ry == sl.ry,
                    None => ry == sl.ry && val == sl.v,
                },
                None => false,
            }
        };
        self.track_open_point(tick, val);
        if fin {
            self.section.v.pop();
            let mut fresh = LaserSection { y: 0, wide: 1, v: Vec::new() };
            core::mem::swap(&mut self.section, &mut fresh);
            self.mode = LaserEditMode::Idle;
            proof {
                assert(self@.section =~= (LaserSectionView { y: 0, wide: 1, v: Seq::empty() }));
                let cm = Self::committed_spec(pre);
                assert(fresh@.v =~= pre.section.v.drop_last());
                assert(fresh@ =~= cm);
                assert(cm.wf()) by {
                    assert forall|i: int| 0 <= i < cm.v.len() implies (
                    #[trigger] cm.v[i]).in_range() by {
                        assert(cm.v[i] == pre.section.v[i]);
                    }
                    assert forall|i: int| 0 <= i < cm.v.len() - 1 implies #[trigger] cm.v[i].ry
                        <= cm.v[i + 1].ry by {
                        assert(cm.v[i] == pre.section.v[i] && cm.v[i + 1] == pre.section.v[i + 1]);
                    }
                }
            }
            let act = ChartAction::AddLaserSection { right: self.right, section: fresh };
            proof {
                assert(apply_spec(act, actions@.chart) is Ok);
            }
            let ghost pre_actions = actions@;
            match actions.new_action(act) {
                Ok(()) => {
                    proof {
                        assert(actions@.undo.drop_last() =~= pre_actions.undo);
                    }
                },
                Err(_) => {
                    vstd::pervasive::unreached::<()>();
                },
            }
        } else {
            let ry = self.calc_ry(tick);
            proof {
                assert(calc_ry_spec(self@.section, tick) == calc_ry_spec(pre.section, tick));
            }
            self.section.v.push(Self::gsp(ry, val));
            proof {
                let ns = self@.section;
                assert forall|i: int| 0 <= i < ns.v.len() - 1 implies #[trigger] ns.v[i].ry <= ns.v[i
                    + 1].ry by {}
                assert forall|i: int| 0 <= i < ns.v.len() implies (
                #[trigger] ns.v[i]).in_range() by {}
            }
        }
    }

    /// Scans the edited section's curve control points and picks the last
    /// one within the 5-pixel radius of the pointer, keeping the previous
    /// pick where none matches.
    #[verifier::loop_isolation(false)]
    #[verifier::rlimit(100)]
    fn scan_control_points(
        &self,
        window_ranges: &Vec<Vec<DrawRange>>,
        track_width: i64,
        x_offset: i64,
        pos: ScreenPos,
        prev: Option<usize>,
    ) -> (r: Result<Option<usize>, GeometryError>)
        requires
            self@.section.wf(),
            window_ranges@.len() + 1 >= self@.section.v.len(),
            forall|i: int|
                0 <= i < window_ranges@.len() ==> ranges_bounded((#[trigger] window_ranges@[i])@),
            0 <= track_width <= GEOMETRY_BOUND,
            -GEOMETRY_BOUND <= x_offset <= GEOMETRY_BOUND,
            prev is Some ==> prev->0 + 1 < self@.section.v.len(),
        ensures
            ({
                let scan = curving_scan(
                    self@.section.v,
                    window_views(window_ranges@),
                    track_width as int,
                    x_offset as int,
                    pos,
                    0,
                    opt_int(prev),
                );
                match r {
                    Ok(opt) => scan == Ok::<Option<int>, GeometryError>(opt_int(opt)) && (
                    opt is Some ==> opt->0 + 1 < self@.section.v.len()),
                    Err(e) => scan == Err::<Option<int>, GeometryError>(e),
                }
            }),
    {
        let ghost points = self@.section.v;
        let ghost wrs = window_views(window_ranges@);
        let mut acc: Option<usize> = prev;
        let mut i: usize = 0;
        let n = self.section.v.len();
        while i < n - 1
            invariant
                i <= n,
                acc is Some ==> acc->0 + 1 < n,
                curving_scan(
                    points,
                    wrs,
                    track_width as int,
                    x_offset as int,
                    pos,
                    i as int,
                    opt_int(acc),
                ) == curving_scan(
                    points,
                    wrs,
                    track_width as int,
                    x_offset as int,
                    pos,
                    0,
                    opt_int(prev),
                ),
            decreases n - i,
        {
            proof {
                assert(wrs[i as int] == window_ranges@[i as int]@);
            }
            let cp = control_point_pos(
                &self.section.v[i],
                &self.section.v[i + 1],
                &window_ranges[i],
                track_width,
                x_offset,
            );
            match cp {
                Err(e) => {
                    return Err(e);
                },
                Ok(None) => {},
                Ok(Some(p)) => {
                    let dx: i128 = p.x as i128 - pos.x as i128;
                    let dy: i128 = p.y as i128 - pos.y as i128;
                    let close: bool = if dx >= 5 || dx <= -5 || dy >= 5 || dy <= -5 {
                        proof {
                            lemma_far_hit(dx as int, dy as int);
                        }
                        false
                    } else {
                        proof {
                            assert(0 <= dx * dx <= 16 && 0 <= dy * dy <= 16) by (nonlinear_arith)
                                requires
                                    -5 < dx < 5,
                                    -5 < dy < 5,
                            ;
                        }
                        dx * dx + dy * dy < 25
                    };
                    if close {
                        acc = Some(i);
                    }
                },
            }
            i = i + 1;
        }
        Ok(acc)
    }

    /// Starts a gesture from the idle state: entering `Edit` on the
    /// committed section under the pointer, or opening a fresh two-point
    /// section.
    #[verifier::rlimit(100)]
    #[verifier::spinoff_prover]
    fn drag_idle(&mut self, tick: u32, val: u32, actions: &ActionStack)
        requires
            old(self)@.mode == LaserEditMode::Idle,
            old(self)@.wf(),
            actions@.wf(),
            val <= VALUE_SCALE,
        ensures
            final(self)@.wf(),
            final(self)@.right == old(self)@.right,
            ({
                let side: int = if old(self)@.right {
                    1
                } else {
                    0
                };
                match hit_test_spec(actions@.chart.note.laser[side], tick) {
                    Some(i) => final(self)@.section == actions@.chart.note.laser[side][i]
                        && final(self)@.mode == LaserEditMode::Edit(
                        LaserEditState { section_index: i as usize, curving_index: None },
                    ),
                    None => final(self)@.mode == LaserEditMode::New && final(self)@.section == (
                    LaserSectionView {
                        y: tick,
                        wide: 1,
                        v: seq![gsp_spec(0, val), gsp_spec(0, val)],
                    }),
                }
            }),
    {
        proof {
            crate::action_stack::lemma_stack_chart_wf(actions@);
        }
        let hit = self.hit_test(actions.chart(), tick);
        match hit {
            Some(section_index) => {
                let side: usize = if self.right {
                    1
                } else {
                    0
                };
                let chart = actions.chart();
                proof {
                    assert(crate::chart::laser_lane_view(chart.note.laser@[side as int]@)
                        == chart@.note.laser[side as int]);
                }
                self.section = chart.note.laser[side][section_index].duplicate();
                proof {
                    assert(self@.section == chart@.note.laser[side as int][section_index as int]);
                }
                self.mode = LaserEditMode::Edit(
                    LaserEditState { section_index, curving_index: None },
                );
            },
            None => {
                self.section = LaserSection { y: tick, wide: 1, v: Vec::new() };
                self.section.v.push(Self::gsp(0, val));
                self.section.v.push(Self::gsp(0, val));
                self.mode = LaserEditMode::New;
                proof {
                    assert(self@.section.v =~= seq![gsp_spec(0, val), gsp_spec(0, val)]);
                    assert(self@.section =~= (LaserSectionView {
                        y: tick,
                        wide: 1,
                        v: seq![gsp_spec(0, val), gsp_spec(0, val)],
                    }));
                }
            },
        }
    }

    /// Starts or advances a gesture at `tick` with lane value `val`.
    ///
    /// Idle: hit-testing decides between editing the committed section
    /// under the pointer and opening a fresh two-point section. New: see
    /// the finalization rule above. Edit: if the pointer still hits the
    /// edited section, the last control point within the pick radius starts
    /// curve adjustment; otherwise the gesture is abandoned.
    #[verifier::rlimit(100)]
    pub fn drag_start(
        &mut self,
        tick: u32,
        val: u32,
        actions: &mut ActionStack,
        pos: ScreenPos,
        window_ranges: &Vec<Vec<DrawRange>>,
        track_width: i64,
        x_offset: i64,
    ) -> (r: Result<(), GeometryError>)
        requires
            old(self)@.wf(),
            old(actions)@.wf(),
            val <= VALUE_SCALE,
            old(self)@.mode matches LaserEditMode::Edit(_) ==> window_ranges@.len() + 1 >= old(
                self,
            )@.section.v.len(),
            old(self)@.mode matches LaserEditMode::Edit(_) ==> forall|i: int|
                0 <= i < window_ranges@.len() ==> ranges_bounded((#[trigger] window_ranges@[i])@),
            old(self)@.mode matches LaserEditMode::Edit(_) ==> 0 <= track_width <= GEOMETRY_BOUND
                && -GEOMETRY_BOUND <= x_offset <= GEOMETRY_BOUND,
        ensures
            final(self)@.wf(),
            final(actions)@.wf(),
            final(self)@.right == old(self)@.right,
            old(self)@.mode == LaserEditMode::Idle ==> r is Ok && final(actions)@ == old(actions)@
                && {
                let side: int = if old(self)@.right {
                    1
                } else {
                    0
                };
                match hit_test_spec(old(actions)@.chart.note.laser[side], tick) {
                    Some(i) => final(self)@.section == old(actions)@.chart.note.laser[side][i]
                        && final(self)@.mode == LaserEditMode::Edit(
                        LaserEditState { section_index: i as usize, curving_index: None },
                    ),
                    None => final(self)@.mode == LaserEditMode::New && final(self)@.section == (
                    LaserSectionView {
                        y: tick,
                        wide: 1,
                        v: seq![gsp_spec(0, val), gsp_spec(0, val)],
                    }),
                }
            },
            old(self)@.mode == LaserEditMode::New ==> r is Ok && if finalize_cond(
                old(self)@.section,
                tick,
                val,
            ) {
                let side: int = if old(self)@.right {
                    1
                } else {
                    0
                };
                let committed = Self::committed_spec(old(self)@);
                &&& committed.wf()
                &&& final(self)@.mode == LaserEditMode::Idle
                &&& final(self)@.section == (LaserSectionView { y: 0, wide: 1, v: Seq::empty() })
                &&& final(actions)@.chart == insert_section(old(actions)@.chart, side, committed)
                &&& final(actions)@.redo == Seq::<RedoEntryView>::empty()
                &&& final(actions)@.undo.len() == old(actions)@.undo.len() + 1
                &&& final(actions)@.undo.drop_last() == old(actions)@.undo
                &&& final(actions)@.undo.last().before == old(actions)@.chart
                &&& (final(actions)@.undo.last().action matches ChartAction::AddLaserSection {
                    right: r2,
                    section: s2,
                } && r2 == old(self)@.right && s2@ == committed)
            } else {
                &&& final(actions)@ == old(actions)@
                &&& final(self)@.mode == LaserEditMode::New
                &&& final(self)@.section.y == old(self)@.section.y
                &&& final(self)@.section.wide == old(self)@.section.wide
                &&& final(self)@.section.v == old(self)@.section.v.update(
                    old(self)@.section.v.len() - 1,
                    open_point_spec(old(self)@.section, tick, val),
                ).push(gsp_spec(calc_ry_spec(old(self)@.section, tick), val))
            },
            old(self)@.mode matches LaserEditMode::Edit(st) ==> final(actions)@ == old(actions)@
                && {
                let side: int = if old(self)@.right {
                    1
                } else {
                    0
                };
                if hit_test_spec(old(actions)@.chart.note.laser[side], tick) == Some(
                    st.section_index as int,
                ) {
                    match curving_scan(
                        old(self)@.section.v,
                        window_views(window_ranges@),
                        track_width as int,
                        x_offset as int,
                        pos,
                        0,
                        opt_int(st.curving_index),
                    ) {
                        Err(e) => r == Err::<(), GeometryError>(e) && final(self)@ == old(self)@,
                        Ok(opt) => r is Ok && final(self)@.section == old(self)@.section && (
                        final(self)@.mode matches LaserEditMode::Edit(st2) && st2.section_index
                            == st.section_index && opt_int(st2.curving_index) == opt),
                    }
                } else {
                    r is Ok && final(self)@.mode == LaserEditMode::Idle && final(self)@.section
                        == (LaserSectionView { y: tick, wide: 1, v: Seq::empty() })
                }
            },
    {
        let mode = self.mode;
        match mode {
            LaserEditMode::Idle => {
                self.drag_idle(tick, val, actions);
                Ok(())
            },
            LaserEditMode::New => {
                self.drag_new(tick, val, actions);
                Ok(())
            },
            LaserEditMode::Edit(st) => {
                proof {
                    crate::action_stack::lemma_stack_chart_wf(actions@);
                }
                let hit = self.hit_test(actions.chart(), tick);
                let still = match hit {
                    Some(i) => i == st.section_index,
                    None => false,
                };
                if still {
                    match self.scan_control_points(
                        window_ranges,
                        track_width,
                        x_offset,
                        pos,
                        st.curving_index,
                    ) {
                        Err(e) => Err(e),
                        Ok(opt) => {
                            self.mode = LaserEditMode::Edit(
                                LaserEditState {
                                    section_index: st.section_index,
                                    curving_index: opt,
                                },
                            );
                            Ok(())
                        },
                    }
                } else {
                    self.section = LaserSection { y: tick, wide: 1, v: Vec::new() };
                    self.mode = LaserEditMode::Idle;
                    proof {
                        assert(self@.section =~= (LaserSectionView {
                            y: tick,
                            wide: 1,
                            v: Seq::empty(),
                        }));
                    }
                    Ok(())
                }
            },
        }
    }
}

impl LaserTool {
    /// Ends a drag: while a curve segment is being bent, commits the
    /// adjusted point through the action stack (the commit fails, changing
    /// nothing, exactly when the point no longer fits the committed
    /// section), then leaves curve-adjustment sub-mode.
    pub fn drag_end(&mut self, actions: &mut ActionStack) -> (r: Result<(), ActionError>)
        requires
            old(self)@.wf(),
            old(actions)@.wf(),
        ensures
            final(self)@.wf(),
            final(actions)@.wf(),
            final(self)@.right == old(self)@.right,
            final(self)@.section == old(self)@.section,
            ({
                match old(self)@.mode {
                    LaserEditMode::Edit(st) => {
                        &&& final(self)@.mode == LaserEditMode::Edit(
                            LaserEditState {
                                section_index: st.section_index,
                                curving_index: None,
                            },
                        )
                        &&& match st.curving_index {
                            Some(ci) => {
                                let act = ChartAction::AdjustLaserPoint {
                                    right: old(self)@.right,
                                    section_index: st.section_index,
                                    point_index: ci,
                                    point: old(self)@.section.v[ci as int],
                                };
                                if apply_spec(act, old(actions)@.chart) is Ok {
                                    &&& r is Ok
                                    &&& final(actions)@.chart == apply_spec(
                                        act,
                                        old(actions)@.chart,
                                    )->Ok_0
                                    &&& final(actions)@.redo == Seq::<RedoEntryView>::empty()
                                    &&& final(actions)@.undo == old(actions)@.undo.push(
                                        UndoEntryView { action: act, before: old(actions)@.chart },
                                    )
                                } else {
                                    &&& r == Err::<(), ActionError>(
                                        apply_spec(act, old(actions)@.chart)->Err_0,
                                    )
                                    &&& final(actions)@ == old(actions)@
                                }
                            },
                            None => r is Ok && final(actions)@ == old(actions)@,
                        }
                    },
                    _ => r is Ok && final(self)@.mode == old(self)@.mode && final(actions)@ == old(
                        actions,
                    )@,
                }
            }),
    {
        let mode = self.mode;
        match mode {
            LaserEditMode::Edit(st) => {
                let out: Result<(), ActionError> = match st.curving_index {
                    Some(ci) => {
                        let act = ChartAction::AdjustLaserPoint {
                            right: self.right,
                            section_index: st.section_index,
                            point_index: ci,
                            point: self.section.v[ci],
                        };
                        actions.new_action(act)
                    },
                    None => Ok(()),
                };
                self.mode = LaserEditMode::Edit(
                    LaserEditState { section_index: st.section_index, curving_index: None },
                );
                out
            },
            _ => Ok(()),
        }
    }

    /// A secondary (middle) interaction: removes the committed section
    /// whose span contains `tick`, if any, through the action stack.
    pub fn middle_click(&self, tick: u32, actions: &mut ActionStack)
        requires
            old(actions)@.wf(),
        ensures
            final(actions)@.wf(),
            ({
                let side: int = if self@.right {
                    1
                } else {
                    0
                };
                match hit_test_spec(old(actions)@.chart.note.laser[side], tick) {
                    Some(i) => {
                        &&& final(actions)@.chart == remove_section(old(actions)@.chart, side, i)
                        &&& final(actions)@.redo == Seq::<RedoEntryView>::empty()
                        &&& final(actions)@.undo.len() == old(actions)@.undo.len() + 1
                        &&& final(actions)@.undo.drop_last() == old(actions)@.undo
                        &&& final(actions)@.undo.last().before == old(actions)@.chart
                        &&& (final(actions)@.undo.last().action matches
                            ChartAction::RemoveLaserSection { right: r2, index: i2 } && r2
                            == self@.right && i2 as int == i)
                    },
                    None => final(actions)@ == old(actions)@,
                }
            }),
    {
        proof {
            crate::action_stack::lemma_stack_chart_wf(actions@);
        }
        let hit = self.hit_test(actions.chart(), tick);
        match hit {
            Some(index) => {
                let act = ChartAction::RemoveLaserSection { right: self.right, index };
                proof {
                    assert(apply_spec(act, actions@.chart) is Ok);
                }
                let ghost pre = actions@;
                match actions.new_action(act) {
                    Ok(()) => {
                        proof {
                            assert(actions@.undo.drop_last() =~= pre.undo);
                        }
                    },
                    Err(_) => {
                        vstd::pervasive::unreached::<()>();
                    },
                }
            },
            None => {},
        }
    }
}

/// A curve point with missing easing parameters defaulted to the midpoint.
pub open spec fn default_ab(p: GraphSectionPoint) -> GraphSectionPoint {
    GraphSectionPoint {
        a: if p.a is Some {
            p.a
        } else {
            Some(CURVE_DEFAULT)
        },
        b: if p.b is Some {
            p.b
        } else {
            Some(CURVE_DEFAULT)
        },
        ..p
    }
}

/// The clamped fraction `num / denom` of the pointer within a segment's
/// tick span, in fixed-point units: a degenerate span clamps to the end
/// the pointer lies beyond.
pub open spec fn ease_a_spec(num: int, denom: int) -> u32 {
    if denom <= 0 {
        if num > 0 {
            VALUE_SCALE
        } else {
            0
        }
    } else if num <= 0 {
        0
    } else if num >= denom {
        VALUE_SCALE
    } else {
        (num * (VALUE_SCALE as int) / denom) as u32
    }
}

/// The clamped fraction `num / denom` of the pointer within a segment's
/// value span: a degenerate or opposite-signed span clamps to whichever
/// end the editor's rounding of the division reaches.
pub open spec fn ease_b_spec(num: int, denom: int) -> u32 {
    if denom == 0 {
        if num < 0 {
            0
        } else {
            VALUE_SCALE
        }
    } else if (num >= 0) != (denom >= 0) {
        0
    } else if abs_spec(num) >= abs_spec(denom) {
        VALUE_SCALE
    } else {
        (abs_spec(num) * (VALUE_SCALE as int) / abs_spec(denom)) as u32
    }
}

impl LaserTool {
    /// Continuous pointer motion at `tick` (also given in milli-ticks for
    /// sub-tick precision) with the floored lane value `val` and the
    /// continuous scaled lane value `curve_val`.
    ///
    /// In `New`, the open trailing point follows the pointer. In `Edit`
    /// while a segment is being bent, every point first receives default
    /// easing parameters, then the bent point's easing follows the
    /// pointer: `a` the clamped fractional tick position within the
    /// segment's span, `b` the clamped fractional value position within
    /// the segment's value span, measured from the segment start's
    /// post-jump value when there is one. Idle motion changes nothing.
    #[verifier::rlimit(100)]
    pub fn update(&mut self, tick: u32, tick_milli: i64, val: u32, curve_val: i64)
        requires
            old(self)@.wf(),
            val <= VALUE_SCALE,
            -1000000000000 <= tick_milli <= 1000000000000,
            -GEOMETRY_BOUND <= curve_val <= GEOMETRY_BOUND,
        ensures
            final(self)@.wf(),
            final(self)@.right == old(self)@.right,
            final(self)@.mode == old(self)@.mode,
            final(self)@.section.y == old(self)@.section.y,
            final(self)@.section.wide == old(self)@.section.wide,
            old(self)@.mode == LaserEditMode::Idle ==> final(self)@ == old(self)@,
            old(self)@.mode == LaserEditMode::New ==> final(self)@.section.v == old(
                self,
            )@.section.v.update(
                old(self)@.section.v.len() - 1,
                open_point_spec(old(self)@.section, tick, val),
            ),
            old(self)@.mode matches LaserEditMode::Edit(st) ==> {
                let base = old(self)@.section.v.map_values(|p: GraphSectionPoint| default_ab(p));
                match st.curving_index {
                    None => final(self)@.section.v == base,
                    Some(ci) => {
                        let start_tick = (old(self)@.section.y + base[ci as int].ry) * 1000;
                        let end_tick = (old(self)@.section.y + base[ci + 1].ry) * 1000;
                        let sv: int = if base[ci as int].vf is Some {
                            base[ci as int].vf->0 as int
                        } else {
                            base[ci as int].v as int
                        };
                        let na = ease_a_spec(tick_milli - start_tick, end_tick - start_tick);
                        let nb = ease_b_spec(curve_val - sv, base[ci + 1].v - sv);
                        final(self)@.section.v == base.update(
                            ci as int,
                            GraphSectionPoint {
                                a: Some(na),
                                b: Some(nb),
                                ..base[ci as int]
                            },
                        )
                    },
                }
            },
    {
        let mode = self.mode;
        match mode {
            LaserEditMode::Idle => {},
            LaserEditMode::New => {
                self.track_open_point(tick, val);
            },
            LaserEditMode::Edit(st) => {
                let ghost pre = self@.section.v;
                let ghost base = pre.map_values(|p: GraphSectionPoint| default_ab(p));
                let n = self.section.v.len();
                let mut i: usize = 0;
                while i < n
                    invariant
                        n == self@.section.v.len(),
                        i <= n,
                        base == pre.map_values(|p: GraphSectionPoint| default_ab(p)),
                        base.len() == n,
                        forall|j: int| 0 <= j < i ==> self@.section.v[j] == base[j],
                        forall|j: int| i <= j < n ==> self@.section.v[j] == pre[j],
                        self@.section.y == old(self)@.section.y,
                        self@.section.wide == old(self)@.section.wide,
                        self@.right == old(self)@.right,
                        self@.mode == old(self)@.mode,
                    decreases n - i,
                {
                    let mut p = self.section.v[i];
                    if p.a.is_none() {
                        p.a = Some(CURVE_DEFAULT);
                    }
                    if p.b.is_none() {
                        p.b = Some(CURVE_DEFAULT);
                    }
                    proof {
                        assert(p == default_ab(pre[i as int]));
                    }
                    self.section.v.set(i, p);
                    i = i + 1;
                }
                proof {
                    assert(self@.section.v =~= base);
                    assert forall|j: int| 0 <= j < n implies (
                    #[trigger] self@.section.v[j]).in_range() by {
                        assert(pre[j].in_range());
                    }
                    assert forall|j: int| 0 <= j < n - 1 implies #[trigger] self@.section.v[j].ry
                        <= self@.section.v[j + 1].ry by {
                        assert(pre[j].ry <= pre[j + 1].ry);
                    }
                }
                if let Some(ci) = st.curving_index {
                    let p0 = self.section.v[ci];
                    let p1 = self.section.v[ci + 1];
                    let start_tick: i64 = (self.section.y as i64 + p0.ry as i64) * 1000;
                    let end_tick: i64 = (self.section.y as i64 + p1.ry as i64) * 1000;
                    let num_a: i64 = tick_milli - start_tick;
                    let den_a: i64 = end_tick - start_tick;
                    let na: u32 = if den_a <= 0 {
                        if num_a > 0 {
                            VALUE_SCALE
                        } else {
                            0
                        }
                    } else if num_a <= 0 {
                        0
                    } else if num_a >= den_a {
                        VALUE_SCALE
                    } else {
                        let q: u64 = (num_a as u64 * VALUE_SCALE as u64) / (den_a as u64);
                        proof {
                            vstd::arithmetic::div_mod::lemma_multiply_divide_lt(
                                num_a as int * (VALUE_SCALE as int),
                                den_a as int,
                                VALUE_SCALE as int,
                            );
                        }
                        q as u32
                    };
                    let sv: i64 = match p0.vf {
                        Some(x) => x as i64,
                        None => p0.v as i64,
                    };
                    let num_b: i64 = curve_val - sv;
                    let den_b: i64 = p1.v as i64 - sv;
                    let nb: u32 = if den_b == 0 {
                        if num_b < 0 {
                            0
                        } else {
                            VALUE_SCALE
                        }
                    } else if (num_b >= 0) != (den_b >= 0) {
                        0
                    } else {
                        let nab: u64 = if num_b >= 0 {
                            num_b as u64
                        } else {
                            (-num_b) as u64
                        };
                        let dab: u64 = if den_b >= 0 {
                            den_b as u64
                        } else {
                            (-den_b) as u64
                        };
                        if nab >= dab {
                            VALUE_SCALE
                        } else {
                            let q: u64 = (nab * VALUE_SCALE as u64) / dab;
                            proof {
                                vstd::arithmetic::div_mod::lemma_multiply_divide_lt(
                                    nab as int * (VALUE_SCALE as int),
                                    dab as int,
                                    VALUE_SCALE as int,
                                );
                            }
                            q as u32
                        }
                    };
                    let np = GraphSectionPoint { a: Some(na), b: Some(nb), ..p0 };
                    self.section.v.set(ci, np);
                    proof {
                        assert(na == ease_a_spec(
                            tick_milli - (old(self)@.section.y + base[ci as int].ry) * 1000,
                            (old(self)@.section.y + base[ci + 1].ry) * 1000 - (old(
                                self,
                            )@.section.y + base[ci as int].ry) * 1000,
                        ));
                        assert(self@.section.v =~= base.update(
                            ci as int,
                            GraphSectionPoint { a: Some(na), b: Some(nb), ..base[ci as int] },
                        ));
                        let ns = self@.section;
                        assert forall|j: int| 0 <= j < ns.v.len() implies (
                        #[trigger] ns.v[j]).in_range() by {
                            if j != ci {
                                assert(ns.v[j] == base[j]);
                            }
                        }
                        assert forall|j: int| 0 <= j < ns.v.len() - 1 implies #[trigger] ns.v[j].ry
                            <= ns.v[j + 1].ry by {
                            assert(ns.v[j].ry == base[j].ry && ns.v[j + 1].ry == base[j + 1].ry);
                        }
                    }
                }
            },
        }
    }
}

} // verus!
