//! The reversible-action engine: a linear undo/redo history over one
//! canonical [`Chart`].
//!
//! Every mutation of the canonical chart is a [`ChartAction`], a tagged
//! variant carrying its own payload. Committing an action either applies it
//! whole or fails with no effect; undo restores the exact prior chart from
//! the stored snapshot and redo re-applies the undone action.
use crate::chart::{
    dup_intervals, dup_laser_lane, intervals_wf, laser_lane_view, laser_lane_wf, Chart, ChartView,
    GraphSectionPoint, Interval, LaserSection, LaserSectionView, NoteInfoView,
};
use vstd::prelude::*;

verus! {

/// Why a committed action was refused. A refused action leaves the
/// canonical chart untouched.
#[derive(Clone, Copy, Debug, PartialEq, Eq)]
pub enum ActionError {
    /// The lane index is outside the chart's fixed lane count.
    LaneOutOfRange,
    /// The section or interval index does not name an existing element.
    IndexOutOfRange,
    /// Inserting the interval would overlap a neighbouring note.
    Overlap,
    /// The laser section breaks the section invariant.
    MalformedSection,
    /// The replacement curve point breaks the section invariant.
    MalformedPoint,
}

/// One reversible mutation of the chart.
#[derive(Clone, Debug, PartialEq)]
pub enum ChartAction {
    /// Insert a button (`fx == false`) or effect (`fx == true`) note into
    /// the given lane, keeping the lane sorted.
    AddInterval { fx: bool, lane: usize, interval: Interval },
    /// Remove the note at `index` from the given lane.
    RemoveInterval { fx: bool, lane: usize, index: usize },
    /// Insert a finished laser section into the given side, keeping the
    /// side sorted by start tick.
    AddLaserSection { right: bool, section: LaserSection },
    /// Remove the section at `index` from the given side.
    RemoveLaserSection { right: bool, index: usize },
    /// Overwrite one curve point of an existing section.
    AdjustLaserPoint {
        right: bool,
        section_index: usize,
        point_index: usize,
        point: GraphSectionPoint,
    },
}

/// The index at which a note with start tick `y` is inserted into a lane:
/// the first position whose element starts strictly later (a stable insert,
/// after any notes starting at the same tick).
pub open spec fn interval_insert_at(s: Seq<Interval>, y: u32) -> int
    decreases s.len(),
{
    if s.len() == 0 {
        0
    } else if s[0].y > y {
        0
    } else {
        1 + interval_insert_at(s.drop_first(), y)
    }
}

/// The index at which a section starting at tick `y` is inserted into a
/// side, by the same stable rule.
pub open spec fn section_insert_at(s: Seq<LaserSectionView>, y: u32) -> int
    decreases s.len(),
{
    if s.len() == 0 {
        0
    } else if s[0].y > y {
        0
    } else {
        1 + section_insert_at(s.drop_first(), y)
    }
}

pub proof fn lemma_interval_insert_at(s: Seq<Interval>, y: u32)
    ensures
        0 <= interval_insert_at(s, y) <= s.len(),
        forall|i: int| 0 <= i < interval_insert_at(s, y) ==> #[trigger] s[i].y <= y,
        interval_insert_at(s, y) < s.len() ==> s[interval_insert_at(s, y)].y > y,
    decreases s.len(),
{
    if s.len() > 0 && !(s[0].y > y) {
        lemma_interval_insert_at(s.drop_first(), y);
        assert forall|i: int| 0 <= i < interval_insert_at(s, y) implies #[trigger] s[i].y <= y by {
            if i > 0 {
                assert(s.drop_first()[i - 1] == s[i]);
            }
        }
    }
}

pub proof fn lemma_section_insert_at(s: Seq<LaserSectionView>, y: u32)
    ensures
        0 <= section_insert_at(s, y) <= s.len(),
        forall|i: int| 0 <= i < section_insert_at(s, y) ==> #[trigger] s[i].y <= y,
        section_insert_at(s, y) < s.len() ==> s[section_insert_at(s, y)].y > y,
    decreases s.len(),
{
    if s.len() > 0 && !(s[0].y > y) {
        lemma_section_insert_at(s.drop_first(), y);
        assert forall|i: int| 0 <= i < section_insert_at(s, y) implies #[trigger] s[i].y <= y by {
            if i > 0 {
                assert(s.drop_first()[i - 1] == s[i]);
            }
        }
    }
}

/// Whether inserting `iv` at its stable position keeps the lane free of
/// overlaps.
pub open spec fn interval_fits(s: Seq<Interval>, iv: Interval) -> bool {
    let p = interval_insert_at(s, iv.y);
    &&& (p > 0 ==> s[p - 1].y + s[p - 1].l <= iv.y)
    &&& (p < s.len() ==> iv.y + iv.l <= s[p].y)
}

/// What committing an action does to a chart: the new chart, or the exact
/// error, decided by the action and the chart alone.
pub open spec fn apply_spec(a: ChartAction, c: ChartView) -> Result<ChartView, ActionError> {
    match a {
        ChartAction::AddInterval { fx, lane, interval } => {
            let n: int = if fx { 2 } else { 4 };
            if lane >= n {
                Err(ActionError::LaneOutOfRange)
            } else {
                let s = if fx { c.note.fx[lane as int] } else { c.note.bt[lane as int] };
                if interval_fits(s, interval) {
                    let ns = s.insert(interval_insert_at(s, interval.y), interval);
                    Ok(
                        ChartView {
                            note: if fx {
                                NoteInfoView { fx: c.note.fx.update(lane as int, ns), ..c.note }
                            } else {
                                NoteInfoView { bt: c.note.bt.update(lane as int, ns), ..c.note }
                            },
                            ..c
                        },
                    )
                } else {
                    Err(ActionError::Overlap)
                }
            }
        },
        ChartAction::RemoveInterval { fx, lane, index } => {
            let n: int = if fx { 2 } else { 4 };
            if lane >= n {
                Err(ActionError::LaneOutOfRange)
            } else {
                let s = if fx { c.note.fx[lane as int] } else { c.note.bt[lane as int] };
                if index < s.len() {
                    let ns = s.remove(index as int);
                    Ok(
                        ChartView {
                            note: if fx {
                                NoteInfoView { fx: c.note.fx.update(lane as int, ns), ..c.note }
                            } else {
                                NoteInfoView { bt: c.note.bt.update(lane as int, ns), ..c.note }
                            },
                            ..c
                        },
                    )
                } else {
                    Err(ActionError::IndexOutOfRange)
                }
            }
        },
        ChartAction::AddLaserSection { right, section } => {
            let side: int = if right { 1 } else { 0 };
            if !section@.wf() {
                Err(ActionError::MalformedSection)
            } else {
                let s = c.note.laser[side];
                let ns = s.insert(section_insert_at(s, section.y), section@);
                Ok(
                    ChartView {
                        note: NoteInfoView { laser: c.note.laser.update(side, ns), ..c.note },
                        ..c
                    },
                )
            }
        },
        ChartAction::RemoveLaserSection { right, index } => {
            let side: int = if right { 1 } else { 0 };
            let s = c.note.laser[side];
            if index < s.len() {
                Ok(
                    ChartView {
                        note: NoteInfoView {
                            laser: c.note.laser.update(side, s.remove(index as int)),
                            ..c.note
                        },
                        ..c
                    },
                )
            } else {
                Err(ActionError::IndexOutOfRange)
            }
        },
        ChartAction::AdjustLaserPoint { right, section_index, point_index, point } => {
            let side: int = if right { 1 } else { 0 };
            let s = c.note.laser[side];
            if section_index >= s.len() {
                Err(ActionError::IndexOutOfRange)
            } else {
                let sec = s[section_index as int];
                if point_index >= sec.v.len() {
                    Err(ActionError::IndexOutOfRange)
                } else {
                    if point.in_range() && (point_index == 0 ==> point.ry == 0) && (point_index > 0
                        ==> sec.v[point_index - 1].ry <= point.ry) && (point_index < sec.v.len() - 1
                        ==> point.ry <= sec.v[point_index + 1].ry) {
                        let nsec = LaserSectionView {
                            v: sec.v.update(point_index as int, point),
                            ..sec
                        };
                        Ok(
                            ChartView {
                                note: NoteInfoView {
                                    laser: c.note.laser.update(
                                        side,
                                        s.update(section_index as int, nsec),
                                    ),
                                    ..c.note
                                },
                                ..c
                            },
                        )
                    } else {
                        Err(ActionError::MalformedPoint)
                    }
                }
            }
        },
    }
}


/// The chart with a finished section inserted into one side at its stable
/// position: what committing an add-laser action does.
pub open spec fn insert_section(c: ChartView, side: int, sec: LaserSectionView) -> ChartView {
    let s = c.note.laser[side];
    ChartView {
        note: NoteInfoView {
            laser: c.note.laser.update(side, s.insert(section_insert_at(s, sec.y), sec)),
            ..c.note
        },
        ..c
    }
}

/// The chart with the section at `index` of one side removed: what
/// committing a remove-laser action does.
pub open spec fn remove_section(c: ChartView, side: int, index: int) -> ChartView {
    ChartView {
        note: NoteInfoView {
            laser: c.note.laser.update(side, c.note.laser[side].remove(index)),
            ..c.note
        },
        ..c
    }
}

/// Inserting a fitting interval at its stable position keeps the lane
/// invariant.
proof fn lemma_intervals_insert_wf(s: Seq<Interval>, iv: Interval)
    requires
        intervals_wf(s),
        interval_fits(s, iv),
    ensures
        intervals_wf(s.insert(interval_insert_at(s, iv.y), iv)),
{
    let p = interval_insert_at(s, iv.y);
    lemma_interval_insert_at(s, iv.y);
    let ns = s.insert(p, iv);
    assert forall|i: int| 0 <= i < ns.len() - 1 implies #[trigger] ns[i].y + ns[i].l <= ns[i
        + 1].y by {
        if i + 1 < p {
            assert(ns[i] == s[i] && ns[i + 1] == s[i + 1]);
        } else if i + 1 == p {
            assert(ns[i] == s[i] && ns[i + 1] == iv);
            assert(s[p - 1].y + s[p - 1].l <= iv.y);
        } else if i == p {
            assert(ns[i] == iv && ns[i + 1] == s[i]);
        } else {
            assert(ns[i] == s[i - 1] && ns[i + 1] == s[i]);
        }
    }
}

/// Removing an interval keeps the lane invariant.
proof fn lemma_intervals_remove_wf(s: Seq<Interval>, index: int)
    requires
        intervals_wf(s),
        0 <= index < s.len(),
    ensures
        intervals_wf(s.remove(index)),
{
    let ns = s.remove(index);
    assert forall|i: int| 0 <= i < ns.len() - 1 implies #[trigger] ns[i].y + ns[i].l <= ns[i
        + 1].y by {
        if i + 1 < index {
            assert(ns[i] == s[i] && ns[i + 1] == s[i + 1]);
        } else if i + 1 == index {
            assert(ns[i] == s[i] && ns[i + 1] == s[i + 2]);
            assert(s[i].y + s[i].l <= s[i + 1].y);
            assert(s[i + 1].y + s[i + 1].l <= s[i + 2].y);
        } else {
            assert(ns[i] == s[i + 1] && ns[i + 1] == s[i + 2]);
        }
    }
}

/// Inserting a well-formed section at its stable position keeps the side
/// invariant.
proof fn lemma_laser_insert_wf(s: Seq<LaserSectionView>, sec: LaserSectionView)
    requires
        laser_lane_wf(s),
        sec.wf(),
    ensures
        laser_lane_wf(s.insert(section_insert_at(s, sec.y), sec)),
{
    let p = section_insert_at(s, sec.y);
    lemma_section_insert_at(s, sec.y);
    let ns = s.insert(p, sec);
    assert forall|i: int| 0 <= i < ns.len() implies (#[trigger] ns[i]).wf() by {
        if i < p {
            assert(ns[i] == s[i]);
        } else if i > p {
            assert(ns[i] == s[i - 1]);
        }
    }
    assert forall|i: int| 0 <= i < ns.len() - 1 implies #[trigger] ns[i].y <= ns[i + 1].y by {
        if i + 1 < p {
            assert(ns[i] == s[i] && ns[i + 1] == s[i + 1]);
        } else if i + 1 == p {
            assert(ns[i] == s[i] && ns[i + 1] == sec);
        } else if i == p {
            assert(ns[i] == sec && ns[i + 1] == s[i]);
        } else {
            assert(ns[i] == s[i - 1] && ns[i + 1] == s[i]);
        }
    }
}

/// Removing a section keeps the side invariant.
proof fn lemma_laser_remove_wf(s: Seq<LaserSectionView>, index: int)
    requires
        laser_lane_wf(s),
        0 <= index < s.len(),
    ensures
        laser_lane_wf(s.remove(index)),
{
    let ns = s.remove(index);
    assert forall|i: int| 0 <= i < ns.len() implies (#[trigger] ns[i]).wf() by {
        if i < index {
            assert(ns[i] == s[i]);
        } else {
            assert(ns[i] == s[i + 1]);
        }
    }
    assert forall|i: int| 0 <= i < ns.len() - 1 implies #[trigger] ns[i].y <= ns[i + 1].y by {
        if i + 1 < index {
            assert(ns[i] == s[i] && ns[i + 1] == s[i + 1]);
        } else if i + 1 == index {
            assert(ns[i] == s[i] && ns[i + 1] == s[i + 2]);
            assert(s[i].y <= s[i + 1].y && s[i + 1].y <= s[i + 2].y);
        } else {
            assert(ns[i] == s[i + 1] && ns[i + 1] == s[i + 2]);
        }
    }
}

/// Actions preserve every lane invariant: whatever sequence of committed
/// insert, delete and adjust actions is applied to a well-formed chart, the
/// chart stays well-formed — each lane sorted ascending and pairwise
/// non-overlapping, each laser side sorted with well-formed sections.
pub proof fn lemma_apply_preserves_wf(a: ChartAction, c: ChartView)
    requires
        c.wf(),
        apply_spec(a, c) is Ok,
    ensures
        apply_spec(a, c)->Ok_0.wf(),
{
    let r = apply_spec(a, c)->Ok_0;
    match a {
        ChartAction::AddInterval { fx, lane, interval } => {
            let s = if fx { c.note.fx[lane as int] } else { c.note.bt[lane as int] };
            lemma_intervals_insert_wf(s, interval);
            let ns = s.insert(interval_insert_at(s, interval.y), interval);
            if fx {
                assert(forall|i: int|
                    0 <= i < 2 && i != lane ==> #[trigger] r.note.fx[i] == c.note.fx[i]);
                assert(r.note.fx[lane as int] == ns);
            } else {
                assert(forall|i: int|
                    0 <= i < 4 && i != lane ==> #[trigger] r.note.bt[i] == c.note.bt[i]);
                assert(r.note.bt[lane as int] == ns);
            }
        },
        ChartAction::RemoveInterval { fx, lane, index } => {
            let s = if fx { c.note.fx[lane as int] } else { c.note.bt[lane as int] };
            lemma_intervals_remove_wf(s, index as int);
            let ns = s.remove(index as int);
            if fx {
                assert(forall|i: int|
                    0 <= i < 2 && i != lane ==> #[trigger] r.note.fx[i] == c.note.fx[i]);
                assert(r.note.fx[lane as int] == ns);
            } else {
                assert(forall|i: int|
                    0 <= i < 4 && i != lane ==> #[trigger] r.note.bt[i] == c.note.bt[i]);
                assert(r.note.bt[lane as int] == ns);
            }
        },
        ChartAction::AddLaserSection { right, section } => {
            let side: int = if right { 1 } else { 0 };
            let s = c.note.laser[side];
            lemma_laser_insert_wf(s, section@);
            assert(forall|i: int|
                0 <= i < 2 && i != side ==> #[trigger] r.note.laser[i] == c.note.laser[i]);
        },
        ChartAction::RemoveLaserSection { right, index } => {
            let side: int = if right { 1 } else { 0 };
            let s = c.note.laser[side];
            lemma_laser_remove_wf(s, index as int);
            assert(forall|i: int|
                0 <= i < 2 && i != side ==> #[trigger] r.note.laser[i] == c.note.laser[i]);
        },
        ChartAction::AdjustLaserPoint { right, section_index, point_index, point } => {
            let side: int = if right { 1 } else { 0 };
            let s = c.note.laser[side];
            let sec = s[section_index as int];
            let nsec = LaserSectionView { v: sec.v.update(point_index as int, point), ..sec };
            assert(nsec.wf()) by {
                assert forall|i: int| 0 <= i < nsec.v.len() - 1 implies #[trigger] nsec.v[i].ry
                    <= nsec.v[i + 1].ry by {
                    if i != point_index && i + 1 != point_index {
                        assert(nsec.v[i] == sec.v[i] && nsec.v[i + 1] == sec.v[i + 1]);
                    }
                }
                assert forall|i: int| 0 <= i < nsec.v.len() implies (
                #[trigger] nsec.v[i]).in_range() by {
                    if i != point_index {
                        assert(nsec.v[i] == sec.v[i]);
                    }
                }
            }
            let ns = s.update(section_index as int, nsec);
            assert(laser_lane_wf(ns)) by {
                assert forall|i: int| 0 <= i < ns.len() implies (#[trigger] ns[i]).wf() by {
                    if i != section_index {
                        assert(ns[i] == s[i]);
                    }
                }
                assert forall|i: int| 0 <= i < ns.len() - 1 implies #[trigger] ns[i].y <= ns[i
                    + 1].y by {
                    assert(ns[i].y == s[i].y && ns[i + 1].y == s[i + 1].y);
                }
            }
            assert(forall|i: int|
                0 <= i < 2 && i != side ==> #[trigger] r.note.laser[i] == c.note.laser[i]);
        },
    }
}


// ---------------------------------------------------------------------------
// Executable application of actions
// ---------------------------------------------------------------------------

/// Finds the stable insert position for start tick `y` in a sorted-or-not
/// interval lane.
fn find_interval_pos(s: &Vec<Interval>, y: u32) -> (p: usize)
    ensures
        p == interval_insert_at(s@, y),
        p <= s@.len(),
{
    let mut p: usize = 0;
    while p < s.len() && s[p].y <= y
        invariant
            p <= s@.len(),
            forall|i: int| 0 <= i < p ==> #[trigger] s@[i].y <= y,
        decreases s@.len() - p,
    {
        p = p + 1;
    }
    proof {
        lemma_interval_insert_at(s@, y);
        let q = interval_insert_at(s@, y);
        if q < p {
            assert(s@[q].y <= y);
        }
        if p < q {
            assert(s@[p as int].y <= y);
        }
    }
    p
}

/// Finds the stable insert position for start tick `y` in a laser side.
fn find_section_pos(s: &Vec<LaserSection>, y: u32) -> (p: usize)
    ensures
        p == section_insert_at(laser_lane_view(s@), y),
        p <= s@.len(),
{
    let ghost vs = laser_lane_view(s@);
    let mut p: usize = 0;
    while p < s.len() && s[p].y <= y
        invariant
            p <= s@.len(),
            vs == laser_lane_view(s@),
            vs.len() == s@.len(),
            forall|i: int| 0 <= i < p ==> #[trigger] vs[i].y <= y,
        decreases s@.len() - p,
    {
        proof {
            assert(vs[p as int] == s@[p as int]@);
        }
        p = p + 1;
    }
    proof {
        assert(p < s@.len() ==> vs[p as int] == s@[p as int]@);
        lemma_section_insert_at(vs, y);
        let q = section_insert_at(vs, y);
        if q < p {
            assert(vs[q].y <= y);
        }
        if p < q {
            assert(vs[p as int].y <= y);
        }
    }
    p
}

/// The chart with button lane `lane` replaced.
fn set_bt_lane(c: &Chart, lane: usize, nl: Vec<Interval>) -> (r: Chart)
    requires
        lane < c.note.bt@.len(),
    ensures
        r@ == (ChartView {
            note: NoteInfoView { bt: c@.note.bt.update(lane as int, nl@), ..c@.note },
            ..c@
        }),
{
    let mut r = c.duplicate();
    proof {
        assert(r@.note.bt == c@.note.bt);
        assert(r.note.bt@.len() == r@.note.bt.len());
        assert(c.note.bt@.len() == c@.note.bt.len());
    }
    r.note.bt.set(lane, nl);
    proof {
        assert(r@.note.bt =~~= c@.note.bt.update(lane as int, nl@));
        assert(r@.note.fx =~~= c@.note.fx);
        assert(r@.note.laser =~~= c@.note.laser);
        assert(r@ =~= (ChartView {
            note: NoteInfoView { bt: c@.note.bt.update(lane as int, nl@), ..c@.note },
            ..c@
        }));
    }
    r
}

/// The chart with effect lane `lane` replaced.
fn set_fx_lane(c: &Chart, lane: usize, nl: Vec<Interval>) -> (r: Chart)
    requires
        lane < c.note.fx@.len(),
    ensures
        r@ == (ChartView {
            note: NoteInfoView { fx: c@.note.fx.update(lane as int, nl@), ..c@.note },
            ..c@
        }),
{
    let mut r = c.duplicate();
    proof {
        assert(r@.note.fx == c@.note.fx);
        assert(r.note.fx@.len() == r@.note.fx.len());
        assert(c.note.fx@.len() == c@.note.fx.len());
    }
    r.note.fx.set(lane, nl);
    proof {
        assert(r@.note.fx =~~= c@.note.fx.update(lane as int, nl@));
        assert(r@.note.bt =~~= c@.note.bt);
        assert(r@.note.laser =~~= c@.note.laser);
        assert(r@ =~= (ChartView {
            note: NoteInfoView { fx: c@.note.fx.update(lane as int, nl@), ..c@.note },
            ..c@
        }));
    }
    r
}

/// The chart with one laser side replaced.
fn set_laser_lane(c: &Chart, side: usize, nl: Vec<LaserSection>) -> (r: Chart)
    requires
        side < c.note.laser@.len(),
    ensures
        r@ == (ChartView {
            note: NoteInfoView {
                laser: c@.note.laser.update(side as int, laser_lane_view(nl@)),
                ..c@.note
            },
            ..c@
        }),
{
    let mut r = c.duplicate();
    proof {
        assert(r@.note.laser == c@.note.laser);
        assert(r.note.laser@.len() == r@.note.laser.len());
        assert(c.note.laser@.len() == c@.note.laser.len());
    }
    r.note.laser.set(side, nl);
    proof {
        assert(r@.note.laser =~~= c@.note.laser.update(side as int, laser_lane_view(nl@)));
        assert(r@.note.bt =~~= c@.note.bt);
        assert(r@.note.fx =~~= c@.note.fx);
        assert(r@ =~= (ChartView {
            note: NoteInfoView {
                laser: c@.note.laser.update(side as int, laser_lane_view(nl@)),
                ..c@.note
            },
            ..c@
        }));
    }
    r
}

/// Applies one action to a well-formed chart, producing the new chart or
/// the exact error of [`apply_spec`]; a failed action has no effect.
#[verifier::rlimit(100)]
pub fn apply(c: &Chart, a: &ChartAction) -> (r: Result<Chart, ActionError>)
    requires
        c@.wf(),
    ensures
        r is Ok <==> apply_spec(*a, c@) is Ok,
        r is Ok ==> r->Ok_0@ == apply_spec(*a, c@)->Ok_0,
        r is Err ==> r->Err_0 == apply_spec(*a, c@)->Err_0,
        r is Ok ==> r->Ok_0@.wf(),
{
    proof {
        if apply_spec(*a, c@) is Ok {
            lemma_apply_preserves_wf(*a, c@);
        }
    }
    match a {
        ChartAction::AddInterval { fx, lane, interval } => {
            let bound: usize = if *fx { 2 } else { 4 };
            if *lane >= bound {
                return Err(ActionError::LaneOutOfRange);
            }
            let src: &Vec<Interval> = if *fx { &c.note.fx[*lane] } else { &c.note.bt[*lane] };
            proof {
                if *fx {
                    assert(src@ == c@.note.fx[*lane as int]);
                } else {
                    assert(src@ == c@.note.bt[*lane as int]);
                }
            }
            let p = find_interval_pos(src, interval.y);
            if p > 0 && src[p - 1].y as u64 + src[p - 1].l as u64 > interval.y as u64 {
                return Err(ActionError::Overlap);
            }
            if p < src.len() && interval.y as u64 + interval.l as u64 > src[p].y as u64 {
                return Err(ActionError::Overlap);
            }
            let mut nl = dup_intervals(src);
            nl.insert(p, *interval);
            if *fx {
                Ok(set_fx_lane(c, *lane, nl))
            } else {
                Ok(set_bt_lane(c, *lane, nl))
            }
        },
        ChartAction::RemoveInterval { fx, lane, index } => {
            let bound: usize = if *fx { 2 } else { 4 };
            if *lane >= bound {
                return Err(ActionError::LaneOutOfRange);
            }
            let src: &Vec<Interval> = if *fx { &c.note.fx[*lane] } else { &c.note.bt[*lane] };
            proof {
                if *fx {
                    assert(src@ == c@.note.fx[*lane as int]);
                } else {
                    assert(src@ == c@.note.bt[*lane as int]);
                }
            }
            if *index >= src.len() {
                return Err(ActionError::IndexOutOfRange);
            }
            let mut nl = dup_intervals(src);
            nl.remove(*index);
            if *fx {
                Ok(set_fx_lane(c, *lane, nl))
            } else {
                Ok(set_bt_lane(c, *lane, nl))
            }
        },
        ChartAction::AddLaserSection { right, section } => {
            if !section.wf_check() {
                return Err(ActionError::MalformedSection);
            }
            let side: usize = if *right { 1 } else { 0 };
            let src = &c.note.laser[side];
            proof {
                assert(laser_lane_view(src@) == c@.note.laser[side as int]);
            }
            let p = find_section_pos(src, section.y);
            let mut nl = dup_laser_lane(src);
            nl.insert(p, section.duplicate());
            proof {
                let spec_ns = c@.note.laser[side as int].insert(
                    section_insert_at(c@.note.laser[side as int], section.y),
                    section@,
                );
                assert(laser_lane_view(nl@) =~= spec_ns);
            }
            Ok(set_laser_lane(c, side, nl))
        },
        ChartAction::RemoveLaserSection { right, index } => {
            let side: usize = if *right { 1 } else { 0 };
            let src = &c.note.laser[side];
            proof {
                assert(laser_lane_view(src@) == c@.note.laser[side as int]);
            }
            if *index >= src.len() {
                return Err(ActionError::IndexOutOfRange);
            }
            let mut nl = dup_laser_lane(src);
            nl.remove(*index);
            proof {
                assert(laser_lane_view(nl@) =~= c@.note.laser[side as int].remove(*index as int));
            }
            Ok(set_laser_lane(c, side, nl))
        },
        ChartAction::AdjustLaserPoint { right, section_index, point_index, point } => {
            let side: usize = if *right { 1 } else { 0 };
            let src = &c.note.laser[side];
            proof {
                assert(laser_lane_view(src@) == c@.note.laser[side as int]);
            }
            if *section_index >= src.len() {
                return Err(ActionError::IndexOutOfRange);
            }
            let sec = &src[*section_index];
            proof {
                assert(sec@ == c@.note.laser[side as int][*section_index as int]);
            }
            if *point_index >= sec.v.len() {
                return Err(ActionError::IndexOutOfRange);
            }
            let ok = point.v <= crate::chart::VALUE_SCALE && (match point.vf {
                Some(x) => x <= crate::chart::VALUE_SCALE,
                None => true,
            }) && (match point.a {
                Some(x) => x <= crate::chart::VALUE_SCALE,
                None => true,
            }) && (match point.b {
                Some(x) => x <= crate::chart::VALUE_SCALE,
                None => true,
            }) && (*point_index != 0 || point.ry == 0) && (*point_index == 0 || sec.v[*point_index
                - 1].ry <= point.ry) && (*point_index >= sec.v.len() - 1 || point.ry <= sec.v[
                *point_index + 1].ry);
            if !ok {
                return Err(ActionError::MalformedPoint);
            }
            let mut nsec = sec.duplicate();
            nsec.v.set(*point_index, *point);
            let mut nl = dup_laser_lane(src);
            nl.set(*section_index, nsec);
            proof {
                let spec_sec = c@.note.laser[side as int][*section_index as int];
                let spec_nsec = LaserSectionView {
                    v: spec_sec.v.update(*point_index as int, *point),
                    ..spec_sec
                };
                assert(nsec@ =~= spec_nsec);
                assert(laser_lane_view(nl@) =~= c@.note.laser[side as int].update(
                    *section_index as int,
                    spec_nsec,
                ));
            }
            Ok(set_laser_lane(c, side, nl))
        },
    }
}

// ---------------------------------------------------------------------------
// The action stack
// ---------------------------------------------------------------------------

/// What undoing and redoing a committed action reads: its label.
pub open spec fn action_desc(a: ChartAction) -> Seq<char> {
    match a {
        ChartAction::AddInterval { fx, .. } => if fx {
            "Add FX Note"@
        } else {
            "Add BT Note"@
        },
        ChartAction::RemoveInterval { fx, .. } => if fx {
            "Remove FX Note"@
        } else {
            "Remove BT Note"@
        },
        ChartAction::AddLaserSection { right, .. } => if right {
            "Add Right Laser"@
        } else {
            "Add Left Laser"@
        },
        ChartAction::RemoveLaserSection { right, .. } => if right {
            "Remove right laser"@
        } else {
            "Remove left laser"@
        },
        ChartAction::AdjustLaserPoint { right, .. } => if right {
            "Adjust Right Laser Curve"@
        } else {
            "Adjust Left Laser Curve"@
        },
    }
}

impl ChartAction {
    /// The human-readable label shown for this action in undo/redo menus.
    pub fn description(&self) -> (r: &'static str)
        ensures
            r@ == action_desc(*self),
    {
        match self {
            ChartAction::AddInterval { fx, .. } => if *fx {
                "Add FX Note"
            } else {
                "Add BT Note"
            },
            ChartAction::RemoveInterval { fx, .. } => if *fx {
                "Remove FX Note"
            } else {
                "Remove BT Note"
            },
            ChartAction::AddLaserSection { right, .. } => if *right {
                "Add Right Laser"
            } else {
                "Add Left Laser"
            },
            ChartAction::RemoveLaserSection { right, .. } => if *right {
                "Remove right laser"
            } else {
                "Remove left laser"
            },
            ChartAction::AdjustLaserPoint { right, .. } => if *right {
                "Adjust Right Laser Curve"
            } else {
                "Adjust Left Laser Curve"
            },
        }
    }
}

/// A committed action together with the exact chart it was applied to.
struct UndoEntry {
    action: ChartAction,
    before: Chart,
}

/// An undone action together with the exact chart its redo restores.
struct RedoEntry {
    action: ChartAction,
    after: Chart,
}

/// The mathematical value of an undo entry.
#[verifier::ext_equal]
pub ghost struct UndoEntryView {
    pub action: ChartAction,
    pub before: ChartView,
}

/// The mathematical value of a redo entry.
#[verifier::ext_equal]
pub ghost struct RedoEntryView {
    pub action: ChartAction,
    pub after: ChartView,
}

impl View for UndoEntry {
    type V = UndoEntryView;

    closed spec fn view(&self) -> UndoEntryView {
        UndoEntryView { action: self.action, before: self.before@ }
    }
}

impl View for RedoEntry {
    type V = RedoEntryView;

    closed spec fn view(&self) -> RedoEntryView {
        RedoEntryView { action: self.action, after: self.after@ }
    }
}

/// The mathematical value of an [`ActionStack`]: the canonical chart, the
/// committed history (oldest first) and the undone actions available for
/// redo (next to redo last).
#[verifier::ext_equal]
pub ghost struct ActionStackView {
    pub chart: ChartView,
    pub undo: Seq<UndoEntryView>,
    pub redo: Seq<RedoEntryView>,
}

impl ActionStackView {
    /// The stack invariant: every recorded chart is well-formed, every undo
    /// entry's action maps its stored chart to the next recorded chart, and
    /// every redo entry's action maps the chart it will be applied to back
    /// to its stored chart. Its body is the stack module's own concern;
    /// callers carry it between the methods that state it.
    pub closed spec fn wf(self) -> bool {
        &&& self.chart.wf()
        &&& forall|i: int| 0 <= i < self.undo.len() ==> (#[trigger] self.undo[i]).before.wf()
        &&& forall|i: int| 0 <= i < self.redo.len() ==> (#[trigger] self.redo[i]).after.wf()
        &&& forall|i: int|
            0 <= i < self.undo.len() ==> apply_spec(
                (#[trigger] self.undo[i]).action,
                self.undo[i].before,
            ) == Ok::<ChartView, ActionError>(
                if i == self.undo.len() - 1 {
                    self.chart
                } else {
                    self.undo[i + 1].before
                },
            )
        &&& forall|i: int|
            0 <= i < self.redo.len() ==> apply_spec(
                (#[trigger] self.redo[i]).action,
                if i == self.redo.len() - 1 {
                    self.chart
                } else {
                    self.redo[i + 1].after
                },
            ) == Ok::<ChartView, ActionError>(self.redo[i].after)
    }
}

/// What undoing does to the stack: restore the last committed entry's
/// chart and make the entry available for redo.
pub open spec fn undo_spec(s: ActionStackView) -> ActionStackView
    recommends
        s.undo.len() > 0,
{
    ActionStackView {
        chart: s.undo.last().before,
        undo: s.undo.drop_last(),
        redo: s.redo.push(RedoEntryView { action: s.undo.last().action, after: s.chart }),
    }
}

/// What redoing does to the stack: restore the last undone entry's chart
/// and put the entry back onto the committed history.
pub open spec fn redo_spec(s: ActionStackView) -> ActionStackView
    recommends
        s.redo.len() > 0,
{
    ActionStackView {
        chart: s.redo.last().after,
        undo: s.undo.push(UndoEntryView { action: s.redo.last().action, before: s.chart }),
        redo: s.redo.drop_last(),
    }
}

/// Undo followed immediately by redo reproduces the exact pre-undo stack —
/// in particular the exact pre-undo chart — for any single committed
/// action.
pub proof fn lemma_undo_then_redo(s: ActionStackView)
    requires
        s.undo.len() > 0,
    ensures
        redo_spec(undo_spec(s)) == s,
        redo_spec(undo_spec(s)).chart == s.chart,
{
    let t = redo_spec(undo_spec(s));
    assert(t.undo =~= s.undo);
    assert(t.redo =~= s.redo);
    assert(t =~= s);
}

/// Redo followed immediately by undo likewise reproduces the exact stack.
pub proof fn lemma_redo_then_undo(s: ActionStackView)
    requires
        s.redo.len() > 0,
    ensures
        undo_spec(redo_spec(s)) == s,
{
    let t = undo_spec(redo_spec(s));
    assert(t.undo =~= s.undo);
    assert(t.redo =~= s.redo);
    assert(t =~= s);
}

/// The linear undo/redo history owning the single canonical chart. All
/// mutation of the chart flows through [`ActionStack::new_action`].
pub struct ActionStack {
    chart: Chart,
    undo_stack: Vec<UndoEntry>,
    redo_stack: Vec<RedoEntry>,
}

impl View for ActionStack {
    type V = ActionStackView;

    closed spec fn view(&self) -> ActionStackView {
        ActionStackView {
            chart: self.chart@,
            undo: self.undo_stack@.map_values(|e: UndoEntry| e@),
            redo: self.redo_stack@.map_values(|e: RedoEntry| e@),
        }
    }
}

impl ActionStack {
    /// Takes ownership of the canonical chart with an empty history.
    pub fn new(chart: Chart) -> (r: ActionStack)
        requires
            chart@.wf(),
        ensures
            r@.chart == chart@,
            r@.undo == Seq::<UndoEntryView>::empty(),
            r@.redo == Seq::<RedoEntryView>::empty(),
            r@.wf(),
    {
        let r = ActionStack { chart, undo_stack: Vec::new(), redo_stack: Vec::new() };
        proof {
            assert(r@.undo =~= Seq::<UndoEntryView>::empty());
            assert(r@.redo =~= Seq::<RedoEntryView>::empty());
        }
        r
    }

    /// Read access to the canonical chart.
    pub fn chart(&self) -> (r: &Chart)
        ensures
            r@ == self@.chart,
    {
        &self.chart
    }

    /// Commits a new action: applies it whole to the canonical chart and
    /// appends it to the history, or fails with no effect. A successful
    /// commit discards every entry that was available for redo.
    pub fn new_action(&mut self, action: ChartAction) -> (r: Result<(), ActionError>)
        requires
            old(self)@.wf(),
        ensures
            final(self)@.wf(),
            r is Ok <==> apply_spec(action, old(self)@.chart) is Ok,
            r is Ok ==> final(self)@.chart == apply_spec(action, old(self)@.chart)->Ok_0
                && final(self)@.undo == old(self)@.undo.push(
                UndoEntryView { action, before: old(self)@.chart },
            ) && final(self)@.redo == Seq::<RedoEntryView>::empty(),
            r is Err ==> r->Err_0 == apply_spec(action, old(self)@.chart)->Err_0 && final(self)@
                == old(self)@,
    {
        let ghost pre = self@;
        match apply(&self.chart, &action) {
            Ok(nc) => {
                let mut tmp = nc;
                core::mem::swap(&mut self.chart, &mut tmp);
                self.undo_stack.push(UndoEntry { action, before: tmp });
                self.redo_stack.clear();
                proof {
                    assert(self@.undo =~= pre.undo.push(
                        UndoEntryView { action, before: pre.chart },
                    ));
                    assert(self@.redo =~= Seq::<RedoEntryView>::empty());
                    assert forall|i: int| 0 <= i < self@.undo.len() implies apply_spec(
                        (#[trigger] self@.undo[i]).action,
                        self@.undo[i].before,
                    ) == Ok::<ChartView, ActionError>(
                        if i == self@.undo.len() - 1 {
                            self@.chart
                        } else {
                            self@.undo[i + 1].before
                        },
                    ) by {
                        if i < self@.undo.len() - 1 {
                            assert(self@.undo[i] == pre.undo[i]);
                            if i < pre.undo.len() - 1 {
                                assert(self@.undo[i + 1] == pre.undo[i + 1]);
                            }
                        }
                    }
                }
                Ok(())
            },
            Err(e) => {
                proof {
                    assert(self@ =~= pre);
                }
                Err(e)
            },
        }
    }

    /// Undoes the most recent committed action, restoring the exact prior
    /// chart; returns false (and changes nothing) when the history is
    /// empty.
    pub fn undo(&mut self) -> (r: bool)
        requires
            old(self)@.wf(),
        ensures
            final(self)@.wf(),
            r == (old(self)@.undo.len() > 0),
            r ==> final(self)@ == undo_spec(old(self)@),
            !r ==> final(self)@ == old(self)@,
    {
        let ghost pre = self@;
        match self.undo_stack.pop() {
            Some(entry) => {
                let UndoEntry { action, before } = entry;
                let mut tmp = before;
                core::mem::swap(&mut self.chart, &mut tmp);
                self.redo_stack.push(RedoEntry { action, after: tmp });
                proof {
                    assert(self@.undo =~= pre.undo.drop_last());
                    assert(self@.redo =~= pre.redo.push(
                        RedoEntryView { action: pre.undo.last().action, after: pre.chart },
                    ));
                    assert(self@ =~= undo_spec(pre));
                    lemma_undo_spec_wf(pre);
                }
                true
            },
            None => {
                proof {
                    assert(self@ =~= pre);
                }
                false
            },
        }
    }

    /// Redoes the most recently undone action, restoring the exact chart
    /// that the action had produced; returns false (and changes nothing)
    /// when nothing was undone.
    pub fn redo(&mut self) -> (r: bool)
        requires
            old(self)@.wf(),
        ensures
            final(self)@.wf(),
            r == (old(self)@.redo.len() > 0),
            r ==> final(self)@ == redo_spec(old(self)@),
            !r ==> final(self)@ == old(self)@,
    {
        let ghost pre = self@;
        match self.redo_stack.pop() {
            Some(entry) => {
                let RedoEntry { action, after } = entry;
                let mut tmp = after;
                core::mem::swap(&mut self.chart, &mut tmp);
                self.undo_stack.push(UndoEntry { action, before: tmp });
                proof {
                    assert(self@.redo =~= pre.redo.drop_last());
                    assert(self@.undo =~= pre.undo.push(
                        UndoEntryView { action: pre.redo.last().action, before: pre.chart },
                    ));
                    assert(self@ =~= redo_spec(pre));
                    lemma_redo_spec_wf(pre);
                }
                true
            },
            None => {
                proof {
                    assert(self@ =~= pre);
                }
                false
            },
        }
    }

    /// The label of the action that [`ActionStack::undo`] would reverse.
    pub fn prev_action_desc(&self) -> (r: Option<&'static str>)
        ensures
            r is Some <==> self@.undo.len() > 0,
            r is Some ==> r->0@ == action_desc(self@.undo.last().action),
    {
        if self.undo_stack.len() > 0 {
            Some(self.undo_stack[self.undo_stack.len() - 1].action.description())
        } else {
            None
        }
    }

    /// The label of the action that [`ActionStack::redo`] would re-apply.
    pub fn next_action_desc(&self) -> (r: Option<&'static str>)
        ensures
            r is Some <==> self@.redo.len() > 0,
            r is Some ==> r->0@ == action_desc(self@.redo.last().action),
    {
        if self.redo_stack.len() > 0 {
            Some(self.redo_stack[self.redo_stack.len() - 1].action.description())
        } else {
            None
        }
    }
}

/// A well-formed stack's canonical chart is a well-formed chart.
pub proof fn lemma_stack_chart_wf(s: ActionStackView)
    requires
        s.wf(),
    ensures
        s.chart.wf(),
{
}

/// Undoing a well-formed stack leaves a well-formed stack.
pub proof fn lemma_undo_spec_wf(s: ActionStackView)
    requires
        s.wf(),
        s.undo.len() > 0,
    ensures
        undo_spec(s).wf(),
{
    let t = undo_spec(s);
    assert(apply_spec(s.undo.last().action, s.undo.last().before) == Ok::<
        ChartView,
        ActionError,
    >(s.chart));
    assert forall|i: int| 0 <= i < t.undo.len() implies apply_spec(
        (#[trigger] t.undo[i]).action,
        t.undo[i].before,
    ) == Ok::<ChartView, ActionError>(
        if i == t.undo.len() - 1 {
            t.chart
        } else {
            t.undo[i + 1].before
        },
    ) by {
        assert(t.undo[i] == s.undo[i]);
        if i < t.undo.len() - 1 {
            assert(t.undo[i + 1] == s.undo[i + 1]);
        }
    }
    assert forall|i: int| 0 <= i < t.redo.len() implies apply_spec(
        (#[trigger] t.redo[i]).action,
        if i == t.redo.len() - 1 {
            t.chart
        } else {
            t.redo[i + 1].after
        },
    ) == Ok::<ChartView, ActionError>(t.redo[i].after) by {
        if i < t.redo.len() - 1 {
            assert(t.redo[i] == s.redo[i]);
            if i < s.redo.len() - 1 {
                assert(t.redo[i + 1] == s.redo[i + 1]);
            }
        }
    }
}

/// Redoing a well-formed stack leaves a well-formed stack.
pub proof fn lemma_redo_spec_wf(s: ActionStackView)
    requires
        s.wf(),
        s.redo.len() > 0,
    ensures
        redo_spec(s).wf(),
{
    let t = redo_spec(s);
    assert(apply_spec(s.redo.last().action, s.chart) == Ok::<ChartView, ActionError>(
        s.redo.last().after,
    ));
    assert forall|i: int| 0 <= i < t.undo.len() implies apply_spec(
        (#[trigger] t.undo[i]).action,
        t.undo[i].before,
    ) == Ok::<ChartView, ActionError>(
        if i == t.undo.len() - 1 {
            t.chart
        } else {
            t.undo[i + 1].before
        },
    ) by {
        if i < t.undo.len() - 1 {
            assert(t.undo[i] == s.undo[i]);
            if i < s.undo.len() - 1 {
                assert(t.undo[i + 1] == s.undo[i + 1]);
            }
        }
    }
    assert forall|i: int| 0 <= i < t.redo.len() implies apply_spec(
        (#[trigger] t.redo[i]).action,
        if i == t.redo.len() - 1 {
            t.chart
        } else {
            t.redo[i + 1].after
        },
    ) == Ok::<ChartView, ActionError>(t.redo[i].after) by {
        assert(t.redo[i] == s.redo[i]);
        if i < t.redo.len() - 1 {
            assert(t.redo[i + 1] == s.redo[i + 1]);
        }
    }
}

} // verus!
