//! The tick-indexed chart data model and its invariants.
//!
//! Ticks are unsigned integers on the musical grid; `resolution` ticks make a
//! quarter note. Button and hold notes are `Interval`s kept per lane, sorted
//! ascending by start tick and pairwise non-overlapping. Laser gestures are
//! `LaserSection`s of curve points ordered by relative offset.
//!
//! Fractional quantities of the editor (laser lane positions, curve easing
//! parameters, BPM values) are held as integers scaled by a fixed
//! denominator: the value `k` stands for the fraction `k / VALUE_SCALE` of
//! the unit interval (`k / BPM_SCALE` beats per minute for tempo events).
use vstd::prelude::*;

verus! {

/// Denominator of the fixed-point representation of fractions in `[0, 1]`:
/// a stored value `k` means `k / VALUE_SCALE`.
pub const VALUE_SCALE: u32 = 10000;

/// Denominator of the fixed-point representation of BPM values: a stored
/// value `k` means `k / BPM_SCALE` beats per minute.
pub const BPM_SCALE: u64 = 1000;

/// A button or hold note: `l == 0` is an instantaneous tap at tick `y`,
/// `l > 0` a hold spanning the ticks `[y, y + l)`.
#[derive(Clone, Copy, Debug, PartialEq, Eq)]
pub struct Interval {
    pub y: u32,
    pub l: u32,
}

/// One control point of a laser section's value curve, at offset `ry`
/// relative to the section start.
///
/// `v` is the lane position approached continuously from the previous point;
/// `vf`, when present, is the post-jump value of a slam at the same tick.
/// `a`/`b`, when present, place the inflection of an eased interpolation
/// towards the next point; absent both, the segment is linear. All four are
/// fractions of the unit interval, scaled by [`VALUE_SCALE`].
#[derive(Clone, Copy, Debug, PartialEq, Eq)]
pub struct GraphSectionPoint {
    pub ry: u32,
    pub v: u32,
    pub vf: Option<u32>,
    pub a: Option<u32>,
    pub b: Option<u32>,
}

/// One continuous laser gesture starting at absolute tick `y`, made of curve
/// points with non-decreasing `ry` starting at `ry == 0`. `wide` is the lane
/// width multiplier (1 = normal).
#[derive(Clone, Debug, PartialEq, Eq)]
pub struct LaserSection {
    pub y: u32,
    pub wide: u8,
    pub v: Vec<GraphSectionPoint>,
}

/// The mathematical value of a [`LaserSection`].
#[verifier::ext_equal]
pub ghost struct LaserSectionView {
    pub y: u32,
    pub wide: u8,
    pub v: Seq<GraphSectionPoint>,
}

impl View for LaserSection {
    type V = LaserSectionView;

    open spec fn view(&self) -> LaserSectionView {
        LaserSectionView { y: self.y, wide: self.wide, v: self.v@ }
    }
}

/// A tempo change: the chart runs at `v / BPM_SCALE` beats per minute from
/// tick `y` on.
#[derive(Clone, Copy, Debug, PartialEq, Eq)]
pub struct DoubleEvent {
    pub y: u32,
    pub v: u64,
}

/// Difficulty label and index; data only.
#[derive(Clone, Debug, PartialEq, Eq)]
pub struct DifficultyInfo {
    pub name: Vec<u8>,
    pub short_name: Vec<u8>,
    pub idx: u8,
}

/// The mathematical value of a [`DifficultyInfo`].
#[verifier::ext_equal]
pub ghost struct DifficultyInfoView {
    pub name: Seq<u8>,
    pub short_name: Seq<u8>,
    pub idx: u8,
}

impl View for DifficultyInfo {
    type V = DifficultyInfoView;

    open spec fn view(&self) -> DifficultyInfoView {
        DifficultyInfoView { name: self.name@, short_name: self.short_name@, idx: self.idx }
    }
}

/// Descriptive fields of a chart. Text is held as UTF-8 bytes; data only,
/// no invariants beyond the defaults of [`MetaInfo::new`].
#[derive(Clone, Debug, PartialEq, Eq)]
pub struct MetaInfo {
    pub title: Vec<u8>,
    pub title_translit: Vec<u8>,
    pub subtitle: Vec<u8>,
    pub artist: Vec<u8>,
    pub artist_translit: Vec<u8>,
    pub chart_author: Vec<u8>,
    pub difficulty: DifficultyInfo,
    pub level: u8,
    pub disp_bpm: Vec<u8>,
    pub jacket_filename: Vec<u8>,
    pub jacket_author: Vec<u8>,
    pub information: Vec<u8>,
}

/// The mathematical value of a [`MetaInfo`].
#[verifier::ext_equal]
pub ghost struct MetaInfoView {
    pub title: Seq<u8>,
    pub title_translit: Seq<u8>,
    pub subtitle: Seq<u8>,
    pub artist: Seq<u8>,
    pub artist_translit: Seq<u8>,
    pub chart_author: Seq<u8>,
    pub difficulty: DifficultyInfoView,
    pub level: u8,
    pub disp_bpm: Seq<u8>,
    pub jacket_filename: Seq<u8>,
    pub jacket_author: Seq<u8>,
    pub information: Seq<u8>,
}

impl View for MetaInfo {
    type V = MetaInfoView;

    open spec fn view(&self) -> MetaInfoView {
        MetaInfoView {
            title: self.title@,
            title_translit: self.title_translit@,
            subtitle: self.subtitle@,
            artist: self.artist@,
            artist_translit: self.artist_translit@,
            chart_author: self.chart_author@,
            difficulty: self.difficulty@,
            level: self.level,
            disp_bpm: self.disp_bpm@,
            jacket_filename: self.jacket_filename@,
            jacket_author: self.jacket_author@,
            information: self.information@,
        }
    }
}

/// The note data of a chart: 4 button lanes, 2 effect lanes, 2 laser sides
/// (`laser[0]` left, `laser[1]` right). Each lane is an independently
/// invariant-bearing collection; see [`NoteInfoView::wf`].
#[derive(Clone, Debug, PartialEq, Eq)]
pub struct NoteInfo {
    pub bt: Vec<Vec<Interval>>,
    pub fx: Vec<Vec<Interval>>,
    pub laser: Vec<Vec<LaserSection>>,
}

/// The mathematical value of a [`NoteInfo`].
#[verifier::ext_equal]
pub ghost struct NoteInfoView {
    pub bt: Seq<Seq<Interval>>,
    pub fx: Seq<Seq<Interval>>,
    pub laser: Seq<Seq<LaserSectionView>>,
}

/// The views of a sequence of laser sections.
pub open spec fn laser_lane_view(v: Seq<LaserSection>) -> Seq<LaserSectionView> {
    v.map_values(|s: LaserSection| s@)
}

impl View for NoteInfo {
    type V = NoteInfoView;

    open spec fn view(&self) -> NoteInfoView {
        NoteInfoView {
            bt: self.bt@.map_values(|l: Vec<Interval>| l@),
            fx: self.fx@.map_values(|l: Vec<Interval>| l@),
            laser: self.laser@.map_values(|l: Vec<LaserSection>| laser_lane_view(l@)),
        }
    }
}

/// Tick resolution and the tempo map, ascending by `y`.
#[derive(Clone, Debug, PartialEq, Eq)]
pub struct BeatInfo {
    pub bpm: Vec<DoubleEvent>,
    pub resolution: u32,
}

/// The mathematical value of a [`BeatInfo`].
#[verifier::ext_equal]
pub ghost struct BeatInfoView {
    pub bpm: Seq<DoubleEvent>,
    pub resolution: u32,
}

impl View for BeatInfo {
    type V = BeatInfoView;

    open spec fn view(&self) -> BeatInfoView {
        BeatInfoView { bpm: self.bpm@, resolution: self.resolution }
    }
}

/// The aggregate chart: the unit of undo/redo and of persistence.
#[derive(Clone, Debug, PartialEq, Eq)]
pub struct Chart {
    pub meta: MetaInfo,
    pub note: NoteInfo,
    pub beat: BeatInfo,
}

/// The mathematical value of a [`Chart`].
#[verifier::ext_equal]
pub ghost struct ChartView {
    pub meta: MetaInfoView,
    pub note: NoteInfoView,
    pub beat: BeatInfoView,
}

impl View for Chart {
    type V = ChartView;

    open spec fn view(&self) -> ChartView {
        ChartView { meta: self.meta@, note: self.note@, beat: self.beat@ }
    }
}

// ---------------------------------------------------------------------------
// Invariants
// ---------------------------------------------------------------------------

impl GraphSectionPoint {
    /// A plain curve point: no slam, linear interpolation.
    pub fn new(ry: u32, v: u32) -> (r: GraphSectionPoint)
        ensures
            r == (GraphSectionPoint { ry, v, vf: None::<u32>, a: None::<u32>, b: None::<u32> }),
    {
        GraphSectionPoint { ry, v, vf: None, a: None, b: None }
    }

    /// All fractional fields lie in the unit interval.
    pub open spec fn in_range(self) -> bool {
        &&& self.v <= VALUE_SCALE
        &&& (self.vf is Some ==> self.vf->0 <= VALUE_SCALE)
        &&& (self.a is Some ==> self.a->0 <= VALUE_SCALE)
        &&& (self.b is Some ==> self.b->0 <= VALUE_SCALE)
    }
}

/// The invariant of one note lane: consecutive intervals are ordered and do
/// not overlap (each ends no later than the next one starts).
pub open spec fn intervals_wf(s: Seq<Interval>) -> bool {
    forall|i: int| 0 <= i < s.len() - 1 ==> #[trigger] s[i].y + s[i].l <= s[i + 1].y
}

impl LaserSectionView {
    /// The invariant of one laser section: at least one point, the first at
    /// relative offset 0, offsets non-decreasing, all fractions in range.
    pub open spec fn wf(self) -> bool {
        &&& self.v.len() > 0
        &&& self.v[0].ry == 0
        &&& forall|i: int| 0 <= i < self.v.len() - 1 ==> #[trigger] self.v[i].ry <= self.v[i + 1].ry
        &&& forall|i: int| 0 <= i < self.v.len() ==> (#[trigger] self.v[i]).in_range()
    }

    /// The section covers the ticks `[y, y + last offset)`.
    pub open spec fn contains_tick(self, tick: u32) -> bool {
        &&& self.v.len() > 0
        &&& self.y <= tick
        &&& tick - self.y < self.v.last().ry
    }
}

/// The invariant of one laser side: every section well-formed, sections
/// sorted ascending by start tick.
pub open spec fn laser_lane_wf(s: Seq<LaserSectionView>) -> bool {
    &&& forall|i: int| 0 <= i < s.len() ==> (#[trigger] s[i]).wf()
    &&& forall|i: int| 0 <= i < s.len() - 1 ==> #[trigger] s[i].y <= s[i + 1].y
}

impl NoteInfoView {
    /// Exactly 4 button lanes, 2 effect lanes and 2 laser sides, each with
    /// its lane invariant.
    pub open spec fn wf(self) -> bool {
        &&& self.bt.len() == 4
        &&& self.fx.len() == 2
        &&& self.laser.len() == 2
        &&& forall|i: int| 0 <= i < 4 ==> intervals_wf(#[trigger] self.bt[i])
        &&& forall|i: int| 0 <= i < 2 ==> intervals_wf(#[trigger] self.fx[i])
        &&& forall|i: int| 0 <= i < 2 ==> laser_lane_wf(#[trigger] self.laser[i])
    }
}

impl BeatInfoView {
    /// Tempo events ascending by tick.
    pub open spec fn wf(self) -> bool {
        forall|i: int| 0 <= i < self.bpm.len() - 1 ==> #[trigger] self.bpm[i].y <= self.bpm[i + 1].y
    }
}

impl ChartView {
    /// Every collection of the chart carries its invariant.
    pub open spec fn wf(self) -> bool {
        self.note.wf() && self.beat.wf()
    }
}

/// Consecutive non-overlap extends to every pair: the lane is sorted
/// ascending by `y` and pairwise non-overlapping.
pub proof fn lemma_intervals_pairwise(s: Seq<Interval>)
    requires
        intervals_wf(s),
    ensures
        forall|i: int, j: int|
            0 <= i < j < s.len() ==> #[trigger] s[i].y + s[i].l <= #[trigger] s[j].y,
    decreases s.len(),
{
    if s.len() > 1 {
        lemma_intervals_pairwise(s.drop_last());
        assert forall|i: int, j: int| 0 <= i < j < s.len() implies #[trigger] s[i].y + s[i].l
            <= #[trigger] s[j].y by {
            if j < s.len() - 1 {
                assert(s.drop_last()[i] == s[i] && s.drop_last()[j] == s[j]);
            } else if i < j - 1 {
                assert(s.drop_last()[i] == s[i] && s.drop_last()[j - 1] == s[j - 1]);
                assert(s[j - 1].y + s[j - 1].l <= s[j].y);
            }
        }
    }
}

// ---------------------------------------------------------------------------
// Constructors and deep copies
// ---------------------------------------------------------------------------

impl NoteInfo {
    /// Empty note data: all lanes present and empty.
    pub fn new() -> (r: NoteInfo)
        ensures
            r@.wf(),
            r@.bt =~= seq![Seq::<Interval>::empty(), Seq::empty(), Seq::empty(), Seq::empty()],
            r@.fx =~= seq![Seq::<Interval>::empty(), Seq::empty()],
            r@.laser =~~= seq![Seq::<LaserSectionView>::empty(), Seq::empty()],
    {
        let mut bt: Vec<Vec<Interval>> = Vec::new();
        bt.push(Vec::new());
        bt.push(Vec::new());
        bt.push(Vec::new());
        bt.push(Vec::new());
        let mut fx: Vec<Vec<Interval>> = Vec::new();
        fx.push(Vec::new());
        fx.push(Vec::new());
        let mut laser: Vec<Vec<LaserSection>> = Vec::new();
        laser.push(Vec::new());
        laser.push(Vec::new());
        NoteInfo { bt, fx, laser }
    }
}

impl DifficultyInfo {
    /// Empty names, index 0.
    pub fn new() -> (r: DifficultyInfo)
        ensures
            r@ =~= (DifficultyInfoView { name: Seq::empty(), short_name: Seq::empty(), idx: 0u8 }),
    {
        DifficultyInfo { name: Vec::new(), short_name: Vec::new(), idx: 0 }
    }
}

impl MetaInfo {
    /// Empty text fields, level 1.
    pub fn new() -> (r: MetaInfo)
        ensures
            r@.title == Seq::<u8>::empty(),
            r@.title_translit == Seq::<u8>::empty(),
            r@.subtitle == Seq::<u8>::empty(),
            r@.artist == Seq::<u8>::empty(),
            r@.artist_translit == Seq::<u8>::empty(),
            r@.chart_author == Seq::<u8>::empty(),
            r@.difficulty =~= (DifficultyInfoView {
                name: Seq::empty(),
                short_name: Seq::empty(),
                idx: 0u8,
            }),
            r@.level == 1u8,
            r@.disp_bpm == Seq::<u8>::empty(),
            r@.jacket_filename == Seq::<u8>::empty(),
            r@.jacket_author == Seq::<u8>::empty(),
            r@.information == Seq::<u8>::empty(),
    {
        MetaInfo {
            title: Vec::new(),
            title_translit: Vec::new(),
            subtitle: Vec::new(),
            artist: Vec::new(),
            artist_translit: Vec::new(),
            chart_author: Vec::new(),
            difficulty: DifficultyInfo::new(),
            level: 1,
            disp_bpm: Vec::new(),
            jacket_filename: Vec::new(),
            jacket_author: Vec::new(),
            information: Vec::new(),
        }
    }
}

impl BeatInfo {
    /// No tempo events yet, default resolution of 240 ticks per quarter.
    pub fn new() -> (r: BeatInfo)
        ensures
            r@.bpm == Seq::<DoubleEvent>::empty(),
            r@.resolution == 240u32,
            r@.wf(),
    {
        BeatInfo { bpm: Vec::new(), resolution: 240 }
    }
}

impl Chart {
    /// The empty default chart.
    pub fn new() -> (r: Chart)
        ensures
            r@.wf(),
            r@.meta == MetaInfo::new_spec(),
            r@.note.bt =~= seq![
                Seq::<Interval>::empty(),
                Seq::empty(),
                Seq::empty(),
                Seq::empty(),
            ],
            r@.note.fx =~= seq![Seq::<Interval>::empty(), Seq::empty()],
            r@.note.laser =~~= seq![Seq::<LaserSectionView>::empty(), Seq::empty()],
            r@.beat.bpm == Seq::<DoubleEvent>::empty(),
            r@.beat.resolution == 240u32,
    {
        Chart { meta: MetaInfo::new(), note: NoteInfo::new(), beat: BeatInfo::new() }
    }
}

impl MetaInfo {
    /// The value produced by [`MetaInfo::new`].
    pub open spec fn new_spec() -> MetaInfoView {
        MetaInfoView {
            title: Seq::empty(),
            title_translit: Seq::empty(),
            subtitle: Seq::empty(),
            artist: Seq::empty(),
            artist_translit: Seq::empty(),
            chart_author: Seq::empty(),
            difficulty: DifficultyInfoView { name: Seq::empty(), short_name: Seq::empty(), idx: 0 },
            level: 1,
            disp_bpm: Seq::empty(),
            jacket_filename: Seq::empty(),
            jacket_author: Seq::empty(),
            information: Seq::empty(),
        }
    }
}

impl LaserSection {
    /// An exact copy.
    pub fn duplicate(&self) -> (r: LaserSection)
        ensures
            r@ == self@,
    {
        let r = LaserSection { y: self.y, wide: self.wide, v: self.v.clone() };
        proof {
            assert(r.v@ =~= self.v@);
        }
        r
    }
}

/// An exact copy of a byte string.
pub(crate) fn dup_bytes(v: &Vec<u8>) -> (r: Vec<u8>)
    ensures
        r@ == v@,
{
    let r = v.clone();
    proof {
        assert(r@ =~= v@);
    }
    r
}

/// An exact copy of an interval lane.
pub(crate) fn dup_intervals(v: &Vec<Interval>) -> (r: Vec<Interval>)
    ensures
        r@ == v@,
{
    let r = v.clone();
    proof {
        assert(r@ =~= v@);
    }
    r
}

/// An exact copy of a laser side.
pub(crate) fn dup_laser_lane(v: &Vec<LaserSection>) -> (r: Vec<LaserSection>)
    ensures
        laser_lane_view(r@) == laser_lane_view(v@),
        r@.len() == v@.len(),
        forall|i: int| 0 <= i < v@.len() ==> #[trigger] r@[i]@ == v@[i]@,
{
    let mut r: Vec<LaserSection> = Vec::new();
    let mut i: usize = 0;
    while i < v.len()
        invariant
            i <= v@.len(),
            r@.len() == i,
            forall|j: int| 0 <= j < i ==> #[trigger] r@[j]@ == v@[j]@,
        decreases v@.len() - i,
    {
        r.push(v[i].duplicate());
        i = i + 1;
    }
    proof {
        assert(laser_lane_view(r@) =~= laser_lane_view(v@));
    }
    r
}

impl DifficultyInfo {
    /// An exact copy.
    pub fn duplicate(&self) -> (r: DifficultyInfo)
        ensures
            r@ == self@,
    {
        DifficultyInfo {
            name: dup_bytes(&self.name),
            short_name: dup_bytes(&self.short_name),
            idx: self.idx,
        }
    }
}

impl MetaInfo {
    /// An exact copy.
    pub fn duplicate(&self) -> (r: MetaInfo)
        ensures
            r@ == self@,
    {
        MetaInfo {
            title: dup_bytes(&self.title),
            title_translit: dup_bytes(&self.title_translit),
            subtitle: dup_bytes(&self.subtitle),
            artist: dup_bytes(&self.artist),
            artist_translit: dup_bytes(&self.artist_translit),
            chart_author: dup_bytes(&self.chart_author),
            difficulty: self.difficulty.duplicate(),
            level: self.level,
            disp_bpm: dup_bytes(&self.disp_bpm),
            jacket_filename: dup_bytes(&self.jacket_filename),
            jacket_author: dup_bytes(&self.jacket_author),
            information: dup_bytes(&self.information),
        }
    }
}

impl NoteInfo {
    /// An exact copy.
    pub fn duplicate(&self) -> (r: NoteInfo)
        ensures
            r@ == self@,
    {
        let mut bt: Vec<Vec<Interval>> = Vec::new();
        let mut i: usize = 0;
        while i < self.bt.len()
            invariant
                i <= self.bt@.len(),
                bt@.len() == i,
                forall|j: int| 0 <= j < i ==> #[trigger] bt@[j]@ == self.bt@[j]@,
            decreases self.bt@.len() - i,
        {
            bt.push(dup_intervals(&self.bt[i]));
            i = i + 1;
        }
        let mut fx: Vec<Vec<Interval>> = Vec::new();
        let mut k: usize = 0;
        while k < self.fx.len()
            invariant
                k <= self.fx@.len(),
                fx@.len() == k,
                forall|j: int| 0 <= j < k ==> #[trigger] fx@[j]@ == self.fx@[j]@,
            decreases self.fx@.len() - k,
        {
            fx.push(dup_intervals(&self.fx[k]));
            k = k + 1;
        }
        let mut laser: Vec<Vec<LaserSection>> = Vec::new();
        let mut m: usize = 0;
        while m < self.laser.len()
            invariant
                m <= self.laser@.len(),
                laser@.len() == m,
                forall|j: int|
                    0 <= j < m ==> #[trigger] laser_lane_view(laser@[j]@) == laser_lane_view(
                        self.laser@[j]@,
                    ),
            decreases self.laser@.len() - m,
        {
            laser.push(dup_laser_lane(&self.laser[m]));
            m = m + 1;
        }
        let r = NoteInfo { bt, fx, laser };
        proof {
            assert(r@.bt =~~= self@.bt);
            assert(r@.fx =~~= self@.fx);
            assert(r@.laser =~~= self@.laser);
            assert(r@ =~= self@);
        }
        r
    }
}

impl BeatInfo {
    /// An exact copy.
    pub fn duplicate(&self) -> (r: BeatInfo)
        ensures
            r@ == self@,
    {
        let bpm = self.bpm.clone();
        proof {
            assert(bpm@ =~= self.bpm@);
        }
        BeatInfo { bpm, resolution: self.resolution }
    }
}

impl Chart {
    /// An exact copy.
    pub fn duplicate(&self) -> (r: Chart)
        ensures
            r@ == self@,
    {
        let r = Chart {
            meta: self.meta.duplicate(),
            note: self.note.duplicate(),
            beat: self.beat.duplicate(),
        };
        proof {
            assert(r@ =~= self@);
        }
        r
    }
}

// ---------------------------------------------------------------------------
// Executable invariant checks
// ---------------------------------------------------------------------------

/// Decides the lane invariant of one interval lane.
pub fn intervals_wf_check(v: &Vec<Interval>) -> (r: bool)
    ensures
        r == intervals_wf(v@),
{
    let mut i: usize = 1;
    while i < v.len()
        invariant
            1 <= i,
            forall|j: int| 0 <= j < i - 1 ==> #[trigger] v@[j].y + v@[j].l <= v@[j + 1].y,
        decreases v@.len() - i,
    {
        if v[i - 1].y as u64 + v[i - 1].l as u64 > v[i].y as u64 {
            return false;
        }
        i = i + 1;
    }
    true
}

impl LaserSection {
    /// Decides the section invariant.
    #[verifier::rlimit(100)]
    pub fn wf_check(&self) -> (r: bool)
        ensures
            r == self@.wf(),
    {
        if self.v.len() == 0 {
            return false;
        }
        if self.v[0].ry != 0 {
            return false;
        }
        let mut i: usize = 0;
        while i < self.v.len()
            invariant
                i <= self.v@.len(),
                forall|j: int| 0 <= j < i ==> (#[trigger] self.v@[j]).in_range(),
                forall|j: int| 0 <= j < i - 1 ==> #[trigger] self.v@[j].ry <= self.v@[j + 1].ry,
        decreases self.v@.len() - i,
        {
            let p = self.v[i];
            if p.v > VALUE_SCALE {
                return false;
            }
            if let Some(x) = p.vf {
                if x > VALUE_SCALE {
                    return false;
                }
            }
            if let Some(x) = p.a {
                if x > VALUE_SCALE {
                    return false;
                }
            }
            if let Some(x) = p.b {
                if x > VALUE_SCALE {
                    return false;
                }
            }
            if i > 0 && self.v[i - 1].ry > self.v[i].ry {
                return false;
            }
            i = i + 1;
        }
        true
    }

    /// Decides whether the section's span `[y, y + last offset)` holds the
    /// given tick.
    pub fn contains_tick(&self, tick: u32) -> (r: bool)
        ensures
            r == self@.contains_tick(tick),
    {
        if self.v.len() == 0 {
            return false;
        }
        if tick < self.y {
            return false;
        }
        tick - self.y < self.v[self.v.len() - 1].ry
    }
}

/// Decides the invariant of one laser side.
pub fn laser_lane_wf_check(v: &Vec<LaserSection>) -> (r: bool)
    ensures
        r == laser_lane_wf(laser_lane_view(v@)),
{
    let mut i: usize = 0;
    while i < v.len()
        invariant
            i <= v@.len(),
            forall|j: int| 0 <= j < i ==> (#[trigger] laser_lane_view(v@)[j]).wf(),
            forall|j: int|
                0 <= j < i - 1 ==> #[trigger] laser_lane_view(v@)[j].y <= laser_lane_view(v@)[j
                    + 1].y,
        decreases v@.len() - i,
    {
        proof {
            assert(laser_lane_view(v@)[i as int] == v@[i as int]@);
            assert(i > 0 ==> laser_lane_view(v@)[i - 1] == v@[i - 1]@);
        }
        if !v[i].wf_check() {
            proof {
                assert(!(laser_lane_view(v@)[i as int]).wf());
            }
            return false;
        }
        if i > 0 && v[i - 1].y > v[i].y {
            proof {
                assert(laser_lane_view(v@)[i - 1].y > laser_lane_view(v@)[i - 1 + 1].y);
            }
            return false;
        }
        i = i + 1;
    }
    true
}

impl Chart {
    /// Decides the whole chart invariant.
    pub fn wf_check(&self) -> (r: bool)
        ensures
            r == self@.wf(),
    {
        proof {
            assert forall|j: int| 0 <= j < self.note.bt@.len() implies #[trigger] self@.note.bt[j]
                == self.note.bt@[j]@ by {}
            assert forall|j: int| 0 <= j < self.note.fx@.len() implies #[trigger] self@.note.fx[j]
                == self.note.fx@[j]@ by {}
            assert forall|j: int|
                0 <= j < self.note.laser@.len() implies #[trigger] self@.note.laser[j]
                == laser_lane_view(self.note.laser@[j]@) by {}
        }
        if self.note.bt.len() != 4 || self.note.fx.len() != 2 || self.note.laser.len() != 2 {
            return false;
        }
        let mut i: usize = 0;
        while i < 4
            invariant
                i <= 4,
                self.note.bt@.len() == 4,
                forall|j: int| 0 <= j < i ==> intervals_wf(#[trigger] self@.note.bt[j]),
            decreases 4 - i,
        {
            proof {
                assert(self@.note.bt[i as int] == self.note.bt@[i as int]@);
            }
            if !intervals_wf_check(&self.note.bt[i]) {
                return false;
            }
            i = i + 1;
        }
        let mut k: usize = 0;
        while k < 2
            invariant
                k <= 2,
                self.note.fx@.len() == 2,
                forall|j: int| 0 <= j < k ==> intervals_wf(#[trigger] self@.note.fx[j]),
            decreases 2 - k,
        {
            proof {
                assert(self@.note.fx[k as int] == self.note.fx@[k as int]@);
            }
            if !intervals_wf_check(&self.note.fx[k]) {
                return false;
            }
            k = k + 1;
        }
        let mut m: usize = 0;
        while m < 2
            invariant
                m <= 2,
                self.note.laser@.len() == 2,
                forall|j: int| 0 <= j < m ==> laser_lane_wf(#[trigger] self@.note.laser[j]),
            decreases 2 - m,
        {
            proof {
                assert(self@.note.laser[m as int] == laser_lane_view(self.note.laser@[m as int]@));
            }
            if !laser_lane_wf_check(&self.note.laser[m]) {
                proof {
                    assert(!laser_lane_wf(self@.note.laser[m as int]));
                    assert(!self@.note.wf());
                }
                return false;
            }
            m = m + 1;
        }
        let mut b: usize = 1;
        while b < self.beat.bpm.len()
            invariant
                1 <= b,
                forall|j: int|
                    0 <= j < b - 1 ==> #[trigger] self.beat.bpm@[j].y <= self.beat.bpm@[j + 1].y,
            decreases self.beat.bpm@.len() - b,
        {
            if self.beat.bpm[b - 1].y > self.beat.bpm[b].y {
                proof {
                    assert(self@.beat.bpm[b - 1].y > self@.beat.bpm[b - 1 + 1].y);
                    assert(!self@.beat.wf());
                }
                return false;
            }
            b = b + 1;
        }
        true
    }
}

} // verus!
