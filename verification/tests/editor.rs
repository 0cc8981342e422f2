use kson_editor::action_stack::{ActionError, ActionStack, ChartAction};
use kson_editor::chart::{Chart, DoubleEvent, GraphSectionPoint, Interval, LaserSection, VALUE_SCALE};
use kson_editor::codec::{decode_chart, encode_chart};
use kson_editor::events::{ChartTool, Modifiers};
use kson_editor::tools::laser::{
    control_point_pos, DrawRange, LaserEditMode, LaserTool, ScreenPos,
};
use kson_editor::tools::ButtonInterval;

fn eased(ry: u32, v: u32) -> GraphSectionPoint {
    GraphSectionPoint { ry, v, vf: None, a: Some(5000), b: Some(5000) }
}

fn left_section(y: u32, points: Vec<GraphSectionPoint>) -> LaserSection {
    LaserSection { y, wide: 1, v: points }
}

fn stack_with_left_section(y: u32, points: Vec<GraphSectionPoint>) -> ActionStack {
    let chart = Chart::new();
    assert!(chart.wf_check());
    let mut actions = ActionStack::new(chart);
    let act = ChartAction::AddLaserSection { right: false, section: left_section(y, points) };
    assert!(actions.new_action(act).is_ok());
    actions
}

#[test]
fn empty_chart_is_well_formed() {
    let chart = Chart::new();
    assert!(chart.wf_check());
    assert_eq!(chart.beat.resolution, 240);
    assert_eq!(chart.meta.level, 1);
    assert_eq!(chart.note.bt.len(), 4);
    assert_eq!(chart.note.fx.len(), 2);
    assert_eq!(chart.note.laser.len(), 2);
}

#[test]
fn duplicate_is_exact() {
    let mut chart = Chart::new();
    chart.meta.title = b"song".to_vec();
    chart.note.bt[2].push(Interval { y: 10, l: 5 });
    chart.note.laser[0].push(left_section(7, vec![eased(0, 3000), eased(40, 9000)]));
    let copy = chart.duplicate();
    assert_eq!(chart, copy);
}

#[test]
fn interval_inserts_stay_sorted_and_disjoint() {
    let chart = Chart::new();
    let mut actions = ActionStack::new(chart);
    let ivs = [
        Interval { y: 100, l: 50 },
        Interval { y: 0, l: 10 },
        Interval { y: 50, l: 0 },
        Interval { y: 200, l: 0 },
    ];
    for iv in ivs {
        let r = actions.new_action(ChartAction::AddInterval { fx: false, lane: 1, interval: iv });
        assert!(r.is_ok());
    }
    let lane = &actions.chart().note.bt[1];
    assert_eq!(
        lane.as_slice(),
        &[
            Interval { y: 0, l: 10 },
            Interval { y: 50, l: 0 },
            Interval { y: 100, l: 50 },
            Interval { y: 200, l: 0 },
        ]
    );
    for w in lane.windows(2) {
        assert!(w[0].y + w[0].l <= w[1].y);
    }
}

#[test]
fn overlapping_insert_is_refused_without_effect() {
    let chart = Chart::new();
    let mut actions = ActionStack::new(chart);
    let a = ChartAction::AddInterval { fx: false, lane: 0, interval: Interval { y: 0, l: 100 } };
    assert!(actions.new_action(a).is_ok());
    let before = actions.chart().duplicate();
    let bad = ChartAction::AddInterval { fx: false, lane: 0, interval: Interval { y: 50, l: 10 } };
    assert_eq!(actions.new_action(bad), Err(ActionError::Overlap));
    assert_eq!(actions.chart(), &before);
}

#[test]
fn lane_out_of_range_is_refused() {
    let chart = Chart::new();
    let mut actions = ActionStack::new(chart);
    let a = ChartAction::AddInterval { fx: true, lane: 2, interval: Interval { y: 0, l: 0 } };
    assert_eq!(actions.new_action(a), Err(ActionError::LaneOutOfRange));
}

#[test]
fn remove_missing_section_is_refused() {
    let chart = Chart::new();
    let mut actions = ActionStack::new(chart);
    let a = ChartAction::RemoveLaserSection { right: true, index: 0 };
    assert_eq!(actions.new_action(a), Err(ActionError::IndexOutOfRange));
}

#[test]
fn malformed_section_is_refused() {
    let chart = Chart::new();
    let mut actions = ActionStack::new(chart);
    let empty = ChartAction::AddLaserSection { right: false, section: left_section(0, vec![]) };
    assert_eq!(actions.new_action(empty), Err(ActionError::MalformedSection));
    let unsorted = ChartAction::AddLaserSection {
        right: false,
        section: left_section(0, vec![eased(50, 0), eased(0, 0)]),
    };
    assert_eq!(actions.new_action(unsorted), Err(ActionError::MalformedSection));
}

#[test]
fn malformed_point_is_refused() {
    let mut actions = stack_with_left_section(0, vec![eased(0, 0), eased(100, 5000)]);
    let bad = ChartAction::AdjustLaserPoint {
        right: false,
        section_index: 0,
        point_index: 0,
        point: GraphSectionPoint { ry: 5, v: 0, vf: None, a: None, b: None },
    };
    assert_eq!(actions.new_action(bad), Err(ActionError::MalformedPoint));
}

#[test]
fn undo_then_redo_restores_exact_chart() {
    let mut actions = stack_with_left_section(100, vec![eased(0, 0), eased(200, 10000)]);
    let after = actions.chart().duplicate();
    assert!(actions.undo());
    assert_eq!(actions.chart().note.laser[0].len(), 0);
    assert!(actions.redo());
    assert_eq!(actions.chart(), &after);
}

#[test]
fn undo_redo_on_empty_history_do_nothing() {
    let mut actions = ActionStack::new(Chart::new());
    let before = actions.chart().duplicate();
    assert!(!actions.undo());
    assert!(!actions.redo());
    assert_eq!(actions.chart(), &before);
    assert_eq!(actions.prev_action_desc(), None);
    assert_eq!(actions.next_action_desc(), None);
}

#[test]
fn committing_after_undo_discards_redo() {
    let mut actions = stack_with_left_section(100, vec![eased(0, 0), eased(200, 10000)]);
    assert!(actions.undo());
    assert!(actions.next_action_desc().is_some());
    let a = ChartAction::AddInterval { fx: false, lane: 0, interval: Interval { y: 0, l: 0 } };
    assert!(actions.new_action(a).is_ok());
    assert_eq!(actions.next_action_desc(), None);
    assert!(!actions.redo());
}

#[test]
fn action_descriptions() {
    let mut actions = stack_with_left_section(0, vec![eased(0, 0), eased(10, 0)]);
    assert_eq!(actions.prev_action_desc(), Some("Add Left Laser"));
    let rm = ChartAction::RemoveLaserSection { right: false, index: 0 };
    assert!(actions.new_action(rm).is_ok());
    assert_eq!(actions.prev_action_desc(), Some("Remove left laser"));
    let adj = ChartAction::AdjustLaserPoint {
        right: true,
        section_index: 0,
        point_index: 0,
        point: eased(0, 0),
    };
    assert_eq!(adj.description(), "Adjust Right Laser Curve");
}

#[test]
fn hit_test_inside_and_outside_span() {
    let actions = stack_with_left_section(100, vec![eased(0, 0), eased(200, 10000)]);
    let tool = LaserTool::new(false);
    assert_eq!(tool.hit_test(actions.chart(), 150), Some(0));
    assert_eq!(tool.hit_test(actions.chart(), 100), Some(0));
    assert_eq!(tool.hit_test(actions.chart(), 299), Some(0));
    assert_eq!(tool.hit_test(actions.chart(), 300), None);
    assert_eq!(tool.hit_test(actions.chart(), 400), None);
    assert_eq!(tool.hit_test(actions.chart(), 99), None);
    let right_tool = LaserTool::new(true);
    assert_eq!(right_tool.hit_test(actions.chart(), 150), None);
}

#[test]
fn laser_new_gesture_finalizes_into_two_points() {
    let mut actions = ActionStack::new(Chart::new());
    let mut tool = LaserTool::new(false);
    let pos = ScreenPos { x: 0, y: 0 };
    let windows: Vec<Vec<DrawRange>> = Vec::new();
    let val = 2000;
    assert!(tool.drag_start(0, val, &mut actions, pos, &windows, 100, 0).is_ok());
    assert!(matches!(tool.mode(), LaserEditMode::New));
    assert_eq!(tool.section().v.len(), 2);
    assert!(tool.drag_start(100, val, &mut actions, pos, &windows, 100, 0).is_ok());
    assert_eq!(tool.section().v.len(), 3);
    assert!(tool.drag_start(100, val, &mut actions, pos, &windows, 100, 0).is_ok());
    assert!(matches!(tool.mode(), LaserEditMode::Idle));
    let committed = &actions.chart().note.laser[0];
    assert_eq!(committed.len(), 1);
    assert_eq!(committed[0].y, 0);
    assert_eq!(committed[0].v.len(), 2);
    assert_eq!(committed[0].v[0].ry, 0);
    assert_eq!(committed[0].v[0].v, val);
    assert_eq!(committed[0].v[1].ry, 100);
    assert_eq!(committed[0].v[1].v, val);
    assert_eq!(actions.prev_action_desc(), Some("Add Left Laser"));
}

#[test]
fn finalized_sections_start_at_zero_and_stay_sorted() {
    let mut actions = ActionStack::new(Chart::new());
    let mut tool = LaserTool::new(true);
    let pos = ScreenPos { x: 0, y: 0 };
    let windows: Vec<Vec<DrawRange>> = Vec::new();
    assert!(tool.drag_start(500, 1000, &mut actions, pos, &windows, 100, 0).is_ok());
    assert!(tool.drag_start(700, 4000, &mut actions, pos, &windows, 100, 0).is_ok());
    assert!(tool.drag_start(900, 8000, &mut actions, pos, &windows, 100, 0).is_ok());
    assert!(tool.drag_start(900, 8000, &mut actions, pos, &windows, 100, 0).is_ok());
    let committed = &actions.chart().note.laser[1];
    assert_eq!(committed.len(), 1);
    let sec = &committed[0];
    assert_eq!(sec.v[0].ry, 0);
    for w in sec.v.windows(2) {
        assert!(w[0].ry <= w[1].ry);
    }
    assert!(sec.wf_check());
}

#[test]
fn middle_click_removes_hit_section() {
    let mut actions = stack_with_left_section(100, vec![eased(0, 0), eased(200, 10000)]);
    let tool = LaserTool::new(false);
    tool.middle_click(400, &mut actions);
    assert_eq!(actions.chart().note.laser[0].len(), 1);
    tool.middle_click(150, &mut actions);
    assert_eq!(actions.chart().note.laser[0].len(), 0);
    assert_eq!(actions.prev_action_desc(), Some("Remove left laser"));
}

#[test]
fn control_point_position_is_resolved_through_ranges() {
    let p0 = GraphSectionPoint { ry: 0, v: 0, vf: None, a: Some(5000), b: Some(5000) };
    let p1 = GraphSectionPoint { ry: 100, v: 10000, vf: None, a: None, b: None };
    let ranges = vec![DrawRange { x: 0, y: 0, h: 100, t0: 0, t1: 10000 }];
    let r = control_point_pos(&p0, &p1, &ranges, 1000, 0);
    assert_eq!(r, Ok(Some(ScreenPos { x: 1000, y: 50 })));
}

#[test]
fn control_point_absent_without_easing_or_span() {
    let bare = GraphSectionPoint { ry: 0, v: 0, vf: None, a: None, b: None };
    let p1 = GraphSectionPoint { ry: 100, v: 10000, vf: None, a: None, b: None };
    let ranges = vec![DrawRange { x: 0, y: 0, h: 100, t0: 0, t1: 10000 }];
    assert_eq!(control_point_pos(&bare, &p1, &ranges, 1000, 0), Ok(None));
    let p0 = GraphSectionPoint { ry: 100, v: 0, vf: None, a: Some(5000), b: Some(5000) };
    assert_eq!(control_point_pos(&p0, &p1, &ranges, 1000, 0), Ok(None));
}

#[test]
fn section_contains_respects_half_open_span() {
    let sec = left_section(100, vec![eased(0, 0), eased(200, 10000)]);
    assert!(!sec.contains_tick(99));
    assert!(sec.contains_tick(100));
    assert!(sec.contains_tick(299));
    assert!(!sec.contains_tick(300));
    assert!(VALUE_SCALE == 10000);
}

#[test]
fn new_gesture_motion_on_same_offset_makes_a_slam() {
    let mut actions = ActionStack::new(Chart::new());
    let mut tool = LaserTool::new(false);
    let pos = ScreenPos { x: 0, y: 0 };
    let windows: Vec<Vec<DrawRange>> = Vec::new();
    assert!(tool.drag_start(0, 2000, &mut actions, pos, &windows, 100, 0).is_ok());
    tool.update(0, 0, 8000, 8000);
    let v = &tool.section().v;
    assert_eq!(v[1].ry, 0);
    assert_eq!(v[1].v, 2000);
    assert_eq!(v[1].vf, Some(8000));
    tool.update(60, 60000, 8000, 8000);
    let v = &tool.section().v;
    assert_eq!(v[1].ry, 60);
    assert_eq!(v[1].v, 8000);
    assert_eq!(v[1].vf, None);
}

#[test]
fn curve_adjustment_commits_eased_point() {
    let mut actions =
        stack_with_left_section(0, vec![eased(0, 0), GraphSectionPoint {
            ry: 100,
            v: 10000,
            vf: None,
            a: Some(5000),
            b: Some(5000),
        }]);
    let mut tool = LaserTool::new(false);
    let windows = vec![vec![DrawRange { x: 0, y: 0, h: 100, t0: 0, t1: 10000 }]];
    let far = ScreenPos { x: -100, y: -100 };
    assert!(tool.drag_start(50, 0, &mut actions, far, &windows, 1000, 0).is_ok());
    assert!(matches!(tool.mode(), LaserEditMode::Edit(_)));
    let on_control_point = ScreenPos { x: 1000, y: 50 };
    assert!(tool.drag_start(50, 0, &mut actions, on_control_point, &windows, 1000, 0).is_ok());
    tool.update(25, 25000, 0, 5000);
    assert_eq!(tool.section().v[0].a, Some(2500));
    assert_eq!(tool.section().v[0].b, Some(5000));
    assert!(tool.drag_end(&mut actions).is_ok());
    assert_eq!(actions.prev_action_desc(), Some("Adjust Left Laser Curve"));
    let sec = &actions.chart().note.laser[0][0];
    assert_eq!(sec.v[0].a, Some(2500));
    assert_eq!(sec.v[0].b, Some(5000));
}

#[test]
fn button_tool_commits_note_through_stack() {
    let mut actions = ActionStack::new(Chart::new());
    let mut bt = ButtonInterval::new(false);
    bt.mouse_down(0, 2);
    assert!(bt.mouse_up(120, 2, &mut actions).is_ok());
    assert_eq!(actions.chart().note.bt[1].as_slice(), &[Interval { y: 0, l: 120 }]);
    bt.mouse_down(240, 1);
    assert!(bt.mouse_up(240, 1, &mut actions).is_ok());
    assert_eq!(actions.chart().note.bt[0].as_slice(), &[Interval { y: 240, l: 0 }]);

    let mut fx = ButtonInterval::new(true);
    fx.mouse_down(60, 5);
    assert!(fx.mouse_up(30, 5, &mut actions).is_ok());
    assert_eq!(actions.chart().note.fx[1].as_slice(), &[Interval { y: 60, l: 0 }]);
}

#[test]
fn button_tool_refuses_overlapping_note() {
    let mut actions = ActionStack::new(Chart::new());
    let mut bt = ButtonInterval::new(false);
    bt.mouse_down(60, 1);
    assert!(bt.mouse_up(65, 1, &mut actions).is_ok());
    let before = actions.chart().duplicate();
    bt.mouse_down(50, 1);
    assert_eq!(bt.mouse_up(150, 1, &mut actions), Err(ActionError::Overlap));
    assert_eq!(actions.chart(), &before);
    for w in actions.chart().note.bt[0].windows(2) {
        assert!(w[0].y + w[0].l <= w[1].y);
    }
}

#[test]
fn button_tool_update_tracks_pointer() {
    let mut actions = ActionStack::new(Chart::new());
    let mut bt = ButtonInterval::new(false);
    bt.update(100, 1);
    bt.mouse_down(100, 1);
    bt.update(160, 1);
    assert!(bt.mouse_up(160, 1, &mut actions).is_ok());
    assert_eq!(actions.chart().note.bt[0].as_slice(), &[Interval { y: 100, l: 60 }]);
}

#[test]
fn modifiers_builders_set_flags() {
    let m = Modifiers::new();
    assert!(!m.alt && !m.ctrl && !m.shift && !m.mac_cmd && !m.command);
    let m = Modifiers::new().ctrl();
    assert!(m.ctrl && m.command);
    let m = Modifiers::new().ctrl().shift();
    assert!(m.ctrl && m.command && m.shift);
    let m = Modifiers::new().alt().mac_cmd();
    assert!(m.alt && m.mac_cmd && !m.ctrl);
    let m = Modifiers::new().command();
    assert!(m.command && !m.ctrl);
    assert_eq!(ChartTool::LLaser, ChartTool::LLaser);
    assert_ne!(ChartTool::NoTool, ChartTool::BPM);
}

#[test]
fn persisted_format_round_trips_exactly() {
    let mut chart = Chart::new();
    chart.meta.title = b"A Song".to_vec();
    chart.meta.artist = b"Someone".to_vec();
    chart.meta.difficulty.name = b"extended".to_vec();
    chart.meta.difficulty.idx = 3;
    chart.meta.level = 17;
    chart.meta.disp_bpm = b"120-185".to_vec();
    chart.note.bt[0].push(Interval { y: 0, l: 0 });
    chart.note.bt[0].push(Interval { y: 240, l: 480 });
    chart.note.fx[1].push(Interval { y: 60, l: 30 });
    chart.note.laser[0].push(LaserSection {
        y: 100,
        wide: 1,
        v: vec![
            GraphSectionPoint { ry: 0, v: 0, vf: None, a: None, b: None },
            GraphSectionPoint { ry: 50, v: 5000, vf: Some(10000), a: Some(2500), b: Some(7500) },
            GraphSectionPoint { ry: 200, v: 10000, vf: None, a: Some(5000), b: Some(5000) },
        ],
    });
    chart.note.laser[1].push(LaserSection { y: 0, wide: 2, v: vec![] });
    chart.beat.bpm.push(DoubleEvent { y: 0, v: 120000 });
    chart.beat.bpm.push(DoubleEvent { y: 960, v: 185500 });
    chart.beat.resolution = 240;

    let bytes = encode_chart(&chart);
    let back = decode_chart(&bytes).expect("decoding an encoded chart");
    assert_eq!(back, chart);
}

#[test]
fn default_chart_round_trips() {
    let chart = Chart::new();
    let bytes = encode_chart(&chart);
    assert_eq!(decode_chart(&bytes), Some(chart));
}

#[test]
fn truncated_or_padded_encodings_are_refused() {
    let chart = Chart::new();
    let mut bytes = encode_chart(&chart);
    bytes.pop();
    assert_eq!(decode_chart(&bytes), None);
    let mut padded = encode_chart(&chart);
    padded.push(0);
    assert_eq!(decode_chart(&padded), None);
    assert_eq!(decode_chart(&Vec::new()), None);
}
