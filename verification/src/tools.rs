//! The cursor tools that turn pointer interactions into chart edits.
use crate::action_stack::{apply_spec, ActionError, ActionStack, ChartAction, RedoEntryView,
    UndoEntryView};
use crate::chart::Interval;
use vstd::prelude::*;

pub mod laser;

verus! {

/// The button/hold note tool: press to place the start, release to place
/// the end.
pub struct ButtonInterval {
    pressed: bool,
    fx: bool,
    interval: Interval,
    lane: usize,
}

impl ButtonInterval {
    /// A fresh tool for button (`fx == false`) or effect (`fx == true`)
    /// lanes.
    pub fn new(fx: bool) -> (r: ButtonInterval)
        ensures
            !r@.pressed,
            r@.fx == fx,
            r@.interval == (Interval { y: 0, l: 0 }),
            r@.lane == 0,
            r@.wf(),
    {
        ButtonInterval { pressed: false, fx, interval: Interval { y: 0, l: 0 }, lane: 0 }
    }
}

/// The mathematical value of a [`ButtonInterval`].
#[verifier::ext_equal]
pub ghost struct ButtonIntervalView {
    pub pressed: bool,
    pub fx: bool,
    pub interval: Interval,
    pub lane: usize,
}

impl View for ButtonInterval {
    type V = ButtonIntervalView;

    closed spec fn view(&self) -> ButtonIntervalView {
        ButtonIntervalView {
            pressed: self.pressed,
            fx: self.fx,
            interval: self.interval,
            lane: self.lane,
        }
    }
}

impl ButtonIntervalView {
    /// The tool's lane index always fits its lane kind.
    pub open spec fn wf(self) -> bool {
        if self.fx {
            self.lane < 2
        } else {
            self.lane < 4
        }
    }
}

/// The lane index a pointer column selects for this tool: effect lanes
/// split the track in two, button lanes clamp to the four inner columns.
pub open spec fn pick_lane(fx: bool, lane: u32) -> int {
    if fx {
        if lane < 3 {
            0
        } else {
            1
        }
    } else {
        if lane < 1 {
            0
        } else if lane > 4 {
            3
        } else {
            lane - 1
        }
    }
}

impl ButtonInterval {
    /// A press: remember the lane under the pointer and the start tick.
    pub fn mouse_down(&mut self, tick: u32, lane: u32)
        ensures
            final(self)@.pressed,
            final(self)@.fx == old(self)@.fx,
            final(self)@.lane == pick_lane(old(self)@.fx, lane),
            final(self)@.interval == (Interval { y: tick, l: old(self)@.interval.l }),
            final(self)@.wf(),
    {
        self.pressed = true;
        if self.fx {
            self.lane = if lane < 3 {
                0
            } else {
                1
            };
        } else {
            let clamped = if lane < 1 {
                1
            } else if lane > 4 {
                4
            } else {
                lane
            };
            self.lane = (clamped - 1) as usize;
        }
        self.interval.y = tick;
    }

    /// Pointer motion: while unpressed the pending note follows the
    /// pointer; the pending length always spans from the press to `tick`.
    pub fn update(&mut self, tick: u32, lane: u32)
        ensures
            final(self)@.pressed == old(self)@.pressed,
            final(self)@.fx == old(self)@.fx,
            !old(self)@.pressed ==> final(self)@.lane == pick_lane(old(self)@.fx, lane)
                && final(self)@.interval.y == tick,
            old(self)@.pressed ==> final(self)@.lane == old(self)@.lane
                && final(self)@.interval.y == old(self)@.interval.y,
            final(self)@.interval.l == (if final(self)@.interval.y >= tick {
                0u32
            } else {
                (tick - final(self)@.interval.y) as u32
            }),
            old(self)@.wf() ==> final(self)@.wf(),
    {
        if !self.pressed {
            self.interval.y = tick;
            if self.fx {
                self.lane = if lane < 3 {
                    0
                } else {
                    1
                };
            } else {
                let clamped = if lane < 1 {
                    1
                } else if lane > 4 {
                    4
                } else {
                    lane
                };
                self.lane = (clamped - 1) as usize;
            }
        }
        if self.interval.y >= tick {
            self.interval.l = 0;
        } else {
            self.interval.l = tick - self.interval.y;
        }
    }

    /// A release: the pending note, spanning from the press to `tick`, is
    /// committed through the action stack, which inserts it at its stable
    /// sorted position or refuses it (leaving the chart untouched) when it
    /// would overlap a neighbouring note; the tool resets either way.
    pub fn mouse_up(&mut self, tick: u32, _lane: u32, actions: &mut ActionStack) -> (r: Result<
        (),
        ActionError,
    >)
        requires
            old(self)@.wf(),
            old(actions)@.wf(),
        ensures
            final(self)@.pressed == false,
            final(self)@.fx == old(self)@.fx,
            final(self)@.lane == 0,
            final(self)@.interval == (Interval { y: 0, l: 0 }),
            final(self)@.wf(),
            final(actions)@.wf(),
            ({
                let y = old(self)@.interval.y;
                let act = ChartAction::AddInterval {
                    fx: old(self)@.fx,
                    lane: old(self)@.lane,
                    interval: Interval {
                        y,
                        l: if y >= tick {
                            0u32
                        } else {
                            (tick - y) as u32
                        },
                    },
                };
                if apply_spec(act, old(actions)@.chart) is Ok {
                    &&& r is Ok
                    &&& final(actions)@.chart == apply_spec(act, old(actions)@.chart)->Ok_0
                    &&& final(actions)@.redo == Seq::<RedoEntryView>::empty()
                    &&& final(actions)@.undo == old(actions)@.undo.push(
                        UndoEntryView { action: act, before: old(actions)@.chart },
                    )
                } else {
                    &&& r == Err::<(), ActionError>(apply_spec(act, old(actions)@.chart)->Err_0)
                    &&& final(actions)@ == old(actions)@
                }
            }),
    {
        if self.interval.y >= tick {
            self.interval.l = 0;
        } else {
            self.interval.l = tick - self.interval.y;
        }
        let iv = self.interval;
        self.interval = Interval { y: 0, l: 0 };
        let act = ChartAction::AddInterval { fx: self.fx, lane: self.lane, interval: iv };
        let out = actions.new_action(act);
        self.pressed = false;
        self.lane = 0;
        out
    }
}

} // verus!
