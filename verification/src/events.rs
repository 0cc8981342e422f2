//! Events and selections of the editor's input surface: what the
//! surrounding event loop queues for the editor, which tool is active, and
//! which keyboard modifiers a binding expects.
use vstd::prelude::*;

verus! {

/// One request queued for the editor by menus or key bindings.
#[derive(Clone, Debug, PartialEq, Eq)]
pub enum GuiEvent {
    /// A new chart: audio file, chart filename, and destination folder.
    New(String, String, Option<String>),
    Open,
    Save,
    ToolChanged(ChartTool),
    Undo,
    Redo,
    SaveAs,
    ExportKsh,
    Play,
    Home,
    End,
    Next,
    Previous,
}

/// The active cursor tool.
#[derive(Debug, PartialEq, Eq, Copy, Clone, Structural)]
pub enum ChartTool {
    NoTool,
    BT,
    FX,
    RLaser,
    LLaser,
    BPM,
    TimeSig,
}

/// The keyboard modifiers a key binding expects.
#[derive(Debug, PartialEq, Eq, Copy, Clone, Structural)]
pub struct Modifiers {
    pub alt: bool,
    pub ctrl: bool,
    pub shift: bool,
    pub mac_cmd: bool,
    pub command: bool,
}

impl Modifiers {
    /// No modifiers held.
    pub fn new() -> (r: Modifiers)
        ensures
            r == (Modifiers {
                alt: false,
                ctrl: false,
                shift: false,
                mac_cmd: false,
                command: false,
            }),
    {
        Modifiers { alt: false, command: false, ctrl: false, mac_cmd: false, shift: false }
    }

    /// With the alt key.
    pub fn alt(self) -> (r: Modifiers)
        ensures
            r == (Modifiers { alt: true, ..self }),
    {
        Modifiers { alt: true, ..self }
    }

    /// With the platform command key.
    pub fn command(self) -> (r: Modifiers)
        ensures
            r == (Modifiers { command: true, ..self }),
    {
        Modifiers { command: true, ..self }
    }

    /// With the control key; control doubles as the primary command
    /// modifier.
    pub fn ctrl(self) -> (r: Modifiers)
        ensures
            r == (Modifiers { ctrl: true, command: true, ..self }),
    {
        Modifiers { ctrl: true, command: true, ..self }
    }

    /// With the macOS command key.
    pub fn mac_cmd(self) -> (r: Modifiers)
        ensures
            r == (Modifiers { mac_cmd: true, ..self }),
    {
        Modifiers { mac_cmd: true, ..self }
    }

    /// With the shift key.
    pub fn shift(self) -> (r: Modifiers)
        ensures
            r == (Modifiers { shift: true, ..self }),
    {
        Modifiers { shift: true, ..self }
    }
}

} // verus!
