//! What keys and the mouse do.
use vstd::prelude::*;
use crate::text::{chars_of, trim, trimmed};

verus! {

/// A key, by its place on the keyboard.
#[derive(Clone, Copy, Debug, PartialEq, Eq, Structural)]
pub enum Key {
    Space,
    Left,
    Right,
    Up,
    Down,
    Home,
    End,
    Plus,
    Minus,
    Tab,
    Enter,
    Backspace,
    Comma,
    Period,
    Escape,
    /// A letter, as a capital.
    Letter(char),
    Other,
}

/// The keys held along with it. `cmd` stands for both the command and the control key.
#[derive(Clone, Copy, Debug, PartialEq, Eq, Structural)]
pub struct Held {
    pub cmd: bool,
    pub shift: bool,
    pub alt: bool,
}

/// What a key asks for.
#[derive(Clone, Copy, Debug, PartialEq, Eq, Structural)]
pub enum Command {
    Toggle,
    /// Move the playhead by this many nanoseconds.
    Jump(i64),
    /// Select the recording that is this much further in the list.
    SelectOffset(i64),
    GoToStart,
    GoToEnd,
    /// Zoom by a factor of `num / den`.
    Zoom { num: u32, den: u32 },
    OpenFolder,
    AskUrl,
    StepSplit { forward: bool },
    Finish,
    ConfirmAndNext,
    DeleteSplit,
    /// Move the selected split by this many nanoseconds.
    NudgeSplit(i64),
    SnapSplit,
    AddSplit,
    Replay,
    Undo,
    Redo,
    EditTitle,
    ToggleDrop,
    TogglePreview,
    Rename,
    ToggleSilence,
    ExportCurrent,
    ExportDone,
    ToggleFlag,
    Compare,
    Escape,
}

/// How far the arrow keys move the playhead: 5 s, 0.5 s with shift, 10 ms with alt.
pub open spec fn jump_ns(held: Held) -> i64 {
    if held.alt {
        10_000_000
    } else if held.shift {
        500_000_000
    } else {
        5_000_000_000
    }
}

/// How far a split is nudged: 10 ms, 100 ms with shift.
pub open spec fn nudge_ns(held: Held) -> i64 {
    if held.shift {
        100_000_000
    } else {
        10_000_000
    }
}

/// The command of a letter without the command key.
pub open spec fn plain_letter(c: char) -> Option<Command> {
    if c == 'S' {
        Some(Command::SnapSplit)
    } else if c == 'M' {
        Some(Command::AddSplit)
    } else if c == 'C' {
        Some(Command::Replay)
    } else if c == 'T' {
        Some(Command::EditTitle)
    } else if c == 'X' {
        Some(Command::ToggleDrop)
    } else if c == 'P' {
        Some(Command::TogglePreview)
    } else if c == 'R' {
        Some(Command::Rename)
    } else if c == 'G' {
        Some(Command::ToggleSilence)
    } else if c == 'F' {
        Some(Command::ToggleFlag)
    } else if c == 'A' {
        Some(Command::Compare)
    } else {
        None
    }
}

/// The command of a letter with the command key.
pub open spec fn cmd_letter(c: char, shift: bool) -> Option<Command> {
    if c == 'O' {
        Some(Command::OpenFolder)
    } else if c == 'U' {
        Some(Command::AskUrl)
    } else if c == 'Z' {
        Some(
            if shift {
                Command::Redo
            } else {
                Command::Undo
            },
        )
    } else if c == 'E' {
        Some(
            if shift {
                Command::ExportDone
            } else {
                Command::ExportCurrent
            },
        )
    } else {
        None
    }
}

/// What a key asks for with the given keys held.
pub open spec fn command_of(key: Key, held: Held) -> Option<Command> {
    match key {
        Key::Space => Some(Command::Toggle),
        Key::Left => Some(Command::Jump((-jump_ns(held)) as i64)),
        Key::Right => Some(Command::Jump(jump_ns(held))),
        Key::Up => Some(Command::SelectOffset((-1) as i64)),
        Key::Down => Some(Command::SelectOffset(1)),
        Key::Home => Some(Command::GoToStart),
        Key::End => Some(Command::GoToEnd),
        Key::Plus => Some(Command::Zoom { num: 1, den: 2 }),
        Key::Minus => Some(Command::Zoom { num: 2, den: 1 }),
        Key::Tab => Some(Command::StepSplit { forward: !held.shift }),
        Key::Enter => Some(
            if held.cmd {
                Command::Finish
            } else {
                Command::ConfirmAndNext
            },
        ),
        Key::Backspace => Some(Command::DeleteSplit),
        Key::Comma => Some(Command::NudgeSplit((-nudge_ns(held)) as i64)),
        Key::Period => Some(Command::NudgeSplit(nudge_ns(held))),
        Key::Escape => Some(Command::Escape),
        Key::Letter(c) => if held.cmd {
            cmd_letter(c, held.shift)
        } else {
            plain_letter(c)
        },
        Key::Other => None,
    }
}

/// What a key asks for; nothing while a text field has the keyboard.
pub fn command(key: Key, held: Held, typing: bool) -> (r: Option<Command>)
    ensures
        r == if typing {
            None
        } else {
            command_of(key, held)
        },
{
    if typing {
        return None;
    }
    let step: i64 = if held.alt {
        10_000_000
    } else if held.shift {
        500_000_000
    } else {
        5_000_000_000
    };
    let nudge: i64 = if held.shift {
        100_000_000
    } else {
        10_000_000
    };
    match key {
        Key::Space => Some(Command::Toggle),
        Key::Left => Some(Command::Jump(-step)),
        Key::Right => Some(Command::Jump(step)),
        Key::Up => Some(Command::SelectOffset(-1)),
        Key::Down => Some(Command::SelectOffset(1)),
        Key::Home => Some(Command::GoToStart),
        Key::End => Some(Command::GoToEnd),
        Key::Plus => Some(Command::Zoom { num: 1, den: 2 }),
        Key::Minus => Some(Command::Zoom { num: 2, den: 1 }),
        Key::Tab => Some(Command::StepSplit { forward: !held.shift }),
        Key::Enter => if held.cmd {
            Some(Command::Finish)
        } else {
            Some(Command::ConfirmAndNext)
        },
        Key::Backspace => Some(Command::DeleteSplit),
        Key::Comma => Some(Command::NudgeSplit(-nudge)),
        Key::Period => Some(Command::NudgeSplit(nudge)),
        Key::Escape => Some(Command::Escape),
        Key::Letter(c) => if held.cmd {
            match c {
                'O' => Some(Command::OpenFolder),
                'U' => Some(Command::AskUrl),
                'Z' => if held.shift {
                    Some(Command::Redo)
                } else {
                    Some(Command::Undo)
                },
                'E' => if held.shift {
                    Some(Command::ExportDone)
                } else {
                    Some(Command::ExportCurrent)
                },
                _ => None,
            }
        } else {
            match c {
                'S' => Some(Command::SnapSplit),
                'M' => Some(Command::AddSplit),
                'C' => Some(Command::Replay),
                'T' => Some(Command::EditTitle),
                'X' => Some(Command::ToggleDrop),
                'P' => Some(Command::TogglePreview),
                'R' => Some(Command::Rename),
                'G' => Some(Command::ToggleSilence),
                'F' => Some(Command::ToggleFlag),
                'A' => Some(Command::Compare),
                _ => None,
            }
        },
        Key::Other => None,
    }
}

/// What the mouse does over a waveform. `grab` is the split marker under the pointer, if it can
/// be grabbed there; `held` tells whether the main button is down.
#[derive(Clone, Copy, Debug, PartialEq, Eq, Structural)]
pub enum Mouse {
    Down { grab: Option<usize> },
    Move { held: bool, grab: Option<usize> },
    Up,
    Leave,
}

/// What follows from it, at the place of the pointer.
#[derive(Clone, Copy, Debug, PartialEq, Eq, Structural)]
pub enum MouseAction {
    BeginDrag(usize),
    DragTo,
    EndDrag,
    /// End the drag, and show that nothing can be grabbed.
    Left,
    Seek { center: bool },
    /// Show whether there is something to grab.
    Hover(bool),
}

/// Click or drag to seek, grab split markers to move them. `center` tells whether a click brings
/// its place to the middle of the view.
pub fn mouse(event: Mouse, dragging: bool, center: bool) -> (r: MouseAction)
    ensures
        r == match event {
            Mouse::Down { grab: Some(i) } => MouseAction::BeginDrag(i),
            Mouse::Down { grab: None } => MouseAction::Seek { center },
            Mouse::Move { held, grab } => if dragging && held {
                MouseAction::DragTo
            } else if dragging {
                MouseAction::EndDrag
            } else if held {
                MouseAction::Seek { center: false }
            } else {
                MouseAction::Hover(grab is Some)
            },
            Mouse::Up => MouseAction::EndDrag,
            Mouse::Leave => MouseAction::Left,
        },
{
    match event {
        Mouse::Down { grab } => match grab {
            Some(i) => MouseAction::BeginDrag(i),
            None => MouseAction::Seek { center },
        },
        Mouse::Move { held, grab } => {
            if dragging {
                if held {
                    MouseAction::DragTo
                } else {
                    MouseAction::EndDrag
                }
            } else if held {
                MouseAction::Seek { center: false }
            } else {
                MouseAction::Hover(grab.is_some())
            }
        },
        Mouse::Up => MouseAction::EndDrag,
        Mouse::Leave => MouseAction::Left,
    }
}

/// The zoom of one turn of the wheel: out by a quarter, or back in.
pub fn wheel_zoom(outwards: bool) -> (r: (u32, u32))
    ensures
        r == if outwards {
            (5u32, 4u32)
        } else {
            (4u32, 5u32)
        },
{
    if outwards {
        (5, 4)
    } else {
        (4, 5)
    }
}

/// How a title field is left.
#[derive(Clone, Copy, Debug, PartialEq, Eq, Structural)]
pub enum LeaveTitle {
    /// Enter: save and move on to the next track.
    Enter,
    /// Tab: save (taking the suggested name for an empty field) and move on, back with shift.
    Tab { shift: bool },
    /// Another place was clicked: save.
    Blur,
    Escape,
}

/// The track whose title is typed next.
pub fn next_title(leave: LeaveTitle, track: usize, count: usize) -> (r: Option<usize>)
    requires
        track < count,
    ensures
        r == match leave {
            LeaveTitle::Tab { shift: true } => if track > 0 {
                Some((track - 1) as usize)
            } else {
                None
            },
            LeaveTitle::Blur => None,
            LeaveTitle::Escape => None,
            _ => if track + 1 < count {
                Some((track + 1) as usize)
            } else {
                None
            },
        },
{
    let back = match leave {
        LeaveTitle::Blur | LeaveTitle::Escape => return None,
        LeaveTitle::Tab { shift } => shift,
        LeaveTitle::Enter => false,
    };
    if back {
        if track > 0 {
            Some(track - 1)
        } else {
            None
        }
    } else if track + 1 < count {
        Some(track + 1)
    } else {
        None
    }
}

/// The title to save: `None` to leave it as it is.
pub fn left_title(leave: LeaveTitle, typed: &str, suggested: &str) -> (r: Option<String>)
    ensures
        leave == LeaveTitle::Escape ==> r is None,
        leave != LeaveTitle::Escape ==> r is Some && r->0@ == if leave is Tab && trimmed(typed@).len() == 0 {
            suggested@
        } else {
            typed@
        },
{
    match leave {
        LeaveTitle::Escape => None,
        LeaveTitle::Tab { .. } => {
            let chars = chars_of(typed);
            if trim(&chars).len() == 0 {
                Some(suggested.to_owned())
            } else {
                Some(typed.to_owned())
            }
        },
        _ => Some(typed.to_owned()),
    }
}

} // verus!
