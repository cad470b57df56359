use vstd::prelude::*;

verus! {

/// What a key event reports.
#[derive(Clone, Copy, Debug, PartialEq, Eq, Structural)]
pub enum KeyKind {
    Press,
    Repeat,
    Release,
}

/// The key of a key event, as far as the screensaver tells keys apart.
#[derive(Clone, Copy, Debug, PartialEq, Eq, Structural)]
pub enum Key {
    Char(char),
    Esc,
    Other,
}

/// A terminal event.
#[derive(Clone, Copy, Debug, PartialEq, Eq, Structural)]
pub enum InputEvent {
    /// A key event; `ctrl` tells whether Control was held.
    Key { key: Key, ctrl: bool, kind: KeyKind },
    /// The terminal now has `.0` columns and `.1` rows.
    Resize(u16, u16),
    /// Anything else (focus, mouse, paste).
    Other,
}

/// What the screensaver does on an event.
#[derive(Clone, Copy, Debug, PartialEq, Eq, Structural)]
pub enum Action {
    /// Leave.
    Quit,
    /// Rebuild the scene for a terminal of this size and clear the screen.
    Resize { width: usize, height: usize },
    /// Go on with the next frame.
    Continue,
}

/// Whether a key event asks to quit: `q`, `Q`, Escape, or Control and `c`,
/// pressed or repeated.
pub open spec fn quits(key: Key, ctrl: bool, kind: KeyKind) -> bool {
    &&& kind != KeyKind::Release
    &&& (key == Key::Char('q') || key == Key::Char('Q') || key == Key::Esc || (key == Key::Char(
        'c',
    ) && ctrl))
}

/// Pressing a key and holding it down to repeat decide alike; a release
/// never quits; `q`, `Q` and Escape quit with or without Control, and `c`
/// quits with Control.
pub proof fn law_quit_keys(key: Key, ctrl: bool)
    ensures
        quits(key, ctrl, KeyKind::Press) == quits(key, ctrl, KeyKind::Repeat),
        !quits(key, ctrl, KeyKind::Release),
        quits(Key::Char('q'), ctrl, KeyKind::Press),
        quits(Key::Char('Q'), ctrl, KeyKind::Press),
        quits(Key::Esc, ctrl, KeyKind::Press),
        quits(Key::Char('c'), true, KeyKind::Press),
        !quits(Key::Char('c'), false, KeyKind::Press),
        !quits(Key::Other, ctrl, KeyKind::Press),
        forall|c: char|
            c != 'q' && c != 'Q' && c != 'c' ==> !quits(Key::Char(c), ctrl, KeyKind::Press),
{
}

/// The action taken on `event`.
pub fn decide(event: InputEvent) -> (action: Action)
    ensures
        action == match event {
            InputEvent::Key { key, ctrl, kind } => if quits(key, ctrl, kind) {
                Action::Quit
            } else {
                Action::Continue
            },
            InputEvent::Resize(w, h) => Action::Resize { width: w as usize, height: h as usize },
            InputEvent::Other => Action::Continue,
        },
        event matches InputEvent::Key { key, ctrl, kind } ==> (action == Action::Quit <==> (kind
            != KeyKind::Release && (key == Key::Char('q') || key == Key::Char('Q') || key == Key::Esc
            || (key == Key::Char('c') && ctrl)))),
        event matches InputEvent::Key { .. } ==> (action == Action::Quit || action
            == Action::Continue),
{
    match event {
        InputEvent::Key { key, ctrl, kind } => {
            let live = match kind {
                KeyKind::Press => true,
                KeyKind::Repeat => true,
                KeyKind::Release => false,
            };
            if !live {
                return Action::Continue;
            }
            match key {
                Key::Char(c) => {
                    if c == 'q' || c == 'Q' || (c == 'c' && ctrl) {
                        Action::Quit
                    } else {
                        Action::Continue
                    }
                },
                Key::Esc => Action::Quit,
                Key::Other => Action::Continue,
            }
        },
        InputEvent::Resize(w, h) => Action::Resize { width: w as usize, height: h as usize },
        InputEvent::Other => Action::Continue,
    }
}

} // verus!
