//! Keyboard, mouse and resize events, and the decoding of single input bytes.
use vstd::prelude::*;

verus! {

#[derive(Clone, Copy, Debug, PartialEq, Eq, Structural)]
pub enum KeyCode {
    Char(char),
    Enter,
    Esc,
    Backspace,
    Left,
    Right,
    Up,
    Down,
    Home,
    End,
    PageUp,
    PageDown,
    Tab,
    BackTab,
    Delete,
    F(u8),
    Null,
}

/// Modifier keys as bit flags.
#[derive(Clone, Copy, Debug, PartialEq, Eq, Structural)]
pub struct KeyModifiers(pub u8);

impl KeyModifiers {
    #[allow(non_snake_case)]
    pub fn NONE() -> (m: KeyModifiers)
        ensures
            m.0 == 0,
    {
        KeyModifiers(0)
    }

    #[allow(non_snake_case)]
    pub fn SHIFT() -> (m: KeyModifiers)
        ensures
            m.0 == 1,
    {
        KeyModifiers(1)
    }

    #[allow(non_snake_case)]
    pub fn CONTROL() -> (m: KeyModifiers)
        ensures
            m.0 == 2,
    {
        KeyModifiers(2)
    }

    #[allow(non_snake_case)]
    pub fn ALT() -> (m: KeyModifiers)
        ensures
            m.0 == 4,
    {
        KeyModifiers(4)
    }

    /// Whether every flag of `other` is set.
    pub fn contains(&self, other: KeyModifiers) -> (b: bool)
        ensures
            b == (self.0 & other.0 == other.0),
    {
        (self.0 & other.0) == other.0
    }

    /// The union of two flag sets.
    pub fn union(self, rhs: KeyModifiers) -> (m: KeyModifiers)
        ensures
            m.0 == self.0 | rhs.0,
    {
        KeyModifiers(self.0 | rhs.0)
    }
}

#[derive(Clone, Copy, Debug, PartialEq, Eq, Structural)]
pub enum KeyEventKind {
    Press,
    Release,
    Repeat,
}

#[derive(Clone, Copy, Debug, PartialEq, Eq, Structural)]
pub struct KeyEventState(pub u8);

#[derive(Clone, Copy, Debug, PartialEq, Eq, Structural)]
pub struct KeyEvent {
    pub code: KeyCode,
    pub modifiers: KeyModifiers,
    pub kind: KeyEventKind,
    pub state: KeyEventState,
}

impl KeyEvent {
    /// A key press with no extra state.
    pub fn new(code: KeyCode, modifiers: KeyModifiers) -> (e: KeyEvent)
        ensures
            e == (KeyEvent { code, modifiers, kind: KeyEventKind::Press, state: KeyEventState(0) }),
    {
        KeyEvent { code, modifiers, kind: KeyEventKind::Press, state: KeyEventState(0) }
    }
}

#[derive(Clone, Copy, Debug, PartialEq, Eq, Structural)]
pub enum MouseButton {
    Left,
    Right,
    Middle,
}

#[derive(Clone, Copy, Debug, PartialEq, Eq, Structural)]
pub enum MouseEventKind {
    Down(MouseButton),
    Up(MouseButton),
    Drag(MouseButton),
    Moved,
    ScrollDown,
    ScrollUp,
}

#[derive(Clone, Copy, Debug, PartialEq, Eq, Structural)]
pub struct MouseEvent {
    pub kind: MouseEventKind,
    pub column: u16,
    pub row: u16,
    pub modifiers: KeyModifiers,
}

#[derive(Clone, Copy, Debug, PartialEq, Eq, Structural)]
pub enum Event {
    Key(KeyEvent),
    Mouse(MouseEvent),
    Resize(u16, u16),
}

/// Whether input is ready: this backend never reports pending input.
pub fn poll(_timeout: std::time::Duration) -> (r: Result<bool, std::io::Error>)
    ensures
        r matches Ok(b) && !b,
{
    Ok(false)
}

/// The key event a single input byte stands for (`None` at end of input).
pub open spec fn byte_event(b: Option<u8>) -> Event {
    match b {
        None => Event::Key(KeyEvent { code: KeyCode::Null, modifiers: KeyModifiers(0), kind: KeyEventKind::Press, state: KeyEventState(0) }),
        Some(b) => {
            let (code, m) = if b == 13 || b == 10 {
                (KeyCode::Enter, 0u8)
            } else if b == 9 {
                (KeyCode::Tab, 0u8)
            } else if b == 27 {
                (KeyCode::Esc, 0u8)
            } else if b == 127 || b == 8 {
                (KeyCode::Backspace, 0u8)
            } else if b < 32 {
                (KeyCode::Char(((b + 96) as u8) as char), 2u8)
            } else {
                (KeyCode::Char(b as char), 0u8)
            };
            Event::Key(KeyEvent { code, modifiers: KeyModifiers(m), kind: KeyEventKind::Press, state: KeyEventState(0) })
        },
    }
}

/// Decodes one input byte: carriage return and line feed are Enter, tab is
/// Tab, escape is Esc, delete and backspace are Backspace, other control
/// bytes are Control plus the matching letter, and any other byte is its character.
pub fn decode_byte(b: Option<u8>) -> (e: Event)
    ensures
        e == byte_event(b),
{
    match b {
        None => Event::Key(KeyEvent::new(KeyCode::Null, KeyModifiers(0))),
        Some(b) => {
            if b == 13 || b == 10 {
                Event::Key(KeyEvent::new(KeyCode::Enter, KeyModifiers(0)))
            } else if b == 9 {
                Event::Key(KeyEvent::new(KeyCode::Tab, KeyModifiers(0)))
            } else if b == 27 {
                Event::Key(KeyEvent::new(KeyCode::Esc, KeyModifiers(0)))
            } else if b == 127 || b == 8 {
                Event::Key(KeyEvent::new(KeyCode::Backspace, KeyModifiers(0)))
            } else if b < 32 {
                let ch = (b + 96) as char;
                Event::Key(KeyEvent::new(KeyCode::Char(ch), KeyModifiers(2)))
            } else {
                Event::Key(KeyEvent::new(KeyCode::Char(b as char), KeyModifiers(0)))
            }
        },
    }
}

} // verus!
