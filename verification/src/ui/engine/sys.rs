//! Terminal mode switches and the control commands as ANSI text.
use vstd::prelude::*;
use crate::text::{push_str, push_decimal, dec};

verus! {

/// `std::io::Error`, carried through results of terminal operations.
#[verifier::external_type_specification]
#[verifier::external_body]
pub struct ExIoError(std::io::Error);

/// Raw mode needs no switch on this backend; it always succeeds.
pub fn enable_raw_mode() -> (r: Result<(), std::io::Error>)
    ensures
        r is Ok,
{
    Ok(())
}

/// Leaving raw mode always succeeds.
pub fn disable_raw_mode() -> (r: Result<(), std::io::Error>)
    ensures
        r is Ok,
{
    Ok(())
}

/// The terminal size: the fixed fallback of 120 columns by 30 rows.
pub fn size() -> (r: Result<(u16, u16), std::io::Error>)
    ensures
        r matches Ok(sz) && sz == (120u16, 30u16),
{
    Ok((120, 30))
}

/// A terminal command that is sent as an ANSI escape sequence.
pub trait Command {
    /// The escape sequence of the command.
    spec fn ansi(&self) -> Seq<char>;

    /// The command can be encoded.
    spec fn encodable(&self) -> bool;

    fn write_ansi(&self, out: &mut String)
        requires
            self.encodable(),
        ensures
            final(out)@ == old(out)@ + self.ansi(),
    ;
}

pub struct EnterAlternateScreen;

pub struct LeaveAlternateScreen;

pub struct EnableMouseCapture;

pub struct DisableMouseCapture;

/// Shows the cursor.
pub struct Show;

/// Hides the cursor.
pub struct Hide;

/// Moves the cursor to a zero-based column and row.
pub struct MoveTo(pub u16, pub u16);

impl Command for EnterAlternateScreen {
    open spec fn ansi(&self) -> Seq<char> { "\x1b[?1049h"@ }
    open spec fn encodable(&self) -> bool { true }
    fn write_ansi(&self, out: &mut String) { push_str(out, "\x1b[?1049h"); }
}

impl Command for LeaveAlternateScreen {
    open spec fn ansi(&self) -> Seq<char> { "\x1b[?1049l"@ }
    open spec fn encodable(&self) -> bool { true }
    fn write_ansi(&self, out: &mut String) { push_str(out, "\x1b[?1049l"); }
}

impl Command for EnableMouseCapture {
    open spec fn ansi(&self) -> Seq<char> { "\x1b[?1000h\x1b[?1002h\x1b[?1015h\x1b[?1006h"@ }
    open spec fn encodable(&self) -> bool { true }
    fn write_ansi(&self, out: &mut String) { push_str(out, "\x1b[?1000h\x1b[?1002h\x1b[?1015h\x1b[?1006h"); }
}

impl Command for DisableMouseCapture {
    open spec fn ansi(&self) -> Seq<char> { "\x1b[?1006l\x1b[?1015l\x1b[?1002l\x1b[?1000l"@ }
    open spec fn encodable(&self) -> bool { true }
    fn write_ansi(&self, out: &mut String) { push_str(out, "\x1b[?1006l\x1b[?1015l\x1b[?1002l\x1b[?1000l"); }
}

impl Command for Show {
    open spec fn ansi(&self) -> Seq<char> { "\x1b[?25h"@ }
    open spec fn encodable(&self) -> bool { true }
    fn write_ansi(&self, out: &mut String) { push_str(out, "\x1b[?25h"); }
}

impl Command for Hide {
    open spec fn ansi(&self) -> Seq<char> { "\x1b[?25l"@ }
    open spec fn encodable(&self) -> bool { true }
    fn write_ansi(&self, out: &mut String) { push_str(out, "\x1b[?25l"); }
}

impl Command for MoveTo {
    open spec fn ansi(&self) -> Seq<char> {
        "\x1b["@ + dec(self.1 as nat + 1) + ";"@ + dec(self.0 as nat + 1) + "H"@
    }

    open spec fn encodable(&self) -> bool {
        self.0 < u16::MAX && self.1 < u16::MAX
    }

    fn write_ansi(&self, out: &mut String) {
        let ghost start = out@;
        push_str(out, "\x1b[");
        push_decimal(out, (self.1 + 1) as u64);
        push_str(out, ";");
        push_decimal(out, (self.0 + 1) as u64);
        push_str(out, "H");
        assert(out@ == start + self.ansi());
    }
}

} // verus!
