//! What the browser's WebSocket messages ask of the terminal session.
use vstd::prelude::*;
use vstd::utf8::encode_utf8;

verus! {

/// A control message sent by the browser as JSON text.
#[derive(Debug, Clone, PartialEq, Eq)]
pub enum ClientControlMessage {
    Input { data: String },
    Resize { cols: u16, rows: u16 },
}

/// What the session is asked to do.
#[derive(Debug, Clone, PartialEq, Eq)]
pub enum PtyCommand {
    /// Bytes to write to the terminal's input.
    Write(Vec<u8>),
    /// A new size.
    Resize { cols: u16, rows: u16 },
}

/// What a text message asks of the session, given what it parsed to as a
/// control message: input is written as its bytes, a resize resizes, and
/// text that is no control message is written as typed.
pub fn text_command(parsed: Option<ClientControlMessage>, text: &str) -> (c: PtyCommand)
    ensures
        match parsed {
            Some(ClientControlMessage::Input { data }) => c matches PtyCommand::Write(b) && b@ == encode_utf8(data@),
            Some(ClientControlMessage::Resize { cols, rows }) => c == (PtyCommand::Resize { cols, rows }),
            None => c matches PtyCommand::Write(b) && b@ == encode_utf8(text@),
        },
{
    match parsed {
        Some(ClientControlMessage::Input { data }) => PtyCommand::Write(bytes_of(data.as_str())),
        Some(ClientControlMessage::Resize { cols, rows }) => PtyCommand::Resize { cols, rows },
        None => PtyCommand::Write(bytes_of(text)),
    }
}

/// The UTF-8 bytes of a text.
pub fn bytes_of(s: &str) -> (b: Vec<u8>)
    ensures
        b@ == encode_utf8(s@),
{
    let sb = s.as_bytes();
    let mut b: Vec<u8> = Vec::new();
    let mut i: usize = 0;
    while i < sb.len()
        invariant
            i <= sb@.len(),
            b@ == sb@.subrange(0, i as int),
        decreases sb@.len() - i,
    {
        b.push(sb[i]);
        i += 1;
    }
    assert(sb@.subrange(0, sb@.len() as int) =~= sb@);
    b
}

} // verus!
