//! The stack's log messages. The release library has logging largely compiled out, so
//! these are rarely exercised; formatting is kept trivial.

use vstd::prelude::*;

use crate::text;
use crate::text::{push_decimal, utf8_text};

verus! {

/// The line that a message is forwarded as: its text behind a prefix. Bytes that are not
/// UTF-8 are shown as a placeholder.
pub open spec fn line(prefix: Seq<char>, message: Seq<u8>) -> Seq<char> {
    prefix + seq![':', ' '] + if vstd::utf8::valid_utf8(message) {
        vstd::utf8::decode_utf8(message)
    } else {
        seq!['<'] + text::decimal(message.len()) + " non-utf8 bytes>"@
    }
}

/// What a message comes to: nothing where there is none.
pub open spec fn forwarded(prefix: Seq<char>, message: Option<Seq<u8>>) -> Option<Seq<char>> {
    match message {
        Some(bytes) => Some(line(prefix, bytes)),
        None => None,
    }
}

/// The bytes of a message, if there is one.
pub open spec fn bytes_of(message: Option<&[u8]>) -> Option<Seq<u8>> {
    match message {
        Some(bytes) => Some(bytes@),
        None => None,
    }
}

/// The characters of a line, if there is one.
pub open spec fn chars_of(line: Option<String>) -> Option<Seq<char>> {
    match line {
        Some(text) => Some(text@),
        None => None,
    }
}

/// The line to log for a message.
pub fn forward(prefix: &str, message: Option<&[u8]>) -> (line: Option<String>)
    ensures
        chars_of(line) == forwarded(prefix@, bytes_of(message)),
{
    let bytes = match message {
        Some(bytes) => bytes,
        None => {
            return None;
        },
    };
    let mut out: String = prefix.to_owned();
    out.push(':');
    out.push(' ');
    assert(out@ =~= prefix@ + seq![':', ' ']);
    match utf8_text(bytes) {
        Some(text) => {
            out.append(text);
        },
        None => {
            out.push('<');
            push_decimal(&mut out, bytes.len() as u64);
            out.append(" non-utf8 bytes>");
            assert(out@ =~= prefix@ + seq![':', ' '] + (seq!['<'] + text::decimal(bytes@.len())
                + " non-utf8 bytes>"@));
        },
    }
    Some(out)
}

/// The line for a log message of the stack.
#[allow(non_snake_case)]
pub fn USB_X_Log(message: Option<&[u8]>) -> (line: Option<String>)
    ensures
        chars_of(line) == forwarded("emUSB"@, bytes_of(message)),
{
    forward("emUSB", message)
}

/// The line for a warning of the stack.
#[allow(non_snake_case)]
pub fn USB_X_Warn(message: Option<&[u8]>) -> (line: Option<String>)
    ensures
        chars_of(line) == forwarded("emUSB WARN"@, bytes_of(message)),
{
    forward("emUSB WARN", message)
}

/// Minimal stand-in for the stack's `vsnprintf`: with logging compiled out, real
/// formatting is not relied on. The buffer is NUL-terminated, and zero bytes are
/// reported written.
#[allow(non_snake_case)]
pub fn SEGGER_vsnprintf(buffer: Option<&mut [u8]>, buffer_size: i32) -> (written: i32)
    requires
        buffer matches Some(b) ==> buffer_size > 0 ==> b@.len() > 0,
    ensures
        written == 0,
        buffer matches Some(b) ==> final(b)@ == if buffer_size > 0 {
            b@.update(0, 0)
        } else {
            b@
        },
{
    if let Some(b) = buffer {
        if buffer_size > 0 {
            b[0] = 0;
        }
    }
    0
}

/// A message that is text is forwarded whole, behind the prefix and a colon; one that is not
/// is told by its length.
pub proof fn messages_are_forwarded_whole(prefix: Seq<char>, message: Seq<char>, bytes: Seq<u8>)
    ensures
        forwarded(prefix, Some(vstd::utf8::encode_utf8(message))) == Some(
            prefix + seq![':', ' '] + message,
        ),
        !vstd::utf8::valid_utf8(bytes) ==> forwarded(prefix, Some(bytes)) == Some(
            prefix + seq![':', ' ', '<'] + text::decimal(bytes.len()) + " non-utf8 bytes>"@,
        ),
        forwarded(prefix, None) is None,
{
    vstd::utf8::encode_utf8_valid_utf8(message);
    vstd::utf8::encode_utf8_decode_utf8(message);
    assert(prefix + seq![':', ' '] + (seq!['<'] + text::decimal(bytes.len()) + " non-utf8 bytes>"@)
        =~= prefix + seq![':', ' ', '<'] + text::decimal(bytes.len()) + " non-utf8 bytes>"@);
}

} // verus!
