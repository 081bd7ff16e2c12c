//! Direct terminal control via ANSI escape sequences (ECMA-48, DEC private
//! modes and XTerm extensions). Each function appends the UTF-8 bytes of one
//! control sequence to an output buffer that the caller later writes to the
//! terminal.

use vstd::prelude::*;
use vstd::utf8::encode_utf8;
use crate::text::{decimal, push_str, push_decimal, lemma_encode_concat};

verus! {

/// `CSI row;col H` (CUP, Cursor Position; 1-based row and column).
pub open spec fn cup(row: nat, col: nat) -> Seq<char> {
    "\x1b["@ + decimal(row) + ";"@ + decimal(col) + "H"@
}

/// `OSC 0 ; title BEL` (set the window title).
pub open spec fn title_seq(title: Seq<char>) -> Seq<char> {
    "\x1b]0;"@ + title + "\x07"@
}

/// Appends `encode_utf8(acc + s)` as `encode_utf8(acc)` followed by `encode_utf8(s)`.
pub proof fn lemma_append_encoded(start: Seq<u8>, acc: Seq<char>, s: Seq<char>)
    ensures
        start + encode_utf8(acc) + encode_utf8(s) == start + encode_utf8(acc + s),
{
    lemma_encode_concat(acc, s);
    assert(start + encode_utf8(acc) + encode_utf8(s) =~= start + (encode_utf8(acc) + encode_utf8(s)));
}

/// Move the cursor to the given row and column (1-based): `CSI Pl;Pc H`.
pub fn goto(out: &mut Vec<u8>, row: u16, col: u16)
    ensures
        final(out)@ == old(out)@ + encode_utf8(cup(row as nat, col as nat)),
{
    let ghost start = out@;
    push_str(out, "\x1b[");
    push_decimal(out, row as u64);
    proof { lemma_append_encoded(start, "\x1b["@, decimal(row as nat)); }
    push_str(out, ";");
    proof { lemma_append_encoded(start, "\x1b["@ + decimal(row as nat), ";"@); }
    push_decimal(out, col as u64);
    proof { lemma_append_encoded(start, "\x1b["@ + decimal(row as nat) + ";"@, decimal(col as nat)); }
    push_str(out, "H");
    proof { lemma_append_encoded(start, "\x1b["@ + decimal(row as nat) + ";"@ + decimal(col as nat), "H"@); }
}

/// Clear the whole screen and move the cursor home: `CSI 2J` + `CSI H`.
pub fn clear(out: &mut Vec<u8>)
    ensures
        final(out)@ == old(out)@ + encode_utf8("\x1b[2J\x1b[H"@),
{
    push_str(out, "\x1b[2J\x1b[H");
}

/// Clear the whole line the cursor is on: `CSI 2K` (EL).
pub fn clear_line(out: &mut Vec<u8>)
    ensures
        final(out)@ == old(out)@ + encode_utf8("\x1b[2K"@),
{
    push_str(out, "\x1b[2K");
}

/// Show the cursor: `CSI ?25h` (DECTCEM).
pub fn show_cursor(out: &mut Vec<u8>)
    ensures
        final(out)@ == old(out)@ + encode_utf8("\x1b[?25h"@),
{
    push_str(out, "\x1b[?25h");
}

/// Hide the cursor, usually before entering a TUI: `CSI ?25l` (DECTCEM).
pub fn hide_cursor(out: &mut Vec<u8>)
    ensures
        final(out)@ == old(out)@ + encode_utf8("\x1b[?25l"@),
{
    push_str(out, "\x1b[?25l");
}

/// Save the current cursor position: `ESC 7` (DECSC).
pub fn save_cursor(out: &mut Vec<u8>)
    ensures
        final(out)@ == old(out)@ + encode_utf8("\x1b7"@),
{
    push_str(out, "\x1b7");
}

/// Restore the previously saved cursor position: `ESC 8` (DECRC).
pub fn restore_cursor(out: &mut Vec<u8>)
    ensures
        final(out)@ == old(out)@ + encode_utf8("\x1b8"@),
{
    push_str(out, "\x1b8");
}

/// Enter the alternate screen buffer, keeping the normal screen intact:
/// `CSI ?1049h`.
pub fn enter_alt_screen(out: &mut Vec<u8>)
    ensures
        final(out)@ == old(out)@ + encode_utf8("\x1b[?1049h"@),
{
    push_str(out, "\x1b[?1049h");
}

/// Leave the alternate screen buffer and return to the normal screen:
/// `CSI ?1049l`.
pub fn leave_alt_screen(out: &mut Vec<u8>)
    ensures
        final(out)@ == old(out)@ + encode_utf8("\x1b[?1049l"@),
{
    push_str(out, "\x1b[?1049l");
}

/// Set the terminal window title: `OSC 0 ; title BEL`. The title is written
/// as given; callers sanitize untrusted text first.
pub fn set_title(out: &mut Vec<u8>, title: &str)
    ensures
        final(out)@ == old(out)@ + encode_utf8(title_seq(title@)),
{
    let ghost start = out@;
    push_str(out, "\x1b]0;");
    push_str(out, title);
    proof { lemma_append_encoded(start, "\x1b]0;"@, title@); }
    push_str(out, "\x07");
    proof { lemma_append_encoded(start, "\x1b]0;"@ + title@, "\x07"@); }
}

/// Reset all text attributes to their defaults: `CSI 0m` (SGR).
pub fn reset_style(out: &mut Vec<u8>)
    ensures
        final(out)@ == old(out)@ + encode_utf8("\x1b[0m"@),
{
    push_str(out, "\x1b[0m");
}

} // verus!
