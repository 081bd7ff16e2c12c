//! High-level terminal UI primitives built on ANSI escape sequences: SGR
//! colors, text output that cannot inject control sequences, and box-drawing
//! lines and frames.

use std::borrow::Cow;
use vstd::prelude::*;
use vstd::utf8::encode_utf8;
use crate::format_tools::is_control;
use crate::terminal_tools::{cup, goto, lemma_append_encoded};
use crate::text::{decimal, push_str, push_decimal, chars_of, string_of};

verus! {

// ---------------------------------------------------------------------------
// Colors (SGR)
// ---------------------------------------------------------------------------

/// `CSI code m` (SGR with one parameter).
pub open spec fn sgr(code: nat) -> Seq<char> {
    "\x1b["@ + decimal(code) + "m"@
}

/// `CSI base;5;index m` (8-bit palette color; base 38 = foreground, 48 = background).
pub open spec fn sgr_indexed(base: Seq<char>, index: nat) -> Seq<char> {
    "\x1b["@ + base + ";5;"@ + decimal(index) + "m"@
}

/// `CSI base;2;r;g;b m` (24-bit color; base 38 = foreground, 48 = background).
pub open spec fn sgr_rgb(base: Seq<char>, r: nat, g: nat, b: nat) -> Seq<char> {
    "\x1b["@ + base + ";2;"@ + decimal(r) + ";"@ + decimal(g) + ";"@ + decimal(b) + "m"@
}

/// Reset foreground and background to the terminal defaults:
/// `CSI 39 m` + `CSI 49 m`, written as `CSI 39;49 m`.
pub fn clear_color(out: &mut Vec<u8>)
    ensures
        final(out)@ == old(out)@ + encode_utf8("\x1b[39;49m"@),
{
    push_str(out, "\x1b[39;49m");
}

fn push_sgr(out: &mut Vec<u8>, code: u8)
    ensures
        final(out)@ == old(out)@ + encode_utf8(sgr(code as nat)),
{
    let ghost start = out@;
    push_str(out, "\x1b[");
    push_decimal(out, code as u64);
    proof { lemma_append_encoded(start, "\x1b["@, decimal(code as nat)); }
    push_str(out, "m");
    proof { lemma_append_encoded(start, "\x1b["@ + decimal(code as nat), "m"@); }
}

/// Set the foreground to a basic SGR color code (30-37, 90-97): `CSI code m`.
pub fn fg_color(out: &mut Vec<u8>, code: u8)
    ensures
        final(out)@ == old(out)@ + encode_utf8(sgr(code as nat)),
{
    push_sgr(out, code);
}

/// Set the background to a basic SGR color code (40-47, 100-107): `CSI code m`.
pub fn bg_color(out: &mut Vec<u8>, code: u8)
    ensures
        final(out)@ == old(out)@ + encode_utf8(sgr(code as nat)),
{
    push_sgr(out, code);
}

fn push_indexed(out: &mut Vec<u8>, base: &str, index: u8)
    ensures
        final(out)@ == old(out)@ + encode_utf8(sgr_indexed(base@, index as nat)),
{
    let ghost start = out@;
    push_str(out, "\x1b[");
    push_str(out, base);
    proof { lemma_append_encoded(start, "\x1b["@, base@); }
    push_str(out, ";5;");
    proof { lemma_append_encoded(start, "\x1b["@ + base@, ";5;"@); }
    push_decimal(out, index as u64);
    proof { lemma_append_encoded(start, "\x1b["@ + base@ + ";5;"@, decimal(index as nat)); }
    push_str(out, "m");
    proof { lemma_append_encoded(start, "\x1b["@ + base@ + ";5;"@ + decimal(index as nat), "m"@); }
}

/// Set the foreground to an 8-bit (256-color) palette index: `CSI 38;5;n m`.
pub fn fg_indexed(out: &mut Vec<u8>, index: u8)
    ensures
        final(out)@ == old(out)@ + encode_utf8(sgr_indexed("38"@, index as nat)),
{
    push_indexed(out, "38", index);
}

/// Set the background to an 8-bit (256-color) palette index: `CSI 48;5;n m`.
pub fn bg_indexed(out: &mut Vec<u8>, index: u8)
    ensures
        final(out)@ == old(out)@ + encode_utf8(sgr_indexed("48"@, index as nat)),
{
    push_indexed(out, "48", index);
}

fn push_rgb(out: &mut Vec<u8>, base: &str, r: u8, g: u8, b: u8)
    ensures
        final(out)@ == old(out)@ + encode_utf8(sgr_rgb(base@, r as nat, g as nat, b as nat)),
{
    let ghost start = out@;
    let ghost acc = "\x1b["@;
    push_str(out, "\x1b[");
    push_str(out, base);
    proof { lemma_append_encoded(start, acc, base@); acc = acc + base@; }
    push_str(out, ";2;");
    proof { lemma_append_encoded(start, acc, ";2;"@); acc = acc + ";2;"@; }
    push_decimal(out, r as u64);
    proof { lemma_append_encoded(start, acc, decimal(r as nat)); acc = acc + decimal(r as nat); }
    push_str(out, ";");
    proof { lemma_append_encoded(start, acc, ";"@); acc = acc + ";"@; }
    push_decimal(out, g as u64);
    proof { lemma_append_encoded(start, acc, decimal(g as nat)); acc = acc + decimal(g as nat); }
    push_str(out, ";");
    proof { lemma_append_encoded(start, acc, ";"@); acc = acc + ";"@; }
    push_decimal(out, b as u64);
    proof { lemma_append_encoded(start, acc, decimal(b as nat)); acc = acc + decimal(b as nat); }
    push_str(out, "m");
    proof { lemma_append_encoded(start, acc, "m"@); }
}

/// Set the foreground to a 24-bit RGB color: `CSI 38;2;r;g;b m`.
pub fn fg_rgb(out: &mut Vec<u8>, r: u8, g: u8, b: u8)
    ensures
        final(out)@ == old(out)@ + encode_utf8(sgr_rgb("38"@, r as nat, g as nat, b as nat)),
{
    push_rgb(out, "38", r, g, b);
}

/// Set the background to a 24-bit RGB color: `CSI 48;2;r;g;b m`.
pub fn bg_rgb(out: &mut Vec<u8>, r: u8, g: u8, b: u8)
    ensures
        final(out)@ == old(out)@ + encode_utf8(sgr_rgb("48"@, r as nat, g as nat, b as nat)),
{
    push_rgb(out, "48", r, g, b);
}

// ---------------------------------------------------------------------------
// Inert text
// ---------------------------------------------------------------------------

/// How a control character is shown: caret notation for C0 controls
/// (`^@`..`^_`), `^?` for DEL and U+FFFD for C1 controls — as `cat -v` does.
pub open spec fn caret(c: char) -> Seq<char> {
    let code = c as u32;
    if code == 0x7f {
        seq!['^', '?']
    } else if 0x80 <= code && code <= 0x9f {
        seq!['\u{fffd}']
    } else {
        seq!['^', (code + 0x40) as char]
    }
}

/// How `c` is shown on the terminal: controls are escaped, the rest kept.
pub open spec fn shown(c: char) -> Seq<char> {
    if is_control(c) {
        caret(c)
    } else {
        seq![c]
    }
}

/// `s` with every terminal control character escaped.
pub open spec fn sanitized(s: Seq<char>) -> Seq<char>
    decreases s.len(),
{
    if s.len() == 0 {
        Seq::empty()
    } else {
        sanitized(s.drop_last()) + shown(s.last())
    }
}

/// `s` holds no terminal control character.
pub open spec fn is_clean(s: Seq<char>) -> bool {
    forall|i: int| 0 <= i < s.len() ==> !is_control(#[trigger] s[i])
}

/// Clean text is left as it is.
pub proof fn lemma_sanitized_clean_identity(s: Seq<char>)
    requires
        is_clean(s),
    ensures
        sanitized(s) == s,
    decreases s.len(),
{
    if s.len() > 0 {
        assert(is_clean(s.drop_last())) by {
            assert forall|i: int| 0 <= i < s.drop_last().len() implies !is_control(#[trigger] s.drop_last()[i]) by {
                assert(s.drop_last()[i] == s[i]);
            }
        }
        lemma_sanitized_clean_identity(s.drop_last());
        assert(!is_control(s[s.len() - 1]));
        assert(s.drop_last().push(s.last()) =~= s);
    }
}

/// Sanitized text never contains a terminal control character, so it can
/// never start an escape sequence.
pub proof fn lemma_sanitized_is_clean(s: Seq<char>)
    ensures
        is_clean(sanitized(s)),
    decreases s.len(),
{
    if s.len() > 0 {
        lemma_sanitized_is_clean(s.drop_last());
        let a = sanitized(s.drop_last());
        let b = shown(s.last());
        assert(is_clean(b)) by {
            let code = s.last() as u32;
            if is_control(s.last()) && code != 0x7f && !(0x80 <= code && code <= 0x9f) {
                assert(((code + 0x40) as char) as u32 == code + 0x40);
            }
        }
        assert forall|i: int| 0 <= i < (a + b).len() implies !is_control(#[trigger] (a + b)[i]) by {
            if i < a.len() {
                assert((a + b)[i] == a[i]);
            } else {
                assert((a + b)[i] == b[i - a.len()]);
            }
        }
    }
}

/// Sanitizing twice changes nothing more than sanitizing once.
pub proof fn lemma_sanitize_idempotent(s: Seq<char>)
    ensures
        sanitized(sanitized(s)) == sanitized(s),
{
    lemma_sanitized_is_clean(s);
    lemma_sanitized_clean_identity(sanitized(s));
}

/// Whether `c` is a terminal control character (C0, DEL or C1).
fn is_terminal_control(c: char) -> (r: bool)
    ensures
        r == is_control(c),
{
    let code = c as u32;
    code <= 0x1f || (0x7f <= code && code <= 0x9f)
}

/// Appends the escaped form of the control character `c` to `out`.
fn write_caret(out: &mut Vec<char>, c: char)
    requires
        is_control(c),
    ensures
        final(out)@ == old(out)@ + caret(c),
{
    let code = c as u32;
    if code == 0x7f {
        out.push('^');
        out.push('?');
    } else if 0x80 <= code && code <= 0x9f {
        out.push('\u{fffd}');
    } else {
        out.push('^');
        out.push(((code + 0x40) as u8) as char);
    }
    assert(final(out)@ =~= old(out)@ + caret(c));
}

/// Escape terminal control characters so untrusted text can never inject
/// ANSI/OSC sequences into the terminal.
///
/// C0 controls (U+0000..U+001F) are shown in caret notation, DEL as `^?`, and
/// C1 controls (U+0080..U+009F) as U+FFFD — matching `cat -v`. Clean input is
/// returned borrowed (no allocation).
pub fn sanitize_for_terminal(text: &str) -> (r: Cow<'_, str>)
    ensures
        r@ == sanitized(text@),
        is_clean(text@) <==> r matches Cow::Borrowed(_),
        r matches Cow::Borrowed(b) ==> b == text,
{
    let chars = chars_of(text);
    let n = chars.len();
    let mut i: usize = 0;
    let mut found = false;
    while i < n
        invariant_except_break
            !found,
        invariant
            n == chars@.len(),
            chars@ == text@,
            i <= n,
            forall|k: int| 0 <= k < i ==> !is_control(#[trigger] chars@[k]),
        ensures
            found <==> !is_clean(text@),
        decreases n - i,
    {
        if is_terminal_control(chars[i]) {
            found = true;
            break;
        }
        i = i + 1;
    }
    if !found {
        proof { lemma_sanitized_clean_identity(text@); }
        return Cow::Borrowed(text);
    }
    let mut out: Vec<char> = Vec::new();
    let mut j: usize = 0;
    while j < n
        invariant
            n == chars@.len(),
            chars@ == text@,
            j <= n,
            out@ == sanitized(chars@.take(j as int)),
        decreases n - j,
    {
        let c = chars[j];
        assert(chars@.take(j + 1).drop_last() =~= chars@.take(j as int));
        if is_terminal_control(c) {
            write_caret(&mut out, c);
        } else {
            out.push(c);
        }
        j = j + 1;
    }
    assert(chars@.take(n as int) =~= chars@);
    Cow::Owned(string_of(out.as_slice()))
}

/// Write text starting at the given row and column: `CSI row;col H` followed
/// by the text run through [`sanitize_for_terminal`], so control characters
/// in untrusted input (file names, paths, messages) can never inject
/// ANSI/OSC sequences.
pub fn put_text(out: &mut Vec<u8>, row: u16, col: u16, text: &str)
    ensures
        final(out)@ == old(out)@ + encode_utf8(cup(row as nat, col as nat) + sanitized(text@)),
{
    let ghost start = out@;
    goto(out, row, col);
    let clean = sanitize_for_terminal(text);
    match &clean {
        Cow::Borrowed(b) => push_str(out, b),
        Cow::Owned(o) => push_str(out, o.as_str()),
    }
    proof { lemma_append_encoded(start, cup(row as nat, col as nat), sanitized(text@)); }
}

// ---------------------------------------------------------------------------
// Box drawing
// ---------------------------------------------------------------------------

/// `s` repeated `n` times.
pub open spec fn repeat(s: Seq<char>, n: nat) -> Seq<char>
    decreases n,
{
    if n == 0 {
        Seq::empty()
    } else {
        repeat(s, (n - 1) as nat) + s
    }
}

/// A vertical run of `height` `│` cells going down from (row, col).
pub open spec fn vline_seq(row: nat, col: nat, height: nat) -> Seq<char>
    decreases height,
{
    if height == 0 {
        Seq::empty()
    } else {
        vline_seq(row, col, (height - 1) as nat) + cup((row + height - 1) as nat, col) + "│"@
    }
}

/// The two side walls of a box on the rows `row..row + n`.
pub open spec fn walls_seq(row: nat, left: nat, right: nat, n: nat) -> Seq<char>
    decreases n,
{
    if n == 0 {
        Seq::empty()
    } else {
        walls_seq(row, left, right, (n - 1) as nat) + cup((row + n - 1) as nat, left) + "│"@ + cup((row + n - 1) as nat, right) + "│"@
    }
}

/// The bytes of a `width` x `height` box at (row, col); nothing below 2x2.
pub open spec fn box_seq(row: nat, col: nat, width: nat, height: nat) -> Seq<char> {
    if width < 2 || height < 2 {
        Seq::empty()
    } else {
        let filler = repeat("─"@, (width - 2) as nat);
        cup(row, col) + "┌"@ + filler + "┐"@
            + walls_seq(row + 1, col, (col + width - 1) as nat, (height - 2) as nat)
            + cup((row + height - 1) as nat, col) + "└"@ + filler + "┘"@
    }
}

fn push_repeat(out: &mut Vec<u8>, s: &str, n: u16)
    ensures
        final(out)@ == old(out)@ + encode_utf8(repeat(s@, n as nat)),
{
    let ghost start = out@;
    let mut i: u16 = 0;
    while i < n
        invariant
            i <= n,
            out@ == start + encode_utf8(repeat(s@, i as nat)),
        decreases n - i,
    {
        push_str(out, s);
        proof { lemma_append_encoded(start, repeat(s@, i as nat), s@); }
        i = i + 1;
    }
}

/// Draw a horizontal box-drawing line of `width` characters: CUP, then `─`
/// (U+2500) `width` times.
pub fn hline(out: &mut Vec<u8>, row: u16, col: u16, width: u16)
    ensures
        final(out)@ == old(out)@ + encode_utf8(cup(row as nat, col as nat) + repeat("─"@, width as nat)),
{
    let ghost start = out@;
    goto(out, row, col);
    push_repeat(out, "─", width);
    proof { lemma_append_encoded(start, cup(row as nat, col as nat), repeat("─"@, width as nat)); }
}

/// Draw a vertical box-drawing line of `height` characters: CUP per cell,
/// then `│` (U+2502).
pub fn vline(out: &mut Vec<u8>, row: u16, col: u16, height: u16)
    requires
        row + height <= u16::MAX,
    ensures
        final(out)@ == old(out)@ + encode_utf8(vline_seq(row as nat, col as nat, height as nat)),
{
    let ghost start = out@;
    let end: u16 = row + height;
    let mut r: u16 = row;
    while r < end
        invariant
            row <= r <= end,
            end == row + height,
            out@ == start + encode_utf8(vline_seq(row as nat, col as nat, (r - row) as nat)),
        decreases end - r,
    {
        let ghost acc = vline_seq(row as nat, col as nat, (r - row) as nat);
        goto(out, r, col);
        proof { lemma_append_encoded(start, acc, cup(r as nat, col as nat)); }
        push_str(out, "│");
        proof { lemma_append_encoded(start, acc + cup(r as nat, col as nat), "│"@); }
        r = r + 1;
    }
}

/// Draw a rectangle border starting at (row, col) with the given size.
/// Corners use `┌┐└┘`; a size smaller than 2x2 draws nothing.
pub fn draw_box(out: &mut Vec<u8>, row: u16, col: u16, width: u16, height: u16)
    requires
        width >= 2 && height >= 2 ==> row + height <= u16::MAX,
        width >= 2 && height > 2 ==> col + width <= u16::MAX,
    ensures
        final(out)@ == old(out)@ + encode_utf8(box_seq(row as nat, col as nat, width as nat, height as nat)),
{
    if width < 2 || height < 2 {
        assert(encode_utf8(Seq::<char>::empty()) =~= Seq::<u8>::empty());
        assert(old(out)@ + Seq::<u8>::empty() =~= old(out)@);
        return;
    }
    let ghost start = out@;
    let ghost filler = repeat("─"@, (width - 2) as nat);
    goto(out, row, col);
    let ghost acc = cup(row as nat, col as nat);
    push_str(out, "┌");
    proof { lemma_append_encoded(start, acc, "┌"@); acc = acc + "┌"@; }
    push_repeat(out, "─", width - 2);
    proof { lemma_append_encoded(start, acc, filler); acc = acc + filler; }
    push_str(out, "┐");
    proof { lemma_append_encoded(start, acc, "┐"@); acc = acc + "┐"@; }
    let ghost top = acc;
    let ghost right: nat = (col + width - 1) as nat;
    let last: u16 = row + height - 1;
    let mut r: u16 = row + 1;
    while r < last
        invariant
            row + 1 <= r <= last,
            last == row + height - 1,
            width >= 2,
            height > 2 ==> col + width <= u16::MAX,
            right == col + width - 1,
            out@ == start + encode_utf8(top + walls_seq((row + 1) as nat, col as nat, right, (r - row - 1) as nat)),
        decreases last - r,
    {
        let right_col: u16 = col + width - 1;
        let ghost w = top + walls_seq((row + 1) as nat, col as nat, right, (r - row - 1) as nat);
        goto(out, r, col);
        proof { lemma_append_encoded(start, w, cup(r as nat, col as nat)); }
        push_str(out, "│");
        proof { lemma_append_encoded(start, w + cup(r as nat, col as nat), "│"@); }
        goto(out, r, right_col);
        proof { lemma_append_encoded(start, w + cup(r as nat, col as nat) + "│"@, cup(r as nat, right)); }
        push_str(out, "│");
        proof {
            lemma_append_encoded(start, w + cup(r as nat, col as nat) + "│"@ + cup(r as nat, right), "│"@);
            assert(top + walls_seq((row + 1) as nat, col as nat, right, (r + 1 - row - 1) as nat)
                =~= w + cup(r as nat, col as nat) + "│"@ + cup(r as nat, right) + "│"@);
        }
        r = r + 1;
    }
    proof { acc = top + walls_seq((row + 1) as nat, col as nat, right, (height - 2) as nat); }
    goto(out, last, col);
    proof { lemma_append_encoded(start, acc, cup(last as nat, col as nat)); acc = acc + cup(last as nat, col as nat); }
    push_str(out, "└");
    proof { lemma_append_encoded(start, acc, "└"@); acc = acc + "└"@; }
    push_repeat(out, "─", width - 2);
    proof { lemma_append_encoded(start, acc, filler); acc = acc + filler; }
    push_str(out, "┘");
    proof {
        lemma_append_encoded(start, acc, "┘"@);
        assert(acc + "┘"@ =~= box_seq(row as nat, col as nat, width as nat, height as nat));
    }
}

} // verus!
