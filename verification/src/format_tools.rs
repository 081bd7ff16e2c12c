//! Formatting helpers: display width of text in terminal columns, clipping
//! text to a column budget, and human-readable byte counts.

use vstd::prelude::*;
use vstd::arithmetic::power2::*;
use vstd::bits::*;
use vstd::std_specs::bits::*;
use crate::text::{decimal, digit, chars_of, string_of, push_decimal_chars};

verus! {

// ---------------------------------------------------------------------------
// Display width
// ---------------------------------------------------------------------------

/// `c` is a control character (Unicode general category Cc: the C0 range
/// U+0000..U+001F, DEL and the C1 range U+0080..U+009F).
pub open spec fn is_control(c: char) -> bool {
    let code = c as u32;
    code <= 0x1f || (0x7f <= code && code <= 0x9f)
}

/// `c` is one of the combining marks that occupy no column.
pub open spec fn is_combining_mark(code: u32) -> bool {
    (0x0300 <= code && code <= 0x036F) || (0x0483 <= code && code <= 0x0489)
        || (0x0591 <= code && code <= 0x05BD) || code == 0x05BF
        || (0x05C1 <= code && code <= 0x05C2) || (0x05C4 <= code && code <= 0x05C5)
        || (0x0610 <= code && code <= 0x061A) || (0x064B <= code && code <= 0x065F)
        || (0x06D6 <= code && code <= 0x06DC) || (0x06DF <= code && code <= 0x06E4)
        || (0x1AB0 <= code && code <= 0x1AFF) || (0x1DC0 <= code && code <= 0x1DFF)
        || (0x20D0 <= code && code <= 0x20FF) || (0xFE20 <= code && code <= 0xFE2F)
}

/// `c` is an East-Asian wide/fullwidth glyph or an emoji, drawn over two columns.
pub open spec fn is_wide(code: u32) -> bool {
    (0x1100 <= code && code <= 0x115F) || (0x2E80 <= code && code <= 0xA4CF)
        || (0xAC00 <= code && code <= 0xD7A3) || (0xF900 <= code && code <= 0xFAFF)
        || (0xFE10 <= code && code <= 0xFE19) || (0xFE30 <= code && code <= 0xFE4F)
        || (0xFF00 <= code && code <= 0xFF60) || (0xFFE0 <= code && code <= 0xFFE6)
        || (0x1F300 <= code && code <= 0x1FAFF) || (0x20000 <= code && code <= 0x2FFFD)
}

/// Columns taken by `c` on a monospace terminal: 0 for control characters
/// and combining marks, 2 for wide glyphs, 1 otherwise.
pub open spec fn columns(c: char) -> nat {
    if is_control(c) || is_combining_mark(c as u32) {
        0
    } else if is_wide(c as u32) {
        2
    } else {
        1
    }
}

/// Columns taken by the text `s`.
pub open spec fn text_width(s: Seq<char>) -> nat
    decreases s.len(),
{
    if s.len() == 0 {
        0
    } else {
        text_width(s.drop_last()) + columns(s.last())
    }
}

/// Display width of `c` in monospace terminal columns: 0 for control
/// characters and combining marks, 1 for narrow glyphs, 2 for East-Asian
/// wide/fullwidth and emoji.
fn char_width(c: char) -> (w: usize)
    ensures
        w == columns(c),
{
    let code = c as u32;
    if code <= 0x1f || (0x7f <= code && code <= 0x9f) {
        return 0;
    }
    if (0x0300 <= code && code <= 0x036F) || (0x0483 <= code && code <= 0x0489)
        || (0x0591 <= code && code <= 0x05BD) || code == 0x05BF
        || (0x05C1 <= code && code <= 0x05C2) || (0x05C4 <= code && code <= 0x05C5)
        || (0x0610 <= code && code <= 0x061A) || (0x064B <= code && code <= 0x065F)
        || (0x06D6 <= code && code <= 0x06DC) || (0x06DF <= code && code <= 0x06E4)
        || (0x1AB0 <= code && code <= 0x1AFF) || (0x1DC0 <= code && code <= 0x1DFF)
        || (0x20D0 <= code && code <= 0x20FF) || (0xFE20 <= code && code <= 0xFE2F)
    {
        return 0;
    }
    if (0x1100 <= code && code <= 0x115F) || (0x2E80 <= code && code <= 0xA4CF)
        || (0xAC00 <= code && code <= 0xD7A3) || (0xF900 <= code && code <= 0xFAFF)
        || (0xFE10 <= code && code <= 0xFE19) || (0xFE30 <= code && code <= 0xFE4F)
        || (0xFF00 <= code && code <= 0xFF60) || (0xFFE0 <= code && code <= 0xFFE6)
        || (0x1F300 <= code && code <= 0x1FAFF) || (0x20000 <= code && code <= 0x2FFFD)
    {
        return 2;
    }
    1
}

/// The columns taken by the main kinds of characters: Hangul syllables and
/// leading jamo, CJK ideographs, kana and fullwidth forms, and emoji take
/// two; printable ASCII takes one; control characters and combining
/// diacritical marks take none.
pub proof fn lemma_glyph_columns(c: char)
    ensures
        0xAC00 <= (c as u32) <= 0xD7A3 ==> columns(c) == 2,
        0x1100 <= (c as u32) <= 0x115F ==> columns(c) == 2,
        0x4E00 <= (c as u32) <= 0x9FFF ==> columns(c) == 2,
        0x3040 <= (c as u32) <= 0x30FF ==> columns(c) == 2,
        0xFF01 <= (c as u32) <= 0xFF60 ==> columns(c) == 2,
        0x1F300 <= (c as u32) <= 0x1F64F ==> columns(c) == 2,
        0x20 <= (c as u32) <= 0x7E ==> columns(c) == 1,
        (c as u32) <= 0x1F || 0x7F <= (c as u32) <= 0x9F ==> columns(c) == 0,
        0x0300 <= (c as u32) <= 0x036F ==> columns(c) == 0,
{
}

/// A text of `n` Hangul syllables is `2 * n` columns wide.
pub proof fn lemma_hangul_text_width(s: Seq<char>)
    requires
        forall|i: int| 0 <= i < s.len() ==> 0xAC00 <= (#[trigger] s[i] as u32) <= 0xD7A3,
    ensures
        text_width(s) == 2 * s.len(),
    decreases s.len(),
{
    if s.len() > 0 {
        lemma_glyph_columns(s.last());
        assert forall|i: int| 0 <= i < s.drop_last().len() implies 0xAC00 <= (#[trigger] s.drop_last()[i] as u32) <= 0xD7A3 by {
            assert(s.drop_last()[i] == s[i]);
        }
        lemma_hangul_text_width(s.drop_last());
    }
}

/// The width of a concatenation is the sum of the widths.
pub proof fn lemma_width_concat(a: Seq<char>, b: Seq<char>)
    ensures
        text_width(a + b) == text_width(a) + text_width(b),
    decreases b.len(),
{
    if b.len() == 0 {
        assert(a + b =~= a);
    } else {
        assert((a + b).drop_last() =~= a + b.drop_last());
        assert((a + b).last() == b.last());
        lemma_width_concat(a, b.drop_last());
    }
}

/// A prefix is never wider than the whole text.
pub proof fn lemma_width_prefix(s: Seq<char>, i: int)
    requires
        0 <= i <= s.len(),
    ensures
        text_width(s.take(i)) <= text_width(s),
{
    assert(s =~= s.take(i) + s.skip(i));
    lemma_width_concat(s.take(i), s.skip(i));
}

// ---------------------------------------------------------------------------
// Clipping
// ---------------------------------------------------------------------------

/// Number of trailing characters of `s` kept within `budget` columns: taken
/// from the end one by one while the next one still fits.
pub open spec fn tail_len(s: Seq<char>, budget: nat) -> nat
    decreases s.len(),
{
    if s.len() == 0 || columns(s.last()) > budget {
        0
    } else {
        1 + tail_len(s.drop_last(), (budget - columns(s.last())) as nat)
    }
}

/// The last `k` characters of `s`.
pub open spec fn suffix(s: Seq<char>, k: nat) -> Seq<char> {
    s.subrange(s.len() - k, s.len() as int)
}

/// `text` clipped to `max` columns: empty for `max = 0`, unchanged when it
/// fits, otherwise its longest fitting tail, preceded by `...` when
/// `max >= 3` (the ellipsis takes three of the columns).
pub open spec fn clipped(text: Seq<char>, max: nat) -> Seq<char> {
    if max == 0 {
        Seq::empty()
    } else if text_width(text) <= max {
        text
    } else if max < 3 {
        suffix(text, tail_len(text, max))
    } else {
        "..."@ + suffix(text, tail_len(text, (max - 3) as nat))
    }
}

proof fn lemma_tail_len_bound(s: Seq<char>, budget: nat)
    ensures
        tail_len(s, budget) <= s.len(),
        text_width(suffix(s, tail_len(s, budget))) <= budget,
    decreases s.len(),
{
    if s.len() == 0 || columns(s.last()) > budget {
        assert(suffix(s, 0) =~= Seq::<char>::empty());
    } else {
        let rest = s.drop_last();
        let b2 = (budget - columns(s.last())) as nat;
        lemma_tail_len_bound(rest, b2);
        let k = tail_len(rest, b2);
        assert(suffix(s, k + 1) =~= suffix(rest, k).push(s.last()));
        assert(suffix(s, k + 1).drop_last() =~= suffix(rest, k));
    }
}

/// A clipped text never takes more than `max` columns.
pub proof fn lemma_clipped_fits(text: Seq<char>, max: nat)
    ensures
        text_width(clipped(text, max)) <= max,
{
    if max == 0 {
    } else if text_width(text) <= max {
    } else if max < 3 {
        lemma_tail_len_bound(text, max);
    } else {
        let b = (max - 3) as nat;
        lemma_tail_len_bound(text, b);
        reveal_strlit("...");
        assert(text_width("..."@) == 3) by {
            let d = "..."@;
            assert(d.len() == 3 && d[0] == '.' && d[1] == '.' && d[2] == '.');
            assert(d.drop_last().drop_last().drop_last() =~= Seq::<char>::empty());
            assert(d.drop_last().drop_last().drop_last() =~= Seq::<char>::empty());
            assert(d.drop_last().drop_last().last() == '.');
            assert(columns('.') == 1);
            let one = d.drop_last().drop_last();
            assert(one.drop_last().len() == 0);
            assert(text_width(one.drop_last()) == 0);
            assert(text_width(one) == 1);
            assert(text_width(d.drop_last()) == 2);
        }
        lemma_width_concat("..."@, suffix(text, tail_len(text, b)));
    }
}

/// Clip `text` to at most `max` terminal columns for display.
///
/// `max = 0` yields the empty string. Longer text keeps its tail — the head
/// is dropped, and for `max >= 3` it is replaced with `...` so the end stays
/// readable. Text is truncated by display width, not character count: CJK/wide
/// glyphs and emoji count as two columns, combining marks as none.
pub fn clip(text: &str, max: usize) -> (r: String)
    ensures
        r@ == clipped(text@, max as nat),
{
    if max == 0 {
        return String::new();
    }
    let chars = chars_of(text);
    let n = chars.len();
    // Does the whole text fit?
    let mut total: usize = 0;
    let mut i: usize = 0;
    let mut fits = true;
    while i < n
        invariant_except_break
            fits,
        invariant
            n == chars@.len(),
            chars@ == text@,
            i <= n,
            total == text_width(chars@.take(i as int)),
            total <= max,
            i == n ==> total == text_width(text@),
        ensures
            fits ==> total == text_width(text@),
            !fits ==> text_width(text@) > max,
        decreases n - i,
    {
        let w = char_width(chars[i]);
        assert(chars@.take(i + 1).drop_last() =~= chars@.take(i as int));
        if w > max - total {
            proof {
                lemma_width_prefix(chars@, i + 1);
            }
            fits = false;
            assert(text_width(text@) > max);
            break;
        }
        total = total + w;
        i = i + 1;
        if i == n {
            assert(chars@.take(n as int) =~= chars@);
        }
    }
    if fits {
        return text.to_owned();
    }
    assert(text_width(text@) > max);
    let budget: usize = if max < 3 { max } else { max - 3 };
    // Greedily keep trailing characters while they fit in the budget.
    let mut k: usize = 0;
    let mut used: usize = 0;
    assert(chars@.take(n as int) =~= chars@);
    while k < n
        invariant
            n == chars@.len(),
            k <= n,
            used <= budget,
            tail_len(chars@, budget as nat) == k + tail_len(chars@.take(n - k), (budget - used) as nat),
        ensures
            k <= n,
            tail_len(chars@, budget as nat) == k,
        decreases n - k,
    {
        let w = char_width(chars[n - 1 - k]);
        let ghost pre = chars@.take(n - k);
        assert(pre.last() == chars@[n - 1 - k]);
        if w > budget - used {
            assert(tail_len(pre, (budget - used) as nat) == 0);
            break;
        }
        assert(pre.drop_last() =~= chars@.take(n - (k + 1)));
        used = used + w;
        k = k + 1;
        if k == n {
            assert(chars@.take(n - k) =~= Seq::<char>::empty());
        }
    }
    let mut out: Vec<char> = Vec::new();
    if max >= 3 {
        out.push('.');
        out.push('.');
        out.push('.');
    }
    let ghost head = out@;
    let mut j: usize = n - k;
    while j < n
        invariant
            n == chars@.len(),
            k <= n,
            n - k <= j <= n,
            out@ == head + chars@.subrange(n - k, j as int),
        decreases n - j,
    {
        out.push(chars[j]);
        j = j + 1;
        assert(chars@.subrange(n - k, j as int) =~= chars@.subrange(n - k, j - 1).push(chars@[j - 1]));
    }
    proof {
        reveal_strlit("...");
        assert(out@ =~= clipped(text@, max as nat));
    }
    string_of(out.as_slice())
}

// ---------------------------------------------------------------------------
// Byte counts
// ---------------------------------------------------------------------------

/// The unit letter for the power `k` of 1024 (B, K, M, G, T, P, E).
pub open spec fn unit_letter(k: nat) -> char {
    if k == 0 {
        'B'
    } else if k == 1 {
        'K'
    } else if k == 2 {
        'M'
    } else if k == 3 {
        'G'
    } else if k == 4 {
        'T'
    } else if k == 5 {
        'P'
    } else {
        'E'
    }
}

/// The power of 1024 used to show `b` bytes: the largest `k <= 6` with
/// `1024^k <= b` (0 below one kibibyte).
pub open spec fn size_unit(b: nat) -> nat {
    if b < pow2(10) {
        0
    } else if b < pow2(20) {
        1
    } else if b < pow2(30) {
        2
    } else if b < pow2(40) {
        3
    } else if b < pow2(50) {
        4
    } else if b < pow2(60) {
        5
    } else {
        6
    }
}

/// The text shown for `b` bytes: plain bytes below 1 KiB (`"1023B"`),
/// otherwise the value in its unit rounded half-up to one decimal
/// (`"1.5K"`, `"16.0E"`).
pub open spec fn size_text(b: nat) -> Seq<char> {
    let k = size_unit(b);
    if k == 0 {
        decimal(b).push('B')
    } else {
        let scale = pow2(10 * k);
        let frac = ((b % scale) * 10 + scale / 2) / scale;
        decimal(b / scale + frac / 10) + seq!['.', digit(frac % 10), unit_letter(k)]
    }
}

fn unit_char(k: u32) -> (c: char)
    requires
        k <= 6,
    ensures
        c == unit_letter(k as nat),
{
    match k {
        0 => 'B',
        1 => 'K',
        2 => 'M',
        3 => 'G',
        4 => 'T',
        5 => 'P',
        _ => 'E',
    }
}

proof fn lemma_top_bit(b: u64, s: u64)
    by (bit_vector)
    requires
        s < 64,
        (b >> s) & 1u64 != 0u64,
    ensures
        b >> s >= 1u64,
{
}

/// For nonzero `b`, the index of its highest set bit selects the unit.
proof fn lemma_unit_index(b: u64, lz: int)
    requires
        lz == u64_leading_zeros(b),
        b != 0,
    ensures
        0 <= lz < 64,
        (63 - lz) / 10 == size_unit(b as nat),
{
    axiom_u64_leading_zeros(b);
    let s = (63 - lz) as u64;
    lemma2_to64();
    lemma2_to64_rest();
    // Lower bound: bit `s` is set.
    lemma_top_bit(b, s);
    lemma_u64_shr_is_div(b, s);
    lemma_pow2_pos(s as nat);
    assert(b as nat / pow2(s as nat) >= 1);
    assert(b >= pow2(s as nat)) by {
        vstd::arithmetic::div_mod::lemma_div_is_ordered_by_denominator(b as int, 1, pow2(s as nat) as int);
        if b < pow2(s as nat) {
            vstd::arithmetic::div_mod::lemma_basic_div(b as int, pow2(s as nat) as int);
        }
    }
    // Upper bound: nothing above bit `s`.
    if s < 63 {
        let t = (s + 1) as u64;
        assert(b >> t == 0);
        lemma_u64_shr_is_div(b, t);
        assert(b < pow2(t as nat)) by {
            if b >= pow2(t as nat) {
                vstd::arithmetic::div_mod::lemma_div_is_ordered(pow2(t as nat) as int, b as int, pow2(t as nat) as int);
                vstd::arithmetic::div_mod::lemma_div_by_self(pow2(t as nat) as int);
            }
        }
    }
    let k = (s / 10) as nat;
    if 10 * k < s {
        lemma_pow2_strictly_increases(10 * k, s as nat);
    }
    if s + 1 < 10 * k + 10 && s < 63 {
        lemma_pow2_strictly_increases((s + 1) as nat, 10 * k + 10);
    }
    assert(pow2(10 * k) <= b);
    assert(k < 6 ==> b < pow2(10 * k + 10));
}

/// Format a byte count into a readable unit (B..E, base 1024).
/// The largest `u64` (≈ 16 EiB) only reaches exabytes; ZB/YB need wider types.
///
/// The unit is chosen by counting the most significant set bit
/// (`leading_zeros`): dividing that bit position by 10 yields the power of
/// 1024.
pub fn format_size(bytes: u64) -> (r: String)
    ensures
        r@ == size_text(bytes as nat),
{
    let lz = bytes.leading_zeros();
    proof {
        axiom_u64_leading_zeros(bytes);
    }
    let bits: u32 = u64::BITS - lz;
    let scale_index: u32 = bits.saturating_sub(1) / 10;
    proof {
        if bytes == 0 {
            lemma2_to64();
            assert(scale_index == 0);
        } else {
            lemma_unit_index(bytes, lz as int);
        }
        assert(scale_index == size_unit(bytes as nat));
    }
    let mut out: Vec<char> = Vec::new();
    if scale_index == 0 {
        push_decimal_chars(&mut out, bytes);
        out.push('B');
        return string_of(out.as_slice());
    }
    let shift: u32 = scale_index * 10;
    proof {
        lemma2_to64();
        lemma2_to64_rest();
        lemma_u64_pow2_no_overflow(shift as nat);
        lemma_u64_shl_is_mul(1u64, shift as u64);
    }
    let scale: u64 = 1u64 << shift;
    assert(scale == pow2(shift as nat));
    let mask: u64 = scale - 1;
    let low: u64 = bytes & mask;
    proof {
        assert(low_bits_mask(shift as nat) == mask);
        lemma_u64_low_bits_mask_is_mod(bytes, shift as nat);
        assert(low == bytes % scale);
        assert(scale <= 1152921504606846976u64);
    }
    let numer: u64 = low * 10 + scale / 2;
    let frac: u64 = numer >> shift;
    proof {
        lemma_u64_shr_is_div(numer, shift as u64);
        assert(frac == numer / scale);
        vstd::arithmetic::div_mod::lemma_div_is_ordered(numer as int, 11 * scale as int - 1, scale as int);
        assert(frac <= 10) by {
            vstd::arithmetic::div_mod::lemma_fundamental_div_mod(numer as int, scale as int);
            assert(numer < 11 * scale);
            if frac >= 11 {
                assert(scale * frac >= scale * 11) by (nonlinear_arith)
                    requires frac >= 11, scale > 0;
            }
        }
    }
    proof {
        assert(scale >= 1024);
        vstd::arithmetic::div_mod::lemma_div_is_ordered_by_denominator(bytes as int, 2, scale as int);
        assert(bytes / scale <= bytes / 2);
    }
    push_decimal_chars(&mut out, bytes / scale + frac / 10);
    let ghost after_dec = out@;
    assert(after_dec =~= decimal((bytes / scale + frac / 10) as nat));
    out.push('.');
    out.push((48u8 + (frac % 10) as u8) as char);
    out.push(unit_char(scale_index));
    proof {
        let k = size_unit(bytes as nat);
        assert(k == scale_index);
        assert(10 * k == shift);
        assert(pow2(10 * k) == scale);
        assert((bytes % scale) * 10 + scale / 2 == numer);
        assert(digit((frac % 10) as nat) == out@[out@.len() - 2]);
        assert(unit_letter(k) == out@[out@.len() - 1]);
        let sfrac = ((bytes as nat % pow2(10 * k)) * 10 + pow2(10 * k) / 2) / pow2(10 * k);
        assert(sfrac == frac);
        let lead = decimal(bytes as nat / pow2(10 * k) + sfrac / 10);
        assert(lead == decimal((bytes / scale + frac / 10) as nat));
        assert(size_text(bytes as nat) == lead + seq!['.', digit(sfrac % 10), unit_letter(k)]);
        assert(out@ =~= lead + seq!['.', digit(sfrac % 10), unit_letter(k)]);
        assert(out@ =~= size_text(bytes as nat));
    }
    string_of(out.as_slice())
}

} // verus!
