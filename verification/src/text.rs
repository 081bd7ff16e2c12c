//! Character and byte helpers shared by the formatting and terminal modules:
//! decimal rendering, UTF-8 output into byte buffers, substring search and
//! Unicode lower-casing.

use vstd::prelude::*;
use vstd::utf8::*;

verus! {

/// The ASCII digit for `d` (`d < 10`).
pub open spec fn digit(d: nat) -> char {
    (48 + d) as char
}

/// The decimal rendering of `n`, most significant digit first, without
/// leading zeros (`0` renders as `"0"`).
pub open spec fn decimal(n: nat) -> Seq<char>
    decreases n,
{
    if n < 10 {
        seq![digit(n)]
    } else {
        decimal(n / 10).push(digit(n % 10))
    }
}

/// The UTF-8 encoding distributes over concatenation.
pub proof fn lemma_encode_concat(a: Seq<char>, b: Seq<char>)
    ensures
        encode_utf8(a + b) == encode_utf8(a) + encode_utf8(b),
    decreases a.len(),
{
    if a.len() == 0 {
        assert(a + b =~= b);
        assert(encode_utf8(a) =~= Seq::<u8>::empty());
        assert(encode_utf8(a) + encode_utf8(b) =~= encode_utf8(b));
    } else {
        assert((a + b).drop_first() =~= a.drop_first() + b);
        assert((a + b)[0] == a[0]);
        lemma_encode_concat(a.drop_first(), b);
        assert(encode_utf8(a + b) =~= encode_utf8(a) + encode_utf8(b));
    }
}

/// An ASCII character encodes to the single byte of its code.
pub proof fn lemma_encode_ascii_char(c: char)
    requires
        (c as u32) < 128,
    ensures
        encode_utf8(seq![c]) == seq![c as u8],
{
    assert(is_ascii_chars(seq![c]));
    is_ascii_chars_encode_utf8(seq![c]);
    assert(encode_utf8(seq![c]) =~= seq![c as u8]);
}

/// Appends the UTF-8 bytes of `s` to `out`.
pub fn push_str(out: &mut Vec<u8>, s: &str)
    ensures
        final(out)@ == old(out)@ + encode_utf8(s@),
{
    let bytes = s.as_bytes();
    let ghost start = out@;
    let mut i: usize = 0;
    while i < bytes.len()
        invariant
            i <= bytes@.len(),
            bytes@ == encode_utf8(s@),
            out@ == start + bytes@.take(i as int),
        decreases bytes@.len() - i,
    {
        out.push(bytes[i]);
        i = i + 1;
        assert(bytes@.take(i as int) =~= bytes@.take(i - 1).push(bytes@[i - 1]));
    }
    assert(bytes@.take(i as int) =~= bytes@);
}

/// Appends the decimal rendering of `n` (ASCII digits) to `out`.
pub fn push_decimal(out: &mut Vec<u8>, n: u64)
    ensures
        final(out)@ == old(out)@ + encode_utf8(decimal(n as nat)),
    decreases n,
{
    let ghost start = out@;
    if n >= 10 {
        push_decimal(out, n / 10);
    }
    let d: u8 = (n % 10) as u8;
    out.push(48u8 + d);
    proof {
        let c = digit((n % 10) as nat);
        lemma_encode_ascii_char(c);
        assert(c as u8 == 48u8 + d);
        if n >= 10 {
            assert(decimal(n as nat) == decimal((n / 10) as nat).push(c));
            assert(decimal((n / 10) as nat).push(c) =~= decimal((n / 10) as nat) + seq![c]);
            lemma_encode_concat(decimal((n / 10) as nat), seq![c]);
            assert(out@ =~= start + encode_utf8(decimal(n as nat)));
        } else {
            assert(decimal(n as nat) == seq![c]);
            assert(out@ =~= start + encode_utf8(decimal(n as nat)));
        }
    }
}

/// Appends the decimal digits of `n` to the character buffer `out`.
pub fn push_decimal_chars(out: &mut Vec<char>, n: u64)
    ensures
        final(out)@ == old(out)@ + decimal(n as nat),
    decreases n,
{
    let ghost start = out@;
    if n >= 10 {
        push_decimal_chars(out, n / 10);
    }
    let d: u8 = (n % 10) as u8;
    out.push((48u8 + d) as char);
    assert(out@ =~= start + decimal(n as nat));
}

/// Appends the characters of `s` to `out`.
pub fn append_str(out: &mut Vec<char>, s: &str)
    ensures
        final(out)@ == old(out)@ + s@,
{
    let chars = chars_of(s);
    let ghost start = out@;
    let mut i: usize = 0;
    while i < chars.len()
        invariant
            i <= chars@.len(),
            chars@ == s@,
            out@ == start + chars@.take(i as int),
        decreases chars@.len() - i,
    {
        out.push(chars[i]);
        i = i + 1;
        assert(chars@.take(i as int) =~= chars@.take(i - 1).push(chars@[i - 1]));
    }
    assert(chars@.take(chars@.len() as int) =~= chars@);
}

/// `String::push`: appends the character `c` to `s`.
#[verifier::external_body]
pub(crate) fn push_char_to(s: &mut String, c: char)
    ensures
        final(s)@ == old(s)@.push(c),
{
    s.push(c);
}

/// `String::pop`: removes the last character of `s`, if any.
#[verifier::external_body]
pub(crate) fn pop_char_from(s: &mut String)
    ensures
        final(s)@ == if old(s)@.len() > 0 { old(s)@.drop_last() } else { old(s)@ },
{
    s.pop();
}

/// The characters of `s` in order.
pub(crate) fn chars_of(s: &str) -> (r: Vec<char>)
    ensures
        r@ == s@,
{
    broadcast use vstd::string::axiom_spec_iter;
    let mut out: Vec<char> = Vec::new();
    for c in it: s.chars()
        invariant
            out@ == it.seq().take(it.index() as int),
    {
        out.push(c);
    }
    out
}

/// A `String` holding exactly the characters `chars`.
#[verifier::external_body]
pub(crate) fn string_of(chars: &[char]) -> (r: String)
    ensures
        r@ == chars@,
{
    chars.iter().collect()
}

/// The Unicode lower-case mapping of `s`, as performed by `str::to_lowercase`.
pub uninterp spec fn lowercase(s: Seq<char>) -> Seq<char>;

/// `c` is an ASCII character.
pub open spec fn is_ascii_char(c: char) -> bool {
    (c as u32) < 128
}

/// Every character of `s` is ASCII.
pub open spec fn is_ascii_text(s: Seq<char>) -> bool {
    forall|i: int| 0 <= i < s.len() ==> is_ascii_char(#[trigger] s[i])
}

/// The ASCII lower-case form of `c`: `A`..`Z` become `a`..`z`, every other
/// character is kept.
pub open spec fn ascii_lower(c: char) -> char {
    if 65 <= (c as u32) && (c as u32) <= 90 {
        ((c as u32) + 32) as char
    } else {
        c
    }
}

/// `s` with every character in its ASCII lower-case form.
pub open spec fn ascii_lowered(s: Seq<char>) -> Seq<char> {
    s.map_values(|c: char| ascii_lower(c))
}

/// `str::to_lowercase`: the full Unicode lower-case mapping of `s`, left to
/// std and named `lowercase`, so equal inputs give equal outputs. On ASCII
/// text the Unicode mapping is the ASCII one: each of `A`..`Z` becomes its
/// small letter, one character for one, and the rest is kept.
#[verifier::external_body]
fn to_lowercase(s: &str) -> (r: String)
    ensures
        r@ == lowercase(s@),
        is_ascii_text(s@) ==> r@ == ascii_lowered(s@),
{
    s.to_lowercase()
}

/// The ASCII lower-case form of `c`.
fn lower_ascii_char(c: char) -> (r: char)
    ensures
        r == ascii_lower(c),
{
    let code = c as u32;
    if 65 <= code && code <= 90 {
        ((code + 32) as u8) as char
    } else {
        c
    }
}

/// The characters of the lower-case form of `s`; for ASCII text, each
/// character in its ASCII lower-case form.
pub(crate) fn lowercase_chars(s: &str) -> (r: Vec<char>)
    ensures
        r@ == lowercase(s@),
        is_ascii_text(s@) ==> r@ == ascii_lowered(s@),
        is_ascii_text(s@) ==> lowercase(s@) == ascii_lowered(s@),
{
    let lower = to_lowercase(s);
    let chars = chars_of(s);
    let mut out: Vec<char> = Vec::new();
    let mut ascii = true;
    let mut i: usize = 0;
    while i < chars.len()
        invariant
            i <= chars@.len(),
            chars@ == s@,
            out@ == ascii_lowered(chars@.take(i as int)),
            ascii == is_ascii_text(chars@.take(i as int)),
        decreases chars@.len() - i,
    {
        let c = chars[i];
        if (c as u32) >= 128 {
            ascii = false;
        }
        out.push(lower_ascii_char(c));
        i = i + 1;
        proof {
            let t = chars@.take(i as int);
            assert(t.drop_last() =~= chars@.take(i - 1));
            assert(ascii_lowered(t) =~= ascii_lowered(chars@.take(i - 1)).push(ascii_lower(c)));
            if is_ascii_text(t) {
                assert(is_ascii_char(t[i - 1]));
                assert forall|k: int| 0 <= k < i - 1 implies is_ascii_char(#[trigger] chars@.take(i - 1)[k]) by {
                    assert(chars@.take(i - 1)[k] == t[k]);
                }
            }
            if is_ascii_text(chars@.take(i - 1)) && is_ascii_char(c) {
                assert forall|k: int| 0 <= k < i implies is_ascii_char(#[trigger] t[k]) by {
                    if k < i - 1 {
                        assert(t[k] == chars@.take(i - 1)[k]);
                    }
                }
            }
        }
    }
    proof { assert(chars@.take(chars@.len() as int) =~= chars@); }
    if ascii {
        out
    } else {
        chars_of(lower.as_str())
    }
}

/// `needle` occurs in `hay` as a contiguous run of characters.
pub open spec fn occurs_in(needle: Seq<char>, hay: Seq<char>) -> bool {
    exists|i: int| 0 <= i && i + needle.len() <= hay.len() && #[trigger] hay.subrange(i, i + needle.len()) == needle
}

/// Whether `needle` occurs in `hay` (an empty needle occurs everywhere).
pub fn contains_chars(hay: &Vec<char>, needle: &Vec<char>) -> (r: bool)
    ensures
        r == occurs_in(needle@, hay@),
{
    let n = needle.len();
    if n == 0 {
        assert(hay@.subrange(0int, 0int + needle@.len()) =~= needle@);
        return true;
    }
    if n > hay.len() {
        proof {
            assert forall|i: int| 0 <= i && i + needle@.len() <= hay@.len() implies #[trigger] hay@.subrange(i, i + needle@.len()) != needle@ by {}
        }
        return false;
    }
    let last = hay.len() - n;
    let mut i: usize = 0;
    while i <= last
        invariant
            n == needle@.len(),
            n >= 1,
            last + n == hay@.len(),
            last + n <= usize::MAX,
            i <= last + 1,
            forall|k: int| 0 <= k < i ==> #[trigger] hay@.subrange(k, k + n) != needle@,
        decreases last + 1 - i,
    {
        let mut j: usize = 0;
        let mut same = true;
        while j < n
            invariant
                n == needle@.len(),
                last + n == hay@.len(),
                last + n <= usize::MAX,
                i <= last,
                j <= n,
                same == (forall|m: int| 0 <= m < j ==> hay@[i + m] == needle@[m]),
            decreases n - j,
        {
            if hay[i + j] != needle[j] {
                same = false;
            }
            j = j + 1;
        }
        if same {
            assert(hay@.subrange(i as int, i + n) =~= needle@);
            return true;
        }
        assert(hay@.subrange(i as int, i + n) != needle@) by {
            let m = choose|m: int| 0 <= m < n && hay@[i + m] != needle@[m];
            assert(hay@.subrange(i as int, i + n)[m] != needle@[m]);
        }
        i = i + 1;
    }
    false
}

} // verus!
