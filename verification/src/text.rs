//! Character classes and conversions shared by the text-producing modules.
//! Strings are handled as sequences of characters (`String`'s view).
use vstd::prelude::*;
use unicode_normalization::UnicodeNormalization;

verus! {

/// Unicode `White_Space`, the class that `char::is_whitespace` tests.
pub open spec fn is_whitespace_spec(c: char) -> bool {
    let v = c as u32;
    ||| 0x09 <= v <= 0x0d
    ||| v == 0x20
    ||| v == 0x85
    ||| v == 0xa0
    ||| v == 0x1680
    ||| 0x2000 <= v <= 0x200a
    ||| v == 0x2028
    ||| v == 0x2029
    ||| v == 0x202f
    ||| v == 0x205f
    ||| v == 0x3000
}

/// General category `Cc`, the class that `char::is_control` tests.
pub open spec fn is_control_spec(c: char) -> bool {
    let v = c as u32;
    v <= 0x1f || 0x7f <= v <= 0x9f
}

pub fn is_whitespace(c: char) -> (r: bool)
    ensures
        r == is_whitespace_spec(c),
{
    let v = c as u32;
    (0x09 <= v && v <= 0x0d) || v == 0x20 || v == 0x85 || v == 0xa0 || v == 0x1680 || (0x2000
        <= v && v <= 0x200a) || v == 0x2028 || v == 0x2029 || v == 0x202f || v == 0x205f || v
        == 0x3000
}

pub fn is_control(c: char) -> (r: bool)
    ensures
        r == is_control_spec(c),
{
    let v = c as u32;
    v <= 0x1f || (0x7f <= v && v <= 0x9f)
}

/// `c` is an ASCII character.
pub open spec fn is_ascii_spec(c: char) -> bool {
    (c as u32) < 0x80
}

/// ASCII upper case of `c`; other characters are unchanged.
pub open spec fn ascii_upper_spec(c: char) -> char {
    if 'a' <= c <= 'z' {
        ((c as u32) - 32) as char
    } else {
        c
    }
}

pub fn ascii_upper(c: char) -> (r: char)
    ensures
        r == ascii_upper_spec(c),
{
    if 'a' <= c && c <= 'z' {
        ((c as u8) - 32) as char
    } else {
        c
    }
}

/// The characters of `s`.
#[verifier::external_body]
pub(crate) fn chars_of(s: &str) -> (r: Vec<char>)
    ensures
        r@ == s@,
{
    s.chars().collect()
}

/// The string made of `chars`.
#[verifier::external_body]
pub(crate) fn string_of(chars: &[char]) -> (r: String)
    ensures
        r@ == chars@,
{
    chars.iter().collect()
}

/// What `char::to_uppercase` yields for `c` (the Unicode upper-case mapping).
pub uninterp spec fn uppercase_of(c: char) -> Seq<char>;

/// Calls `char::to_uppercase`. Its documentation gives the full Unicode
/// mapping, stated here only by name, and says that ASCII letters map to
/// their ASCII upper case while other ASCII characters stay as they are.
#[verifier::external_body]
pub(crate) fn char_uppercase(c: char) -> (r: Vec<char>)
    ensures
        r@ == uppercase_of(c),
        is_ascii_spec(c) ==> r@ == seq![ascii_upper_spec(c)],
{
    c.to_uppercase().collect()
}

/// Upper case of a character sequence, character by character.
pub open spec fn uppercase_seq(s: Seq<char>) -> Seq<char>
    decreases s.len(),
{
    if s.len() == 0 {
        Seq::empty()
    } else {
        uppercase_seq(s.drop_last()) + uppercase_of(s.last())
    }
}

/// Upper case of a string, as `str::to_uppercase` gives it: the mapping of
/// each character in turn.
pub fn to_uppercase(s: &[char]) -> (r: Vec<char>)
    ensures
        r@ == uppercase_seq(s@),
{
    let mut out: Vec<char> = Vec::new();
    let mut i: usize = 0;
    while i < s.len()
        invariant
            0 <= i <= s@.len(),
            out@ == uppercase_seq(s@.subrange(0, i as int)),
        decreases s@.len() - i,
    {
        let mut upper = char_uppercase(s[i]);
        proof {
            assert(s@.subrange(0, i + 1).drop_last() == s@.subrange(0, i as int));
        }
        out.append(&mut upper);
        i = i + 1;
    }
    proof {
        assert(s@.subrange(0, s@.len() as int) == s@);
    }
    out
}

/// What `String::from_utf8_lossy` yields for `bytes`.
pub uninterp spec fn lossy_utf8(bytes: Seq<u8>) -> Seq<char>;

/// Calls `String::from_utf8_lossy`: valid UTF-8 decodes unchanged; invalid
/// sequences become U+FFFD, which is stated here only by name.
#[verifier::external_body]
pub(crate) fn from_utf8_lossy(bytes: &[u8]) -> (r: String)
    ensures
        r@ == lossy_utf8(bytes@),
        vstd::utf8::valid_utf8(bytes@) ==> r@ == vstd::utf8::decode_utf8(bytes@),
{
    String::from_utf8_lossy(bytes).into_owned()
}

/// What `UnicodeNormalization::nfc` yields for `s` (canonical composition).
pub uninterp spec fn nfc_of(s: Seq<char>) -> Seq<char>;

/// Calls `UnicodeNormalization::nfc` of the `unicode-normalization` crate.
/// Its source passes ASCII characters through decomposition unchanged and
/// composes no pair of them, so ASCII text comes back as it was. Every
/// character yields at least one, and composing keeps the character composed
/// onto, so text that is not empty stays so.
#[verifier::external_body]
pub(crate) fn nfc(s: &str) -> (r: String)
    ensures
        r@ == nfc_of(s@),
        vstd::utf8::is_ascii_chars(s@) ==> r@ == s@,
        s@.len() > 0 ==> r@.len() > 0,
{
    s.nfc().collect()
}

/// What `UnicodeNormalization::nfd` yields for the single character `c`: its
/// full canonical decomposition.
pub uninterp spec fn nfd_of(c: char) -> Seq<char>;

/// Calls `UnicodeNormalization::nfd` of the `unicode-normalization` crate on
/// one character. Its source emits a 7-bit ASCII character unchanged.
#[verifier::external_body]
pub(crate) fn decompose(c: char) -> (r: Vec<char>)
    ensures
        r@ == nfd_of(c),
        is_ascii_spec(c) ==> r@ == seq![c],
{
    c.nfd().collect()
}

} // verus!

verus! {

/// The decimal digit character of `d < 10`.
pub open spec fn digit_spec(d: nat) -> char {
    ((d + 48) as u32) as char
}

/// Decimal representation of `n`, without leading zeros.
pub open spec fn decimal_spec(n: nat) -> Seq<char>
    decreases n,
{
    if n < 10 {
        seq![digit_spec(n)]
    } else {
        decimal_spec(n / 10) + seq![digit_spec(n % 10)]
    }
}

fn digit(d: u64) -> (c: char)
    requires
        d < 10,
    ensures
        c == digit_spec(d as nat),
{
    ((d as u8) + 48) as char
}

/// Writes `n` in decimal.
pub fn decimal(n: u64) -> (r: Vec<char>)
    ensures
        r@ == decimal_spec(n as nat),
    decreases n,
{
    if n < 10 {
        let mut r = Vec::new();
        r.push(digit(n));
        r
    } else {
        let mut r = decimal(n / 10);
        r.push(digit(n % 10));
        r
    }
}

/// Appends the characters of `s` to `out`.
pub fn push_str(out: &mut Vec<char>, s: &str)
    ensures
        final(out)@ == old(out)@ + s@,
{
    let mut chars = chars_of(s);
    out.append(&mut chars);
}

/// Appends `chars` to `out`.
pub fn push_chars(out: &mut Vec<char>, chars: &[char])
    ensures
        final(out)@ == old(out)@ + chars@,
{
    let mut i: usize = 0;
    let ghost start = out@;
    while i < chars.len()
        invariant
            0 <= i <= chars@.len(),
            out@ == start + chars@.subrange(0, i as int),
        decreases chars@.len() - i,
    {
        out.push(chars[i]);
        i = i + 1;
    }
    proof {
        assert(chars@.subrange(0, chars@.len() as int) == chars@);
    }
}

} // verus!

verus! {

/// ASCII lower case of `c`; other characters are unchanged.
pub open spec fn ascii_lower_spec(c: char) -> char {
    if 'A' <= c <= 'Z' {
        ((c as u32) + 32) as char
    } else {
        c
    }
}

pub fn ascii_lower(c: char) -> (r: char)
    ensures
        r == ascii_lower_spec(c),
{
    if 'A' <= c && c <= 'Z' {
        ((c as u8) + 32) as char
    } else {
        c
    }
}

/// Lines joined with `\n` between them.
pub open spec fn join_lines(lines: Seq<Seq<char>>) -> Seq<char>
    decreases lines.len(),
{
    if lines.len() == 0 {
        Seq::empty()
    } else if lines.len() == 1 {
        lines[0]
    } else {
        join_lines(lines.drop_last()) + seq!['\n'] + lines.last()
    }
}

/// Joins lines with `\n` between them.
pub fn join_with_newlines(lines: &Vec<Vec<char>>) -> (r: Vec<char>)
    ensures
        r@ == join_lines(lines@.map_values(|l: Vec<char>| l@)),
{
    let ghost views = lines@.map_values(|l: Vec<char>| l@);
    let mut out: Vec<char> = Vec::new();
    let mut i: usize = 0;
    while i < lines.len()
        invariant
            0 <= i <= lines@.len(),
            views == lines@.map_values(|l: Vec<char>| l@),
            out@ == join_lines(views.subrange(0, i as int)),
        decreases lines@.len() - i,
    {
        proof {
            assert(views.subrange(0, i + 1).drop_last() == views.subrange(0, i as int));
        }
        if i > 0 {
            out.push('\n');
        }
        push_chars(&mut out, lines[i].as_slice());
        i = i + 1;
    }
    proof {
        assert(views.subrange(0, lines@.len() as int) == views);
    }
    out
}

} // verus!

verus! {

/// The text of an optional string.
pub open spec fn string_view(o: Option<String>) -> Option<Seq<char>> {
    match o {
        Some(s) => Some(s@),
        None => None,
    }
}

/// The text of an optional string slice.
pub open spec fn str_view(o: Option<&str>) -> Option<Seq<char>> {
    match o {
        Some(s) => Some(s@),
        None => None,
    }
}

} // verus!
