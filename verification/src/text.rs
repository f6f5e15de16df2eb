//! Text helpers: building, comparing, trimming and reading numbers.

use vstd::prelude::*;
use vstd::string::*;

verus! {

/// The decimal digit of `d`.
pub open spec fn digit(d: nat) -> char {
    (d + 48) as char
}

/// The decimal digits of `n`.
pub open spec fn decimal(n: nat) -> Seq<char>
    decreases n,
{
    if n < 10 {
        seq![digit(n)]
    } else {
        decimal(n / 10).push(digit(n % 10))
    }
}

/// `String::push` of std: appends one character.
#[verifier::external_body]
pub(crate) fn push_char(s: &mut String, c: char)
    ensures
        final(s)@ == old(s)@.push(c),
{
    s.push(c)
}

/// Whether a character is white space: one with the Unicode property White_Space.
pub open spec fn is_space(c: char) -> bool {
    let n = c as u32;
    ||| 0x09 <= n <= 0x0D
    ||| n == 0x20
    ||| n == 0x85
    ||| n == 0xA0
    ||| n == 0x1680
    ||| 0x2000 <= n <= 0x200A
    ||| n == 0x2028
    ||| n == 0x2029
    ||| n == 0x202F
    ||| n == 0x205F
    ||| n == 0x3000
}

/// What is left of a text without leading and trailing white space.
pub open spec fn trimmed(s: Seq<char>) -> Seq<char>
    decreases s.len(),
{
    if s.len() == 0 {
        s
    } else if is_space(s[0]) {
        trimmed(s.skip(1))
    } else if is_space(s.last()) {
        trimmed(s.drop_last())
    } else {
        s
    }
}

/// `str::trim` of std: the text without leading and trailing white space, which is what has the
/// Unicode property White_Space.
#[verifier::external_body]
pub(crate) fn trim(s: &str) -> (r: &str)
    ensures
        r@ == trimmed(s@),
{
    s.trim()
}

/// Whether a text is made of ASCII characters.
pub open spec fn only_ascii(s: Seq<char>) -> bool {
    forall|i: int| 0 <= i < s.len() ==> (#[trigger] s[i]) as u32 <= 0x7F
}

/// What `str::to_lowercase` of std gives for a text that is not all ASCII.
pub uninterp spec fn unicode_lowercased(s: Seq<char>) -> Seq<char>;

/// The lower case of a text.
pub open spec fn lowercased(s: Seq<char>) -> Seq<char> {
    if only_ascii(s) { ascii_lowered(s) } else { unicode_lowercased(s) }
}

/// `str::to_lowercase` of std: of a text of ASCII characters the letters `A` to `Z` become `a` to
/// `z` and the others stay. Of any other text only that the result depends on it alone.
#[verifier::external_body]
pub(crate) fn to_lowercase(s: &str) -> (r: String)
    ensures
        r@ == if only_ascii(s@) { ascii_lowered(s@) } else { unicode_lowercased(s@) },
{
    s.to_lowercase()
}

/// Whether every character is a decimal digit, and there is one.
pub open spec fn all_digits(s: Seq<char>) -> bool {
    s.len() > 0 && forall|i: int| 0 <= i < s.len() ==> '0' <= #[trigger] s[i] <= '9'
}

/// The number that decimal digits spell.
pub open spec fn digits_value(s: Seq<char>) -> nat
    decreases s.len(),
{
    if s.len() == 0 {
        0
    } else {
        10 * digits_value(s.drop_last()) + (s.last() as nat - 48) as nat
    }
}

/// The unsigned number that `s` spells: digits, after at most one plus sign.
pub open spec fn unsigned_value(s: Seq<char>) -> Option<nat> {
    let d = if s.len() > 0 && s[0] == '+' { s.skip(1) } else { s };
    if all_digits(d) { Some(digits_value(d)) } else { None }
}

/// The signed number that `s` spells: digits, after at most one sign.
pub open spec fn signed_value(s: Seq<char>) -> Option<int> {
    if s.len() > 0 && s[0] == '-' {
        if all_digits(s.skip(1)) { Some(-(digits_value(s.skip(1)) as int)) } else { None }
    } else {
        match unsigned_value(s) { Some(v) => Some(v as int), None => None }
    }
}

/// `str::parse::<u32>` of std: the number that the text spells in decimal, if it spells one
/// and the number fits.
#[verifier::external_body]
pub(crate) fn parse_u32(s: &str) -> (r: Option<u32>)
    ensures
        r == match unsigned_value(s@) {
            Some(v) => if v <= u32::MAX { Some(v as u32) } else { None },
            None => None::<u32>,
        },
{
    s.parse::<u32>().ok()
}

/// `str::parse::<u64>` of std: the number that the text spells in decimal, if it spells one
/// and the number fits.
#[verifier::external_body]
pub(crate) fn parse_u64(s: &str) -> (r: Option<u64>)
    ensures
        r == match unsigned_value(s@) {
            Some(v) => if v <= u64::MAX { Some(v as u64) } else { None },
            None => None::<u64>,
        },
{
    s.parse::<u64>().ok()
}

/// `str::parse::<i64>` of std: the number that the text spells in decimal, if it spells one
/// and the number fits.
#[verifier::external_body]
pub(crate) fn parse_i64(s: &str) -> (r: Option<i64>)
    ensures
        r == match signed_value(s@) {
            Some(v) => if i64::MIN <= v <= i64::MAX { Some(v as i64) } else { None },
            None => None::<i64>,
        },
{
    s.parse::<i64>().ok()
}

/// A copy of the text.
pub fn owned(s: &str) -> (r: String)
    ensures
        r@ == s@,
{
    String::from_str(s)
}

/// The two texts one after the other.
pub fn join(a: &str, b: &str) -> (r: String)
    ensures
        r@ == a@ + b@,
{
    let mut r: String = String::from_str(a);
    r.append(b);
    r
}

/// Whether the two texts are the same.
pub fn same(a: &str, b: &str) -> (r: bool)
    ensures
        r == (a@ == b@),
{
    String::from_str(a) == String::from_str(b)
}

fn digit_char(d: u64) -> (r: char)
    requires
        d < 10,
    ensures
        r == digit(d as nat),
{
    (d as u8 + 48) as char
}

/// The decimal text of `n`.
pub fn number(n: u64) -> (r: String)
    ensures
        r@ == decimal(n as nat),
    decreases n,
{
    if n < 10 {
        let mut r: String = String::new();
        push_char(&mut r, digit_char(n));
        assert(r@ =~= seq![digit(n as nat)]);
        r
    } else {
        let mut r: String = number(n / 10);
        push_char(&mut r, digit_char(n % 10));
        r
    }
}

/// The characters of the text.
pub fn chars_of(s: &str) -> (r: Vec<char>)
    ensures
        r@ == s@,
{
    let mut r: Vec<char> = Vec::new();
    for c in it: s.chars()
        invariant
            it.seq() == s@,
            r@ == it.seq().take(it.index()),
    {
        r.push(c);
        assert(r@ =~= it.seq().take(it.index() + 1));
    }
    assert(s@.take(s@.len() as int) =~= s@);
    r
}

/// The text of the characters.
pub fn text_of(chars: &[char]) -> (r: String)
    ensures
        r@ == chars@,
{
    let mut r: String = String::new();
    let mut i: usize = 0;
    while i < chars.len()
        invariant
            i <= chars@.len(),
            r@ == chars@.take(i as int),
        decreases chars@.len() - i,
    {
        push_char(&mut r, chars[i]);
        assert(r@ =~= chars@.take(i + 1));
        i += 1;
    }
    assert(chars@.take(i as int) =~= chars@);
    r
}

/// The lower case of an ASCII letter; any other character as it is.
pub open spec fn ascii_lower(c: char) -> char {
    if 'A' <= c <= 'Z' { (c as u32 + 32) as char } else { c }
}

/// The text with its ASCII letters in lower case.
pub open spec fn ascii_lowered(s: Seq<char>) -> Seq<char> {
    Seq::new(s.len(), |i: int| ascii_lower(s[i]))
}

fn lower_char(c: char) -> (r: char)
    ensures
        r == ascii_lower(c),
{
    if 'A' <= c && c <= 'Z' {
        (c as u8 + 32) as char
    } else {
        c
    }
}

/// The text with its ASCII letters in lower case.
pub fn to_ascii_lowercase(s: &str) -> (r: String)
    ensures
        r@ == ascii_lowered(s@),
{
    let chars: Vec<char> = chars_of(s);
    let mut r: String = String::new();
    let mut i: usize = 0;
    while i < chars.len()
        invariant
            i <= chars@.len(),
            chars@ == s@,
            r@ == ascii_lowered(s@).take(i as int),
        decreases chars@.len() - i,
    {
        push_char(&mut r, lower_char(chars[i]));
        assert(r@ =~= ascii_lowered(s@).take(i + 1));
        i += 1;
    }
    assert(ascii_lowered(s@).take(i as int) =~= ascii_lowered(s@));
    r
}

/// Whether the two texts are the same but for the case of ASCII letters.
pub fn same_ignoring_ascii_case(a: &str, b: &str) -> (r: bool)
    ensures
        r == (ascii_lowered(a@) == ascii_lowered(b@)),
{
    to_ascii_lowercase(a) == to_ascii_lowercase(b)
}

/// The hexadecimal digit of `d`.
pub open spec fn hex_digit(d: int) -> char {
    if d < 10 { (d + 48) as char } else { (d + 87) as char }
}

/// Two hexadecimal digits per byte.
pub open spec fn hex(b: Seq<u8>) -> Seq<char> {
    Seq::new(
        2 * b.len(),
        |i: int| if i % 2 == 0 { hex_digit(b[i / 2] as int / 16) } else { hex_digit(b[i / 2] as int % 16) },
    )
}

fn hex_char(d: u8) -> (r: char)
    requires
        d < 16,
    ensures
        r == hex_digit(d as int),
{
    if d < 10 {
        (d + 48) as char
    } else {
        (d + 87) as char
    }
}

/// The bytes in lower-case hexadecimal.
pub fn to_hex(b: &[u8]) -> (r: String)
    ensures
        r@ == hex(b@),
{
    let mut r: String = String::new();
    let mut i: usize = 0;
    while i < b.len()
        invariant
            i <= b@.len(),
            r@ == hex(b@).take(2 * i),
        decreases b@.len() - i,
    {
        push_char(&mut r, hex_char(b[i] / 16));
        push_char(&mut r, hex_char(b[i] % 16));
        assert(r@ =~= hex(b@).take(2 * (i + 1)));
        i += 1;
    }
    assert(hex(b@).take(2 * i) =~= hex(b@));
    r
}

/// Each byte is written as two hexadecimal digits, the higher one first, with small letters.
pub proof fn law_bytes_are_written(b: Seq<u8>, i: int)
    requires
        0 <= i < b.len(),
    ensures
        hex(b).len() == 2 * b.len(),
        b[i] / 16 < 10 ==> hex(b)[2 * i] as int == '0' as int + b[i] / 16,
        b[i] / 16 >= 10 ==> hex(b)[2 * i] as int == 'a' as int + b[i] / 16 - 10,
        b[i] % 16 < 10 ==> hex(b)[2 * i + 1] as int == '0' as int + b[i] % 16,
        b[i] % 16 >= 10 ==> hex(b)[2 * i + 1] as int == 'a' as int + b[i] % 16 - 10,
{
}

}
