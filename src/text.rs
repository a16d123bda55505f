//! Text handling for the permit file: searching bytes, cutting a `str` at
//! byte positions that are character boundaries, and splitting off lines.
use vstd::prelude::*;
use vstd::string::*;
use vstd::utf8::*;

verus! {

broadcast use vstd::utf8::group_utf8_lib;

/// The position of the first `c` in `b` at or after `from`, or the length of
/// `b` when there is none.
pub open spec fn find_from(b: Seq<u8>, c: u8, from: int) -> int
    decreases b.len() - from,
{
    if from >= b.len() {
        b.len() as int
    } else if b[from] == c {
        from
    } else {
        find_from(b, c, from + 1)
    }
}

pub proof fn lemma_find_from(b: Seq<u8>, c: u8, from: int)
    requires
        0 <= from <= b.len(),
    ensures
        from <= find_from(b, c, from) <= b.len(),
        find_from(b, c, from) < b.len() ==> b[find_from(b, c, from)] == c,
        forall|j: int| from <= j < find_from(b, c, from) ==> b[j] != c,
    decreases b.len() - from,
{
    if from < b.len() && b[from] != c {
        lemma_find_from(b, c, from + 1);
    }
}

/// The length of the first line of `b`, its line feed included.
pub open spec fn line_len(b: Seq<u8>) -> int {
    let nl = find_from(b, 10, 0);
    if nl < b.len() {
        nl + 1
    } else {
        b.len() as int
    }
}

pub proof fn lemma_line_len(b: Seq<u8>)
    ensures
        0 <= line_len(b) <= b.len(),
        b.len() > 0 ==> line_len(b) > 0,
{
    lemma_find_from(b, 10, 0);
}

/// The bytes of `b` before its first line feed.
pub open spec fn first_line(b: Seq<u8>) -> Seq<u8> {
    b.subrange(0, line_len(b))
}

/// What follows the first line of `b`.
pub open spec fn after_first_line(b: Seq<u8>) -> Seq<u8> {
    b.subrange(line_len(b), b.len() as int)
}

/// The position of the first `c` in `b` at or after `from`, or the length of `b`.
pub fn find_byte(b: &[u8], c: u8, from: usize) -> (r: usize)
    requires
        from <= b@.len(),
    ensures
        r == find_from(b@, c, from as int),
{
    let mut i = from;
    while i < b.len()
        invariant
            from <= i <= b@.len(),
            find_from(b@, c, from as int) == find_from(b@, c, i as int),
        decreases b@.len() - i,
    {
        if b[i] == c {
            return i;
        }
        i = i + 1;
    }
    i
}

/// A byte position just after an ASCII byte is a character boundary.
pub proof fn lemma_boundary_after_ascii(b: Seq<u8>, k: int)
    requires
        valid_utf8(b),
        0 < k <= b.len(),
        b[k - 1] < 0x80,
    ensures
        is_char_boundary(b, k),
{
    if k < b.len() {
        is_char_boundary_iff_not_is_continuation_byte(b, k - 1);
        assert(is_char_boundary(b, k - 1));
        let s = b.subrange(k - 1, b.len() as int);
        assert(valid_utf8(s));
        assert(s[0] == b[k - 1]);
        assert(length_of_first_scalar(s) == 1);
        let t = pop_first_scalar(s);
        assert(t =~= b.subrange(k, b.len() as int));
        assert(valid_utf8(t));
        assert(t[0] == b[k]);
        assert(valid_first_scalar(t));
        assert(!is_continuation_byte(b[k]));
        is_char_boundary_iff_not_is_continuation_byte(b, k);
    }
}

/// A byte position holding an ASCII byte is a character boundary.
pub proof fn lemma_boundary_at_ascii(b: Seq<u8>, k: int)
    requires
        valid_utf8(b),
        0 <= k < b.len(),
        b[k] < 0x80,
    ensures
        is_char_boundary(b, k),
{
    is_char_boundary_iff_not_is_continuation_byte(b, k);
}

/// A boundary of `b` at or before `to`, itself a boundary, is one of `b[..to]` too.
proof fn lemma_boundary_in_prefix(b: Seq<u8>, from: int, to: int)
    requires
        valid_utf8(b),
        0 <= from <= to <= b.len(),
        is_char_boundary(b, from),
        is_char_boundary(b, to),
    ensures
        valid_utf8(b.subrange(0, to)),
        is_char_boundary(b.subrange(0, to), from),
{
    let p = b.subrange(0, to);
    assert(valid_utf8(p));
    if from == to {
        assert(is_char_boundary(p, p.len() as int));
    } else if from > 0 {
        is_char_boundary_iff_not_is_continuation_byte(b, from);
        assert(p[from] == b[from]);
        is_char_boundary_iff_not_is_continuation_byte(p, from);
    }
}

/// The part of `s` between the byte positions `from` and `to`, both character boundaries.
pub fn byte_slice(s: &str, from: usize, to: usize) -> (r: &str)
    requires
        from <= to <= s.spec_bytes().len(),
        is_char_boundary(s.spec_bytes(), from as int),
        is_char_boundary(s.spec_bytes(), to as int),
    ensures
        r.spec_bytes() == s.spec_bytes().subrange(from as int, to as int),
        r@ == decode_utf8(s.spec_bytes().subrange(from as int, to as int)),
{
    proof {
        lemma_boundary_in_prefix(s.spec_bytes(), from as int, to as int);
    }
    let (head, _) = s.split_at(to);
    let (_, r) = head.split_at(from);
    assert(r.spec_bytes() =~= s.spec_bytes().subrange(from as int, to as int));
    r
}

/// Splits off the first line of `s`, its line feed included.
pub fn take_line(s: &str) -> (r: (&str, &str))
    ensures
        r.0.spec_bytes() == first_line(s.spec_bytes()),
        r.1.spec_bytes() == after_first_line(s.spec_bytes()),
{
    let b = s.as_bytes();
    let nl = find_byte(b, 10, 0);
    proof {
        lemma_find_from(b@, 10, 0);
    }
    let end = if nl < b.len() {
        nl + 1
    } else {
        nl
    };
    proof {
        if end > 0 && nl < b@.len() {
            lemma_boundary_after_ascii(b@, end as int);
        }
    }
    let r = s.split_at(end);
    assert(r.0.spec_bytes() =~= first_line(s.spec_bytes()));
    assert(r.1.spec_bytes() =~= after_first_line(s.spec_bytes()));
    r
}

/// A character with Unicode's White_Space property.
pub open spec fn is_white_space(c: char) -> bool {
    ||| '\u{9}' <= c <= '\u{d}'
    ||| c == ' ' || c == '\u{85}' || c == '\u{a0}' || c == '\u{1680}'
    ||| '\u{2000}' <= c <= '\u{200a}'
    ||| c == '\u{2028}' || c == '\u{2029}' || c == '\u{202f}' || c == '\u{205f}' || c == '\u{3000}'
}

/// `s` without its trailing white space.
pub open spec fn trim_end_text(s: Seq<char>) -> Seq<char>
    decreases s.len(),
{
    if s.len() > 0 && is_white_space(s.last()) {
        trim_end_text(s.drop_last())
    } else {
        s
    }
}

/// `s` without its leading white space.
pub open spec fn trim_start_text(s: Seq<char>) -> Seq<char>
    decreases s.len(),
{
    if s.len() > 0 && is_white_space(s[0]) {
        trim_start_text(s.drop_first())
    } else {
        s
    }
}

/// `s` without its leading and trailing white space.
pub open spec fn trim_text(s: Seq<char>) -> Seq<char> {
    trim_start_text(trim_end_text(s))
}

/// Relies on `str::trim`: `s` without its leading and trailing white space,
/// white space being the characters with Unicode's White_Space property.
#[verifier::external_body]
pub(crate) fn trim(s: &str) -> (r: &str)
    ensures
        r@ == trim_text(s@),
{
    s.trim()
}

/// Relies on `str::trim_end`: `s` without its trailing white space, white
/// space being the characters with Unicode's White_Space property.
#[verifier::external_body]
pub(crate) fn trim_end(s: &str) -> (r: &str)
    ensures
        r@ == trim_end_text(s@),
{
    s.trim_end()
}

/// The value of a run of decimal digits.
pub open spec fn digits_value(s: Seq<char>) -> int
    decreases s.len(),
{
    if s.len() == 0 {
        0
    } else {
        digits_value(s.drop_last()) * 10 + (s.last() as u32 - 48)
    }
}

/// One or more decimal digits.
pub open spec fn is_digits(s: Seq<char>) -> bool {
    s.len() > 0 && forall|i: int| 0 <= i < s.len() ==> '0' <= #[trigger] s[i] <= '9'
}

/// The `u8` that the text stands for: an optional `+` and then decimal digits,
/// of a value below 256.
pub open spec fn u8_of_text(s: Seq<char>) -> Option<u8> {
    let d = if s.len() > 0 && s[0] == '+' {
        s.drop_first()
    } else {
        s
    };
    if is_digits(d) && digits_value(d) < 256 {
        Some(digits_value(d) as u8)
    } else {
        None
    }
}

/// Whether `s` is one or more decimal digits.
pub fn all_digits(s: &str) -> (r: bool)
    ensures
        r == is_digits(s@),
{
    let n = s.unicode_len();
    if n == 0 {
        return false;
    }
    let mut i: usize = 0;
    while i < n
        invariant
            n == s@.len(),
            i <= n,
            forall|j: int| 0 <= j < i ==> '0' <= #[trigger] s@[j] <= '9',
        decreases n - i,
    {
        let c = s.get_char(i);
        if !('0' <= c && c <= '9') {
            return false;
        }
        i = i + 1;
    }
    true
}

/// The value of one or more decimal digits, when it is below 256.
pub open spec fn decimal_u8(s: Seq<char>) -> Option<u8> {
    if is_digits(s) && digits_value(s) < 256 {
        Some(digits_value(s) as u8)
    } else {
        None
    }
}

/// Reads one or more decimal digits as a `u8`; a value above 255 is refused.
pub(crate) fn parse_digits_u8(s: &str) -> (r: Result<u8, std::num::ParseIntError>)
    requires
        is_digits(s@),
    ensures
        match r {
            Ok(v) => decimal_u8(s@) == Some(v),
            Err(_) => decimal_u8(s@) is None,
        },
{
    assert(s@[0] != '+');
    parse_u8(s)
}

/// The error that `u8` parsing reports on `s`, which is not one or more digits.
pub(crate) fn non_digit_error(s: &str) -> (r: std::num::ParseIntError)
    requires
        s@.len() > 0,
        !is_digits(s@),
{
    let probe = if s.get_char(0) == '+' {
        s.substring_char(0, 1)
    } else {
        s
    };
    proof {
        if s@[0] == '+' {
            assert(probe@.drop_first() =~= Seq::<char>::empty());
        }
    }
    match parse_u8(probe) {
        Err(e) => e,
        Ok(_) => vstd::pervasive::unreached(),
    }
}

#[verifier::external_type_specification]
#[verifier::external_body]
pub struct ExParseIntError(std::num::ParseIntError);

/// Relies on `<u8 as FromStr>::from_str`, whose documentation asks for an
/// optional `+` sign followed by decimal digits only, and refuses a value that
/// does not fit.
#[verifier::external_body]
fn parse_u8(s: &str) -> (r: Result<u8, std::num::ParseIntError>)
    ensures
        match r {
            Ok(v) => u8_of_text(s@) == Some(v),
            Err(_) => u8_of_text(s@) is None,
        },
{
    s.parse::<u8>()
}

} // verus!
