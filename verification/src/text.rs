//! Decimal text: verified conversions between integers and digit strings,
//! and character classification for the formula language.

use vstd::prelude::*;

verus! {

/// Whether `c` is an ASCII decimal digit.
pub open spec fn is_digit(c: char) -> bool {
    '0' <= c && c <= '9'
}

/// Whether `c` is an ASCII letter.
pub open spec fn is_alpha(c: char) -> bool {
    ('a' <= c && c <= 'z') || ('A' <= c && c <= 'Z')
}

/// Whether `c` separates tokens.
pub open spec fn is_ws(c: char) -> bool {
    c == ' ' || c == '\t'
}

/// The numeric value of a decimal digit character.
pub open spec fn digit_of(c: char) -> int {
    c as int - '0' as int
}

/// The base-36 digit value of a letter: `A`..`Z` (either case) map to 10..35.
pub open spec fn alpha_of(c: char) -> int {
    if 'a' <= c && c <= 'z' {
        c as int - 'a' as int + 10
    } else {
        c as int - 'A' as int + 10
    }
}

/// Whether every character of `s` is a decimal digit.
pub open spec fn all_digits(s: Seq<char>) -> bool {
    forall|i: int| 0 <= i < s.len() ==> is_digit(#[trigger] s[i])
}

/// The value of a sequence of decimal digits, most significant first.
pub open spec fn digits_val(s: Seq<char>) -> int
    decreases s.len(),
{
    if s.len() == 0 {
        0
    } else {
        digits_val(s.drop_last()) * 10 + digit_of(s.last())
    }
}

/// The digit character for a value in 0..10.
pub open spec fn digit_char(d: int) -> char {
    if d == 0 { '0' }
    else if d == 1 { '1' }
    else if d == 2 { '2' }
    else if d == 3 { '3' }
    else if d == 4 { '4' }
    else if d == 5 { '5' }
    else if d == 6 { '6' }
    else if d == 7 { '7' }
    else if d == 8 { '8' }
    else { '9' }
}

/// The canonical decimal form of a non-negative integer: no leading zeros.
pub open spec fn dec_digits(n: int) -> Seq<char>
    decreases n,
{
    if n < 10 {
        seq![digit_char(n)]
    } else {
        dec_digits(n / 10).push(digit_char(n % 10))
    }
}

/// The canonical decimal form of a signed integer: optional leading `-`.
pub open spec fn dec_of(v: int) -> Seq<char> {
    if v < 0 {
        seq!['-'] + dec_digits(-v)
    } else {
        dec_digits(v)
    }
}

/// The meaning of a signed decimal numeral as `str::parse::<i32>` reads it:
/// an optional sign, then one or more digits, and the value within range.
pub open spec fn spec_parse_i32(s: Seq<char>) -> Option<i32> {
    let body = if s.len() > 0 && (s[0] == '+' || s[0] == '-') {
        s.subrange(1, s.len() as int)
    } else {
        s
    };
    let neg = s.len() > 0 && s[0] == '-';
    if body.len() == 0 || !all_digits(body) {
        None
    } else {
        let v = if neg { -digits_val(body) } else { digits_val(body) };
        if i32::MIN <= v <= i32::MAX {
            Some(v as i32)
        } else {
            None
        }
    }
}

/// The value of a digit string never decreases as digits are appended.
proof fn lemma_digits_val_nonneg(s: Seq<char>)
    requires
        all_digits(s),
    ensures
        digits_val(s) >= 0,
    decreases s.len(),
{
    if s.len() > 0 {
        assert(all_digits(s.drop_last())) by {
            assert(forall|i: int| 0 <= i < s.len() - 1 ==> is_digit(#[trigger] s.drop_last()[i]) == is_digit(s[i]));
        }
        lemma_digits_val_nonneg(s.drop_last());
    }
}

/// A digit-string prefix never exceeds the whole string in value.
proof fn lemma_digits_val_prefix(s: Seq<char>, i: int)
    requires
        all_digits(s),
        0 <= i <= s.len(),
    ensures
        digits_val(s.take(i)) <= digits_val(s),
    decreases s.len() - i,
{
    if i < s.len() {
        lemma_digits_val_prefix(s, i + 1);
        assert(s.take(i + 1).drop_last() =~= s.take(i));
        assert(s.take(i + 1).last() == s[i]);
        lemma_digits_val_nonneg(s.take(i));
        assert(digits_val(s.take(i + 1)) == digits_val(s.take(i)) * 10 + digit_of(s[i]));
        assert(digits_val(s.take(i)) * 10 >= digits_val(s.take(i))) by {
            lemma_digits_val_nonneg(s.take(i));
        }
    } else {
        assert(s.take(i) =~= s);
    }
}

/// The canonical decimal form of a non-negative integer is all digits,
/// reads back as the same value, and starts with a digit.
proof fn lemma_dec_digits_value(n: int)
    requires
        n >= 0,
    ensures
        all_digits(dec_digits(n)),
        digits_val(dec_digits(n)) == n,
        dec_digits(n).len() >= 1,
        is_digit(dec_digits(n)[0]),
    decreases n,
{
    if n < 10 {
        let s = dec_digits(n);
        assert(s =~= seq![digit_char(n)]);
        assert(s.drop_last() =~= Seq::<char>::empty());
        assert(digits_val(s) == digits_val(Seq::<char>::empty()) * 10 + digit_of(digit_char(n)));
    } else {
        lemma_dec_digits_value(n / 10);
        let h = dec_digits(n / 10);
        let s = dec_digits(n);
        assert(s == h.push(digit_char(n % 10)));
        assert(s.drop_last() =~= h);
        assert(s.last() == digit_char(n % 10));
        assert(digits_val(s) == digits_val(h) * 10 + digit_of(digit_char(n % 10)));
        assert(digits_val(s) == (n / 10) * 10 + n % 10);
        assert forall|i: int| 0 <= i < s.len() implies is_digit(#[trigger] s[i]) by {
            if i < h.len() {
                assert(s[i] == h[i]);
            } else {
                assert(s[i] == digit_char(n % 10));
            }
        }
        assert(s[0] == h[0]);
    }
}

/// Reading the canonical decimal text of a value gives the value back:
/// what one formula cell stores, a formula that references it recovers.
pub proof fn lemma_decimal_round_trip(v: i32)
    ensures
        spec_parse_i32(dec_of(v as int)) == Some(v),
{
    if v >= 0 {
        lemma_dec_digits_value(v as int);
        let s = dec_of(v as int);
        assert(s == dec_digits(v as int));
        assert(s[0] != '+' && s[0] != '-') by {
            assert(is_digit(s[0]));
        }
    } else {
        lemma_dec_digits_value(-(v as int));
        let s = dec_of(v as int);
        assert(s == seq!['-'] + dec_digits(-(v as int)));
        assert(s[0] == '-');
        assert(s.subrange(1, s.len() as int) =~= dec_digits(-(v as int)));
        assert(digits_val(s.subrange(1, s.len() as int)) == -(v as int));
    }
}

/// Reads a signed 32-bit integer out of a character sequence, exactly as
/// [`spec_parse_i32`] defines it.
pub fn parse_i32_chars(s: &[char]) -> (r: Option<i32>)
    ensures
        r == spec_parse_i32(s@),
{
    let n = s.len();
    let ghost whole = s@;
    let mut start: usize = 0;
    let mut neg = false;
    if n > 0 && (s[0] == '+' || s[0] == '-') {
        neg = s[0] == '-';
        start = 1;
    }
    let ghost body = if start == 1 { whole.subrange(1, whole.len() as int) } else { whole };
    assert(body =~= whole.subrange(start as int, whole.len() as int));
    if n == start {
        return None;
    }
    let mut acc: i64 = 0;
    let mut i: usize = start;
    while i < n
        invariant
            start <= i <= n,
            n == whole.len(),
            s@ == whole,
            body == whole.subrange(start as int, whole.len() as int),
            body == (if start == 1 { whole.subrange(1, whole.len() as int) } else { whole }),
            start == 0 || start == 1,
            (start == 1) == (whole.len() > 0 && (whole[0] == '+' || whole[0] == '-')),
            neg == (whole.len() > 0 && whole[0] == '-'),
            all_digits(body.take(i - start)),
            0 <= acc <= 0x8000_0000,
            acc == digits_val(body.take(i - start)),
        decreases n - i,
    {
        let c = s[i];
        assert(body[i - start] == whole[i as int]);
        if c < '0' || c > '9' {
            proof {
                assert(!is_digit(body[i - start]));
                assert(!all_digits(body));
                assert(spec_parse_i32(whole) is None);
            }
            return None;
        }
        let cv = c as u32;
        assert(cv == c as int);
        let d = (cv - 48) as i64;
        assert(is_digit(body[i - start]) && digit_of(body[i - start]) == d);
        acc = acc * 10 + d;
        i += 1;
        proof {
            assert(body.take(i - start).drop_last() =~= body.take(i - start - 1));
            assert(body.take(i - start).last() == body[i - start - 1]);
            assert(acc == digits_val(body.take(i - start)));
        }
        if acc > 0x8000_0000 {
            // Any digits that follow only grow the value, so the numeral is
            // out of range (or malformed, which also reads as None).
            proof {
                assert(body.len() > 0);
                if all_digits(body) {
                    lemma_digits_val_prefix(body, i - start);
                    assert(body.take(body.len() as int) =~= body);
                    assert(digits_val(body) >= acc);
                    assert(digits_val(body) > 0x8000_0000);
                    if neg {
                        assert(-digits_val(body) < i32::MIN);
                        assert(spec_parse_i32(whole) is None);
                    } else {
                        assert(digits_val(body) > i32::MAX);
                        assert(spec_parse_i32(whole) is None);
                    }
                } else {
                    assert(spec_parse_i32(whole) is None);
                }
            }
            return None;
        }
    }
    assert(body.take(i - start) =~= body);
    if neg {
        if acc == 0x8000_0000 {
            Some(i32::MIN)
        } else {
            Some(0i32 - (acc as i32))
        }
    } else {
        if acc > 0x7fff_ffff {
            None
        } else {
            Some(acc as i32)
        }
    }
}

/// Appends the canonical decimal digits of `n` to `out`.
fn push_dec_digits(n: u32, out: &mut Vec<char>)
    ensures
        final(out)@ == old(out)@ + dec_digits(n as int),
    decreases n,
{
    if n < 10 {
        let d = n as u8;
        out.push(digit_char_exec(d));
        assert(out@ =~= old(out)@ + dec_digits(n as int));
    } else {
        push_dec_digits(n / 10, out);
        out.push(digit_char_exec((n % 10) as u8));
        assert(out@ =~= old(out)@ + dec_digits(n as int));
    }
}

/// The digit character for a value in 0..10.
fn digit_char_exec(d: u8) -> (c: char)
    ensures
        c == digit_char(d as int),
{
    if d == 0 { '0' }
    else if d == 1 { '1' }
    else if d == 2 { '2' }
    else if d == 3 { '3' }
    else if d == 4 { '4' }
    else if d == 5 { '5' }
    else if d == 6 { '6' }
    else if d == 7 { '7' }
    else if d == 8 { '8' }
    else { '9' }
}

/// The canonical decimal characters of a signed 32-bit integer.
pub fn i32_dec_chars(v: i32) -> (r: Vec<char>)
    ensures
        r@ == dec_of(v as int),
{
    let mut out: Vec<char> = Vec::new();
    if v < 0 {
        out.push('-');
        let mag: u32 = ((0i32 - (v + 1)) as u32) + 1;
        assert(mag == -(v as int));
        push_dec_digits(mag, &mut out);
        assert(out@ =~= dec_of(v as int));
    } else {
        push_dec_digits(v as u32, &mut out);
        assert(out@ =~= dec_of(v as int));
    }
    out
}

/// The canonical decimal characters of a usize.
pub fn usize_dec_chars(v: usize) -> (r: Vec<char>)
    ensures
        r@ == dec_digits(v as int),
    decreases v,
{
    let mut out: Vec<char> = Vec::new();
    if v < 10 {
        out.push(digit_char_exec(v as u8));
        assert(out@ =~= dec_digits(v as int));
    } else {
        let mut head = usize_dec_chars(v / 10);
        head.push(digit_char_exec((v % 10) as u8));
        assert(head@ =~= dec_digits(v as int));
        out = head;
    }
    out
}

/// Relies on `String::push`: appends one character to the string.
#[verifier::external_body]
fn push_char(s: &mut String, c: char)
    ensures
        final(s)@ == old(s)@.push(c),
{
    s.push(c)
}

/// Builds a `String` whose characters are exactly `v`.
pub fn chars_to_string(v: &Vec<char>) -> (r: String)
    ensures
        r@ == v@,
{
    let mut s = String::new();
    let mut i: usize = 0;
    while i < v.len()
        invariant
            i <= v.len(),
            s@ == v@.take(i as int),
        decreases v.len() - i,
    {
        push_char(&mut s, v[i]);
        i += 1;
        assert(s@ =~= v@.take(i as int));
    }
    assert(s@ =~= v@);
    s
}

/// Copies the characters of a string slice into a vector.
pub fn str_to_chars(s: &str) -> (r: Vec<char>)
    ensures
        r@ == s@,
{
    let n = s.unicode_len();
    let mut out: Vec<char> = Vec::new();
    let mut i: usize = 0;
    while i < n
        invariant
            i <= n,
            n == s@.len(),
            out@ == s@.take(i as int),
        decreases n - i,
    {
        out.push(s.get_char(i));
        i += 1;
        assert(out@ =~= s@.take(i as int));
    }
    assert(out@ =~= s@);
    out
}

/// The first position at or after `i` that does not hold whitespace.
pub open spec fn spec_skip_ws(s: Seq<char>, i: int) -> int
    decreases s.len() - i,
{
    if 0 <= i < s.len() && is_ws(s[i]) {
        spec_skip_ws(s, i + 1)
    } else {
        i
    }
}

/// The end of the run of letters starting at `i`.
pub open spec fn spec_alpha_end(s: Seq<char>, i: int) -> int
    decreases s.len() - i,
{
    if 0 <= i < s.len() && is_alpha(s[i]) {
        spec_alpha_end(s, i + 1)
    } else {
        i
    }
}

/// The end of the run of digits starting at `i`.
pub open spec fn spec_digit_end(s: Seq<char>, i: int) -> int
    decreases s.len() - i,
{
    if 0 <= i < s.len() && is_digit(s[i]) {
        spec_digit_end(s, i + 1)
    } else {
        i
    }
}

/// `spec_skip_ws` stays within `[i, s.len()]`.
pub broadcast proof fn lemma_skip_ws_bounds(s: Seq<char>, i: int)
    requires
        0 <= i <= s.len(),
    ensures
        i <= #[trigger] spec_skip_ws(s, i) <= s.len(),
    decreases s.len() - i,
{
    if i < s.len() && is_ws(s[i]) {
        lemma_skip_ws_bounds(s, i + 1);
    }
}

/// `spec_alpha_end` stays within `[i, s.len()]`.
pub broadcast proof fn lemma_alpha_end_bounds(s: Seq<char>, i: int)
    requires
        0 <= i <= s.len(),
    ensures
        i <= #[trigger] spec_alpha_end(s, i) <= s.len(),
    decreases s.len() - i,
{
    if i < s.len() && is_alpha(s[i]) {
        lemma_alpha_end_bounds(s, i + 1);
    }
}

/// `spec_digit_end` stays within `[i, s.len()]`.
pub broadcast proof fn lemma_digit_end_bounds(s: Seq<char>, i: int)
    requires
        0 <= i <= s.len(),
    ensures
        i <= #[trigger] spec_digit_end(s, i) <= s.len(),
    decreases s.len() - i,
{
    if i < s.len() && is_digit(s[i]) {
        lemma_digit_end_bounds(s, i + 1);
    }
}


} // verus!
