//! Decimal text: the spec of decimal notation, verified formatting of
//! integers, and verified parsing that mirrors `str::parse` for `i64`,
//! `u64` and `usize` (optional single sign, decimal digits, range check).

use vstd::prelude::*;
use vstd::string::StringExecFns;
use vstd::string::StringSliceAdditionalSpecFns;
use crate::strutil::push_char;

verus! {

broadcast use vstd::string::group_string_axioms;

/// A decimal digit character.
pub open spec fn is_digit(c: char) -> bool {
    '0' <= c && c <= '9'
}

/// The numeric value of a digit character.
pub open spec fn digit_val(c: char) -> int {
    c as int - 48
}

/// The value of a digit string, most significant digit first.
pub open spec fn digits_val(s: Seq<char>) -> int
    decreases s.len(),
{
    if s.len() == 0 {
        0
    } else {
        digits_val(s.drop_last()) * 10 + digit_val(s.last())
    }
}

pub open spec fn all_digits(s: Seq<char>) -> bool {
    forall|i: int| 0 <= i < s.len() ==> is_digit(#[trigger] s[i])
}

/// The digit part of integer text: everything after one optional sign.
pub open spec fn int_body(s: Seq<char>) -> Seq<char> {
    if s.len() > 0 && (s[0] == '+' || s[0] == '-') {
        s.drop_first()
    } else {
        s
    }
}

pub open spec fn int_negative(s: Seq<char>) -> bool {
    s.len() > 0 && s[0] == '-'
}

/// Well-formed integer text: an optional sign followed by at least one digit.
pub open spec fn int_text_valid(s: Seq<char>) -> bool {
    int_body(s).len() > 0 && all_digits(int_body(s))
}

/// The signed value of well-formed integer text.
pub open spec fn int_text_val(s: Seq<char>) -> int {
    if int_negative(s) {
        -digits_val(int_body(s))
    } else {
        digits_val(int_body(s))
    }
}

/// What `str::parse::<i64>` returns on this text.
pub open spec fn spec_parse_i64(s: Seq<char>) -> Option<int> {
    if int_text_valid(s) && i64::MIN <= int_text_val(s) <= i64::MAX {
        Some(int_text_val(s))
    } else {
        Option::None
    }
}

/// What `str::parse::<u64>` returns on this text (a `-` sign is rejected).
pub open spec fn spec_parse_u64(s: Seq<char>) -> Option<int> {
    if int_text_valid(s) && !int_negative(s) && int_text_val(s) <= u64::MAX {
        Some(int_text_val(s))
    } else {
        Option::None
    }
}

/// What `str::parse::<usize>` returns on this text.
pub open spec fn spec_parse_usize(s: Seq<char>) -> Option<int> {
    if int_text_valid(s) && !int_negative(s) && int_text_val(s) <= usize::MAX {
        Some(int_text_val(s))
    } else {
        Option::None
    }
}

/// The digit character of one digit value.
pub open spec fn digit_char(d: int) -> char
    recommends
        0 <= d <= 9,
{
    ((48 + d) as u8) as char
}

/// The decimal notation of a non-negative integer, without sign or leading
/// zeros.
pub open spec fn dec_nat(n: int) -> Seq<char>
    recommends
        n >= 0,
    decreases n,
{
    if n < 10 {
        seq![digit_char(n)]
    } else {
        dec_nat(n / 10).push(digit_char(n % 10))
    }
}

/// The decimal notation of a signed integer: sign only if negative.
pub open spec fn dec_int(n: int) -> Seq<char> {
    if n < 0 {
        seq!['-'] + dec_nat(-n)
    } else {
        dec_nat(n)
    }
}

pub proof fn lemma_digits_val_nonneg(s: Seq<char>)
    requires
        all_digits(s),
    ensures
        digits_val(s) >= 0,
    decreases s.len(),
{
    if s.len() > 0 {
        assert(all_digits(s.drop_last()));
        lemma_digits_val_nonneg(s.drop_last());
    }
}

/// One digit appended multiplies the value by ten and adds the digit.
pub proof fn lemma_digits_val_step(s: Seq<char>, k: int)
    requires
        0 <= k < s.len(),
    ensures
        digits_val(s.take(k + 1)) == digits_val(s.take(k)) * 10 + digit_val(s[k]),
{
    assert(s.take(k + 1).drop_last() =~= s.take(k));
    assert(s.take(k + 1).last() == s[k]);
}

/// The value of a digit string is at least the value of any of its prefixes.
pub proof fn lemma_digits_val_mono(s: Seq<char>, k: int)
    requires
        all_digits(s),
        0 <= k <= s.len(),
    ensures
        digits_val(s.take(k)) <= digits_val(s),
    decreases s.len() - k,
{
    if k == s.len() {
        assert(s.take(k) =~= s);
    } else {
        assert(all_digits(s.take(k)));
        lemma_digits_val_nonneg(s.take(k));
        lemma_digits_val_step(s, k);
        lemma_digits_val_mono(s, k + 1);
    }
}

/// Decimal notation consists of digits and denotes the number it was made
/// from.
pub proof fn lemma_dec_nat(n: int)
    requires
        n >= 0,
    ensures
        dec_nat(n).len() >= 1,
        all_digits(dec_nat(n)),
        digits_val(dec_nat(n)) == n,
    decreases n,
{
    if n < 10 {
        assert(48 + n == (48 + n) as u8);
        assert(((48 + n) as u8) as char as int == 48 + n);
        assert(digit_val(digit_char(n)) == n);
        assert(dec_nat(n) =~= seq![digit_char(n)]);
        assert(dec_nat(n).drop_last() =~= Seq::<char>::empty());
        assert(dec_nat(n).last() == digit_char(n));
        assert(digits_val(Seq::<char>::empty()) == 0);
        assert(digits_val(dec_nat(n)) == n);
    } else {
        lemma_dec_nat(n / 10);
        let s = dec_nat(n / 10);
        assert(48 + n % 10 == (48 + n % 10) as u8);
        assert(digit_val(digit_char(n % 10)) == n % 10);
        assert(dec_nat(n) == s.push(digit_char(n % 10)));
        assert(s.push(digit_char(n % 10)).drop_last() =~= s);
        assert(s.push(digit_char(n % 10)).last() == digit_char(n % 10));
        assert(digits_val(dec_nat(n)) == digits_val(s) * 10 + digit_val(digit_char(n % 10)));
        assert(digits_val(dec_nat(n)) == n);
        assert(forall|i: int|
            0 <= i < s.push(digit_char(n % 10)).len() ==> is_digit(
                #[trigger] s.push(digit_char(n % 10))[i],
            ));
    }
}

/// Decimal notation of a non-negative integer is well-formed unsigned
/// integer text denoting it.
pub proof fn lemma_parse_dec_unsigned(n: int)
    requires
        n >= 0,
    ensures
        int_text_valid(dec_nat(n)),
        !int_negative(dec_nat(n)),
        int_text_val(dec_nat(n)) == n,
        dec_nat(n)[0] != '-',
        dec_nat(n)[0] != '+',
{
    lemma_dec_nat(n);
    let s = dec_nat(n);
    assert(is_digit(s[0]));
    assert(int_body(s) == s);
}

/// Parsing the decimal notation of a signed 64-bit integer gives it back.
pub proof fn lemma_parse_dec_i64(n: i64)
    ensures
        spec_parse_i64(dec_int(n as int)) == Some(n as int),
{
    if n >= 0 {
        lemma_dec_nat(n as int);
        let s = dec_int(n as int);
        assert(s == dec_nat(n as int));
        assert(!(s[0] == '+' || s[0] == '-'));
        assert(int_body(s) == s);
    } else {
        lemma_dec_nat(-(n as int));
        let s = dec_int(n as int);
        assert(s == seq!['-'] + dec_nat(-(n as int)));
        assert(s[0] == '-');
        assert(s.drop_first() =~= dec_nat(-(n as int)));
    }
}

/// Sums the value of the digit text at `s[start..]`, stopping at `limit`:
/// the core of checked decimal parsing.
fn digits_to_u64(s: &str, start: usize, limit: u64) -> (r: Option<u64>)
    requires
        s.is_ascii(),
        start <= s@.len(),
    ensures
        ({
            let body = s@.skip(start as int);
            &&& (r is Some <==> body.len() > 0 && all_digits(body) && digits_val(body)
                <= limit)
            &&& (r matches Some(v) ==> v == digits_val(body))
        }),
{
    proof {
        vstd::string::is_ascii_spec_bytes(s);
    }
    let ghost body = s@.skip(start as int);
    let b = s.as_bytes();
    let n = b.len();
    if start == n {
        assert(body.len() == 0);
        return Option::None;
    }
    let mut i: usize = start;
    let mut acc: u64 = 0;
    while i < n
        invariant
            s.is_ascii(),
            b@ == s.spec_bytes(),
            b@.len() == s@.len(),
            forall|j: int| 0 <= j < s@.len() ==> b@[j] == s@[j] as u8,
            start <= i <= n,
            n == s@.len(),
            body == s@.skip(start as int),
            acc <= limit,
            all_digits(body.take(i - start)),
            acc == digits_val(body.take(i - start)),
        decreases n - i,
    {
        let d = b[i];
        assert(s@[i as int] as u8 == d);
        assert(body[i - start] == s@[i as int]);
        if d < 48 || d > 57 {
            assert(!is_digit(body[i - start]));
            return Option::None;
        }
        assert(is_digit(body[i - start]));
        let dv: u64 = (d - 48) as u64;
        assert(dv == digit_val(body[i - start]));
        proof {
            lemma_digits_val_step(body, i - start);
        }
        if acc > limit / 10 || (acc == limit / 10 && dv > limit % 10) {
            assert(digits_val(body.take(i - start + 1)) > limit);
            proof {
                if all_digits(body) {
                    lemma_digits_val_mono(body, i - start + 1);
                }
            }
            return Option::None;
        }
        assert(acc * 10 + dv <= limit);
        acc = acc * 10 + dv;
        i = i + 1;
    }
    assert(body.take(i - start) =~= body);
    Some(acc)
}

/// Whether the first character of ASCII text `s` is the given ASCII code.
fn first_byte_is(s: &str, code: u8) -> (r: bool)
    requires
        s.is_ascii(),
    ensures
        r <==> s@.len() > 0 && s@[0] as u8 == code,
{
    proof {
        vstd::string::is_ascii_spec_bytes(s);
    }
    let b = s.as_bytes();
    b.len() > 0 && b[0] == code
}

/// Returns `false` only when some character of `s` is outside ASCII, in
/// which case the text can denote no integer.
proof fn lemma_non_ascii_invalid(s: Seq<char>)
    requires
        !vstd::utf8::is_ascii_chars(s),
    ensures
        !int_text_valid(s),
{
    let i = choose|i: int| 0 <= i < s.len() && !('\0' <= #[trigger] s[i] <= '\u{7f}');
    if int_text_valid(s) {
        if s.len() > 0 && (s[0] == '+' || s[0] == '-') {
            assert(s.drop_first()[i - 1] == s[i]);
            assert(is_digit(s.drop_first()[i - 1]));
        } else {
            assert(is_digit(int_body(s)[i]));
        }
    }
}

/// What `str::parse::<i64>` does, verified: sign handling, digit check and
/// range check against the 64-bit bounds.
pub fn parse_i64(s: &str) -> (r: Option<i64>)
    ensures
        r is Some <==> spec_parse_i64(s@) is Some,
        r matches Some(v) ==> spec_parse_i64(s@) == Some(v as int),
{
    if !s.is_ascii() {
        proof {
            lemma_non_ascii_invalid(s@);
        }
        return Option::None;
    }
    let neg = first_byte_is(s, 45);
    let plus = first_byte_is(s, 43);
    let start: usize = if neg || plus {
        1
    } else {
        0
    };
    assert(s@.skip(start as int) == int_body(s@));
    let limit: u64 = if neg {
        9223372036854775808
    } else {
        9223372036854775807
    };
    proof {
        if int_text_valid(s@) {
            lemma_digits_val_nonneg(int_body(s@));
        }
    }
    match digits_to_u64(s, start, limit) {
        Some(mag) => {
            if neg {
                if mag == 9223372036854775808 {
                    Some(i64::MIN)
                } else {
                    Some(-(mag as i64))
                }
            } else {
                Some(mag as i64)
            }
        },
        Option::None => Option::None,
    }
}

/// What `str::parse::<u64>` does, verified.
pub fn parse_u64(s: &str) -> (r: Option<u64>)
    ensures
        r is Some <==> spec_parse_u64(s@) is Some,
        r matches Some(v) ==> spec_parse_u64(s@) == Some(v as int),
{
    if !s.is_ascii() {
        proof {
            lemma_non_ascii_invalid(s@);
        }
        return Option::None;
    }
    if first_byte_is(s, 45) {
        return Option::None;
    }
    let start: usize = if first_byte_is(s, 43) {
        1
    } else {
        0
    };
    assert(s@.skip(start as int) == int_body(s@));
    proof {
        if int_text_valid(s@) {
            lemma_digits_val_nonneg(int_body(s@));
        }
    }
    digits_to_u64(s, start, u64::MAX)
}

/// What `str::parse::<usize>` does, verified.
pub fn parse_usize(s: &str) -> (r: Option<usize>)
    ensures
        r is Some <==> spec_parse_usize(s@) is Some,
        r matches Some(v) ==> spec_parse_usize(s@) == Some(v as int),
{
    if !s.is_ascii() {
        proof {
            lemma_non_ascii_invalid(s@);
        }
        return Option::None;
    }
    if first_byte_is(s, 45) {
        return Option::None;
    }
    let start: usize = if first_byte_is(s, 43) {
        1
    } else {
        0
    };
    assert(s@.skip(start as int) == int_body(s@));
    proof {
        if int_text_valid(s@) {
            lemma_digits_val_nonneg(int_body(s@));
        }
    }
    match digits_to_u64(s, start, usize::MAX as u64) {
        Some(v) => Some(v as usize),
        Option::None => Option::None,
    }
}

/// The digit character of one digit value.
fn digit_char_exec(d: u8) -> (r: char)
    requires
        d <= 9,
    ensures
        r == digit_char(d as int),
{
    (48 + d) as char
}

/// Writes a non-negative integer in decimal.
pub fn u64_to_string(n: u64) -> (r: String)
    ensures
        r@ == dec_nat(n as int),
    decreases n,
{
    if n < 10 {
        let mut s = String::new();
        push_char(&mut s, digit_char_exec(n as u8));
        assert(s@ =~= seq![digit_char(n as int)]);
        s
    } else {
        let mut s = u64_to_string(n / 10);
        push_char(&mut s, digit_char_exec((n % 10) as u8));
        s
    }
}

/// Writes a signed 64-bit integer in decimal, sign only if negative.
pub fn i64_to_string(n: i64) -> (r: String)
    ensures
        r@ == dec_int(n as int),
{
    if n >= 0 {
        u64_to_string(n as u64)
    } else {
        let mag: u64 = if n == i64::MIN {
            9223372036854775808
        } else {
            (-n) as u64
        };
        let mut s = String::new();
        push_char(&mut s, '-');
        let d = u64_to_string(mag);
        s.append(d.as_str());
        assert(s@ =~= seq!['-'] + dec_nat(-(n as int)));
        s
    }
}

/// Writes a machine-word count in decimal.
pub fn usize_to_string(n: usize) -> (r: String)
    ensures
        r@ == dec_nat(n as int),
{
    u64_to_string(n as u64)
}

} // verus!
