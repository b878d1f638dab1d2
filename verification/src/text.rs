//! Small text operations on identifiers: decimal numbers read and written,
//! leading zeros dropped, a prefix cut off by bytes.

use vstd::prelude::*;
use vstd::string::*;
use vstd::utf8::*;

verus! {

/// `c` is one of the ten ASCII digits.
pub open spec fn is_digit(c: char) -> bool {
    '0' <= c <= '9'
}

/// The value of the ASCII digit `c`.
pub open spec fn digit_value(c: char) -> nat {
    (c as u32 - '0' as u32) as nat
}

/// The ASCII digit that stands for `d`.
pub open spec fn digit_char(d: nat) -> char {
    if d == 0 {
        '0'
    } else if d == 1 {
        '1'
    } else if d == 2 {
        '2'
    } else if d == 3 {
        '3'
    } else if d == 4 {
        '4'
    } else if d == 5 {
        '5'
    } else if d == 6 {
        '6'
    } else if d == 7 {
        '7'
    } else if d == 8 {
        '8'
    } else {
        '9'
    }
}

/// Every character of `s` is a digit.
pub open spec fn all_digits(s: Seq<char>) -> bool {
    forall|i: int| 0 <= i < s.len() ==> is_digit(#[trigger] s[i])
}

/// The number that a string of digits denotes in base ten; `0` for none.
pub open spec fn digits_value(s: Seq<char>) -> nat
    decreases s.len(),
{
    if s.len() == 0 {
        0
    } else {
        digits_value(s.drop_last()) * 10 + digit_value(s.last())
    }
}

/// What reading `s` as a decimal `u32` gives: an optional `+`, then one
/// digit or more and nothing else, the value within range.
pub open spec fn decimal_u32(s: Seq<char>) -> Option<u32> {
    let digits = if s.len() > 0 && s[0] == '+' {
        s.drop_first()
    } else {
        s
    };
    if digits.len() > 0 && all_digits(digits) && digits_value(digits) <= u32::MAX {
        Some(digits_value(digits) as u32)
    } else {
        None
    }
}

/// The digits of `n` in base ten, most significant first, `"0"` for zero.
pub open spec fn decimal_digits(n: nat) -> Seq<char>
    decreases n,
{
    if n < 10 {
        seq![digit_char(n)]
    } else {
        decimal_digits(n / 10).push(digit_char(n % 10))
    }
}

/// `n` in base ten, with a leading `-` when negative.
pub open spec fn signed_decimal(n: int) -> Seq<char> {
    if n < 0 {
        seq!['-'] + decimal_digits((-n) as nat)
    } else {
        decimal_digits(n as nat)
    }
}

/// `scale` is a power of ten.
pub open spec fn is_power_of_ten(scale: nat) -> bool
    decreases scale,
{
    scale == 1 || (scale >= 10 && scale % 10 == 0 && is_power_of_ten(scale / 10))
}

/// The digits of the fraction `f / (10 * scale)`, without trailing zeros;
/// none where the fraction is zero.
pub open spec fn fraction_digits(f: nat, scale: nat) -> Seq<char>
    decreases scale,
{
    if f == 0 || scale == 0 {
        Seq::empty()
    } else {
        seq![digit_char(f / scale)] + fraction_digits(f % scale, scale / 10)
    }
}

/// A count of 10⁻⁷ degrees written in degrees: the whole degrees, then,
/// where there is a fraction, a point and its digits without trailing zeros;
/// a leading `-` when negative.
pub open spec fn degrees(v: int) -> Seq<char> {
    let magnitude = if v < 0 {
        (-v) as nat
    } else {
        v as nat
    };
    let sign = if v < 0 {
        seq!['-']
    } else {
        Seq::empty()
    };
    let whole = decimal_digits(magnitude / 10_000_000);
    let fraction = magnitude % 10_000_000;
    if fraction == 0 {
        sign + whole
    } else {
        sign + whole + seq!['.'] + fraction_digits(fraction, 1_000_000)
    }
}

/// `s` without the zeros it starts with.
pub open spec fn without_leading_zeros(s: Seq<char>) -> Seq<char>
    decreases s.len(),
{
    if s.len() > 0 && s[0] == '0' {
        without_leading_zeros(s.drop_first())
    } else {
        s
    }
}

/// What [`without_leading_zeros`] leaves: the text from its first character
/// that is no zero on, or nothing where every character is a zero.
pub proof fn lemma_without_leading_zeros(s: Seq<char>) -> (k: int)
    ensures
        0 <= k <= s.len(),
        forall|i: int| 0 <= i < k ==> s[i] == '0',
        k < s.len() ==> s[k] != '0',
        without_leading_zeros(s) == s.subrange(k, s.len() as int),
    decreases s.len(),
{
    if s.len() > 0 && s[0] == '0' {
        let rest = s.drop_first();
        let k = lemma_without_leading_zeros(rest);
        assert(rest.subrange(k, rest.len() as int) == s.subrange(k + 1, s.len() as int));
        assert forall|i: int| 0 <= i < k + 1 implies s[i] == '0' by {
            if i > 0 {
                assert(rest[i - 1] == '0');
            }
        }
        if k < rest.len() {
            assert(rest[k] == s[k + 1]);
        }
        k + 1
    } else {
        assert(s.subrange(0, s.len() as int) == s);
        0
    }
}

/// Writing a number and reading it back gives the number: the digits of
/// `n` are digits, and they denote `n`.
pub proof fn lemma_decimal_digits_denote(n: nat)
    ensures
        decimal_digits(n).len() > 0,
        all_digits(decimal_digits(n)),
        digits_value(decimal_digits(n)) == n,
    decreases n,
{
    if n < 10 {
        let s = decimal_digits(n);
        assert(s.drop_last() =~= Seq::<char>::empty());
        assert(digits_value(s.drop_last()) == 0);
        assert(digit_value(digit_char(n)) == n);
    } else {
        lemma_decimal_digits_denote(n / 10);
        let head = decimal_digits(n / 10);
        let s = decimal_digits(n);
        assert(s == head.push(digit_char(n % 10)));
        assert(s.drop_last() =~= head);
        assert(digit_value(digit_char(n % 10)) == n % 10);
        assert forall|i: int| 0 <= i < s.len() implies is_digit(#[trigger] s[i]) by {
            if i < head.len() {
                assert(is_digit(head[i]));
            }
        }
    }
}

/// A number written in base ten reads as itself.
pub proof fn lemma_decimal_round_trip(n: u32)
    ensures
        decimal_u32(decimal_digits(n as nat)) == Some(n),
{
    lemma_decimal_digits_denote(n as nat);
    assert(is_digit(decimal_digits(n as nat)[0]));
}

/// The text can be cut after its first `n` bytes: it has that many, and the
/// cut falls between two characters.
pub open spec fn cuts_at(s: Seq<char>, n: int) -> bool {
    0 <= n <= encode_utf8(s).len() && is_char_boundary(encode_utf8(s), n)
}

/// The text that the first `n` bytes of `s` hold.
pub open spec fn byte_prefix(s: Seq<char>, n: int) -> Seq<char> {
    decode_utf8(encode_utf8(s).subrange(0, n))
}

/// On ASCII text bytes and characters coincide, so a prefix by bytes is a
/// prefix by characters.
pub proof fn lemma_byte_prefix_ascii(s: Seq<char>, n: int)
    requires
        is_ascii_chars(s),
        0 <= n <= s.len(),
    ensures
        cuts_at(s, n),
        byte_prefix(s, n) == s.subrange(0, n),
{
    let head = s.subrange(0, n);
    let bytes = encode_utf8(s);
    is_ascii_chars_encode_utf8(s);
    is_ascii_chars_encode_utf8(head);
    assert(bytes.subrange(0, n) =~= encode_utf8(head));
    encode_utf8_decode_utf8(head);
    encode_utf8_valid_utf8(s);
    if n == bytes.len() {
        is_char_boundary_start_end_of_seq(bytes);
    } else {
        is_char_boundary_iff_not_is_continuation_byte(bytes, n);
        assert(s[n] as u8 == bytes[n]);
        assert(!is_continuation_byte(bytes[n]));
    }
}

/// Whether two texts are the same, found by comparing their bytes.
pub fn str_eq(a: &str, b: &str) -> (r: bool)
    ensures
        r == (a@ == b@),
{
    let left = a.as_bytes();
    let right = b.as_bytes();
    proof {
        encode_utf8_decode_utf8(a@);
        encode_utf8_decode_utf8(b@);
    }
    if left.len() != right.len() {
        return false;
    }
    let mut i: usize = 0;
    while i < left.len()
        invariant
            i <= left.len(),
            left.len() == right.len(),
            left@ == encode_utf8(a@),
            right@ == encode_utf8(b@),
            forall|j: int| 0 <= j < i ==> left@[j] == right@[j],
        decreases left.len() - i,
    {
        if left[i] != right[i] {
            return false;
        }
        i += 1;
    }
    assert(left@ =~= right@);
    true
}

/// A longer string of digits denotes no less than a shorter one that it
/// starts with.
proof fn lemma_digits_value_grows(s: Seq<char>, k: int)
    requires
        0 <= k <= s.len(),
    ensures
        digits_value(s.take(k)) <= digits_value(s),
    decreases s.len() - k,
{
    if k < s.len() {
        lemma_digits_value_grows(s, k + 1);
        assert(s.take(k + 1).drop_last() == s.take(k));
        assert(digits_value(s.take(k)) <= digits_value(s.take(k + 1))) by (nonlinear_arith)
            requires
                digits_value(s.take(k + 1)) == digits_value(s.take(k)) * 10 + digit_value(
                    s.take(k + 1).last(),
                ),
        ;
    } else {
        assert(s.take(k) == s);
    }
}

/// Reads a decimal number: an optional `+`, then one digit or more and
/// nothing else, the number within the range of `u32`. Any other text gives
/// nothing.
pub fn parse_u32(s: &str) -> (r: Option<u32>)
    ensures
        r == decimal_u32(s@),
{
    let n = s.unicode_len();
    let start: usize = if n > 0 && s.get_char(0) == '+' {
        1
    } else {
        0
    };
    let ghost digits = if s@.len() > 0 && s@[0] == '+' {
        s@.drop_first()
    } else {
        s@
    };
    assert(digits == s@.subrange(start as int, n as int));
    if start == n {
        return None;
    }
    let mut value: u32 = 0;
    let mut i: usize = start;
    assert(digits.take(0) =~= Seq::<char>::empty());
    while i < n
        invariant
            start <= i <= n,
            n == s@.len(),
            digits == s@.subrange(start as int, n as int),
            digits == if s@.len() > 0 && s@[0] == '+' {
                s@.drop_first()
            } else {
                s@
            },
            all_digits(digits.take(i - start)),
            value == digits_value(digits.take(i - start)),
        decreases n - i,
    {
        let c = s.get_char(i);
        let ghost seen = digits.take(i - start);
        let ghost more = digits.take(i - start + 1);
        assert(more.drop_last() == seen);
        assert(more.last() == c);
        assert(digits[i - start] == c);
        let code = c as u32;
        assert('0' as u32 == 48 && '9' as u32 == 57);
        if code < 48 || code > 57 {
            assert(!is_digit(digits[i - start]));
            return None;
        }
        let next: u64 = value as u64 * 10 + (code - 48) as u64;
        if next > u32::MAX as u64 {
            proof {
                lemma_digits_value_grows(digits, i - start + 1);
            }
            return None;
        }
        value = next as u32;
        assert forall|j: int| 0 <= j < more.len() implies is_digit(#[trigger] more[j]) by {
            if j < seen.len() {
                assert(is_digit(seen[j]));
            }
        }
        i += 1;
    }
    assert(digits.take(n - start) == digits);
    Some(value)
}

/// Drops the zeros that `s` starts with.
pub fn strip_leading_zeros(s: &str) -> (r: &str)
    ensures
        r@ == without_leading_zeros(s@),
{
    let n = s.unicode_len();
    let mut k: usize = 0;
    assert(s@.subrange(0, n as int) == s@);
    while k < n && s.get_char(k) == '0'
        invariant
            k <= n,
            n == s@.len(),
            without_leading_zeros(s@) == without_leading_zeros(s@.subrange(k as int, n as int)),
        decreases n - k,
    {
        assert(s@.subrange(k as int, n as int).drop_first() == s@.subrange(k as int + 1, n as int));
        k += 1;
    }
    s.substring_char(k, n)
}

/// The first `n` bytes of `s`, or nothing where `s` cannot be cut there.
pub fn prefix_bytes(s: &str, n: usize) -> (r: Option<&str>)
    ensures
        match r {
            Some(p) => cuts_at(s@, n as int) && p@ == byte_prefix(s@, n as int),
            None => !cuts_at(s@, n as int),
        },
{
    if n <= s.as_bytes().len() && s.is_char_boundary(n) {
        let parts = s.split_at(n);
        let head = parts.0;
        proof {
            encode_utf8_decode_utf8(head@);
            assert(head.spec_bytes() == encode_utf8(s@).subrange(0, n as int));
        }
        Some(head)
    } else {
        None
    }
}

/// The one-character text of a digit.
fn digit_str(d: u64) -> (r: &'static str)
    requires
        d < 10,
    ensures
        r@ == seq![digit_char(d as nat)],
{
    proof {
        reveal_strlit("0");
        reveal_strlit("1");
        reveal_strlit("2");
        reveal_strlit("3");
        reveal_strlit("4");
        reveal_strlit("5");
        reveal_strlit("6");
        reveal_strlit("7");
        reveal_strlit("8");
        reveal_strlit("9");
    }
    let r = if d == 0 {
        "0"
    } else if d == 1 {
        "1"
    } else if d == 2 {
        "2"
    } else if d == 3 {
        "3"
    } else if d == 4 {
        "4"
    } else if d == 5 {
        "5"
    } else if d == 6 {
        "6"
    } else if d == 7 {
        "7"
    } else if d == 8 {
        "8"
    } else {
        "9"
    };
    assert(r@ =~= seq![digit_char(d as nat)]);
    r
}

/// Appends the decimal digits of `n` to `out`.
pub fn push_decimal(out: &mut String, n: u64)
    ensures
        final(out)@ == old(out)@ + decimal_digits(n as nat),
    decreases n,
{
    if n >= 10 {
        push_decimal(out, n / 10);
    }
    out.append(digit_str(n % 10));
    assert(final(out)@ =~= old(out)@ + decimal_digits(n as nat));
}

/// Appends `n` in base ten to `out`, with a leading `-` when negative.
pub fn push_signed_decimal(out: &mut String, n: i64)
    ensures
        final(out)@ == old(out)@ + signed_decimal(n as int),
{
    if n < 0 {
        proof {
            reveal_strlit("-");
        }
        out.append("-");
        let magnitude: u64 = (-(n + 1)) as u64 + 1;
        push_decimal(out, magnitude);
        assert(final(out)@ =~= old(out)@ + signed_decimal(n as int));
    } else {
        push_decimal(out, n as u64);
    }
}

/// Appends the digits of the fraction `f / (10 * scale)` to `out`, without
/// trailing zeros.
fn push_fraction(out: &mut String, f: u64, scale: u64)
    requires
        is_power_of_ten(scale as nat),
        f < 10 * scale,
    ensures
        final(out)@ == old(out)@ + fraction_digits(f as nat, scale as nat),
    decreases scale,
{
    if f != 0 {
        assert(f / scale < 10 && f % scale < scale) by (nonlinear_arith)
            requires
                f < 10 * scale,
                scale > 0,
        ;
        out.append(digit_str(f / scale));
        let rest = f % scale;
        if scale >= 10 {
            push_fraction(out, rest, scale / 10);
        } else {
            assert(fraction_digits(rest as nat, (scale / 10) as nat) =~= Seq::<char>::empty());
        }
        assert(fraction_digits(f as nat, scale as nat) == seq![digit_char((f / scale) as nat)]
            + fraction_digits(rest as nat, (scale / 10) as nat));
        assert(final(out)@ =~= old(out)@ + fraction_digits(f as nat, scale as nat));
    } else {
        assert(final(out)@ =~= old(out)@ + fraction_digits(f as nat, scale as nat));
    }
}

/// Appends a count of 10⁻⁷ degrees to `out`, written in degrees.
pub fn push_degrees(out: &mut String, v: i32)
    ensures
        final(out)@ == old(out)@ + degrees(v as int),
{
    let magnitude: u64 = if v < 0 {
        (-(v as i64)) as u64
    } else {
        v as u64
    };
    if v < 0 {
        proof {
            reveal_strlit("-");
        }
        out.append("-");
    }
    push_decimal(out, magnitude / 10_000_000);
    let fraction = magnitude % 10_000_000;
    if fraction != 0 {
        proof {
            reveal_strlit(".");
            reveal_with_fuel(is_power_of_ten, 8);
        }
        out.append(".");
        push_fraction(out, fraction, 1_000_000);
    }
    assert(final(out)@ =~= old(out)@ + degrees(v as int));
}

} // verus!
