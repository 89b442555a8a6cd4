use vstd::prelude::*;

use crate::text::{lemma_lex_concat, lemma_lex_irreflexive, lex_lt};

verus! {

// ---------------------------------------------------------------------------
// Decimal digits
// ---------------------------------------------------------------------------

pub open spec fn is_ascii_digit(c: char) -> bool {
    '0' <= c && c <= '9'
}

pub open spec fn digit_value(c: char) -> int {
    (c as int) - ('0' as int)
}

pub open spec fn all_ascii_digits(s: Seq<char>) -> bool {
    forall|i: int| 0 <= i < s.len() ==> is_ascii_digit(#[trigger] s[i])
}

/// The number that the decimal digits `s` spell, most significant first.
pub open spec fn digits_value(s: Seq<char>) -> int
    decreases s.len(),
{
    if s.len() == 0 {
        0
    } else {
        digits_value(s.drop_last()) * 10 + digit_value(s.last())
    }
}

/// The character of the decimal digit `d` (0..=9).
pub open spec fn digit_char(d: int) -> char {
    ((d + ('0' as int)) as u32) as char
}

/// Decimal notation of `n`, without leading zeros (`"0"` for zero).
pub open spec fn decimal(n: nat) -> Seq<char>
    decreases n,
{
    if n < 10 {
        seq![digit_char(n as int)]
    } else {
        decimal(n / 10).push(digit_char((n % 10) as int))
    }
}

/// `s` left-padded with `'0'` to at least `width` characters.
pub open spec fn zero_pad(s: Seq<char>, width: int) -> Seq<char> {
    Seq::new(if width > s.len() { (width - s.len()) as nat } else { 0 }, |i: int| '0') + s
}

/// `n` in decimal, zero-padded to `width` characters with the sign counted
/// in the width (what `format!("{:0width$}", n)` prints).
pub open spec fn padded_decimal(n: int, width: int) -> Seq<char> {
    if n < 0 {
        seq!['-'] + zero_pad(decimal((-n) as nat), width - 1)
    } else {
        zero_pad(decimal(n as nat), width)
    }
}

// ---------------------------------------------------------------------------
// Parsing, as std's `FromStr` for `u64` and `i64` documents it: an optional
// sign (`+`, or `-` for signed types) followed by one or more ASCII digits,
// nothing else, and a value within the type's range.
// ---------------------------------------------------------------------------

pub open spec fn unsigned_body(s: Seq<char>) -> Seq<char> {
    if s.len() > 0 && s[0] == '+' { s.drop_first() } else { s }
}

pub open spec fn spec_parse_u64(s: Seq<char>) -> Option<u64> {
    let body = unsigned_body(s);
    if body.len() > 0 && all_ascii_digits(body) && digits_value(body) <= u64::MAX {
        Some(digits_value(body) as u64)
    } else {
        None
    }
}

pub open spec fn spec_parse_i64(s: Seq<char>) -> Option<i64> {
    if s.len() > 0 && s[0] == '-' {
        let body = s.drop_first();
        if body.len() > 0 && all_ascii_digits(body) && -digits_value(body) >= i64::MIN {
            Some((-digits_value(body)) as i64)
        } else {
            None
        }
    } else {
        let body = unsigned_body(s);
        if body.len() > 0 && all_ascii_digits(body) && digits_value(body) <= i64::MAX {
            Some(digits_value(body) as i64)
        } else {
            None
        }
    }
}

proof fn lemma_digits_value_nonneg(s: Seq<char>)
    requires
        all_ascii_digits(s),
    ensures
        digits_value(s) >= 0,
    decreases s.len(),
{
    if s.len() > 0 {
        lemma_digits_value_nonneg(s.drop_last());
    }
}

/// Reads the run of ASCII digits `v[start..]`; `None` when one is not a digit
/// or the value exceeds `u64::MAX`.
fn digits_to_u64(v: &Vec<char>, start: usize) -> (r: Option<u64>)
    requires
        start <= v.len(),
    ensures
        r == (if all_ascii_digits(v@.skip(start as int)) && digits_value(v@.skip(start as int))
            <= u64::MAX {
            Some(digits_value(v@.skip(start as int)) as u64)
        } else {
            None::<u64>
        }),
        r matches Some(n) ==> n as int == digits_value(v@.skip(start as int)),
{
    let mut acc: u64 = 0;
    let mut i: usize = start;
    while i < v.len()
        invariant
            start <= i <= v.len(),
            all_ascii_digits(v@.subrange(start as int, i as int)),
            acc as int == digits_value(v@.subrange(start as int, i as int)),
        decreases v.len() - i,
    {
        let c = v[i];
        assert(v@.subrange(start as int, i + 1).drop_last() =~= v@.subrange(start as int, i as int));
        if !('0' <= c && c <= '9') {
            assert(!all_ascii_digits(v@.skip(start as int))) by {
                assert(v@.skip(start as int)[i - start] == c);
            }
            return None;
        }
        let d = (c as u32 - '0' as u32) as u64;
        assert(all_ascii_digits(v@.subrange(start as int, i + 1)));
        if acc > (u64::MAX - d) / 10 {
            proof {
                let rest = v@.skip(start as int);
                lemma_prefix_value_bound(rest, (i + 1 - start) as int);
                assert(rest.subrange(0, i + 1 - start) =~= v@.subrange(start as int, i + 1));
            }
            return None;
        }
        acc = acc * 10 + d;
        i = i + 1;
    }
    assert(v@.subrange(start as int, v.len() as int) =~= v@.skip(start as int));
    proof {
        lemma_digits_value_nonneg(v@.skip(start as int));
    }
    Some(acc)
}

/// A digit string's value is at least the value of any of its prefixes.
proof fn lemma_prefix_value_bound(s: Seq<char>, k: int)
    requires
        0 <= k <= s.len(),
        all_ascii_digits(s.subrange(0, k)),
    ensures
        all_ascii_digits(s) ==> digits_value(s.subrange(0, k)) <= digits_value(s),
    decreases s.len() - k,
{
    if k < s.len() && all_ascii_digits(s) {
        assert(all_ascii_digits(s.subrange(0, k + 1)));
        lemma_prefix_value_bound(s, k + 1);
        assert(s.subrange(0, k + 1).drop_last() =~= s.subrange(0, k));
        lemma_digits_value_nonneg(s.subrange(0, k));
    } else if k == s.len() {
        assert(s.subrange(0, k) =~= s);
    }
}

/// Parses `s` as `u64` the way `str::parse::<u64>` does.
pub fn parse_u64(s: &str) -> (r: Option<u64>)
    ensures
        r == spec_parse_u64(s@),
{
    parse_u64_chars(&crate::text::chars_of(s))
}

/// Parses `s` as `i64` the way `str::parse::<i64>` does.
pub fn parse_i64(s: &str) -> (r: Option<i64>)
    ensures
        r == spec_parse_i64(s@),
{
    parse_i64_chars(&crate::text::chars_of(s))
}

/// `parse_u64` over the characters of a string.
pub fn parse_u64_chars(v: &Vec<char>) -> (r: Option<u64>)
    ensures
        r == spec_parse_u64(v@),
{
    let ghost s = v@;
    let start: usize = if v.len() > 0 && v[0] == '+' { 1 } else { 0 };
    assert(v@.skip(start as int) =~= unsigned_body(s));
    if start >= v.len() {
        return None;
    }
    digits_to_u64(v, start)
}

/// `parse_i64` over the characters of a string.
pub fn parse_i64_chars(v: &Vec<char>) -> (r: Option<i64>)
    ensures
        r == spec_parse_i64(v@),
{
    let ghost s = v@;
    if v.len() > 0 && v[0] == '-' {
        assert(v@.skip(1) =~= s.drop_first());
        if v.len() == 1 {
            return None;
        }
        match digits_to_u64(v, 1) {
            Some(mag) => {
                assert(mag as int == digits_value(s.drop_first()));
                if mag <= 9223372036854775807 {
                    Some(-(mag as i64))
                } else if mag == 9223372036854775808 {
                    Some(i64::MIN)
                } else {
                    None
                }
            },
            None => {
                proof {
                    if all_ascii_digits(s.drop_first()) {
                        lemma_digits_value_nonneg(s.drop_first());
                    }
                }
                None
            },
        }
    } else {
        let start: usize = if v.len() > 0 && v[0] == '+' { 1 } else { 0 };
        assert(v@.skip(start as int) =~= unsigned_body(s));
        if start >= v.len() {
            return None;
        }
        match digits_to_u64(v, start) {
            Some(n) => {
                if n <= 9223372036854775807 {
                    Some(n as i64)
                } else {
                    None
                }
            },
            None => None,
        }
    }
}

/// The character of the digit `d`.
pub fn digit_to_char(d: u64) -> (c: char)
    requires
        d < 10,
    ensures
        c == digit_char(d as int),
{
    let c = ((d as u32) + ('0' as u32)) as u8 as char;
    c
}

/// Appends the decimal notation of `n` to `out`.
pub fn push_decimal(out: &mut String, n: u64)
    ensures
        final(out)@ == old(out)@ + decimal(n as nat),
    decreases n,
{
    if n >= 10 {
        push_decimal(out, n / 10);
    }
    crate::text::push_char(out, digit_to_char(n % 10));
    proof {
        if n < 10 {
            assert(n % 10 == n);
        }
    }
}

/// Appends `n` zero-padded to `width` characters, the sign counted in the width.
pub fn push_padded(out: &mut String, n: i64, width: u64)
    requires
        n > i64::MIN,
        width <= 64,
    ensures
        final(out)@ == old(out)@ + padded_decimal(n as int, width as int),
{
    let ghost start = out@;
    let (mag, w): (u64, u64) = if n < 0 {
        crate::text::push_char(out, '-');
        ((-n) as u64, if width > 0 { width - 1 } else { 0 })
    } else {
        (n as u64, width)
    };
    let len = decimal_len(mag);
    let mut k: u64 = len;
    let ghost mid = out@;
    while k < w
        invariant
            len <= k <= w || (w < len && k == len),
            out@ == mid + Seq::new((k - len) as nat, |i: int| '0'),
        decreases w - k,
    {
        crate::text::push_char(out, '0');
        k = k + 1;
        assert(out@ =~= mid + Seq::new((k - len) as nat, |i: int| '0'));
    }
    push_decimal(out, mag);
    proof {
        let zeros = Seq::new((k - len) as nat, |i: int| '0');
        if n < 0 {
            assert(zero_pad(decimal(mag as nat), width - 1) =~= zeros + decimal(mag as nat));
            assert(out@ =~= start + padded_decimal(n as int, width as int));
        } else {
            assert(zero_pad(decimal(mag as nat), width as int) =~= zeros + decimal(mag as nat));
            assert(out@ =~= start + padded_decimal(n as int, width as int));
        }
    }
}

/// Number of decimal digits of `n`.
pub fn decimal_len(n: u64) -> (r: u64)
    ensures
        r == decimal(n as nat).len(),
        1 <= r <= 20,
    decreases n,
{
    if n < 10 {
        1
    } else {
        let r = decimal_len(n / 10);
        proof {
            lemma_decimal_len_bound(n as nat);
        }
        r + 1
    }
}

pub proof fn lemma_decimal_len_bound(n: nat)
    requires
        n <= u64::MAX,
    ensures
        1 <= decimal(n).len() <= 20,
{
    assert(pow10(20) == 100000000000000000000nat) by {
        reveal_with_fuel(pow10, 21);
    }
    lemma_decimal_len_pow(n, 20);
    reveal_with_fuel(decimal, 1);
}

pub open spec fn pow10(k: nat) -> nat
    decreases k,
{
    if k == 0 { 1 } else { 10 * pow10((k - 1) as nat) }
}

proof fn lemma_decimal_len_pow(n: nat, k: nat)
    requires
        n < pow10(k),
        k >= 1,
    ensures
        decimal(n).len() <= k,
    decreases k,
{
    if n >= 10 {
        assert(k >= 2) by {
            if k == 1 {
                assert(pow10(1) == 10) by {
                    reveal_with_fuel(pow10, 2);
                }
            }
        }
        assert(n / 10 < pow10((k - 1) as nat));
        lemma_decimal_len_pow(n / 10, (k - 1) as nat);
    }
}

// ---------------------------------------------------------------------------
// Reading back what was written
// ---------------------------------------------------------------------------

proof fn lemma_digit_char(k: int)
    requires
        0 <= k <= 9,
    ensures
        is_ascii_digit(digit_char(k)),
        digit_value(digit_char(k)) == k,
{
    assert(((k + ('0' as int)) as u32) as int == k + 48);
}

/// The decimal notation of `n` is made of digits that spell `n`.
pub proof fn lemma_decimal_digits(n: nat)
    ensures
        all_ascii_digits(decimal(n)),
        digits_value(decimal(n)) == n,
        decimal(n).len() >= 1,
    decreases n,
{
    if n < 10 {
        lemma_digit_char(n as int);
        assert(decimal(n).drop_last() =~= Seq::<char>::empty());
        assert(digits_value(Seq::<char>::empty()) == 0);
        assert(decimal(n).last() == digit_char(n as int));
    } else {
        lemma_decimal_digits(n / 10);
        lemma_digit_char((n % 10) as int);
        let s = decimal(n);
        assert(s.drop_last() =~= decimal(n / 10));
        assert(s.last() == digit_char((n % 10) as int));
        assert((n / 10) * 10 + n % 10 == n);
        assert(all_ascii_digits(s)) by {
            assert forall|i: int| 0 <= i < s.len() implies is_ascii_digit(#[trigger] s[i]) by {
                if i < s.len() - 1 {
                    assert(s[i] == decimal(n / 10)[i]);
                }
            }
        }
    }
}

/// Leading zeros change neither the digit-ness nor the value of a digit string.
proof fn lemma_leading_zeros(z: Seq<char>, s: Seq<char>)
    requires
        forall|i: int| 0 <= i < z.len() ==> z[i] == '0',
        all_ascii_digits(s),
    ensures
        all_ascii_digits(z + s),
        digits_value(z + s) == digits_value(s),
    decreases s.len() + z.len(),
{
    let t = z + s;
    assert(all_ascii_digits(t)) by {
        assert forall|i: int| 0 <= i < t.len() implies is_ascii_digit(#[trigger] t[i]) by {
            if i < z.len() {
                assert(t[i] == z[i]);
            } else {
                assert(t[i] == s[i - z.len()]);
            }
        }
    }
    if s.len() > 0 {
        assert(t.drop_last() =~= z + s.drop_last());
        assert(all_ascii_digits(s.drop_last())) by {
            assert forall|i: int| 0 <= i < s.drop_last().len() implies is_ascii_digit(#[trigger] s.drop_last()[i]) by {
                assert(s.drop_last()[i] == s[i]);
            }
        }
        lemma_leading_zeros(z, s.drop_last());
    } else if z.len() > 0 {
        assert(t =~= z);
        assert(z.drop_last() + s =~= z.drop_last());
        lemma_leading_zeros(z.drop_last(), s);
        lemma_digit_char(0);
    } else {
        assert(t =~= Seq::<char>::empty());
    }
}

/// `str::parse::<i64>` reads a zero-padded decimal back as its number.
pub proof fn lemma_parse_padded(n: int, width: int)
    requires
        0 <= n <= i64::MAX,
    ensures
        spec_parse_i64(padded_decimal(n, width)) == Some(n as i64),
        all_ascii_digits(padded_decimal(n, width)),
{
    let dec = decimal(n as nat);
    lemma_decimal_digits(n as nat);
    let k: nat = if width > dec.len() { (width - dec.len()) as nat } else { 0 };
    let z = Seq::new(k, |i: int| '0');
    lemma_leading_zeros(z, dec);
    let t = padded_decimal(n, width);
    assert(t =~= z + dec);
    assert(is_ascii_digit(t[0]));
    assert(unsigned_body(t) == t);
}

// ---------------------------------------------------------------------------
// Fixed-width decimals sort as their numbers
// ---------------------------------------------------------------------------

/// The last `w` decimal digits of `n`, most significant first.
pub open spec fn fixed_digits(n: nat, w: nat) -> Seq<char>
    decreases w,
{
    if w == 0 {
        Seq::empty()
    } else {
        fixed_digits(n / 10, (w - 1) as nat).push(digit_char((n % 10) as int))
    }
}

proof fn lemma_fixed_zero(w: nat)
    ensures
        fixed_digits(0, w) == Seq::new(w, |i: int| '0'),
    decreases w,
{
    if w > 0 {
        lemma_fixed_zero((w - 1) as nat);
        assert(digit_char(0) == '0') by {
            lemma_digit_char(0);
        }
        assert(fixed_digits(0, w) =~= Seq::new(w, |i: int| '0'));
    }
}

/// A number below `10^w`, zero-padded to `w` characters, is its last `w` digits.
pub proof fn lemma_zero_pad_fixed(n: nat, w: nat)
    requires
        w >= 1,
        n < pow10(w),
    ensures
        zero_pad(decimal(n), w as int) == fixed_digits(n, w),
        fixed_digits(n, w).len() == w,
    decreases w,
{
    lemma_fixed_len(n, w);
    lemma_decimal_len_pow(n, w);
    if n < 10 {
        lemma_fixed_zero((w - 1) as nat);
        assert(n / 10 == 0 && n % 10 == n);
        assert(zero_pad(decimal(n), w as int) =~= fixed_digits(n, w));
    } else {
        assert(w >= 2) by {
            if w == 1 {
                assert(pow10(1) == 10) by {
                    reveal_with_fuel(pow10, 2);
                }
            }
        }
        assert(n / 10 < pow10((w - 1) as nat));
        lemma_zero_pad_fixed(n / 10, (w - 1) as nat);
        lemma_decimal_len_pow(n / 10, (w - 1) as nat);
        assert(zero_pad(decimal(n), w as int) =~= zero_pad(decimal(n / 10), w - 1).push(digit_char((n % 10) as int)));
    }
}

proof fn lemma_fixed_len(n: nat, w: nat)
    ensures
        fixed_digits(n, w).len() == w,
    decreases w,
{
    if w > 0 {
        lemma_fixed_len(n / 10, (w - 1) as nat);
    }
}

/// Numbers below `10^w` written with `w` digits sort as the numbers do.
pub proof fn lemma_fixed_order(a: nat, b: nat, w: nat)
    requires
        a < pow10(w),
        b < pow10(w),
    ensures
        lex_lt(fixed_digits(a, w), fixed_digits(b, w)) == (a < b),
        (fixed_digits(a, w) == fixed_digits(b, w)) == (a == b),
    decreases w,
{
    if w == 0 {
        assert(pow10(0) == 1);
    } else {
        let w1 = (w - 1) as nat;
        assert(a / 10 < pow10(w1) && b / 10 < pow10(w1));
        lemma_fixed_order(a / 10, b / 10, w1);
        lemma_fixed_len(a / 10, w1);
        lemma_fixed_len(b / 10, w1);
        let da = digit_char((a % 10) as int);
        let db = digit_char((b % 10) as int);
        lemma_digit_char((a % 10) as int);
        lemma_digit_char((b % 10) as int);
        lemma_lex_concat(fixed_digits(a / 10, w1), seq![da], fixed_digits(b / 10, w1), seq![db]);
        assert(fixed_digits(a, w) =~= fixed_digits(a / 10, w1) + seq![da]);
        assert(fixed_digits(b, w) =~= fixed_digits(b / 10, w1) + seq![db]);
        assert(lex_lt(seq![da], seq![db]) == (a % 10 < b % 10)) by {
            reveal_with_fuel(lex_lt, 2);
            assert(seq![da].drop_first() =~= Seq::<char>::empty());
            assert(seq![db].drop_first() =~= Seq::<char>::empty());
            assert(seq![da][0] == da && seq![db][0] == db);
            assert((da as int) == a % 10 + 48 && (db as int) == b % 10 + 48);
        }
        assert((a < b) == (a / 10 < b / 10 || (a / 10 == b / 10 && a % 10 < b % 10)));
        if fixed_digits(a, w) == fixed_digits(b, w) {
            lemma_lex_irreflexive(fixed_digits(a, w));
            assert(fixed_digits(a, w).last() == da);
            assert(fixed_digits(b, w).last() == db);
            assert(fixed_digits(a, w).drop_last() =~= fixed_digits(a / 10, w1));
            assert(fixed_digits(b, w).drop_last() =~= fixed_digits(b / 10, w1));
            assert(a % 10 == b % 10);
        }
    }
}

} // verus!
