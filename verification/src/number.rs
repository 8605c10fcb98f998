//! Integer parsing over the bytes of a string, as `u32::from_str` and
//! `i64::from_str_radix` read them: an optional sign, then at least one digit.
use vstd::prelude::*;

verus! {

/// The value of an ASCII digit or letter in bases up to 36; 36 for any other byte.
pub open spec fn digit_value(b: u8) -> int {
    if 48 <= b <= 57 {
        b - 48
    } else if 97 <= b <= 122 {
        b - 87
    } else if 65 <= b <= 90 {
        b - 55
    } else {
        36
    }
}

/// Every byte of `s` is a digit in base `radix`.
pub open spec fn all_digits(s: Seq<u8>, radix: int) -> bool {
    forall|i: int| 0 <= i < s.len() ==> digit_value(#[trigger] s[i]) < radix
}

/// The number that the digits of `s` denote in base `radix`, most significant first.
pub open spec fn digits_value(s: Seq<u8>, radix: int) -> int
    decreases s.len(),
{
    if s.len() == 0 {
        0
    } else {
        digits_value(s.drop_last(), radix) * radix + digit_value(s.last())
    }
}

/// What `u32::from_str` gives for these bytes: an optional `+`, then decimal digits.
pub open spec fn spec_parse_u32(s: Seq<u8>) -> Option<u32> {
    if s.len() == 0 {
        None
    } else {
        let d = if s[0] == 43u8 { s.drop_first() } else { s };
        if d.len() == 0 || !all_digits(d, 10) || digits_value(d, 10) > u32::MAX {
            None
        } else {
            Some(digits_value(d, 10) as u32)
        }
    }
}

/// What `i64::from_str_radix(_, radix)` gives for these bytes: an optional `+` or `-`,
/// then digits, the value in range.
pub open spec fn spec_parse_i64(s: Seq<u8>, radix: int) -> Option<i64> {
    if s.len() == 0 {
        None
    } else {
        let d = if s[0] == 43u8 || s[0] == 45u8 { s.drop_first() } else { s };
        let v = if s[0] == 45u8 { -digits_value(d, radix) } else { digits_value(d, radix) };
        if d.len() == 0 || !all_digits(d, radix) || v < i64::MIN || v > i64::MAX {
            None
        } else {
            Some(v as i64)
        }
    }
}

proof fn lemma_digits_value_nonneg(s: Seq<u8>, radix: int)
    requires
        radix >= 1,
    ensures
        digits_value(s, radix) >= 0,
    decreases s.len(),
{
    if s.len() > 0 {
        lemma_digits_value_nonneg(s.drop_last(), radix);
        let p = digits_value(s.drop_last(), radix);
        assert(p * radix >= 0) by (nonlinear_arith)
            requires
                p >= 0,
                radix >= 1,
        ;
    }
}

/// A longer digit string denotes at least as much as any of its prefixes.
proof fn lemma_digits_value_prefix(s: Seq<u8>, k: int, radix: int)
    requires
        radix >= 1,
        0 <= k <= s.len(),
    ensures
        digits_value(s.subrange(0, k), radix) <= digits_value(s, radix),
    decreases s.len(),
{
    if k < s.len() {
        lemma_digits_value_prefix(s.drop_last(), k, radix);
        assert(s.drop_last().subrange(0, k) =~= s.subrange(0, k));
        lemma_digits_value_nonneg(s.drop_last(), radix);
        let p = digits_value(s.drop_last(), radix);
        assert(p <= p * radix) by (nonlinear_arith)
            requires
                p >= 0,
                radix >= 1,
        ;
    } else {
        assert(s.subrange(0, k) =~= s);
    }
}

/// The digits of `s[from..]` in base `radix` when they all are digits and denote
/// at most `bound`; `None` otherwise.
fn parse_digits(s: &[u8], from: usize, radix: u8, bound: u64) -> (r: Option<u64>)
    requires
        from <= s@.len(),
        radix == 10 || radix == 16,
    ensures
        match r {
            Some(v) => all_digits(s@.subrange(from as int, s@.len() as int), radix as int)
                && v == digits_value(s@.subrange(from as int, s@.len() as int), radix as int)
                && v <= bound,
            None => !all_digits(s@.subrange(from as int, s@.len() as int), radix as int)
                || digits_value(s@.subrange(from as int, s@.len() as int), radix as int) > bound,
        },
{
    let n = s.len();
    let mut acc: u64 = 0;
    let mut i: usize = from;
    assert(s@.subrange(from as int, from as int) =~= Seq::<u8>::empty());
    while i < n
        invariant
            n == s@.len(),
            from <= i <= n,
            radix == 10 || radix == 16,
            all_digits(s@.subrange(from as int, i as int), radix as int),
            acc == digits_value(s@.subrange(from as int, i as int), radix as int),
            acc <= bound,
        decreases n - i,
    {
        let b = s[i];
        let d: u8 = if 48 <= b && b <= 57 {
            b - 48
        } else if 97 <= b && b <= 122 {
            b - 87
        } else if 65 <= b && b <= 90 {
            b - 55
        } else {
            36
        };
        let ghost full = s@.subrange(from as int, n as int);
        let ghost pre = s@.subrange(from as int, i + 1);
        assert(full.subrange(0, i + 1 - from) =~= pre);
        assert(pre.drop_last() =~= s@.subrange(from as int, i as int));
        if d >= radix {
            assert(full[i - from] == b);
            return None;
        }
        let a: u128 = acc as u128;
        let r: u128 = radix as u128;
        assert(a * r <= 0xffff_ffff_ffff_ffffu128 * 16) by (nonlinear_arith)
            requires
                a <= 0xffff_ffff_ffff_ffffu128,
                r <= 16,
        ;
        let next: u128 = a * r + (d as u128);
        if next > bound as u128 {
            proof {
                if all_digits(full, radix as int) {
                    lemma_digits_value_prefix(full, i + 1 - from, radix as int);
                }
            }
            return None;
        }
        acc = next as u64;
        i = i + 1;
        assert forall|j: int| 0 <= j < i - from implies digit_value(
            #[trigger] s@.subrange(from as int, i as int)[j],
        ) < radix as int by {
            if j < i - 1 - from {
                assert(s@.subrange(from as int, i as int)[j] == s@.subrange(from as int, i - 1)[j]);
            }
        }
    }
    Some(acc)
}

/// `u32::from_str` on the bytes of a string.
pub fn parse_u32(s: &[u8]) -> (r: Option<u32>)
    ensures
        r == spec_parse_u32(s@),
{
    if s.len() == 0 {
        return None;
    }
    let from: usize = if s[0] == 43 { 1 } else { 0 };
    if from == 1 {
        assert(s@.subrange(1, s@.len() as int) =~= s@.drop_first());
    } else {
        assert(s@.subrange(0, s@.len() as int) =~= s@);
    }
    if from == s.len() {
        return None;
    }
    match parse_digits(s, from, 10, 0xffff_ffff) {
        Some(v) => Some(v as u32),
        None => None,
    }
}

/// `i64::from_str_radix(s[from..], radix)` on the bytes of a string.
pub fn parse_i64(s: &[u8], from: usize, radix: u8) -> (r: Option<i64>)
    requires
        from <= s@.len(),
        radix == 10 || radix == 16,
    ensures
        r == spec_parse_i64(s@.subrange(from as int, s@.len() as int), radix as int),
{
    let ghost t = s@.subrange(from as int, s@.len() as int);
    if from == s.len() {
        return None;
    }
    let signed = s[from] == 43 || s[from] == 45;
    let neg = s[from] == 45;
    let start: usize = if signed { from + 1 } else { from };
    let ghost d = if signed { t.drop_first() } else { t };
    assert(d =~= s@.subrange(start as int, s@.len() as int));
    if start == s.len() {
        return None;
    }
    let bound: u64 = if neg { 0x8000_0000_0000_0000 } else { 0x7fff_ffff_ffff_ffff };
    match parse_digits(s, start, radix, bound) {
        Some(m) => {
            if neg {
                if m == 0x8000_0000_0000_0000 {
                    Some(i64::MIN)
                } else {
                    Some(-(m as i64))
                }
            } else {
                Some(m as i64)
            }
        },
        None => None,
    }
}

/// The digit character for `d` (0 to 15), lower-case for 10 to 15.
pub open spec fn digit_char(d: int) -> char {
    if d == 0 { '0' } else if d == 1 { '1' } else if d == 2 { '2' } else if d == 3 { '3' }
    else if d == 4 { '4' } else if d == 5 { '5' } else if d == 6 { '6' } else if d == 7 { '7' }
    else if d == 8 { '8' } else if d == 9 { '9' } else if d == 10 { 'a' } else if d == 11 { 'b' }
    else if d == 12 { 'c' } else if d == 13 { 'd' } else if d == 14 { 'e' } else { 'f' }
}

/// `n` written in decimal, as `format!("{}", n)` writes it.
pub open spec fn decimal_digits(n: nat) -> Seq<char>
    decreases n,
{
    if n < 10 {
        seq![digit_char(n as int)]
    } else {
        decimal_digits(n / 10).push(digit_char((n % 10) as int))
    }
}

/// `n` written in lower-case hexadecimal, as `format!("{:x}", n)` writes it.
pub open spec fn hex_digits(n: nat) -> Seq<char>
    decreases n,
{
    if n < 16 {
        seq![digit_char(n as int)]
    } else {
        hex_digits(n / 16).push(digit_char((n % 16) as int))
    }
}

/// The bytes of characters that are all ASCII.
pub open spec fn ascii_bytes(s: Seq<char>) -> Seq<u8> {
    s.map_values(|c: char| c as u8)
}

/// A character that names a digit: an ASCII digit or lower-case letter.
pub open spec fn is_digit_char(c: char) -> bool {
    ('0' <= c <= '9') || ('a' <= c <= 'f')
}

proof fn lemma_digit_char(d: int)
    requires
        0 <= d < 16,
    ensures
        is_digit_char(digit_char(d)),
        digit_value(digit_char(d) as u8) == d,
        d < 10 ==> 48 <= digit_char(d) as u8 <= 57,
{
}

proof fn lemma_ascii_bytes_push(s: Seq<char>, c: char)
    ensures
        ascii_bytes(s.push(c)) == ascii_bytes(s).push(c as u8),
{
    assert(ascii_bytes(s.push(c)) =~= ascii_bytes(s).push(c as u8));
}

/// Decimal digits read back as the number they write.
pub proof fn lemma_decimal_digits(n: nat)
    ensures
        decimal_digits(n).len() >= 1,
        forall|i: int| 0 <= i < decimal_digits(n).len() ==> is_digit_char(#[trigger] decimal_digits(n)[i]) && decimal_digits(n)[i] <= '9',
        all_digits(ascii_bytes(decimal_digits(n)), 10),
        digits_value(ascii_bytes(decimal_digits(n)), 10) == n,
    decreases n,
{
    if n < 10 {
        lemma_digit_char(n as int);
        let b = ascii_bytes(decimal_digits(n));
        assert(b.drop_last() =~= Seq::<u8>::empty());
        assert(b.last() == digit_char(n as int) as u8);
        assert(digits_value(b, 10) == digits_value(b.drop_last(), 10) * 10 + digit_value(b.last()));
    } else {
        lemma_decimal_digits(n / 10);
        lemma_digit_char((n % 10) as int);
        let prev = decimal_digits(n / 10);
        let c = digit_char((n % 10) as int);
        lemma_ascii_bytes_push(prev, c);
        assert(ascii_bytes(prev.push(c)).drop_last() =~= ascii_bytes(prev));
        let b = ascii_bytes(decimal_digits(n));
        assert(b.last() == c as u8);
        assert(digits_value(b, 10) == digits_value(ascii_bytes(prev), 10) * 10 + digit_value(c as u8));
        assert(n == (n / 10) * 10 + n % 10);
        assert forall|i: int| 0 <= i < ascii_bytes(decimal_digits(n)).len() implies digit_value(
            #[trigger] ascii_bytes(decimal_digits(n))[i],
        ) < 10 by {
            if i < prev.len() {
                assert(ascii_bytes(decimal_digits(n))[i] == ascii_bytes(prev)[i]);
            }
        }
        assert forall|i: int| 0 <= i < decimal_digits(n).len() implies is_digit_char(#[trigger] decimal_digits(n)[i])
            && decimal_digits(n)[i] <= '9' by {
            if i < prev.len() {
                assert(decimal_digits(n)[i] == prev[i]);
            }
        }
    }
}

/// Hexadecimal digits read back as the number they write.
pub proof fn lemma_hex_digits(n: nat)
    ensures
        hex_digits(n).len() >= 1,
        forall|i: int| 0 <= i < hex_digits(n).len() ==> is_digit_char(#[trigger] hex_digits(n)[i]),
        all_digits(ascii_bytes(hex_digits(n)), 16),
        digits_value(ascii_bytes(hex_digits(n)), 16) == n,
    decreases n,
{
    if n < 16 {
        lemma_digit_char(n as int);
        let b = ascii_bytes(hex_digits(n));
        assert(b.drop_last() =~= Seq::<u8>::empty());
        assert(b.last() == digit_char(n as int) as u8);
        assert(digits_value(b, 16) == digits_value(b.drop_last(), 16) * 16 + digit_value(b.last()));
    } else {
        lemma_hex_digits(n / 16);
        lemma_digit_char((n % 16) as int);
        let prev = hex_digits(n / 16);
        let c = digit_char((n % 16) as int);
        lemma_ascii_bytes_push(prev, c);
        assert(ascii_bytes(prev.push(c)).drop_last() =~= ascii_bytes(prev));
        let b = ascii_bytes(hex_digits(n));
        assert(b.last() == c as u8);
        assert(digits_value(b, 16) == digits_value(ascii_bytes(prev), 16) * 16 + digit_value(c as u8));
        assert(n == (n / 16) * 16 + n % 16);
        assert forall|i: int| 0 <= i < ascii_bytes(hex_digits(n)).len() implies digit_value(
            #[trigger] ascii_bytes(hex_digits(n))[i],
        ) < 16 by {
            if i < prev.len() {
                assert(ascii_bytes(hex_digits(n))[i] == ascii_bytes(prev)[i]);
            }
        }
        assert forall|i: int| 0 <= i < hex_digits(n).len() implies is_digit_char(#[trigger] hex_digits(n)[i]) by {
            if i < prev.len() {
                assert(hex_digits(n)[i] == prev[i]);
            }
        }
    }
}

/// `v` written in decimal with a leading `-` when negative, as `format!("{}", v)`
/// writes it.
pub open spec fn signed_decimal(v: int) -> Seq<char> {
    if v < 0 {
        seq!['-'] + decimal_digits((-v) as nat)
    } else {
        decimal_digits(v as nat)
    }
}

/// A `u32` written in decimal reads back as itself.
pub proof fn lemma_parse_u32_decimal(n: u32)
    ensures
        spec_parse_u32(ascii_bytes(decimal_digits(n as nat))) == Some(n),
{
    lemma_decimal_digits(n as nat);
    let d = decimal_digits(n as nat);
    lemma_digit_char(0);
    assert(is_digit_char(d[0]) && d[0] <= '9');
    assert(ascii_bytes(d)[0] == d[0] as u8);
}

/// An `i64` written in decimal reads back as itself.
pub proof fn lemma_parse_i64_decimal(v: i64)
    ensures
        spec_parse_i64(ascii_bytes(signed_decimal(v as int)), 10) == Some(v),
{
    let m: nat = if v < 0 { (-v) as nat } else { v as nat };
    lemma_decimal_digits(m);
    let d = decimal_digits(m);
    let b = ascii_bytes(signed_decimal(v as int));
    assert(d[0] <= '9' && is_digit_char(d[0]));
    if v < 0 {
        assert(b[0] == 45u8);
        assert(b.drop_first() =~= ascii_bytes(d));
    } else {
        assert(b =~= ascii_bytes(d));
        assert(b[0] == d[0] as u8);
    }
}

/// A non-negative `i64` written in hexadecimal reads back as itself.
pub proof fn lemma_parse_i64_hex(v: i64)
    requires
        v >= 0,
    ensures
        spec_parse_i64(ascii_bytes(hex_digits(v as nat)), 16) == Some(v),
{
    lemma_hex_digits(v as nat);
    let d = hex_digits(v as nat);
    assert(is_digit_char(d[0]));
    assert(ascii_bytes(d)[0] == d[0] as u8);
}

} // verus!
