//! Whole numbers written as digits in a radix from two to thirty-six.
//!
//! The digits are `0` to `9` and then the letters: reading takes a letter in
//! either case, writing gives lower case.

use vstd::prelude::*;

verus! {

/// The value of `c` as a digit: `0` to `9` count from zero, the letters of
/// either case from ten. `None` for every other character.
pub open spec fn digit_value(c: char) -> Option<nat> {
    if '0' <= c <= '9' {
        Some((c as int - '0' as int) as nat)
    } else if 'a' <= c <= 'z' {
        Some((c as int - 'a' as int + 10) as nat)
    } else if 'A' <= c <= 'Z' {
        Some((c as int - 'A' as int + 10) as nat)
    } else {
        None
    }
}

/// `c` is a digit of the radix.
pub open spec fn is_digit(c: char, radix: nat) -> bool {
    digit_value(c) matches Some(d) && d < radix
}

/// Every character of `s` is a digit of the radix.
pub open spec fn all_digits(s: Seq<char>, radix: nat) -> bool {
    forall|i: int| 0 <= i < s.len() ==> is_digit(#[trigger] s[i], radix)
}

/// The number that the digits `s` write in the radix, the first digit weighing
/// most. A character that is no digit counts as zero.
pub open spec fn digits_value(s: Seq<char>, radix: nat) -> nat
    decreases s.len(),
{
    if s.len() == 0 {
        0
    } else {
        let low = match digit_value(s.last()) {
            Some(d) => d,
            None => 0,
        };
        digits_value(s.drop_last(), radix) * radix + low
    }
}

/// What a run of digits stands for when it may be no larger than `limit`:
/// the run is not empty, holds digits of the radix only, and its value fits.
pub open spec fn magnitude(s: Seq<char>, radix: nat, limit: nat) -> Option<nat> {
    if s.len() > 0 && all_digits(s, radix) && digits_value(s, radix) <= limit {
        Some(digits_value(s, radix))
    } else {
        None
    }
}

/// The unsigned 64-bit number that `s` writes: digits of the radix, with one
/// `+` allowed in front of them and no other sign.
pub open spec fn parse_unsigned(s: Seq<char>, radix: nat) -> Option<nat> {
    if s.len() > 0 && s[0] == '+' {
        magnitude(s.skip(1), radix, u64::MAX as nat)
    } else {
        magnitude(s, radix, u64::MAX as nat)
    }
}

/// The signed 64-bit number that `s` writes: digits of the radix, with one
/// `+` or `-` allowed in front of them.
pub open spec fn parse_signed(s: Seq<char>, radix: nat) -> Option<int> {
    if s.len() > 0 && s[0] == '-' {
        match magnitude(s.skip(1), radix, (i64::MAX as nat) + 1) {
            Some(m) => Some(-(m as int)),
            None => None,
        }
    } else if s.len() > 0 && s[0] == '+' {
        match magnitude(s.skip(1), radix, i64::MAX as nat) {
            Some(m) => Some(m as int),
            None => None,
        }
    } else {
        match magnitude(s, radix, i64::MAX as nat) {
            Some(m) => Some(m as int),
            None => None,
        }
    }
}

/// The character that writes the digit `d`: `0` to `9`, then `a` to `z`.
pub open spec fn digit_char(d: nat) -> char {
    if d < 10 {
        (d + 48) as u8 as char
    } else {
        (d + 87) as u8 as char
    }
}

/// `n` written in the radix, without leading zeros; zero is written `0`.
pub open spec fn digits_of(n: nat, radix: nat) -> Seq<char>
    decreases n,
{
    if radix < 2 || n < radix {
        seq![digit_char(n)]
    } else {
        proof {
            assert(n / radix < n) by (nonlinear_arith)
                requires
                    radix >= 2,
                    n >= radix,
            ;
        }
        digits_of(n / radix, radix).push(digit_char(n % radix))
    }
}

/// `v` written in decimal, with `-` in front of a negative number.
pub open spec fn decimal_text(v: int) -> Seq<char> {
    if v < 0 {
        seq!['-'] + digits_of((-v) as nat, 10)
    } else {
        digits_of(v as nat, 10)
    }
}

/// The unsigned number with the same 64 bits as the signed `v` in two's
/// complement.
pub open spec fn bits_of(v: int) -> nat {
    if v < 0 {
        (v + 0x1_0000_0000_0000_0000) as nat
    } else {
        v as nat
    }
}

/// A prefix of a run of digits writes no larger a number than the whole run.
pub proof fn lemma_prefix_value(s: Seq<char>, k: int, radix: nat)
    requires
        0 <= k <= s.len(),
        radix >= 1,
    ensures
        digits_value(s.take(k), radix) <= digits_value(s, radix),
    decreases s.len() - k,
{
    if k == s.len() {
        assert(s.take(k) =~= s);
    } else {
        let front = s.drop_last();
        lemma_prefix_value(front, k, radix);
        assert(front.take(k) =~= s.take(k));
        assert(digits_value(front, radix) * radix >= digits_value(front, radix)) by (nonlinear_arith)
            requires
                radix >= 1,
        ;
    }
}

/// The digit that `c` is in the radix, if it is one.
pub fn digit_of(c: char, radix: u32) -> (r: Option<u32>)
    requires
        2 <= radix <= 36,
    ensures
        match r {
            Some(d) => is_digit(c, radix as nat) && digit_value(c) == Some(d as nat),
            None => !is_digit(c, radix as nat),
        },
{
    let code: u32 = c as u32;
    let d: u32 = if '0' <= c && c <= '9' {
        code - 48
    } else if 'a' <= c && c <= 'z' {
        code - 97 + 10
    } else if 'A' <= c && c <= 'Z' {
        code - 65 + 10
    } else {
        return None;
    };
    if d < radix {
        Some(d)
    } else {
        None
    }
}

/// Reads `chars[start..end]` as a run of digits that may write no more than
/// `limit`.
pub fn read_magnitude(chars: &Vec<char>, start: usize, end: usize, radix: u32, limit: u64) -> (r:
    Option<u64>)
    requires
        start <= end <= chars.len(),
        2 <= radix <= 36,
    ensures
        match r {
            Some(m) => magnitude(chars@.subrange(start as int, end as int), radix as nat, limit as nat)
                == Some(m as nat),
            None => magnitude(chars@.subrange(start as int, end as int), radix as nat, limit as nat)
                is None,
        },
{
    let ghost run = chars@.subrange(start as int, end as int);
    if start == end {
        return None;
    }
    let mut acc: u64 = 0;
    let mut i: usize = start;
    while i < end
        invariant
            start <= i <= end <= chars.len(),
            2 <= radix <= 36,
            run == chars@.subrange(start as int, end as int),
            all_digits(run.take(i - start), radix as nat),
            acc as nat == digits_value(run.take(i - start), radix as nat),
            acc <= limit,
        decreases end - i,
    {
        let ghost seen = run.take(i - start);
        let ghost next = run.take(i - start + 1);
        proof {
            assert(next.drop_last() =~= seen);
            assert(next.last() == chars@[i as int]);
        }
        match digit_of(chars[i], radix) {
            None => {
                proof {
                    assert(run[i - start] == chars@[i as int]);
                    assert(!all_digits(run, radix as nat));
                }
                return None;
            },
            Some(d) => {
                assert((acc as u128) * (radix as u128) <= 36 * 0xffff_ffff_ffff_ffff)
                    by (nonlinear_arith)
                    requires
                        acc <= 0xffff_ffff_ffff_ffff,
                        radix <= 36,
                ;
                let wide: u128 = (acc as u128) * (radix as u128) + (d as u128);
                proof {
                    assert(digits_value(next, radix as nat) == acc as nat * radix as nat + d as nat);
                    assert(wide as nat == acc as nat * radix as nat + d as nat) by (nonlinear_arith)
                        requires
                            wide as int == (acc as int) * (radix as int) + (d as int),
                            acc >= 0,
                            radix >= 0,
                            d >= 0,
                    ;
                }
                if wide > limit as u128 {
                    proof {
                        lemma_prefix_value(run, i - start + 1, radix as nat);
                    }
                    return None;
                }
                acc = wide as u64;
                proof {
                    assert forall|j: int| 0 <= j < next.len() implies is_digit(
                        #[trigger] next[j],
                        radix as nat,
                    ) by {
                        if j < seen.len() {
                            assert(next[j] == seen[j]);
                        }
                    }
                }
                i += 1;
            },
        }
    }
    proof {
        assert(run.take(i - start) =~= run);
    }
    Some(acc)
}

/// Reads `chars[start..end]` as an unsigned 64-bit number in the radix.
pub fn read_unsigned(chars: &Vec<char>, start: usize, end: usize, radix: u32) -> (r: Option<u64>)
    requires
        start <= end <= chars.len(),
        2 <= radix <= 36,
    ensures
        match r {
            Some(n) => parse_unsigned(chars@.subrange(start as int, end as int), radix as nat)
                == Some(n as nat),
            None => parse_unsigned(chars@.subrange(start as int, end as int), radix as nat)
                is None,
        },
{
    let ghost run = chars@.subrange(start as int, end as int);
    if start < end && chars[start] == '+' {
        proof {
            assert(run.skip(1) =~= chars@.subrange(start + 1, end as int));
        }
        read_magnitude(chars, start + 1, end, radix, u64::MAX)
    } else {
        read_magnitude(chars, start, end, radix, u64::MAX)
    }
}

/// Reads `chars[start..end]` as a signed 64-bit number in the radix.
pub fn read_signed(chars: &Vec<char>, start: usize, end: usize, radix: u32) -> (r: Option<i64>)
    requires
        start <= end <= chars.len(),
        2 <= radix <= 36,
    ensures
        match r {
            Some(v) => parse_signed(chars@.subrange(start as int, end as int), radix as nat)
                == Some(v as int),
            None => parse_signed(chars@.subrange(start as int, end as int), radix as nat)
                is None,
        },
{
    let ghost run = chars@.subrange(start as int, end as int);
    if start < end && chars[start] == '-' {
        proof {
            assert(run.skip(1) =~= chars@.subrange(start + 1, end as int));
        }
        match read_magnitude(chars, start + 1, end, radix, 0x8000_0000_0000_0000) {
            Some(m) => {
                if m == 0x8000_0000_0000_0000 {
                    Some(i64::MIN)
                } else {
                    Some(-(m as i64))
                }
            },
            None => None,
        }
    } else if start < end && chars[start] == '+' {
        proof {
            assert(run.skip(1) =~= chars@.subrange(start + 1, end as int));
        }
        match read_magnitude(chars, start + 1, end, radix, 0x7fff_ffff_ffff_ffff) {
            Some(m) => Some(m as i64),
            None => None,
        }
    } else {
        match read_magnitude(chars, start, end, radix, 0x7fff_ffff_ffff_ffff) {
            Some(m) => Some(m as i64),
            None => None,
        }
    }
}

/// The character that writes the digit `d`.
pub fn char_of_digit(d: u32) -> (c: char)
    requires
        d < 36,
    ensures
        c == digit_char(d as nat),
{
    if d < 10 {
        ((d + 48) as u8) as char
    } else {
        ((d + 87) as u8) as char
    }
}

/// Appends `n`, written in the radix, to `out`.
pub fn write_digits(out: &mut Vec<char>, n: u64, radix: u32)
    requires
        2 <= radix <= 36,
    ensures
        final(out)@ == old(out)@ + digits_of(n as nat, radix as nat),
    decreases n,
{
    let base: u64 = radix as u64;
    if n >= base {
        assert(n / base < n) by (nonlinear_arith)
            requires
                base >= 2,
                n >= base,
        ;
        write_digits(out, n / base, radix);
    }
    out.push(char_of_digit((n % base) as u32));
    proof {
        let low = digit_char((n % base) as nat);
        assert((n / base) as nat == (n as nat) / (radix as nat));
        assert((n % base) as nat == (n as nat) % (radix as nat));
        if n >= base {
            assert(digits_of(n as nat, radix as nat) == digits_of(
                (n as nat) / (radix as nat),
                radix as nat,
            ).push(low));
            assert(out@ =~= old(out)@ + digits_of((n / base) as nat, radix as nat).push(low));
        } else {
            assert(n % base == n) by (nonlinear_arith)
                requires
                    0 <= n < base,
            ;
            assert(out@ =~= old(out)@ + seq![low]);
        }
    }
}

/// Appends `v`, written in decimal with its sign, to `out`.
pub fn write_decimal(out: &mut Vec<char>, v: i64)
    ensures
        final(out)@ == old(out)@ + decimal_text(v as int),
{
    if v < 0 {
        out.push('-');
        let m: u64 = (-(v as i128)) as u64;
        write_digits(out, m, 10);
        proof {
            assert(final(out)@ =~= old(out)@ + (seq!['-'] + digits_of((-v) as nat, 10)));
        }
    } else {
        write_digits(out, v as u64, 10);
    }
}

/// The 64 bits of `v` in two's complement, as an unsigned number.
pub fn bits_of_signed(v: i64) -> (u: u64)
    ensures
        u as nat == bits_of(v as int),
{
    if v < 0 {
        ((v as i128) + 0x1_0000_0000_0000_0000) as u64
    } else {
        v as u64
    }
}

/// A digit is read back from the character that writes it.
pub proof fn lemma_digit_char_value(d: nat)
    requires
        d < 36,
    ensures
        digit_value(digit_char(d)) == Some(d),
        '0' <= digit_char(d) <= '9' || 'a' <= digit_char(d) <= 'z',
{
}

/// Reading what was written gives the number back: the digits of `n` are
/// digits of the radix, at least one, and their value is `n`.
pub proof fn lemma_digits_round_trip(n: nat, radix: nat)
    requires
        2 <= radix <= 36,
    ensures
        digits_of(n, radix).len() >= 1,
        all_digits(digits_of(n, radix), radix),
        digits_value(digits_of(n, radix), radix) == n,
    decreases n,
{
    let text = digits_of(n, radix);
    if n < radix {
        lemma_digit_char_value(n);
        assert(text.last() == digit_char(n));
        assert(text.drop_last() =~= Seq::<char>::empty());
        assert(digits_value(text.drop_last(), radix) == 0);
        assert(digits_value(text, radix) == 0 * radix + n);
    } else {
        let high = n / radix;
        let low = n % radix;
        assert(high < n && n == high * radix + low && low < radix) by (nonlinear_arith)
            requires
                radix >= 2,
                n >= radix,
                high == n / radix,
                low == n % radix,
        ;
        lemma_digits_round_trip(high, radix);
        lemma_digit_char_value(low);
        assert(text.last() == digit_char(low));
        assert(text.drop_last() =~= digits_of(high, radix));
        assert(digits_value(text, radix) == high * radix + low);
        assert forall|i: int| 0 <= i < text.len() implies is_digit(#[trigger] text[i], radix) by {
            if i < text.len() - 1 {
                assert(text[i] == digits_of(high, radix)[i]);
            }
        }
    }
}

/// A signed 64-bit number is read back from its decimal text.
pub proof fn lemma_decimal_round_trip(v: int)
    requires
        i64::MIN <= v <= i64::MAX,
    ensures
        parse_signed(decimal_text(v), 10) == Some(v),
{
    if v < 0 {
        let m = (-v) as nat;
        lemma_digits_round_trip(m, 10);
        assert(decimal_text(v).skip(1) =~= digits_of(m, 10));
    } else {
        lemma_digits_round_trip(v as nat, 10);
        let text = digits_of(v as nat, 10);
        assert(is_digit(text[0], 10));
    }
}

} // verus!
