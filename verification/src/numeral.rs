//! Numbers written as text, and text read as numbers.
use vstd::arithmetic::power::{lemma_pow1, pow};
use vstd::prelude::*;
use vstd::slice::slice_subrange;

use crate::text::{char_is_digit, is_digit};

verus! {

/// The digit for a value below 16; letters are upper case.
pub open spec fn digit_char(d: nat) -> char {
    if d < 10 {
        (('0' as u8) + d) as u8 as char
    } else {
        (('A' as u8) + (d - 10)) as u8 as char
    }
}

/// `n` written in `base`, without leading zeros.
pub open spec fn numeral(n: nat, base: nat) -> Seq<char>
    decreases n,
{
    if n < base || base < 2 {
        seq![digit_char(n)]
    } else {
        proof {
            assert(n / base < n) by (nonlinear_arith)
                requires
                    base >= 2,
                    n >= base,
            ;
        }
        numeral(n / base, base).push(digit_char(n % base))
    }
}

/// `n` written in decimal.
pub open spec fn decimal(n: nat) -> Seq<char> {
    numeral(n, 10)
}

/// `s` with as many zeros in front as make it `width` characters long.
pub open spec fn zero_padded(s: Seq<char>, width: nat) -> Seq<char> {
    if s.len() < width {
        Seq::new((width - s.len()) as nat, |i: int| '0') + s
    } else {
        s
    }
}

pub fn digit(d: u64) -> (c: char)
    requires
        d < 16,
    ensures
        c == digit_char(d as nat),
{
    if d < 10 {
        ('0' as u8 + d as u8) as char
    } else {
        ('A' as u8 + (d - 10) as u8) as char
    }
}

pub fn numeral_of(n: u64, base: u64) -> (out: Vec<char>)
    requires
        2 <= base <= 16,
    ensures
        out@ == numeral(n as nat, base as nat),
    decreases n,
{
    if n < base {
        let mut out: Vec<char> = Vec::new();
        out.push(digit(n));
        assert(out@ =~= numeral(n as nat, base as nat));
        out
    } else {
        assert(n / base < n) by (nonlinear_arith)
            requires
                base >= 2,
                n >= base,
        ;
        let mut out = numeral_of(n / base, base);
        out.push(digit(n % base));
        out
    }
}

/// `n` in decimal.
pub fn decimal_string(n: u64) -> (out: String)
    ensures
        out@ == decimal(n as nat),
{
    crate::text::string_of(&numeral_of(n, 10))
}

/// A numeral padded with zeros on the left.
pub fn padded_numeral(n: u64, base: u64, width: usize) -> (out: Vec<char>)
    requires
        2 <= base <= 16,
    ensures
        out@ == zero_padded(numeral(n as nat, base as nat), width as nat),
{
    let digits = numeral_of(n, base);
    if digits.len() >= width {
        return digits;
    }
    let mut out: Vec<char> = Vec::new();
    let zeros: usize = width - digits.len();
    let mut i: usize = 0;
    while i < zeros
        invariant
            i <= zeros,
            out@ == Seq::new(i as nat, |j: int| '0'),
        decreases zeros - i,
    {
        out.push('0');
        assert(out@ =~= Seq::new((i + 1) as nat, |j: int| '0'));
        i += 1;
    }
    crate::text::push_chars(&mut out, &digits);
    out
}

// ---------------------------------------------------------------------------
// Reading
// ---------------------------------------------------------------------------

pub open spec fn all_digits(s: Seq<char>) -> bool {
    forall|i: int| 0 <= i < s.len() ==> is_digit(#[trigger] s[i])
}

pub open spec fn digit_value(c: char) -> nat {
    (c as u32 - '0' as u32) as nat
}

/// The number that a run of decimal digits stands for.
pub open spec fn digits_value(s: Seq<char>) -> nat
    decreases s.len(),
{
    if s.len() == 0 {
        0
    } else {
        digits_value(s.drop_last()) * 10 + digit_value(s.last())
    }
}

/// A nonempty run of decimal digits whose number is at most `max`.
pub open spec fn parse_digits(s: Seq<char>, max: nat) -> Option<nat> {
    if s.len() > 0 && all_digits(s) && digits_value(s) <= max {
        Some(digits_value(s))
    } else {
        None
    }
}

/// An unsigned number: digits, with an optional `+` in front.
pub open spec fn parse_unsigned(s: Seq<char>, max: nat) -> Option<nat> {
    if s.len() > 0 && s[0] == '+' {
        parse_digits(s.drop_first(), max)
    } else {
        parse_digits(s, max)
    }
}

/// A signed number of 32 bits: digits, with an optional sign in front.
pub open spec fn parse_signed(s: Seq<char>) -> Option<int> {
    if s.len() > 0 && s[0] == '-' {
        match parse_digits(s.drop_first(), 0x8000_0000) {
            Some(n) => Some(-(n as int)),
            None => None,
        }
    } else {
        match parse_unsigned(s, 0x7fff_ffff) {
            Some(n) => Some(n as int),
            None => None,
        }
    }
}

/// More digits make no smaller number.
pub proof fn lemma_digits_value_take(s: Seq<char>, n: int)
    requires
        0 <= n <= s.len(),
    ensures
        digits_value(s.take(n)) <= digits_value(s),
    decreases s.len(),
{
    if n < s.len() {
        lemma_digits_value_take(s.drop_last(), n);
        assert(s.drop_last().take(n) == s.take(n));
    } else {
        assert(s.take(n) == s);
    }
}

pub fn read_digits(s: &[char]) -> (out: Option<u64>)
    ensures
        match out {
            Some(n) => parse_digits(s@, u64::MAX as nat) == Some(n as nat),
            None => parse_digits(s@, u64::MAX as nat) is None,
        },
{
    if s.len() == 0 {
        return None;
    }
    let mut n: u64 = 0;
    let mut i: usize = 0;
    while i < s.len()
        invariant
            i <= s@.len(),
            all_digits(s@.take(i as int)),
            n == digits_value(s@.take(i as int)),
        decreases s@.len() - i,
    {
        let c = s[i];
        let ghost t = s@.take(i + 1);
        assert(t.drop_last() == s@.take(i as int));
        assert(t.last() == c);
        if !char_is_digit(c) {
            assert(!is_digit(s@[i as int]));
            return None;
        }
        let d: u64 = c as u64 - '0' as u64;
        assert(d == digit_value(c));
        if n > (u64::MAX - d) / 10 {
            proof {
                assert(n * 10 + d > u64::MAX);
                lemma_digits_value_take(s@, i + 1);
            }
            return None;
        }
        assert(all_digits(t)) by {
            assert forall|j: int| 0 <= j < t.len() implies is_digit(#[trigger] t[j]) by {
                if j < i {
                    assert(t[j] == s@.take(i as int)[j]);
                }
            }
        }
        n = n * 10 + d;
        i += 1;
    }
    assert(s@.take(i as int) == s@);
    Some(n)
}

pub fn read_u64(s: &[char]) -> (out: Option<u64>)
    ensures
        match out {
            Some(n) => parse_unsigned(s@, u64::MAX as nat) == Some(n as nat),
            None => parse_unsigned(s@, u64::MAX as nat) is None,
        },
{
    if s.len() > 0 && s[0] == '+' {
        let rest = slice_subrange(s, 1, s.len());
        assert(rest@ == s@.drop_first());
        read_digits(rest)
    } else {
        read_digits(s)
    }
}

pub fn read_u32(s: &[char]) -> (out: Option<u32>)
    ensures
        match out {
            Some(n) => parse_unsigned(s@, u32::MAX as nat) == Some(n as nat),
            None => parse_unsigned(s@, u32::MAX as nat) is None,
        },
{
    match read_u64(s) {
        Some(n) => if n <= u32::MAX as u64 {
            Some(n as u32)
        } else {
            None
        },
        None => None,
    }
}

pub fn read_u16(s: &[char]) -> (out: Option<u16>)
    ensures
        match out {
            Some(n) => parse_unsigned(s@, u16::MAX as nat) == Some(n as nat),
            None => parse_unsigned(s@, u16::MAX as nat) is None,
        },
{
    match read_u64(s) {
        Some(n) => if n <= u16::MAX as u64 {
            Some(n as u16)
        } else {
            None
        },
        None => None,
    }
}

pub fn read_i32(s: &[char]) -> (out: Option<i32>)
    ensures
        match out {
            Some(n) => parse_signed(s@) == Some(n as int),
            None => parse_signed(s@) is None,
        },
{
    if s.len() > 0 && s[0] == '-' {
        let rest = slice_subrange(s, 1, s.len());
        assert(rest@ == s@.drop_first());
        match read_digits(rest) {
            Some(n) => if n <= 0x8000_0000 {
                Some((-(n as i64)) as i32)
            } else {
                None
            },
            None => None,
        }
    } else {
        match read_u64(s) {
            Some(n) => if n <= 0x7fff_ffff {
                Some(n as i32)
            } else {
                None
            },
            None => None,
        }
    }
}

// ---------------------------------------------------------------------------
// Laws
// ---------------------------------------------------------------------------

/// A decimal numeral is a run of digits that stands for the number it was written from.
pub proof fn law_decimal_reads_back(n: nat)
    ensures
        decimal(n).len() > 0,
        all_digits(decimal(n)),
        digits_value(decimal(n)) == n,
    decreases n,
{
    if n < 10 {
        let s = decimal(n);
        assert(s =~= seq![digit_char(n)]);
        assert(s.drop_last() =~= Seq::<char>::empty());
        assert(digits_value(s.drop_last()) == 0);
    } else {
        law_decimal_reads_back(n / 10);
        let s = decimal(n);
        assert(s.drop_last() =~= decimal(n / 10));
        assert forall|i: int| 0 <= i < s.len() implies is_digit(#[trigger] s[i]) by {
            if i < s.len() - 1 {
                assert(s[i] == decimal(n / 10)[i]);
            }
        }
    }
}

/// Leading zeros do not change the number that a run of digits stands for.
pub proof fn law_zeros_keep_value(s: Seq<char>, width: nat)
    requires
        all_digits(s),
    ensures
        all_digits(zero_padded(s, width)),
        digits_value(zero_padded(s, width)) == digits_value(s),
    decreases s.len(),
{
    let p = zero_padded(s, width);
    if s.len() < width {
        let z = (width - s.len()) as nat;
        let zeros = Seq::new(z, |i: int| '0');
        lemma_zeros(z);
        if s.len() == 0 {
            assert(p =~= zeros);
        } else {
            let t = s.drop_last();
            assert forall|i: int| 0 <= i < t.len() implies is_digit(#[trigger] t[i]) by {
                assert(t[i] == s[i]);
            }
            law_zeros_keep_value(t, (width - 1) as nat);
            assert(p.drop_last() =~= zero_padded(t, (width - 1) as nat));
            assert(p.last() == s.last());
        }
        assert forall|i: int| 0 <= i < p.len() implies is_digit(#[trigger] p[i]) by {
            if i >= z {
                assert(p[i] == s[i - z]);
            }
        }
    }
}

proof fn lemma_zeros(z: nat)
    ensures
        digits_value(Seq::new(z, |i: int| '0')) == 0,
    decreases z,
{
    let s = Seq::new(z, |i: int| '0');
    if z > 0 {
        lemma_zeros((z - 1) as nat);
        assert(s.drop_last() =~= Seq::new((z - 1) as nat, |i: int| '0'));
        assert(s.last() == '0');
    }
}

/// A number below `base` to the power `k` has at most `k` digits.
pub proof fn lemma_numeral_len(n: nat, base: nat, k: nat)
    requires
        2 <= base,
        1 <= k,
        n < pow(base as int, k),
    ensures
        1 <= numeral(n, base).len() <= k,
    decreases n,
{
    if n >= base {
        if k == 1 {
            lemma_pow1(base as int);
        } else {
            let q = n / base;
            assert(pow(base as int, k) == base * pow(base as int, (k - 1) as nat)) by {
                reveal(pow);
            }
            let p = pow(base as int, (k - 1) as nat);
            assert(q < p) by (nonlinear_arith)
                requires
                    n < base * p,
                    q == n / base,
                    base >= 2,
            ;
            assert(q < n) by (nonlinear_arith)
                requires
                    q == n / base,
                    base >= 2,
                    n >= base,
            ;
            lemma_numeral_len(q, base, (k - 1) as nat);
        }
    }
}

} // verus!
