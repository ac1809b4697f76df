//! Moving the decimal point of a number written as text.
use vstd::arithmetic::power::{lemma_pow0, pow};
use vstd::prelude::*;
use vstd::slice::slice_subrange;

use crate::numeral::{all_digits, digits_value, parse_signed, read_i32};
use crate::text::{
    before, chars_of, copy_chars, drop_leading, index_of, is_digit, opt_text,
    push_chars, remove_char, string_of, trim, trim_space, without, without_leading, CharClass,
};

verus! {

pub open spec fn zero_run(n: int) -> Seq<char> {
    Seq::new(
        if n > 0 {
            n as nat
        } else {
            0
        },
        |i: int| '0',
    )
}

/// A number without its sign and without the commas in it.
pub open spec fn unsigned_part(v: Seq<char>) -> Seq<char> {
    if v.len() > 0 && (v[0] == '-' || v[0] == '+') {
        without(v.drop_first(), ',')
    } else {
        without(v, ',')
    }
}

/// What stands before the decimal point.
pub open spec fn integer_part(u: Seq<char>) -> Seq<char> {
    u.take(before(u, '.') as int)
}

/// What stands behind the decimal point.
pub open spec fn fraction_part(u: Seq<char>) -> Seq<char> {
    if before(u, '.') < u.len() {
        u.skip(before(u, '.') as int + 1)
    } else {
        Seq::empty()
    }
}

/// Digits, with one decimal point among them at most.
pub open spec fn is_decimal(u: Seq<char>) -> bool {
    u.len() > 0 && all_digits(integer_part(u)) && all_digits(fraction_part(u))
}

/// The digits of a number without leading zeros.
pub open spec fn significant_digits(u: Seq<char>) -> Seq<char> {
    let s = drop_leading(integer_part(u) + fraction_part(u), CharClass::Only('0'));
    if s.len() == 0 {
        seq!['0']
    } else {
        s
    }
}

/// The digits with the decimal point set so that `places` digits stand behind it.
pub open spec fn with_places(digits: Seq<char>, places: int) -> Seq<char> {
    if places <= 0 {
        if digits == seq!['0'] {
            digits
        } else {
            digits + zero_run(-places)
        }
    } else if digits.len() <= places {
        seq!['0', '.'] + zero_run(places - digits.len()) + digits
    } else {
        digits.take(digits.len() - places) + seq!['.'] + digits.skip(digits.len() - places)
    }
}

/// A number with its decimal point moved `scale` places to the right; nothing if the text is no
/// number.
pub open spec fn scaled_decimal(value: Seq<char>, scale: int) -> Option<Seq<char>> {
    let v = trim(value);
    let u = unsigned_part(v);
    if !is_decimal(u) {
        None
    } else {
        let s = with_places(significant_digits(u), fraction_part(u).len() - scale);
        if v[0] == '-' && s != seq!['0'] {
            Some(seq!['-'] + s)
        } else {
            Some(s)
        }
    }
}

/// A value with its scale applied; as it is where there is no scale or where it is no number.
pub open spec fn scaled(value: Option<Seq<char>>, scale: Option<Seq<char>>) -> Option<Seq<char>> {
    match (value, scale) {
        (None, _) => None,
        (Some(v), None) => Some(v),
        (Some(v), Some(s)) => match parse_signed(s) {
            None => Some(v),
            Some(n) => match scaled_decimal(v, n) {
                Some(t) => Some(t),
                None => Some(v),
            },
        },
    }
}

// ---------------------------------------------------------------------------
// Facts
// ---------------------------------------------------------------------------

proof fn lemma_leading_zeros(s: Seq<char>)
    requires
        all_digits(s),
    ensures
        all_digits(drop_leading(s, CharClass::Only('0'))),
        digits_value(drop_leading(s, CharClass::Only('0'))) == digits_value(s),
        drop_leading(s, CharClass::Only('0')).len() > 0 ==> drop_leading(
            s,
            CharClass::Only('0'),
        )[0] != '0',
    decreases s.len(),
{
    if s.len() > 0 && s[0] == '0' {
        let t = s.drop_first();
        lemma_leading_zeros(t);
        lemma_zero_first(t);
        assert(s =~= seq!['0'] + t);
    }
}

proof fn lemma_zero_first(s: Seq<char>)
    ensures
        digits_value(seq!['0'] + s) == digits_value(s),
    decreases s.len(),
{
    let z = seq!['0'] + s;
    if s.len() == 0 {
        assert(z =~= seq!['0']);
        assert(z.drop_last() =~= Seq::empty());
        assert(digits_value(z.drop_last()) == 0);
        assert(digits_value(z) == 0);
    } else {
        lemma_zero_first(s.drop_last());
        assert(z.drop_last() =~= seq!['0'] + s.drop_last());
    }
}

proof fn lemma_zeros_first(n: int, s: Seq<char>)
    ensures
        digits_value(zero_run(n) + s) == digits_value(s),
    decreases n,
{
    if n > 0 {
        lemma_zeros_first(n - 1, s);
        lemma_zero_first(zero_run(n - 1) + s);
        assert(zero_run(n) + s =~= seq!['0'] + (zero_run(n - 1) + s));
    } else {
        assert(zero_run(n) + s =~= s);
    }
}

proof fn lemma_zeros_last(s: Seq<char>, n: int)
    requires
        n >= 0,
    ensures
        digits_value(s + zero_run(n)) == digits_value(s) * pow(10, n as nat),
    decreases n,
{
    if n == 0 {
        assert(s + zero_run(0) =~= s);
        lemma_pow0(10);
    } else {
        lemma_zeros_last(s, n - 1);
        assert((s + zero_run(n)).drop_last() =~= s + zero_run(n - 1));
        assert(pow(10, n as nat) == 10 * pow(10, (n - 1) as nat)) by {
            reveal(pow);
        }
        let d = digits_value(s) as int;
        let p = pow(10, (n - 1) as nat);
        assert((d * p) * 10 == d * (10 * p)) by (nonlinear_arith);
    }
}

proof fn lemma_without_digits(s: Seq<char>)
    requires
        all_digits(s),
    ensures
        without(s, '.') == s,
        before(s, '.') == s.len(),
    decreases s.len(),
{
    reveal(Seq::filter);
    if s.len() > 0 {
        lemma_without_digits(s.drop_last());
        assert(is_digit(s.last()));
        assert(without(s, '.') =~= s);
    }
    crate::text::lemma_before_is(s, '.', s.len() as int);
}

pub proof fn lemma_without_point(a: Seq<char>, b: Seq<char>)
    requires
        all_digits(a),
        all_digits(b),
    ensures
        integer_part(a + seq!['.'] + b) == a,
        fraction_part(a + seq!['.'] + b) == b,
{
    let s = a + seq!['.'] + b;
    assert(s[a.len() as int] == '.');
    assert forall|j: int| 0 <= j < a.len() implies s[j] != '.' by {
        assert(s[j] == a[j]);
    }
    crate::text::lemma_before_is(s, '.', a.len() as int);
    assert(integer_part(s) =~= a);
    assert(fraction_part(s) =~= b);
}

/// What a number stands for once the decimal point is taken out of it.
pub open spec fn unpointed_value(u: Seq<char>) -> nat {
    digits_value(integer_part(u) + fraction_part(u))
}

pub proof fn lemma_whole(digits: Seq<char>)
    requires
        all_digits(digits),
    ensures
        integer_part(digits) == digits,
        fraction_part(digits) == Seq::<char>::empty(),
        unpointed_value(digits) == digits_value(digits),
{
    lemma_without_digits(digits);
    assert(integer_part(digits) =~= digits);
    assert(integer_part(digits) + fraction_part(digits) =~= digits);
}

pub proof fn lemma_no_places(digits: Seq<char>, places: int)
    requires
        all_digits(digits),
        places <= 0,
    ensures
        all_digits(with_places(digits, places)),
        digits_value(with_places(digits, places)) == digits_value(digits) * pow(
            10,
            (-places) as nat,
        ),
{
    if digits == seq!['0'] {
        lemma_zero_first(Seq::empty());
        assert(seq!['0'] + Seq::<char>::empty() =~= seq!['0']);
        assert(digits_value(digits) == 0);
        assert(0 * pow(10, (-places) as nat) == 0) by (nonlinear_arith);
    } else {
        lemma_zeros_last(digits, -places);
        let s = digits + zero_run(-places);
        assert forall|i: int| 0 <= i < s.len() implies is_digit(#[trigger] s[i]) by {
            if i < digits.len() {
                assert(s[i] == digits[i]);
            }
        }
    }
}

proof fn lemma_some_places(digits: Seq<char>, places: int)
    requires
        all_digits(digits),
        places > 0,
    ensures
        all_digits(integer_part(with_places(digits, places))),
        all_digits(fraction_part(with_places(digits, places))),
        fraction_part(with_places(digits, places)).len() == places,
        unpointed_value(with_places(digits, places)) == digits_value(digits),
{
    if digits.len() <= places {
        let z = zero_run(places - digits.len());
        let b = z + digits;
        assert forall|i: int| 0 <= i < b.len() implies is_digit(#[trigger] b[i]) by {
            if i >= z.len() {
                assert(b[i] == digits[i - z.len()]);
            }
        }
        assert(with_places(digits, places) =~= seq!['0'] + seq!['.'] + b);
        lemma_without_point(seq!['0'], b);
        lemma_zeros_first(places - digits.len(), digits);
        lemma_zero_first(b);
    } else {
        let a = digits.take(digits.len() - places);
        let b = digits.skip(digits.len() - places);
        assert forall|i: int| 0 <= i < b.len() implies is_digit(#[trigger] b[i]) by {
            assert(b[i] == digits[i + digits.len() - places]);
        }
        lemma_without_point(a, b);
        assert(a + b =~= digits);
    }
}

/// Moving the decimal point by `scale` places multiplies the number by ten to that power: the
/// result has as many places fewer, and where there are none left, as many zeros more.
pub proof fn law_scaling_multiplies(u: Seq<char>, scale: int)
    requires
        is_decimal(u),
    ensures
        ({
            let places = fraction_part(u).len() - scale;
            let s = with_places(significant_digits(u), places);
            &&& is_decimal(s)
            &&& fraction_part(s).len() == (if places > 0 {
                places
            } else {
                0
            })
            &&& unpointed_value(s) == unpointed_value(u) * pow(
                10,
                (if places < 0 {
                    -places
                } else {
                    0
                }) as nat,
            )
        }),
{
    let digits = significant_digits(u);
    let places = fraction_part(u).len() - scale;
    let whole = integer_part(u) + fraction_part(u);
    lemma_leading_zeros(whole);
    let stripped = drop_leading(whole, CharClass::Only('0'));
    assert(digits_value(digits) == digits_value(whole)) by {
        if stripped.len() == 0 {
            assert(stripped =~= Seq::empty());
            lemma_zero_first(Seq::empty());
            assert(seq!['0'] + Seq::<char>::empty() =~= seq!['0']);
        }
    }
    lemma_pow0(10);
    if places <= 0 {
        lemma_no_places(digits, places);
        lemma_whole(with_places(digits, places));
    } else {
        lemma_some_places(digits, places);
    }
}

/// Whether digits are written without a zero in front, except for zero itself.
pub open spec fn is_normal(digits: Seq<char>) -> bool {
    all_digits(digits) && digits.len() > 0 && (digits == seq!['0'] || digits[0] != '0')
}

pub proof fn lemma_significant_is_normal(u: Seq<char>)
    requires
        all_digits(integer_part(u)),
        all_digits(fraction_part(u)),
    ensures
        is_normal(significant_digits(u)),
{
    let whole = integer_part(u) + fraction_part(u);
    assert forall|i: int| 0 <= i < whole.len() implies is_digit(#[trigger] whole[i]) by {
        if i >= integer_part(u).len() {
            assert(whole[i] == fraction_part(u)[i - integer_part(u).len()]);
        } else {
            assert(whole[i] == integer_part(u)[i]);
        }
    }
    lemma_leading_zeros(whole);
}

proof fn lemma_drop_zeros(n: int, digits: Seq<char>)
    requires
        n >= 0,
    ensures
        drop_leading(zero_run(n) + digits, CharClass::Only('0')) == drop_leading(
            digits,
            CharClass::Only('0'),
        ),
    decreases n,
{
    let s = zero_run(n) + digits;
    if n == 0 {
        assert(s =~= digits);
    } else {
        lemma_drop_zeros(n - 1, digits);
        assert(s[0] == '0');
        assert(s.drop_first() =~= zero_run(n - 1) + digits);
    }
}

/// The significant digits of a number with zeros in front of normal digits are those digits.
proof fn lemma_significant_of_padded(u: Seq<char>, n: int, digits: Seq<char>)
    requires
        n >= 0,
        is_normal(digits),
        integer_part(u) + fraction_part(u) == zero_run(n) + digits,
    ensures
        significant_digits(u) == digits,
{
    lemma_drop_zeros(n, digits);
    if digits[0] == '0' {
        assert(digits.drop_first() =~= Seq::empty());
        assert(drop_leading(digits.drop_first(), CharClass::Only('0')).len() == 0);
        assert(significant_digits(u) =~= digits);
    }
}

/// What a placed number is made of: digits and a point, with a digit first and last.
pub open spec fn is_plain(s: Seq<char>) -> bool {
    &&& s.len() > 0
    &&& is_digit(s[0])
    &&& is_digit(s.last())
    &&& forall|i: int| 0 <= i < s.len() ==> is_digit(#[trigger] s[i]) || s[i] == '.'
}

/// A number with its places set reads back: its places, and its digits with the zeros that were
/// added behind them.
pub proof fn lemma_places_read_back(digits: Seq<char>, places: int)
    requires
        is_normal(digits),
    ensures
        ({
            let s = with_places(digits, places);
            &&& is_decimal(s)
            &&& is_plain(s)
            &&& fraction_part(s).len() == (if places > 0 {
                places
            } else {
                0
            })
            &&& significant_digits(s) == (if places > 0 {
                digits
            } else {
                with_places(digits, places)
            })
            &&& s == seq!['0'] <==> places <= 0 && digits == seq!['0']
        }),
{
    let s = with_places(digits, places);
    if places <= 0 {
        lemma_no_places(digits, places);
        lemma_whole(s);
        assert(s[0] == digits[0]);
        assert(is_normal(s));
        assert(integer_part(s) + fraction_part(s) =~= zero_run(0) + s);
        lemma_significant_of_padded(s, 0, s);
        if s == seq!['0'] && digits != seq!['0'] {
            assert(s.len() == 1);
            assert(digits =~= s);
        }
    } else if digits.len() <= places {
        let zeros = zero_run(places - digits.len());
        let b = zeros + digits;
        assert forall|i: int| 0 <= i < b.len() implies is_digit(#[trigger] b[i]) by {
            if i >= zeros.len() {
                assert(b[i] == digits[i - zeros.len()]);
            }
        }
        assert(s =~= seq!['0'] + seq!['.'] + b);
        lemma_without_point(seq!['0'], b);
        assert(seq!['0'] + b =~= zero_run(places - digits.len() + 1) + digits);
        lemma_significant_of_padded(s, places - digits.len() + 1, digits);
        assert forall|i: int| 0 <= i < s.len() implies is_digit(#[trigger] s[i]) || s[i]
            == '.' by {
            if i >= 2 {
                assert(s[i] == b[i - 2]);
            }
        }
        assert(s.last() == b[b.len() - 1]);
        assert(s.len() > 1);
    } else {
        let a = digits.take(digits.len() - places);
        let b = digits.skip(digits.len() - places);
        assert forall|i: int| 0 <= i < b.len() implies is_digit(#[trigger] b[i]) by {
            assert(b[i] == digits[i + digits.len() - places]);
        }
        lemma_without_point(a, b);
        assert(a + b =~= zero_run(0) + digits);
        lemma_significant_of_padded(s, 0, digits);
        assert forall|i: int| 0 <= i < s.len() implies is_digit(#[trigger] s[i]) || s[i]
            == '.' by {
            if i < a.len() {
                assert(s[i] == a[i]);
            } else if i > a.len() {
                assert(s[i] == b[i - a.len() - 1]);
            }
        }
        assert(s.last() == b[b.len() - 1]);
        assert(s[0] == a[0]);
        assert(s.len() > 1);
    }
}

proof fn lemma_without_comma(s: Seq<char>)
    requires
        forall|i: int| 0 <= i < s.len() ==> is_digit(#[trigger] s[i]) || s[i] == '.',
    ensures
        without(s, ',') == s,
    decreases s.len(),
{
    reveal(Seq::filter);
    if s.len() > 0 {
        assert forall|i: int| 0 <= i < s.len() - 1 implies is_digit(#[trigger] s.drop_last()[i])
            || s.drop_last()[i] == '.' by {
            assert(s.drop_last()[i] == s[i]);
        }
        lemma_without_comma(s.drop_last());
        assert(is_digit(s[s.len() - 1]) || s[s.len() - 1] == '.');
        assert(without(s, ',') =~= s);
    } else {
        assert(without(s, ',') =~= s);
    }
}

/// A plain number, with or without a minus sign, has nothing to trim, and its unsigned part is the
/// number.
proof fn lemma_plain_is_unsigned(s: Seq<char>)
    requires
        is_plain(s),
    ensures
        trim(s) == s,
        unsigned_part(s) == s,
        trim(seq!['-'] + s) == seq!['-'] + s,
        unsigned_part(seq!['-'] + s) == s,
{
    lemma_without_comma(s);
    let signed = seq!['-'] + s;
    assert(signed.drop_first() =~= s);
    assert(signed.last() == s.last());
    assert(signed[0] == '-');
}

/// Scales add up: to move the decimal point by `a` places and the result by `b` places to the right
/// is to move it by both at once. With no places in the second step, a result is as it would be
/// written anew.
pub proof fn law_scales_add_up(value: Seq<char>, a: int, b: int)
    requires
        scaled_decimal(value, a) is Some,
        b >= 0,
    ensures
        scaled_decimal(scaled_decimal(value, a)->Some_0, b) == scaled_decimal(value, a + b),
{
    let v = trim(value);
    let u = unsigned_part(v);
    let digits = significant_digits(u);
    let places = fraction_part(u).len() - a;
    let s = with_places(digits, places);
    let both = with_places(digits, places - b);
    lemma_significant_is_normal(u);
    lemma_places_read_back(digits, places);
    lemma_places_read_back(digits, places - b);
    lemma_plain_is_unsigned(s);
    assert((seq!['-'] + s)[0] == '-');
    let again = with_places(significant_digits(s), fraction_part(s).len() - b);
    assert(again == both) by {
        if places <= 0 && digits != seq!['0'] {
            assert(digits + zero_run(-places) + zero_run(b) =~= digits + zero_run(b - places));
        }
    }
}

// ---------------------------------------------------------------------------
// Functions
// ---------------------------------------------------------------------------

fn push_zeros(out: &mut Vec<char>, n: i128)
    ensures
        final(out)@ == old(out)@ + zero_run(n as int),
{
    let ghost start = out@;
    let mut i: i128 = 0;
    if n <= 0 {
        assert(out@ =~= start + zero_run(n as int));
        return;
    }
    assert(out@ =~= start + zero_run(0));
    while i < n
        invariant
            0 <= i <= n,
            out@ == start + zero_run(i as int),
        decreases n - i,
    {
        out.push('0');
        assert(out@ =~= start + zero_run(i + 1));
        i += 1;
    }
}

fn only_digits_in(s: &[char]) -> (r: bool)
    ensures
        r == all_digits(s@),
{
    let mut i: usize = 0;
    while i < s.len()
        invariant
            i <= s@.len(),
            forall|j: int| 0 <= j < i ==> is_digit(#[trigger] s@[j]),
        decreases s@.len() - i,
    {
        if !crate::text::char_is_digit(s[i]) {
            assert(!is_digit(s@[i as int]));
            return false;
        }
        i += 1;
    }
    true
}

fn set_places(digits: &[char], places: i128) -> (out: Vec<char>)
    requires
        -0x1_0000_0000_0000_0000_0000 < places < 0x1_0000_0000_0000_0000_0000,
    ensures
        out@ == with_places(digits@, places as int),
{
    let mut out: Vec<char> = Vec::new();
    if places <= 0 {
        push_chars(&mut out, digits);
        if !(digits.len() == 1 && digits[0] == '0') {
            assert(digits@ != seq!['0']) by {
                if digits@ == seq!['0'] {
                    assert(digits@[0] == '0' && digits@.len() == 1);
                }
            }
            push_zeros(&mut out, -places);
        } else {
            assert(digits@ =~= seq!['0']);
        }
    } else if digits.len() as i128 <= places {
        out.push('0');
        out.push('.');
        push_zeros(&mut out, places - digits.len() as i128);
        push_chars(&mut out, digits);
    } else {
        let point: usize = digits.len() - places as usize;
        push_chars(&mut out, slice_subrange(digits, 0, point));
        out.push('.');
        push_chars(&mut out, slice_subrange(digits, point, digits.len()));
    }
    assert(out@ =~= with_places(digits@, places as int));
    out
}

/// The number with its decimal point moved `scale` places to the right.
pub fn apply_decimal_scale(value: &str, scale: i32) -> (out: Option<String>)
    ensures
        opt_text(out) == scaled_decimal(value@, scale as int),
{
    let chars = chars_of(value);
    let v = trim_space(&chars);
    let signed = v.len() > 0 && (v[0] == '-' || v[0] == '+');
    let u = if signed {
        let rest = slice_subrange(v, 1, v.len());
        assert(rest@ =~= v@.drop_first());
        remove_char(rest, ',')
    } else {
        remove_char(v, ',')
    };
    assert(u@ == unsigned_part(v@));
    if u.len() == 0 {
        return None;
    }
    let point = index_of(&u, '.');
    let integer = slice_subrange(&u, 0, point);
    assert(integer@ =~= integer_part(u@));
    let fraction = if point < u.len() {
        slice_subrange(&u, point + 1, u.len())
    } else {
        slice_subrange(&u, point, point)
    };
    assert(fraction@ =~= fraction_part(u@));
    if !only_digits_in(integer) || !only_digits_in(fraction) {
        return None;
    }
    let mut whole = copy_chars(integer);
    push_chars(&mut whole, fraction);
    let stripped = without_leading(&whole, CharClass::Only('0'));
    let mut digits = copy_chars(stripped);
    if digits.len() == 0 {
        digits.push('0');
        assert(digits@ =~= seq!['0']);
    }
    assert(digits@ == significant_digits(u@));
    let places: i128 = fraction.len() as i128 - scale as i128;
    let s = set_places(&digits, places);
    if v[0] == '-' && !(s.len() == 1 && s[0] == '0') {
        assert(s@ != seq!['0']) by {
            if s@ == seq!['0'] {
                assert(s@[0] == '0' && s@.len() == 1);
            }
        }
        let mut out: Vec<char> = Vec::new();
        out.push('-');
        push_chars(&mut out, &s);
        assert(out@ =~= seq!['-'] + s@);
        return Some(string_of(&out));
    }
    assert(v@[0] == '-' ==> s@ =~= seq!['0']);
    Some(string_of(&s))
}

/// The value with its scale applied, where both are numbers.
pub fn scaled_value(value: Option<&str>, scale: Option<&String>) -> (out: Option<String>)
    ensures
        opt_text(out) == scaled(
            match value {
                Some(v) => Some(v@),
                None => None,
            },
            match scale {
                Some(s) => Some(s@),
                None => None,
            },
        ),
{
    match value {
        None => None,
        Some(v) => match scale {
            None => Some(v.to_owned()),
            Some(s) => match read_i32(&chars_of(s.as_str())) {
                None => Some(v.to_owned()),
                Some(n) => match apply_decimal_scale(v, n) {
                    Some(t) => Some(t),
                    None => Some(v.to_owned()),
                },
            },
        },
    }
}

} // verus!
