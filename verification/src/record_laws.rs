//! What the records of facts say, told from the facts.
use vstd::arithmetic::power::pow;
use vstd::prelude::*;

use crate::numeral::{all_digits, digits_value, parse_signed};
use crate::ordered_map::{lookup, Entries};
use crate::scale::{
    fraction_part, integer_part, is_decimal, is_normal, law_scaling_multiplies, lemma_no_places,
    lemma_places_read_back, lemma_significant_is_normal, lemma_whole, lemma_without_point, scaled,
    scaled_decimal, significant_digits, unpointed_value, unsigned_part, with_places,
};
use crate::text::{before, is_digit, join, lemma_before, split_once, trim, without};
use crate::text_laws::{is_trim_of, law_split_once, law_trim, law_trim_is_one, lemma_commas};
use crate::xbrl::{
    dimension_values, in_context, law_context_numbers_differ, law_context_numbers_stay, members_of,
    record_name, record_of, simple_records, used_contexts, FactModel, RecordModel,
};

verus! {

// ---------------------------------------------------------------------------
// Amounts
// ---------------------------------------------------------------------------

/// Whether a text is a sign, or none, and what stands behind it.
pub open spec fn is_signed(v: Seq<char>, negative: bool, rest: Seq<char>) -> bool {
    ||| negative && v == seq!['-'] + rest
    ||| !negative && v == seq!['+'] + rest
    ||| !negative && v == rest && (rest.len() > 0 ==> rest[0] != '-' && rest[0] != '+')
}

/// Whether a text is made of the digits before a point and of those behind it; where none stand
/// behind it, the point may be missing.
pub open spec fn is_pointed(u: Seq<char>, whole: Seq<char>, fraction: Seq<char>) -> bool {
    &&& all_digits(whole)
    &&& all_digits(fraction)
    &&& u.len() > 0
    &&& u == whole + seq!['.'] + fraction || (u == whole && fraction.len() == 0)
}

/// Whether `u` is `s` without its commas.
pub open spec fn is_bare(u: Seq<char>, s: Seq<char>) -> bool {
    u == s.filter(|c: char| c != ',')
}

/// Whether a text writes an amount: the given digits with a point before the last `places` of
/// them, with or without a sign, commas and white space around it.
pub open spec fn writes_amount(s: Seq<char>, negative: bool, digits: nat, places: nat) -> bool {
    exists|v: Seq<char>, rest: Seq<char>, u: Seq<char>, whole: Seq<char>, fraction: Seq<char>|
        #![trigger is_signed(v, negative, rest), is_bare(u, rest), is_pointed(u, whole, fraction)]
        is_trim_of(v, s) && is_signed(v, negative, rest) && is_bare(u, rest) && is_pointed(
            u,
            whole,
            fraction,
        ) && digits_value(whole + fraction) == digits && fraction.len() == places
}

/// Whether a text is the amount in its plain form: no zeros in front, as many places as are given,
/// no point where there are none, and a minus sign before it where it is negative and not `0`.
pub open spec fn is_plain_amount(t: Seq<char>, negative: bool, digits: nat, places: nat) -> bool {
    exists|whole: Seq<char>, fraction: Seq<char>|
        #![trigger all_digits(whole), all_digits(fraction)]
        {
            let body = if places == 0 {
                whole
            } else {
                whole + seq!['.'] + fraction
            };
            &&& all_digits(whole)
            &&& all_digits(fraction)
            &&& whole.len() > 0
            &&& whole == seq!['0'] || whole[0] != '0'
            &&& fraction.len() == places
            &&& digits_value(whole + fraction) == digits
            &&& t == (if negative && body != seq!['0'] {
                seq!['-'] + body
            } else {
                body
            })
        }
}

pub open spec fn positive_part(n: int) -> nat {
    if n > 0 {
        n as nat
    } else {
        0
    }
}

proof fn lemma_reads_amount(s: Seq<char>)
    requires
        is_decimal(unsigned_part(trim(s))),
    ensures
        ({
            let u = unsigned_part(trim(s));
            writes_amount(s, trim(s)[0] == '-', unpointed_value(u), fraction_part(u).len())
        }),
{
    let v = trim(s);
    let u = unsigned_part(v);
    law_trim(s);
    lemma_commas(v);
    lemma_commas(v.drop_first());
    if v.len() == 0 {
        reveal(Seq::filter);
    }
    let negative = v[0] == '-';
    let rest = if v[0] == '-' || v[0] == '+' {
        v.drop_first()
    } else {
        v
    };
    assert(v.len() > 0);
    assert(v =~= seq![v[0]] + v.drop_first());
    assert(is_signed(v, negative, rest));
    assert(is_bare(u, rest));
    lemma_before(u, '.');
    let n = before(u, '.') as int;
    let whole = integer_part(u);
    let fraction = fraction_part(u);
    if n < u.len() {
        assert(u =~= whole + seq!['.'] + fraction);
    } else {
        assert(u =~= whole);
    }
    assert(is_pointed(u, whole, fraction));
}

proof fn lemma_amount_is_read(s: Seq<char>, negative: bool, digits: nat, places: nat)
    requires
        writes_amount(s, negative, digits, places),
    ensures
        ({
            let u = unsigned_part(trim(s));
            &&& is_decimal(u)
            &&& negative == (trim(s)[0] == '-')
            &&& digits == unpointed_value(u)
            &&& places == fraction_part(u).len()
        }),
{
    let (v, rest, u, whole, fraction) = choose|
        v: Seq<char>,
        rest: Seq<char>,
        u: Seq<char>,
        whole: Seq<char>,
        fraction: Seq<char>,
    |
        #![trigger is_signed(v, negative, rest), is_bare(u, rest), is_pointed(u, whole, fraction)]
        is_trim_of(v, s) && is_signed(v, negative, rest) && is_bare(u, rest) && is_pointed(
            u,
            whole,
            fraction,
        ) && digits_value(whole + fraction) == digits && fraction.len() == places;
    law_trim_is_one(s, v);
    lemma_commas(v);
    lemma_commas(v.drop_first());
    if v.len() > 0 && (v[0] == '-' || v[0] == '+') {
        assert(v.drop_first() =~= rest);
    }
    if rest.len() == 0 {
        reveal(Seq::filter);
    }
    assert(rest.len() > 0);
    assert(u == unsigned_part(v));
    if u == whole && fraction.len() == 0 {
        lemma_whole(u);
        assert(fraction =~= Seq::<char>::empty());
    } else {
        lemma_without_point(whole, fraction);
    }
}

/// The digits of a number in normal form, with the point set, are a plain amount.
proof fn lemma_plain_amount(digits: Seq<char>, places: int, negative: bool)
    requires
        is_normal(digits),
    ensures
        ({
            let s = with_places(digits, places);
            let t = if negative && s != seq!['0'] {
                seq!['-'] + s
            } else {
                s
            };
            is_plain_amount(t, negative, unpointed_value(s), positive_part(places))
        }),
{
    let s = with_places(digits, places);
    lemma_places_read_back(digits, places);
    let none = Seq::<char>::empty();
    if places <= 0 {
        lemma_no_places(digits, places);
        lemma_whole(s);
        assert(s[0] == digits[0]);
        assert(s + none =~= s);
        assert(all_digits(s) && all_digits(none));
    } else if digits.len() <= places {
        let whole = seq!['0'];
        let fraction = fraction_part(s);
        let tail = crate::scale::zero_run(places - digits.len()) + digits;
        assert(s =~= whole + seq!['.'] + tail);
        assert(all_digits(tail)) by {
            assert forall|i: int| 0 <= i < tail.len() implies is_digit(#[trigger] tail[i]) by {
                if i >= places - digits.len() {
                    assert(tail[i] == digits[i - (places - digits.len())]);
                }
            }
        }
        lemma_without_point(whole, tail);
        assert(all_digits(whole) && all_digits(fraction));
    } else {
        let whole = digits.take(digits.len() - places);
        let fraction = digits.skip(digits.len() - places);
        assert(all_digits(whole)) by {
            assert forall|i: int| 0 <= i < whole.len() implies is_digit(#[trigger] whole[i]) by {
                assert(whole[i] == digits[i]);
            }
        }
        assert(all_digits(fraction)) by {
            assert forall|i: int| 0 <= i < fraction.len() implies is_digit(
                #[trigger] fraction[i],
            ) by {
                assert(fraction[i] == digits[i + digits.len() - places]);
            }
        }
        lemma_without_point(whole, fraction);
        assert(whole[0] == digits[0]);
        assert(all_digits(whole) && all_digits(fraction));
    }
}

/// A text that writes an amount is scaled to the plain form of that amount times ten to the power
/// of the scale; one that writes none is not scaled.
pub proof fn law_scaling_is_exact(value: Seq<char>, scale: int)
    ensures
        match scaled_decimal(value, scale) {
            Some(t) => exists|negative: bool, digits: nat, places: nat|
                #[trigger] writes_amount(value, negative, digits, places) && is_plain_amount(
                    t,
                    negative,
                    (digits * pow(10, positive_part(scale - places))) as nat,
                    positive_part(places - scale),
                ),
            None => forall|negative: bool, digits: nat, places: nat|
                !#[trigger] writes_amount(value, negative, digits, places),
        },
{
    let v = trim(value);
    let u = unsigned_part(v);
    match scaled_decimal(value, scale) {
        Some(t) => {
            lemma_reads_amount(value);
            let digits = unpointed_value(u);
            let places = fraction_part(u).len();
            lemma_significant_is_normal(u);
            lemma_plain_amount(significant_digits(u), places - scale, v[0] == '-');
            law_scaling_multiplies(u, scale);
            assert(writes_amount(value, v[0] == '-', digits, places));
        },
        None => {
            assert forall|negative: bool, digits: nat, places: nat| !#[trigger] writes_amount(
                value,
                negative,
                digits,
                places,
            ) by {
                if writes_amount(value, negative, digits, places) {
                    lemma_amount_is_read(value, negative, digits, places);
                }
            }
        },
    }
}

/// A text writes one amount at most.
pub proof fn law_amounts_are_one(
    s: Seq<char>,
    n1: bool,
    d1: nat,
    p1: nat,
    n2: bool,
    d2: nat,
    p2: nat,
)
    requires
        writes_amount(s, n1, d1, p1),
        writes_amount(s, n2, d2, p2),
    ensures
        n1 == n2 && d1 == d2 && p1 == p2,
{
    lemma_amount_is_read(s, n1, d1, p1);
    lemma_amount_is_read(s, n2, d2, p2);
}

/// Whether a text writes a scale: a number of 32 bits, with a sign or none.
pub open spec fn writes_scale(s: Seq<char>, n: int) -> bool {
    exists|digits: Seq<char>|
        #![trigger digits_value(digits)]
        digits.len() > 0 && all_digits(digits) && i32::MIN <= n <= i32::MAX && (n == digits_value(
            digits,
        ) && (s == digits || s == seq!['+'] + digits) || n == -digits_value(digits) && s
            == seq!['-'] + digits)
}

proof fn lemma_scale(s: Seq<char>)
    ensures
        parse_signed(s) matches Some(n) ==> writes_scale(s, n),
        forall|n: int| #[trigger] writes_scale(s, n) ==> parse_signed(s) == Some(n),
{
    if s.len() > 0 {
        assert(s =~= seq![s[0]] + s.drop_first());
    }
    if let Some(n) = parse_signed(s) {
        let digits = if s[0] == '-' || s[0] == '+' {
            s.drop_first()
        } else {
            s
        };
        assert(digits_value(digits) == n || -digits_value(digits) == n);
    }
    assert forall|n: int| #[trigger] writes_scale(s, n) implies parse_signed(s) == Some(n) by {
        let d = choose|d: Seq<char>|
            #![trigger digits_value(d)]
            d.len() > 0 && all_digits(d) && i32::MIN <= n <= i32::MAX && (n == digits_value(d) && (s
                == d || s == seq!['+'] + d) || n == -digits_value(d) && s == seq!['-'] + d);
        assert(is_digit(d[0]));
        assert((seq!['+'] + d).drop_first() =~= d);
        assert((seq!['-'] + d).drop_first() =~= d);
        assert((seq!['+'] + d)[0] == '+' && (seq!['-'] + d)[0] == '-');
    }
}

/// Whether a value is that of a fact with its scale: the plain form of the amount times ten to the
/// power of the scale, or the value of the fact where there is no scale or no amount.
pub open spec fn is_scaled_value(
    value: Option<Seq<char>>,
    val: Option<Seq<char>>,
    scale: Option<Seq<char>>,
) -> bool {
    match val {
        None => value is None,
        Some(v) => value matches Some(t) && {
            ||| t == v && (scale matches Some(s) ==> forall|k: int|
                !#[trigger] writes_scale(s, k))
            ||| t == v && forall|negative: bool, digits: nat, places: nat|
                !#[trigger] writes_amount(v, negative, digits, places)
            ||| scale matches Some(s) && exists|k: int, negative: bool, digits: nat, places: nat|
                #[trigger] writes_scale(s, k) && #[trigger] writes_amount(
                    v,
                    negative,
                    digits,
                    places,
                ) && is_plain_amount(
                    t,
                    negative,
                    (digits * pow(10, positive_part(k - places))) as nat,
                    positive_part(places - k),
                )
        },
    }
}

/// A value is scaled by what its scale writes, and by nothing else.
pub proof fn law_values_are_scaled(val: Option<Seq<char>>, scale: Option<Seq<char>>)
    ensures
        is_scaled_value(scaled(val, scale), val, scale),
{
    if let Some(v) = val {
        if let Some(s) = scale {
            lemma_scale(s);
            if let Some(k) = parse_signed(s) {
                law_scaling_is_exact(v, k);
                assert(writes_scale(s, k));
            }
        }
    }
}

/// Digits stand for a number by their places: each digit for itself, and what stands before the
/// last of them for ten times as much.
pub proof fn law_digits_count_by_place(a: Seq<char>, b: Seq<char>, c: char)
    ensures
        digits_value(Seq::<char>::empty()) == 0,
        is_digit(c) ==> digits_value(seq![c]) == c as int - '0' as int,
        digits_value(a + b) == digits_value(a) * pow(10, b.len()) + digits_value(b),
    decreases b.len(),
{
    assert(seq![c].drop_last() =~= Seq::<char>::empty());
    assert(digits_value(seq![c].drop_last()) == 0);
    reveal(pow);
    if b.len() == 0 {
        assert(a + b =~= a);
    } else {
        law_digits_count_by_place(a, b.drop_last(), c);
        assert((a + b).drop_last() =~= a + b.drop_last());
        let x = digits_value(a) as int;
        let p = pow(10, (b.len() - 1) as nat);
        assert((x * p) * 10 == x * (10 * p)) by (nonlinear_arith);
    }
}

// ---------------------------------------------------------------------------
// Records
// ---------------------------------------------------------------------------

/// Whether a value that may be missing is the one that stands in the entries under a key.
pub open spec fn is_entry(value: Option<Seq<char>>, entries: Entries, key: Seq<char>) -> bool {
    match value {
        Some(v) => exists|i: int|
            0 <= i < entries.len() && #[trigger] entries[i] == (key, v) && forall|j: int|
                0 <= j < i ==> (#[trigger] entries[j]).0 != key,
        None => forall|j: int| 0 <= j < entries.len() ==> (#[trigger] entries[j]).0 != key,
    }
}

/// What is looked up under a key is what stands there.
pub proof fn law_lookup_finds_entry(entries: Entries, key: Seq<char>)
    ensures
        is_entry(lookup(entries, key), entries, key),
    decreases entries.len(),
{
    if entries.len() > 0 {
        let rest = entries.drop_first();
        law_lookup_finds_entry(rest, key);
        if entries[0].0 == key {
            assert(entries[0] == (key, entries[0].1));
        } else {
            match lookup(rest, key) {
                Some(v) => {
                    let i = choose|i: int|
                        0 <= i < rest.len() && #[trigger] rest[i] == (key, v) && forall|j: int|
                            0 <= j < i ==> (#[trigger] rest[j]).0 != key;
                    assert(entries[i + 1] == (key, v));
                    assert forall|j: int| 0 <= j < i + 1 implies (#[trigger] entries[j]).0
                        != key by {
                        if j > 0 {
                            assert(rest[j - 1] == entries[j]);
                        }
                    }
                },
                None => {
                    assert forall|j: int| 0 <= j < entries.len() implies (#[trigger] entries[j]).0
                        != key by {
                        if j > 0 {
                            assert(rest[j - 1] == entries[j]);
                        }
                    }
                },
            }
        }
    }
}

/// Whether a value is the one that the context of a fact has under a key.
pub open spec fn is_context_entry(
    value: Option<Seq<char>>,
    fact: FactModel,
    key: Seq<char>,
) -> bool {
    match fact.context {
        Some(c) => is_entry(value, c, key),
        None => value is None,
    }
}

proof fn lemma_context_entry(fact: FactModel, key: Seq<char>)
    ensures
        is_context_entry(in_context(fact, key), fact, key),
{
    if let Some(c) = fact.context {
        law_lookup_finds_entry(c, key);
    }
}

/// Whether an entry gives the member of a dimension.
pub open spec fn is_dimension(entry: (Seq<char>, Seq<char>)) -> bool {
    "dimension:"@.is_prefix_of(entry.0) && entry.1.len() > 0
}

/// Whether `values` are the members of the dimensions among the entries, in their order: the
/// entry `at[i]` gives the `i`-th of them.
pub open spec fn are_dimensions(values: Seq<Seq<char>>, entries: Entries, at: Seq<int>) -> bool {
    &&& values.len() == at.len()
    &&& forall|i: int, j: int| 0 <= i < j < at.len() ==> #[trigger] at[i] < #[trigger] at[j]
    &&& forall|i: int|
        0 <= i < at.len() ==> 0 <= #[trigger] at[i] < entries.len() && is_dimension(entries[at[i]])
            && values[i] == entries[at[i]].1
    &&& forall|k: int|
        0 <= k < entries.len() && is_dimension(#[trigger] entries[k]) ==> at.contains(k)
}

proof fn lemma_dimensions(entries: Entries, n: nat) -> (at: Seq<int>)
    requires
        n <= entries.len(),
    ensures
        are_dimensions(dimension_values(entries, n), entries.take(n as int), at),
    decreases n,
{
    if n == 0 {
        Seq::empty()
    } else {
        let before = lemma_dimensions(entries, (n - 1) as nat);
        let part = entries.take(n - 1);
        let all = entries.take(n as int);
        let e = entries[n - 1];
        assert(all =~= part.push(e));
        let at = if is_dimension(e) {
            before.push(n - 1)
        } else {
            before
        };
        let earlier = dimension_values(entries, (n - 1) as nat);
        let values = dimension_values(entries, n);
        assert forall|k: int| 0 <= k < all.len() && is_dimension(
            #[trigger] all[k],
        ) implies at.contains(k) by {
            if k < part.len() {
                assert(is_dimension(part[k]));
                let i = choose|i: int| 0 <= i < before.len() && before[i] == k;
                assert(at[i] == k);
            } else {
                assert(at[before.len() as int] == k);
            }
        }
        assert forall|i: int| 0 <= i < at.len() implies 0 <= #[trigger] at[i] < all.len()
            && is_dimension(all[at[i]]) && values[i] == all[at[i]].1 by {
            if i < before.len() {
                assert(at[i] == before[i]);
                assert(all[at[i]] == part[before[i]]);
                assert(values[i] == earlier[i]);
            }
        }
        at
    }
}

/// Whether the members of a record are those that a context names: the one under a key of its own,
/// where that is not empty, or those of its dimensions with commas between.
pub open spec fn are_members(members: Option<Seq<char>>, c: Entries) -> bool {
    exists|segment: Option<Seq<char>>, plain: Option<Seq<char>>|
        #[trigger] is_entry(segment, c, "entity_segment_explicitmember"@) && #[trigger] is_entry(
            plain,
            c,
            "explicitmember"@,
        ) && {
            let own = if segment is Some {
                segment
            } else {
                plain
            };
            if own matches Some(m) && m.len() > 0 {
                members == own
            } else {
                exists|values: Seq<Seq<char>>, at: Seq<int>|
                    #[trigger] are_dimensions(values, c, at) && members == (if values.len() > 0 {
                        Some(join(values, ","@))
                    } else {
                        None
                    })
            }
        }
}

/// The members of a record are those that its context names.
pub proof fn law_members_are_named(c: Entries)
    ensures
        are_members(members_of(c), c),
{
    let segment = lookup(c, "entity_segment_explicitmember"@);
    let plain = lookup(c, "explicitmember"@);
    law_lookup_finds_entry(c, "entity_segment_explicitmember"@);
    law_lookup_finds_entry(c, "explicitmember"@);
    assert(is_entry(segment, c, "entity_segment_explicitmember"@) && is_entry(
        plain,
        c,
        "explicitmember"@,
    ));
    let at = lemma_dimensions(c, c.len());
    assert(c.take(c.len() as int) =~= c);
    assert(are_dimensions(dimension_values(c, c.len()), c, at));
}

/// Whether a full name is made of a taxonomy and a name, with the first colon between them.
pub open spec fn is_full_name(full: Seq<char>, taxonomy: Seq<char>, name: Seq<char>) -> bool {
    &&& full == taxonomy + seq![':'] + name
    &&& !taxonomy.contains(':')
    &&& taxonomy.len() > 0
    &&& name.len() > 0
}

/// Whether a fact has a full name.
pub open spec fn has_full_name(fact: FactModel) -> bool {
    exists|full: Seq<char>, taxonomy: Seq<char>, name: Seq<char>|
        #[trigger] is_full_name(full, taxonomy, name) && is_entry(
            Some(full),
            fact.attributes,
            "name"@,
        )
}

/// Whether a record says what its fact says, but for the number of its context.
pub open spec fn is_record_of(r: RecordModel, fact: FactModel, accession_number: u64) -> bool {
    &&& r.accession_number == accession_number
    &&& exists|full: Seq<char>|
        #[trigger] is_full_name(full, r.taxonomy, r.name) && is_entry(
            Some(full),
            fact.attributes,
            "name"@,
        )
    &&& exists|scale: Option<Seq<char>>|
        #[trigger] is_entry(scale, fact.attributes, "scale"@) && is_scaled_value(
            r.value,
            fact.val,
            scale,
        )
    &&& exists|instant: Option<Seq<char>>, start: Option<Seq<char>>|
        #[trigger] is_context_entry(instant, fact, "period_instant"@)
            && #[trigger] is_context_entry(start, fact, "period_startdate"@)
            && r.period_start_date == (if instant is Some {
            instant
        } else {
            start
        })
    &&& is_context_entry(r.period_end_date, fact, "period_enddate"@)
    &&& match fact.context {
        Some(c) => are_members(r.members, c),
        None => r.members is None,
    }
}

proof fn lemma_record_name(fact: FactModel)
    ensures
        match record_name(fact) {
            Some((taxonomy, name)) => exists|full: Seq<char>|
                #[trigger] is_full_name(full, taxonomy, name) && is_entry(
                    Some(full),
                    fact.attributes,
                    "name"@,
                ),
            None => !has_full_name(fact),
        },
        record_name(fact) is Some <==> has_full_name(fact),
{
    law_lookup_finds_entry(fact.attributes, "name"@);
    match lookup(fact.attributes, "name"@) {
        Some(full) => {
            law_split_once(full, ':');
            if let Some((taxonomy, name)) = record_name(fact) {
                assert(is_full_name(full, taxonomy, name));
            } else if has_full_name(fact) {
                let (f, taxonomy, name) = choose|
                    f: Seq<char>,
                    taxonomy: Seq<char>,
                    name: Seq<char>,
                |
                    #[trigger] is_full_name(f, taxonomy, name) && is_entry(
                        Some(f),
                        fact.attributes,
                        "name"@,
                    );
                lemma_entry_is_one(fact.attributes, "name"@, Some(f), Some(full));
                assert(full[taxonomy.len() as int] == ':');
                assert(full.contains(':'));
                let (t, n) = split_once(full, ':')->Some_0;
                if t.len() < taxonomy.len() {
                    assert(full[t.len() as int] == ':');
                    assert(taxonomy[t.len() as int] == ':');
                }
                if t.len() > taxonomy.len() {
                    assert(t[taxonomy.len() as int] == ':');
                }
            }
        },
        None => {
            if has_full_name(fact) {
                let (f, taxonomy, name) = choose|
                    f: Seq<char>,
                    taxonomy: Seq<char>,
                    name: Seq<char>,
                |
                    #[trigger] is_full_name(f, taxonomy, name) && is_entry(
                        Some(f),
                        fact.attributes,
                        "name"@,
                    );
                lemma_entry_is_one(fact.attributes, "name"@, Some(f), None);
            }
        },
    }
}

/// One value at most stands under a key.
pub proof fn lemma_entry_is_one(
    entries: Entries,
    key: Seq<char>,
    a: Option<Seq<char>>,
    b: Option<Seq<char>>,
)
    requires
        is_entry(a, entries, key),
        is_entry(b, entries, key),
    ensures
        a == b,
{
    if let Some(v) = a {
        let i = choose|i: int|
            0 <= i < entries.len() && #[trigger] entries[i] == (key, v) && forall|j: int|
                0 <= j < i ==> (#[trigger] entries[j]).0 != key;
        if let Some(w) = b {
            let k = choose|k: int|
                0 <= k < entries.len() && #[trigger] entries[k] == (key, w) && forall|j: int|
                    0 <= j < k ==> (#[trigger] entries[j]).0 != key;
            assert(entries[i].0 == key && entries[k].0 == key);
        } else {
            assert(entries[i].0 != key);
        }
    } else if let Some(w) = b {
        let k = choose|k: int| 0 <= k < entries.len() && #[trigger] entries[k] == (key, w);
        assert(entries[k].0 != key);
    }
}

/// Whether `at` names, in order, the facts that have a full name.
pub open spec fn names_recorded(at: Seq<int>, facts: Seq<FactModel>) -> bool {
    &&& forall|i: int, j: int| 0 <= i < j < at.len() ==> #[trigger] at[i] < #[trigger] at[j]
    &&& forall|i: int|
        0 <= i < at.len() ==> 0 <= #[trigger] at[i] < facts.len() && has_full_name(facts[at[i]])
    &&& forall|k: int|
        0 <= k < facts.len() && has_full_name(#[trigger] facts[k]) ==> at.contains(k)
}

/// The context that a fact refers to, if it does, has the name `r`.
pub open spec fn refers_to(fact: FactModel, r: Seq<char>) -> bool {
    is_context_entry(Some(r), fact, "_contextref"@)
}

/// Whether the records number the contexts of their facts: a record has a number if and only if its
/// fact refers to a context, two records have the same number if and only if their facts refer to
/// the same context, and a context that is new has the number after all those before it, which are
/// counted from zero.
pub open spec fn numbers_contexts(
    records: Seq<RecordModel>,
    facts: Seq<FactModel>,
    at: Seq<int>,
) -> bool {
    &&& forall|i: int|
        0 <= i < at.len() ==> ((#[trigger] records[i]).context_id is Some <==> exists|r: Seq<char>|
            refers_to(facts[at[i]], r))
    &&& forall|i: int, j: int, r: Seq<char>, s: Seq<char>|
        0 <= i < at.len() && 0 <= j < at.len() && #[trigger] refers_to(facts[at[i]], r)
            && #[trigger] refers_to(facts[at[j]], s) ==> (records[i].context_id
            == records[j].context_id <==> r == s)
    &&& forall|i: int|
        0 <= i < at.len() ==> ((#[trigger] records[i]).context_id matches Some(n) ==> n >= 0 && (n
            == 0 || exists|j: int|
            0 <= j < i && (#[trigger] records[j]).context_id == Some(n - 1)))
}

/// The context that a fact refers to.
spec fn context_name(fact: FactModel) -> Option<Seq<char>> {
    in_context(fact, "_contextref"@)
}

/// The number that a context has once the given facts are counted.
spec fn number_in(fact: FactModel, facts: Seq<FactModel>) -> Option<int> {
    match context_name(fact) {
        Some(r) => Some(used_contexts(facts).index_of(r)),
        None => None,
    }
}

proof fn lemma_context_name(fact: FactModel)
    ensures
        forall|r: Seq<char>|
            #[trigger] refers_to(fact, r) <==> context_name(fact) == Some(r),
{
    lemma_context_entry(fact, "_contextref"@);
    assert forall|r: Seq<char>| #[trigger] refers_to(fact, r) <==> context_name(fact) == Some(
        r,
    ) by {
        if let Some(c) = fact.context {
            if refers_to(fact, r) {
                lemma_entry_is_one(c, "_contextref"@, Some(r), context_name(fact));
            }
        }
    }
}

proof fn lemma_record(accession_number: u64, fact: FactModel, contexts: Seq<Seq<char>>)
    requires
        record_name(fact) is Some,
    ensures
        ({
            let (taxonomy, name) = record_name(fact)->0;
            let r = record_of(accession_number, fact, taxonomy, name, contexts);
            is_record_of(r, fact, accession_number)
        }),
{
    let (taxonomy, name) = record_name(fact)->0;
    let r = record_of(accession_number, fact, taxonomy, name, contexts);
    lemma_record_name(fact);
    let full = choose|full: Seq<char>|
        #[trigger] is_full_name(full, taxonomy, name) && is_entry(
            Some(full),
            fact.attributes,
            "name"@,
        );
    assert(is_full_name(full, r.taxonomy, r.name));
    let scale = lookup(fact.attributes, "scale"@);
    law_lookup_finds_entry(fact.attributes, "scale"@);
    law_values_are_scaled(fact.val, scale);
    assert(is_entry(scale, fact.attributes, "scale"@));
    lemma_context_entry(fact, "period_instant"@);
    lemma_context_entry(fact, "period_startdate"@);
    lemma_context_entry(fact, "period_enddate"@);
    let instant = in_context(fact, "period_instant"@);
    let start = in_context(fact, "period_startdate"@);
    assert(is_context_entry(instant, fact, "period_instant"@) && is_context_entry(
        start,
        fact,
        "period_startdate"@,
    ));
    if let Some(c) = fact.context {
        law_members_are_named(c);
    }
}

proof fn lemma_records(accession_number: u64, facts: Seq<FactModel>) -> (at: Seq<int>)
    ensures
        names_recorded(at, facts),
        ({
            let records = simple_records(accession_number, facts);
            &&& records.len() == at.len()
            &&& forall|k: int|
                0 <= k < at.len() ==> is_record_of(
                    #[trigger] records[k],
                    facts[at[k]],
                    accession_number,
                ) && records[k].context_id == number_in(facts[at[k]], facts.take(at[k] + 1))
        }),
    decreases facts.len(),
{
    if facts.len() == 0 {
        Seq::empty()
    } else {
        let part = facts.drop_last();
        let fact = facts.last();
        let n = facts.len() - 1;
        let before = lemma_records(accession_number, part);
        let at = if has_full_name(fact) {
            before.push(n)
        } else {
            before
        };
        let earlier = simple_records(accession_number, part);
        let records = simple_records(accession_number, facts);
        lemma_record_name(fact);
        if has_full_name(fact) {
            lemma_record(accession_number, fact, used_contexts(facts));
            assert(facts.take(n + 1) =~= facts);
        }
        assert forall|k: int| 0 <= k < facts.len() && has_full_name(
            #[trigger] facts[k],
        ) implies at.contains(k) by {
            if k < n {
                assert(part[k] == facts[k]);
                let i = choose|i: int| 0 <= i < before.len() && before[i] == k;
                assert(at[i] == k);
            } else {
                assert(at[before.len() as int] == k);
            }
        }
        assert forall|i: int| 0 <= i < at.len() implies 0 <= #[trigger] at[i] < facts.len()
            && has_full_name(facts[at[i]]) by {
            if i < before.len() {
                assert(at[i] == before[i]);
                assert(part[before[i]] == facts[at[i]]);
            }
        }
        assert forall|k: int| 0 <= k < at.len() implies is_record_of(
            #[trigger] records[k],
            facts[at[k]],
            accession_number,
        ) && records[k].context_id == number_in(facts[at[k]], facts.take(at[k] + 1)) by {
            if k < before.len() {
                assert(at[k] == before[k]);
                assert(records[k] == earlier[k]);
                assert(part[before[k]] == facts[at[k]]);
                assert(part.take(before[k] + 1) =~= facts.take(at[k] + 1));
            }
        }
        at
    }
}

/// Every context that is counted is one that an earlier fact with a full name refers to.
proof fn lemma_used_by(facts: Seq<FactModel>, r: Seq<char>) -> (i: int)
    requires
        used_contexts(facts).contains(r),
    ensures
        0 <= i < facts.len(),
        has_full_name(facts[i]),
        context_name(facts[i]) == Some(r),
    decreases facts.len(),
{
    let earlier = used_contexts(facts.drop_last());
    lemma_record_name(facts.last());
    if earlier.contains(r) {
        let i = lemma_used_by(facts.drop_last(), r);
        assert(facts.drop_last()[i] == facts[i]);
        i
    } else {
        let all = used_contexts(facts);
        let k = choose|k: int| 0 <= k < all.len() && all[k] == r;
        if k < earlier.len() {
            assert(earlier[k] == r);
        }
        facts.len() - 1
    }
}

proof fn lemma_counted(facts: Seq<FactModel>, i: int)
    requires
        0 <= i < facts.len(),
        has_full_name(facts[i]),
        context_name(facts[i]) is Some,
    ensures
        used_contexts(facts.take(i + 1)).contains(context_name(facts[i])->0),
{
    let part = facts.take(i + 1);
    let r = context_name(facts[i])->0;
    assert(part.drop_last() =~= facts.take(i));
    assert(part.last() == facts[i]);
    lemma_record_name(facts[i]);
    let earlier = used_contexts(facts.take(i));
    if !earlier.contains(r) {
        assert(used_contexts(part) == earlier.push(r));
        assert(earlier.push(r)[earlier.len() as int] == r);
    }
}

proof fn lemma_numbers(
    accession_number: u64,
    facts: Seq<FactModel>,
    at: Seq<int>,
    i: int,
)
    requires
        names_recorded(at, facts),
        0 <= i < at.len(),
        context_name(facts[at[i]]) is Some,
    ensures
        ({
            let r = context_name(facts[at[i]])->0;
            let n = used_contexts(facts.take(at[i] + 1)).index_of(r);
            &&& used_contexts(facts).contains(r)
            &&& n == used_contexts(facts).index_of(r)
            &&& n >= 0
            &&& n == 0 || exists|j: int|
                0 <= j < i && number_in(#[trigger] facts[at[j]], facts.take(at[j] + 1)) == Some(
                    n - 1,
                )
        }),
{
    let f = facts[at[i]];
    let r = context_name(f)->0;
    let part = facts.take(at[i] + 1);
    lemma_counted(facts, at[i]);
    let used = used_contexts(part);
    let all = used_contexts(facts);
    assert(facts.take(facts.len() as int) =~= facts);
    lemma_grows(facts, at[i] + 1, r);
    law_context_numbers_stay(facts, at[i] + 1, r, r);
    let n = used.index_of(r);
    assert(0 <= n < used.len() && used[n] == r);
    if n > 0 {
        let q = used[n - 1];
        assert(used.contains(q));
        law_context_numbers_differ(part);
        // The context before it was counted with an earlier fact.
        let before = used_contexts(facts.take(at[i]));
        assert(part.drop_last() =~= facts.take(at[i]));
        assert(part.last() == f);
        assert(before.contains(q)) by {
            if before.contains(r) {
                assert(used == before);
            } else {
                assert(used == before.push(r) || used == before);
                if n < before.len() {
                    assert(before[n] == r);
                }
                assert(before[n - 1] == q);
            }
        }
        let m = lemma_used_by(facts.take(at[i]), q);
        assert(facts.take(at[i])[m] == facts[m]);
        assert(at.contains(m));
        let j = choose|j: int| 0 <= j < at.len() && at[j] == m;
        assert(j < i) by {
            if j > i {
                assert(at[i] < at[j]);
            }
        }
        lemma_counted(facts, m);
        lemma_grows(facts, m + 1, q);
        law_context_numbers_stay(facts, m + 1, q, q);
        lemma_grows(facts, at[i] + 1, q);
        law_context_numbers_stay(facts, at[i] + 1, q, q);
        let p = used.index_of(q);
        assert(0 <= p < used.len() && used[p] == q);
        assert(p == n - 1);
        assert(number_in(facts[at[j]], facts.take(at[j] + 1)) == Some(n - 1));
    }
}

/// What is counted early is counted at the end.
proof fn lemma_grows(facts: Seq<FactModel>, n: int, r: Seq<char>)
    requires
        0 <= n <= facts.len(),
        used_contexts(facts.take(n)).contains(r),
    ensures
        used_contexts(facts).contains(r),
    decreases facts.len() - n,
{
    if n < facts.len() {
        let part = used_contexts(facts.take(n));
        let next = used_contexts(facts.take(n + 1));
        assert(facts.take(n + 1).drop_last() =~= facts.take(n));
        let i = choose|i: int| 0 <= i < part.len() && part[i] == r;
        assert(next[i] == r);
        lemma_grows(facts, n + 1, r);
    } else {
        assert(facts.take(n) =~= facts);
    }
}

/// There is one record for each fact with a full name, in the order of the facts. It has the name
/// and the taxonomy of the fact, its value times ten to the power of its scale, and the period and
/// the members of its context. The contexts are numbered in the order of their first use.
pub proof fn law_records_say_what_facts_say(accession_number: u64, facts: Seq<FactModel>)
    ensures
        exists|at: Seq<int>|
            #[trigger] names_recorded(at, facts) && {
                let records = simple_records(accession_number, facts);
                &&& records.len() == at.len()
                &&& forall|k: int|
                    0 <= k < at.len() ==> is_record_of(
                        #[trigger] records[k],
                        facts[at[k]],
                        accession_number,
                    )
                &&& numbers_contexts(records, facts, at)
            },
{
    let at = lemma_records(accession_number, facts);
    let records = simple_records(accession_number, facts);
    assert forall|i: int| 0 <= i < at.len() implies ((#[trigger] records[i]).context_id is Some
        <==> exists|r: Seq<char>| refers_to(facts[at[i]], r)) by {
        lemma_context_name(facts[at[i]]);
        if let Some(r) = context_name(facts[at[i]]) {
            assert(refers_to(facts[at[i]], r));
        }
    }
    assert forall|i: int, j: int, r: Seq<char>, s: Seq<char>|
        0 <= i < at.len() && 0 <= j < at.len() && #[trigger] refers_to(facts[at[i]], r)
            && #[trigger] refers_to(facts[at[j]], s) implies (records[i].context_id
        == records[j].context_id <==> r == s) by {
        lemma_context_name(facts[at[i]]);
        lemma_context_name(facts[at[j]]);
        lemma_numbers(accession_number, facts, at, i);
        lemma_numbers(accession_number, facts, at, j);
        let all = used_contexts(facts);
        let a = all.index_of(r);
        let b = all.index_of(s);
        assert(0 <= a < all.len() && all[a] == r);
        assert(0 <= b < all.len() && all[b] == s);
        assert(is_record_of(records[i], facts[at[i]], accession_number));
        assert(is_record_of(records[j], facts[at[j]], accession_number));
    }
    assert forall|i: int| 0 <= i < at.len() implies ((#[trigger] records[i]).context_id matches
        Some(n) ==> n >= 0 && (n == 0 || exists|j: int|
        0 <= j < i && (#[trigger] records[j]).context_id == Some(n - 1))) by {
        if let Some(n) = records[i].context_id {
            lemma_numbers(accession_number, facts, at, i);
            if n > 0 {
                let j = choose|j: int|
                    0 <= j < i && number_in(#[trigger] facts[at[j]], facts.take(at[j] + 1))
                        == Some(n - 1);
                assert(is_record_of(records[j], facts[at[j]], accession_number));
                assert(records[j].context_id == Some(n - 1));
            }
        }
    }
}

/// The value of a record depends on the value of its fact and on its scale alone.
pub proof fn law_records_of_like_facts_agree(accession_number: u64, a: FactModel, b: FactModel)
    requires
        a.val == b.val,
        has_full_name(a) && has_full_name(b),
        exists|scale: Option<Seq<char>>|
            #[trigger] is_entry(scale, a.attributes, "scale"@) && is_entry(
                scale,
                b.attributes,
                "scale"@,
            ),
    ensures
        simple_records(accession_number, seq![a]).len() == 1,
        simple_records(accession_number, seq![b]).len() == 1,
        simple_records(accession_number, seq![a])[0].value == simple_records(
            accession_number,
            seq![b],
        )[0].value,
{
    lemma_record_name(a);
    lemma_record_name(b);
    assert(seq![a].drop_last() =~= Seq::empty());
    assert(seq![b].drop_last() =~= Seq::empty());
    reveal_with_fuel(simple_records, 2);
    let scale = choose|scale: Option<Seq<char>>|
        #[trigger] is_entry(scale, a.attributes, "scale"@) && is_entry(
            scale,
            b.attributes,
            "scale"@,
        );
    law_lookup_finds_entry(a.attributes, "scale"@);
    law_lookup_finds_entry(b.attributes, "scale"@);
    lemma_entry_is_one(a.attributes, "scale"@, scale, lookup(a.attributes, "scale"@));
    lemma_entry_is_one(b.attributes, "scale"@, scale, lookup(b.attributes, "scale"@));
}

} // verus!
