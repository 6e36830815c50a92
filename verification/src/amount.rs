//! Amounts of money: reading a decimal text as cents, and writing cents as a decimal text.

use vstd::prelude::*;
use vstd::string::*;
use crate::database::Database;
use crate::text::{
    all_digits, chars_of, decimal, digit_value, digits_value, is_digit, is_space,
    lemma_decimal_round_trip, push_decimal, push_two_digits, slice_of, trim_bounds, trim_end,
    trim_start, trimmed, two_digits,
};

verus! {

/// A currency symbol or a thousands separator: `$`, the euro sign, the pound sign or a comma.
pub open spec fn is_mark(c: char) -> bool {
    c == '$' || c == '\u{20ac}' || c == '\u{a3}' || c == ','
}

/// `s` without currency symbols and thousands separators.
pub open spec fn strip_marks(s: Seq<char>) -> Seq<char>
    decreases s.len(),
{
    if s.len() == 0 {
        s
    } else if is_mark(s.last()) {
        strip_marks(s.drop_last())
    } else {
        strip_marks(s.drop_last()).push(s.last())
    }
}

/// Where the first point of `s` stands, or the length of `s` if it has none.
pub open spec fn first_dot(s: Seq<char>) -> int
    decreases s.len(),
{
    if s.len() == 0 || s.first() == '.' {
        0
    } else {
        1 + first_dot(s.drop_first())
    }
}

/// What stands before the first point.
pub open spec fn whole_part(body: Seq<char>) -> Seq<char> {
    body.take(first_dot(body))
}

/// What stands after the first point.
pub open spec fn fraction_part(body: Seq<char>) -> Seq<char> {
    if first_dot(body) < body.len() {
        body.skip(first_dot(body) + 1)
    } else {
        Seq::empty()
    }
}

/// The digit at place `i` of a fraction, zero beyond its end.
pub open spec fn fraction_digit(fraction: Seq<char>, i: int) -> int {
    if i < fraction.len() {
        digit_value(fraction[i])
    } else {
        0
    }
}

/// An unsigned decimal number: digits, with at most one point among them, and at least one
/// digit.
pub open spec fn is_decimal(body: Seq<char>) -> bool {
    &&& all_digits(whole_part(body))
    &&& all_digits(fraction_part(body))
    &&& whole_part(body).len() + fraction_part(body).len() >= 1
}

/// The cents of an unsigned decimal number: a hundred times its value, rounded to the nearest
/// integer, halves upwards.
pub open spec fn magnitude_cents(body: Seq<char>) -> nat {
    let f = fraction_part(body);
    (digits_value(whole_part(body)) * 100 + fraction_digit(f, 0) * 10 + fraction_digit(f, 1) + (
    if fraction_digit(f, 2) >= 5 {
        1int
    } else {
        0int
    })) as nat
}

/// Whether a text begins with a plus or a minus sign.
pub open spec fn has_sign(t: Seq<char>) -> bool {
    t.len() > 0 && (t.first() == '-' || t.first() == '+')
}

/// A text without the sign that it begins with.
pub open spec fn unsigned_part(t: Seq<char>) -> Seq<char> {
    if has_sign(t) {
        t.drop_first()
    } else {
        t
    }
}

/// The nearest value that 64 bits hold.
pub open spec fn clamp_i64(v: int) -> int {
    if v < i64::MIN {
        i64::MIN as int
    } else if v > i64::MAX {
        i64::MAX as int
    } else {
        v
    }
}

/// The cents of a signed decimal number, rounded half away from zero and held to 64 bits;
/// `None` where `t` is no decimal number.
pub open spec fn decimal_cents(t: Seq<char>) -> Option<int> {
    let body = unsigned_part(t);
    if is_decimal(body) {
        if has_sign(t) && t.first() == '-' {
            Some(clamp_i64(-magnitude_cents(body)))
        } else {
            Some(clamp_i64(magnitude_cents(body) as int))
        }
    } else {
        None
    }
}

/// The cents that an amount as written in a file stands for: currency symbols and thousands
/// separators are dropped, then surrounding white space, and the rest is read as a decimal
/// number.
pub open spec fn amount_cents(s: Seq<char>) -> Option<int> {
    decimal_cents(trimmed(strip_marks(s)))
}

/// Cents as a decimal number of major units with two places.
pub open spec fn amount_text(cents: int) -> Seq<char> {
    let m = (if cents < 0 {
        -cents
    } else {
        cents
    }) as nat;
    (if cents < 0 {
        seq!['-']
    } else {
        Seq::<char>::empty()
    }) + decimal(m / 100) + seq!['.'] + two_digits(m % 100)
}

proof fn lemma_first_dot_bounds(s: Seq<char>)
    ensures
        0 <= first_dot(s) <= s.len(),
        forall|i: int| 0 <= i < first_dot(s) ==> s[i] != '.',
        first_dot(s) < s.len() ==> s[first_dot(s)] == '.',
    decreases s.len(),
{
    if s.len() == 0 || s.first() == '.' {
    } else {
        let t = s.drop_first();
        lemma_first_dot_bounds(t);
        assert forall|i: int| 0 <= i < first_dot(s) implies s[i] != '.' by {
            if i > 0 {
                assert(s[i] == t[i - 1]);
            }
        }
    }
}

proof fn lemma_first_dot_at(s: Seq<char>, p: int)
    requires
        0 <= p <= s.len(),
        forall|i: int| 0 <= i < p ==> s[i] != '.',
        p == s.len() || s[p] == '.',
    ensures
        first_dot(s) == p,
{
    lemma_first_dot_bounds(s);
}

proof fn lemma_strip_marks_identity(s: Seq<char>)
    requires
        forall|i: int| 0 <= i < s.len() ==> !is_mark(#[trigger] s[i]),
    ensures
        strip_marks(s) == s,
    decreases s.len(),
{
    if s.len() > 0 {
        lemma_strip_marks_identity(s.drop_last());
        assert(s.drop_last().push(s.last()) =~= s);
    }
}

/// An amount as it is written holds no currency symbol, no separator and no white space:
/// stripping and trimming leave it as it is.
pub proof fn lemma_amount_text_is_plain(cents: int)
    ensures
        strip_marks(amount_text(cents)) == amount_text(cents),
        trimmed(amount_text(cents)) == amount_text(cents),
{
    let m = (if cents < 0 {
        -cents
    } else {
        cents
    }) as nat;
    let sign = if cents < 0 {
        seq!['-']
    } else {
        Seq::<char>::empty()
    };
    let d = decimal(m / 100);
    let ff = two_digits(m % 100);
    let t = amount_text(cents);
    lemma_decimal_round_trip(m / 100);
    let body = d + seq!['.'] + ff;
    assert(t =~= sign + body);
    assert(is_digit(ff[0]) && is_digit(ff[1]));
    assert forall|i: int| 0 <= i < t.len() implies !is_mark(#[trigger] t[i]) && !is_space(t[i]) by {
        if i < sign.len() {
        } else {
            let j = i - sign.len();
            assert(t[i] == body[j]);
            if j < d.len() {
                assert(body[j] == d[j]);
            } else if j == d.len() {
            } else {
                assert(body[j] == ff[j - d.len() - 1]);
            }
        }
    }
    lemma_strip_marks_identity(t);
    assert(trim_start(t) == t);
    assert(t.last() == ff[1]);
    assert(trim_end(t) == t);
}

/// Writing an amount and reading it back gives the same cents, whatever the amount.
pub proof fn lemma_amount_round_trip(cents: int)
    requires
        i64::MIN <= cents <= i64::MAX,
    ensures
        amount_cents(amount_text(cents)) == Some(cents),
{
    let m = (if cents < 0 {
        -cents
    } else {
        cents
    }) as nat;
    let sign = if cents < 0 {
        seq!['-']
    } else {
        Seq::<char>::empty()
    };
    let d = decimal(m / 100);
    let ff = two_digits(m % 100);
    let t = amount_text(cents);
    lemma_decimal_round_trip(m / 100);
    assert(t == sign + d + seq!['.'] + ff);
    let body = d + seq!['.'] + ff;
    assert(t =~= sign + body);
    assert(is_digit(ff[0]) && is_digit(ff[1]));
    assert forall|i: int| 0 <= i < body.len() implies (is_digit(#[trigger] body[i]) || body[i]
        == '.') by {
        if i < d.len() {
            assert(body[i] == d[i]);
        } else if i == d.len() {
        } else {
            assert(body[i] == ff[i - d.len() - 1]);
        }
    }
    assert forall|i: int| 0 <= i < t.len() implies !is_mark(#[trigger] t[i]) && !is_space(t[i]) by {
        if i < sign.len() {
        } else {
            assert(t[i] == body[i - sign.len()]);
        }
    }
    lemma_strip_marks_identity(t);
    assert(trim_start(t) == t);
    assert(t.last() == ff[1]);
    assert(trim_end(t) == t);
    assert(trimmed(strip_marks(t)) == t);
    if cents < 0 {
        assert(has_sign(t));
        assert(t.drop_first() =~= body);
    } else {
        assert(t =~= body);
        assert(is_digit(d[0]));
        assert(t.first() == d[0]);
        assert(!has_sign(t));
    }
    assert(unsigned_part(t) == body);
    assert forall|i: int| 0 <= i < d.len() implies body[i] != '.' by {
        assert(body[i] == d[i]);
    }
    lemma_first_dot_at(body, d.len() as int);
    assert(whole_part(body) =~= d);
    assert(fraction_part(body) =~= ff);
    assert(digit_value(ff[0]) == (m % 100) / 10);
    assert(digit_value(ff[1]) == (m % 100) % 10);
    assert(magnitude_cents(body) == m);
}

/// Drops currency symbols and thousands separators.
fn strip(v: &Vec<char>) -> (out: Vec<char>)
    ensures
        out@ == strip_marks(v@),
{
    let mut out: Vec<char> = Vec::new();
    let mut i: usize = 0;
    while i < v.len()
        invariant
            i <= v.len(),
            out@ == strip_marks(v@.take(i as int)),
        decreases v.len() - i,
    {
        let c = v[i];
        assert(v@.take(i + 1).drop_last() =~= v@.take(i as int));
        assert(v@.take(i + 1).last() == c);
        if !(c == '$' || c == '\u{20ac}' || c == '\u{a3}' || c == ',') {
            out.push(c);
        }
        i += 1;
    }
    assert(v@.take(v.len() as int) =~= v@);
    out
}

fn is_decimal_digit(c: char) -> (b: bool)
    ensures
        b == is_digit(c),
{
    '0' <= c && c <= '9'
}

fn value_of_digit(c: char) -> (d: u128)
    requires
        is_digit(c),
    ensures
        d == digit_value(c),
        d < 10,
{
    (c as u32 - '0' as u32) as u128
}

/// The digits from `start` on, as far as they go: where they end, and their value, held to
/// `10^20`.
fn scan_digits(t: &Vec<char>, start: usize) -> (r: (usize, u128))
    requires
        start <= t.len(),
    ensures
        start <= r.0 <= t.len(),
        forall|i: int| start <= i < r.0 ==> is_digit(t@[i]),
        r.0 < t.len() ==> !is_digit(t@[r.0 as int]),
        r.1 <= 100_000_000_000_000_000_000,
        r.1 == if digits_value(t@.subrange(start as int, r.0 as int))
            < 100_000_000_000_000_000_000 {
            digits_value(t@.subrange(start as int, r.0 as int))
        } else {
            100_000_000_000_000_000_000
        },
{
    let n = t.len();
    let cap: u128 = 100_000_000_000_000_000_000;
    let mut acc: u128 = 0;
    let mut p: usize = start;
    assert(t@.subrange(start as int, p as int) =~= Seq::<char>::empty());
    while p < n && is_decimal_digit(t[p])
        invariant
            start <= p <= n,
            n == t.len(),
            cap == 100_000_000_000_000_000_000,
            forall|i: int| start <= i < p ==> is_digit(t@[i]),
            acc <= cap,
            acc == if digits_value(t@.subrange(start as int, p as int)) < cap {
                digits_value(t@.subrange(start as int, p as int))
            } else {
                cap as nat
            },
        decreases n - p,
    {
        let d = value_of_digit(t[p]);
        assert(t@.subrange(start as int, p + 1).drop_last() =~= t@.subrange(
            start as int,
            p as int,
        ));
        assert(t@.subrange(start as int, p + 1).last() == t@[p as int]);
        acc = acc * 10 + d;
        if acc > cap {
            acc = cap;
        }
        p += 1;
    }
    (p, acc)
}

/// Whether everything from `start` on is a digit.
fn digits_to_the_end(t: &Vec<char>, start: usize) -> (b: bool)
    requires
        start <= t.len(),
    ensures
        b == all_digits(t@.skip(start as int)),
{
    let mut q: usize = start;
    while q < t.len()
        invariant
            start <= q <= t.len(),
            forall|i: int| start <= i < q ==> is_digit(t@[i]),
        decreases t.len() - q,
    {
        if !is_decimal_digit(t[q]) {
            assert(t@.skip(start as int)[q - start] == t@[q as int]);
            return false;
        }
        q += 1;
    }
    assert forall|i: int| 0 <= i < t@.skip(start as int).len() implies is_digit(
        #[trigger] t@.skip(start as int)[i],
    ) by {
        assert(t@.skip(start as int)[i] == t@[start + i]);
    }
    true
}

/// The digit at place `i` of the fraction that begins at `start`, zero beyond the end.
fn digit_after(t: &Vec<char>, start: usize, i: usize) -> (d: u128)
    requires
        start <= t.len(),
        i < 3,
        all_digits(t@.skip(start as int)),
    ensures
        d == fraction_digit(t@.skip(start as int), i as int),
        d < 10,
{
    if t.len() - start > i {
        assert(t@.skip(start as int)[i as int] == t@[start + i]);
        value_of_digit(t[start + i])
    } else {
        0
    }
}

/// How a text splits whose first `w` characters are digits and whose next one is not.
proof fn lemma_decimal_shape(body: Seq<char>, w: int)
    requires
        0 <= w <= body.len(),
        forall|i: int| 0 <= i < w ==> is_digit(body[i]),
        w < body.len() ==> !is_digit(body[w]),
    ensures
        w == body.len() ==> whole_part(body) == body && fraction_part(body)
            == Seq::<char>::empty(),
        w < body.len() && body[w] == '.' ==> whole_part(body) == body.take(w) && fraction_part(
            body,
        ) == body.skip(w + 1),
        w < body.len() && body[w] != '.' ==> !is_decimal(body),
        all_digits(body.take(w)),
{
    lemma_first_dot_bounds(body);
    if w == body.len() || body[w] == '.' {
        lemma_first_dot_at(body, w);
        if w == body.len() {
            assert(body.take(w) =~= body);
        }
    } else {
        if first_dot(body) <= w {
            assert(first_dot(body) < body.len());
            assert(body[first_dot(body)] == '.');
        }
        assert(whole_part(body)[w] == body[w]);
    }
}

/// The cents of a magnitude with its sign, held to 64 bits.
fn signed_cents(negative: bool, m: u128) -> (c: i64)
    ensures
        c == clamp_i64(
            if negative {
                -(m as int)
            } else {
                m as int
            },
        ),
{
    let limit: u128 = 9_223_372_036_854_775_808;
    if negative {
        if m >= limit {
            i64::MIN
        } else {
            -(m as i64)
        }
    } else {
        if m >= limit {
            i64::MAX
        } else {
            m as i64
        }
    }
}

/// Reads a signed decimal number as cents.
fn parse_decimal(t: &Vec<char>) -> (r: Option<i64>)
    ensures
        match decimal_cents(t@) {
            Some(c) => r == Some(c as i64),
            None => r is None,
        },
{
    let n = t.len();
    let mut negative = false;
    let mut k: usize = 0;
    if n > 0 && (t[0] == '-' || t[0] == '+') {
        negative = t[0] == '-';
        k = 1;
    }
    let ghost body = unsigned_part(t@);
    assert(body =~= t@.skip(k as int));
    let (p, acc) = scan_digits(t, k);
    let ghost w = p - k;
    proof {
        assert forall|i: int| 0 <= i < w implies is_digit(body[i]) by {
            assert(body[i] == t@[k + i]);
        }
        if p < n {
            assert(body[w] == t@[p as int]);
        }
        lemma_decimal_shape(body, w);
        assert(body.take(w) =~= t@.subrange(k as int, p as int));
    }
    let mut start: usize = n;
    if p < n {
        if t[p] != '.' {
            return None;
        }
        start = p + 1;
        assert(body.skip(w + 1) =~= t@.skip(start as int));
        if !digits_to_the_end(t, start) {
            return None;
        }
    }
    assert(fraction_part(body) =~= t@.skip(start as int));
    if p - k + (n - start) == 0 {
        return None;
    }
    let d1 = digit_after(t, start, 0);
    let d2 = digit_after(t, start, 1);
    let d3 = digit_after(t, start, 2);
    let up: u128 = if d3 >= 5 {
        1
    } else {
        0
    };
    let m: u128 = acc * 100 + d1 * 10 + d2 + up;
    assert(is_decimal(body));
    let ghost exact = magnitude_cents(body);
    assert(m == exact || (m >= 9_223_372_036_854_775_808 && exact >= 9_223_372_036_854_775_808));
    Some(signed_cents(negative, m))
}

impl Database {
    /// Reads an amount as written in a file (`$1,234.50`, `-12.5`, `€ 3`) as cents.
    pub fn parse_amount(amount_str: &str) -> (r: Result<i64, String>)
        ensures
            match amount_cents(amount_str@) {
                Some(c) => r == Ok::<i64, String>(c as i64),
                None => r is Err && r->Err_0@ == "Cannot parse as number"@,
            },
    {
        let v = chars_of(amount_str);
        let cleaned = strip(&v);
        let (i, j) = trim_bounds(&cleaned);
        let t = slice_of(&cleaned, i, j);
        match parse_decimal(&t) {
            Some(c) => Ok(c),
            None => Err(String::from_str("Cannot parse as number")),
        }
    }
}

/// Appends cents as a decimal number of major units with two places.
pub fn push_amount(out: &mut String, cents: i64)
    ensures
        final(out)@ == old(out)@ + amount_text(cents as int),
{
    let m: u128 = if cents < 0 {
        (-(cents as i128)) as u128
    } else {
        cents as u128
    };
    if cents < 0 {
        proof {
            reveal_strlit("-");
        }
        out.append("-");
    }
    let ghost mid = out@;
    assert(mid =~= old(out)@ + (if cents < 0 {
        seq!['-']
    } else {
        Seq::<char>::empty()
    }));
    push_decimal(out, m / 100);
    proof {
        reveal_strlit(".");
    }
    out.append(".");
    push_two_digits(out, (m % 100) as u32);
    assert(out@ =~= old(out)@ + amount_text(cents as int));
}

} // verus!
