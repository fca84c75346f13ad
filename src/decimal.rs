//! Decimal text with an optional exponent, held exactly: a sign, the digits
//! of the mantissa (the point dropped) and a power of ten.
use vstd::prelude::*;
use crate::number::{
    body_of,
    digit_char,
    digit_count,
    digit_value,
    dot_count,
    fraction_len,
    in_i64,
    integer_text,
    integer_value,
    is_digit,
    is_negative,
    law_integer_text_reads_back,
    lemma_digit_char,
    parse_i64,
    well_formed_body,
};

verus! {

/// The decimal `(-1)^negative * digits * 10^exponent`, where `digits` are
/// read as one integer, most significant first.
#[derive(Clone, Debug, PartialEq, Eq)]
pub struct Decimal {
    pub negative: bool,
    pub digits: Vec<u8>,
    pub exponent: i64,
}

impl Decimal {
    /// At least one digit, each below ten.
    pub open spec fn wf(&self) -> bool {
        self.digits@.len() >= 1 && forall|i: int| 0 <= i < self.digits@.len() ==> #[trigger] self.digits@[i] < 10
    }
}

pub open spec fn is_exp_mark(c: char) -> bool {
    c == 'e' || c == 'E'
}

/// Index of the first exponent mark in `b`; its length when there is none.
pub open spec fn first_mark(b: Seq<char>) -> nat
    decreases b.len(),
{
    if b.len() == 0 {
        0
    } else if first_mark(b.drop_last()) < b.len() - 1 {
        first_mark(b.drop_last())
    } else if is_exp_mark(b.last()) {
        (b.len() - 1) as nat
    } else {
        b.len()
    }
}

/// The digit values of `b`, points skipped.
pub open spec fn body_digits(b: Seq<char>) -> Seq<u8>
    decreases b.len(),
{
    if b.len() == 0 {
        Seq::empty()
    } else if b.last() == '.' {
        body_digits(b.drop_last())
    } else {
        body_digits(b.drop_last()).push(digit_value(b.last()) as u8)
    }
}

/// What `s` spells as `[+-]?mantissa([eE][+-]?digits)?`, where the mantissa
/// is digits with at most one point and at least one digit: its sign, the
/// mantissa's digits, the number of digits after the point, and the written
/// exponent (0 without one).
pub open spec fn decimal_value(s: Seq<char>) -> Option<(bool, Seq<u8>, nat, int)> {
    let b = body_of(s);
    let k = first_mark(b);
    let m = b.take(k as int);
    let e = if k == b.len() {
        Some(0int)
    } else {
        integer_value(b.skip(k as int + 1))
    };
    if well_formed_body(m) && e is Some {
        Some((is_negative(s), body_digits(m), fraction_len(m), e->0))
    } else {
        None
    }
}

/// The exponent of the value that a reading gives, divided by `10^shift`.
pub open spec fn scaled_exponent(d: (bool, Seq<u8>, nat, int), shift: nat) -> int {
    d.3 - d.2 - shift
}

/// Whether a reading can be held as a `Decimal`: its written exponent and
/// the resulting power of ten fit an `i64`.
pub open spec fn fits_decimal(d: (bool, Seq<u8>, nat, int), shift: nat) -> bool {
    in_i64(d.3) && in_i64(scaled_exponent(d, shift))
}

proof fn lemma_mark_prefix(b: Seq<char>, j: int)
    requires
        0 <= j <= b.len(),
        first_mark(b.take(j)) < j,
    ensures
        first_mark(b) == first_mark(b.take(j)),
    decreases b.len() - j,
{
    if j < b.len() {
        assert(b.take(j + 1).drop_last() =~= b.take(j));
        lemma_mark_prefix(b, j + 1);
    } else {
        assert(b.take(j) =~= b);
    }
}

proof fn lemma_mark_bound(b: Seq<char>)
    ensures
        first_mark(b) <= b.len(),
        first_mark(b) < b.len() ==> is_exp_mark(b[first_mark(b) as int]),
        forall|i: int| 0 <= i < first_mark(b) ==> !is_exp_mark(#[trigger] b[i]),
    decreases b.len(),
{
    if b.len() > 0 {
        lemma_mark_bound(b.drop_last());
        assert forall|i: int| 0 <= i < first_mark(b) implies !is_exp_mark(#[trigger] b[i]) by {
            if i < b.len() - 1 {
                assert(b[i] == b.drop_last()[i]);
            }
        }
    }
}

/// Index of the first exponent mark of `b`, its length without one.
fn find_mark(b: &str) -> (r: usize)
    ensures
        r == first_mark(b@),
{
    let n = b.unicode_len();
    let mut i: usize = 0;
    assert(b@.take(0) =~= Seq::<char>::empty());
    while i < n
        invariant
            n == b@.len(),
            i <= n,
            first_mark(b@.take(i as int)) == i,
        decreases n - i,
    {
        assert(b@.take(i + 1).drop_last() =~= b@.take(i as int));
        if b.get_char(i) == 'e' || b.get_char(i) == 'E' {
            assert(first_mark(b@.take(i + 1)) == i);
            proof {
                lemma_mark_prefix(b@, i + 1);
            }
            return i;
        }
        i = i + 1;
    }
    assert(b@.take(n as int) =~= b@);
    n
}

/// The digit values of a mantissa and the number of digits after its point;
/// `None` when it is not well formed.
fn scan_mantissa(m: &str) -> (r: Option<(Vec<u8>, usize)>)
    ensures
        r is Some <==> well_formed_body(m@),
        r matches Some((ds, f)) ==> ds@ == body_digits(m@) && f == fraction_len(m@),
{
    let n = m.unicode_len();
    let mut ds: Vec<u8> = Vec::new();
    let mut frac: usize = 0;
    let mut dots: usize = 0;
    let mut count: usize = 0;
    let mut i: usize = 0;
    while i < n
        invariant
            n == m@.len(),
            i <= n,
            frac <= i,
            count <= i,
            forall|k: int| 0 <= k < i ==> is_digit(#[trigger] m@[k]) || m@[k] == '.',
            dots == dot_count(m@.take(i as int)),
            dots <= 1,
            count == digit_count(m@.take(i as int)),
            frac == fraction_len(m@.take(i as int)),
            ds@ == body_digits(m@.take(i as int)),
        decreases n - i,
    {
        let ghost p = m@.take(i as int);
        let ghost q = m@.take(i + 1);
        assert(q.drop_last() =~= p);
        let c = m.get_char(i);
        assert(q.last() == c);
        if c == '.' {
            if dots == 1 {
                proof {
                    lemma_dot_count_take(m@, i + 1);
                }
                return None;
            }
            dots = 1;
            frac = 0;
        } else if '0' <= c && c <= '9' {
            ds.push((c as u32 - '0' as u32) as u8);
            if dots == 1 {
                frac = frac + 1;
            }
            count = count + 1;
        } else {
            assert(!(is_digit(m@[i as int]) || m@[i as int] == '.'));
            return None;
        }
        i = i + 1;
    }
    assert(m@.take(n as int) =~= m@);
    if count == 0 {
        return None;
    }
    Some((ds, frac))
}

proof fn lemma_dot_count_take(b: Seq<char>, j: int)
    requires
        0 <= j <= b.len(),
    ensures
        dot_count(b.take(j)) <= dot_count(b),
    decreases b.len() - j,
{
    if j < b.len() {
        lemma_dot_count_take(b, j + 1);
        assert(b.take(j + 1).drop_last() =~= b.take(j));
    } else {
        assert(b.take(j) =~= b);
    }
}

/// The decimal that `s` spells, divided by `10^shift` (2 turns a percentage
/// into a fraction), when it fits a `Decimal`.
pub fn parse_decimal(s: &str, shift: u32) -> (r: Option<Decimal>)
    ensures
        r is Some <==> (decimal_value(s@) is Some && fits_decimal(decimal_value(s@)->0, shift as nat)),
        r matches Some(d) ==> decimal_value(s@) matches Some(v) && d.negative == v.0 && d.digits@ == v.1
            && d.exponent == scaled_exponent(v, shift as nat),
{
    let n = s.unicode_len();
    let mut start: usize = 0;
    let mut negative = false;
    if n > 0 {
        let c = s.get_char(0);
        if c == '+' || c == '-' {
            negative = c == '-';
            start = 1;
        }
    }
    let body = s.substring_char(start, n);
    assert(body@ =~= body_of(s@));
    let blen = body.unicode_len();
    let k = find_mark(body);
    proof {
        lemma_mark_bound(body@);
    }
    let mant = body.substring_char(0, k);
    assert(mant@ =~= body@.take(k as int));
    let written: i64 = if k == blen {
        0
    } else {
        let e = body.substring_char(k + 1, blen);
        assert(e@ =~= body@.skip(k + 1));
        match parse_i64(e) {
            Some(v) => v,
            None => {
                return None;
            },
        }
    };
    let (digits, frac) = match scan_mantissa(mant) {
        Some(x) => x,
        None => {
            return None;
        },
    };
    let exponent: i128 = written as i128 - frac as i128 - shift as i128;
    if exponent < i64::MIN as i128 || exponent > i64::MAX as i128 {
        return None;
    }
    Some(Decimal { negative, digits, exponent: exponent as i64 })
}

proof fn lemma_body_digits(m: Seq<char>)
    requires
        forall|k: int| 0 <= k < m.len() ==> is_digit(#[trigger] m[k]) || m[k] == '.',
    ensures
        body_digits(m).len() == digit_count(m),
        forall|i: int| 0 <= i < body_digits(m).len() ==> #[trigger] body_digits(m)[i] < 10,
    decreases m.len(),
{
    if m.len() > 0 {
        lemma_body_digits(m.drop_last());
        assert(m[m.len() - 1] == m.last());
    }
}

/// A reading of decimal text has at least one digit, each below ten.
pub proof fn lemma_reading_digits(s: Seq<char>)
    requires
        decimal_value(s) is Some,
    ensures
        (decimal_value(s)->0).1.len() >= 1,
        forall|i: int| 0 <= i < (decimal_value(s)->0).1.len() ==> #[trigger] (decimal_value(s)->0).1[i] < 10,
{
    let b = body_of(s);
    let m = b.take(first_mark(b) as int);
    lemma_body_digits(m);
}

/// The characters of digit values.
pub open spec fn digit_chars(ds: Seq<u8>) -> Seq<char> {
    ds.map_values(|d: u8| digit_char(d as int))
}

/// The text of a decimal as it is written out: a minus sign when it is
/// negative, its digits, then `e` and the exponent.
pub open spec fn decimal_text(negative: bool, ds: Seq<u8>, exponent: int) -> Seq<char> {
    let body = digit_chars(ds) + seq!['e'] + integer_text(exponent);
    if negative {
        seq!['-'] + body
    } else {
        body
    }
}

proof fn lemma_digit_chars(ds: Seq<u8>)
    requires
        forall|i: int| 0 <= i < ds.len() ==> #[trigger] ds[i] < 10,
    ensures
        body_digits(digit_chars(ds)) == ds,
        dot_count(digit_chars(ds)) == 0,
        fraction_len(digit_chars(ds)) == 0,
        first_mark(digit_chars(ds)) == ds.len(),
        ds.len() >= 1 ==> digit_count(digit_chars(ds)) >= 1,
        forall|i: int| 0 <= i < ds.len() ==> is_digit(#[trigger] digit_chars(ds)[i]),
    decreases ds.len(),
{
    let c = digit_chars(ds);
    assert forall|i: int| 0 <= i < ds.len() implies is_digit(#[trigger] digit_chars(ds)[i]) by {
        lemma_digit_char(ds[i] as int);
    }
    if ds.len() > 0 {
        let last = ds.last();
        lemma_digit_chars(ds.drop_last());
        assert(c.drop_last() =~= digit_chars(ds.drop_last()));
        assert(ds[ds.len() - 1] == last);
        lemma_digit_char(last as int);
        assert(c.last() == digit_char(last as int));
        assert(ds.drop_last().push(last) =~= ds);
    }
}

/// Writing out a decimal and reading the text back gives its sign, digits
/// and exponent.
pub proof fn law_decimal_text_reads_back(negative: bool, ds: Seq<u8>, exponent: int)
    requires
        ds.len() >= 1,
        forall|i: int| 0 <= i < ds.len() ==> #[trigger] ds[i] < 10,
    ensures
        decimal_value(decimal_text(negative, ds, exponent)) == Some((negative, ds, 0nat, exponent)),
        decimal_text(negative, ds, exponent)[0] == '-' || is_digit(decimal_text(negative, ds, exponent)[0]),
        is_digit(decimal_text(negative, ds, exponent).last()),
        forall|k: int|
            0 <= k < decimal_text(negative, ds, exponent).len() ==> #[trigger] decimal_text(negative, ds, exponent)[k]
                != '%' && decimal_text(negative, ds, exponent)[k] != ' ',
{
    let c = digit_chars(ds);
    let it = integer_text(exponent);
    law_integer_text_reads_back(exponent);
    lemma_digit_chars(ds);
    let body = c + seq!['e'] + it;
    let t = decimal_text(negative, ds, exponent);
    assert(body.take(c.len() as int + 1) =~= c.push('e'));
    assert(c.push('e').drop_last() =~= c);
    assert(first_mark(c.push('e')) == c.len());
    lemma_mark_prefix(body, c.len() as int + 1);
    assert(body.take(c.len() as int) =~= c);
    assert(body.skip(c.len() as int + 1) =~= it);
    assert(well_formed_body(c));
    if negative {
        assert(body_of(t) =~= body);
    } else {
        assert(body_of(t) == body);
        assert(t[0] == c[0]);
    }
    assert(t.last() == it.last());
    assert forall|k: int| 0 <= k < t.len() implies #[trigger] t[k] != '%' && t[k] != ' ' by {
        let j = if negative { k - 1 } else { k };
        if j >= 0 {
            assert(t[k] == body[j]);
            if j < c.len() {
                assert(body[j] == c[j]);
            } else if j > c.len() {
                assert(body[j] == it[j - c.len() - 1]);
                assert(it[j - c.len() - 1] == '-' || is_digit(it[j - c.len() - 1])) by {
                    lemma_integer_text_chars(exponent, j - c.len() - 1);
                }
            }
        }
    }
}

proof fn lemma_integer_text_chars(v: int, k: int)
    requires
        0 <= k < integer_text(v).len(),
    ensures
        integer_text(v)[k] == '-' || is_digit(integer_text(v)[k]),
{
    law_integer_text_reads_back(v);
    crate::number::lemma_integer_text_digits(v);
}

} // verus!
