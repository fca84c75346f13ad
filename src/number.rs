//! Numeric text: an optional sign, then decimal digits with at most one point.
//! Integers are read as `i32`/`i64`; decimals are read in the `decimal`
//! module on top of these definitions.
use vstd::prelude::*;

verus! {

pub open spec fn is_digit(c: char) -> bool {
    '0' as u32 <= c as u32 && c as u32 <= '9' as u32
}

pub open spec fn digit_value(c: char) -> int {
    c as u32 - '0' as u32
}

/// Number of decimal points in `b`.
pub open spec fn dot_count(b: Seq<char>) -> nat
    decreases b.len(),
{
    if b.len() == 0 {
        0
    } else {
        dot_count(b.drop_last()) + if b.last() == '.' {
            1nat
        } else {
            0nat
        }
    }
}

/// Number of digits in `b`.
pub open spec fn digit_count(b: Seq<char>) -> nat
    decreases b.len(),
{
    if b.len() == 0 {
        0
    } else {
        digit_count(b.drop_last()) + if is_digit(b.last()) {
            1nat
        } else {
            0nat
        }
    }
}

/// The digits of `b` read as one decimal integer, points skipped.
pub open spec fn mantissa(b: Seq<char>) -> int
    decreases b.len(),
{
    if b.len() == 0 {
        0
    } else if b.last() == '.' {
        mantissa(b.drop_last())
    } else {
        mantissa(b.drop_last()) * 10 + digit_value(b.last())
    }
}

/// Number of characters after the decimal point (0 without one).
pub open spec fn fraction_len(b: Seq<char>) -> nat
    decreases b.len(),
{
    if b.len() == 0 || b.last() == '.' {
        0
    } else if dot_count(b.drop_last()) > 0 {
        fraction_len(b.drop_last()) + 1
    } else {
        0
    }
}

/// An unsigned body: digits and at most one point, at least one digit.
pub open spec fn well_formed_body(b: Seq<char>) -> bool {
    &&& forall|k: int| 0 <= k < b.len() ==> is_digit(#[trigger] b[k]) || b[k] == '.'
    &&& dot_count(b) <= 1
    &&& digit_count(b) >= 1
}

pub open spec fn has_sign(s: Seq<char>) -> bool {
    s.len() > 0 && (s[0] == '+' || s[0] == '-')
}

pub open spec fn body_of(s: Seq<char>) -> Seq<char> {
    if has_sign(s) {
        s.drop_first()
    } else {
        s
    }
}

pub open spec fn is_negative(s: Seq<char>) -> bool {
    s.len() > 0 && s[0] == '-'
}

/// `m` with the sign that `s` starts with.
pub open spec fn signed(s: Seq<char>, m: int) -> int {
    if is_negative(s) {
        -m
    } else {
        m
    }
}

/// The integer that `s` spells (`[+-]?[0-9]+`), if it spells one.
pub open spec fn integer_value(s: Seq<char>) -> Option<int> {
    let b = body_of(s);
    if well_formed_body(b) && dot_count(b) == 0 {
        Some(signed(s, mantissa(b)))
    } else {
        None
    }
}

/// Largest magnitude that the scan accumulates before it gives up: that of
/// `i64::MIN`.
pub const MAGNITUDE_LIMIT: u64 = 9223372036854775808;

/// What a scan of numeric text found: its sign, the magnitude of its digits
/// read as one integer, the digits after the point, and the number of points.
pub struct Scan {
    pub negative: bool,
    pub magnitude: u64,
    pub fraction: usize,
    pub dots: usize,
}

pub proof fn lemma_mantissa_nonneg(b: Seq<char>)
    requires
        forall|k: int| 0 <= k < b.len() ==> is_digit(#[trigger] b[k]) || b[k] == '.',
    ensures
        mantissa(b) >= 0,
    decreases b.len(),
{
    if b.len() > 0 {
        lemma_mantissa_nonneg(b.drop_last());
    }
}

/// Reads the sign and body of `s`. Gives `None` when the body is not well
/// formed or its magnitude exceeds `MAGNITUDE_LIMIT`.
pub fn scan_number(s: &str) -> (r: Option<Scan>)
    ensures
        r is Some <==> (well_formed_body(body_of(s@)) && mantissa(body_of(s@))
            <= MAGNITUDE_LIMIT),
        r matches Some(sc) ==> {
            &&& sc.negative == is_negative(s@)
            &&& sc.magnitude == mantissa(body_of(s@))
            &&& sc.fraction == fraction_len(body_of(s@))
            &&& sc.dots == dot_count(body_of(s@))
        },
{
    let n = s.unicode_len();
    let mut i: usize = 0;
    let mut negative = false;
    if n > 0 {
        let c = s.get_char(0);
        if c == '+' || c == '-' {
            negative = c == '-';
            i = 1;
        }
    }
    let ghost start = i as int;
    let ghost b = body_of(s@);
    assert(b =~= s@.subrange(start, n as int));
    let mut magnitude: u64 = 0;
    let mut fraction: usize = 0;
    let mut dots: usize = 0;
    let mut digits: usize = 0;
    let mut over = false;
    while i < n
        invariant
            n == s@.len(),
            0 <= start <= i <= n,
            b == s@.subrange(start, n as int),
            b == body_of(s@),
            negative == is_negative(s@),
            fraction <= i,
            digits <= i,
            forall|k: int| 0 <= k < i - start ==> is_digit(#[trigger] b[k]) || b[k] == '.',
            dots == dot_count(b.subrange(0, i - start)),
            dots <= 1,
            digits == digit_count(b.subrange(0, i - start)),
            fraction == fraction_len(b.subrange(0, i - start)),
            over == (mantissa(b.subrange(0, i - start)) > MAGNITUDE_LIMIT),
            !over ==> magnitude == mantissa(b.subrange(0, i - start)),
        decreases n - i,
    {
        let ghost p = b.subrange(0, i - start);
        let ghost q = b.subrange(0, i + 1 - start);
        assert(q.drop_last() =~= p);
        let c = s.get_char(i);
        assert(q.last() == c);
        assert forall|k: int| 0 <= k < p.len() implies is_digit(#[trigger] p[k]) || p[k] == '.' by {
            assert(p[k] == b[k]);
        }
        if c == '.' {
            if dots == 1 {
                assert(dot_count(q) == 2);
                proof {
                    lemma_dot_count_prefix(b, i + 1 - start);
                }
                assert(!well_formed_body(b));
                return None;
            }
            dots = 1;
            fraction = 0;
        } else if '0' <= c && c <= '9' {
            let d = (c as u32 - '0' as u32) as u64;
            proof {
                lemma_mantissa_nonneg(p);
            }
            if !over {
                if magnitude > (MAGNITUDE_LIMIT - d) / 10 {
                    over = true;
                } else {
                    magnitude = magnitude * 10 + d;
                }
            } else {
                assert(mantissa(q) >= mantissa(p)) by (nonlinear_arith)
                    requires mantissa(q) == mantissa(p) * 10 + d, mantissa(p) >= 0, d >= 0;
            }
            if dots == 1 {
                fraction = fraction + 1;
            }
            digits = digits + 1;
        } else {
            assert(b[i - start] == c);
            assert(!well_formed_body(b)) by {
                assert(!(is_digit(b[i - start]) || b[i - start] == '.'));
            }
            return None;
        }
        i = i + 1;
    }
    assert(b.subrange(0, n - start) =~= b);
    if digits == 0 || over {
        return None;
    }
    Some(Scan { negative, magnitude, fraction, dots })
}

pub open spec fn in_i32(v: int) -> bool {
    i32::MIN <= v <= i32::MAX
}

pub open spec fn in_i64(v: int) -> bool {
    i64::MIN <= v <= i64::MAX
}

/// The integer that `s` spells, when it fits an `i32`.
pub fn parse_i32(s: &str) -> (r: Option<i32>)
    ensures
        r is Some <==> (integer_value(s@) is Some && in_i32(integer_value(s@)->0)),
        r matches Some(v) ==> v == integer_value(s@)->0,
{
    match scan_number(s) {
        None => {
            proof {
                if integer_value(s@) is Some {
                    lemma_mantissa_nonneg(body_of(s@));
                }
            }
            None
        },
        Some(sc) => {
            if sc.dots != 0 {
                return None;
            }
            if sc.negative {
                if sc.magnitude <= 2147483648 {
                    Some((0 - (sc.magnitude as i64)) as i32)
                } else {
                    None
                }
            } else if sc.magnitude <= 2147483647 {
                Some(sc.magnitude as i32)
            } else {
                None
            }
        },
    }
}

/// The integer that `s` spells, when it fits an `i64`.
pub fn parse_i64(s: &str) -> (r: Option<i64>)
    ensures
        r is Some <==> (integer_value(s@) is Some && in_i64(integer_value(s@)->0)),
        r matches Some(v) ==> v == integer_value(s@)->0,
{
    match scan_number(s) {
        None => {
            proof {
                if integer_value(s@) is Some {
                    lemma_mantissa_nonneg(body_of(s@));
                }
            }
            None
        },
        Some(sc) => {
            if sc.dots != 0 {
                return None;
            }
            signed_i64(sc.negative, sc.magnitude)
        },
    }
}

fn signed_i64(negative: bool, magnitude: u64) -> (r: Option<i64>)
    ensures
        r is Some <==> in_i64(if negative { -magnitude } else { magnitude as int }),
        r matches Some(v) ==> v == (if negative { -magnitude } else { magnitude as int }),
{
    if negative {
        if magnitude <= 9223372036854775807 {
            Some(0 - (magnitude as i64))
        } else if magnitude == 9223372036854775808 {
            Some(i64::MIN)
        } else {
            None
        }
    } else if magnitude <= 9223372036854775807 {
        Some(magnitude as i64)
    } else {
        None
    }
}

/// The character of a decimal digit.
pub open spec fn digit_char(d: int) -> char {
    if d == 0 {
        '0'
    } else if d == 1 {
        '1'
    } else if d == 2 {
        '2'
    } else if d == 3 {
        '3'
    } else if d == 4 {
        '4'
    } else if d == 5 {
        '5'
    } else if d == 6 {
        '6'
    } else if d == 7 {
        '7'
    } else if d == 8 {
        '8'
    } else {
        '9'
    }
}

/// The decimal digits of `n`, without leading zeros.
pub open spec fn digits_of(n: nat) -> Seq<char>
    decreases n,
{
    if n < 10 {
        seq![digit_char(n as int)]
    } else {
        digits_of(n / 10).push(digit_char((n % 10) as int))
    }
}

/// The text of an integer as it is written out: a minus sign when it is
/// negative, then its digits.
pub open spec fn integer_text(v: int) -> Seq<char> {
    if v < 0 {
        seq!['-'] + digits_of((-v) as nat)
    } else {
        digits_of(v as nat)
    }
}

pub proof fn lemma_digit_char(d: int)
    requires
        0 <= d < 10,
    ensures
        is_digit(digit_char(d)),
        digit_value(digit_char(d)) == d,
        digit_char(d) != '.',
{
    assert('0' as u32 == 48);
    assert('9' as u32 == 57);
    assert('5' as u32 == 53);
}

proof fn lemma_digits_of(n: nat)
    ensures
        digits_of(n).len() >= 1,
        forall|k: int| 0 <= k < digits_of(n).len() ==> is_digit(#[trigger] digits_of(n)[k]),
        dot_count(digits_of(n)) == 0,
        digit_count(digits_of(n)) >= 1,
        mantissa(digits_of(n)) == n,
    decreases n,
{
    let d = digits_of(n);
    lemma_digit_char((n % 10) as int);
    if n < 10 {
        assert(n % 10 == n);
        assert(d.last() == digit_char(n as int));
        assert(d.drop_last() =~= Seq::<char>::empty());
        assert(dot_count(d.drop_last()) == 0);
        assert(mantissa(d.drop_last()) == 0);
        assert(dot_count(d) == dot_count(d.drop_last()));
        assert(mantissa(d) == mantissa(d.drop_last()) * 10 + digit_value(d.last()));
    } else {
        lemma_digits_of(n / 10);
        assert(d.drop_last() =~= digits_of(n / 10));
        assert(d.last() == digit_char((n % 10) as int));
        assert(n == (n / 10) * 10 + n % 10);
        assert(dot_count(d) == dot_count(d.drop_last()));
        assert(mantissa(d) == mantissa(d.drop_last()) * 10 + digit_value(d.last()));
    }
}

/// Every character of a written-out integer is a digit or a minus sign.
pub proof fn lemma_integer_text_digits(v: int)
    ensures
        forall|k: int| 0 <= k < integer_text(v).len() ==> #[trigger] integer_text(v)[k] == '-' || is_digit(integer_text(v)[k]),
{
    let t = integer_text(v);
    if v < 0 {
        let n = (-v) as nat;
        lemma_digits_of(n);
        assert forall|k: int| 0 <= k < t.len() implies #[trigger] t[k] == '-' || is_digit(t[k]) by {
            if k > 0 {
                assert(t[k] == digits_of(n)[k - 1]);
            }
        }
    } else {
        lemma_digits_of(v as nat);
    }
}

/// Writing out an integer and reading the text back gives the integer.
pub proof fn law_integer_text_reads_back(v: int)
    ensures
        integer_value(integer_text(v)) == Some(v),
        integer_text(v).len() >= 1,
        integer_text(v)[0] == '-' || is_digit(integer_text(v)[0]),
        is_digit(integer_text(v).last()),
{
    let t = integer_text(v);
    if v < 0 {
        let n = (-v) as nat;
        lemma_digits_of(n);
        assert(t.drop_first() =~= digits_of(n));
        assert(t.last() == digits_of(n).last());
    } else {
        lemma_digits_of(v as nat);
        assert(is_digit(t[0]));
    }
}

pub open spec fn all_digits(s: Seq<char>) -> bool {
    forall|k: int| 0 <= k < s.len() ==> is_digit(#[trigger] s[k])
}

pub proof fn lemma_digits_no_dot(s: Seq<char>)
    requires
        all_digits(s),
    ensures
        dot_count(s) == 0,
    decreases s.len(),
{
    if s.len() > 0 {
        assert(s[s.len() - 1] == s.last());
        lemma_digits_no_dot(s.drop_last());
    }
}

proof fn lemma_dot_count_prefix(b: Seq<char>, j: int)
    requires
        0 <= j <= b.len(),
    ensures
        dot_count(b.subrange(0, j)) <= dot_count(b),
    decreases b.len() - j,
{
    if j < b.len() {
        lemma_dot_count_prefix(b, j + 1);
        assert(b.subrange(0, j + 1).drop_last() =~= b.subrange(0, j));
    } else {
        assert(b.subrange(0, j) =~= b);
    }
}

} // verus!
