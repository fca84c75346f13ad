//! Value normalization: raw field text plus a declared column type gives a
//! typed value, after the domain's sentinel rules.
use vstd::prelude::*;
use crate::error::PipelineError;
use crate::decimal::{
    Decimal,
    decimal_text,
    decimal_value,
    fits_decimal,
    law_decimal_text_reads_back,
    lemma_reading_digits,
    parse_decimal,
    scaled_exponent,
};
use crate::number::{
    in_i32,
    in_i64,
    integer_text,
    integer_value,
    is_digit,
    law_integer_text_reads_back,
    parse_i32,
    parse_i64,
};
use crate::text::{has_char, is_ws, remove_char, same_text, trim, trim_end, trim_start, trimmed, without};

verus! {

/// The primitive type that a schema declares for a column.
#[derive(Clone, Copy, Debug, PartialEq, Eq, Structural)]
pub enum ColumnType {
    Text,
    Int32,
    Int64,
    Float,
}

impl ColumnType {
    pub open spec fn is_numeric(self) -> bool {
        !(self is Text)
    }
}

/// A normalized value; a float column's value is held as an exact decimal,
/// which the writer of the column rounds to a 32-bit float.
#[derive(Debug)]
pub enum TypedValue {
    Text(String),
    Int32(i32),
    Int64(i64),
    Float(Decimal),
}

/// What a `TypedValue` holds, with text as characters.
pub enum ValueModel {
    Text(Seq<char>),
    Int32(i32),
    Int64(i64),
    /// Sign, digits and power of ten of a `Decimal`.
    Float(bool, Seq<u8>, i64),
}

impl View for TypedValue {
    type V = ValueModel;

    open spec fn view(&self) -> ValueModel {
        match self {
            TypedValue::Text(t) => ValueModel::Text(t@),
            TypedValue::Int32(v) => ValueModel::Int32(*v),
            TypedValue::Int64(v) => ValueModel::Int64(*v),
            TypedValue::Float(d) => ValueModel::Float(d.negative, d.digits@, d.exponent),
        }
    }
}

pub open spec fn opt_text(raw: Option<String>) -> Option<Seq<char>> {
    match raw {
        Some(s) => Some(s@),
        None => None,
    }
}

/// The text of a field, empty when it is missing.
pub open spec fn raw_text(raw: Option<Seq<char>>) -> Seq<char> {
    match raw {
        Some(t) => t,
        None => Seq::empty(),
    }
}

/// The missing-data marker: a space and two hyphens.
pub open spec fn missing_marker() -> Seq<char> {
    seq![' ', '-', '-']
}

pub open spec fn below_ten_percent() -> Seq<char> {
    seq!['<', ' ', '1', '0', '%']
}

pub open spec fn above_ninety_percent() -> Seq<char> {
    seq!['>', ' ', '9', '0', '%']
}

/// Text that a numeric column reads as zero.
pub open spec fn is_blank(t: Seq<char>) -> bool {
    t.len() == 0 || t == missing_marker()
}

pub open spec fn zero_of(ty: ColumnType) -> ValueModel {
    match ty {
        ColumnType::Text => ValueModel::Text(Seq::empty()),
        ColumnType::Int32 => ValueModel::Int32(0),
        ColumnType::Int64 => ValueModel::Int64(0),
        ColumnType::Float => ValueModel::Float(false, seq![0u8], 0),
    }
}

/// The decimal that `s` spells divided by `10^shift`, if it fits.
pub open spec fn decimal_model(s: Seq<char>, shift: nat) -> Option<ValueModel> {
    match decimal_value(s) {
        Some(d) => if fits_decimal(d, shift) {
            Some(ValueModel::Float(d.0, d.1, scaled_exponent(d, shift) as i64))
        } else {
            None
        },
        None => None,
    }
}

/// The value of a float field that holds a percent sign.
pub open spec fn percent_model(t: Seq<char>) -> Option<ValueModel> {
    if t == below_ten_percent() {
        Some(ValueModel::Float(false, seq![5u8], -2i64))
    } else if t == above_ninety_percent() {
        Some(ValueModel::Float(false, seq![9u8, 5u8], -2i64))
    } else {
        decimal_model(trimmed(without(t, '%')), 2)
    }
}

/// The normalized value of `raw` as type `ty`; `None` where the text cannot be
/// read as that type.
pub open spec fn normalized(raw: Option<Seq<char>>, ty: ColumnType) -> Option<ValueModel> {
    let t = raw_text(raw);
    if ty is Text {
        Some(ValueModel::Text(t))
    } else if is_blank(t) {
        Some(zero_of(ty))
    } else {
        match ty {
            ColumnType::Int32 => match integer_value(trimmed(t)) {
                Some(v) => if in_i32(v) {
                    Some(ValueModel::Int32(v as i32))
                } else {
                    None
                },
                None => None,
            },
            ColumnType::Int64 => match integer_value(trimmed(t)) {
                Some(v) => if in_i64(v) {
                    Some(ValueModel::Int64(v as i64))
                } else {
                    None
                },
                None => None,
            },
            _ => if t.contains('%') {
                percent_model(t)
            } else {
                decimal_model(trimmed(t), 0)
            },
        }
    }
}

fn float_value(t: &str) -> (r: Option<Decimal>)
    requires
        !is_blank(t@),
    ensures
        match normalized(Some(t@), ColumnType::Float) {
            Some(ValueModel::Float(n, ds, e)) => r matches Some(d) && d.negative == n && d.digits@ == ds
                && d.exponent == e,
            _ => r is None,
        },
{
    if has_char(t, '%') {
        proof {
            reveal_strlit("< 10%");
            reveal_strlit("> 90%");
            assert("< 10%"@ =~= below_ten_percent());
            assert("> 90%"@ =~= above_ninety_percent());
        }
        if same_text(t, "< 10%") {
            assert(t@ == below_ten_percent());
            let r = Some(Decimal { negative: false, digits: vec![5u8], exponent: -2 });
            assert(r->0.digits@ =~= seq![5u8]);
            r
        } else if same_text(t, "> 90%") {
            assert(t@ == above_ninety_percent());
            let r = Some(Decimal { negative: false, digits: vec![9u8, 5u8], exponent: -2 });
            assert(r->0.digits@ =~= seq![9u8, 5u8]);
            r
        } else {
            assert(t@ != below_ten_percent());
            let stripped = remove_char(t, '%');
            parse_decimal(trim(stripped.as_str()), 2)
        }
    } else {
        parse_decimal(trim(t), 0)
    }
}

/// Normalizes one raw field as type `ty`.
///
/// Text passes through, a missing field becoming empty text. A numeric type
/// reads a missing, empty or ` --` field as zero; otherwise the trimmed text
/// is parsed, and a float field holding `%` is read as a percentage
/// (`< 10%` as 0.05, `> 90%` as 0.95). A float is read exactly, as
/// `[+-]?digits[.digits][(e|E)[+-]?digits]` with any number of digits; the
/// words `inf`, `infinity` and `NaN` are not numbers here, and neither is text
/// whose exponent does not fit an `i64`. Text that does not parse gives
/// `ValueParse` with the field's text and the type.
pub fn normalize(raw: &Option<String>, ty: ColumnType) -> (r: Result<TypedValue, PipelineError>)
    ensures
        match r {
            Ok(v) => normalized(opt_text(*raw), ty) == Some(v@),
            Err(e) => normalized(opt_text(*raw), ty) is None && (e matches PipelineError::ValueParse {
                text,
                target,
            } && text@ == raw_text(opt_text(*raw)) && target == ty),
        },
{
    let t: &str = match raw {
        Some(s) => s.as_str(),
        None => "",
    };
    proof {
        reveal_strlit("");
        reveal_strlit(" --");
        assert(" --"@ =~= missing_marker());
    }
    assert(t@ == raw_text(opt_text(*raw)));
    if let ColumnType::Text = ty {
        return Ok(TypedValue::Text(String::from_str(t)));
    }
    if t.unicode_len() == 0 || same_text(t, " --") {
        return Ok(
            match ty {
                ColumnType::Int32 => TypedValue::Int32(0),
                ColumnType::Int64 => TypedValue::Int64(0),
                _ => {
                    let z = Decimal { negative: false, digits: vec![0u8], exponent: 0 };
                    assert(z.digits@ =~= seq![0u8]);
                    TypedValue::Float(z)
                },
            },
        );
    }
    assert(!is_blank(t@));
    let parsed = match ty {
        ColumnType::Int32 => match parse_i32(trim(t)) {
            Some(v) => Some(TypedValue::Int32(v)),
            None => None,
        },
        ColumnType::Int64 => match parse_i64(trim(t)) {
            Some(v) => Some(TypedValue::Int64(v)),
            None => None,
        },
        _ => match float_value(t) {
            Some(d) => Some(TypedValue::Float(d)),
            None => None,
        },
    };
    match parsed {
        Some(v) => Ok(v),
        None => Err(PipelineError::ValueParse { text: String::from_str(t), target: ty }),
    }
}

/// A numeric type reads a missing field, empty text and the missing-data
/// marker as its zero.
pub proof fn law_blank_is_zero(raw: Option<Seq<char>>, ty: ColumnType)
    requires
        ty.is_numeric(),
        is_blank(raw_text(raw)),
    ensures
        normalized(raw, ty) == Some(zero_of(ty)),
{
}

/// The value that an integer column holds for a text.
pub open spec fn integer_model(v: int, ty: ColumnType) -> ValueModel {
    if ty is Int32 {
        ValueModel::Int32(v as i32)
    } else {
        ValueModel::Int64(v as i64)
    }
}

/// Whether `v` fits the integer type `ty`.
pub open spec fn fits(v: int, ty: ColumnType) -> bool {
    if ty is Int32 {
        in_i32(v)
    } else {
        in_i64(v)
    }
}

proof fn lemma_integer_text_untrimmed(v: int)
    ensures
        trimmed(integer_text(v)) == integer_text(v),
        !is_blank(integer_text(v)),
{
    law_integer_text_reads_back(v);
    let t = integer_text(v);
    assert(!is_ws(t[0]));
    assert(trim_start(t) == t);
    assert(!is_ws(t.last()));
    assert(t != missing_marker());
}

/// An integer column reads well-formed integer text, surrounding whitespace
/// aside, as the integer it spells; writing that value out gives text that
/// reads back as the same value.
pub proof fn law_integer_round_trip(s: Seq<char>, ty: ColumnType, v: int)
    requires
        ty is Int32 || ty is Int64,
        integer_value(trimmed(s)) == Some(v),
        fits(v, ty),
    ensures
        normalized(Some(s), ty) == Some(integer_model(v, ty)),
        integer_value(integer_text(v)) == Some(v),
{
    law_integer_text_reads_back(v);
    if is_blank(s) {
        if s.len() == 0 {
            assert(trim_end(trim_start(s)) == s);
        } else {
            assert(s[0] == ' ');
            assert(s.drop_first() =~= seq!['-', '-']);
            assert(trim_start(seq!['-', '-']) == seq!['-', '-']);
            assert(trim_start(s) == seq!['-', '-']);
            assert(trim_end(seq!['-', '-']) == seq!['-', '-']);
        }
        assert(integer_value(seq!['-', '-']) is None);
        assert(integer_value(Seq::<char>::empty()) is None);
    }
}

/// Normalizing, writing the value out and normalizing the text again gives
/// the same integer value.
pub proof fn law_integer_normalize_idempotent(s: Seq<char>, ty: ColumnType, v: int)
    requires
        ty is Int32 || ty is Int64,
        fits(v, ty),
        normalized(Some(s), ty) == Some(integer_model(v, ty)),
    ensures
        normalized(Some(integer_text(v)), ty) == Some(integer_model(v, ty)),
{
    law_integer_text_reads_back(v);
    lemma_integer_text_untrimmed(v);
}

/// Digits that a `Decimal` can hold: at least one, each below ten.
pub open spec fn valid_digits(ds: Seq<u8>) -> bool {
    ds.len() >= 1 && forall|i: int| 0 <= i < ds.len() ==> #[trigger] ds[i] < 10
}

/// A float column reads a written-out decimal back as that same decimal.
pub proof fn law_decimal_round_trip(negative: bool, ds: Seq<u8>, exponent: i64)
    requires
        valid_digits(ds),
    ensures
        normalized(Some(decimal_text(negative, ds, exponent as int)), ColumnType::Float) == Some(
            ValueModel::Float(negative, ds, exponent),
        ),
{
    let t = decimal_text(negative, ds, exponent as int);
    law_decimal_text_reads_back(negative, ds, exponent as int);
    assert(!is_ws(t[0]));
    assert(trim_start(t) == t);
    assert(!is_ws(t.last()));
    assert(trimmed(t) == t);
    assert(t[0] != ' ');
    assert(t != missing_marker());
    assert(!t.contains('%')) by {
        if t.contains('%') {
            let k = choose|k: int| 0 <= k < t.len() && t[k] == '%';
            assert(t[k] != '%');
        }
    }
}

/// Normalizing a float field, writing the value out and normalizing the
/// text again gives the same value.
pub proof fn law_float_normalize_idempotent(s: Seq<char>, negative: bool, ds: Seq<u8>, exponent: i64)
    requires
        normalized(Some(s), ColumnType::Float) == Some(ValueModel::Float(negative, ds, exponent)),
    ensures
        normalized(Some(decimal_text(negative, ds, exponent as int)), ColumnType::Float) == Some(
            ValueModel::Float(negative, ds, exponent),
        ),
{
    let t = raw_text(Some(s));
    if !is_blank(t) {
        if t.contains('%') {
            if t != below_ten_percent() && t != above_ninety_percent() {
                lemma_reading_digits(trimmed(without(t, '%')));
            }
        } else {
            lemma_reading_digits(trimmed(t));
        }
    }
    assert(valid_digits(ds));
    law_decimal_round_trip(negative, ds, exponent);
}

} // verus!
