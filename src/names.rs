//! Column names from report headers: lower case, snake case, and no symbols.
use vstd::prelude::*;
use crate::text::push_char;

verus! {

/// What `str::to_lowercase` returns for a text.
pub uninterp spec fn lower_of(s: Seq<char>) -> Seq<char>;

/// What Inflector's `to_snake_case` returns for a text.
pub uninterp spec fn snake_case_of(s: Seq<char>) -> Seq<char>;

/// Relies on `str::to_lowercase`: the result depends on the characters alone.
#[verifier::external_body]
fn lowercase(s: &str) -> (r: String)
    ensures
        r@ == lower_of(s@),
{
    s.to_lowercase()
}

/// Relies on `inflector::cases::snakecase::to_snake_case`: the result
/// depends on the characters alone.
#[verifier::external_body]
fn snake_case(s: &str) -> (r: String)
    ensures
        r@ == snake_case_of(s@),
{
    inflector::cases::snakecase::to_snake_case(s)
}

/// Characters that a column name may not hold.
pub open spec fn is_symbol(c: char) -> bool {
    c == '.' || c == ')' || c == '(' || c == '%' || c == '$' || c == '+' || c == '?' || c == '/'
        || c == '\\' || c == '}' || c == '{'
}

/// `s` without its symbols.
pub open spec fn without_symbols(s: Seq<char>) -> Seq<char>
    decreases s.len(),
{
    if s.len() == 0 {
        s
    } else if is_symbol(s.last()) {
        without_symbols(s.drop_last())
    } else {
        without_symbols(s.drop_last()).push(s.last())
    }
}

/// The text with every symbol (`.)(%$+?/\}{`) removed.
pub fn strip_symbols(s: &str) -> (r: String)
    ensures
        r@ == without_symbols(s@),
{
    let n = s.unicode_len();
    let mut out = String::new();
    let mut i: usize = 0;
    while i < n
        invariant
            n == s@.len(),
            i <= n,
            out@ == without_symbols(s@.subrange(0, i as int)),
        decreases n - i,
    {
        let c = s.get_char(i);
        assert(s@.subrange(0, i + 1).drop_last() =~= s@.subrange(0, i as int));
        if !(c == '.' || c == ')' || c == '(' || c == '%' || c == '$' || c == '+' || c == '?' || c
            == '/' || c == '\\' || c == '}' || c == '{') {
            push_char(&mut out, c);
        }
        i = i + 1;
    }
    assert(s@.subrange(0, n as int) =~= s@);
    out
}

/// A column name from a report header: lower-cased, put in snake case, and
/// stripped of symbols.
pub fn normalize_name(head: &str) -> (r: String)
    ensures
        r@ == without_symbols(snake_case_of(lower_of(head@))),
{
    let lower = lowercase(head);
    let snake = snake_case(lower.as_str());
    strip_symbols(snake.as_str())
}

} // verus!
