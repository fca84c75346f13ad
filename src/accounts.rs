//! Accounts read from the accounts table: ids split by their `is_af` flag.
use vstd::prelude::*;
use crate::columns::{Row, lookup};
use crate::error::PipelineError;
use crate::normalize::{ColumnType, raw_text};
use crate::number::{in_i64, integer_value, parse_i64};
use crate::text::same_text;

verus! {

pub open spec fn account_id_key() -> Seq<char> {
    seq!['a', 'c', 'c', 'o', 'u', 'n', 't', '_', 'i', 'd']
}

pub open spec fn is_af_key() -> Seq<char> {
    seq!['i', 's', '_', 'a', 'f']
}

pub open spec fn true_text() -> Seq<char> {
    seq!['t', 'r', 'u', 'e']
}

/// The text of an item's `account_id`, empty when it has none.
pub open spec fn id_text(item: Seq<(Seq<char>, Seq<char>)>) -> Seq<char> {
    raw_text(lookup(item, account_id_key()))
}

/// Whether an item's `account_id` reads as an `i64`.
pub open spec fn id_parses(item: Seq<(Seq<char>, Seq<char>)>) -> bool {
    integer_value(id_text(item)) is Some && in_i64(integer_value(id_text(item))->0)
}

/// Whether an item is flagged: its `is_af` is exactly `true`.
pub open spec fn flagged(item: Seq<(Seq<char>, Seq<char>)>) -> bool {
    lookup(item, is_af_key()) == Some(true_text())
}

/// The ids of the items whose flag is `flag`, in item order.
pub open spec fn ids_with(items: Seq<Seq<(Seq<char>, Seq<char>)>>, flag: bool) -> Seq<i64>
    decreases items.len(),
{
    if items.len() == 0 {
        Seq::empty()
    } else {
        let rest = ids_with(items.drop_last(), flag);
        if flagged(items.last()) == flag {
            rest.push(integer_value(id_text(items.last()))->0 as i64)
        } else {
            rest
        }
    }
}

pub open spec fn rows_view(items: Seq<Row>) -> Seq<Seq<(Seq<char>, Seq<char>)>> {
    items.map_values(|r: Row| r@)
}

/// Account ids, split by the `is_af` flag.
pub struct AccountGroups {
    pub af: Vec<i64>,
    pub not_af: Vec<i64>,
}

/// Splits accounts into flagged and unflagged ids, each in item order. The
/// first item whose `account_id` does not read as an `i64` gives
/// `ValueParse` with that text.
pub fn split_accounts(items: &Vec<Row>) -> (r: Result<AccountGroups, PipelineError>)
    ensures
        r is Ok <==> forall|i: int| 0 <= i < items@.len() ==> id_parses(#[trigger] items@[i]@),
        r matches Ok(g) ==> g.af@ == ids_with(rows_view(items@), true) && g.not_af@ == ids_with(
            rows_view(items@),
            false,
        ),
        r matches Err(e) ==> exists|i: int|
            0 <= i < items@.len() && !id_parses(#[trigger] items@[i]@) && (e matches PipelineError::ValueParse {
                text,
                target,
            } && text@ == id_text(items@[i]@) && target == ColumnType::Int64),
{
    let mut af: Vec<i64> = Vec::new();
    let mut not_af: Vec<i64> = Vec::new();
    let mut i: usize = 0;
    proof {
        reveal_strlit("account_id");
        reveal_strlit("is_af");
        reveal_strlit("true");
        assert("account_id"@ =~= account_id_key());
        assert("is_af"@ =~= is_af_key());
        assert("true"@ =~= true_text());
    }
    while i < items.len()
        invariant
            i <= items@.len(),
            "account_id"@ == account_id_key(),
            "is_af"@ == is_af_key(),
            "true"@ == true_text(),
            forall|k: int| 0 <= k < i ==> id_parses(#[trigger] items@[k]@),
            af@ == ids_with(rows_view(items@).take(i as int), true),
            not_af@ == ids_with(rows_view(items@).take(i as int), false),
        decreases items@.len() - i,
    {
        let ghost v = rows_view(items@);
        assert(v.take(i + 1).drop_last() =~= v.take(i as int));
        assert(v.take(i + 1).last() == items@[i as int]@);
        let id_text_value = match items[i].get("account_id") {
            Some(t) => t,
            None => String::new(),
        };
        let id = match parse_i64(id_text_value.as_str()) {
            Some(id) => id,
            None => {
                return Err(PipelineError::ValueParse { text: id_text_value, target: ColumnType::Int64 });
            },
        };
        let is_af = match items[i].get("is_af") {
            Some(t) => same_text(t.as_str(), "true"),
            None => false,
        };
        if is_af {
            af.push(id);
        } else {
            not_af.push(id);
        }
        i = i + 1;
    }
    assert(rows_view(items@).take(items@.len() as int) =~= rows_view(items@));
    Ok(AccountGroups { af, not_af })
}

/// The `website` attribute of an account item, empty when it has none.
pub fn website_of(item: &Row) -> (r: String)
    ensures
        r@ == raw_text(lookup(item@, seq!['w', 'e', 'b', 's', 'i', 't', 'e'])),
{
    proof {
        reveal_strlit("website");
        assert("website"@ =~= seq!['w', 'e', 'b', 's', 'i', 't', 'e']);
    }
    match item.get("website") {
        Some(t) => t,
        None => String::new(),
    }
}

} // verus!
