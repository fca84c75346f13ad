//! Rows to column batches, and column batches to typed columns checked
//! against a declared schema.
use vstd::prelude::*;
use crate::error::PipelineError;
use crate::normalize::{ColumnType, TypedValue, ValueModel, normalize, normalized, opt_text, raw_text};

verus! {

/// One input record: column names paired with their raw text.
pub struct Row {
    pub entries: Vec<(String, String)>,
}

pub open spec fn entries_text(e: Seq<(String, String)>) -> Seq<(Seq<char>, Seq<char>)> {
    e.map_values(|p: (String, String)| (p.0@, p.1@))
}

/// The text stored under `key`: the first entry with that name.
pub open spec fn lookup(e: Seq<(Seq<char>, Seq<char>)>, key: Seq<char>) -> Option<Seq<char>>
    decreases e.len(),
{
    if e.len() == 0 {
        None
    } else if e[0].0 == key {
        Some(e[0].1)
    } else {
        lookup(e.drop_first(), key)
    }
}

impl View for Row {
    type V = Seq<(Seq<char>, Seq<char>)>;

    open spec fn view(&self) -> Seq<(Seq<char>, Seq<char>)> {
        entries_text(self.entries@)
    }
}

proof fn lemma_lookup_skip(e: Seq<(Seq<char>, Seq<char>)>, i: int, key: Seq<char>)
    requires
        0 <= i < e.len(),
        e[i].0 != key,
    ensures
        lookup(e.subrange(i, e.len() as int), key) == lookup(e.subrange(i + 1, e.len() as int), key),
{
    assert(e.subrange(i, e.len() as int).drop_first() =~= e.subrange(i + 1, e.len() as int));
}

impl Row {
    pub fn new() -> (r: Row)
        ensures
            r@ == Seq::<(Seq<char>, Seq<char>)>::empty(),
    {
        let r = Row { entries: Vec::new() };
        assert(r@ =~= Seq::<(Seq<char>, Seq<char>)>::empty());
        r
    }

    /// Index of the first entry named `key`, if any.
    fn position(&self, key: &str) -> (r: Option<usize>)
        ensures
            match r {
                Some(i) => i < self@.len() && self@[i as int].0 == key@ && lookup(self@, key@) == Some(
                    self@[i as int].1,
                ) && forall|j: int| 0 <= j < i ==> self@[j].0 != key@,
                None => lookup(self@, key@) is None && forall|j: int|
                    0 <= j < self@.len() ==> self@[j].0 != key@,
            },
    {
        let n = self.entries.len();
        let mut i: usize = 0;
        assert(self@.subrange(0, n as int) =~= self@);
        while i < n
            invariant
                n == self@.len(),
                i <= n,
                lookup(self@, key@) == lookup(self@.subrange(i as int, n as int), key@),
                forall|j: int| 0 <= j < i ==> self@[j].0 != key@,
            decreases n - i,
        {
            if crate::text::same_text(self.entries[i].0.as_str(), key) {
                assert(self@.subrange(i as int, n as int)[0] == self@[i as int]);
                return Some(i);
            }
            proof {
                lemma_lookup_skip(self@, i as int, key@);
            }
            i = i + 1;
        }
        None
    }

    /// The raw text stored under `key`.
    pub fn get(&self, key: &str) -> (r: Option<String>)
        ensures
            opt_text(r) == lookup(self@, key@),
    {
        match self.position(key) {
            Some(i) => Some(self.entries[i].1.clone()),
            None => None,
        }
    }

    /// Stores `value` under `key`, replacing what was stored there.
    pub fn insert(&mut self, key: String, value: String)
        ensures
            lookup(final(self)@, key@) == Some(value@),
            forall|k: Seq<char>| k != key@ ==> #[trigger] lookup(final(self)@, k)
                == lookup(old(self)@, k),
    {
        let ghost old_view = self@;
        match self.position(key.as_str()) {
            Some(i) => {
                let ghost kv = key@;
                let ghost vv = value@;
                self.entries.set(i, (key, value));
                proof {
                    lemma_lookup_set(old_view, i as int, kv, vv);
                    assert(self@ =~= old_view.update(i as int, (kv, vv)));
                }
            },
            None => {
                let ghost kv = key@;
                let ghost vv = value@;
                self.entries.push((key, value));
                proof {
                    assert(self@ =~= old_view.push((kv, vv)));
                    lemma_lookup_push(old_view, kv, vv);
                }
            },
        }
    }
}

proof fn lemma_lookup_set(e: Seq<(Seq<char>, Seq<char>)>, i: int, key: Seq<char>, v: Seq<char>)
    requires
        0 <= i < e.len(),
        e[i].0 == key,
        forall|j: int| 0 <= j < i ==> e[j].0 != key,
    ensures
        lookup(e.update(i, (key, v)), key) == Some(v),
        forall|k: Seq<char>| k != key ==> #[trigger] lookup(e.update(i, (key, v)), k)
            == lookup(e, k),
    decreases e.len(),
{
    let u = e.update(i, (key, v));
    if i > 0 {
        lemma_lookup_set(e.drop_first(), i - 1, key, v);
        assert(u.drop_first() =~= e.drop_first().update(i - 1, (key, v)));
    }
    assert forall|k: Seq<char>| k != key implies #[trigger] lookup(u, k) == lookup(e, k) by {
        if i > 0 {
            assert(lookup(e.drop_first().update(i - 1, (key, v)), k) == lookup(e.drop_first(), k));
        } else {
            assert(u.drop_first() =~= e.drop_first());
        }
    }
}

proof fn lemma_lookup_push(e: Seq<(Seq<char>, Seq<char>)>, key: Seq<char>, v: Seq<char>)
    requires
        forall|j: int| 0 <= j < e.len() ==> e[j].0 != key,
    ensures
        lookup(e.push((key, v)), key) == Some(v),
        forall|k: Seq<char>| k != key ==> #[trigger] lookup(e.push((key, v)), k)
            == lookup(e, k),
    decreases e.len(),
{
    let u = e.push((key, v));
    if e.len() > 0 {
        lemma_lookup_push(e.drop_first(), key, v);
        assert(u.drop_first() =~= e.drop_first().push((key, v)));
        assert forall|k: Seq<char>| k != key implies #[trigger] lookup(u, k) == lookup(e, k) by {
            assert(lookup(e.drop_first().push((key, v)), k) == lookup(e.drop_first(), k));
        }
    } else {
        assert(u.drop_first() =~= e);
    }
}

/// The raw values of `fields` in a row, in field order; a field that the
/// row lacks gives empty text.
pub fn push_raw_values(row: &Row, fields: &Vec<String>) -> (r: Vec<String>)
    ensures
        r@.len() == fields@.len(),
        forall|i: int| 0 <= i < fields@.len() ==> #[trigger] r@[i]@ == raw_text(lookup(row@, fields@[i]@)),
{
    let mut v: Vec<String> = Vec::new();
    let mut i: usize = 0;
    while i < fields.len()
        invariant
            i <= fields@.len(),
            v@.len() == i,
            forall|k: int| 0 <= k < i ==> #[trigger] v@[k]@ == raw_text(lookup(row@, fields@[k]@)),
        decreases fields@.len() - i,
    {
        let value = match row.get(fields[i].as_str()) {
            Some(t) => t,
            None => String::new(),
        };
        v.push(value);
        i = i + 1;
    }
    v
}

/// A column batch as optional texts.
pub open spec fn batch_text(col: Seq<Option<String>>) -> Seq<Option<Seq<char>>> {
    col.map_values(|v: Option<String>| opt_text(v))
}

/// Column batches, one per field, from rows: entry `c` of row `r` is the
/// text of field `c` in row `r`, `None` where the row lacks it.
pub fn rows_to_columns(rows: &Vec<Row>, fields: &Vec<String>) -> (r: Vec<Vec<Option<String>>>)
    ensures
        r@.len() == fields@.len(),
        forall|c: int| 0 <= c < fields@.len() ==> (#[trigger] r@[c])@.len() == rows@.len(),
        forall|c: int, j: int|
            0 <= c < fields@.len() && 0 <= j < rows@.len() ==> opt_text(#[trigger] r@[c]@[j])
                == lookup(rows@[j]@, fields@[c]@),
{
    let mut out: Vec<Vec<Option<String>>> = Vec::new();
    let mut c: usize = 0;
    while c < fields.len()
        invariant
            c <= fields@.len(),
            out@.len() == c,
            forall|k: int| 0 <= k < c ==> (#[trigger] out@[k])@.len() == rows@.len(),
            forall|k: int, j: int|
                0 <= k < c && 0 <= j < rows@.len() ==> opt_text(#[trigger] out@[k]@[j]) == lookup(
                    rows@[j]@,
                    fields@[k]@,
                ),
        decreases fields@.len() - c,
    {
        let mut col: Vec<Option<String>> = Vec::new();
        let mut j: usize = 0;
        while j < rows.len()
            invariant
                c < fields@.len(),
                j <= rows@.len(),
                col@.len() == j,
                forall|m: int| 0 <= m < j ==> opt_text(#[trigger] col@[m]) == lookup(rows@[m]@, fields@[c as int]@),
            decreases rows@.len() - j,
        {
            col.push(rows[j].get(fields[c].as_str()));
            j = j + 1;
        }
        out.push(col);
        c = c + 1;
    }
    out
}

/// Whether every value of a column batch normalizes as `ty`.
pub open spec fn column_normalizes(col: Seq<Option<String>>, ty: ColumnType) -> bool {
    forall|i: int| 0 <= i < col.len() ==> normalized(opt_text(#[trigger] col[i]), ty) is Some
}

/// Whether `e` reports the value `raw` failing to parse as `ty`.
pub open spec fn reports_value(e: PipelineError, raw: Option<String>, ty: ColumnType) -> bool {
    e matches PipelineError::ValueParse { text, target } && text@ == raw_text(opt_text(raw))
        && target == ty
}

/// Normalizes every value of a column batch as `ty`, in row order. The
/// first value that does not parse gives its `ValueParse` error.
pub fn normalize_column(col: &Vec<Option<String>>, ty: ColumnType) -> (r: Result<Vec<TypedValue>, PipelineError>)
    ensures
        r is Ok <==> column_normalizes(col@, ty),
        r matches Ok(vals) ==> vals@.len() == col@.len() && forall|i: int|
            0 <= i < col@.len() ==> normalized(opt_text(#[trigger] col@[i]), ty) == Some(vals@[i]@),
        r matches Err(e) ==> exists|i: int|
            0 <= i < col@.len() && normalized(opt_text(#[trigger] col@[i]), ty) is None && reports_value(
                e,
                col@[i],
                ty,
            ),
{
    let mut vals: Vec<TypedValue> = Vec::new();
    let mut i: usize = 0;
    while i < col.len()
        invariant
            i <= col@.len(),
            vals@.len() == i,
            forall|k: int| 0 <= k < i ==> normalized(opt_text(#[trigger] col@[k]), ty) == Some(vals@[k]@),
        decreases col@.len() - i,
    {
        match normalize(&col[i], ty) {
            Ok(v) => vals.push(v),
            Err(e) => {
                assert(reports_value(e, col@[i as int], ty));
                return Err(e);
            },
        }
        i = i + 1;
    }
    Ok(vals)
}

/// A declared column: its name and primitive type.
pub struct ColumnSpec {
    pub name: String,
    pub ty: ColumnType,
}

/// Whether every batch has `row_count` entries.
pub open spec fn lengths_match(columns: Seq<Vec<Option<String>>>, row_count: usize) -> bool {
    forall|c: int| 0 <= c < columns.len() ==> (#[trigger] columns[c])@.len() == row_count
}

/// Whether every batch normalizes as the type its schema column declares.
pub open spec fn all_normalize(schema: Seq<ColumnSpec>, columns: Seq<Vec<Option<String>>>) -> bool {
    forall|c: int| 0 <= c < columns.len() ==> column_normalizes(#[trigger] columns[c]@, schema[c].ty)
}

/// Checks column batches against the schema and normalizes each as its
/// declared type, in schema order.
///
/// A count of batches other than the schema's gives `SchemaArity` with the
/// schema's count and the batches'; then a batch whose length is not
/// `row_count` gives `SchemaArity` with `row_count` and that length; then the
/// first value that does not parse gives its `ValueParse`.
pub fn prepare_columns(
    schema: &Vec<ColumnSpec>,
    columns: &Vec<Vec<Option<String>>>,
    row_count: usize,
) -> (r: Result<Vec<Vec<TypedValue>>, PipelineError>)
    ensures
        r is Ok <==> (columns@.len() == schema@.len() && lengths_match(columns@, row_count)
            && all_normalize(schema@, columns@)),
        columns@.len() != schema@.len() ==> (r matches Err(PipelineError::SchemaArity { expected, found })
            && expected == schema@.len() && found == columns@.len()),
        columns@.len() == schema@.len() && !lengths_match(columns@, row_count) ==> (r matches Err(
            PipelineError::SchemaArity { expected, found },
        ) && expected == row_count && exists|c: int|
            0 <= c < columns@.len() && (#[trigger] columns@[c])@.len() == found && found != row_count),
        r matches Err(e) ==> columns@.len() == schema@.len() && lengths_match(columns@, row_count)
            ==> exists|c: int, i: int|
            0 <= c < columns@.len() && 0 <= i < row_count && normalized(
                opt_text(#[trigger] columns@[c]@[i]),
                schema@[c].ty,
            ) is None && reports_value(e, columns@[c]@[i], schema@[c].ty),
        r matches Ok(out) ==> out@.len() == schema@.len() && (forall|c: int|
            0 <= c < schema@.len() ==> (#[trigger] out@[c])@.len() == row_count) && forall|c: int, i: int|
            0 <= c < schema@.len() && 0 <= i < row_count ==> normalized(opt_text(columns@[c]@[i]), schema@[c].ty)
                == Some((#[trigger] out@[c]@[i])@),
{
    if columns.len() != schema.len() {
        return Err(PipelineError::SchemaArity { expected: schema.len(), found: columns.len() });
    }
    let mut c: usize = 0;
    while c < columns.len()
        invariant
            columns@.len() == schema@.len(),
            c <= columns@.len(),
            forall|k: int| 0 <= k < c ==> (#[trigger] columns@[k])@.len() == row_count,
        decreases columns@.len() - c,
    {
        if columns[c].len() != row_count {
            return Err(PipelineError::SchemaArity { expected: row_count, found: columns[c].len() });
        }
        c = c + 1;
    }
    let mut out: Vec<Vec<TypedValue>> = Vec::new();
    let mut c: usize = 0;
    while c < columns.len()
        invariant
            columns@.len() == schema@.len(),
            lengths_match(columns@, row_count),
            c <= columns@.len(),
            out@.len() == c,
            forall|k: int| 0 <= k < c ==> column_normalizes(#[trigger] columns@[k]@, schema@[k].ty),
            forall|k: int| 0 <= k < c ==> (#[trigger] out@[k])@.len() == row_count,
            forall|k: int, i: int|
                0 <= k < c && 0 <= i < row_count ==> normalized(opt_text(columns@[k]@[i]), schema@[k].ty)
                    == Some((#[trigger] out@[k]@[i])@),
        decreases columns@.len() - c,
    {
        match normalize_column(&columns[c], schema[c].ty) {
            Ok(vals) => out.push(vals),
            Err(e) => {
                assert(columns@[c as int]@.len() == row_count);
                return Err(e);
            },
        }
        c = c + 1;
    }
    Ok(out)
}

} // verus!
