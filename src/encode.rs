//! Record encoding: a record's fields, each rendered as JSON text, become a
//! flat map of string attributes.
use vstd::prelude::*;
use crate::error::PipelineError;
use crate::text::{remove_char, without};

verus! {

/// A record ready for the key-value store: field names paired with string
/// attribute values, in field order.
pub struct EncodedRecord {
    pub attributes: Vec<(String, String)>,
}

pub open spec fn pairs_text(p: Seq<(String, String)>) -> Seq<(Seq<char>, Seq<char>)> {
    p.map_values(|x: (String, String)| (x.0@, x.1@))
}

impl View for EncodedRecord {
    type V = Seq<(Seq<char>, Seq<char>)>;

    open spec fn view(&self) -> Seq<(Seq<char>, Seq<char>)> {
        pairs_text(self.attributes@)
    }
}

/// A field name or rendered value with its quotes stripped.
pub open spec fn unquoted(s: Seq<char>) -> Seq<char> {
    without(s, '"')
}

/// Encodes a record from its fields, each a name and the JSON text of its
/// value; quotes are stripped from both. `None` stands for a record whose
/// rendering is not an object of fields, and gives `Encoding`.
pub fn encode_record(fields: &Option<Vec<(String, String)>>) -> (r: Result<EncodedRecord, PipelineError>)
    ensures
        r is Ok <==> fields is Some,
        r matches Ok(rec) ==> fields matches Some(f) && rec@.len() == f@.len() && forall|i: int|
            0 <= i < f@.len() ==> #[trigger] rec@[i] == (unquoted(f@[i].0@), unquoted(f@[i].1@)),
        r matches Err(e) ==> e is Encoding,
{
    match fields {
        None => Err(PipelineError::Encoding { message: String::from_str("record is not an object of fields") }),
        Some(f) => {
            let mut out: Vec<(String, String)> = Vec::new();
            let mut i: usize = 0;
            while i < f.len()
                invariant
                    i <= f@.len(),
                    out@.len() == i,
                    forall|k: int|
                        0 <= k < i ==> (#[trigger] out@[k]).0@ == unquoted(f@[k].0@) && out@[k].1@
                            == unquoted(f@[k].1@),
                decreases f@.len() - i,
            {
                let key = remove_char(f[i].0.as_str(), '"');
                let value = remove_char(f[i].1.as_str(), '"');
                out.push((key, value));
                i = i + 1;
            }
            let rec = EncodedRecord { attributes: out };
            assert forall|k: int| 0 <= k < f@.len() implies #[trigger] rec@[k] == (unquoted(f@[k].0@), unquoted(f@[k].1@)) by {
                assert(rec@[k] == (out@[k].0@, out@[k].1@));
            }
            Ok(rec)
        },
    }
}

} // verus!
