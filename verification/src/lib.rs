pub mod bloom;
pub mod cluster;
pub mod dedup;
pub mod indexer;
pub mod minhash_processor;
pub mod paste;
pub mod split;
pub mod unionfind;

use vstd::prelude::*;

verus! {

/// A JSONL document record, reduced to the one field the dedup engine reads.
/// All other fields of a record are opaque to the core and preserved verbatim
/// by the filtering passes, which work on whole lines.
pub struct DocumentText {
    pub text: String,
}

/// What decoding the line as a JSON object and reading its `text` string
/// yields: a function of the bytes alone; `None` when the line is not a
/// JSON object carrying a `text` string.
pub uninterp spec fn text_field_of(line: Seq<u8>) -> Option<Seq<char>>;

impl DocumentText {
    /// Relies on `serde_json::from_slice` to decode the line and pick the
    /// `text` field, ignoring all others; what it yields depends on the
    /// bytes alone.
    #[verifier::external_body]
    pub fn parse(line: &Vec<u8>) -> (r: Option<DocumentText>)
        ensures
            match r {
                Some(d) => text_field_of(line@) == Some(d.text@),
                None => text_field_of(line@) is None,
            },
    {
        let value: serde_json::Value = serde_json::from_slice(line).ok()?;
        let text = value.get("text")?.as_str()?;
        Some(DocumentText { text: text.to_string() })
    }
}

} // verus!
