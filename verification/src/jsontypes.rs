use vstd::prelude::*;
use crate::counts::{CountTable, names_distinct, counts_map};
use crate::filetype::{Category, categories_agree};

verus! {

/// The tables that the extension file provides: counts by extension, the
/// categories and the category totals.
pub struct Jsontypes {
    pub ft: CountTable,
    pub known_types: Vec<Category>,
    pub known_cat: CountTable,
}

/// What serde_json makes of `text` read as a JSON object of unsigned 64-bit
/// numbers: the map from key to number, or nothing when it is not one.
pub uninterp spec fn json_u64_object(text: Seq<char>) -> Option<Map<Seq<char>, u64>>;

/// Calls `serde_json::from_str` into a `HashMap<String, u64>`. Trusted: it
/// succeeds exactly when `json_u64_object` of the text is something, and then
/// the pairs, one per key, hold that map. The order of the pairs follows the
/// hash map and is not stated; neither is the text of the error.
#[verifier::external_body]
fn parse_u64_object(text: &str) -> (r: Result<Vec<(String, u64)>, String>)
    ensures
        r is Ok <==> json_u64_object(text@) is Some,
        r matches Ok(pairs) ==> names_distinct(pairs@) && counts_map(pairs@) == json_u64_object(text@).unwrap(),
{
    match serde_json::from_str::<std::collections::HashMap<String, u64>>(text) {
        Ok(m) => Ok(m.into_iter().collect()),
        Err(e) => Err(e.to_string()),
    }
}

impl Jsontypes {
    /// The categories are well formed: no two share a name, and the category
    /// totals hold each category's name with its count.
    pub open spec fn wf(&self) -> bool {
        categories_agree(self.known_types@, self.known_cat@)
    }

    /// The tables with the extension counts `ft` (none when they could not be
    /// read) and no categories.
    pub fn new(ft: Option<CountTable>) -> (r: Self)
        ensures
            ft matches Some(t) ==> r.ft == t,
            ft is None ==> r.ft@ == Map::<Seq<char>, u64>::empty(),
            r.known_types@.len() == 0,
            r.known_cat@ == Map::<Seq<char>, u64>::empty(),
            r.wf(),
    {
        Jsontypes {
            ft: match ft {
                None => CountTable::new(),
                Some(x) => x,
            },
            known_types: Vec::new(),
            known_cat: CountTable::new(),
        }
    }

    /// Reads the extension counts from the text of the extension file, a
    /// JSON object of unsigned numbers; on failure, the parser's message.
    pub fn read_exts(text: &str) -> (r: Result<CountTable, String>)
        ensures
            r is Ok <==> json_u64_object(text@) is Some,
            r matches Ok(t) ==> t@ == json_u64_object(text@).unwrap(),
    {
        match parse_u64_object(text) {
            Ok(pairs) => Ok(CountTable::from_pairs(pairs)),
            Err(e) => Err(e),
        }
    }
}

} // verus!
