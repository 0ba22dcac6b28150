//! Reading the edited identifier-to-text map.
use vstd::prelude::*;
use std::collections::HashMap;
use crate::merge::texts_view;

verus! {

broadcast use vstd::std_specs::hash::group_hash_axioms;

/// The map that serde_json reads from a JSON object whose keys are decimal
/// ids and whose values are strings, each string as its UTF-8 bytes; `None`
/// where it reports an error.
pub uninterp spec fn json_overrides_of(b: Seq<u8>) -> Option<Map<u64, Seq<u8>>>;

/// Relies on `serde_json::from_slice` into a `HashMap<u64, String>`: the map
/// depends on the input alone, and an error comes on the same inputs every
/// time. Each string is handed on as its bytes.
#[verifier::external_body]
fn parse_overrides_json(b: &[u8]) -> (r: Option<HashMap<u64, Vec<u8>>>)
    ensures
        match r {
            Some(m) => json_overrides_of(b@) == Some(texts_view(m@)),
            None => json_overrides_of(b@) is None,
        },
{
    serde_json::from_slice::<HashMap<u64, String>>(b).ok().map(
        |m| m.into_iter().map(|(id, text)| (id, text.into_bytes())).collect(),
    )
}

/// The override map read from a document, or no overrides where the
/// document could not be read.
pub fn overrides_or_empty(parsed: Option<HashMap<u64, Vec<u8>>>) -> (r: HashMap<u64, Vec<u8>>)
    ensures
        match parsed {
            Some(m) => r@ == m@,
            None => r@ == Map::<u64, Vec<u8>>::empty(),
        },
{
    match parsed {
        Some(m) => m,
        None => HashMap::new(),
    }
}

/// Reads the override map from a JSON document; a document that does not
/// parse gives no overrides.
pub fn load_overrides(b: &[u8]) -> (r: HashMap<u64, Vec<u8>>)
    ensures
        match json_overrides_of(b@) {
            Some(m) => texts_view(r@) == m,
            None => r@ == Map::<u64, Vec<u8>>::empty(),
        },
{
    overrides_or_empty(parse_overrides_json(b))
}

} // verus!
