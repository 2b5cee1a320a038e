use vstd::prelude::*;
use std::collections::BTreeMap;
use crate::counter::{ascending, entries_map, FrequencyMap};

verus! {

/// serde_json's error type, as its serializer reports it.
#[verifier::external_type_specification]
#[verifier::external_body]
pub struct ExJsonError(serde_json::Error);

/// The JSON text that serde_json writes for a map from counts to characters.
pub uninterp spec fn json_of(m: Map<usize, char>) -> Seq<char>;

/// Relies on serde_json::to_string: the compact JSON text of the map, which
/// depends on the map's contents alone (a `BTreeMap` is written in key order).
/// Integer keys and `char` values always serialize; the only errors left are
/// those of writing into a `Vec<u8>`, which never fails, so the call succeeds.
#[verifier::external_body]
fn json_text(m: &BTreeMap<usize, char>) -> (r: Result<String, serde_json::Error>)
    ensures
        r is Ok,
        r matches Ok(t) ==> t@ == json_of(m@),
{
    serde_json::to_string(m)
}

/// The frequency map could not be written as JSON.
#[derive(Debug, Clone, Copy, PartialEq, Eq)]
pub struct SerializeError;

impl FrequencyMap {
    /// The map from counts to characters that this frequency map holds.
    pub open spec fn as_map(&self) -> Map<usize, char> {
        entries_map(self@)
    }

    /// Writes the frequency map as one line of compact JSON (without the line
    /// break): an object whose keys are the counts, written as strings in
    /// ascending order, each with its character. This always succeeds.
    pub fn to_json(&self) -> (r: Result<String, SerializeError>)
        ensures
            r is Ok,
            r matches Ok(t) ==> t@ == json_of(self.as_map()),
            ascending(self@),
    {
        broadcast use vstd::laws_cmp::group_laws_cmp;

        let entries = self.entries();
        let mut m: BTreeMap<usize, char> = BTreeMap::new();
        let mut i: usize = 0;
        while i < entries.len()
            invariant
                i <= entries@.len(),
                entries@ == self@,
                m@ == entries_map(entries@.take(i as int)),
            decreases entries@.len() - i,
        {
            let (c, ch) = entries[i];
            m.insert(c, ch);
            assert(entries@.take(i as int + 1).drop_last() =~= entries@.take(i as int));
            i = i + 1;
        }
        assert(entries@.take(entries@.len() as int) =~= entries@);
        match json_text(&m) {
            Ok(t) => Ok(t),
            Err(_) => Err(SerializeError),
        }
    }
}

} // verus!
