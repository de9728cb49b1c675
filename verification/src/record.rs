use vstd::prelude::*;

use crate::value::{
    dedup_last_wins, dict_eq, keys_unique, pairs_model, wf_pairs, DataValue, ValModel,
};

verus! {

/// A log record: a named wrapper around a key-to-value mapping, and the
/// only type the encoder's public entry point accepts.  It is a value
/// object: once built it is never mutated, only replaced.
#[derive(Debug)]
pub struct LogData {
    data: Vec<(String, DataValue)>,
}

impl View for LogData {
    type V = Map<Seq<char>, ValModel>;

    /// A record's model is its key-to-value map; entry order is gone, so
    /// model equality is exactly key-for-key, value-for-value equality.
    closed spec fn view(&self) -> Map<Seq<char>, ValModel> {
        pairs_model(self.data@)
    }
}

impl LogData {
    /// The stored entries, in encoding order.
    pub closed spec fn entries(self) -> Seq<(String, DataValue)> {
        self.data@
    }

    /// Entries carry pairwise distinct keys and every nested dictionary
    /// does too; every construction path of this library establishes this.
    pub open spec fn wf(self) -> bool {
        keys_unique(self.entries()) && wf_pairs(self.entries())
    }

    /// The record's map model is the entries-to-map model of its entries.
    pub proof fn lemma_view_entries(self)
        ensures
            self@ == pairs_model(self.entries()),
    {
    }

    /// Builds a record from an ordered list of (key, value) pairs of any
    /// length.  Pairs are taken in list order and a later pair for a
    /// repeated key overwrites the earlier one: intended policy, not an
    /// error.
    pub fn from_pairs(pairs: Vec<(String, DataValue)>) -> (r: LogData)
        ensures
            r@ == pairs_model(pairs@),
            keys_unique(r.entries()),
            pairs_model(r.entries()) == pairs_model(pairs@),
            wf_pairs(pairs@) ==> r.wf(),
    {
        LogData { data: dedup_last_wins(pairs) }
    }

    /// Structural equality of records: the two key-to-value mappings are
    /// equal, independently of internal storage order.
    pub fn deep_eq(&self, other: &LogData) -> (r: bool)
        ensures
            r == (self@ == other@),
    {
        dict_eq(&self.data, &other.data)
    }

    /// Number of distinct keys.
    pub fn len(&self) -> (r: usize)
        ensures
            r == self.entries().len(),
    {
        self.data.len()
    }

    /// The stored entries, in encoding order: each distinct key with the
    /// value that won it.
    pub fn pairs(&self) -> (r: &Vec<(String, DataValue)>)
        ensures
            r@ == self.entries(),
    {
        &self.data
    }
}

impl core::cmp::PartialEq for LogData {
    fn eq(&self, other: &LogData) -> (r: bool) {
        self.deep_eq(other)
    }
}

impl vstd::std_specs::cmp::PartialEqSpecImpl for LogData {
    open spec fn obeys_eq_spec() -> bool {
        true
    }

    open spec fn eq_spec(&self, other: &LogData) -> bool {
        self@ == other@
    }
}

} // verus!
