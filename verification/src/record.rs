use vstd::prelude::*;

verus! {

/// One canonical row of a time-ordered dataset.  `key` is the natural key
/// used for deduplication (a candle timestamp, a numeric trade id, or an
/// integer assigned to an exchange-side text id by the adapter); `time` is
/// the ordering field; `payload` carries the remaining columns as opaque
/// text; `recorded_at` is the ingestion timestamp stamped when the record
/// was fetched.
#[derive(Clone, PartialEq, Eq, Debug)]
pub struct Record {
    pub key: u64,
    pub time: u64,
    pub payload: String,
    pub recorded_at: u64,
}

impl Record {
    /// An exact copy, spelled out so that callers know every field carries
    /// over.
    pub fn duplicate(&self) -> (r: Record)
        ensures
            r == *self,
    {
        let r = Record {
            key: self.key,
            time: self.time,
            payload: self.payload.clone(),
            recorded_at: self.recorded_at,
        };
        r
    }
}

/// Strict dataset order: ascending by time, with the natural key as the
/// tie-break on equal timestamps.
pub open spec fn record_lt(a: Record, b: Record) -> bool {
    a.time < b.time || (a.time == b.time && a.key < b.key)
}

/// The sequence is strictly ascending by (time, key).
pub open spec fn strictly_sorted(s: Seq<Record>) -> bool {
    forall|i: int, j: int| 0 <= i < j < s.len() ==> record_lt(#[trigger] s[i], #[trigger] s[j])
}

/// Some record of `s` has natural key `k`.
pub open spec fn has_key(s: Seq<Record>, k: u64) -> bool {
    exists|i: int| 0 <= i < s.len() && (#[trigger] s[i]).key == k
}

/// No two records of `s` share a natural key.
pub open spec fn unique_keys(s: Seq<Record>) -> bool {
    forall|i: int, j: int| 0 <= i < j < s.len() ==> (#[trigger] s[i]).key != (#[trigger] s[j]).key
}

/// Position `j` holds the first record of `s` with its key.
pub open spec fn is_first_with_key(s: Seq<Record>, j: int) -> bool {
    0 <= j < s.len() && forall|i: int| 0 <= i < j ==> (#[trigger] s[i]).key != s[j].key
}

/// A well-formed persisted dataset: strictly time-ordered and deduplicated.
pub open spec fn dataset_wf(s: Seq<Record>) -> bool {
    strictly_sorted(s) && unique_keys(s)
}

/// Executable counterpart of `record_lt`.
pub fn record_before(a: &Record, b: &Record) -> (r: bool)
    ensures
        r == record_lt(*a, *b),
{
    a.time < b.time || (a.time == b.time && a.key < b.key)
}

} // verus!
