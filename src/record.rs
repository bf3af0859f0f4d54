//! The fixed-schema payload: an integer key and a bounded text.

use vstd::prelude::*;

verus! {

/// A record of the primary index.
#[derive(Debug, PartialEq)]
pub struct Record {
    pub nseq: i32,
    pub text: String,
}

impl Record {
    /// An exact copy of the record.
    pub fn duplicate(&self) -> (r: Record)
        ensures
            r == *self,
    {
        Record { nseq: self.nseq, text: self.text.clone() }
    }
}

/// Position `i` holds the first record of `s` with key `key`.
pub open spec fn is_first_key(s: Seq<Record>, key: i32, i: int) -> bool {
    &&& 0 <= i < s.len()
    &&& s[i].nseq == key
    &&& forall|j: int| 0 <= j < i ==> (#[trigger] s[j]).nseq != key
}

/// Some record of `s` has key `key`.
pub open spec fn has_key(s: Seq<Record>, key: i32) -> bool {
    exists|i: int| 0 <= i < s.len() && (#[trigger] s[i]).nseq == key
}

/// No two records of `s` share a key.
pub open spec fn keys_distinct(s: Seq<Record>) -> bool {
    forall|i: int, j: int|
        0 <= i < s.len() && 0 <= j < s.len() && i != j ==> (#[trigger] s[i]).nseq != (#[trigger] s[j]).nseq
}

} // verus!
