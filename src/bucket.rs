//! A bucket of `(key, text)` pairs, the payload-returning variant.

use vstd::prelude::*;

use crate::bucket_alt1::{encoded_bucket, parse_bucket, record_image, BucketAlt1};
use crate::codec::DecodeError;
use crate::record::Record;
use crate::render::bucket_drawing;
use crate::text::text_bytes;

verus! {

/// A capacity-bounded, ordered list of `(key, text)` pairs with a display
/// label and a local depth.
pub struct Bucket {
    pub name: String,
    pub local_depth: u8,
    pub data: Vec<(i32, String)>,
    pub size: u8,
}

/// Position `i` holds the first pair of `s` with key `key`.
pub open spec fn is_first_pair(s: Seq<(i32, String)>, key: i32, i: int) -> bool {
    &&& 0 <= i < s.len()
    &&& s[i].0 == key
    &&& forall|j: int| 0 <= j < i ==> (#[trigger] s[j]).0 != key
}

pub open spec fn has_pair(s: Seq<(i32, String)>, key: i32) -> bool {
    exists|i: int| 0 <= i < s.len() && (#[trigger] s[i]).0 == key
}

/// The pairs as records.
pub open spec fn as_records(s: Seq<(i32, String)>) -> Seq<Record> {
    s.map_values(|p: (i32, String)| Record { nseq: p.0, text: p.1 })
}

impl Bucket {
    /// An empty bucket.
    pub fn new(name: String, local_depth: u8, size: u8) -> (r: Self)
        ensures
            r.name == name,
            r.local_depth == local_depth,
            r.size == size,
            r.data@.len() == 0,
    {
        Bucket { name, local_depth, data: Vec::new(), size }
    }

    /// Appends `record` unless the bucket is already full; says whether it did.
    pub fn insert(&mut self, record: (i32, String)) -> (ok: bool)
        ensures
            ok == (old(self).data@.len() < old(self).size),
            ok ==> final(self).data@ == old(self).data@.push(record),
            !ok ==> final(self).data@ == old(self).data@,
            final(self).name == old(self).name,
            final(self).local_depth == old(self).local_depth,
            final(self).size == old(self).size,
    {
        if self.data.len() >= self.size as usize {
            return false;
        }
        self.data.push(record);
        true
    }

    fn position(&self, key: i32) -> (r: Option<usize>)
        ensures
            r is None <==> !has_pair(self.data@, key),
            r matches Some(i) ==> is_first_pair(self.data@, key, i as int),
    {
        let mut i: usize = 0;
        while i < self.data.len()
            invariant
                i <= self.data@.len(),
                forall|j: int| 0 <= j < i ==> (#[trigger] self.data@[j]).0 != key,
            decreases self.data@.len() - i,
        {
            if self.data[i].0 == key {
                return Some(i);
            }
            i = i + 1;
        }
        None
    }

    /// Takes out the first pair with key `key`; says whether there was one.
    pub fn remove(&mut self, key: i32) -> (r: bool)
        ensures
            r == has_pair(old(self).data@, key),
            !r ==> final(self).data@ == old(self).data@,
            r ==> exists|i: int|
                is_first_pair(old(self).data@, key, i) && final(self).data@ == old(self).data@.remove(i),
            final(self).name == old(self).name,
            final(self).local_depth == old(self).local_depth,
            final(self).size == old(self).size,
    {
        match self.position(key) {
            Some(i) => {
                self.data.remove(i);
                true
            },
            None => false,
        }
    }

    /// A copy of the first pair with key `key`.
    pub fn search(&self, key: i32) -> (r: Option<(i32, String)>)
        ensures
            r is None <==> !has_pair(self.data@, key),
            r matches Some(p) ==> exists|i: int| is_first_pair(self.data@, key, i) && p == self.data@[i],
    {
        match self.position(key) {
            Some(i) => Some((self.data[i].0, self.data[i].1.clone())),
            None => None,
        }
    }

    /// The same bucket with records in place of pairs.
    fn to_records(&self) -> (r: BucketAlt1)
        ensures
            r.name == self.name,
            r.local_depth == self.local_depth,
            r.size == self.size,
            r.data@ == as_records(self.data@),
    {
        let mut data: Vec<Record> = Vec::new();
        let mut i: usize = 0;
        while i < self.data.len()
            invariant
                i <= self.data@.len(),
                data@ == as_records(self.data@.take(i as int)),
            decreases self.data@.len() - i,
        {
            data.push(Record { nseq: self.data[i].0, text: self.data[i].1.clone() });
            i = i + 1;
            assert(data@ =~= as_records(self.data@.take(i as int)));
        }
        assert(self.data@.take(i as int) =~= self.data@);
        BucketAlt1 { name: self.name.clone(), local_depth: self.local_depth, data, size: self.size }
    }

    /// The drawing of the bucket: that of the same bucket of records.
    pub fn render(&self) -> (r: String)
        ensures
            exists|b: BucketAlt1|
                b.name == self.name && b.local_depth == self.local_depth && b.size == self.size && b.data@
                    == as_records(self.data@) && text_bytes(r@) == bucket_drawing(b),
    {
        let b = self.to_records();
        b.render()
    }

    /// The fixed-width encoding of the bucket: the same layout as a bucket of
    /// records.
    pub fn serialize(&self) -> (r: Vec<u8>)
        ensures
            r@ == encoded_bucket(self.name@, self.local_depth, self.size, as_records(self.data@)),
    {
        let b = self.to_records();
        b.serialize()
    }

    /// Reads the bucket encoded at `start`, and where its encoding ends.
    pub fn deserialize(bytes: &Vec<u8>, start: usize) -> (r: Result<(Bucket, usize), DecodeError>)
        ensures
            match r {
                Ok((bk, end)) => parse_bucket(bytes@, start as int) == Some(
                    (
                        bk.name@,
                        bk.local_depth,
                        bk.size,
                        as_records(bk.data@).map_values(|x: Record| record_image(x)),
                        end as int,
                    ),
                ),
                Err(_) => parse_bucket(bytes@, start as int) is None,
            },
    {
        let (b, end) = BucketAlt1::deserialize(bytes, start)?;
        let mut data: Vec<(i32, String)> = Vec::new();
        let mut i: usize = 0;
        while i < b.data.len()
            invariant
                i <= b.data@.len(),
                data@.len() == i,
                as_records(data@) == b.data@.take(i as int),
            decreases b.data@.len() - i,
        {
            let ghost prev = data@;
            data.push((b.data[i].nseq, b.data[i].text.clone()));
            proof {
                let x = b.data@[i as int];
                assert(Record { nseq: x.nseq, text: x.text } == x);
                assert forall|j: int| 0 <= j < i + 1 implies as_records(data@)[j] == b.data@.take(i + 1)[j] by {
                    if j < i {
                        assert(data@[j] == prev[j]);
                        assert(as_records(prev)[j] == b.data@.take(i as int)[j]);
                    }
                }
                assert(as_records(data@) =~= b.data@.take(i + 1));
            }
            i = i + 1;
        }
        assert(b.data@.take(i as int) =~= b.data@);
        Ok((Bucket { name: b.name, local_depth: b.local_depth, data, size: b.size }, end))
    }
}

} // verus!
