//! The payload-returning front of the primary index: records go in and come
//! out as `(key, text)` pairs.

use vstd::arithmetic::power2::pow2;
use vstd::prelude::*;

use crate::hash_alt1::{inserted, nth_label, slot_of, HashAlt1, IndexError, MAX_DEPTH};
use crate::record::Record;
use crate::render::index_drawing;
use crate::text::text_bytes;

verus! {

/// Extendible hashing index that hands back copies of the stored pairs.
pub struct Hash {
    pub index: HashAlt1,
}

impl View for Hash {
    type V = Map<i32, Seq<char>>;

    open spec fn view(&self) -> Map<i32, Seq<char>> {
        self.index@
    }
}

impl Hash {
    pub open spec fn wf(&self) -> bool {
        self.index.wf()
    }

    /// An empty index of `2^global_depth` buckets of `bucket_size` pairs: slot
    /// `i` names bucket `i`, labelled `nth_label(i)`.
    pub fn new(global_depth: usize, bucket_size: usize) -> (r: Self)
        requires
            global_depth <= MAX_DEPTH,
            bucket_size <= 255,
        ensures
            r.wf(),
            r.index.aliases_ok(),
            r@ == Map::<i32, Seq<char>>::empty(),
            r.index.global_depth == global_depth,
            r.index.directory@.len() == pow2(global_depth as nat),
            r.index.buckets@.len() == pow2(global_depth as nat),
            forall|i: int| 0 <= i < r.index.directory@.len() ==> #[trigger] r.index.directory@[i] == i,
            forall|i: int|
                0 <= i < r.index.buckets@.len() ==> (#[trigger] r.index.buckets@[i]).local_depth == global_depth
                    && r.index.buckets@[i].size == bucket_size && r.index.buckets@[i].data@.len() == 0
                    && r.index.buckets@[i].name@ == nth_label(i as nat),
    {
        Hash { index: HashAlt1::new(global_depth as u8, bucket_size as u8) }
    }

    /// The directory slot of `num`: its lowest `global_depth` bits.
    pub fn hash_fun(&self, num: i32) -> (r: usize)
        requires
            self.wf(),
        ensures
            r == slot_of(num, self.index.global_depth as nat),
            r < self.index.directory@.len(),
    {
        self.index.hash_fun(num)
    }

    /// The global depth.
    pub fn global_depth(&self) -> (r: usize)
        ensures
            r == self.index.global_depth,
    {
        self.index.global_depth as usize
    }

    /// The number of directory slots.
    pub fn directory_len(&self) -> (r: usize)
        ensures
            r == self.index.directory@.len(),
    {
        self.index.directory.len()
    }

    /// The number of buckets in the store.
    pub fn buckets_len(&self) -> (r: usize)
        ensures
            r == self.index.buckets@.len(),
    {
        self.index.buckets.len()
    }

    /// Doubles the directory; see `HashAlt1::double_directory`.
    pub fn double_directory(&mut self)
        requires
            old(self).wf(),
            old(self).index.global_depth < MAX_DEPTH,
        ensures
            final(self).wf(),
            final(self)@ == old(self)@,
            final(self).index.global_depth == old(self).index.global_depth + 1,
            final(self).index.buckets == old(self).index.buckets,
            final(self).index.directory@.len() == 2 * old(self).index.directory@.len(),
            forall|s: int|
                0 <= s < final(self).index.directory@.len() ==> #[trigger] final(self).index.directory@[s]
                    == old(self).index.directory@[s % old(self).index.directory@.len() as int],
            old(self).index.aliases_ok() ==> final(self).index.aliases_ok(),
    {
        self.index.double_directory();
    }

    /// Inserts the pair, its text padded with null characters to `TEXT_LEN`
    /// bytes: exactly as `HashAlt1::insert` inserts the record of the pair.
    pub fn insert(&mut self, record: (i32, String)) -> (r: Result<(), IndexError>)
        requires
            old(self).wf(),
        ensures
            final(self).wf(),
            inserted(old(self).index, final(self).index, Record { nseq: record.0, text: record.1 }, r),
            old(self).index.aliases_ok() ==> final(self).index.aliases_ok(),
    {
        let rec = Record { nseq: record.0, text: record.1 };
        self.index.insert(rec)
    }

    /// Removes the pair with key `key`; says whether there was one. The
    /// directory and the bucket store keep their shape.
    pub fn remove(&mut self, key: i32) -> (r: bool)
        requires
            old(self).wf(),
        ensures
            final(self).wf(),
            final(self)@ == old(self)@.remove(key),
            r == old(self)@.contains_key(key),
            final(self).index.global_depth == old(self).index.global_depth,
            final(self).index.directory == old(self).index.directory,
            final(self).index.buckets@.len() == old(self).index.buckets@.len(),
            forall|c: int|
                0 <= c < final(self).index.buckets@.len() ==> (#[trigger] final(self).index.buckets@[c]).name
                    == old(self).index.buckets@[c].name && final(self).index.buckets@[c].local_depth == old(
                    self,
                ).index.buckets@[c].local_depth && final(self).index.buckets@[c].size == old(
                    self,
                ).index.buckets@[c].size,
            old(self).index.aliases_ok() ==> final(self).index.aliases_ok(),
    {
        self.index.remove(key).is_some()
    }

    /// The drawing of the index: see `HashAlt1::render`.
    pub fn render(&self) -> (r: String)
        requires
            self.wf(),
            self.index.buckets@.len() <= u16::MAX,
        ensures
            text_bytes(r@) == index_drawing(self.index),
    {
        self.index.render()
    }

    /// A copy of the pair with key `key`.
    pub fn search(&self, key: i32) -> (r: Option<(i32, String)>)
        requires
            self.wf(),
        ensures
            r is None <==> !self@.contains_key(key),
            r matches Some(p) ==> p.0 == key && p.1@ == self@[key],
    {
        match self.index.search(key) {
            Some((b, s)) => Some((key, self.index.buckets[b].data[s].text.clone())),
            None => None,
        }
    }
}

} // verus!
