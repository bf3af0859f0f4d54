//! A bucket of the secondary index: `((text, key), (bucket, slot))` entries
//! that point into the primary index instead of copying its records.

use vstd::prelude::*;
use vstd::utf8::{decode_utf8, valid_utf8};

use crate::bucket_alt1::{all_ascii, is_ascii_bytes, BucketAlt1, HEADER_LEN};
use crate::codec::{
    copy_range, field, i32_at, i32_be, nonzero_bytes, push_field, push_i32_be, push_u16_be, push_zeros,
    read_i32_be, read_u16_be, strip_zeros, trim_zeros, trimmed_len, u16_at, u16_be, DecodeError,
};
use crate::record::Record;
use crate::render::bucket_drawing;
use crate::text::{ascii_chars, ascii_string, bytes_of, string_from_utf8, text_bytes, TEXT_LEN};

verus! {

/// A secondary key and the location of its record in the primary index.
pub type Entry = ((String, i32), (usize, usize));

/// Bytes of an entry slot: text, key, bucket index, slot index.
pub const ENTRY_LEN: usize = 104;

/// A capacity-bounded, ordered list of entries with a display label and a
/// local depth.
pub struct BucketAlt2 {
    pub name: String,
    pub local_depth: u8,
    pub data: Vec<Entry>,
    pub size: u8,
}

/// Entry `e` has the secondary key `key`.
pub open spec fn entry_has_key(e: Entry, key: (Seq<char>, i32)) -> bool {
    e.0.0@ == key.0 && e.0.1 == key.1
}

pub open spec fn is_first_entry(s: Seq<Entry>, key: (Seq<char>, i32), i: int) -> bool {
    &&& 0 <= i < s.len()
    &&& entry_has_key(s[i], key)
    &&& forall|j: int| 0 <= j < i ==> !entry_has_key(#[trigger] s[j], key)
}

pub open spec fn has_entry(s: Seq<Entry>, key: (Seq<char>, i32)) -> bool {
    exists|i: int| 0 <= i < s.len() && entry_has_key(#[trigger] s[i], key)
}

/// The slot of an entry: text zero-padded to `TEXT_LEN`, key, then the
/// record's bucket and slot as 16-bit numbers.
pub open spec fn entry_bytes(e: Entry) -> Seq<u8> {
    field(text_bytes(e.0.0@), TEXT_LEN as nat) + i32_be(e.0.1) + u16_be(e.1.0 as u16) + u16_be(e.1.1 as u16)
}

pub open spec fn entry_slots_bytes(d: Seq<Entry>, n: nat) -> Seq<u8>
    decreases n,
{
    if n == 0 {
        Seq::empty()
    } else {
        entry_slots_bytes(d, (n - 1) as nat) + if n - 1 < d.len() {
            entry_bytes(d[n - 1])
        } else {
            Seq::new(ENTRY_LEN as nat, |i: int| 0u8)
        }
    }
}

pub open spec fn bucket2_bytes(bk: BucketAlt2) -> Seq<u8> {
    field(text_bytes(bk.name@), 3) + seq![bk.local_depth, bk.size] + entry_slots_bytes(bk.data@, bk.size as nat)
}

/// Text, key and location of an entry.
pub type EntryImage = (Seq<char>, i32, usize, usize);

pub open spec fn entry_image(e: Entry) -> EntryImage {
    (e.0.0@, e.0.1, e.1.0, e.1.1)
}

/// The entries read from `n` slots starting at `p`; a slot whose text is
/// empty is no entry.
pub open spec fn parse_entries(b: Seq<u8>, p: int, n: nat) -> Option<Seq<EntryImage>>
    decreases n,
{
    if n == 0 {
        Some(Seq::empty())
    } else {
        match parse_entries(b, p, (n - 1) as nat) {
            None => None,
            Some(prev) => {
                let q = p + ENTRY_LEN * (n - 1);
                let t = trim_zeros(b.subrange(q, q + TEXT_LEN));
                if t.len() == 0 {
                    Some(prev)
                } else if !valid_utf8(t) {
                    None
                } else {
                    Some(
                        prev.push(
                            (
                                decode_utf8(t),
                                i32_at(b, q + 96),
                                u16_at(b, q + 100) as usize,
                                u16_at(b, q + 102) as usize,
                            ),
                        ),
                    )
                }
            },
        }
    }
}

pub open spec fn parse_bucket2(b: Seq<u8>, p: int) -> Option<(Seq<char>, u8, u8, Seq<EntryImage>, int)> {
    if p + HEADER_LEN > b.len() {
        None
    } else {
        let size = b[p + 4];
        let end = p + HEADER_LEN + ENTRY_LEN * size;
        let nm = strip_zeros(b.subrange(p, p + 3));
        if end > b.len() || !is_ascii_bytes(nm) {
            None
        } else {
            match parse_entries(b, p + HEADER_LEN, size as nat) {
                None => None,
                Some(d) => Some((ascii_chars(nm), b[p + 3], size, d, end)),
            }
        }
    }
}

proof fn lemma_parse_entries_none(b: Seq<u8>, p: int, j: nat, n: nat)
    requires
        j <= n,
        parse_entries(b, p, j) is None,
    ensures
        parse_entries(b, p, n) is None,
    decreases n - j,
{
    if j < n {
        lemma_parse_entries_none(b, p, j + 1, n);
    }
}

/// Entries as records of their key and text.
pub open spec fn entries_as_records(s: Seq<Entry>) -> Seq<Record> {
    s.map_values(|e: Entry| Record { nseq: e.0.1, text: e.0.0 })
}

impl BucketAlt2 {
    /// The drawing of the bucket: that of a bucket of records with the same
    /// keys.
    pub fn render(&self) -> (r: String)
        ensures
            exists|b: BucketAlt1|
                b.name == self.name && b.local_depth == self.local_depth && b.size == self.size && b.data@
                    == entries_as_records(self.data@) && text_bytes(r@) == bucket_drawing(b),
    {
        let mut data: Vec<Record> = Vec::new();
        let mut i: usize = 0;
        while i < self.data.len()
            invariant
                i <= self.data@.len(),
                data@ == entries_as_records(self.data@.take(i as int)),
            decreases self.data@.len() - i,
        {
            data.push(Record { nseq: self.data[i].0.1, text: self.data[i].0.0.clone() });
            i = i + 1;
            assert(data@ =~= entries_as_records(self.data@.take(i as int)));
        }
        assert(self.data@.take(i as int) =~= self.data@);
        let b = BucketAlt1 { name: self.name.clone(), local_depth: self.local_depth, data, size: self.size };
        b.render()
    }

    /// An empty bucket.
    pub fn new(name: String, local_depth: u8, size: u8) -> (r: Self)
        ensures
            r.name == name,
            r.local_depth == local_depth,
            r.size == size,
            r.data@.len() == 0,
    {
        BucketAlt2 { name, local_depth, data: Vec::new(), size }
    }

    /// Appends `d` unless the bucket is already full; says whether it did.
    pub fn insert(&mut self, d: Entry) -> (ok: bool)
        ensures
            ok == (old(self).data@.len() < old(self).size),
            ok ==> final(self).data@ == old(self).data@.push(d),
            !ok ==> final(self).data@ == old(self).data@,
            final(self).name == old(self).name,
            final(self).local_depth == old(self).local_depth,
            final(self).size == old(self).size,
    {
        if self.data.len() >= self.size as usize {
            return false;
        }
        self.data.push(d);
        true
    }

    /// Position of the first entry with secondary key `key`.
    pub fn position(&self, key: &(String, i32)) -> (r: Option<usize>)
        ensures
            r is None <==> !has_entry(self.data@, (key.0@, key.1)),
            r matches Some(i) ==> is_first_entry(self.data@, (key.0@, key.1), i as int),
    {
        let mut i: usize = 0;
        while i < self.data.len()
            invariant
                i <= self.data@.len(),
                forall|j: int| 0 <= j < i ==> !entry_has_key(#[trigger] self.data@[j], (key.0@, key.1)),
            decreases self.data@.len() - i,
        {
            if self.data[i].0.1 == key.1 && self.data[i].0.0 == key.0 {
                return Some(i);
            }
            i = i + 1;
        }
        None
    }

    /// Takes out the first entry with secondary key `key`; says whether there
    /// was one.
    pub fn remove(&mut self, key: (String, i32)) -> (r: bool)
        ensures
            r == has_entry(old(self).data@, (key.0@, key.1)),
            !r ==> final(self).data@ == old(self).data@,
            r ==> exists|i: int|
                is_first_entry(old(self).data@, (key.0@, key.1), i) && final(self).data@ == old(
                    self,
                ).data@.remove(i),
            final(self).name == old(self).name,
            final(self).local_depth == old(self).local_depth,
            final(self).size == old(self).size,
    {
        let mut i: usize = 0;
        while i < self.data.len()
            invariant
                *self == *old(self),
                i <= self.data@.len(),
                forall|j: int| 0 <= j < i ==> !entry_has_key(#[trigger] self.data@[j], (key.0@, key.1)),
            decreases self.data@.len() - i,
        {
            if self.data[i].0.1 == key.1 && self.data[i].0.0 == key.0 {
                self.data.remove(i);
                assert(is_first_entry(old(self).data@, (key.0@, key.1), i as int));
                return true;
            }
            i = i + 1;
        }
        false
    }

    /// The fixed-width encoding of the bucket.
    pub fn serialize(&self) -> (r: Vec<u8>)
        ensures
            r@ == bucket2_bytes(*self),
    {
        let mut encoded: Vec<u8> = Vec::new();
        let name = bytes_of(&self.name);
        push_field(&mut encoded, &name, 3);
        encoded.push(self.local_depth);
        encoded.push(self.size);
        let ghost head = encoded@;
        let mut i: usize = 0;
        while i < self.size as usize
            invariant
                i <= self.size,
                encoded@ == head + entry_slots_bytes(self.data@, i as nat),
            decreases self.size - i,
        {
            let ghost before = encoded@;
            if i < self.data.len() {
                let t = bytes_of(&self.data[i].0.0);
                push_field(&mut encoded, &t, TEXT_LEN);
                push_i32_be(&mut encoded, self.data[i].0.1);
                push_u16_be(&mut encoded, #[verifier::truncate] (self.data[i].1.0 as u16));
                push_u16_be(&mut encoded, #[verifier::truncate] (self.data[i].1.1 as u16));
                assert(encoded@ =~= before + entry_bytes(self.data@[i as int]));
            } else {
                push_zeros(&mut encoded, ENTRY_LEN);
            }
            i = i + 1;
            assert(encoded@ =~= head + entry_slots_bytes(self.data@, i as nat));
        }
        assert(encoded@ =~= bucket2_bytes(*self));
        encoded
    }

    /// Reads the bucket encoded at `start`, and where its encoding ends.
    pub fn deserialize(bytes: &Vec<u8>, start: usize) -> (r: Result<(BucketAlt2, usize), DecodeError>)
        ensures
            match r {
                Ok((bk, end)) => parse_bucket2(bytes@, start as int) == Some(
                    (bk.name@, bk.local_depth, bk.size, bk.data@.map_values(|e: Entry| entry_image(e)), end as int),
                ),
                Err(_) => parse_bucket2(bytes@, start as int) is None,
            },
    {
        let len = bytes.len();
        if start > len || len - start < HEADER_LEN {
            return Err(DecodeError::MalformedPersistedState);
        }
        let size = bytes[start + 4];
        let total: usize = HEADER_LEN + ENTRY_LEN * (size as usize);
        if len - start < total {
            return Err(DecodeError::MalformedPersistedState);
        }
        let nm = nonzero_bytes(bytes, start, 3);
        if !all_ascii(&nm) {
            return Err(DecodeError::MalformedPersistedState);
        }
        let name = ascii_string(nm);
        let mut data: Vec<Entry> = Vec::new();
        let mut q: usize = start + HEADER_LEN;
        let mut j: usize = 0;
        while j < size as usize
            invariant
                len == bytes@.len(),
                start + total <= len,
                total == HEADER_LEN + ENTRY_LEN * size,
                size == bytes@[start + 4],
                is_ascii_bytes(strip_zeros(bytes@.subrange(start as int, start + 3))),
                j <= size,
                q == start + HEADER_LEN + ENTRY_LEN * j,
                parse_entries(bytes@, start + HEADER_LEN, j as nat) == Some(
                    data@.map_values(|e: Entry| entry_image(e)),
                ),
            decreases size - j,
        {
            let m = trimmed_len(bytes, q, TEXT_LEN);
            let key = read_i32_be(bytes, q + 96);
            let page = read_u16_be(bytes, q + 100);
            let slot = read_u16_be(bytes, q + 102);
            let ghost prev = data@.map_values(|e: Entry| entry_image(e));
            if m > 0 {
                let tb = copy_range(bytes, q, m);
                match string_from_utf8(tb) {
                    Some(t) => {
                        data.push(((t, key), (page as usize, slot as usize)));
                        assert(data@.map_values(|e: Entry| entry_image(e)) =~= prev.push(
                            (
                                decode_utf8(trim_zeros(bytes@.subrange(q as int, q + TEXT_LEN))),
                                key,
                                page as usize,
                                slot as usize,
                            ),
                        ));
                    },
                    None => {
                        proof {
                            assert(parse_entries(bytes@, start + HEADER_LEN, (j + 1) as nat) is None);
                            lemma_parse_entries_none(bytes@, start + HEADER_LEN, (j + 1) as nat, size as nat);
                        }
                        return Err(DecodeError::MalformedPersistedState);
                    },
                }
            }
            q = q + ENTRY_LEN;
            j = j + 1;
        }
        Ok((BucketAlt2 { name, local_depth: bytes[start + 3], size, data }, q))
    }
}

} // verus!
