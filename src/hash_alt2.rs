//! The secondary index: secondary keys `(text, key)` mapped to the location
//! of their record in the primary index, hashed on the integer part.

use vstd::arithmetic::div_mod::*;
use vstd::arithmetic::mul::*;
use vstd::arithmetic::power2::*;
use vstd::bits::*;
use vstd::prelude::*;

use crate::bucket_alt2::{
    bucket2_bytes, entry_image, has_entry, is_first_entry, parse_bucket2, BucketAlt2, Entry, EntryImage,
};
use crate::codec::{push_u16_be, read_u16_be, u16_at, u16_be, DecodeError};
use crate::hash_alt1::{
    bit_set, dir_bytes, key_bits, lemma_bit_of_low_bits, lemma_low_bits_split, lemma_low_of_low, lemma_mod_bound,
    max_nat, nth_label, slot_in, slot_of, IndexError, MAX_DEPTH,
};
use crate::naming::{label_after, next_string};
use crate::text::{ascii_string, bytes_of, text_bytes, TEXT_LEN};

verus! {

/// A secondary key as the index sees it: text and integer key.
pub type EKey = (Seq<char>, i32);

pub open spec fn ekey(e: Entry) -> EKey {
    (e.0.0@, e.0.1)
}

/// No two entries of `s` share a secondary key.
pub open spec fn entries_distinct(s: Seq<Entry>) -> bool {
    forall|i: int, j: int| 0 <= i < s.len() && 0 <= j < s.len() && i != j ==> ekey(#[trigger] s[i]) != ekey(#[trigger] s[j])
}

fn clone_entry(e: &Entry) -> (r: Entry)
    ensures
        r == *e,
{
    ((e.0.0.clone(), e.0.1), (e.1.0, e.1.1))
}

/// What splitting bucket `b` of `before` leaves: the bucket keeps its label
/// and capacity one level deeper; a new bucket, last in the store, takes the
/// next label, the same capacity and depth; no other bucket changes; the
/// directory is doubled exactly when the bucket was as deep as it, and the
/// slots that named the bucket and have bit `local_depth` set now name the
/// new bucket.
pub open spec fn split_shape(before: HashAlt2, after: HashAlt2, b: int) -> bool {
    let n = before.buckets@.len() as int;
    let ld = before.buckets@[b].local_depth;
    let m = before.directory@.len() as int;
    &&& after.buckets@.len() == n + 1
    &&& forall|c: int| 0 <= c < n && c != b ==> #[trigger] after.buckets@[c] == before.buckets@[c]
    &&& after.buckets@[b].name == before.buckets@[b].name
    &&& after.buckets@[b].size == before.buckets@[b].size
    &&& after.buckets@[b].local_depth == ld + 1
    &&& after.buckets@[n].name@ == label_after(before.buckets@[n - 1].name@)
    &&& after.buckets@[n].size == before.buckets@[b].size
    &&& after.buckets@[n].local_depth == ld + 1
    &&& after.global_depth == if ld == before.global_depth {
        before.global_depth + 1
    } else {
        before.global_depth as int
    }
    &&& after.directory@.len() == if ld == before.global_depth {
        2 * m
    } else {
        m
    }
    &&& forall|s: int|
        0 <= s < after.directory@.len() ==> #[trigger] after.directory@[s] as int == if before.directory@[s % m]
            == b && bit_set(s as nat, ld as nat) {
            n
        } else {
            before.directory@[s % m] as int
        }
}

/// `ks` lists distinct keys of `m`, each sharing the lowest `d` bits of `key`.
pub open spec fn crowd(m: Map<EKey, (usize, usize)>, key: EKey, d: nat, ks: Seq<EKey>) -> bool {
    &&& ks.no_duplicates()
    &&& forall|i: int|
        0 <= i < ks.len() ==> m.contains_key(#[trigger] ks[i]) && slot_of(ks[i].1, d) == slot_of(key.1, d)
}

/// At least `cap` keys of `m` share the lowest `d` bits of `key`: a bucket of
/// capacity `cap` at local depth `d` cannot take `key` as well.
pub open spec fn crowded(m: Map<EKey, (usize, usize)>, key: EKey, d: nat, cap: nat) -> bool {
    exists|ks: Seq<EKey>| ks.len() >= cap && #[trigger] crowd(m, key, d, ks)
}

/// How inserting a new key reshapes the index. The bucket of `key` was split
/// from local depth `d0` to `d1`: one new bucket per split, appended with the
/// next label and the capacity `cap` of the split bucket; the directory grew
/// to cover `d1`, and is unchanged when nothing was split; the older buckets
/// kept their labels and capacities, and all but the key's bucket their local
/// depths. Each
/// split was forced: at every depth from `d0` below `d1` at least `cap` stored
/// keys share the key's low bits; at `d1` fewer do unless the insertion failed,
/// which happens only at `MAX_DEPTH`.
pub open spec fn reshaped(before: HashAlt2, after: HashAlt2, key: EKey, ok: bool) -> bool {
    let cap = before.buckets@[before.home(key)].size as nat;
    let d0 = before.buckets@[before.home(key)].local_depth as nat;
    let d1 = after.buckets@[after.home(key)].local_depth as nat;
    &&& d0 <= d1
    &&& after.buckets@.len() == before.buckets@.len() + (d1 - d0)
    &&& after.global_depth == max_nat(before.global_depth as nat, d1)
    &&& after.buckets@[after.home(key)].size == cap
    &&& after.buckets@.len() == before.buckets@.len() ==> after.directory == before.directory
    &&& forall|c: int|
        0 <= c < before.buckets@.len() && c != before.home(key) ==> (#[trigger] after.buckets@[c]).local_depth
            == before.buckets@[c].local_depth
    &&& forall|c: int|
        0 <= c < before.buckets@.len() ==> (#[trigger] after.buckets@[c]).name == before.buckets@[c].name
            && after.buckets@[c].size == before.buckets@[c].size
    &&& forall|c: int|
        before.buckets@.len() <= c < after.buckets@.len() ==> (#[trigger] after.buckets@[c]).size == cap
            && after.buckets@[c].name@ == label_after(after.buckets@[c - 1].name@)
    &&& !ok ==> d1 == MAX_DEPTH
    &&& before.aliases_ok() ==> {
        &&& forall|d: nat| d0 <= d < d1 ==> #[trigger] crowded(before@, key, d, cap)
        &&& ok ==> !crowded(before@, key, d1, cap)
        &&& !ok ==> crowded(before@, key, MAX_DEPTH as nat, cap)
    }
}

/// What `insert` of `key` pointing at `rid` into `before` leaves: a text
/// over `TEXT_LEN` bytes or a stored key is refused with nothing changed;
/// otherwise the key maps to `rid`, unless its bucket is still full at
/// `MAX_DEPTH`, which changes no content. See `reshaped` for the buckets.
pub open spec fn inserted(
    before: HashAlt2,
    after: HashAlt2,
    rid: (usize, usize),
    key: EKey,
    r: Result<(), IndexError>,
) -> bool {
    if text_bytes(key.0).len() > TEXT_LEN {
        r == Err::<(), IndexError>(IndexError::TextTooLong) && after == before
    } else if before@.contains_key(key) {
        r == Err::<(), IndexError>(IndexError::DuplicateKey) && after == before
    } else {
        &&& reshaped(before, after, key, r is Ok)
        &&& match r {
            Ok(()) => after@ == before@.insert(key, rid),
            Err(e) => e == IndexError::OverflowDepth && after@ == before@,
        }
    }
}

/// The encodings of the first `n` buckets, back to back.
pub open spec fn buckets_bytes(bs: Seq<BucketAlt2>, n: nat) -> Seq<u8>
    decreases n,
{
    if n == 0 {
        Seq::empty()
    } else {
        buckets_bytes(bs, (n - 1) as nat) + bucket2_bytes(bs[n - 1])
    }
}

/// The encoding of an index: global depth, bucket count, the buckets,
/// directory length, the directory.
pub open spec fn index_bytes(h: HashAlt2) -> Seq<u8> {
    seq![h.global_depth] + u16_be(h.buckets@.len() as u16) + buckets_bytes(h.buckets@, h.buckets@.len())
        + u16_be(h.directory@.len() as u16) + dir_bytes(h.directory@, h.directory@.len())
}

/// Label, local depth, capacity and entries of a bucket.
pub type Bucket2Image = (Seq<char>, u8, u8, Seq<EntryImage>);

pub open spec fn bucket_image(bk: BucketAlt2) -> Bucket2Image {
    (bk.name@, bk.local_depth, bk.size, bk.data@.map_values(|x: Entry| entry_image(x)))
}

/// Global depth, buckets and directory of an index.
pub open spec fn index_image(h: HashAlt2) -> (u8, Seq<Bucket2Image>, Seq<usize>) {
    (h.global_depth, h.buckets@.map_values(|bk: BucketAlt2| bucket_image(bk)), h.directory@)
}

/// `m` buckets read back to back from `p`, and where they end.
pub open spec fn parse_buckets(b: Seq<u8>, p: int, m: nat) -> Option<(Seq<Bucket2Image>, int)>
    decreases m,
{
    if m == 0 {
        Some((Seq::empty(), p))
    } else {
        match parse_buckets(b, p, (m - 1) as nat) {
            None => None,
            Some((bs, q)) => match parse_bucket2(b, q) {
                None => None,
                Some((nm, ld, sz, d, e)) => Some((bs.push((nm, ld, sz, d)), e)),
            },
        }
    }
}

/// The index encoded in `b`, read field by field; bytes after the directory
/// are not looked at.
pub open spec fn parse_index(b: Seq<u8>) -> Option<(u8, Seq<Bucket2Image>, Seq<usize>)> {
    if b.len() < 3 {
        None
    } else {
        match parse_buckets(b, 3, u16_at(b, 1) as nat) {
            None => None,
            Some((bs, q)) => if q + 2 > b.len() || q + 2 + 2 * u16_at(b, q) > b.len() {
                None
            } else {
                Some((b[0], bs, Seq::new(u16_at(b, q) as nat, |i: int| u16_at(b, q + 2 + 2 * i) as usize)))
            },
        }
    }
}

/// The bucket that an image directs `k` to.
pub open spec fn image_home(img: (u8, Seq<Bucket2Image>, Seq<usize>), k: EKey) -> int {
    img.2[slot_of(k.1, img.0 as nat) as int] as int
}

/// Bucket `c` of an image keeps the invariant of `HashAlt2::bucket_ok`.
pub open spec fn image_bucket_ok(img: (u8, Seq<Bucket2Image>, Seq<usize>), c: int) -> bool {
    &&& img.1[c].3.len() <= img.1[c].2
    &&& img.1[c].1 <= img.0
    &&& forall|i: int, j: int|
        0 <= i < img.1[c].3.len() && 0 <= j < img.1[c].3.len() && i != j ==> ((#[trigger] img.1[c].3[i]).0,
        img.1[c].3[i].1) != ((#[trigger] img.1[c].3[j]).0, img.1[c].3[j].1)
    &&& forall|j: int|
        0 <= j < img.1[c].3.len() ==> image_home(img, ((#[trigger] img.1[c].3[j]).0, img.1[c].3[j].1)) == c
    &&& forall|j: int| 0 <= j < img.1[c].3.len() ==> text_bytes((#[trigger] img.1[c].3[j]).0).len() <= TEXT_LEN
}

/// An image of a well-formed index: `HashAlt2::wf` read on images.
pub open spec fn image_wf(img: (u8, Seq<Bucket2Image>, Seq<usize>)) -> bool {
    &&& img.0 <= MAX_DEPTH
    &&& img.2.len() == pow2(img.0 as nat)
    &&& img.1.len() >= 1
    &&& forall|s: int| 0 <= s < img.2.len() ==> (#[trigger] img.2[s]) < img.1.len()
    &&& forall|c: int| 0 <= c < img.1.len() ==> #[trigger] image_bucket_ok(img, c)
}

proof fn lemma_parse_buckets_none(b: Seq<u8>, p: int, j: nat, m: nat)
    requires
        j <= m,
        parse_buckets(b, p, j) is None,
    ensures
        parse_buckets(b, p, m) is None,
    decreases m - j,
{
    if j < m {
        lemma_parse_buckets_none(b, p, j + 1, m);
    }
}

/// Extendible hashing index keyed by `Entry::nseq`.
pub struct HashAlt2 {
    pub global_depth: u8,
    pub directory: Vec<usize>,
    pub buckets: Vec<BucketAlt2>,
}

impl View for HashAlt2 {
    type V = Map<EKey, (usize, usize)>;

    /// The stored texts by key.
    open spec fn view(&self) -> Map<EKey, (usize, usize)> {
        Map::new(
            |k: EKey| exists|j: int| self.holds_at(k, j),
            |k: EKey| self.buckets@[self.home(k)].data@[choose|j: int| self.holds_at(k, j)].1,
        )
    }
}

impl HashAlt2 {
    /// The bucket that the directory assigns to `k`.
    pub open spec fn home(&self, k: EKey) -> int {
        self.directory@[slot_of(k.1, self.global_depth as nat) as int] as int
    }

    /// Position `j` of the bucket of `k` holds an entry with key `k`.
    pub open spec fn holds_at(&self, k: EKey, j: int) -> bool {
        &&& 0 <= j < self.buckets@[self.home(k)].data@.len()
        &&& ekey(self.buckets@[self.home(k)].data@[j]) == k
    }

    pub open spec fn bucket_ok(&self, b: int) -> bool {
        &&& self.buckets@[b].data@.len() <= self.buckets@[b].size
        &&& self.buckets@[b].local_depth <= self.global_depth
        &&& entries_distinct(self.buckets@[b].data@)
        &&& forall|j: int|
            0 <= j < self.buckets@[b].data@.len() ==> self.home(
                ekey(#[trigger] self.buckets@[b].data@[j]),
            ) == b
        &&& forall|j: int|
            0 <= j < self.buckets@[b].data@.len() ==> text_bytes(
                (#[trigger] self.buckets@[b].data@[j]).0.0@,
            ).len() <= TEXT_LEN
    }

    /// The directory has `2^global_depth` slots, each naming a bucket of the
    /// store; every entry sits in the bucket its key is directed to, keys are
    /// distinct, and no bucket is over capacity or deeper than the directory.
    pub open spec fn wf(&self) -> bool {
        &&& self.global_depth <= MAX_DEPTH
        &&& self.directory@.len() == pow2(self.global_depth as nat)
        &&& self.buckets@.len() >= 1
        &&& forall|s: int|
            0 <= s < self.directory@.len() ==> (#[trigger] self.directory@[s]) < self.buckets@.len()
        &&& forall|b: int| 0 <= b < self.buckets@.len() ==> #[trigger] self.bucket_ok(b)
    }

    /// The slots that name a bucket are exactly those that agree with any one
    /// of them on the bucket's lowest `local_depth` bits; so a bucket of local
    /// depth `ld` is named by `2^(global_depth - ld)` slots.
    pub open spec fn aliases_ok(&self) -> bool {
        forall|s1: int, s2: int|
            0 <= s1 < self.directory@.len() && 0 <= s2 < self.directory@.len() && self.directory@[s1]
                < self.buckets@.len() ==> ((#[trigger] self.directory@[s2] == #[trigger] self.directory@[s1]) <==> s2
                % pow2(self.buckets@[self.directory@[s1] as int].local_depth as nat) as int == s1 % pow2(
                self.buckets@[self.directory@[s1] as int].local_depth as nat,
            ) as int)
    }

    proof fn lemma_home_in_range(&self, k: EKey)
        requires
            self.wf(),
        ensures
            0 <= slot_of(k.1, self.global_depth as nat) < self.directory@.len(),
            0 <= self.home(k) < self.buckets@.len(),
    {
        lemma_pow2_pos(self.global_depth as nat);
        let s = slot_of(k.1, self.global_depth as nat) as int;
        assert(0 <= s < self.directory@.len());
        assert(self.directory@[s] < self.buckets@.len());
    }

    proof fn lemma_view_at(&self, k: EKey, j: int)
        requires
            self.wf(),
            self.holds_at(k, j),
        ensures
            self@.contains_key(k),
            self@[k] == self.buckets@[self.home(k)].data@[j].1,
    {
        self.lemma_home_in_range(k);
        let j2 = choose|j2: int| self.holds_at(k, j2);
        assert(self.holds_at(k, j2));
        assert(self.bucket_ok(self.home(k)));
        assert(j2 == j);
    }

    proof fn lemma_view_absent(&self, k: EKey)
        requires
            self.wf(),
            forall|j: int| !self.holds_at(k, j),
        ensures
            !self@.contains_key(k),
    {
    }

    /// Two well-formed indexes that hold the same keys, each with the same
    /// text, have the same view.
    proof fn lemma_same_view_inner(a: HashAlt2, b: HashAlt2)
        requires
            a.wf(),
            b.wf(),
            forall|k: EKey, j: int| #[trigger] a.holds_at(k, j) ==> exists|j2: int| b.holds_at(k, j2),
            forall|k: EKey, j: int| #[trigger] b.holds_at(k, j) ==> exists|j1: int| a.holds_at(k, j1),
            forall|k: EKey, j1: int, j2: int|
                a.holds_at(k, j1) && b.holds_at(k, j2) ==> #[trigger] a.buckets@[a.home(k)].data@[j1].1
                    == #[trigger] b.buckets@[b.home(k)].data@[j2].1,
        ensures
            a@ == b@,
    {
        assert forall|k: EKey| a@.contains_key(k) == b@.contains_key(k) by {
            if a@.contains_key(k) {
                let j = choose|j: int| a.holds_at(k, j);
                assert(a.holds_at(k, j));
            }
            if b@.contains_key(k) {
                let j = choose|j: int| b.holds_at(k, j);
                assert(b.holds_at(k, j));
            }
        }
        assert forall|k: EKey| a@.contains_key(k) implies a@[k] == b@[k] by {
            let j1 = choose|j: int| a.holds_at(k, j);
            assert(a.holds_at(k, j1));
            let j2 = choose|j: int| b.holds_at(k, j);
            assert(b.holds_at(k, j2));
            a.lemma_view_at(k, j1);
            b.lemma_view_at(k, j2);
            assert(a.buckets@[a.home(k)].data@[j1].1 == b.buckets@[b.home(k)].data@[j2].1);
        }
        assert(a@ =~= b@);
    }

    /// What the end of a split establishes, from the state `a` before it.
    proof fn lemma_split_done(
        &self,
        a: HashAlt2,
        b: int,
        ld: nat,
        left: Seq<Entry>,
        right: Seq<Entry>,
        lidx: Seq<int>,
        ridx: Seq<int>,
    )
        requires
            a.wf(),
            0 <= b < a.buckets@.len(),
            ld == a.buckets@[b].local_depth,
            ld < a.global_depth,
            self.global_depth == a.global_depth,
            self.buckets@ == a.buckets@.update(
                b,
                BucketAlt2 {
                    name: self.buckets@[b].name,
                    local_depth: (ld + 1) as u8,
                    data: self.buckets@[b].data,
                    size: a.buckets@[b].size,
                },
            ).push(self.buckets@[a.buckets@.len() as int]),
            self.buckets@[b].data@ == left,
            self.buckets@[a.buckets@.len() as int].data@ == right,
            self.buckets@[a.buckets@.len() as int].local_depth == ld + 1,
            self.buckets@[a.buckets@.len() as int].size == a.buckets@[b].size,
            self.directory@.len() == a.directory@.len(),
            forall|t: int|
                0 <= t < self.directory@.len() ==> #[trigger] self.directory@[t] as int == if a.directory@[t] == b
                    && bit_set(t as nat, ld) {
                    a.buckets@.len() as int
                } else {
                    a.directory@[t] as int
                },
            left.len() == lidx.len(),
            right.len() == ridx.len(),
            left.len() + right.len() == a.buckets@[b].data@.len(),
            forall|q: int|
                0 <= q < lidx.len() ==> 0 <= #[trigger] lidx[q] < a.buckets@[b].data@.len() && left[q]
                    == a.buckets@[b].data@[lidx[q]] && !bit_set(key_bits((left[q]).0.1), ld),
            forall|q: int|
                0 <= q < ridx.len() ==> 0 <= #[trigger] ridx[q] < a.buckets@[b].data@.len() && right[q]
                    == a.buckets@[b].data@[ridx[q]] && bit_set(key_bits((right[q]).0.1), ld),
            forall|q1: int, q2: int| 0 <= q1 < q2 < lidx.len() ==> lidx[q1] < lidx[q2],
            forall|q1: int, q2: int| 0 <= q1 < q2 < ridx.len() ==> ridx[q1] < ridx[q2],
            forall|t: int|
                0 <= t < a.buckets@[b].data@.len() ==> (bit_set(
                    key_bits((#[trigger] a.buckets@[b].data@[t]).0.1),
                    ld,
                ) ==> exists|q: int| 0 <= q < ridx.len() && ridx[q] == t) && (!bit_set(
                    key_bits((a.buckets@[b].data@[t]).0.1),
                    ld,
                ) ==> exists|q: int| 0 <= q < lidx.len() && lidx[q] == t),
        ensures
            self.wf(),
            self@ == a@,
            forall|k: EKey|
                a.home(k) == b ==> self.buckets@[#[trigger] self.home(k)].local_depth == ld + 1,
            a.aliases_ok() ==> self.aliases_ok(),
            forall|k: EKey|
                a.home(k) == b ==> #[trigger] self.home(k) == b || self.home(k) == a.buckets@.len(),
    {
        let g = a.global_depth as nat;
        let nb = a.buckets@.len() as int;
        let data = a.buckets@[b].data@;
        assert(a.bucket_ok(b));
        assert forall|k: EKey| #[trigger]
            self.home(k) == if a.home(k) == b && bit_set(key_bits(k.1), ld) {
                nb
            } else {
                a.home(k)
            } by {
            a.lemma_home_in_range(k);
            lemma_bit_of_low_bits(key_bits(k.1), ld, g);
        }
        assert forall|t: int| 0 <= t < self.directory@.len() implies (#[trigger] self.directory@[t])
            < self.buckets@.len() by {
        }
        assert forall|c: int| 0 <= c < self.buckets@.len() implies #[trigger] self.bucket_ok(c) by {
            if c == b {
                assert forall|j: int| 0 <= j < left.len() implies self.home(
                    ekey(#[trigger] self.buckets@[c].data@[j]),
                ) == c by {
                    assert(left[j] == data[lidx[j]]);
                }
                assert forall|j1: int, j2: int|
                    0 <= j1 < left.len() && 0 <= j2 < left.len() && j1 != j2 implies ekey(#[trigger] left[j1])
                    != ekey(#[trigger] left[j2]) by {
                    if j1 < j2 {
                        assert(lidx[j1] < lidx[j2]);
                    } else {
                        assert(lidx[j2] < lidx[j1]);
                    }
                }
                assert forall|j: int| 0 <= j < left.len() implies text_bytes(
                (#[trigger] self.buckets@[c].data@[j]).0.0@,
                ).len() <= TEXT_LEN by {
                    assert(left[j] == data[lidx[j]]);
                }
            } else if c == nb {
                assert forall|j: int| 0 <= j < right.len() implies self.home(
                    ekey(#[trigger] self.buckets@[c].data@[j]),
                ) == c by {
                    assert(right[j] == data[ridx[j]]);
                }
                assert forall|j1: int, j2: int|
                    0 <= j1 < right.len() && 0 <= j2 < right.len() && j1 != j2 implies ekey(#[trigger] right[j1])
                    != ekey(#[trigger] right[j2]) by {
                    if j1 < j2 {
                        assert(ridx[j1] < ridx[j2]);
                    } else {
                        assert(ridx[j2] < ridx[j1]);
                    }
                }
                assert forall|j: int| 0 <= j < right.len() implies text_bytes(
                (#[trigger] self.buckets@[c].data@[j]).0.0@,
                ).len() <= TEXT_LEN by {
                    assert(right[j] == data[ridx[j]]);
                }
            } else {
                assert(a.bucket_ok(c));
                assert(self.buckets@[c] == a.buckets@[c]);
                assert forall|j: int| 0 <= j < self.buckets@[c].data@.len() implies self.home(
                    ekey(#[trigger] self.buckets@[c].data@[j]),
                ) == c by {
                    assert(a.home(ekey(a.buckets@[c].data@[j])) == c);
                }
            }
        }
        assert(self.wf());
        assert forall|k: EKey, j: int| #[trigger] a.holds_at(k, j) implies exists|j2: int|
            self.holds_at(k, j2) by {
            a.lemma_home_in_range(k);
            if a.home(k) == b {
                if bit_set(key_bits(k.1), ld) {
                    let q = choose|q: int| 0 <= q < ridx.len() && ridx[q] == j;
                    assert(self.holds_at(k, q));
                } else {
                    let q = choose|q: int| 0 <= q < lidx.len() && lidx[q] == j;
                    assert(self.holds_at(k, q));
                }
            } else {
                assert(self.holds_at(k, j));
            }
        }
        assert forall|k: EKey, j: int| #[trigger] self.holds_at(k, j) implies exists|j1: int|
            a.holds_at(k, j1) && self.buckets@[self.home(k)].data@[j] == a.buckets@[a.home(k)].data@[j1] by {
            a.lemma_home_in_range(k);
            if self.home(k) == nb {
                assert(a.holds_at(k, ridx[j]));
            } else if self.home(k) == b && a.home(k) == b {
                assert(a.holds_at(k, lidx[j]));
            } else {
                assert(a.holds_at(k, j));
            }
        }
        assert forall|k: EKey, j1: int, j2: int|
            a.holds_at(k, j1) && self.holds_at(k, j2) implies #[trigger] a.buckets@[a.home(k)].data@[j1].1
            == #[trigger] self.buckets@[self.home(k)].data@[j2].1 by {
            a.lemma_home_in_range(k);
            assert(a.bucket_ok(a.home(k)));
            let j3 = choose|j3: int|
                a.holds_at(k, j3) && self.buckets@[self.home(k)].data@[j2] == a.buckets@[a.home(k)].data@[j3];
            assert(j3 == j1);
        }
        assert forall|k: EKey, j: int| #[trigger] self.holds_at(k, j) implies exists|j1: int|
            a.holds_at(k, j1) by {
            let j3 = choose|j3: int|
                a.holds_at(k, j3) && self.buckets@[self.home(k)].data@[j] == a.buckets@[a.home(k)].data@[j3];
        }
        Self::lemma_same_view_inner(a, *self);
        if a.aliases_ok() {
            assert forall|s1: int, s2: int|
                0 <= s1 < self.directory@.len() && 0 <= s2 < self.directory@.len() && self.directory@[s1]
                    < self.buckets@.len() implies ((#[trigger] self.directory@[s2] == #[trigger] self.directory@[s1])
                <==> s2 % pow2(self.buckets@[self.directory@[s1] as int].local_depth as nat) as int == s1 % pow2(
                self.buckets@[self.directory@[s1] as int].local_depth as nat,
            ) as int) by {
                let c0 = a.directory@[s1] as int;
                assert(a.directory@[s1] < a.buckets@.len());
                assert(a.bucket_ok(c0));
                let p0 = pow2(a.buckets@[c0].local_depth as nat) as int;
                assert(a.directory@[s2] == a.directory@[s1] <==> s2 % p0 == s1 % p0);
                lemma_low_bits_split(s1 as nat, s2 as nat, ld);
                if c0 == b {
                    assert(pow2(ld + 1) as int == pow2(self.buckets@[self.directory@[s1] as int].local_depth as nat) as int);
                } else {
                    assert(self.directory@[s1] == a.directory@[s1]);
                    assert(self.buckets@[c0] == a.buckets@[c0]);
                }
            }
        }
    }

    /// Appending an entry with a new key to the bucket of that key adds the
    /// key to the view.
    proof fn lemma_push_done(&self, a: HashAlt2, key: EKey, b: int, rec: Entry)
        requires
            a.wf(),
            !a@.contains_key(key),
            ekey(rec) == key,
            text_bytes(rec.0.0@).len() <= TEXT_LEN,
            b == a.home(key),
            a.buckets@[b].data@.len() < a.buckets@[b].size,
            self.global_depth == a.global_depth,
            self.directory == a.directory,
            self.buckets@.len() == a.buckets@.len(),
            forall|c: int| 0 <= c < a.buckets@.len() && c != b ==> self.buckets@[c] == a.buckets@[c],
            self.buckets@[b].data@ == a.buckets@[b].data@.push(rec),
            self.buckets@[b].size == a.buckets@[b].size,
            self.buckets@[b].local_depth == a.buckets@[b].local_depth,
        ensures
            self.wf(),
            self@ == a@.insert(key, rec.1),
            a.aliases_ok() ==> self.aliases_ok(),
    {
        a.lemma_home_in_range(key);
        assert(a.bucket_ok(b));
        assert forall|j: int| 0 <= j < a.buckets@[b].data@.len() implies ekey(#[trigger] a.buckets@[b].data@[j])
            != key by {
            if ekey(a.buckets@[b].data@[j]) == key {
                assert(a.holds_at(key, j));
            }
        }
        assert forall|c: int| 0 <= c < self.buckets@.len() implies #[trigger] self.bucket_ok(c) by {
            assert(a.bucket_ok(c));
            if c == b {
                let d = self.buckets@[b].data@;
                assert forall|j: int| 0 <= j < d.len() implies self.home(ekey(#[trigger] d[j])) == c by {
                    if j < d.len() - 1 {
                        assert(d[j] == a.buckets@[b].data@[j]);
                    }
                }
                assert forall|j1: int, j2: int|
                    0 <= j1 < d.len() && 0 <= j2 < d.len() && j1 != j2 implies ekey(#[trigger] d[j1])
                    != ekey(#[trigger] d[j2]) by {
                    if j1 < d.len() - 1 {
                        assert(d[j1] == a.buckets@[b].data@[j1]);
                    }
                    if j2 < d.len() - 1 {
                        assert(d[j2] == a.buckets@[b].data@[j2]);
                    }
                }
                assert forall|j: int| 0 <= j < d.len() implies text_bytes((#[trigger] d[j]).0.0@).len()
                    <= TEXT_LEN by {
                    if j < d.len() - 1 {
                        assert(d[j] == a.buckets@[b].data@[j]);
                    }
                }
            }
        }
        assert(self.wf());
        assert forall|k: EKey| self@.contains_key(k) == a@.insert(key, rec.1).contains_key(k) by {
            if k == key {
                assert(self.holds_at(key, a.buckets@[b].data@.len() as int));
            } else if a@.contains_key(k) {
                let j = choose|j: int| a.holds_at(k, j);
                assert(a.holds_at(k, j));
                assert(self.holds_at(k, j));
            } else if self@.contains_key(k) {
                let j = choose|j: int| self.holds_at(k, j);
                assert(self.holds_at(k, j));
                assert(a.holds_at(k, j));
            }
        }
        assert forall|k: EKey| self@.contains_key(k) implies self@[k] == a@.insert(key, rec.1)[k] by {
            if k == key {
                self.lemma_view_at(key, a.buckets@[b].data@.len() as int);
            } else {
                let j = choose|j: int| self.holds_at(k, j);
                assert(self.holds_at(k, j));
                assert(a.holds_at(k, j));
                self.lemma_view_at(k, j);
                a.lemma_view_at(k, j);
            }
        }
        assert(self@ =~= a@.insert(key, rec.1));
        if a.aliases_ok() {
            assert forall|s1: int, s2: int|
                0 <= s1 < self.directory@.len() && 0 <= s2 < self.directory@.len() && self.directory@[s1]
                    < self.buckets@.len() implies ((#[trigger] self.directory@[s2] == #[trigger] self.directory@[s1])
                <==> s2 % pow2(self.buckets@[self.directory@[s1] as int].local_depth as nat) as int == s1 % pow2(
                self.buckets@[self.directory@[s1] as int].local_depth as nat,
            ) as int) by {
                let c0 = a.directory@[s1] as int;
                if c0 != b {
                    assert(self.buckets@[c0] == a.buckets@[c0]);
                }
            }
        }
    }

    /// Taking the entry with key `key` out of its bucket removes the key
    /// from the view.
    proof fn lemma_remove_done(&self, a: HashAlt2, key: EKey, b: int, r: bool)
        requires
            a.wf(),
            b == a.home(key),
            0 <= b < a.buckets@.len(),
            self.global_depth == a.global_depth,
            self.directory == a.directory,
            self.buckets@.len() == a.buckets@.len(),
            forall|c: int| 0 <= c < a.buckets@.len() && c != b ==> self.buckets@[c] == a.buckets@[c],
            self.buckets@[b].size == a.buckets@[b].size,
            self.buckets@[b].local_depth == a.buckets@[b].local_depth,
            r == has_entry(a.buckets@[b].data@, key),
            !r ==> self.buckets@[b].data@ == a.buckets@[b].data@,
            r ==> exists|i: int|
                is_first_entry(a.buckets@[b].data@, key, i) && self.buckets@[b].data@ == a.buckets@[b].data@.remove(i),
        ensures
            self.wf(),
            self@ == a@.remove(key),
            r == a@.contains_key(key),
            a.aliases_ok() ==> self.aliases_ok(),
    {
        assert(a.bucket_ok(b));
        let d0 = a.buckets@[b].data@;
        let d = self.buckets@[b].data@;
        // where each entry of the new bucket was before
        let ghost pos = if r {
            choose|i: int| is_first_entry(d0, key, i) && d == d0.remove(i)
        } else {
            d0.len() as int
        };
        assert(forall|j: int| 0 <= j < d.len() ==> #[trigger] d[j] == d0[if j < pos { j } else { j + 1 }]);
        assert forall|c: int| 0 <= c < self.buckets@.len() implies #[trigger] self.bucket_ok(c) by {
            assert(a.bucket_ok(c));
            if c == b {
                assert forall|j: int| 0 <= j < d.len() implies self.home(ekey(#[trigger] d[j])) == c by {
                    assert(d[j] == d0[if j < pos { j } else { j + 1 }]);
                }
                assert forall|j1: int, j2: int|
                    0 <= j1 < d.len() && 0 <= j2 < d.len() && j1 != j2 implies ekey(#[trigger] d[j1])
                    != ekey(#[trigger] d[j2]) by {
                    assert(d[j1] == d0[if j1 < pos { j1 } else { j1 + 1 }]);
                    assert(d[j2] == d0[if j2 < pos { j2 } else { j2 + 1 }]);
                }
                assert forall|j: int| 0 <= j < d.len() implies text_bytes((#[trigger] d[j]).0.0@).len()
                    <= TEXT_LEN by {
                    assert(d[j] == d0[if j < pos { j } else { j + 1 }]);
                }
            }
        }
        assert(self.wf());
        if r {
            assert(a.holds_at(key, pos));
            a.lemma_view_at(key, pos);
        } else {
            assert forall|j: int| !a.holds_at(key, j) by {
                if a.holds_at(key, j) {
                    assert(has_entry(d0, key));
                }
            }
        }
        assert forall|k: EKey| self@.contains_key(k) == a@.remove(key).contains_key(k) by {
            a.lemma_home_in_range(k);
            assert(self.home(k) == a.home(k));
            if a@.contains_key(k) && k != key {
                let j = choose|j: int| a.holds_at(k, j);
                assert(a.holds_at(k, j));
                if self.home(k) == b {
                    if j < pos {
                        assert(self.holds_at(k, j));
                    } else {
                        assert(j != pos);
                        assert(self.holds_at(k, j - 1));
                    }
                } else {
                    assert(self.holds_at(k, j));
                }
            }
            if self@.contains_key(k) {
                let j = choose|j: int| self.holds_at(k, j);
                assert(self.holds_at(k, j));
                if self.home(k) == b {
                    let j0 = if j < pos { j } else { j + 1 };
                    assert(d[j] == d0[j0]);
                    assert(a.holds_at(k, j0));
                    if k == key {
                        assert(a.bucket_ok(b));
                        assert(j0 != pos);
                    }
                } else {
                    assert(a.holds_at(k, j));
                }
            }
        }
        assert forall|k: EKey| self@.contains_key(k) implies self@[k] == a@.remove(key)[k] by {
            a.lemma_home_in_range(k);
            assert(self.home(k) == a.home(k));
            assert(a@.remove(key).contains_key(k));
            let j = choose|j: int| self.holds_at(k, j);
            assert(self.holds_at(k, j));
            self.lemma_view_at(k, j);
            if self.home(k) == b {
                let j0 = if j < pos { j } else { j + 1 };
                assert(d[j] == d0[j0]);
                assert(a.holds_at(k, j0));
                a.lemma_view_at(k, j0);
            } else {
                assert(a.holds_at(k, j));
                a.lemma_view_at(k, j);
            }
        }
        assert(self@ =~= a@.remove(key));
        if a.aliases_ok() {
            assert forall|s1: int, s2: int|
                0 <= s1 < self.directory@.len() && 0 <= s2 < self.directory@.len() && self.directory@[s1]
                    < self.buckets@.len() implies ((#[trigger] self.directory@[s2] == #[trigger] self.directory@[s1])
                <==> s2 % pow2(self.buckets@[self.directory@[s1] as int].local_depth as nat) as int == s1 % pow2(
                self.buckets@[self.directory@[s1] as int].local_depth as nat,
            ) as int) by {
                let c0 = a.directory@[s1] as int;
                if c0 != b {
                    assert(self.buckets@[c0] == a.buckets@[c0]);
                }
            }
        }
    }

    /// With the aliasing invariant, a key shares the bucket of `key` exactly
    /// when it shares that bucket's lowest `local_depth` bits with `key`.
    proof fn lemma_same_bucket(&self, key: EKey, k: EKey)
        requires
            self.wf(),
            self.aliases_ok(),
        ensures
            (self.home(k) == self.home(key)) <==> slot_of(k.1, self.buckets@[self.home(key)].local_depth as nat)
                == slot_of(key.1, self.buckets@[self.home(key)].local_depth as nat),
    {
        self.lemma_home_in_range(key);
        self.lemma_home_in_range(k);
        let g = self.global_depth as nat;
        let ld = self.buckets@[self.home(key)].local_depth as nat;
        assert(self.bucket_ok(self.home(key)));
        let s1 = slot_of(key.1, g) as int;
        let s2 = slot_of(k.1, g) as int;
        assert(self.directory@[s2] == self.directory@[s1] <==> s2 % pow2(ld) as int == s1 % pow2(ld) as int);
        lemma_low_of_low(key_bits(key.1), ld, g);
        lemma_low_of_low(key_bits(k.1), ld, g);
    }

    /// A full bucket of `key` at local depth `d` means `size` stored keys
    /// share the key's lowest `d` bits.
    proof fn lemma_full_crowded(&self, key: EKey)
        requires
            self.wf(),
            self.aliases_ok(),
            self.buckets@[self.home(key)].data@.len() >= self.buckets@[self.home(key)].size,
        ensures
            crowded(
                self@,
                key,
                self.buckets@[self.home(key)].local_depth as nat,
                self.buckets@[self.home(key)].size as nat,
            ),
    {
        self.lemma_home_in_range(key);
        let b = self.home(key);
        assert(self.bucket_ok(b));
        let d = self.buckets@[b].data@;
        let ld = self.buckets@[b].local_depth as nat;
        let ks = d.map_values(|r: Entry| ekey(r));
        assert forall|i: int, j: int| 0 <= i < ks.len() && 0 <= j < ks.len() && i != j implies ks[i] != ks[j] by {
            assert(ekey(d[i]) != ekey(d[j]));
        }
        assert forall|i: int| 0 <= i < ks.len() implies self@.contains_key(#[trigger] ks[i]) && slot_of(ks[i].1, ld)
            == slot_of(key.1, ld) by {
            assert(ks[i] == ekey(d[i]));
            assert(self.home(ekey(d[i])) == b);
            assert(self.holds_at(ks[i], i));
            self.lemma_view_at(ks[i], i);
            self.lemma_same_bucket(key, ks[i]);
        }
        assert(crowd(self@, key, ld, ks));
    }

    /// Room in the bucket of `key` at local depth `d` means fewer than `size`
    /// stored keys share the key's lowest `d` bits.
    proof fn lemma_room_not_crowded(&self, key: EKey)
        requires
            self.wf(),
            self.aliases_ok(),
            self.buckets@[self.home(key)].data@.len() < self.buckets@[self.home(key)].size,
        ensures
            !crowded(
                self@,
                key,
                self.buckets@[self.home(key)].local_depth as nat,
                self.buckets@[self.home(key)].size as nat,
            ),
    {
        self.lemma_home_in_range(key);
        let b = self.home(key);
        let d = self.buckets@[b].data@;
        let ld = self.buckets@[b].local_depth as nat;
        let cap = self.buckets@[b].size as nat;
        if crowded(self@, key, ld, cap) {
            let ks = choose|ks: Seq<EKey>| ks.len() >= cap && #[trigger] crowd(self@, key, ld, ks);
            let dk = d.map_values(|r: Entry| ekey(r));
            assert forall|x: EKey| ks.to_set().contains(x) implies dk.to_set().contains(x) by {
                let i = choose|i: int| 0 <= i < ks.len() && ks[i] == x;
                assert(self@.contains_key(ks[i]));
                let j = choose|j: int| self.holds_at(x, j);
                self.lemma_same_bucket(key, x);
                assert(dk[j] == x);
            }
            ks.unique_seq_to_set();
            dk.lemma_cardinality_of_set();
            vstd::seq_lib::seq_to_set_is_finite(dk);
            vstd::set_lib::lemma_len_subset(ks.to_set(), dk.to_set());
        }
    }

    /// The directory slot of `num`: its lowest `global_depth` bits.
    pub fn hash_fun(&self, num: i32) -> (r: usize)
        requires
            self.wf(),
        ensures
            r == slot_of(num, self.global_depth as nat),
            r < self.directory@.len(),
    {
        proof {
            lemma_pow2_pos(self.global_depth as nat);
        }
        slot_in(num, self.global_depth)
    }

    /// An empty index: `2^global_depth` empty buckets, slot `i` directed to
    /// bucket `i`, labelled `A`, `B`, ... in order.
    pub fn new(global_depth: u8, bucket_size: u8) -> (r: Self)
        requires
            global_depth <= MAX_DEPTH,
        ensures
            r.wf(),
            r.aliases_ok(),
            r@ == Map::<EKey, (usize, usize)>::empty(),
            r.global_depth == global_depth,
            r.directory@.len() == pow2(global_depth as nat),
            r.buckets@.len() == pow2(global_depth as nat),
            forall|i: int| 0 <= i < r.directory@.len() ==> #[trigger] r.directory@[i] == i,
            forall|i: int|
                0 <= i < r.buckets@.len() ==> (#[trigger] r.buckets@[i]).local_depth == global_depth
                    && r.buckets@[i].size == bucket_size && r.buckets@[i].data@.len() == 0
                    && r.buckets@[i].name@ == nth_label(i as nat),
    {
        let d: u32 = global_depth as u32;
        proof {
            lemma_u32_pow2_no_overflow(d as nat);
            lemma_u32_shl_is_mul(1u32, d);
            lemma_pow2_pos(d as nat);
        }
        let size: u32 = 1u32 << d;
        let mut directory: Vec<usize> = Vec::new();
        let mut buckets: Vec<BucketAlt2> = Vec::new();
        let mut name = ascii_string(vec![90u8, 90u8]);
        assert(name@ =~= seq!['Z', 'Z']);
        let mut i: u32 = 0;
        while i < size
            invariant
                size == pow2(d as nat),
                i <= size,
                directory@.len() == i,
                buckets@.len() == i,
                forall|t: int| 0 <= t < i ==> #[trigger] directory@[t] == t,
                forall|t: int|
                    0 <= t < i ==> (#[trigger] buckets@[t]).local_depth == global_depth
                        && buckets@[t].size == bucket_size && buckets@[t].data@.len() == 0
                        && buckets@[t].name@ == nth_label(t as nat),
                i == 0 ==> name@ == seq!['Z', 'Z'],
                i > 0 ==> name@ == nth_label((i - 1) as nat),
            decreases size - i,
        {
            name = next_string(&name);
            buckets.push(BucketAlt2::new(name.clone(), global_depth, bucket_size));
            directory.push(i as usize);
            i = i + 1;
        }
        let r = HashAlt2 { global_depth, directory, buckets };
        assert forall|b: int| 0 <= b < r.buckets@.len() implies #[trigger] r.bucket_ok(b) by {
            assert(entries_distinct(r.buckets@[b].data@));
        }
        assert(r@ =~= Map::<EKey, (usize, usize)>::empty());
        assert forall|s1: int, s2: int|
            0 <= s1 < r.directory@.len() && 0 <= s2 < r.directory@.len() && r.directory@[s1] < r.buckets@.len()
                implies ((#[trigger] r.directory@[s2] == #[trigger] r.directory@[s1]) <==> s2 % pow2(
            r.buckets@[r.directory@[s1] as int].local_depth as nat,
        ) as int == s1 % pow2(r.buckets@[r.directory@[s1] as int].local_depth as nat) as int) by {
            lemma_fundamental_div_mod_converse(s1, size as int, 0, s1);
            lemma_fundamental_div_mod_converse(s2, size as int, 0, s2);
        }
        r
    }

    /// Doubles the directory: slot `n + i` takes the bucket of slot `i`, and
    /// the global depth grows by one. No bucket changes.
    pub fn double_directory(&mut self)
        requires
            old(self).wf(),
            old(self).global_depth < MAX_DEPTH,
        ensures
            final(self).wf(),
            final(self)@ == old(self)@,
            final(self).global_depth == old(self).global_depth + 1,
            final(self).buckets == old(self).buckets,
            final(self).directory@.len() == 2 * old(self).directory@.len(),
            forall|s: int|
                0 <= s < final(self).directory@.len() ==> #[trigger] final(self).directory@[s]
                    == old(self).directory@[s % old(self).directory@.len() as int],
            forall|k: EKey| #[trigger] final(self).home(k) == old(self).home(k),
            old(self).aliases_ok() ==> final(self).aliases_ok(),
    {
        let ghost d0 = self.directory@;
        let n = self.directory.len();
        proof {
            lemma_pow2_pos(self.global_depth as nat);
            lemma_u32_pow2_no_overflow((self.global_depth + 1) as nat);
            lemma_pow2_unfold((self.global_depth + 1) as nat);
        }
        let mut i: usize = 0;
        while i < n
            invariant
                n == d0.len(),
                self.global_depth == old(self).global_depth,
                self.buckets == old(self).buckets,
                self.global_depth < MAX_DEPTH,
                n == pow2(self.global_depth as nat),
                2 * n < u32::MAX,
                i <= n,
                self.directory@.len() == n + i,
                forall|t: int| 0 <= t < n ==> #[trigger] self.directory@[t] == d0[t],
                forall|t: int| 0 <= t < i ==> #[trigger] self.directory@[n + t] == d0[t],
            decreases n - i,
        {
            let v = self.directory[i];
            self.directory.push(v);
            i = i + 1;
        }
        self.global_depth = self.global_depth + 1;
        proof {
            let gd = old(self).global_depth as nat;
            assert forall|s: int| 0 <= s < self.directory@.len() implies #[trigger] self.directory@[s]
                == d0[s % n as int] by {
                if s < n {
                    lemma_fundamental_div_mod_converse(s, n as int, 0, s);
                } else {
                    lemma_fundamental_div_mod_converse(s, n as int, 1, s - n);
                    assert(self.directory@[n + (s - n)] == d0[s - n]);
                }
            }
            assert forall|k: EKey| #[trigger] self.home(k) == old(self).home(k) by {
                lemma_mod_mod(key_bits(k.1) as int, pow2(gd) as int, 2);
                assert(slot_of(k.1, gd + 1) % pow2(gd) == slot_of(k.1, gd));
            }
            assert forall|b: int| 0 <= b < self.buckets@.len() implies #[trigger] self.bucket_ok(b) by {
                assert(old(self).bucket_ok(b));
                assert forall|j: int| 0 <= j < self.buckets@[b].data@.len() implies self.home(
                    ekey(#[trigger] self.buckets@[b].data@[j]),
                ) == b by {
                    assert(self.home(ekey(self.buckets@[b].data@[j])) == old(self).home(ekey(self.buckets@[b].data@[j])));
                }
            }
            assert forall|s: int| 0 <= s < self.directory@.len() implies (#[trigger] self.directory@[s])
                < self.buckets@.len() by {
                assert(self.directory@[s] == d0[s % n as int]);
            }
            assert forall|k: EKey, j: int| #[trigger] self.holds_at(k, j) == old(self).holds_at(k, j) by {
                assert(self.home(k) == old(self).home(k));
            }
            assert forall|k: EKey, j1: int, j2: int|
                old(self).holds_at(k, j1) && self.holds_at(k, j2) implies
                old(self).buckets@[old(self).home(k)].data@[j1].1
                    == self.buckets@[self.home(k)].data@[j2].1 by {
                old(self).lemma_home_in_range(k);
                assert(old(self).bucket_ok(old(self).home(k)));
            }
            assert forall|k: EKey, j: int| #[trigger] old(self).holds_at(k, j) implies exists|j2: int|
                self.holds_at(k, j2) by {
                assert(self.holds_at(k, j));
            }
            assert forall|k: EKey, j: int| #[trigger] self.holds_at(k, j) implies exists|j1: int|
                old(self).holds_at(k, j1) by {
                assert(old(self).holds_at(k, j));
            }
            Self::lemma_same_view_inner(*old(self), *self);
            if old(self).aliases_ok() {
                assert forall|s1: int, s2: int|
                    0 <= s1 < self.directory@.len() && 0 <= s2 < self.directory@.len() && self.directory@[s1]
                        < self.buckets@.len() implies ((#[trigger] self.directory@[s2] == #[trigger] self.directory@[s1])
                    <==> s2 % pow2(self.buckets@[self.directory@[s1] as int].local_depth as nat) as int == s1 % pow2(
                    self.buckets@[self.directory@[s1] as int].local_depth as nat,
                ) as int) by {
                    let t1 = s1 % n as int;
                    let t2 = s2 % n as int;
                    lemma_mod_bound(s1, n as int);
                    lemma_mod_bound(s2, n as int);
                    assert(self.directory@[s1] == d0[t1]);
                    assert(self.directory@[s2] == d0[t2]);
                    let ld = self.buckets@[d0[t1] as int].local_depth as nat;
                    assert(old(self).bucket_ok(d0[t1] as int));
                    lemma_low_of_low(s1 as nat, ld, gd);
                    lemma_low_of_low(s2 as nat, ld, gd);
                    assert(old(self).directory@[t2] == old(self).directory@[t1] <==> t2 % pow2(ld) as int == t1 % pow2(
                        ld,
                    ) as int);
                }
            }
        }
    }

    /// Splits the bucket of directory slot `dir_index`, doubling the
    /// directory first when the bucket is as deep as the directory. The bucket
    /// keeps the entries whose bit `local_depth` is 0 and a new bucket, last in
    /// the store, takes the others; so do the slots that named the bucket.
    fn split(&mut self, dir_index: usize)
        requires
            old(self).wf(),
            dir_index < old(self).directory@.len(),
            old(self).buckets@[old(self).directory@[dir_index as int] as int].local_depth < MAX_DEPTH,
        ensures
            final(self).wf(),
            final(self)@ == old(self)@,
            final(self).buckets@.len() == old(self).buckets@.len() + 1,
            forall|k: EKey|
                old(self).home(k) == old(self).directory@[dir_index as int]
                    ==> final(self).buckets@[#[trigger] final(self).home(k)].local_depth
                    == old(self).buckets@[old(self).home(k)].local_depth + 1,
            old(self).aliases_ok() ==> final(self).aliases_ok(),
            split_shape(*old(self), *final(self), old(self).directory@[dir_index as int] as int),
            forall|k: EKey|
                old(self).home(k) == old(self).directory@[dir_index as int] ==> #[trigger] final(self).home(k)
                    == old(self).directory@[dir_index as int] || final(self).home(k) == old(self).buckets@.len(),
    {
        let b = self.directory[dir_index];
        proof {
            assert(self.bucket_ok(b as int));
        }
        let ld = self.buckets[b].local_depth;
        if ld == self.global_depth {
            self.double_directory();
        }
        let ghost a = *self;
        let ghost g = a.global_depth as nat;
        assert(a.bucket_ok(b as int));
        proof {
            lemma_u32_pow2_no_overflow(ld as nat);
            lemma_u32_shl_is_mul(1u32, ld as u32);
            lemma_pow2_pos(ld as nat);
            lemma_u32_pow2_no_overflow(g);
        }
        let p: u32 = 1u32 << (ld as u32);
        let n = self.buckets[b].data.len();
        let ghost data = a.buckets@[b as int].data@;
        let mut left: Vec<Entry> = Vec::new();
        let mut right: Vec<Entry> = Vec::new();
        let ghost mut lidx: Seq<int> = Seq::empty();
        let ghost mut ridx: Seq<int> = Seq::empty();
        let mut i: usize = 0;
        while i < n
            invariant
                *self == a,
                b < self.buckets@.len(),
                data == self.buckets@[b as int].data@,
                n == data.len(),
                i <= n,
                p == pow2(ld as nat),
                p > 0,
                left@.len() == lidx.len(),
                right@.len() == ridx.len(),
                left@.len() + right@.len() == i,
                forall|q: int|
                    0 <= q < lidx.len() ==> 0 <= #[trigger] lidx[q] < i && left@[q] == data[lidx[q]]
                        && !bit_set(key_bits((left@[q]).0.1), ld as nat),
                forall|q: int|
                    0 <= q < ridx.len() ==> 0 <= #[trigger] ridx[q] < i && right@[q] == data[ridx[q]]
                        && bit_set(key_bits((right@[q]).0.1), ld as nat),
                forall|q1: int, q2: int| 0 <= q1 < q2 < lidx.len() ==> lidx[q1] < lidx[q2],
                forall|q1: int, q2: int| 0 <= q1 < q2 < ridx.len() ==> ridx[q1] < ridx[q2],
                forall|t: int|
                    0 <= t < i ==> (bit_set(key_bits((#[trigger] data[t]).0.1), ld as nat) ==> exists|q: int|
                        0 <= q < ridx.len() && ridx[q] == t) && (!bit_set(key_bits((data[t]).0.1), ld as nat)
                        ==> exists|q: int| 0 <= q < lidx.len() && lidx[q] == t),
            decreases n - i,
        {
            let r = clone_entry(&self.buckets[b].data[i]);
            let x: u32 = #[verifier::truncate] (r.0.1 as u32);
            let ghost l0 = lidx;
            let ghost r0 = ridx;
            let ghost lv = left@;
            let ghost rv = right@;
            if (x / p) % 2 == 1 {
                right.push(r);
                proof {
                    ridx = ridx.push(i as int);
                    assert forall|q: int| 0 <= q < ridx.len() implies 0 <= #[trigger] ridx[q] < i + 1
                        && right@[q] == data[ridx[q]] && bit_set(key_bits((right@[q]).0.1), ld as nat) by {
                        if q < r0.len() {
                            assert(ridx[q] == r0[q]);
                            assert(right@[q] == rv[q]);
                        }
                    }
                }
            } else {
                left.push(r);
                proof {
                    lidx = lidx.push(i as int);
                    assert forall|q: int| 0 <= q < lidx.len() implies 0 <= #[trigger] lidx[q] < i + 1
                        && left@[q] == data[lidx[q]] && !bit_set(key_bits((left@[q]).0.1), ld as nat) by {
                        if q < l0.len() {
                            assert(lidx[q] == l0[q]);
                            assert(left@[q] == lv[q]);
                        }
                    }
                }
            }
            proof {
                assert forall|t: int| 0 <= t < i + 1 implies (bit_set(key_bits((#[trigger] data[t]).0.1), ld as nat)
                    ==> exists|q: int| 0 <= q < ridx.len() && ridx[q] == t) && (!bit_set(
                    key_bits((data[t]).0.1),
                    ld as nat,
                ) ==> exists|q: int| 0 <= q < lidx.len() && lidx[q] == t) by {
                    if t < i {
                        if bit_set(key_bits((data[t]).0.1), ld as nat) {
                            let q = choose|q: int| 0 <= q < r0.len() && r0[q] == t;
                            assert(ridx[q] == t);
                        } else {
                            let q = choose|q: int| 0 <= q < l0.len() && l0[q] == t;
                            assert(lidx[q] == t);
                        }
                    } else {
                        if bit_set(key_bits((data[t]).0.1), ld as nat) {
                            assert(ridx[r0.len() as int] == t);
                        } else {
                            assert(lidx[l0.len() as int] == t);
                        }
                    }
                }
            }
            i = i + 1;
        }
        let size = self.buckets[b].size;
        let old_name = self.buckets[b].name.clone();
        let last = self.buckets.len() - 1;
        let name = next_string(&self.buckets[last].name);
        self.buckets.set(b, BucketAlt2 { name: old_name, local_depth: ld + 1, data: left, size });
        self.buckets.push(BucketAlt2 { name, local_depth: ld + 1, data: right, size });
        let nb = self.buckets.len() - 1;
        let ghost bks = self.buckets@;
        let len = self.directory.len();
        let mut s: usize = 0;
        while s < len
            invariant
                self.buckets@ == bks,
                self.global_depth == a.global_depth,
                len == a.directory@.len(),
                len == pow2(g),
                pow2(g) < u32::MAX,
                p == pow2(ld as nat),
                p > 0,
                self.directory@.len() == len,
                s <= len,
                forall|t: int|
                    0 <= t < s ==> #[trigger] self.directory@[t] == if a.directory@[t] == b && bit_set(
                        t as nat,
                        ld as nat,
                    ) {
                        nb
                    } else {
                        a.directory@[t]
                    },
                forall|t: int| s <= t < len ==> #[trigger] self.directory@[t] == a.directory@[t],
            decreases len - s,
        {
            if self.directory[s] == b && ((s as u32) / p) % 2 == 1 {
                self.directory.set(s, nb);
            }
            s = s + 1;
        }
        proof {
            self.lemma_split_done(a, b as int, ld as nat, left@, right@, lidx, ridx);
            let n0 = old(self).directory@.len() as int;
            lemma_pow2_pos(old(self).global_depth as nat);
            assert forall|t: int| 0 <= t < self.directory@.len() implies a.directory@[t] == old(
                self,
            ).directory@[t % n0] by {
                if ld != old(self).global_depth {
                    lemma_fundamental_div_mod_converse(t, n0, 0, t);
                }
            }
            assert forall|c: int| 0 <= c < old(self).buckets@.len() && c != b implies #[trigger] self.buckets@[c]
                == old(self).buckets@[c] by {
                assert(self.buckets@[c] == bks[c]);
            }
        }
    }

    /// Inserts the secondary key `key` pointing at `rid`. A text over
    /// `TEXT_LEN` bytes or a stored key is refused and nothing changes. While
    /// the bucket of the key is full it is split, and the directory doubled
    /// where needed; only a full bucket at `MAX_DEPTH` stops that.
    pub fn insert(&mut self, rid: (usize, usize), key: (String, i32)) -> (r: Result<(), IndexError>)
        requires
            old(self).wf(),
        ensures
            final(self).wf(),
            inserted(*old(self), *final(self), rid, (key.0@, key.1), r),
            old(self).aliases_ok() ==> final(self).aliases_ok(),
    {
        if bytes_of(&key.0).len() > TEXT_LEN {
            return Err(IndexError::TextTooLong);
        }
        if self.search(&key).is_some() {
            return Err(IndexError::DuplicateKey);
        }
        let ghost k = (key.0@, key.1);
        let nseq = key.1;
        let rec: Entry = (key, rid);
        proof {
            self.lemma_home_in_range(k);
            assert(self.bucket_ok(self.home(k)));
        }
        let ghost cap = self.buckets@[self.home(k)].size as nat;
        let ghost d0 = self.buckets@[self.home(k)].local_depth as nat;
        let ghost n0 = self.buckets@.len();
        let ghost og = self.global_depth as nat;
        loop
            invariant
                self.wf(),
                self@ == old(self)@,
                old(self).aliases_ok() ==> self.aliases_ok(),
                !self@.contains_key(k),
                ekey(rec) == k,
                k == (key.0@, key.1),
                rec.1 == rid,
                nseq == k.1,
                text_bytes(rec.0.0@).len() <= TEXT_LEN,
                cap == old(self).buckets@[old(self).home(k)].size,
                d0 == old(self).buckets@[old(self).home(k)].local_depth,
                n0 == old(self).buckets@.len(),
                n0 >= 1,
                og == old(self).global_depth,
                d0 <= self.buckets@[self.home(k)].local_depth,
                self.buckets@.len() == n0 + (self.buckets@[self.home(k)].local_depth - d0),
                self.global_depth == max_nat(og, self.buckets@[self.home(k)].local_depth as nat),
                self.buckets@[self.home(k)].size == cap,
                self.home(k) == old(self).home(k) || self.home(k) >= n0,
                self.buckets@.len() == n0 ==> self.directory == old(self).directory,
                forall|c: int|
                    0 <= c < n0 && c != old(self).home(k) ==> (#[trigger] self.buckets@[c]).local_depth
                        == old(self).buckets@[c].local_depth,
                forall|c: int|
                    0 <= c < n0 ==> (#[trigger] self.buckets@[c]).name == old(self).buckets@[c].name
                        && self.buckets@[c].size == old(self).buckets@[c].size,
                forall|c: int|
                    n0 <= c < self.buckets@.len() ==> (#[trigger] self.buckets@[c]).size == cap
                        && self.buckets@[c].name@ == label_after(self.buckets@[c - 1].name@),
                old(self).aliases_ok() ==> forall|d: nat|
                    d0 <= d < self.buckets@[self.home(k)].local_depth ==> #[trigger] crowded(
                        old(self)@,
                        k,
                        d,
                        cap,
                    ),
            decreases MAX_DEPTH - self.buckets@[self.home(k)].local_depth,
        {
            let h = self.hash_fun(nseq);
            let b = self.directory[h];
            proof {
                self.lemma_home_in_range(k);
                assert(self.bucket_ok(b as int));
            }
            if self.buckets[b].data.len() < self.buckets[b].size as usize {
                let ghost a = *self;
                proof {
                    if old(self).aliases_ok() {
                        a.lemma_room_not_crowded(k);
                    }
                }
                self.buckets[b].insert(rec);
                proof {
                    self.lemma_push_done(a, k, b as int, rec);
                    assert(self.home(k) == a.home(k));
                    assert forall|c: int| 0 <= c < self.buckets@.len() implies (#[trigger] self.buckets@[c]).name
                        == a.buckets@[c].name && self.buckets@[c].size == a.buckets@[c].size
                        && self.buckets@[c].local_depth == a.buckets@[c].local_depth by {}
                    let d1 = self.buckets@[self.home(k)].local_depth as nat;
                    assert(d0 <= d1);
                    assert(self.buckets@.len() == n0 + (d1 - d0));
                    assert(self.global_depth == max_nat(og, d1));
                    assert(self.buckets@[self.home(k)].size == cap);
                    assert(forall|c: int|
                        0 <= c < n0 && c != old(self).home(k) ==> (#[trigger] self.buckets@[c]).local_depth
                            == old(self).buckets@[c].local_depth);
                    assert(forall|c: int|
                        0 <= c < n0 ==> (#[trigger] self.buckets@[c]).name == old(self).buckets@[c].name
                            && self.buckets@[c].size == old(self).buckets@[c].size);
                    assert(forall|c: int|
                        n0 <= c < self.buckets@.len() ==> (#[trigger] self.buckets@[c]).size == cap
                            && self.buckets@[c].name@ == label_after(self.buckets@[c - 1].name@));
                    if old(self).aliases_ok() {
                        assert(forall|d: nat| d0 <= d < d1 ==> #[trigger] crowded(old(self)@, k, d, cap));
                        assert(!crowded(old(self)@, k, d1, cap));
                    }
                    assert(reshaped(*old(self), *self, k, true));
                }
                return Ok(());
            }
            if self.buckets[b].local_depth >= MAX_DEPTH {
                proof {
                    if old(self).aliases_ok() {
                        self.lemma_full_crowded(k);
                    }
                    assert(reshaped(*old(self), *self, k, false));
                }
                return Err(IndexError::OverflowDepth);
            }
            let ghost a = *self;
            proof {
                if old(self).aliases_ok() {
                    a.lemma_full_crowded(k);
                }
            }
            self.split(h);
            proof {
                let ld = a.buckets@[b as int].local_depth as nat;
                assert(self.home(k) == b || self.home(k) == a.buckets@.len());
                assert(self.buckets@[self.home(k)].local_depth == ld + 1);
                assert forall|c: int|
                    0 <= c < n0 && c != old(self).home(k) implies (#[trigger] self.buckets@[c]).local_depth
                    == old(self).buckets@[c].local_depth by {
                    if c != b {
                        assert(self.buckets@[c] == a.buckets@[c]);
                    }
                }
                assert forall|c: int| 0 <= c < n0 implies (#[trigger] self.buckets@[c]).name == old(
                    self,
                ).buckets@[c].name && self.buckets@[c].size == old(self).buckets@[c].size by {
                    if c != b {
                        assert(self.buckets@[c] == a.buckets@[c]);
                    }
                }
                assert forall|c: int| n0 <= c < self.buckets@.len() implies (#[trigger] self.buckets@[c]).size
                    == cap && self.buckets@[c].name@ == label_after(self.buckets@[c - 1].name@) by {
                    if c < a.buckets@.len() {
                        if c != b {
                            assert(self.buckets@[c] == a.buckets@[c]);
                        }
                        if c - 1 != b {
                            assert(self.buckets@[c - 1] == a.buckets@[c - 1]);
                        }
                    } else {
                        if c - 1 != b {
                            assert(self.buckets@[c - 1] == a.buckets@[c - 1]);
                        }
                    }
                }
                if old(self).aliases_ok() {
                    assert forall|d: nat|
                        d0 <= d < self.buckets@[self.home(k)].local_depth implies #[trigger] crowded(
                        old(self)@,
                        k,
                        d,
                        cap,
                    ) by {
                        if d < ld {
                            assert(crowded(old(self)@, k, d, cap));
                        }
                    }
                }
            }
        }
    }

    /// Removes the secondary key `key`; says whether it was stored. Buckets
    /// and the directory never shrink.
    pub fn remove(&mut self, key: (String, i32)) -> (r: bool)
        requires
            old(self).wf(),
        ensures
            final(self).wf(),
            final(self)@ == old(self)@.remove((key.0@, key.1)),
            r == old(self)@.contains_key((key.0@, key.1)),
            old(self).aliases_ok() ==> final(self).aliases_ok(),
            final(self).global_depth == old(self).global_depth,
            final(self).directory == old(self).directory,
            final(self).buckets@.len() == old(self).buckets@.len(),
            forall|c: int|
                0 <= c < final(self).buckets@.len() ==> (#[trigger] final(self).buckets@[c]).name == old(
                    self,
                ).buckets@[c].name && final(self).buckets@[c].local_depth == old(self).buckets@[c].local_depth
                    && final(self).buckets@[c].size == old(self).buckets@[c].size,
            !r ==> forall|c: int|
                0 <= c < final(self).buckets@.len() ==> (#[trigger] final(self).buckets@[c]).data@ == old(
                    self,
                ).buckets@[c].data@,
    {
        let ghost k = (key.0@, key.1);
        let h = self.hash_fun(key.1);
        let b = self.directory[h];
        proof {
            self.lemma_home_in_range(k);
        }
        let ghost a = *self;
        let r = self.buckets[b].remove(key);
        proof {
            self.lemma_remove_done(a, k, b as int, r);
        }
        r
    }

    /// Whether bucket `c` keeps the invariant, given a sound directory.
    fn check_bucket(&self, c: usize) -> (r: bool)
        requires
            self.global_depth <= MAX_DEPTH,
            self.directory@.len() == pow2(self.global_depth as nat),
            forall|s: int|
                0 <= s < self.directory@.len() ==> (#[trigger] self.directory@[s]) < self.buckets@.len(),
            c < self.buckets@.len(),
        ensures
            r == self.bucket_ok(c as int),
    {
        let bk = &self.buckets[c];
        if bk.data.len() > bk.size as usize || bk.local_depth > self.global_depth {
            return false;
        }
        let mut j: usize = 0;
        while j < bk.data.len()
            invariant
                bk == self.buckets@[c as int],
                self.global_depth <= MAX_DEPTH,
                self.directory@.len() == pow2(self.global_depth as nat),
                j <= bk.data@.len(),
                forall|t: int| 0 <= t < j ==> self.home(ekey(#[trigger] bk.data@[t])) == c,
                forall|t: int| 0 <= t < j ==> text_bytes((#[trigger] bk.data@[t]).0.0@).len() <= TEXT_LEN,
                forall|t1: int, t2: int|
                    0 <= t1 < j && 0 <= t2 < j && t1 != t2 ==> ekey(#[trigger] bk.data@[t1])
                        != ekey(#[trigger] bk.data@[t2]),
            decreases bk.data@.len() - j,
        {
            let key = bk.data[j].0.1;
            let h = slot_in(key, self.global_depth);
            proof {
                lemma_pow2_pos(self.global_depth as nat);
            }
            if self.directory[h] != c {
                return false;
            }
            let tl = bytes_of(&bk.data[j].0.0).len();
            if tl > TEXT_LEN {
                return false;
            }
            assert(text_bytes(bk.data@[j as int].0.0@).len() == tl);
            let mut i: usize = 0;
            while i < j
                invariant
                    bk == self.buckets@[c as int],
                    j < bk.data@.len(),
                    key == bk.data@[j as int].0.1,
                    text_bytes(bk.data@[j as int].0.0@).len() <= TEXT_LEN,
                    i <= j,
                    forall|t: int| 0 <= t < i ==> ekey(#[trigger] bk.data@[t]) != ekey(bk.data@[j as int]),
                decreases j - i,
            {
                if bk.data[i].0.1 == key && bk.data[i].0.0 == bk.data[j].0.0 {
                    assert(!entries_distinct(bk.data@));
                    return false;
                }
                i = i + 1;
            }
            j = j + 1;
        }
        true
    }

    /// Whether the index keeps its invariant.
    pub fn check_wf(&self) -> (r: bool)
        ensures
            r == self.wf(),
    {
        if self.global_depth > MAX_DEPTH {
            return false;
        }
        let d: u32 = self.global_depth as u32;
        proof {
            lemma_u32_pow2_no_overflow(d as nat);
            lemma_u32_shl_is_mul(1u32, d);
        }
        let n: u32 = 1u32 << d;
        if self.directory.len() != n as usize || self.buckets.len() == 0 {
            return false;
        }
        let mut s: usize = 0;
        while s < self.directory.len()
            invariant
                s <= self.directory@.len(),
                forall|t: int| 0 <= t < s ==> (#[trigger] self.directory@[t]) < self.buckets@.len(),
            decreases self.directory@.len() - s,
        {
            if self.directory[s] >= self.buckets.len() {
                return false;
            }
            s = s + 1;
        }
        let mut c: usize = 0;
        while c < self.buckets.len()
            invariant
                self.global_depth <= MAX_DEPTH,
                self.directory@.len() == pow2(self.global_depth as nat),
                forall|t: int| 0 <= t < self.directory@.len() ==> (#[trigger] self.directory@[t]) < self.buckets@.len(),
                c <= self.buckets@.len(),
                forall|b: int| 0 <= b < c ==> #[trigger] self.bucket_ok(b),
            decreases self.buckets@.len() - c,
        {
            if !self.check_bucket(c) {
                return false;
            }
            c = c + 1;
        }
        true
    }

    /// Indexes with the same image are both well-formed or both not.
    /// An index is well-formed exactly when its image is.
    proof fn lemma_wf_image(h: HashAlt2)
        ensures
            h.wf() == image_wf(index_image(h)),
    {
        let img = index_image(h);
        let bi = h.buckets@.map_values(|bk: BucketAlt2| bucket_image(bk));
        assert(img.1 == bi);
        assert(bi.len() == h.buckets@.len());
        assert forall|k: EKey| image_home(img, k) == h.home(k) by {}
        assert forall|c: int| 0 <= c < h.buckets@.len() implies #[trigger] h.bucket_ok(c) == image_bucket_ok(img, c) by {
            assert(bi[c] == bucket_image(h.buckets@[c]));
            let d = h.buckets@[c].data@;
            let m = d.map_values(|x: Entry| entry_image(x));
            assert(img.1[c].3 == m);
            assert(m.len() == d.len());
            assert forall|j: int| 0 <= j < d.len() implies ((#[trigger] m[j]).0, m[j].1) == ekey(d[j]) by {
                assert(m[j] == entry_image(d[j]));
            }
            if h.bucket_ok(c) {
                assert forall|i: int, j: int|
                    0 <= i < m.len() && 0 <= j < m.len() && i != j implies ((#[trigger] m[i]).0, m[i].1) != (
                    (#[trigger] m[j]).0,
                    m[j].1,
                ) by {
                    assert(ekey(d[i]) != ekey(d[j]));
                }
                assert forall|j: int| 0 <= j < m.len() implies image_home(img, ((#[trigger] m[j]).0, m[j].1)) == c by {
                    assert(h.home(ekey(d[j])) == c);
                }
                assert forall|j: int| 0 <= j < m.len() implies text_bytes((#[trigger] m[j]).0).len() <= TEXT_LEN by {
                    assert(text_bytes(d[j].0.0@).len() <= TEXT_LEN);
                }
            }
            if image_bucket_ok(img, c) {
                assert forall|i: int, j: int|
                    0 <= i < d.len() && 0 <= j < d.len() && i != j implies ekey(#[trigger] d[i]) != ekey(#[trigger] d[j]) by {
                    assert((m[i].0, m[i].1) != (m[j].0, m[j].1));
                }
                assert forall|j: int| 0 <= j < d.len() implies h.home(ekey(#[trigger] d[j])) == c by {
                    assert(image_home(img, (m[j].0, m[j].1)) == c);
                }
                assert forall|j: int| 0 <= j < d.len() implies text_bytes((#[trigger] d[j]).0.0@).len() <= TEXT_LEN by {
                    assert(text_bytes(m[j].0).len() <= TEXT_LEN);
                }
            }
        }
        if image_wf(img) {
            assert forall|c: int| 0 <= c < h.buckets@.len() implies #[trigger] h.bucket_ok(c) by {
                assert(image_bucket_ok(img, c));
            }
        }
        if h.wf() {
            assert forall|c: int| 0 <= c < img.1.len() implies #[trigger] image_bucket_ok(img, c) by {
                assert(h.bucket_ok(c));
            }
        }
    }

    /// The fixed-width encoding of the index.
    pub fn serialize(&self) -> (r: Vec<u8>)
        ensures
            r@ == index_bytes(*self),
    {
        let mut encoded: Vec<u8> = Vec::new();
        encoded.push(self.global_depth);
        push_u16_be(&mut encoded, #[verifier::truncate] (self.buckets.len() as u16));
        let ghost head = encoded@;
        let mut i: usize = 0;
        while i < self.buckets.len()
            invariant
                i <= self.buckets@.len(),
                encoded@ == head + buckets_bytes(self.buckets@, i as nat),
            decreases self.buckets@.len() - i,
        {
            let mut e = self.buckets[i].serialize();
            encoded.append(&mut e);
            i = i + 1;
            assert(encoded@ =~= head + buckets_bytes(self.buckets@, i as nat));
        }
        push_u16_be(&mut encoded, #[verifier::truncate] (self.directory.len() as u16));
        let ghost mid = encoded@;
        let mut j: usize = 0;
        while j < self.directory.len()
            invariant
                j <= self.directory@.len(),
                encoded@ == mid + dir_bytes(self.directory@, j as nat),
            decreases self.directory@.len() - j,
        {
            push_u16_be(&mut encoded, #[verifier::truncate] (self.directory[j] as u16));
            j = j + 1;
            assert(encoded@ =~= mid + dir_bytes(self.directory@, j as nat));
        }
        assert(encoded@ =~= index_bytes(*self));
        encoded
    }

    /// Reads an index back from its encoding. It fails when the bytes end
    /// before the headers say, when a text is not UTF-8, or when what they
    /// describe is not a well-formed index.
    pub fn deserialize(bytes: &Vec<u8>) -> (r: Result<HashAlt2, DecodeError>)
        ensures
            match r {
                Ok(h) => h.wf() && parse_index(bytes@) == Some(index_image(h)),
                Err(_) => match parse_index(bytes@) {
                    None => true,
                    Some(img) => !image_wf(img),
                },
            },
    {
        let len = bytes.len();
        if len < 3 {
            return Err(DecodeError::MalformedPersistedState);
        }
        let gd = bytes[0];
        let m = read_u16_be(bytes, 1);
        let mut buckets: Vec<BucketAlt2> = Vec::new();
        let mut p: usize = 3;
        let mut i: usize = 0;
        while i < m as usize
            invariant
                len == bytes@.len(),
                len >= 3,
                m == u16_at(bytes@, 1),
                i <= m,
                buckets@.len() == i,
                p <= len,
                parse_buckets(bytes@, 3, i as nat) == Some(
                    (buckets@.map_values(|bk: BucketAlt2| bucket_image(bk)), p as int),
                ),
            decreases m - i,
        {
            let ghost prev = buckets@.map_values(|bk: BucketAlt2| bucket_image(bk));
            match BucketAlt2::deserialize(bytes, p) {
                Ok((bk, e)) => {
                    buckets.push(bk);
                    p = e;
                    assert(buckets@.map_values(|bk: BucketAlt2| bucket_image(bk)) =~= prev.push(
                        bucket_image(buckets@[i as int]),
                    ));
                },
                Err(_) => {
                    proof {
                        lemma_parse_buckets_none(bytes@, 3, (i + 1) as nat, m as nat);
                    }
                    return Err(DecodeError::MalformedPersistedState);
                },
            }
            i = i + 1;
        }
        if len - p < 2 {
            return Err(DecodeError::MalformedPersistedState);
        }
        let n = read_u16_be(bytes, p);
        if (len - p - 2) < 2 * (n as usize) {
            return Err(DecodeError::MalformedPersistedState);
        }
        let mut directory: Vec<usize> = Vec::new();
        let mut q: usize = p + 2;
        let mut j: usize = 0;
        while j < n as usize
            invariant
                len == bytes@.len(),
                p + 2 + 2 * n <= len,
                j <= n,
                q == p + 2 + 2 * j,
                directory@ == Seq::new(j as nat, |t: int| u16_at(bytes@, p + 2 + 2 * t) as usize),
            decreases n - j,
        {
            let v = read_u16_be(bytes, q);
            directory.push(v as usize);
            q = q + 2;
            j = j + 1;
            assert(directory@ =~= Seq::new(j as nat, |t: int| u16_at(bytes@, p + 2 + 2 * t) as usize));
        }
        let h = HashAlt2 { global_depth: gd, directory, buckets };
        assert(parse_index(bytes@) == Some(index_image(h)));
        if !h.check_wf() {
            proof {
                Self::lemma_wf_image(h);
            }
            return Err(DecodeError::MalformedPersistedState);
        }
        Ok(h)
    }

    /// The global depth.
    pub fn global_depth(&self) -> (r: u8)
        ensures
            r == self.global_depth as nat,
    {
        self.global_depth
    }

    /// The number of directory slots.
    pub fn directory_len(&self) -> (r: usize)
        ensures
            r == self.directory@.len(),
    {
        self.directory.len()
    }

    /// The record location stored under the secondary key `key`.
    pub fn search(&self, key: &(String, i32)) -> (r: Option<(usize, usize)>)
        requires
            self.wf(),
        ensures
            r is None <==> !self@.contains_key((key.0@, key.1)),
            r matches Some(rid) ==> rid == self@[(key.0@, key.1)],
    {
        let ghost k = (key.0@, key.1);
        let h = self.hash_fun(key.1);
        let b = self.directory[h];
        proof {
            self.lemma_home_in_range(k);
        }
        match self.buckets[b].position(key) {
            Some(s) => {
                proof {
                    self.lemma_view_at(k, s as int);
                }
                Some(self.buckets[b].data[s].1)
            },
            None => {
                proof {
                    assert forall|j: int| !self.holds_at(k, j) by {
                        if self.holds_at(k, j) {
                            assert(has_entry(self.buckets@[b as int].data@, k));
                        }
                    }
                    self.lemma_view_absent(k);
                }
                None
            },
        }
    }
}

} // verus!
