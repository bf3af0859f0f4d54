//! The primary index: a directory of `2^global_depth` slots over an
//! append-only store of buckets, grown by splitting one bucket at a time.

use vstd::arithmetic::div_mod::*;
use vstd::arithmetic::mul::*;
use vstd::arithmetic::power2::*;
use vstd::bits::*;
use vstd::prelude::*;

use crate::bucket_alt1::{
    bucket_bytes, label_fits, lemma_bucket_round_trip, parse_bucket, record_image, stored_image, BucketAlt1,
};
use crate::codec::{lemma_u16_round_trip, push_u16_be, read_u16_be, u16_at, u16_be, DecodeError};
use crate::naming::{label_after, next_string};
use crate::record::{has_key, is_first_key, keys_distinct, Record};
use crate::text::{ascii_string, bytes_of, pad_text, padded, text_bytes, trim_nulls, TEXT_LEN};

verus! {

/// The largest global depth: the persisted directory length is a 16-bit
/// number, so the directory stays at or below `2^15` slots.
pub const MAX_DEPTH: u8 = 15;

/// The two's-complement bit pattern of a key, as a number.
pub open spec fn key_bits(key: i32) -> nat {
    (key as u32) as nat
}

/// The directory slot of `key` under `depth` bits: its lowest `depth` bits.
pub open spec fn slot_of(key: i32, depth: nat) -> nat {
    key_bits(key) % pow2(depth)
}

/// Bit number `i` of `x`, counting from 0.
pub open spec fn bit_set(x: nat, i: nat) -> bool {
    (x / pow2(i)) % 2 == 1
}

/// For `i < g`, bit `i` of the lowest `g` bits of `x` is bit `i` of `x`.
pub proof fn lemma_bit_of_low_bits(x: nat, i: nat, g: nat)
    requires
        i < g,
    ensures
        bit_set(x % pow2(g), i) == bit_set(x, i),
{
    let a = pow2(i) as int;
    let c = pow2((g - i) as nat) as int;
    lemma_pow2_pos(i);
    lemma_pow2_pos((g - i) as nat);
    lemma_pow2_adds(i, (g - i) as nat);
    assert(pow2(g) as int == a * c);
    lemma_mod_breakdown(x as int, a, c);
    let q = (x as int / a) % c;
    let r = x as int % a;
    assert(x as int % (a * c) == a * q + r);
    lemma_mul_is_commutative(a, q);
    lemma_fundamental_div_mod_converse(x as int % (a * c), a, q, r);
    lemma_pow2_unfold((g - i) as nat);
    lemma_pow2_pos((g - i - 1) as nat);
    lemma_mod_mod(x as int / a, 2, pow2((g - i - 1) as nat) as int);
}

/// Why an insertion did not take place.
#[derive(Debug, PartialEq, Eq, Clone, Copy, Structural)]
pub enum IndexError {
    /// A record with the same key is already stored.
    DuplicateKey,
    /// Splitting would need more than `MAX_DEPTH` bits of the key.
    OverflowDepth,
    /// The text takes more than `TEXT_LEN` bytes.
    TextTooLong,
}

/// The lowest `depth` bits of the bit pattern of `key`.
pub fn slot_in(key: i32, depth: u8) -> (r: usize)
    requires
        depth <= MAX_DEPTH,
    ensures
        r == slot_of(key, depth as nat),
{
    let d: u32 = depth as u32;
    proof {
        lemma_u32_pow2_no_overflow(d as nat);
        lemma_u32_shl_is_mul(1u32, d);
        lemma_pow2_pos(d as nat);
    }
    let mask: u32 = (1u32 << d) - 1;
    let x: u32 = #[verifier::truncate] (key as u32);
    proof {
        lemma_u32_low_bits_mask_is_mod(x, d as nat);
    }
    (x & mask) as usize
}

/// Two numbers agree on their lowest `ld + 1` bits exactly when they agree
/// on the lowest `ld` bits and on bit `ld`.
pub proof fn lemma_low_bits_split(x: nat, y: nat, ld: nat)
    ensures
        (x % pow2(ld + 1) == y % pow2(ld + 1)) <==> (x % pow2(ld) == y % pow2(ld) && bit_set(x, ld) == bit_set(
            y,
            ld,
        )),
{
    let p = pow2(ld) as int;
    lemma_pow2_pos(ld);
    lemma_pow2_unfold(ld + 1);
    assert(pow2(ld + 1) as int == p * 2);
    lemma_mod_breakdown(x as int, p, 2);
    lemma_mod_breakdown(y as int, p, 2);
    let a = (x as int / p) % 2;
    let c = (y as int / p) % 2;
    lemma_mod_bound(x as int, p);
    lemma_mod_bound(y as int, p);
    if a == 0 {
        assert(p * a == 0);
    } else {
        assert(p * a == p);
    }
    if c == 0 {
        assert(p * c == 0);
    } else {
        assert(p * c == p);
    }
}

/// Bounds of a remainder, and of the parity of a quotient.
pub proof fn lemma_mod_bound(x: int, p: int)
    requires
        0 <= x,
        0 < p,
    ensures
        0 <= x % p < p,
        0 <= (x / p) % 2 < 2,
{
    lemma_mod_pos_bound(x, p);
    lemma_div_pos_is_pos(x, p);
    lemma_mod_pos_bound(x / p, 2);
}

/// The lowest `ld` bits of the lowest `g >= ld` bits are the lowest `ld` bits.
pub proof fn lemma_low_of_low(x: nat, ld: nat, g: nat)
    requires
        ld <= g,
    ensures
        (x % pow2(g)) % pow2(ld) == x % pow2(ld),
{
    lemma_pow2_pos(ld);
    lemma_pow2_pos((g - ld) as nat);
    lemma_pow2_adds(ld, (g - ld) as nat);
    lemma_mod_mod(x as int, pow2(ld) as int, pow2((g - ld) as nat) as int);
}

/// What splitting bucket `b` of `before` leaves: the bucket keeps its label
/// and capacity one level deeper; a new bucket, last in the store, takes the
/// next label, the same capacity and depth; no other bucket changes; the
/// directory is doubled exactly when the bucket was as deep as it, and the
/// slots that named the bucket and have bit `local_depth` set now name the
/// new bucket.
pub open spec fn split_shape(before: HashAlt1, after: HashAlt1, b: int) -> bool {
    let n = before.buckets@.len() as int;
    let ld = before.buckets@[b].local_depth;
    let m = before.directory@.len() as int;
    &&& after.buckets@.len() == n + 1
    &&& forall|c: int| 0 <= c < n && c != b ==> #[trigger] after.buckets@[c] == before.buckets@[c]
    &&& after.buckets@[b].name == before.buckets@[b].name
    &&& after.buckets@[b].size == before.buckets@[b].size
    &&& after.buckets@[b].local_depth == ld + 1
    &&& after.buckets@[n].name@ == label_after(before.buckets@[n - 1].name@)
    &&& after.buckets@[n].size == before.buckets@[b].size
    &&& after.buckets@[n].local_depth == ld + 1
    &&& after.global_depth == if ld == before.global_depth {
        before.global_depth + 1
    } else {
        before.global_depth as int
    }
    &&& after.directory@.len() == if ld == before.global_depth {
        2 * m
    } else {
        m
    }
    &&& forall|s: int|
        0 <= s < after.directory@.len() ==> #[trigger] after.directory@[s] as int == if before.directory@[s % m]
            == b && bit_set(s as nat, ld as nat) {
            n
        } else {
            before.directory@[s % m] as int
        }
}

/// `ks` lists distinct keys of `m`, each sharing the lowest `d` bits of `key`.
pub open spec fn crowd(m: Map<i32, Seq<char>>, key: i32, d: nat, ks: Seq<i32>) -> bool {
    &&& ks.no_duplicates()
    &&& forall|i: int|
        0 <= i < ks.len() ==> m.contains_key(#[trigger] ks[i]) && slot_of(ks[i], d) == slot_of(key, d)
}

/// At least `cap` keys of `m` share the lowest `d` bits of `key`: a bucket of
/// capacity `cap` at local depth `d` cannot take `key` as well.
pub open spec fn crowded(m: Map<i32, Seq<char>>, key: i32, d: nat, cap: nat) -> bool {
    exists|ks: Seq<i32>| ks.len() >= cap && #[trigger] crowd(m, key, d, ks)
}

/// The `i`-th label handed to a fresh index: `A`, `B`, ..., `Z`, `AA`, ...
pub open spec fn nth_label(i: nat) -> Seq<char>
    decreases i,
{
    if i == 0 {
        label_after(seq!['Z', 'Z'])
    } else {
        label_after(nth_label((i - 1) as nat))
    }
}

pub open spec fn max_nat(a: nat, b: nat) -> nat {
    if a >= b {
        a
    } else {
        b
    }
}

/// How inserting a new key reshapes the index. The bucket of `key` was split
/// from local depth `d0` to `d1`: one new bucket per split, appended with the
/// next label and the capacity `cap` of the split bucket; the directory grew
/// to cover `d1`, and is unchanged when nothing was split; the older buckets
/// kept their labels and capacities, and all but the key's bucket their local
/// depths. Each
/// split was forced: at every depth from `d0` below `d1` at least `cap` stored
/// keys share the key's low bits; at `d1` fewer do unless the insertion failed,
/// which happens only at `MAX_DEPTH`.
pub open spec fn reshaped(before: HashAlt1, after: HashAlt1, key: i32, ok: bool) -> bool {
    let cap = before.buckets@[before.home(key)].size as nat;
    let d0 = before.buckets@[before.home(key)].local_depth as nat;
    let d1 = after.buckets@[after.home(key)].local_depth as nat;
    &&& d0 <= d1
    &&& after.buckets@.len() == before.buckets@.len() + (d1 - d0)
    &&& after.global_depth == max_nat(before.global_depth as nat, d1)
    &&& after.buckets@[after.home(key)].size == cap
    &&& after.buckets@.len() == before.buckets@.len() ==> after.directory == before.directory
    &&& forall|c: int|
        0 <= c < before.buckets@.len() && c != before.home(key) ==> (#[trigger] after.buckets@[c]).local_depth
            == before.buckets@[c].local_depth
    &&& forall|c: int|
        0 <= c < before.buckets@.len() ==> (#[trigger] after.buckets@[c]).name == before.buckets@[c].name
            && after.buckets@[c].size == before.buckets@[c].size
    &&& forall|c: int|
        before.buckets@.len() <= c < after.buckets@.len() ==> (#[trigger] after.buckets@[c]).size == cap
            && after.buckets@[c].name@ == label_after(after.buckets@[c - 1].name@)
    &&& !ok ==> d1 == MAX_DEPTH
    &&& before.aliases_ok() ==> {
        &&& forall|d: nat| d0 <= d < d1 ==> #[trigger] crowded(before@, key, d, cap)
        &&& ok ==> !crowded(before@, key, d1, cap)
        &&& !ok ==> crowded(before@, key, MAX_DEPTH as nat, cap)
    }
}

/// What `insert` of `record` into `before` leaves: a text over `TEXT_LEN`
/// bytes or a stored key is refused with nothing changed; otherwise the
/// padded text is stored under the key, unless its bucket is still full at
/// `MAX_DEPTH`, which changes no content. See `reshaped` for the buckets.
pub open spec fn inserted(before: HashAlt1, after: HashAlt1, record: Record, r: Result<(), IndexError>) -> bool {
    if text_bytes(record.text@).len() > TEXT_LEN {
        r == Err::<(), IndexError>(IndexError::TextTooLong) && after == before
    } else if before@.contains_key(record.nseq) {
        r == Err::<(), IndexError>(IndexError::DuplicateKey) && after == before
    } else {
        &&& reshaped(before, after, record.nseq, r is Ok)
        &&& match r {
            Ok(()) => after@ == before@.insert(record.nseq, padded(record.text@)),
            Err(e) => e == IndexError::OverflowDepth && after@ == before@,
        }
    }
}

/// The encodings of the first `n` buckets, back to back.
pub open spec fn buckets_bytes(bs: Seq<BucketAlt1>, n: nat) -> Seq<u8>
    decreases n,
{
    if n == 0 {
        Seq::empty()
    } else {
        buckets_bytes(bs, (n - 1) as nat) + bucket_bytes(bs[n - 1])
    }
}

/// The first `n` directory entries, two bytes each.
pub open spec fn dir_bytes(d: Seq<usize>, n: nat) -> Seq<u8>
    decreases n,
{
    if n == 0 {
        Seq::empty()
    } else {
        dir_bytes(d, (n - 1) as nat) + u16_be(d[n - 1] as u16)
    }
}

/// The encoding of an index: global depth, bucket count, the buckets,
/// directory length, the directory.
pub open spec fn index_bytes(h: HashAlt1) -> Seq<u8> {
    seq![h.global_depth] + u16_be(h.buckets@.len() as u16) + buckets_bytes(h.buckets@, h.buckets@.len())
        + u16_be(h.directory@.len() as u16) + dir_bytes(h.directory@, h.directory@.len())
}

/// Label, local depth, capacity and records of a bucket.
pub type BucketImage = (Seq<char>, u8, u8, Seq<(i32, Seq<char>)>);

pub open spec fn bucket_image(bk: BucketAlt1) -> BucketImage {
    (bk.name@, bk.local_depth, bk.size, bk.data@.map_values(|x: Record| record_image(x)))
}

/// Global depth, buckets and directory of an index.
pub open spec fn index_image(h: HashAlt1) -> (u8, Seq<BucketImage>, Seq<usize>) {
    (h.global_depth, h.buckets@.map_values(|bk: BucketAlt1| bucket_image(bk)), h.directory@)
}

/// `m` buckets read back to back from `p`, and where they end.
pub open spec fn parse_buckets(b: Seq<u8>, p: int, m: nat) -> Option<(Seq<BucketImage>, int)>
    decreases m,
{
    if m == 0 {
        Some((Seq::empty(), p))
    } else {
        match parse_buckets(b, p, (m - 1) as nat) {
            None => None,
            Some((bs, q)) => match parse_bucket(b, q) {
                None => None,
                Some((nm, ld, sz, d, e)) => Some((bs.push((nm, ld, sz, d)), e)),
            },
        }
    }
}

/// The index encoded in `b`, read field by field; bytes after the directory
/// are not looked at.
pub open spec fn parse_index(b: Seq<u8>) -> Option<(u8, Seq<BucketImage>, Seq<usize>)> {
    if b.len() < 3 {
        None
    } else {
        match parse_buckets(b, 3, u16_at(b, 1) as nat) {
            None => None,
            Some((bs, q)) => if q + 2 > b.len() || q + 2 + 2 * u16_at(b, q) > b.len() {
                None
            } else {
                Some((b[0], bs, Seq::new(u16_at(b, q) as nat, |i: int| u16_at(b, q + 2 + 2 * i) as usize)))
            },
        }
    }
}

/// The bucket that an image directs `k` to.
pub open spec fn image_home(img: (u8, Seq<BucketImage>, Seq<usize>), k: i32) -> int {
    img.2[slot_of(k, img.0 as nat) as int] as int
}

/// Bucket `c` of an image keeps the invariant of `HashAlt1::bucket_ok`.
pub open spec fn image_bucket_ok(img: (u8, Seq<BucketImage>, Seq<usize>), c: int) -> bool {
    &&& img.1[c].3.len() <= img.1[c].2
    &&& img.1[c].1 <= img.0
    &&& forall|i: int, j: int|
        0 <= i < img.1[c].3.len() && 0 <= j < img.1[c].3.len() && i != j ==> (#[trigger] img.1[c].3[i]).0
            != (#[trigger] img.1[c].3[j]).0
    &&& forall|j: int| 0 <= j < img.1[c].3.len() ==> image_home(img, (#[trigger] img.1[c].3[j]).0) == c
    &&& forall|j: int| 0 <= j < img.1[c].3.len() ==> text_bytes((#[trigger] img.1[c].3[j]).1).len() <= TEXT_LEN
}

/// An image of a well-formed index: `HashAlt1::wf` read on images.
pub open spec fn image_wf(img: (u8, Seq<BucketImage>, Seq<usize>)) -> bool {
    &&& img.0 <= MAX_DEPTH
    &&& img.2.len() == pow2(img.0 as nat)
    &&& img.1.len() >= 1
    &&& forall|s: int| 0 <= s < img.2.len() ==> (#[trigger] img.2[s]) < img.1.len()
    &&& forall|c: int| 0 <= c < img.1.len() ==> #[trigger] image_bucket_ok(img, c)
}

proof fn lemma_parse_buckets_none(b: Seq<u8>, p: int, j: nat, m: nat)
    requires
        j <= m,
        parse_buckets(b, p, j) is None,
    ensures
        parse_buckets(b, p, m) is None,
    decreases m - j,
{
    if j < m {
        lemma_parse_buckets_none(b, p, j + 1, m);
    }
}

/// Extendible hashing index keyed by `Record::nseq`.
pub struct HashAlt1 {
    pub global_depth: u8,
    pub directory: Vec<usize>,
    pub buckets: Vec<BucketAlt1>,
}

impl View for HashAlt1 {
    type V = Map<i32, Seq<char>>;

    /// The stored texts by key.
    open spec fn view(&self) -> Map<i32, Seq<char>> {
        Map::new(
            |k: i32| exists|j: int| self.holds_at(k, j),
            |k: i32| self.buckets@[self.home(k)].data@[choose|j: int| self.holds_at(k, j)].text@,
        )
    }
}

impl HashAlt1 {
    /// The bucket that the directory assigns to `k`.
    pub open spec fn home(&self, k: i32) -> int {
        self.directory@[slot_of(k, self.global_depth as nat) as int] as int
    }

    /// Position `j` of the bucket of `k` holds a record with key `k`.
    pub open spec fn holds_at(&self, k: i32, j: int) -> bool {
        &&& 0 <= j < self.buckets@[self.home(k)].data@.len()
        &&& self.buckets@[self.home(k)].data@[j].nseq == k
    }

    pub open spec fn bucket_ok(&self, b: int) -> bool {
        &&& self.buckets@[b].data@.len() <= self.buckets@[b].size
        &&& self.buckets@[b].local_depth <= self.global_depth
        &&& keys_distinct(self.buckets@[b].data@)
        &&& forall|j: int|
            0 <= j < self.buckets@[b].data@.len() ==> self.home(
                (#[trigger] self.buckets@[b].data@[j]).nseq,
            ) == b
        &&& forall|j: int|
            0 <= j < self.buckets@[b].data@.len() ==> text_bytes(
                (#[trigger] self.buckets@[b].data@[j]).text@,
            ).len() <= TEXT_LEN
    }

    /// The directory has `2^global_depth` slots, each naming a bucket of the
    /// store; every record sits in the bucket its key is directed to, keys are
    /// distinct, and no bucket is over capacity or deeper than the directory.
    pub open spec fn wf(&self) -> bool {
        &&& self.global_depth <= MAX_DEPTH
        &&& self.directory@.len() == pow2(self.global_depth as nat)
        &&& self.buckets@.len() >= 1
        &&& forall|s: int|
            0 <= s < self.directory@.len() ==> (#[trigger] self.directory@[s]) < self.buckets@.len()
        &&& forall|b: int| 0 <= b < self.buckets@.len() ==> #[trigger] self.bucket_ok(b)
    }

    /// The slots that name a bucket are exactly those that agree with any one
    /// of them on the bucket's lowest `local_depth` bits; so a bucket of local
    /// depth `ld` is named by `2^(global_depth - ld)` slots.
    pub open spec fn aliases_ok(&self) -> bool {
        forall|s1: int, s2: int|
            0 <= s1 < self.directory@.len() && 0 <= s2 < self.directory@.len() && self.directory@[s1]
                < self.buckets@.len() ==> ((#[trigger] self.directory@[s2] == #[trigger] self.directory@[s1]) <==> s2
                % pow2(self.buckets@[self.directory@[s1] as int].local_depth as nat) as int == s1 % pow2(
                self.buckets@[self.directory@[s1] as int].local_depth as nat,
            ) as int)
    }

    /// The bucket of `k` is one of the store.
    pub proof fn lemma_home_in_range(&self, k: i32)
        requires
            self.wf(),
        ensures
            0 <= slot_of(k, self.global_depth as nat) < self.directory@.len(),
            0 <= self.home(k) < self.buckets@.len(),
    {
        lemma_pow2_pos(self.global_depth as nat);
        let s = slot_of(k, self.global_depth as nat) as int;
        assert(0 <= s < self.directory@.len());
        assert(self.directory@[s] < self.buckets@.len());
    }

    proof fn lemma_view_at(&self, k: i32, j: int)
        requires
            self.wf(),
            self.holds_at(k, j),
        ensures
            self@.contains_key(k),
            self@[k] == self.buckets@[self.home(k)].data@[j].text@,
    {
        self.lemma_home_in_range(k);
        let j2 = choose|j2: int| self.holds_at(k, j2);
        assert(self.holds_at(k, j2));
        assert(self.bucket_ok(self.home(k)));
        assert(j2 == j);
    }

    proof fn lemma_view_absent(&self, k: i32)
        requires
            self.wf(),
            forall|j: int| !self.holds_at(k, j),
        ensures
            !self@.contains_key(k),
    {
    }

    /// Two well-formed indexes that hold the same keys, each with the same
    /// text, have the same view.
    proof fn lemma_same_view_inner(a: HashAlt1, b: HashAlt1)
        requires
            a.wf(),
            b.wf(),
            forall|k: i32, j: int| #[trigger] a.holds_at(k, j) ==> exists|j2: int| b.holds_at(k, j2),
            forall|k: i32, j: int| #[trigger] b.holds_at(k, j) ==> exists|j1: int| a.holds_at(k, j1),
            forall|k: i32, j1: int, j2: int|
                a.holds_at(k, j1) && b.holds_at(k, j2) ==> #[trigger] a.buckets@[a.home(k)].data@[j1].text@
                    == #[trigger] b.buckets@[b.home(k)].data@[j2].text@,
        ensures
            a@ == b@,
    {
        assert forall|k: i32| a@.contains_key(k) == b@.contains_key(k) by {
            if a@.contains_key(k) {
                let j = choose|j: int| a.holds_at(k, j);
                assert(a.holds_at(k, j));
            }
            if b@.contains_key(k) {
                let j = choose|j: int| b.holds_at(k, j);
                assert(b.holds_at(k, j));
            }
        }
        assert forall|k: i32| a@.contains_key(k) implies a@[k] == b@[k] by {
            let j1 = choose|j: int| a.holds_at(k, j);
            assert(a.holds_at(k, j1));
            let j2 = choose|j: int| b.holds_at(k, j);
            assert(b.holds_at(k, j2));
            a.lemma_view_at(k, j1);
            b.lemma_view_at(k, j2);
            assert(a.buckets@[a.home(k)].data@[j1].text@ == b.buckets@[b.home(k)].data@[j2].text@);
        }
        assert(a@ =~= b@);
    }

    /// What the end of a split establishes, from the state `a` before it.
    proof fn lemma_split_done(
        &self,
        a: HashAlt1,
        b: int,
        ld: nat,
        left: Seq<Record>,
        right: Seq<Record>,
        lidx: Seq<int>,
        ridx: Seq<int>,
    )
        requires
            a.wf(),
            0 <= b < a.buckets@.len(),
            ld == a.buckets@[b].local_depth,
            ld < a.global_depth,
            self.global_depth == a.global_depth,
            self.buckets@ == a.buckets@.update(
                b,
                BucketAlt1 {
                    name: self.buckets@[b].name,
                    local_depth: (ld + 1) as u8,
                    data: self.buckets@[b].data,
                    size: a.buckets@[b].size,
                },
            ).push(self.buckets@[a.buckets@.len() as int]),
            self.buckets@[b].data@ == left,
            self.buckets@[a.buckets@.len() as int].data@ == right,
            self.buckets@[a.buckets@.len() as int].local_depth == ld + 1,
            self.buckets@[a.buckets@.len() as int].size == a.buckets@[b].size,
            self.directory@.len() == a.directory@.len(),
            forall|t: int|
                0 <= t < self.directory@.len() ==> #[trigger] self.directory@[t] as int == if a.directory@[t] == b
                    && bit_set(t as nat, ld) {
                    a.buckets@.len() as int
                } else {
                    a.directory@[t] as int
                },
            left.len() == lidx.len(),
            right.len() == ridx.len(),
            left.len() + right.len() == a.buckets@[b].data@.len(),
            forall|q: int|
                0 <= q < lidx.len() ==> 0 <= #[trigger] lidx[q] < a.buckets@[b].data@.len() && left[q]
                    == a.buckets@[b].data@[lidx[q]] && !bit_set(key_bits(left[q].nseq), ld),
            forall|q: int|
                0 <= q < ridx.len() ==> 0 <= #[trigger] ridx[q] < a.buckets@[b].data@.len() && right[q]
                    == a.buckets@[b].data@[ridx[q]] && bit_set(key_bits(right[q].nseq), ld),
            forall|q1: int, q2: int| 0 <= q1 < q2 < lidx.len() ==> lidx[q1] < lidx[q2],
            forall|q1: int, q2: int| 0 <= q1 < q2 < ridx.len() ==> ridx[q1] < ridx[q2],
            forall|t: int|
                0 <= t < a.buckets@[b].data@.len() ==> (bit_set(
                    key_bits((#[trigger] a.buckets@[b].data@[t]).nseq),
                    ld,
                ) ==> exists|q: int| 0 <= q < ridx.len() && ridx[q] == t) && (!bit_set(
                    key_bits(a.buckets@[b].data@[t].nseq),
                    ld,
                ) ==> exists|q: int| 0 <= q < lidx.len() && lidx[q] == t),
        ensures
            self.wf(),
            self@ == a@,
            forall|k: i32|
                a.home(k) == b ==> self.buckets@[#[trigger] self.home(k)].local_depth == ld + 1,
            a.aliases_ok() ==> self.aliases_ok(),
            forall|k: i32|
                a.home(k) == b ==> #[trigger] self.home(k) == b || self.home(k) == a.buckets@.len(),
    {
        let g = a.global_depth as nat;
        let nb = a.buckets@.len() as int;
        let data = a.buckets@[b].data@;
        assert(a.bucket_ok(b));
        assert forall|k: i32| #[trigger]
            self.home(k) == if a.home(k) == b && bit_set(key_bits(k), ld) {
                nb
            } else {
                a.home(k)
            } by {
            a.lemma_home_in_range(k);
            lemma_bit_of_low_bits(key_bits(k), ld, g);
        }
        assert forall|t: int| 0 <= t < self.directory@.len() implies (#[trigger] self.directory@[t])
            < self.buckets@.len() by {
        }
        assert forall|c: int| 0 <= c < self.buckets@.len() implies #[trigger] self.bucket_ok(c) by {
            if c == b {
                assert forall|j: int| 0 <= j < left.len() implies self.home(
                    (#[trigger] self.buckets@[c].data@[j]).nseq,
                ) == c by {
                    assert(left[j] == data[lidx[j]]);
                }
                assert forall|j1: int, j2: int|
                    0 <= j1 < left.len() && 0 <= j2 < left.len() && j1 != j2 implies (#[trigger] left[j1]).nseq
                    != (#[trigger] left[j2]).nseq by {
                    if j1 < j2 {
                        assert(lidx[j1] < lidx[j2]);
                    } else {
                        assert(lidx[j2] < lidx[j1]);
                    }
                }
                assert forall|j: int| 0 <= j < left.len() implies text_bytes(
                    (#[trigger] self.buckets@[c].data@[j]).text@,
                ).len() <= TEXT_LEN by {
                    assert(left[j] == data[lidx[j]]);
                }
            } else if c == nb {
                assert forall|j: int| 0 <= j < right.len() implies self.home(
                    (#[trigger] self.buckets@[c].data@[j]).nseq,
                ) == c by {
                    assert(right[j] == data[ridx[j]]);
                }
                assert forall|j1: int, j2: int|
                    0 <= j1 < right.len() && 0 <= j2 < right.len() && j1 != j2 implies (#[trigger] right[j1]).nseq
                    != (#[trigger] right[j2]).nseq by {
                    if j1 < j2 {
                        assert(ridx[j1] < ridx[j2]);
                    } else {
                        assert(ridx[j2] < ridx[j1]);
                    }
                }
                assert forall|j: int| 0 <= j < right.len() implies text_bytes(
                    (#[trigger] self.buckets@[c].data@[j]).text@,
                ).len() <= TEXT_LEN by {
                    assert(right[j] == data[ridx[j]]);
                }
            } else {
                assert(a.bucket_ok(c));
                assert(self.buckets@[c] == a.buckets@[c]);
                assert forall|j: int| 0 <= j < self.buckets@[c].data@.len() implies self.home(
                    (#[trigger] self.buckets@[c].data@[j]).nseq,
                ) == c by {
                    assert(a.home(a.buckets@[c].data@[j].nseq) == c);
                }
            }
        }
        assert(self.wf());
        assert forall|k: i32, j: int| #[trigger] a.holds_at(k, j) implies exists|j2: int|
            self.holds_at(k, j2) by {
            a.lemma_home_in_range(k);
            if a.home(k) == b {
                if bit_set(key_bits(k), ld) {
                    let q = choose|q: int| 0 <= q < ridx.len() && ridx[q] == j;
                    assert(self.holds_at(k, q));
                } else {
                    let q = choose|q: int| 0 <= q < lidx.len() && lidx[q] == j;
                    assert(self.holds_at(k, q));
                }
            } else {
                assert(self.holds_at(k, j));
            }
        }
        assert forall|k: i32, j: int| #[trigger] self.holds_at(k, j) implies exists|j1: int|
            a.holds_at(k, j1) && self.buckets@[self.home(k)].data@[j] == a.buckets@[a.home(k)].data@[j1] by {
            a.lemma_home_in_range(k);
            if self.home(k) == nb {
                assert(a.holds_at(k, ridx[j]));
            } else if self.home(k) == b && a.home(k) == b {
                assert(a.holds_at(k, lidx[j]));
            } else {
                assert(a.holds_at(k, j));
            }
        }
        assert forall|k: i32, j1: int, j2: int|
            a.holds_at(k, j1) && self.holds_at(k, j2) implies #[trigger] a.buckets@[a.home(k)].data@[j1].text@
            == #[trigger] self.buckets@[self.home(k)].data@[j2].text@ by {
            a.lemma_home_in_range(k);
            assert(a.bucket_ok(a.home(k)));
            let j3 = choose|j3: int|
                a.holds_at(k, j3) && self.buckets@[self.home(k)].data@[j2] == a.buckets@[a.home(k)].data@[j3];
            assert(j3 == j1);
        }
        assert forall|k: i32, j: int| #[trigger] self.holds_at(k, j) implies exists|j1: int|
            a.holds_at(k, j1) by {
            let j3 = choose|j3: int|
                a.holds_at(k, j3) && self.buckets@[self.home(k)].data@[j] == a.buckets@[a.home(k)].data@[j3];
        }
        Self::lemma_same_view_inner(a, *self);
        if a.aliases_ok() {
            assert forall|s1: int, s2: int|
                0 <= s1 < self.directory@.len() && 0 <= s2 < self.directory@.len() && self.directory@[s1]
                    < self.buckets@.len() implies ((#[trigger] self.directory@[s2] == #[trigger] self.directory@[s1])
                <==> s2 % pow2(self.buckets@[self.directory@[s1] as int].local_depth as nat) as int == s1 % pow2(
                self.buckets@[self.directory@[s1] as int].local_depth as nat,
            ) as int) by {
                let c0 = a.directory@[s1] as int;
                assert(a.directory@[s1] < a.buckets@.len());
                assert(a.bucket_ok(c0));
                let p0 = pow2(a.buckets@[c0].local_depth as nat) as int;
                assert(a.directory@[s2] == a.directory@[s1] <==> s2 % p0 == s1 % p0);
                lemma_low_bits_split(s1 as nat, s2 as nat, ld);
                if c0 == b {
                    assert(pow2(ld + 1) as int == pow2(self.buckets@[self.directory@[s1] as int].local_depth as nat) as int);
                } else {
                    assert(self.directory@[s1] == a.directory@[s1]);
                    assert(self.buckets@[c0] == a.buckets@[c0]);
                }
            }
        }
    }

    /// Appending a record with a new key to the bucket of that key adds the
    /// key to the view.
    proof fn lemma_push_done(&self, a: HashAlt1, key: i32, b: int, rec: Record)
        requires
            a.wf(),
            !a@.contains_key(key),
            rec.nseq == key,
            text_bytes(rec.text@).len() <= TEXT_LEN,
            b == a.home(key),
            a.buckets@[b].data@.len() < a.buckets@[b].size,
            self.global_depth == a.global_depth,
            self.directory == a.directory,
            self.buckets@.len() == a.buckets@.len(),
            forall|c: int| 0 <= c < a.buckets@.len() && c != b ==> self.buckets@[c] == a.buckets@[c],
            self.buckets@[b].data@ == a.buckets@[b].data@.push(rec),
            self.buckets@[b].size == a.buckets@[b].size,
            self.buckets@[b].local_depth == a.buckets@[b].local_depth,
        ensures
            self.wf(),
            self@ == a@.insert(key, rec.text@),
            a.aliases_ok() ==> self.aliases_ok(),
    {
        a.lemma_home_in_range(key);
        assert(a.bucket_ok(b));
        assert forall|j: int| 0 <= j < a.buckets@[b].data@.len() implies (#[trigger] a.buckets@[b].data@[j]).nseq
            != key by {
            if a.buckets@[b].data@[j].nseq == key {
                assert(a.holds_at(key, j));
            }
        }
        assert forall|c: int| 0 <= c < self.buckets@.len() implies #[trigger] self.bucket_ok(c) by {
            assert(a.bucket_ok(c));
            if c == b {
                let d = self.buckets@[b].data@;
                assert forall|j: int| 0 <= j < d.len() implies self.home((#[trigger] d[j]).nseq) == c by {
                    if j < d.len() - 1 {
                        assert(d[j] == a.buckets@[b].data@[j]);
                    }
                }
                assert forall|j1: int, j2: int|
                    0 <= j1 < d.len() && 0 <= j2 < d.len() && j1 != j2 implies (#[trigger] d[j1]).nseq
                    != (#[trigger] d[j2]).nseq by {
                    if j1 < d.len() - 1 {
                        assert(d[j1] == a.buckets@[b].data@[j1]);
                    }
                    if j2 < d.len() - 1 {
                        assert(d[j2] == a.buckets@[b].data@[j2]);
                    }
                }
                assert forall|j: int| 0 <= j < d.len() implies text_bytes((#[trigger] d[j]).text@).len()
                    <= TEXT_LEN by {
                    if j < d.len() - 1 {
                        assert(d[j] == a.buckets@[b].data@[j]);
                    }
                }
            }
        }
        assert(self.wf());
        assert forall|k: i32| self@.contains_key(k) == a@.insert(key, rec.text@).contains_key(k) by {
            if k == key {
                assert(self.holds_at(key, a.buckets@[b].data@.len() as int));
            } else if a@.contains_key(k) {
                let j = choose|j: int| a.holds_at(k, j);
                assert(a.holds_at(k, j));
                assert(self.holds_at(k, j));
            } else if self@.contains_key(k) {
                let j = choose|j: int| self.holds_at(k, j);
                assert(self.holds_at(k, j));
                assert(a.holds_at(k, j));
            }
        }
        assert forall|k: i32| self@.contains_key(k) implies self@[k] == a@.insert(key, rec.text@)[k] by {
            if k == key {
                self.lemma_view_at(key, a.buckets@[b].data@.len() as int);
            } else {
                let j = choose|j: int| self.holds_at(k, j);
                assert(self.holds_at(k, j));
                assert(a.holds_at(k, j));
                self.lemma_view_at(k, j);
                a.lemma_view_at(k, j);
            }
        }
        assert(self@ =~= a@.insert(key, rec.text@));
        if a.aliases_ok() {
            assert forall|s1: int, s2: int|
                0 <= s1 < self.directory@.len() && 0 <= s2 < self.directory@.len() && self.directory@[s1]
                    < self.buckets@.len() implies ((#[trigger] self.directory@[s2] == #[trigger] self.directory@[s1])
                <==> s2 % pow2(self.buckets@[self.directory@[s1] as int].local_depth as nat) as int == s1 % pow2(
                self.buckets@[self.directory@[s1] as int].local_depth as nat,
            ) as int) by {
                let c0 = a.directory@[s1] as int;
                if c0 != b {
                    assert(self.buckets@[c0] == a.buckets@[c0]);
                }
            }
        }
    }

    /// Taking the record with key `key` out of its bucket removes the key
    /// from the view.
    proof fn lemma_remove_done(&self, a: HashAlt1, key: i32, b: int, r: Option<Record>)
        requires
            a.wf(),
            b == a.home(key),
            0 <= b < a.buckets@.len(),
            self.global_depth == a.global_depth,
            self.directory == a.directory,
            self.buckets@.len() == a.buckets@.len(),
            forall|c: int| 0 <= c < a.buckets@.len() && c != b ==> self.buckets@[c] == a.buckets@[c],
            self.buckets@[b].size == a.buckets@[b].size,
            self.buckets@[b].local_depth == a.buckets@[b].local_depth,
            r is None <==> !has_key(a.buckets@[b].data@, key),
            r is None ==> self.buckets@[b].data@ == a.buckets@[b].data@,
            r matches Some(x) ==> exists|i: int|
                is_first_key(a.buckets@[b].data@, key, i) && x == a.buckets@[b].data@[i]
                    && self.buckets@[b].data@ == a.buckets@[b].data@.remove(i),
        ensures
            self.wf(),
            self@ == a@.remove(key),
            r is None <==> !a@.contains_key(key),
            r matches Some(x) ==> x.nseq == key && x.text@ == a@[key],
            a.aliases_ok() ==> self.aliases_ok(),
    {
        assert(a.bucket_ok(b));
        let d0 = a.buckets@[b].data@;
        let d = self.buckets@[b].data@;
        // where each record of the new bucket was before
        let ghost pos = if r is Some {
            choose|i: int| is_first_key(d0, key, i) && r->0 == d0[i] && d == d0.remove(i)
        } else {
            d0.len() as int
        };
        assert(forall|j: int| 0 <= j < d.len() ==> #[trigger] d[j] == d0[if j < pos { j } else { j + 1 }]);
        assert forall|c: int| 0 <= c < self.buckets@.len() implies #[trigger] self.bucket_ok(c) by {
            assert(a.bucket_ok(c));
            if c == b {
                assert forall|j: int| 0 <= j < d.len() implies self.home((#[trigger] d[j]).nseq) == c by {
                    assert(d[j] == d0[if j < pos { j } else { j + 1 }]);
                }
                assert forall|j1: int, j2: int|
                    0 <= j1 < d.len() && 0 <= j2 < d.len() && j1 != j2 implies (#[trigger] d[j1]).nseq
                    != (#[trigger] d[j2]).nseq by {
                    assert(d[j1] == d0[if j1 < pos { j1 } else { j1 + 1 }]);
                    assert(d[j2] == d0[if j2 < pos { j2 } else { j2 + 1 }]);
                }
                assert forall|j: int| 0 <= j < d.len() implies text_bytes((#[trigger] d[j]).text@).len()
                    <= TEXT_LEN by {
                    assert(d[j] == d0[if j < pos { j } else { j + 1 }]);
                }
            }
        }
        assert(self.wf());
        if r is Some {
            assert(a.holds_at(key, pos));
            a.lemma_view_at(key, pos);
        } else {
            assert forall|j: int| !a.holds_at(key, j) by {
                if a.holds_at(key, j) {
                    assert(has_key(d0, key));
                }
            }
        }
        assert forall|k: i32| self@.contains_key(k) == a@.remove(key).contains_key(k) by {
            a.lemma_home_in_range(k);
            assert(self.home(k) == a.home(k));
            if a@.contains_key(k) && k != key {
                let j = choose|j: int| a.holds_at(k, j);
                assert(a.holds_at(k, j));
                if self.home(k) == b {
                    if j < pos {
                        assert(self.holds_at(k, j));
                    } else {
                        assert(j != pos);
                        assert(self.holds_at(k, j - 1));
                    }
                } else {
                    assert(self.holds_at(k, j));
                }
            }
            if self@.contains_key(k) {
                let j = choose|j: int| self.holds_at(k, j);
                assert(self.holds_at(k, j));
                if self.home(k) == b {
                    let j0 = if j < pos { j } else { j + 1 };
                    assert(d[j] == d0[j0]);
                    assert(a.holds_at(k, j0));
                    if k == key {
                        assert(a.bucket_ok(b));
                        assert(j0 != pos);
                    }
                } else {
                    assert(a.holds_at(k, j));
                }
            }
        }
        assert forall|k: i32| self@.contains_key(k) implies self@[k] == a@.remove(key)[k] by {
            a.lemma_home_in_range(k);
            assert(self.home(k) == a.home(k));
            assert(a@.remove(key).contains_key(k));
            let j = choose|j: int| self.holds_at(k, j);
            assert(self.holds_at(k, j));
            self.lemma_view_at(k, j);
            if self.home(k) == b {
                let j0 = if j < pos { j } else { j + 1 };
                assert(d[j] == d0[j0]);
                assert(a.holds_at(k, j0));
                a.lemma_view_at(k, j0);
            } else {
                assert(a.holds_at(k, j));
                a.lemma_view_at(k, j);
            }
        }
        assert(self@ =~= a@.remove(key));
        if a.aliases_ok() {
            assert forall|s1: int, s2: int|
                0 <= s1 < self.directory@.len() && 0 <= s2 < self.directory@.len() && self.directory@[s1]
                    < self.buckets@.len() implies ((#[trigger] self.directory@[s2] == #[trigger] self.directory@[s1])
                <==> s2 % pow2(self.buckets@[self.directory@[s1] as int].local_depth as nat) as int == s1 % pow2(
                self.buckets@[self.directory@[s1] as int].local_depth as nat,
            ) as int) by {
                let c0 = a.directory@[s1] as int;
                if c0 != b {
                    assert(self.buckets@[c0] == a.buckets@[c0]);
                }
            }
        }
    }

    /// With the aliasing invariant, a key shares the bucket of `key` exactly
    /// when it shares that bucket's lowest `local_depth` bits with `key`.
    proof fn lemma_same_bucket(&self, key: i32, k: i32)
        requires
            self.wf(),
            self.aliases_ok(),
        ensures
            (self.home(k) == self.home(key)) <==> slot_of(k, self.buckets@[self.home(key)].local_depth as nat)
                == slot_of(key, self.buckets@[self.home(key)].local_depth as nat),
    {
        self.lemma_home_in_range(key);
        self.lemma_home_in_range(k);
        let g = self.global_depth as nat;
        let ld = self.buckets@[self.home(key)].local_depth as nat;
        assert(self.bucket_ok(self.home(key)));
        let s1 = slot_of(key, g) as int;
        let s2 = slot_of(k, g) as int;
        assert(self.directory@[s2] == self.directory@[s1] <==> s2 % pow2(ld) as int == s1 % pow2(ld) as int);
        lemma_low_of_low(key_bits(key), ld, g);
        lemma_low_of_low(key_bits(k), ld, g);
    }

    /// A full bucket of `key` at local depth `d` means `size` stored keys
    /// share the key's lowest `d` bits.
    proof fn lemma_full_crowded(&self, key: i32)
        requires
            self.wf(),
            self.aliases_ok(),
            self.buckets@[self.home(key)].data@.len() >= self.buckets@[self.home(key)].size,
        ensures
            crowded(
                self@,
                key,
                self.buckets@[self.home(key)].local_depth as nat,
                self.buckets@[self.home(key)].size as nat,
            ),
    {
        self.lemma_home_in_range(key);
        let b = self.home(key);
        assert(self.bucket_ok(b));
        let d = self.buckets@[b].data@;
        let ld = self.buckets@[b].local_depth as nat;
        let ks = d.map_values(|r: Record| r.nseq);
        assert forall|i: int, j: int| 0 <= i < ks.len() && 0 <= j < ks.len() && i != j implies ks[i] != ks[j] by {
            assert(d[i].nseq != d[j].nseq);
        }
        assert forall|i: int| 0 <= i < ks.len() implies self@.contains_key(#[trigger] ks[i]) && slot_of(ks[i], ld)
            == slot_of(key, ld) by {
            assert(ks[i] == d[i].nseq);
            assert(self.home(d[i].nseq) == b);
            assert(self.holds_at(ks[i], i));
            self.lemma_view_at(ks[i], i);
            self.lemma_same_bucket(key, ks[i]);
        }
        assert(crowd(self@, key, ld, ks));
    }

    /// Room in the bucket of `key` at local depth `d` means fewer than `size`
    /// stored keys share the key's lowest `d` bits.
    proof fn lemma_room_not_crowded(&self, key: i32)
        requires
            self.wf(),
            self.aliases_ok(),
            self.buckets@[self.home(key)].data@.len() < self.buckets@[self.home(key)].size,
        ensures
            !crowded(
                self@,
                key,
                self.buckets@[self.home(key)].local_depth as nat,
                self.buckets@[self.home(key)].size as nat,
            ),
    {
        self.lemma_home_in_range(key);
        let b = self.home(key);
        let d = self.buckets@[b].data@;
        let ld = self.buckets@[b].local_depth as nat;
        let cap = self.buckets@[b].size as nat;
        if crowded(self@, key, ld, cap) {
            let ks = choose|ks: Seq<i32>| ks.len() >= cap && #[trigger] crowd(self@, key, ld, ks);
            let dk = d.map_values(|r: Record| r.nseq);
            assert forall|x: i32| ks.to_set().contains(x) implies dk.to_set().contains(x) by {
                let i = choose|i: int| 0 <= i < ks.len() && ks[i] == x;
                assert(self@.contains_key(ks[i]));
                let j = choose|j: int| self.holds_at(x, j);
                self.lemma_same_bucket(key, x);
                assert(dk[j] == x);
            }
            ks.unique_seq_to_set();
            dk.lemma_cardinality_of_set();
            vstd::seq_lib::seq_to_set_is_finite(dk);
            vstd::set_lib::lemma_len_subset(ks.to_set(), dk.to_set());
        }
    }

    /// The directory slot of `num`: its lowest `global_depth` bits.
    pub fn hash_fun(&self, num: i32) -> (r: usize)
        requires
            self.wf(),
        ensures
            r == slot_of(num, self.global_depth as nat),
            r < self.directory@.len(),
    {
        proof {
            lemma_pow2_pos(self.global_depth as nat);
        }
        slot_in(num, self.global_depth)
    }

    /// An empty index: `2^global_depth` empty buckets, slot `i` directed to
    /// bucket `i`, labelled `A`, `B`, ... in order.
    pub fn new(global_depth: u8, bucket_size: u8) -> (r: Self)
        requires
            global_depth <= MAX_DEPTH,
        ensures
            r.wf(),
            r.aliases_ok(),
            r@ == Map::<i32, Seq<char>>::empty(),
            r.global_depth == global_depth,
            r.directory@.len() == pow2(global_depth as nat),
            r.buckets@.len() == pow2(global_depth as nat),
            forall|i: int| 0 <= i < r.directory@.len() ==> #[trigger] r.directory@[i] == i,
            forall|i: int|
                0 <= i < r.buckets@.len() ==> (#[trigger] r.buckets@[i]).local_depth == global_depth
                    && r.buckets@[i].size == bucket_size && r.buckets@[i].data@.len() == 0
                    && r.buckets@[i].name@ == nth_label(i as nat),
    {
        let d: u32 = global_depth as u32;
        proof {
            lemma_u32_pow2_no_overflow(d as nat);
            lemma_u32_shl_is_mul(1u32, d);
            lemma_pow2_pos(d as nat);
        }
        let size: u32 = 1u32 << d;
        let mut directory: Vec<usize> = Vec::new();
        let mut buckets: Vec<BucketAlt1> = Vec::new();
        let mut name = ascii_string(vec![90u8, 90u8]);
        assert(name@ =~= seq!['Z', 'Z']);
        let mut i: u32 = 0;
        while i < size
            invariant
                size == pow2(d as nat),
                i <= size,
                directory@.len() == i,
                buckets@.len() == i,
                forall|t: int| 0 <= t < i ==> #[trigger] directory@[t] == t,
                forall|t: int|
                    0 <= t < i ==> (#[trigger] buckets@[t]).local_depth == global_depth
                        && buckets@[t].size == bucket_size && buckets@[t].data@.len() == 0
                        && buckets@[t].name@ == nth_label(t as nat),
                i == 0 ==> name@ == seq!['Z', 'Z'],
                i > 0 ==> name@ == nth_label((i - 1) as nat),
            decreases size - i,
        {
            name = next_string(&name);
            buckets.push(BucketAlt1::new(name.clone(), global_depth, bucket_size));
            directory.push(i as usize);
            i = i + 1;
        }
        let r = HashAlt1 { global_depth, directory, buckets };
        assert forall|b: int| 0 <= b < r.buckets@.len() implies #[trigger] r.bucket_ok(b) by {
            assert(keys_distinct(r.buckets@[b].data@));
        }
        assert(r@ =~= Map::<i32, Seq<char>>::empty());
        assert forall|s1: int, s2: int|
            0 <= s1 < r.directory@.len() && 0 <= s2 < r.directory@.len() && r.directory@[s1] < r.buckets@.len()
                implies ((#[trigger] r.directory@[s2] == #[trigger] r.directory@[s1]) <==> s2 % pow2(
            r.buckets@[r.directory@[s1] as int].local_depth as nat,
        ) as int == s1 % pow2(r.buckets@[r.directory@[s1] as int].local_depth as nat) as int) by {
            lemma_fundamental_div_mod_converse(s1, size as int, 0, s1);
            lemma_fundamental_div_mod_converse(s2, size as int, 0, s2);
        }
        r
    }

    /// Doubles the directory: slot `n + i` takes the bucket of slot `i`, and
    /// the global depth grows by one. No bucket changes.
    pub fn double_directory(&mut self)
        requires
            old(self).wf(),
            old(self).global_depth < MAX_DEPTH,
        ensures
            final(self).wf(),
            final(self)@ == old(self)@,
            final(self).global_depth == old(self).global_depth + 1,
            final(self).buckets == old(self).buckets,
            final(self).directory@.len() == 2 * old(self).directory@.len(),
            forall|s: int|
                0 <= s < final(self).directory@.len() ==> #[trigger] final(self).directory@[s]
                    == old(self).directory@[s % old(self).directory@.len() as int],
            forall|k: i32| #[trigger] final(self).home(k) == old(self).home(k),
            old(self).aliases_ok() ==> final(self).aliases_ok(),
    {
        let ghost d0 = self.directory@;
        let n = self.directory.len();
        proof {
            lemma_pow2_pos(self.global_depth as nat);
            lemma_u32_pow2_no_overflow((self.global_depth + 1) as nat);
            lemma_pow2_unfold((self.global_depth + 1) as nat);
        }
        let mut i: usize = 0;
        while i < n
            invariant
                n == d0.len(),
                self.global_depth == old(self).global_depth,
                self.buckets == old(self).buckets,
                self.global_depth < MAX_DEPTH,
                n == pow2(self.global_depth as nat),
                2 * n < u32::MAX,
                i <= n,
                self.directory@.len() == n + i,
                forall|t: int| 0 <= t < n ==> #[trigger] self.directory@[t] == d0[t],
                forall|t: int| 0 <= t < i ==> #[trigger] self.directory@[n + t] == d0[t],
            decreases n - i,
        {
            let v = self.directory[i];
            self.directory.push(v);
            i = i + 1;
        }
        self.global_depth = self.global_depth + 1;
        proof {
            let gd = old(self).global_depth as nat;
            assert forall|s: int| 0 <= s < self.directory@.len() implies #[trigger] self.directory@[s]
                == d0[s % n as int] by {
                if s < n {
                    lemma_fundamental_div_mod_converse(s, n as int, 0, s);
                } else {
                    lemma_fundamental_div_mod_converse(s, n as int, 1, s - n);
                    assert(self.directory@[n + (s - n)] == d0[s - n]);
                }
            }
            assert forall|k: i32| #[trigger] self.home(k) == old(self).home(k) by {
                lemma_mod_mod(key_bits(k) as int, pow2(gd) as int, 2);
                assert(slot_of(k, gd + 1) % pow2(gd) == slot_of(k, gd));
            }
            assert forall|b: int| 0 <= b < self.buckets@.len() implies #[trigger] self.bucket_ok(b) by {
                assert(old(self).bucket_ok(b));
                assert forall|j: int| 0 <= j < self.buckets@[b].data@.len() implies self.home(
                    (#[trigger] self.buckets@[b].data@[j]).nseq,
                ) == b by {
                    assert(self.home(self.buckets@[b].data@[j].nseq) == old(self).home(self.buckets@[b].data@[j].nseq));
                }
            }
            assert forall|s: int| 0 <= s < self.directory@.len() implies (#[trigger] self.directory@[s])
                < self.buckets@.len() by {
                assert(self.directory@[s] == d0[s % n as int]);
            }
            assert forall|k: i32, j: int| #[trigger] self.holds_at(k, j) == old(self).holds_at(k, j) by {
                assert(self.home(k) == old(self).home(k));
            }
            assert forall|k: i32, j1: int, j2: int|
                old(self).holds_at(k, j1) && self.holds_at(k, j2) implies
                old(self).buckets@[old(self).home(k)].data@[j1].text@
                    == self.buckets@[self.home(k)].data@[j2].text@ by {
                old(self).lemma_home_in_range(k);
                assert(old(self).bucket_ok(old(self).home(k)));
            }
            assert forall|k: i32, j: int| #[trigger] old(self).holds_at(k, j) implies exists|j2: int|
                self.holds_at(k, j2) by {
                assert(self.holds_at(k, j));
            }
            assert forall|k: i32, j: int| #[trigger] self.holds_at(k, j) implies exists|j1: int|
                old(self).holds_at(k, j1) by {
                assert(old(self).holds_at(k, j));
            }
            Self::lemma_same_view_inner(*old(self), *self);
            if old(self).aliases_ok() {
                assert forall|s1: int, s2: int|
                    0 <= s1 < self.directory@.len() && 0 <= s2 < self.directory@.len() && self.directory@[s1]
                        < self.buckets@.len() implies ((#[trigger] self.directory@[s2] == #[trigger] self.directory@[s1])
                    <==> s2 % pow2(self.buckets@[self.directory@[s1] as int].local_depth as nat) as int == s1 % pow2(
                    self.buckets@[self.directory@[s1] as int].local_depth as nat,
                ) as int) by {
                    let t1 = s1 % n as int;
                    let t2 = s2 % n as int;
                    lemma_mod_bound(s1, n as int);
                    lemma_mod_bound(s2, n as int);
                    assert(self.directory@[s1] == d0[t1]);
                    assert(self.directory@[s2] == d0[t2]);
                    let ld = self.buckets@[d0[t1] as int].local_depth as nat;
                    assert(old(self).bucket_ok(d0[t1] as int));
                    lemma_low_of_low(s1 as nat, ld, gd);
                    lemma_low_of_low(s2 as nat, ld, gd);
                    assert(old(self).directory@[t2] == old(self).directory@[t1] <==> t2 % pow2(ld) as int == t1 % pow2(
                        ld,
                    ) as int);
                }
            }
        }
    }

    /// Splits the bucket of directory slot `dir_index`, doubling the
    /// directory first when the bucket is as deep as the directory. The bucket
    /// keeps the records whose bit `local_depth` is 0 and a new bucket, last in
    /// the store, takes the others; so do the slots that named the bucket.
    fn split(&mut self, dir_index: usize)
        requires
            old(self).wf(),
            dir_index < old(self).directory@.len(),
            old(self).buckets@[old(self).directory@[dir_index as int] as int].local_depth < MAX_DEPTH,
        ensures
            final(self).wf(),
            final(self)@ == old(self)@,
            final(self).buckets@.len() == old(self).buckets@.len() + 1,
            forall|k: i32|
                old(self).home(k) == old(self).directory@[dir_index as int]
                    ==> final(self).buckets@[#[trigger] final(self).home(k)].local_depth
                    == old(self).buckets@[old(self).home(k)].local_depth + 1,
            old(self).aliases_ok() ==> final(self).aliases_ok(),
            split_shape(*old(self), *final(self), old(self).directory@[dir_index as int] as int),
            forall|k: i32|
                old(self).home(k) == old(self).directory@[dir_index as int] ==> #[trigger] final(self).home(k)
                    == old(self).directory@[dir_index as int] || final(self).home(k) == old(self).buckets@.len(),
    {
        let b = self.directory[dir_index];
        proof {
            assert(self.bucket_ok(b as int));
        }
        let ld = self.buckets[b].local_depth;
        if ld == self.global_depth {
            self.double_directory();
        }
        let ghost a = *self;
        let ghost g = a.global_depth as nat;
        assert(a.bucket_ok(b as int));
        proof {
            lemma_u32_pow2_no_overflow(ld as nat);
            lemma_u32_shl_is_mul(1u32, ld as u32);
            lemma_pow2_pos(ld as nat);
            lemma_u32_pow2_no_overflow(g);
        }
        let p: u32 = 1u32 << (ld as u32);
        let n = self.buckets[b].data.len();
        let ghost data = a.buckets@[b as int].data@;
        let mut left: Vec<Record> = Vec::new();
        let mut right: Vec<Record> = Vec::new();
        let ghost mut lidx: Seq<int> = Seq::empty();
        let ghost mut ridx: Seq<int> = Seq::empty();
        let mut i: usize = 0;
        while i < n
            invariant
                *self == a,
                b < self.buckets@.len(),
                data == self.buckets@[b as int].data@,
                n == data.len(),
                i <= n,
                p == pow2(ld as nat),
                p > 0,
                left@.len() == lidx.len(),
                right@.len() == ridx.len(),
                left@.len() + right@.len() == i,
                forall|q: int|
                    0 <= q < lidx.len() ==> 0 <= #[trigger] lidx[q] < i && left@[q] == data[lidx[q]]
                        && !bit_set(key_bits(left@[q].nseq), ld as nat),
                forall|q: int|
                    0 <= q < ridx.len() ==> 0 <= #[trigger] ridx[q] < i && right@[q] == data[ridx[q]]
                        && bit_set(key_bits(right@[q].nseq), ld as nat),
                forall|q1: int, q2: int| 0 <= q1 < q2 < lidx.len() ==> lidx[q1] < lidx[q2],
                forall|q1: int, q2: int| 0 <= q1 < q2 < ridx.len() ==> ridx[q1] < ridx[q2],
                forall|t: int|
                    0 <= t < i ==> (bit_set(key_bits((#[trigger] data[t]).nseq), ld as nat) ==> exists|q: int|
                        0 <= q < ridx.len() && ridx[q] == t) && (!bit_set(key_bits(data[t].nseq), ld as nat)
                        ==> exists|q: int| 0 <= q < lidx.len() && lidx[q] == t),
            decreases n - i,
        {
            let r = self.buckets[b].data[i].duplicate();
            let x: u32 = #[verifier::truncate] (r.nseq as u32);
            let ghost l0 = lidx;
            let ghost r0 = ridx;
            let ghost lv = left@;
            let ghost rv = right@;
            if (x / p) % 2 == 1 {
                right.push(r);
                proof {
                    ridx = ridx.push(i as int);
                    assert forall|q: int| 0 <= q < ridx.len() implies 0 <= #[trigger] ridx[q] < i + 1
                        && right@[q] == data[ridx[q]] && bit_set(key_bits(right@[q].nseq), ld as nat) by {
                        if q < r0.len() {
                            assert(ridx[q] == r0[q]);
                            assert(right@[q] == rv[q]);
                        }
                    }
                }
            } else {
                left.push(r);
                proof {
                    lidx = lidx.push(i as int);
                    assert forall|q: int| 0 <= q < lidx.len() implies 0 <= #[trigger] lidx[q] < i + 1
                        && left@[q] == data[lidx[q]] && !bit_set(key_bits(left@[q].nseq), ld as nat) by {
                        if q < l0.len() {
                            assert(lidx[q] == l0[q]);
                            assert(left@[q] == lv[q]);
                        }
                    }
                }
            }
            proof {
                assert forall|t: int| 0 <= t < i + 1 implies (bit_set(key_bits((#[trigger] data[t]).nseq), ld as nat)
                    ==> exists|q: int| 0 <= q < ridx.len() && ridx[q] == t) && (!bit_set(
                    key_bits(data[t].nseq),
                    ld as nat,
                ) ==> exists|q: int| 0 <= q < lidx.len() && lidx[q] == t) by {
                    if t < i {
                        if bit_set(key_bits(data[t].nseq), ld as nat) {
                            let q = choose|q: int| 0 <= q < r0.len() && r0[q] == t;
                            assert(ridx[q] == t);
                        } else {
                            let q = choose|q: int| 0 <= q < l0.len() && l0[q] == t;
                            assert(lidx[q] == t);
                        }
                    } else {
                        if bit_set(key_bits(data[t].nseq), ld as nat) {
                            assert(ridx[r0.len() as int] == t);
                        } else {
                            assert(lidx[l0.len() as int] == t);
                        }
                    }
                }
            }
            i = i + 1;
        }
        let size = self.buckets[b].size;
        let old_name = self.buckets[b].name.clone();
        let last = self.buckets.len() - 1;
        let name = next_string(&self.buckets[last].name);
        self.buckets.set(b, BucketAlt1 { name: old_name, local_depth: ld + 1, data: left, size });
        self.buckets.push(BucketAlt1 { name, local_depth: ld + 1, data: right, size });
        let nb = self.buckets.len() - 1;
        let ghost bks = self.buckets@;
        let len = self.directory.len();
        let mut s: usize = 0;
        while s < len
            invariant
                self.buckets@ == bks,
                self.global_depth == a.global_depth,
                len == a.directory@.len(),
                len == pow2(g),
                pow2(g) < u32::MAX,
                p == pow2(ld as nat),
                p > 0,
                self.directory@.len() == len,
                s <= len,
                forall|t: int|
                    0 <= t < s ==> #[trigger] self.directory@[t] == if a.directory@[t] == b && bit_set(
                        t as nat,
                        ld as nat,
                    ) {
                        nb
                    } else {
                        a.directory@[t]
                    },
                forall|t: int| s <= t < len ==> #[trigger] self.directory@[t] == a.directory@[t],
            decreases len - s,
        {
            if self.directory[s] == b && ((s as u32) / p) % 2 == 1 {
                self.directory.set(s, nb);
            }
            s = s + 1;
        }
        proof {
            self.lemma_split_done(a, b as int, ld as nat, left@, right@, lidx, ridx);
            let n0 = old(self).directory@.len() as int;
            lemma_pow2_pos(old(self).global_depth as nat);
            assert forall|t: int| 0 <= t < self.directory@.len() implies a.directory@[t] == old(
                self,
            ).directory@[t % n0] by {
                if ld != old(self).global_depth {
                    lemma_fundamental_div_mod_converse(t, n0, 0, t);
                }
            }
            assert forall|c: int| 0 <= c < old(self).buckets@.len() && c != b implies #[trigger] self.buckets@[c]
                == old(self).buckets@[c] by {
                assert(self.buckets@[c] == bks[c]);
            }
        }
    }

    /// Inserts `record`, its text padded with null characters to `TEXT_LEN`
    /// bytes. A longer text, or a key that is already stored, is refused and
    /// nothing changes.
    /// While the bucket of the key is full it is split, and the directory
    /// doubled where needed; only a full bucket at `MAX_DEPTH` stops that.
    pub fn insert(&mut self, record: Record) -> (r: Result<(), IndexError>)
        requires
            old(self).wf(),
        ensures
            final(self).wf(),
            inserted(*old(self), *final(self), record, r),
            old(self).aliases_ok() ==> final(self).aliases_ok(),
    {
        if bytes_of(&record.text).len() > TEXT_LEN {
            return Err(IndexError::TextTooLong);
        }
        if self.search(record.nseq).is_some() {
            return Err(IndexError::DuplicateKey);
        }
        let key = record.nseq;
        let rec = Record { nseq: key, text: pad_text(&record.text) };
        proof {
            self.lemma_home_in_range(key);
            assert(self.bucket_ok(self.home(key)));
        }
        let ghost cap = self.buckets@[self.home(key)].size as nat;
        let ghost d0 = self.buckets@[self.home(key)].local_depth as nat;
        let ghost n0 = self.buckets@.len();
        let ghost og = self.global_depth as nat;
        loop
            invariant
                self.wf(),
                self@ == old(self)@,
                old(self).aliases_ok() ==> self.aliases_ok(),
                !self@.contains_key(key),
                rec.nseq == key,
                key == record.nseq,
                rec.text@ == padded(record.text@),
                text_bytes(rec.text@).len() == TEXT_LEN,
                text_bytes(record.text@).len() <= TEXT_LEN,
                cap == old(self).buckets@[old(self).home(key)].size,
                d0 == old(self).buckets@[old(self).home(key)].local_depth,
                n0 == old(self).buckets@.len(),
                n0 >= 1,
                og == old(self).global_depth,
                d0 <= self.buckets@[self.home(key)].local_depth,
                self.buckets@.len() == n0 + (self.buckets@[self.home(key)].local_depth - d0),
                self.global_depth == max_nat(og, self.buckets@[self.home(key)].local_depth as nat),
                self.buckets@[self.home(key)].size == cap,
                self.home(key) == old(self).home(key) || self.home(key) >= n0,
                self.buckets@.len() == n0 ==> self.directory == old(self).directory,
                forall|c: int|
                    0 <= c < n0 && c != old(self).home(key) ==> (#[trigger] self.buckets@[c]).local_depth
                        == old(self).buckets@[c].local_depth,
                forall|c: int|
                    0 <= c < n0 ==> (#[trigger] self.buckets@[c]).name == old(self).buckets@[c].name
                        && self.buckets@[c].size == old(self).buckets@[c].size,
                forall|c: int|
                    n0 <= c < self.buckets@.len() ==> (#[trigger] self.buckets@[c]).size == cap
                        && self.buckets@[c].name@ == label_after(self.buckets@[c - 1].name@),
                old(self).aliases_ok() ==> forall|d: nat|
                    d0 <= d < self.buckets@[self.home(key)].local_depth ==> #[trigger] crowded(
                        old(self)@,
                        key,
                        d,
                        cap,
                    ),
            decreases MAX_DEPTH - self.buckets@[self.home(key)].local_depth,
        {
            let h = self.hash_fun(key);
            let b = self.directory[h];
            proof {
                self.lemma_home_in_range(key);
                assert(self.bucket_ok(b as int));
            }
            if self.buckets[b].data.len() < self.buckets[b].size as usize {
                let ghost a = *self;
                proof {
                    if old(self).aliases_ok() {
                        a.lemma_room_not_crowded(key);
                    }
                }
                self.buckets[b].insert(rec);
                proof {
                    self.lemma_push_done(a, key, b as int, rec);
                    assert(self.home(key) == a.home(key));
                    assert forall|c: int| 0 <= c < self.buckets@.len() implies (#[trigger] self.buckets@[c]).name
                        == a.buckets@[c].name && self.buckets@[c].size == a.buckets@[c].size
                        && self.buckets@[c].local_depth == a.buckets@[c].local_depth by {}
                    let d1 = self.buckets@[self.home(key)].local_depth as nat;
                    assert(d0 <= d1);
                    assert(self.buckets@.len() == n0 + (d1 - d0));
                    assert(self.global_depth == max_nat(og, d1));
                    assert(self.buckets@[self.home(key)].size == cap);
                    assert(forall|c: int|
                        0 <= c < n0 && c != old(self).home(key) ==> (#[trigger] self.buckets@[c]).local_depth
                            == old(self).buckets@[c].local_depth);
                    assert(forall|c: int|
                        0 <= c < n0 ==> (#[trigger] self.buckets@[c]).name == old(self).buckets@[c].name
                            && self.buckets@[c].size == old(self).buckets@[c].size);
                    assert(forall|c: int|
                        n0 <= c < self.buckets@.len() ==> (#[trigger] self.buckets@[c]).size == cap
                            && self.buckets@[c].name@ == label_after(self.buckets@[c - 1].name@));
                    if old(self).aliases_ok() {
                        assert(forall|d: nat| d0 <= d < d1 ==> #[trigger] crowded(old(self)@, key, d, cap));
                        assert(!crowded(old(self)@, key, d1, cap));
                    }
                    assert(reshaped(*old(self), *self, key, true));
                }
                return Ok(());
            }
            if self.buckets[b].local_depth >= MAX_DEPTH {
                proof {
                    if old(self).aliases_ok() {
                        self.lemma_full_crowded(key);
                    }
                    assert(reshaped(*old(self), *self, key, false));
                }
                return Err(IndexError::OverflowDepth);
            }
            let ghost a = *self;
            proof {
                if old(self).aliases_ok() {
                    a.lemma_full_crowded(key);
                }
            }
            self.split(h);
            proof {
                let ld = a.buckets@[b as int].local_depth as nat;
                assert(self.home(key) == b || self.home(key) == a.buckets@.len());
                assert(self.buckets@[self.home(key)].local_depth == ld + 1);
                assert forall|c: int|
                    0 <= c < n0 && c != old(self).home(key) implies (#[trigger] self.buckets@[c]).local_depth
                    == old(self).buckets@[c].local_depth by {
                    if c != b {
                        assert(self.buckets@[c] == a.buckets@[c]);
                    }
                }
                assert forall|c: int| 0 <= c < n0 implies (#[trigger] self.buckets@[c]).name == old(
                    self,
                ).buckets@[c].name && self.buckets@[c].size == old(self).buckets@[c].size by {
                    if c != b {
                        assert(self.buckets@[c] == a.buckets@[c]);
                    }
                }
                assert forall|c: int| n0 <= c < self.buckets@.len() implies (#[trigger] self.buckets@[c]).size
                    == cap && self.buckets@[c].name@ == label_after(self.buckets@[c - 1].name@) by {
                    if c < a.buckets@.len() {
                        if c != b {
                            assert(self.buckets@[c] == a.buckets@[c]);
                        }
                        if c - 1 != b {
                            assert(self.buckets@[c - 1] == a.buckets@[c - 1]);
                        }
                    } else {
                        if c - 1 != b {
                            assert(self.buckets@[c - 1] == a.buckets@[c - 1]);
                        }
                    }
                }
                if old(self).aliases_ok() {
                    assert forall|d: nat|
                        d0 <= d < self.buckets@[self.home(key)].local_depth implies #[trigger] crowded(
                        old(self)@,
                        key,
                        d,
                        cap,
                    ) by {
                        if d < ld {
                            assert(crowded(old(self)@, key, d, cap));
                        }
                    }
                }
            }
        }
    }

    /// Removes the record with key `key` and returns it. Buckets and the
    /// directory never shrink.
    pub fn remove(&mut self, key: i32) -> (r: Option<Record>)
        requires
            old(self).wf(),
        ensures
            final(self).wf(),
            final(self)@ == old(self)@.remove(key),
            r is None <==> !old(self)@.contains_key(key),
            r matches Some(x) ==> x.nseq == key && x.text@ == old(self)@[key],
            old(self).aliases_ok() ==> final(self).aliases_ok(),
            final(self).global_depth == old(self).global_depth,
            final(self).directory == old(self).directory,
            final(self).buckets@.len() == old(self).buckets@.len(),
            forall|c: int|
                0 <= c < final(self).buckets@.len() ==> (#[trigger] final(self).buckets@[c]).name == old(
                    self,
                ).buckets@[c].name && final(self).buckets@[c].local_depth == old(self).buckets@[c].local_depth
                    && final(self).buckets@[c].size == old(self).buckets@[c].size,
            r is None ==> forall|c: int|
                0 <= c < final(self).buckets@.len() ==> (#[trigger] final(self).buckets@[c]).data@ == old(
                    self,
                ).buckets@[c].data@,
    {
        let h = self.hash_fun(key);
        let b = self.directory[h];
        proof {
            self.lemma_home_in_range(key);
        }
        let ghost a = *self;
        let r = self.buckets[b].remove(key);
        proof {
            self.lemma_remove_done(a, key, b as int, r);
        }
        r
    }

    /// Whether bucket `c` keeps the invariant, given a sound directory.
    fn check_bucket(&self, c: usize) -> (r: bool)
        requires
            self.global_depth <= MAX_DEPTH,
            self.directory@.len() == pow2(self.global_depth as nat),
            forall|s: int|
                0 <= s < self.directory@.len() ==> (#[trigger] self.directory@[s]) < self.buckets@.len(),
            c < self.buckets@.len(),
        ensures
            r == self.bucket_ok(c as int),
    {
        let bk = &self.buckets[c];
        if bk.data.len() > bk.size as usize || bk.local_depth > self.global_depth {
            return false;
        }
        let mut j: usize = 0;
        while j < bk.data.len()
            invariant
                bk == self.buckets@[c as int],
                self.global_depth <= MAX_DEPTH,
                self.directory@.len() == pow2(self.global_depth as nat),
                j <= bk.data@.len(),
                forall|t: int| 0 <= t < j ==> self.home((#[trigger] bk.data@[t]).nseq) == c,
                forall|t: int| 0 <= t < j ==> text_bytes((#[trigger] bk.data@[t]).text@).len() <= TEXT_LEN,
                forall|t1: int, t2: int|
                    0 <= t1 < j && 0 <= t2 < j && t1 != t2 ==> (#[trigger] bk.data@[t1]).nseq
                        != (#[trigger] bk.data@[t2]).nseq,
            decreases bk.data@.len() - j,
        {
            let key = bk.data[j].nseq;
            let h = slot_in(key, self.global_depth);
            proof {
                lemma_pow2_pos(self.global_depth as nat);
            }
            if self.directory[h] != c {
                return false;
            }
            let tl = bytes_of(&bk.data[j].text).len();
            if tl > TEXT_LEN {
                return false;
            }
            assert(text_bytes(bk.data@[j as int].text@).len() == tl);
            let mut i: usize = 0;
            while i < j
                invariant
                    bk == self.buckets@[c as int],
                    j < bk.data@.len(),
                    key == bk.data@[j as int].nseq,
                    text_bytes(bk.data@[j as int].text@).len() <= TEXT_LEN,
                    i <= j,
                    forall|t: int| 0 <= t < i ==> (#[trigger] bk.data@[t]).nseq != key,
                decreases j - i,
            {
                if bk.data[i].nseq == key {
                    assert(!keys_distinct(bk.data@));
                    return false;
                }
                i = i + 1;
            }
            j = j + 1;
        }
        true
    }

    /// Whether the index keeps its invariant.
    pub fn check_wf(&self) -> (r: bool)
        ensures
            r == self.wf(),
    {
        if self.global_depth > MAX_DEPTH {
            return false;
        }
        let d: u32 = self.global_depth as u32;
        proof {
            lemma_u32_pow2_no_overflow(d as nat);
            lemma_u32_shl_is_mul(1u32, d);
        }
        let n: u32 = 1u32 << d;
        if self.directory.len() != n as usize || self.buckets.len() == 0 {
            return false;
        }
        let mut s: usize = 0;
        while s < self.directory.len()
            invariant
                s <= self.directory@.len(),
                forall|t: int| 0 <= t < s ==> (#[trigger] self.directory@[t]) < self.buckets@.len(),
            decreases self.directory@.len() - s,
        {
            if self.directory[s] >= self.buckets.len() {
                return false;
            }
            s = s + 1;
        }
        let mut c: usize = 0;
        while c < self.buckets.len()
            invariant
                self.global_depth <= MAX_DEPTH,
                self.directory@.len() == pow2(self.global_depth as nat),
                forall|t: int| 0 <= t < self.directory@.len() ==> (#[trigger] self.directory@[t]) < self.buckets@.len(),
                c <= self.buckets@.len(),
                forall|b: int| 0 <= b < c ==> #[trigger] self.bucket_ok(b),
            decreases self.buckets@.len() - c,
        {
            if !self.check_bucket(c) {
                return false;
            }
            c = c + 1;
        }
        true
    }

    /// An index is well-formed exactly when its image is.
    proof fn lemma_wf_image(h: HashAlt1)
        ensures
            h.wf() == image_wf(index_image(h)),
    {
        let img = index_image(h);
        let bi = h.buckets@.map_values(|bk: BucketAlt1| bucket_image(bk));
        assert(img.1 == bi);
        assert(bi.len() == h.buckets@.len());
        assert forall|k: i32| image_home(img, k) == h.home(k) by {}
        assert forall|c: int| 0 <= c < h.buckets@.len() implies #[trigger] h.bucket_ok(c) == image_bucket_ok(img, c) by {
            assert(bi[c] == bucket_image(h.buckets@[c]));
            let d = h.buckets@[c].data@;
            let m = d.map_values(|x: Record| record_image(x));
            assert(img.1[c].3 == m);
            assert(m.len() == d.len());
            assert forall|j: int| 0 <= j < d.len() implies (#[trigger] m[j]).0 == d[j].nseq && m[j].1 == d[j].text@ by {
                assert(m[j] == record_image(d[j]));
            }
            if h.bucket_ok(c) {
                assert forall|i: int, j: int|
                    0 <= i < m.len() && 0 <= j < m.len() && i != j implies (#[trigger] m[i]).0 != (#[trigger] m[j]).0 by {
                    assert(d[i].nseq != d[j].nseq);
                }
                assert forall|j: int| 0 <= j < m.len() implies image_home(img, (#[trigger] m[j]).0) == c by {
                    assert(h.home(d[j].nseq) == c);
                }
                assert forall|j: int| 0 <= j < m.len() implies text_bytes((#[trigger] m[j]).1).len() <= TEXT_LEN by {
                    assert(text_bytes(d[j].text@).len() <= TEXT_LEN);
                }
            }
            if image_bucket_ok(img, c) {
                assert forall|i: int, j: int|
                    0 <= i < d.len() && 0 <= j < d.len() && i != j implies (#[trigger] d[i]).nseq != (#[trigger] d[j]).nseq by {
                    assert(m[i].0 != m[j].0);
                }
                assert forall|j: int| 0 <= j < d.len() implies h.home((#[trigger] d[j]).nseq) == c by {
                    assert(image_home(img, m[j].0) == c);
                }
                assert forall|j: int| 0 <= j < d.len() implies text_bytes((#[trigger] d[j]).text@).len() <= TEXT_LEN by {
                    assert(text_bytes(m[j].1).len() <= TEXT_LEN);
                }
            }
        }
        if image_wf(img) {
            assert forall|c: int| 0 <= c < h.buckets@.len() implies #[trigger] h.bucket_ok(c) by {
                assert(image_bucket_ok(img, c));
            }
        }
        if h.wf() {
            assert forall|c: int| 0 <= c < img.1.len() implies #[trigger] image_bucket_ok(img, c) by {
                assert(h.bucket_ok(c));
            }
        }
    }

    /// The fixed-width encoding of the index.
    pub fn serialize(&self) -> (r: Vec<u8>)
        ensures
            r@ == index_bytes(*self),
    {
        let mut encoded: Vec<u8> = Vec::new();
        encoded.push(self.global_depth);
        push_u16_be(&mut encoded, #[verifier::truncate] (self.buckets.len() as u16));
        let ghost head = encoded@;
        let mut i: usize = 0;
        while i < self.buckets.len()
            invariant
                i <= self.buckets@.len(),
                encoded@ == head + buckets_bytes(self.buckets@, i as nat),
            decreases self.buckets@.len() - i,
        {
            let mut e = self.buckets[i].serialize();
            encoded.append(&mut e);
            i = i + 1;
            assert(encoded@ =~= head + buckets_bytes(self.buckets@, i as nat));
        }
        push_u16_be(&mut encoded, #[verifier::truncate] (self.directory.len() as u16));
        let ghost mid = encoded@;
        let mut j: usize = 0;
        while j < self.directory.len()
            invariant
                j <= self.directory@.len(),
                encoded@ == mid + dir_bytes(self.directory@, j as nat),
            decreases self.directory@.len() - j,
        {
            push_u16_be(&mut encoded, #[verifier::truncate] (self.directory[j] as u16));
            j = j + 1;
            assert(encoded@ =~= mid + dir_bytes(self.directory@, j as nat));
        }
        assert(encoded@ =~= index_bytes(*self));
        encoded
    }

    /// Reads an index back from its encoding. It fails when the bytes end
    /// before the headers say, when a text is not UTF-8, or when what they
    /// describe is not a well-formed index.
    pub fn deserialize(bytes: &Vec<u8>) -> (r: Result<HashAlt1, DecodeError>)
        ensures
            match r {
                Ok(h) => h.wf() && parse_index(bytes@) == Some(index_image(h)),
                Err(_) => match parse_index(bytes@) {
                    None => true,
                    Some(img) => !image_wf(img),
                },
            },
    {
        let len = bytes.len();
        if len < 3 {
            return Err(DecodeError::MalformedPersistedState);
        }
        let gd = bytes[0];
        let m = read_u16_be(bytes, 1);
        let mut buckets: Vec<BucketAlt1> = Vec::new();
        let mut p: usize = 3;
        let mut i: usize = 0;
        while i < m as usize
            invariant
                len == bytes@.len(),
                len >= 3,
                m == u16_at(bytes@, 1),
                i <= m,
                buckets@.len() == i,
                p <= len,
                parse_buckets(bytes@, 3, i as nat) == Some(
                    (buckets@.map_values(|bk: BucketAlt1| bucket_image(bk)), p as int),
                ),
            decreases m - i,
        {
            let ghost prev = buckets@.map_values(|bk: BucketAlt1| bucket_image(bk));
            match BucketAlt1::deserialize(bytes, p) {
                Ok((bk, e)) => {
                    buckets.push(bk);
                    p = e;
                    assert(buckets@.map_values(|bk: BucketAlt1| bucket_image(bk)) =~= prev.push(
                        bucket_image(buckets@[i as int]),
                    ));
                },
                Err(_) => {
                    proof {
                        lemma_parse_buckets_none(bytes@, 3, (i + 1) as nat, m as nat);
                    }
                    return Err(DecodeError::MalformedPersistedState);
                },
            }
            i = i + 1;
        }
        if len - p < 2 {
            return Err(DecodeError::MalformedPersistedState);
        }
        let n = read_u16_be(bytes, p);
        if (len - p - 2) < 2 * (n as usize) {
            return Err(DecodeError::MalformedPersistedState);
        }
        let mut directory: Vec<usize> = Vec::new();
        let mut q: usize = p + 2;
        let mut j: usize = 0;
        while j < n as usize
            invariant
                len == bytes@.len(),
                p + 2 + 2 * n <= len,
                j <= n,
                q == p + 2 + 2 * j,
                directory@ == Seq::new(j as nat, |t: int| u16_at(bytes@, p + 2 + 2 * t) as usize),
            decreases n - j,
        {
            let v = read_u16_be(bytes, q);
            directory.push(v as usize);
            q = q + 2;
            j = j + 1;
            assert(directory@ =~= Seq::new(j as nat, |t: int| u16_at(bytes@, p + 2 + 2 * t) as usize));
        }
        let h = HashAlt1 { global_depth: gd, directory, buckets };
        assert(parse_index(bytes@) == Some(index_image(h)));
        if !h.check_wf() {
            proof {
                Self::lemma_wf_image(h);
            }
            return Err(DecodeError::MalformedPersistedState);
        }
        Ok(h)
    }

    /// Every directory slot names a bucket of the store.
    pub(crate) proof fn lemma_dir_entries(&self, i: int)
        requires
            self.wf(),
        ensures
            0 <= i < self.directory@.len() ==> self.directory@[i] < self.buckets@.len(),
    {
    }

    /// The directory has at most `2^15` slots.
    pub(crate) proof fn lemma_dir_small(&self)
        requires
            self.wf(),
        ensures
            self.directory@.len() <= 0x8000,
    {
        lemma_pow2_strictly_increases(self.global_depth as nat, 16);
        lemma2_to64();
    }

    /// The global depth.
    pub fn global_depth(&self) -> (r: u8)
        ensures
            r == self.global_depth as nat,
    {
        self.global_depth
    }

    /// The number of directory slots.
    pub fn directory_len(&self) -> (r: usize)
        ensures
            r == self.directory@.len(),
    {
        self.directory.len()
    }

    /// Where the record with key `key` is stored: its bucket and its
    /// position there.
    pub fn search(&self, key: i32) -> (r: Option<(usize, usize)>)
        requires
            self.wf(),
        ensures
            r is None <==> !self@.contains_key(key),
            r matches Some((b, s)) ==> {
                &&& b < self.buckets@.len()
                &&& s < self.buckets@[b as int].data@.len()
                &&& self.buckets@[b as int].data@[s as int].nseq == key
                &&& self.buckets@[b as int].data@[s as int].text@ == self@[key]
            },
    {
        let h = self.hash_fun(key);
        let b = self.directory[h];
        proof {
            self.lemma_home_in_range(key);
        }
        match self.buckets[b].search(key) {
            Some(s) => {
                proof {
                    self.lemma_view_at(key, s as int);
                }
                Some((b, s))
            },
            None => {
                proof {
                    assert forall|j: int| !self.holds_at(key, j) by {
                        if self.holds_at(key, j) {
                            assert(has_key(self.buckets@[b as int].data@, key));
                        }
                    }
                    self.lemma_view_absent(key);
                }
                None
            },
        }
    }
}

/// Every well-formed index has a directory of exactly `2^global_depth` slots;
/// every operation of the index keeps it well-formed.
pub proof fn lemma_directory_size(h: &HashAlt1)
    requires
        h.wf(),
    ensures
        h.directory@.len() == pow2(h.global_depth as nat),
{
}

/// A key is stored at most once: two records with the same key are one and
/// the same position of the same bucket.
pub proof fn lemma_key_stored_once(h: &HashAlt1, k: i32, c1: int, j1: int, c2: int, j2: int)
    requires
        h.wf(),
        0 <= c1 < h.buckets@.len(),
        0 <= c2 < h.buckets@.len(),
        0 <= j1 < h.buckets@[c1].data@.len(),
        0 <= j2 < h.buckets@[c2].data@.len(),
        h.buckets@[c1].data@[j1].nseq == k,
        h.buckets@[c2].data@[j2].nseq == k,
    ensures
        c1 == c2,
        j1 == j2,
{
    assert(h.bucket_ok(c1));
    assert(h.bucket_ok(c2));
    assert(h.home(h.buckets@[c1].data@[j1].nseq) == c1);
    assert(h.home(h.buckets@[c2].data@[j2].nseq) == c2);
}

/// Searching a key right after it was inserted finds the inserted record:
/// its key, and its text followed by the null padding.
pub proof fn lemma_insert_then_search(
    h1: HashAlt1,
    h2: HashAlt1,
    record: Record,
    r: Result<(), IndexError>,
    found: Option<(usize, usize)>,
)
    requires
        h1.wf(),
        h2.wf(),
        inserted(h1, h2, record, r),
        r is Ok,
        found is None <==> !h2@.contains_key(record.nseq),
        found matches Some((b, s)) ==> {
            &&& b < h2.buckets@.len()
            &&& s < h2.buckets@[b as int].data@.len()
            &&& h2.buckets@[b as int].data@[s as int].nseq == record.nseq
            &&& h2.buckets@[b as int].data@[s as int].text@ == h2@[record.nseq]
        },
    ensures
        found matches Some((b, s)) && h2.buckets@[b as int].data@[s as int].nseq == record.nseq
            && h2.buckets@[b as int].data@[s as int].text@ == padded(record.text@)
            && h2.buckets@[b as int].data@[s as int].text@.take(record.text@.len() as int) == record.text@,
{
    assert(padded(record.text@).take(record.text@.len() as int) =~= record.text@);
}

/// Inserting a key that an earlier insertion stored is refused, and the one
/// record of that key keeps the first text.
pub proof fn lemma_insert_twice(
    h1: HashAlt1,
    h2: HashAlt1,
    h3: HashAlt1,
    first: Record,
    second: Record,
    r1: Result<(), IndexError>,
    r2: Result<(), IndexError>,
)
    requires
        h1.wf(),
        inserted(h1, h2, first, r1),
        r1 is Ok,
        inserted(h2, h3, second, r2),
        second.nseq == first.nseq,
    ensures
        r2 is Err,
        h3 == h2,
        h3@.contains_key(first.nseq),
        h3@[first.nseq] == padded(first.text@),
{
}

/// What a bucket reads back as once encoded.
pub open spec fn stored_bucket_image(bk: BucketAlt1) -> BucketImage {
    (bk.name@, bk.local_depth, bk.size, bk.data@.map_values(|r: Record| stored_image(r)))
}

/// What an index reads back as once encoded: the same depth, buckets and
/// directory, each text without its trailing null characters.
pub open spec fn stored_index_image(h: HashAlt1) -> (u8, Seq<BucketImage>, Seq<usize>) {
    (h.global_depth, h.buckets@.map_values(|bk: BucketAlt1| stored_bucket_image(bk)), h.directory@)
}

/// An index whose encoding reads back: labels that fit, and no text made of
/// nulls alone.
pub open spec fn encodable(h: HashAlt1) -> bool {
    &&& h.buckets@.len() <= u16::MAX
    &&& forall|c: int| 0 <= c < h.buckets@.len() ==> label_fits((#[trigger] h.buckets@[c]).name@)
    &&& forall|c: int, j: int|
        0 <= c < h.buckets@.len() && 0 <= j < h.buckets@[c].data@.len() ==> trim_nulls(
            (#[trigger] h.buckets@[c].data@[j]).text@,
        ).len() > 0
}

proof fn lemma_buckets_prefix(bs: Seq<BucketAlt1>, j: nat, m: nat)
    requires
        j <= m,
    ensures
        buckets_bytes(bs, j).len() <= buckets_bytes(bs, m).len(),
        buckets_bytes(bs, m).subrange(0, buckets_bytes(bs, j).len() as int) == buckets_bytes(bs, j),
    decreases m,
{
    if j < m {
        lemma_buckets_prefix(bs, j, (m - 1) as nat);
        assert(buckets_bytes(bs, m).subrange(0, buckets_bytes(bs, j).len() as int) =~= buckets_bytes(
            bs,
            (m - 1) as nat,
        ).subrange(0, buckets_bytes(bs, j).len() as int));
    } else {
        assert(buckets_bytes(bs, m).subrange(0, buckets_bytes(bs, j).len() as int) =~= buckets_bytes(bs, j));
    }
}

proof fn lemma_dir_chunk(d: Seq<usize>, n: nat, i: int)
    requires
        0 <= i < n,
    ensures
        dir_bytes(d, n).len() == 2 * n,
        dir_bytes(d, n)[2 * i] == u16_be(d[i] as u16)[0],
        dir_bytes(d, n)[2 * i + 1] == u16_be(d[i] as u16)[1],
    decreases n,
{
    lemma_dir_len(d, (n - 1) as nat);
    if i < n - 1 {
        lemma_dir_chunk(d, (n - 1) as nat, i);
    }
}

proof fn lemma_dir_len(d: Seq<usize>, n: nat)
    ensures
        dir_bytes(d, n).len() == 2 * n,
    decreases n,
{
    if n > 0 {
        lemma_dir_len(d, (n - 1) as nat);
    }
}

/// Bucket `c` of an encodable index meets the conditions of
/// `lemma_bucket_round_trip`.
proof fn lemma_bucket_encodable(h: HashAlt1, c: int)
    requires
        h.wf(),
        encodable(h),
        0 <= c < h.buckets@.len(),
    ensures
        label_fits(h.buckets@[c].name@),
        h.buckets@[c].data@.len() <= h.buckets@[c].size,
        forall|t: int|
            0 <= t < h.buckets@[c].data@.len() ==> text_bytes((#[trigger] h.buckets@[c].data@[t]).text@).len()
                <= TEXT_LEN && trim_nulls(h.buckets@[c].data@[t].text@).len() > 0,
{
    assert(h.bucket_ok(c));
    assert forall|t: int| 0 <= t < h.buckets@[c].data@.len() implies text_bytes(
        (#[trigger] h.buckets@[c].data@[t]).text@,
    ).len() <= TEXT_LEN && trim_nulls(h.buckets@[c].data@[t].text@).len() > 0 by {
        assert(trim_nulls(h.buckets@[c].data@[t].text@).len() > 0);
    }
}

/// Bucket `j - 1` sits in the encoding of an index right after buckets
/// `0..j - 1`.
proof fn lemma_bucket_in_index(h: HashAlt1, j: nat)
    requires
        0 < j <= h.buckets@.len(),
    ensures
        ({
            let p = 3 + buckets_bytes(h.buckets@, (j - 1) as nat).len();
            let l = bucket_bytes(h.buckets@[j - 1]).len();
            &&& p + l <= index_bytes(h).len()
            &&& index_bytes(h).subrange(p as int, (p + l) as int) == bucket_bytes(h.buckets@[j - 1])
        }),
{
    let b = index_bytes(h);
    let bs = h.buckets@;
    let m = bs.len();
    lemma_buckets_prefix(bs, (j - 1) as nat, j);
    lemma_buckets_prefix(bs, j, m);
    let bk = bs[j - 1];
    let p: int = 3 + buckets_bytes(bs, (j - 1) as nat).len() as int;
    let l: int = bucket_bytes(bk).len() as int;
    let all = buckets_bytes(bs, m);
    assert(b.subrange(3, 3 + all.len() as int) =~= all);
    assert(buckets_bytes(bs, j) == buckets_bytes(bs, (j - 1) as nat) + bucket_bytes(bk));
    assert(b.subrange(p as int, (p + l) as int) =~= bucket_bytes(bk)) by {
        assert forall|i: int| 0 <= i < l implies b.subrange(p as int, (p + l) as int)[i] == bucket_bytes(bk)[i] by {
            let o = buckets_bytes(bs, (j - 1) as nat).len() + i;
            assert(b[p + i] == b.subrange(3, 3 + all.len() as int)[o]);
            assert(all[o] == all.subrange(0, buckets_bytes(bs, j).len() as int)[o]);
            assert(buckets_bytes(bs, j)[o] == bucket_bytes(bk)[i]);
        }
    }
}

proof fn lemma_parse_buckets_round_trip(h: HashAlt1, j: nat)
    requires
        h.wf(),
        encodable(h),
        j <= h.buckets@.len(),
    ensures
        parse_buckets(index_bytes(h), 3, j) == Some(
            (
                h.buckets@.take(j as int).map_values(|bk: BucketAlt1| stored_bucket_image(bk)),
                3 + buckets_bytes(h.buckets@, j).len() as int,
            ),
        ),
    decreases j,
{
    let bs = h.buckets@;
    if j == 0 {
        assert(bs.take(0).map_values(|bk: BucketAlt1| stored_bucket_image(bk)) =~= Seq::<BucketImage>::empty());
    } else {
        lemma_parse_buckets_round_trip(h, (j - 1) as nat);
        lemma_bucket_in_index(h, j);
        lemma_bucket_encodable(h, j - 1);
        let p: int = 3 + buckets_bytes(bs, (j - 1) as nat).len() as int;
        lemma_bucket_round_trip(index_bytes(h), p, bs[j - 1]);
        assert(bs.take(j as int).map_values(|bk: BucketAlt1| stored_bucket_image(bk)) =~= bs.take(
            j - 1,
        ).map_values(|bk: BucketAlt1| stored_bucket_image(bk)).push(stored_bucket_image(bs[j - 1])));
    }
}

/// The encoding of an index reads back field by field as its stored image,
/// and that image is well-formed: `HashAlt1::deserialize(&h.serialize())`
/// returns `Ok`, with an index whose image this is.
pub proof fn lemma_encode_parse(h: HashAlt1)
    requires
        h.wf(),
        encodable(h),
    ensures
        parse_index(index_bytes(h)) == Some(stored_index_image(h)),
        image_wf(stored_index_image(h)),
{
    let b = index_bytes(h);
    let bs = h.buckets@;
    let m = bs.len();
    let d = h.directory@;
    let n = d.len();
    h.lemma_dir_small();
    lemma_parse_buckets_round_trip(h, m);
    assert(bs.take(m as int) =~= bs);
    let q: int = 3 + buckets_bytes(bs, m).len() as int;
    lemma_dir_len(d, n);
    lemma_u16_round_trip(m as u16);
    lemma_u16_round_trip(n as u16);
    assert(u16_at(b, 1) == m as u16);
    assert(u16_at(b, q) == n as u16);
    let dir = Seq::new(n as nat, |i: int| u16_at(b, q + 2 + 2 * i) as usize);
    assert forall|i: int| 0 <= i < n implies dir[i] == d[i] by {
        lemma_dir_chunk(d, n, i);
        lemma_u16_round_trip(d[i] as u16);
        assert(d[i] < m);
    }
    assert(dir =~= d);
    let img = stored_index_image(h);
    assert(parse_index(b) == Some(img));
    let bi = bs.map_values(|bk: BucketAlt1| stored_bucket_image(bk));
    assert(img.1 == bi);
    assert(bi.len() == m);
    assert forall|c: int| 0 <= c < m implies #[trigger] image_bucket_ok(img, c) by {
        assert(h.bucket_ok(c));
        assert(bi[c] == stored_bucket_image(bs[c]));
        let dd = bs[c].data@;
        let mm = dd.map_values(|r: Record| stored_image(r));
        assert(img.1[c].3 == mm);
        assert(mm.len() == dd.len());
        assert forall|j: int| 0 <= j < dd.len() implies (#[trigger] mm[j]).0 == dd[j].nseq && mm[j].1 == trim_nulls(
            dd[j].text@,
        ) by {
            assert(mm[j] == stored_image(dd[j]));
        }
        assert forall|i: int, j: int|
            0 <= i < mm.len() && 0 <= j < mm.len() && i != j implies (#[trigger] mm[i]).0 != (#[trigger] mm[j]).0 by {
            assert(dd[i].nseq != dd[j].nseq);
        }
        assert forall|j: int| 0 <= j < mm.len() implies image_home(img, (#[trigger] mm[j]).0) == c by {
            assert(h.home(dd[j].nseq) == c);
        }
        assert forall|j: int| 0 <= j < mm.len() implies text_bytes((#[trigger] mm[j]).1).len() <= TEXT_LEN by {
            crate::text::lemma_trim_encode(dd[j].text@);
            crate::bucket_alt1::lemma_trim_shrinks(text_bytes(dd[j].text@));
        }
    }
}

/// Encoding an index and reading it back gives an index that is well-formed
/// and answers every search as the encoded one does: the same keys at the same
/// bucket and position, each text without its trailing null characters.
pub proof fn lemma_encode_decode(h: HashAlt1, h2: HashAlt1)
    requires
        h.wf(),
        encodable(h),
        index_image(h2) == stored_index_image(h),
    ensures
        parse_index(index_bytes(h)) == Some(stored_index_image(h)),
        image_wf(stored_index_image(h)),
        h2.wf(),
        h2.global_depth == h.global_depth,
        h2.directory@ == h.directory@,
        h2.buckets@.len() == h.buckets@.len(),
        forall|k: i32, j: int| #[trigger] h2.holds_at(k, j) == h.holds_at(k, j),
        forall|k: i32| #[trigger] h2@.contains_key(k) == h@.contains_key(k),
        forall|k: i32| #[trigger] h@.contains_key(k) ==> h2@[k] == trim_nulls(h@[k]),
{
    lemma_encode_parse(h);
    let bs = h.buckets@;
    let m = bs.len();
    let img = stored_index_image(h);
    // the image of `h2` is that of `h` with shorter texts
    let i2 = index_image(h2);
    assert(h2.buckets@.map_values(|bk: BucketAlt1| bucket_image(bk)).len() == h2.buckets@.len());
    assert(bs.map_values(|bk: BucketAlt1| stored_bucket_image(bk)).len() == m);
    assert(i2.1 == img.1);
    assert(h2.buckets@.len() == m);
    assert forall|c: int, j: int|
        0 <= c < m && 0 <= j < bs[c].data@.len() implies h2.buckets@[c].data@.len() == bs[c].data@.len()
        && (#[trigger] h2.buckets@[c].data@[j]).nseq == bs[c].data@[j].nseq && h2.buckets@[c].data@[j].text@
        == trim_nulls(bs[c].data@[j].text@) by {
        assert(i2.1[c] == bucket_image(h2.buckets@[c]));
        assert(img.1[c] == stored_bucket_image(bs[c]));
        let m2 = h2.buckets@[c].data@.map_values(|x: Record| record_image(x));
        let m1 = bs[c].data@.map_values(|r: Record| stored_image(r));
        assert(m2 == m1);
        assert(m2.len() == h2.buckets@[c].data@.len());
        assert(m1.len() == bs[c].data@.len());
        assert(m2[j] == record_image(h2.buckets@[c].data@[j]));
        assert(m1[j] == stored_image(bs[c].data@[j]));
    }
    assert forall|c: int| 0 <= c < m implies h2.buckets@[c].data@.len() == bs[c].data@.len()
        && h2.buckets@[c].size == bs[c].size && h2.buckets@[c].local_depth == bs[c].local_depth by {
        assert(i2.1[c] == bucket_image(h2.buckets@[c]));
        assert(img.1[c] == stored_bucket_image(bs[c]));
        let m2 = h2.buckets@[c].data@.map_values(|x: Record| record_image(x));
        let m1 = bs[c].data@.map_values(|r: Record| stored_image(r));
        assert(m2 == m1);
        assert(m2.len() == h2.buckets@[c].data@.len());
        assert(m1.len() == bs[c].data@.len());
    }
    assert forall|k: i32| #[trigger] h2.home(k) == h.home(k) by {}
    assert forall|k: i32, j: int| #[trigger] h2.holds_at(k, j) == h.holds_at(k, j) by {
        h.lemma_home_in_range(k);
    }
    assert forall|c: int| 0 <= c < h2.buckets@.len() implies #[trigger] h2.bucket_ok(c) by {
        assert(h.bucket_ok(c));
        let d1 = bs[c].data@;
        let d2 = h2.buckets@[c].data@;
        assert forall|j: int| 0 <= j < d2.len() implies text_bytes((#[trigger] d2[j]).text@).len() <= TEXT_LEN by {
            crate::text::lemma_trim_encode(d1[j].text@);
            crate::bucket_alt1::lemma_trim_shrinks(text_bytes(d1[j].text@));
        }
        assert forall|j: int| 0 <= j < d2.len() implies h2.home((#[trigger] d2[j]).nseq) == c by {
            assert(d2[j].nseq == d1[j].nseq);
        }
        assert forall|i: int, j: int|
            0 <= i < d2.len() && 0 <= j < d2.len() && i != j implies (#[trigger] d2[i]).nseq != (#[trigger] d2[j]).nseq by {
            assert(d2[i].nseq == d1[i].nseq);
            assert(d2[j].nseq == d1[j].nseq);
        }
    }
    assert(h2.wf());
    HashAlt1::lemma_wf_image(h2);
    assert forall|k: i32| #[trigger] h2@.contains_key(k) == h@.contains_key(k) by {
        if h@.contains_key(k) {
            let j = choose|j: int| h.holds_at(k, j);
            assert(h.holds_at(k, j));
            assert(h2.holds_at(k, j));
        }
        if h2@.contains_key(k) {
            let j = choose|j: int| h2.holds_at(k, j);
            assert(h2.holds_at(k, j));
            assert(h.holds_at(k, j));
        }
    }
    assert forall|k: i32| #[trigger] h@.contains_key(k) implies h2@[k] == trim_nulls(h@[k]) by {
        let j = choose|j: int| h.holds_at(k, j);
        assert(h.holds_at(k, j));
        assert(h2.holds_at(k, j));
        h.lemma_view_at(k, j);
        h2.lemma_view_at(k, j);
        h.lemma_home_in_range(k);
    }
}

} // verus!
