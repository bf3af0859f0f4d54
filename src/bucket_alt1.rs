//! A bucket of the primary index: at most `size` records and a local depth.

use vstd::prelude::*;

use crate::codec::{
    lemma_i32_round_trip,
    copy_range, field, i32_at, i32_be, nonzero_bytes, push_field, push_i32_be, push_zeros, read_i32_be,
    strip_zeros, trim_zeros, trimmed_len, DecodeError,
};
use crate::record::{has_key, is_first_key, Record};
use crate::text::{
    ascii_chars, ascii_string, bytes_of, lemma_trim_encode, string_from_utf8, text_bytes, trim_nulls, TEXT_LEN,
};
use vstd::utf8::{
    decode_utf8, encode_utf8, encode_utf8_decode_utf8, encode_utf8_valid_utf8, is_ascii_chars,
    is_ascii_chars_encode_utf8, valid_utf8,
};

verus! {

/// A capacity-bounded, ordered list of records with a display label and a
/// local depth.
pub struct BucketAlt1 {
    pub name: String,
    pub local_depth: u8,
    pub data: Vec<Record>,
    pub size: u8,
}

/// Bytes of a bucket header: three of label, local depth, capacity.
pub const HEADER_LEN: usize = 5;

/// Bytes of a record slot: four of key, `TEXT_LEN` of text.
pub const SLOT_LEN: usize = 100;

/// The slot of a record: its key, then its text zero-padded to `TEXT_LEN`.
pub open spec fn record_bytes(r: Record) -> Seq<u8> {
    i32_be(r.nseq) + field(text_bytes(r.text@), TEXT_LEN as nat)
}

/// The first `n` slots of a bucket holding `d`; slots past `d` are zeros.
pub open spec fn slots_bytes(d: Seq<Record>, n: nat) -> Seq<u8>
    decreases n,
{
    if n == 0 {
        Seq::empty()
    } else {
        slots_bytes(d, (n - 1) as nat) + if n - 1 < d.len() {
            record_bytes(d[n - 1])
        } else {
            Seq::new(SLOT_LEN as nat, |i: int| 0u8)
        }
    }
}

/// The encoding of a bucket: label, local depth, capacity, then `size` slots.
pub open spec fn encoded_bucket(name: Seq<char>, local_depth: u8, size: u8, d: Seq<Record>) -> Seq<u8> {
    field(text_bytes(name), 3) + seq![local_depth, size] + slots_bytes(d, size as nat)
}

pub open spec fn bucket_bytes(bk: BucketAlt1) -> Seq<u8> {
    encoded_bucket(bk.name@, bk.local_depth, bk.size, bk.data@)
}

/// The key and the text of a record.
pub open spec fn record_image(r: Record) -> (i32, Seq<char>) {
    (r.nseq, r.text@)
}

/// The text bytes of the slot at `q`, trailing zeros cut.
pub open spec fn slot_text(b: Seq<u8>, q: int) -> Seq<u8> {
    trim_zeros(b.subrange(q + 4, q + SLOT_LEN))
}

/// The records read from `n` slots starting at `p`: a slot whose text is
/// empty is no record; a text that is not UTF-8 spoils the whole read.
pub open spec fn parse_slots(b: Seq<u8>, p: int, n: nat) -> Option<Seq<(i32, Seq<char>)>>
    decreases n,
{
    if n == 0 {
        Some(Seq::empty())
    } else {
        match parse_slots(b, p, (n - 1) as nat) {
            None => None,
            Some(prev) => {
                let q = p + SLOT_LEN * (n - 1);
                let t = slot_text(b, q);
                if t.len() == 0 {
                    Some(prev)
                } else if !valid_utf8(t) {
                    None
                } else {
                    Some(prev.push((i32_at(b, q), decode_utf8(t))))
                }
            },
        }
    }
}

pub open spec fn is_ascii_bytes(b: Seq<u8>) -> bool {
    forall|i: int| 0 <= i < b.len() ==> b[i] < 128
}

/// The bucket encoded at `p`: label (its zero bytes dropped), local depth,
/// capacity, records, and where the encoding ends.
pub open spec fn parse_bucket(b: Seq<u8>, p: int) -> Option<(Seq<char>, u8, u8, Seq<(i32, Seq<char>)>, int)> {
    if p + HEADER_LEN > b.len() {
        None
    } else {
        let size = b[p + 4];
        let end = p + HEADER_LEN + SLOT_LEN * size;
        let nm = strip_zeros(b.subrange(p, p + 3));
        if end > b.len() || !is_ascii_bytes(nm) {
            None
        } else {
            match parse_slots(b, p + HEADER_LEN, size as nat) {
                None => None,
                Some(d) => Some((ascii_chars(nm), b[p + 3], size, d, end)),
            }
        }
    }
}

proof fn lemma_parse_slots_none(b: Seq<u8>, p: int, j: nat, n: nat)
    requires
        j <= n,
        parse_slots(b, p, j) is None,
    ensures
        parse_slots(b, p, n) is None,
    decreases n - j,
{
    if j < n {
        lemma_parse_slots_none(b, p, j + 1, n);
    }
}

/// Whether every byte of `b` is ASCII.
pub(crate) fn all_ascii(b: &Vec<u8>) -> (r: bool)
    ensures
        r == is_ascii_bytes(b@),
{
    let mut i: usize = 0;
    while i < b.len()
        invariant
            i <= b@.len(),
            forall|t: int| 0 <= t < i ==> b@[t] < 128,
        decreases b@.len() - i,
    {
        if b[i] >= 128 {
            return false;
        }
        i = i + 1;
    }
    true
}

/// What a record reads back as once encoded: its key, and its text without
/// the trailing null characters.
pub open spec fn stored_image(r: Record) -> (i32, Seq<char>) {
    (r.nseq, trim_nulls(r.text@))
}

/// Slot `j` of a bucket holding `d`.
pub open spec fn slot_at(d: Seq<Record>, j: int) -> Seq<u8> {
    if j < d.len() {
        record_bytes(d[j])
    } else {
        Seq::new(SLOT_LEN as nat, |i: int| 0u8)
    }
}

proof fn lemma_trim_field(tb: Seq<u8>, w: nat)
    requires
        tb.len() <= w,
    ensures
        trim_zeros(field(tb, w)) == trim_zeros(tb),
    decreases w - tb.len(),
{
    if tb.len() < w {
        assert(field(tb, w).drop_last() =~= field(tb, (w - 1) as nat));
        lemma_trim_field(tb, (w - 1) as nat);
    } else {
        assert(field(tb, w) =~= tb);
    }
}

proof fn lemma_slots_chunk(d: Seq<Record>, n: nat, j: int)
    requires
        0 <= j < n,
    ensures
        slots_bytes(d, n).len() == SLOT_LEN * n,
        slots_bytes(d, n).subrange(SLOT_LEN * j, SLOT_LEN * j + SLOT_LEN) == slot_at(d, j),
    decreases n,
{
    lemma_slots_len(d, (n - 1) as nat);
    if j < n - 1 {
        lemma_slots_chunk(d, (n - 1) as nat, j);
        assert(slots_bytes(d, n).subrange(SLOT_LEN * j, SLOT_LEN * j + SLOT_LEN) =~= slots_bytes(
            d,
            (n - 1) as nat,
        ).subrange(SLOT_LEN * j, SLOT_LEN * j + SLOT_LEN));
    } else {
        assert(slots_bytes(d, n).subrange(SLOT_LEN * j, SLOT_LEN * j + SLOT_LEN) =~= slot_at(d, j));
    }
}

proof fn lemma_slots_len(d: Seq<Record>, n: nat)
    ensures
        slots_bytes(d, n).len() == SLOT_LEN * n,
    decreases n,
{
    if n > 0 {
        lemma_slots_len(d, (n - 1) as nat);
    }
}

/// The records that slot-by-slot reading finds in the encoding of `d`.
proof fn lemma_parse_slots_round_trip(b: Seq<u8>, p: int, d: Seq<Record>, size: nat, n: nat)
    requires
        0 <= p,
        p + SLOT_LEN * size <= b.len(),
        b.subrange(p, p + SLOT_LEN * size) == slots_bytes(d, size),
        n <= size,
        d.len() <= size,
        forall|j: int|
            0 <= j < d.len() ==> text_bytes((#[trigger] d[j]).text@).len() <= TEXT_LEN && trim_nulls(
                d[j].text@,
            ).len() > 0,
    ensures
        parse_slots(b, p, n) == Some(
            d.take(if n < d.len() { n as int } else { d.len() as int }).map_values(|r: Record| stored_image(r)),
        ),
    decreases n,
{
    if n > 0 {
        lemma_parse_slots_round_trip(b, p, d, size, (n - 1) as nat);
        let j = n - 1;
        let q = p + SLOT_LEN * j;
        lemma_slots_chunk(d, size, j);
        assert(b.subrange(q, q + SLOT_LEN) =~= slot_at(d, j)) by {
            assert forall|i: int| 0 <= i < SLOT_LEN implies b.subrange(q, q + SLOT_LEN)[i] == slot_at(d, j)[i] by {
                assert(b.subrange(q, q + SLOT_LEN)[i] == b[q + i]);
                assert(b[q + i] == b.subrange(p, p + SLOT_LEN * size)[SLOT_LEN * j + i]);
                assert(slots_bytes(d, size)[SLOT_LEN * j + i] == slots_bytes(d, size).subrange(
                    SLOT_LEN * j,
                    SLOT_LEN * j + SLOT_LEN,
                )[i]);
            }
        }
        assert(b.subrange(q + 4, q + SLOT_LEN) =~= slot_at(d, j).subrange(4, SLOT_LEN as int));
        let prev_n = if n - 1 < d.len() { (n - 1) as int } else { d.len() as int };
        if j < d.len() {
            let r = d[j];
            let tb = text_bytes(r.text@);
            assert(slot_at(d, j).subrange(4, SLOT_LEN as int) =~= field(tb, TEXT_LEN as nat));
            lemma_trim_field(tb, TEXT_LEN as nat);
            lemma_trim_encode(r.text@);
            let t = trim_nulls(r.text@);
            assert(slot_text(b, q) == encode_utf8(t));
            encode_utf8_valid_utf8(t);
            encode_utf8_decode_utf8(t);
            assert(encode_utf8(t).len() > 0) by {
                assert(encode_utf8(t) == vstd::utf8::encode_scalar(t[0] as u32) + encode_utf8(t.drop_first()));
            }
            assert(i32_at(b, q) == r.nseq) by {
                lemma_i32_round_trip(r.nseq);
                assert forall|i: int| 0 <= i < 4 implies b[q + i] == i32_be(r.nseq)[i] by {
                    assert(b[q + i] == b.subrange(q, q + SLOT_LEN)[i]);
                    assert(slot_at(d, j)[i] == record_bytes(r)[i]);
                }
                assert(b[q] == i32_be(r.nseq)[0]);
                assert(b[q + 1] == i32_be(r.nseq)[1]);
                assert(b[q + 2] == i32_be(r.nseq)[2]);
                assert(b[q + 3] == i32_be(r.nseq)[3]);
            }
            assert(d.take(j + 1).map_values(|r: Record| stored_image(r)) =~= d.take(j).map_values(
                |r: Record| stored_image(r),
            ).push(stored_image(r)));
        } else {
            assert(slot_at(d, j).subrange(4, SLOT_LEN as int) =~= field(Seq::<u8>::empty(), TEXT_LEN as nat));
            lemma_trim_field(Seq::<u8>::empty(), TEXT_LEN as nat);
        }
    } else {
        assert(d.take(0).map_values(|r: Record| stored_image(r)) =~= Seq::<(i32, Seq<char>)>::empty());
    }
}

/// Cutting trailing zero bytes never makes a sequence longer.
pub proof fn lemma_trim_shrinks(b: Seq<u8>)
    ensures
        trim_zeros(b).len() <= b.len(),
    decreases b.len(),
{
    if b.len() > 0 && b.last() == 0 {
        lemma_trim_shrinks(b.drop_last());
    }
}

/// A label that survives encoding: at most three ASCII characters, none of
/// them null.
pub open spec fn label_fits(name: Seq<char>) -> bool {
    &&& name.len() <= 3
    &&& is_ascii_chars(name)
    &&& forall|i: int| 0 <= i < name.len() ==> name[i] != '\0'
}

/// A bucket with a fitting label, within capacity, whose texts fit and are
/// not all nulls, reads back from its encoding with the same label, depth,
/// capacity and keys, and each text without its trailing nulls.
pub proof fn lemma_bucket_round_trip(b: Seq<u8>, p: int, bk: BucketAlt1)
    requires
        0 <= p,
        p + bucket_bytes(bk).len() <= b.len(),
        b.subrange(p, p + bucket_bytes(bk).len()) == bucket_bytes(bk),
        label_fits(bk.name@),
        bk.data@.len() <= bk.size,
        forall|j: int|
            0 <= j < bk.data@.len() ==> text_bytes((#[trigger] bk.data@[j]).text@).len() <= TEXT_LEN
                && trim_nulls(bk.data@[j].text@).len() > 0,
    ensures
        bucket_bytes(bk).len() == HEADER_LEN + SLOT_LEN * bk.size,
        parse_bucket(b, p) == Some(
            (
                bk.name@,
                bk.local_depth,
                bk.size,
                bk.data@.map_values(|r: Record| stored_image(r)),
                p + HEADER_LEN + SLOT_LEN * bk.size,
            ),
        ),
{
    let bb = bucket_bytes(bk);
    let size = bk.size as nat;
    lemma_slots_len(bk.data@, size);
    let nb = text_bytes(bk.name@);
    is_ascii_chars_encode_utf8(bk.name@);
    assert(b[p + 3] == bb[3]);
    assert(b[p + 4] == bb[4]);
    assert(b.subrange(p, p + 3) =~= field(nb, 3)) by {
        assert forall|i: int| 0 <= i < 3 implies b.subrange(p, p + 3)[i] == field(nb, 3)[i] by {
            assert(b[p + i] == bb[i]);
        }
    }
    assert(strip_zeros(field(nb, 3)) == nb) by {
        lemma_strip_field(nb, 3);
    }
    assert(ascii_chars(nb) =~= bk.name@);
    let q = p + HEADER_LEN;
    assert(b.subrange(q, q + SLOT_LEN * size) =~= slots_bytes(bk.data@, size)) by {
        assert forall|i: int| 0 <= i < SLOT_LEN * size implies b.subrange(q, q + SLOT_LEN * size)[i]
            == slots_bytes(bk.data@, size)[i] by {
            assert(b[q + i] == bb[HEADER_LEN + i]);
        }
    }
    lemma_parse_slots_round_trip(b, q, bk.data@, size, size);
    assert(bk.data@.take(bk.data@.len() as int) =~= bk.data@);
}

/// Dropping the zero bytes of a zero-padded field of nonzero bytes gives the
/// bytes back.
proof fn lemma_strip_field(nb: Seq<u8>, w: nat)
    requires
        nb.len() <= w,
        forall|i: int| 0 <= i < nb.len() ==> nb[i] != 0,
    ensures
        strip_zeros(field(nb, w)) == nb,
    decreases w,
{
    if w > 0 {
        if nb.len() == w {
            assert(field(nb, w).drop_last() =~= field(nb.drop_last(), (w - 1) as nat));
            lemma_strip_field(nb.drop_last(), (w - 1) as nat);
            assert(nb.drop_last().push(nb.last()) =~= nb);
        } else {
            assert(field(nb, w).drop_last() =~= field(nb, (w - 1) as nat));
            lemma_strip_field(nb, (w - 1) as nat);
        }
    } else {
        assert(field(nb, 0) =~= Seq::<u8>::empty());
        assert(nb =~= Seq::<u8>::empty());
    }
}

impl BucketAlt1 {
    /// An empty bucket.
    pub fn new(name: String, local_depth: u8, size: u8) -> (r: Self)
        ensures
            r.name == name,
            r.local_depth == local_depth,
            r.size == size,
            r.data@.len() == 0,
    {
        BucketAlt1 { name, local_depth, data: Vec::new(), size }
    }

    /// Appends `r` unless the bucket is already full; says whether it did.
    pub fn insert(&mut self, r: Record) -> (ok: bool)
        ensures
            ok == (old(self).data@.len() < old(self).size),
            ok ==> final(self).data@ == old(self).data@.push(r),
            !ok ==> final(self).data@ == old(self).data@,
            final(self).name == old(self).name,
            final(self).local_depth == old(self).local_depth,
            final(self).size == old(self).size,
    {
        if self.data.len() >= self.size as usize {
            return false;
        }
        self.data.push(r);
        true
    }

    /// Position of the first record with key `key`.
    pub fn search(&self, key: i32) -> (r: Option<usize>)
        ensures
            r is None <==> !has_key(self.data@, key),
            r matches Some(i) ==> is_first_key(self.data@, key, i as int),
    {
        let mut i: usize = 0;
        while i < self.data.len()
            invariant
                i <= self.data@.len(),
                forall|j: int| 0 <= j < i ==> (#[trigger] self.data@[j]).nseq != key,
            decreases self.data@.len() - i,
        {
            if self.data[i].nseq == key {
                return Some(i);
            }
            i = i + 1;
        }
        None
    }

    /// Takes out the first record with key `key` and returns it.
    pub fn remove(&mut self, key: i32) -> (r: Option<Record>)
        ensures
            r is None <==> !has_key(old(self).data@, key),
            r is None ==> final(self).data@ == old(self).data@,
            r matches Some(x) ==> exists|i: int|
                is_first_key(old(self).data@, key, i) && x == old(self).data@[i]
                    && final(self).data@ == old(self).data@.remove(i),
            final(self).name == old(self).name,
            final(self).local_depth == old(self).local_depth,
            final(self).size == old(self).size,
    {
        match self.search(key) {
            Some(i) => {
                let x = self.data.remove(i);
                Some(x)
            },
            None => None,
        }
    }

    /// The fixed-width encoding of the bucket.
    pub fn serialize(&self) -> (r: Vec<u8>)
        ensures
            r@ == bucket_bytes(*self),
    {
        let mut encoded: Vec<u8> = Vec::new();
        let name = bytes_of(&self.name);
        push_field(&mut encoded, &name, 3);
        encoded.push(self.local_depth);
        encoded.push(self.size);
        let ghost head = encoded@;
        assert(head =~= field(text_bytes(self.name@), 3) + seq![self.local_depth, self.size]);
        let mut i: usize = 0;
        while i < self.size as usize
            invariant
                i <= self.size,
                encoded@ == head + slots_bytes(self.data@, i as nat),
            decreases self.size - i,
        {
            let ghost before = encoded@;
            if i < self.data.len() {
                push_i32_be(&mut encoded, self.data[i].nseq);
                let t = bytes_of(&self.data[i].text);
                push_field(&mut encoded, &t, TEXT_LEN);
                assert(encoded@ =~= before + record_bytes(self.data@[i as int]));
            } else {
                push_zeros(&mut encoded, SLOT_LEN);
            }
            i = i + 1;
            assert(encoded@ =~= head + slots_bytes(self.data@, i as nat));
        }
        encoded
    }

    /// Reads the bucket encoded at `start`, and where its encoding ends.
    pub fn deserialize(bytes: &Vec<u8>, start: usize) -> (r: Result<(BucketAlt1, usize), DecodeError>)
        ensures
            match r {
                Ok((bk, end)) => parse_bucket(bytes@, start as int) == Some(
                    (bk.name@, bk.local_depth, bk.size, bk.data@.map_values(|x: Record| record_image(x)), end as int),
                ),
                Err(_) => parse_bucket(bytes@, start as int) is None,
            },
    {
        let len = bytes.len();
        if start > len || len - start < HEADER_LEN {
            return Err(DecodeError::MalformedPersistedState);
        }
        let size = bytes[start + 4];
        let total: usize = HEADER_LEN + SLOT_LEN * (size as usize);
        if len - start < total {
            return Err(DecodeError::MalformedPersistedState);
        }
        let nm = nonzero_bytes(bytes, start, 3);
        if !all_ascii(&nm) {
            return Err(DecodeError::MalformedPersistedState);
        }
        let name = ascii_string(nm);
        let mut data: Vec<Record> = Vec::new();
        let mut q: usize = start + HEADER_LEN;
        let mut j: usize = 0;
        while j < size as usize
            invariant
                len == bytes@.len(),
                start + total <= len,
                size == bytes@[start + 4],
                is_ascii_bytes(strip_zeros(bytes@.subrange(start as int, start + 3))),
                total == HEADER_LEN + SLOT_LEN * size,
                j <= size,
                q == start + HEADER_LEN + SLOT_LEN * j,
                parse_slots(bytes@, start + HEADER_LEN, j as nat) == Some(
                    data@.map_values(|x: Record| record_image(x)),
                ),
            decreases size - j,
        {
            let key = read_i32_be(bytes, q);
            let m = trimmed_len(bytes, q + 4, TEXT_LEN);
            let ghost prev = data@.map_values(|x: Record| record_image(x));
            if m > 0 {
                let tb = copy_range(bytes, q + 4, m);
                match string_from_utf8(tb) {
                    Some(t) => {
                        data.push(Record { nseq: key, text: t });
                        assert(data@.map_values(|x: Record| record_image(x)) =~= prev.push(
                            (key, decode_utf8(slot_text(bytes@, q as int))),
                        ));
                    },
                    None => {
                        proof {
                            assert(slot_text(bytes@, q as int) == bytes@.subrange(q + 4, q + 4 + m));
                            assert(parse_slots(bytes@, start + HEADER_LEN, (j + 1) as nat) is None);
                            lemma_parse_slots_none(bytes@, start + HEADER_LEN, (j + 1) as nat, size as nat);
                        }
                        return Err(DecodeError::MalformedPersistedState);
                    },
                }
            }
            q = q + SLOT_LEN;
            j = j + 1;
        }
        Ok((BucketAlt1 { name, local_depth: bytes[start + 3], size, data }, q))
    }
}

} // verus!
