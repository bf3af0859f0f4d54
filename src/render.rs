//! Text drawings of buckets and of an index, for people to read.

use vstd::prelude::*;
use vstd::utf8::{
    encode_utf8, encode_utf8_valid_utf8, is_ascii_chars,
    is_ascii_chars_encode_utf8, valid_utf8, valid_utf8_concat,
};

use crate::bucket_alt1::BucketAlt1;
use crate::hash_alt1::HashAlt1;
use crate::text::{bytes_of, string_from_utf8, text_bytes};

verus! {

pub open spec fn spaces(n: nat) -> Seq<u8> {
    Seq::new(n, |i: int| 32u8)
}

/// `s` centred in `w` columns; the odd space goes to the right.
pub open spec fn center(s: Seq<u8>, w: nat) -> Seq<u8> {
    if s.len() >= w {
        s
    } else {
        spaces(((w - s.len()) / 2) as nat) + s + spaces(((w - s.len()) - (w - s.len()) / 2) as nat)
    }
}

/// Decimal digits of `n`.
pub open spec fn digits(n: nat) -> Seq<u8>
    decreases n,
{
    if n < 10 {
        seq![(48 + n) as u8]
    } else {
        digits(n / 10).push((48 + n % 10) as u8)
    }
}

pub open spec fn decimal(x: int) -> Seq<u8> {
    if x < 0 {
        seq![45u8] + digits((-x) as nat)
    } else {
        digits(x as nat)
    }
}

/// Binary digits of `n`.
pub open spec fn bits(n: nat) -> Seq<u8>
    decreases n,
{
    if n < 2 {
        seq![(48 + n) as u8]
    } else {
        bits(n / 2).push((48 + n % 2) as u8)
    }
}

/// Binary digits of `n`, zero-padded on the left to `w`.
pub open spec fn binary(n: nat, w: nat) -> Seq<u8> {
    if bits(n).len() >= w {
        bits(n)
    } else {
        Seq::new((w - bits(n).len()) as nat, |i: int| 48u8) + bits(n)
    }
}

pub open spec fn is_ascii_seq(s: Seq<u8>) -> bool {
    forall|i: int| 0 <= i < s.len() ==> s[i] < 128
}

proof fn lemma_ascii_valid(s: Seq<u8>)
    requires
        is_ascii_seq(s),
    ensures
        valid_utf8(s),
{
    let c = Seq::new(s.len(), |i: int| s[i] as char);
    assert(is_ascii_chars(c));
    is_ascii_chars_encode_utf8(c);
    assert(encode_utf8(c) =~= s);
    encode_utf8_valid_utf8(c);
}

/// Appends ASCII bytes to a buffer that holds valid UTF-8.
fn push_ascii(v: &mut Vec<u8>, s: &Vec<u8>)
    requires
        valid_utf8(old(v)@),
        is_ascii_seq(s@),
    ensures
        final(v)@ == old(v)@ + s@,
        valid_utf8(final(v)@),
{
    let ghost v0 = v@;
    let mut i: usize = 0;
    while i < s.len()
        invariant
            i <= s@.len(),
            v@ == v0 + s@.take(i as int),
        decreases s@.len() - i,
    {
        v.push(s[i]);
        i = i + 1;
        assert(v@ =~= v0 + s@.take(i as int));
    }
    assert(s@.take(i as int) =~= s@);
    proof {
        lemma_ascii_valid(s@);
        valid_utf8_concat(v0, s@);
    }
}

fn spaces_vec(n: usize) -> (r: Vec<u8>)
    ensures
        r@ == spaces(n as nat),
        is_ascii_seq(r@),
{
    let mut r: Vec<u8> = Vec::new();
    let mut i: usize = 0;
    while i < n
        invariant
            i <= n,
            r@ == spaces(i as nat),
        decreases n - i,
    {
        r.push(32u8);
        i = i + 1;
        assert(r@ =~= spaces(i as nat));
    }
    r
}

fn digits_vec(n: u32) -> (r: Vec<u8>)
    ensures
        r@ == digits(n as nat),
        is_ascii_seq(r@),
    decreases n,
{
    if n < 10 {
        vec![(48 + n) as u8]
    } else {
        let mut v = digits_vec(n / 10);
        v.push((48 + n % 10) as u8);
        v
    }
}

fn decimal_vec(x: i32) -> (r: Vec<u8>)
    ensures
        r@ == decimal(x as int),
        is_ascii_seq(r@),
{
    if x < 0 {
        let m: i64 = -(x as i64);
        let mut v: Vec<u8> = vec![45u8];
        let d = digits_vec(m as u32);
        let ghost v0 = v@;
        let mut i: usize = 0;
        while i < d.len()
            invariant
                i <= d@.len(),
                v@ == v0 + d@.take(i as int),
            decreases d@.len() - i,
        {
            v.push(d[i]);
            i = i + 1;
            assert(v@ =~= v0 + d@.take(i as int));
        }
        assert(d@.take(i as int) =~= d@);
        v
    } else {
        digits_vec(x as u32)
    }
}

fn bits_vec(n: usize) -> (r: Vec<u8>)
    ensures
        r@ == bits(n as nat),
        is_ascii_seq(r@),
    decreases n,
{
    if n < 2 {
        vec![(48 + n) as u8]
    } else {
        let mut v = bits_vec(n / 2);
        v.push((48 + n % 2) as u8);
        v
    }
}

fn binary_vec(n: usize, w: usize) -> (r: Vec<u8>)
    ensures
        r@ == binary(n as nat, w as nat),
        is_ascii_seq(r@),
{
    let b = bits_vec(n);
    if b.len() >= w {
        return b;
    }
    let mut v: Vec<u8> = Vec::new();
    let k = w - b.len();
    let mut i: usize = 0;
    while i < k
        invariant
            i <= k,
            v@ == Seq::new(i as nat, |t: int| 48u8),
        decreases k - i,
    {
        v.push(48u8);
        i = i + 1;
        assert(v@ =~= Seq::new(i as nat, |t: int| 48u8));
    }
    let ghost v0 = v@;
    let mut j: usize = 0;
    while j < b.len()
        invariant
            j <= b@.len(),
            v@ == v0 + b@.take(j as int),
        decreases b@.len() - j,
    {
        v.push(b[j]);
        j = j + 1;
        assert(v@ =~= v0 + b@.take(j as int));
    }
    assert(b@.take(j as int) =~= b@);
    v
}

fn centered(s: Vec<u8>, w: usize) -> (r: Vec<u8>)
    requires
        is_ascii_seq(s@),
    ensures
        r@ == center(s@, w as nat),
        is_ascii_seq(r@),
{
    if s.len() >= w {
        return s;
    }
    let pad = w - s.len();
    let mut v = spaces_vec(pad / 2);
    proof {
        lemma_ascii_valid(v@);
    }
    push_ascii(&mut v, &s);
    let tail = spaces_vec(pad - pad / 2);
    push_ascii(&mut v, &tail);
    v
}

/// `+---+` repeated `n` times, sharing the joints.
pub open spec fn sep_line(n: nat) -> Seq<u8>
    decreases n,
{
    if n == 0 {
        seq![43u8]
    } else {
        sep_line((n - 1) as nat) + seq![45u8, 45u8, 45u8, 43u8]
    }
}

/// The first `n` cells of a bucket drawing: each key centred in three
/// columns, an empty slot as three spaces, each closed by `|`.
pub open spec fn cells(bk: BucketAlt1, n: nat) -> Seq<u8>
    decreases n,
{
    if n == 0 {
        Seq::empty()
    } else {
        cells(bk, (n - 1) as nat) + if n - 1 < bk.data@.len() {
            center(decimal(bk.data@[n - 1].nseq as int), 3)
        } else {
            spaces(3)
        } + seq![124u8]
    }
}

/// Line `r` of the drawing of a bucket: its local depth in a box, then its
/// slots between two rules with its label on the right; line 5 is blank.
pub open spec fn bucket_line(bk: BucketAlt1, r: int) -> Seq<u8> {
    if r == 0 {
        seq![43u8, 45u8, 45u8, 45u8, 43u8]
    } else if r == 1 {
        seq![124u8] + center(decimal(bk.local_depth as int), 3) + seq![124u8]
    } else if r == 2 || r == 4 {
        sep_line(bk.size as nat)
    } else if r == 3 {
        seq![124u8] + cells(bk, bk.size as nat) + seq![32u8] + text_bytes(bk.name@)
    } else {
        Seq::empty()
    }
}

/// Appends valid UTF-8 to a buffer that holds valid UTF-8.
fn push_valid(v: &mut Vec<u8>, s: &Vec<u8>)
    requires
        valid_utf8(old(v)@),
        valid_utf8(s@),
    ensures
        final(v)@ == old(v)@ + s@,
        valid_utf8(final(v)@),
{
    let ghost v0 = v@;
    let mut i: usize = 0;
    while i < s.len()
        invariant
            i <= s@.len(),
            v@ == v0 + s@.take(i as int),
        decreases s@.len() - i,
    {
        v.push(s[i]);
        i = i + 1;
        assert(v@ =~= v0 + s@.take(i as int));
    }
    assert(s@.take(i as int) =~= s@);
    proof {
        valid_utf8_concat(v0, s@);
    }
}

fn bucket_line_vec(bk: &BucketAlt1, r: usize) -> (v: Vec<u8>)
    ensures
        v@ == bucket_line(*bk, r as int),
        valid_utf8(v@),
{
    let mut v: Vec<u8> = Vec::new();
    proof {
        lemma_ascii_valid(v@);
    }
    if r == 0 {
        push_ascii(&mut v, &vec![43u8, 45u8, 45u8, 45u8, 43u8]);
    } else if r == 1 {
        push_ascii(&mut v, &vec![124u8]);
        push_ascii(&mut v, &centered(decimal_vec(bk.local_depth as i32), 3));
        push_ascii(&mut v, &vec![124u8]);
    } else if r == 2 || r == 4 {
        push_ascii(&mut v, &vec![43u8]);
        let mut i: usize = 0;
        while i < bk.size as usize
            invariant
                i <= bk.size,
                v@ == sep_line(i as nat),
                valid_utf8(v@),
            decreases bk.size - i,
        {
            push_ascii(&mut v, &vec![45u8, 45u8, 45u8, 43u8]);
            i = i + 1;
        }
    } else if r == 3 {
        push_ascii(&mut v, &vec![124u8]);
        let ghost head = v@;
        let mut i: usize = 0;
        while i < bk.size as usize
            invariant
                i <= bk.size,
                v@ == head + cells(*bk, i as nat),
                valid_utf8(v@),
            decreases bk.size - i,
        {
            if i < bk.data.len() {
                push_ascii(&mut v, &centered(decimal_vec(bk.data[i].nseq), 3));
            } else {
                push_ascii(&mut v, &spaces_vec(3));
            }
            push_ascii(&mut v, &vec![124u8]);
            i = i + 1;
            assert(v@ =~= head + cells(*bk, i as nat));
        }
        push_ascii(&mut v, &vec![32u8]);
        let name = bytes_of(&bk.name);
        proof {
            encode_utf8_valid_utf8(bk.name@);
        }
        push_valid(&mut v, &name);
    }
    assert(v@ =~= bucket_line(*bk, r as int));
    v
}

/// The drawing of a bucket: lines 0 to 4 of `bucket_line`.
pub open spec fn bucket_drawing(bk: BucketAlt1) -> Seq<u8> {
    bucket_line(bk, 0) + seq![10u8] + bucket_line(bk, 1) + seq![10u8] + bucket_line(bk, 2) + seq![10u8]
        + bucket_line(bk, 3) + seq![10u8] + bucket_line(bk, 4)
}

/// Columns taken by the directory side of an index drawing.
pub open spec fn table_len(h: HashAlt1) -> nat {
    (h.global_depth + 13) as nat
}

/// Line `t` of the directory side: the global depth in a box, then each slot
/// in binary with the label of its bucket.
pub open spec fn dir_line(h: HashAlt1, t: int) -> Seq<u8> {
    let pad = spaces((h.global_depth + 2) as nat);
    if t == 0 {
        pad + seq![43u8, 45u8, 45u8, 45u8, 43u8]
    } else if t == 1 {
        pad + seq![124u8] + center(decimal(h.global_depth as int), 3) + seq![124u8]
    } else if t == 2 {
        pad + seq![43u8, 45u8, 45u8, 45u8, 43u8, 45u8, 45u8, 45u8, 43u8]
    } else if (t - 3) % 2 == 0 {
        seq![32u8] + binary(((t - 3) / 2) as nat, h.global_depth as nat) + seq![32u8, 124u8] + center(
            text_bytes(h.buckets@[h.directory@[(t - 3) / 2] as int].name@),
            7,
        ) + seq![124u8]
    } else {
        pad + seq![43u8, 45u8, 45u8, 45u8, 45u8, 45u8, 45u8, 45u8, 43u8]
    }
}

pub open spec fn dir_line_count(h: HashAlt1) -> nat {
    3 + 2 * h.directory@.len()
}

pub open spec fn bucket_line_count(h: HashAlt1) -> nat {
    6 * h.buckets@.len()
}

/// Line `t` of an index drawing: the directory side padded to
/// `table_len`, then the bucket side, each blank once it has run out.
pub open spec fn merged_line(h: HashAlt1, t: int) -> Seq<u8> {
    let left = if t < dir_line_count(h) {
        dir_line(h, t)
    } else {
        spaces(table_len(h))
    };
    let right = if t < bucket_line_count(h) {
        bucket_line(h.buckets@[t / 6], t % 6)
    } else {
        seq![32u8]
    };
    left + spaces(if left.len() < table_len(h) { (table_len(h) - left.len()) as nat } else { 0 }) + right
}

pub open spec fn drawing(h: HashAlt1, n: nat) -> Seq<u8>
    decreases n,
{
    if n == 0 {
        Seq::empty()
    } else {
        drawing(h, (n - 1) as nat) + merged_line(h, n - 1) + seq![10u8]
    }
}

/// The drawing of an index: directory and buckets side by side.
pub open spec fn index_drawing(h: HashAlt1) -> Seq<u8> {
    let n = if dir_line_count(h) < bucket_line_count(h) {
        bucket_line_count(h)
    } else {
        dir_line_count(h)
    };
    drawing(h, n) + seq![10u8]
}

fn dir_line_vec(h: &HashAlt1, t: usize) -> (v: Vec<u8>)
    requires
        h.wf(),
        t < dir_line_count(*h),
    ensures
        v@ == dir_line(*h, t as int),
        valid_utf8(v@),
{
    proof {
        h.lemma_dir_entries(((t - 3) / 2) as int);
    }
    let pad = spaces_vec(h.global_depth as usize + 2);
    let mut v: Vec<u8> = Vec::new();
    proof {
        lemma_ascii_valid(v@);
    }
    if t == 0 {
        push_ascii(&mut v, &pad);
        push_ascii(&mut v, &vec![43u8, 45u8, 45u8, 45u8, 43u8]);
    } else if t == 1 {
        push_ascii(&mut v, &pad);
        push_ascii(&mut v, &vec![124u8]);
        push_ascii(&mut v, &centered(decimal_vec(h.global_depth as i32), 3));
        push_ascii(&mut v, &vec![124u8]);
    } else if t == 2 {
        push_ascii(&mut v, &pad);
        push_ascii(&mut v, &vec![43u8, 45u8, 45u8, 45u8, 43u8, 45u8, 45u8, 45u8, 43u8]);
    } else if (t - 3) % 2 == 0 {
        let i = (t - 3) / 2;
        push_ascii(&mut v, &vec![32u8]);
        push_ascii(&mut v, &binary_vec(i, h.global_depth as usize));
        push_ascii(&mut v, &vec![32u8, 124u8]);
        let name = bytes_of(&h.buckets[h.directory[i]].name);
        proof {
            encode_utf8_valid_utf8(h.buckets@[h.directory@[i as int] as int].name@);
        }
        let c = centered_valid(name, 7);
        push_valid(&mut v, &c);
        push_ascii(&mut v, &vec![124u8]);
    } else {
        push_ascii(&mut v, &pad);
        push_ascii(&mut v, &vec![43u8, 45u8, 45u8, 45u8, 45u8, 45u8, 45u8, 45u8, 43u8]);
    }
    assert(v@ =~= dir_line(*h, t as int));
    v
}

fn centered_valid(s: Vec<u8>, w: usize) -> (r: Vec<u8>)
    requires
        valid_utf8(s@),
    ensures
        r@ == center(s@, w as nat),
        valid_utf8(r@),
{
    if s.len() >= w {
        return s;
    }
    let pad = w - s.len();
    let mut v = spaces_vec(pad / 2);
    proof {
        lemma_ascii_valid(v@);
    }
    push_valid(&mut v, &s);
    let tail = spaces_vec(pad - pad / 2);
    push_ascii(&mut v, &tail);
    v
}

impl BucketAlt1 {
    /// The drawing of the bucket.
    pub fn render(&self) -> (r: String)
        ensures
            text_bytes(r@) == bucket_drawing(*self),
    {
        let mut v: Vec<u8> = Vec::new();
        proof {
            lemma_ascii_valid(v@);
        }
        let mut r: usize = 0;
        while r < 5
            invariant
                r <= 5,
                valid_utf8(v@),
                r == 0 ==> v@ == Seq::<u8>::empty(),
                r >= 1 ==> v@ == bucket_line(*self, 0) + (if r >= 2 { seq![10u8] + bucket_line(*self, 1) } else { Seq::empty() })
                    + (if r >= 3 { seq![10u8] + bucket_line(*self, 2) } else { Seq::empty() })
                    + (if r >= 4 { seq![10u8] + bucket_line(*self, 3) } else { Seq::empty() })
                    + (if r >= 5 { seq![10u8] + bucket_line(*self, 4) } else { Seq::empty() }),
            decreases 5 - r,
        {
            if r > 0 {
                push_ascii(&mut v, &vec![10u8]);
            }
            let line = bucket_line_vec(self, r);
            push_valid(&mut v, &line);
            r = r + 1;
            assert(r >= 1 ==> v@ =~= bucket_line(*self, 0) + (if r >= 2 { seq![10u8] + bucket_line(*self, 1) } else { Seq::empty() })
                    + (if r >= 3 { seq![10u8] + bucket_line(*self, 2) } else { Seq::empty() })
                    + (if r >= 4 { seq![10u8] + bucket_line(*self, 3) } else { Seq::empty() })
                    + (if r >= 5 { seq![10u8] + bucket_line(*self, 4) } else { Seq::empty() }));
        }
        to_string_checked(v)
    }
}

/// The string whose UTF-8 encoding is `v`.
fn to_string_checked(v: Vec<u8>) -> (r: String)
    requires
        valid_utf8(v@),
    ensures
        text_bytes(r@) == v@,
{
    proof {
        vstd::utf8::decode_utf8_encode_utf8(v@);
    }
    match string_from_utf8(v) {
        Some(s) => s,
        None => String::new(),
    }
}

fn merged_line_vec(h: &HashAlt1, t: usize) -> (v: Vec<u8>)
    requires
        h.wf(),
        h.buckets@.len() <= u16::MAX,
    ensures
        v@ == merged_line(*h, t as int),
        valid_utf8(v@),
{
    proof {
        h.lemma_dir_small();
    }
    let hl: usize = 3 + 2 * h.directory.len();
    let bl: usize = 6 * h.buckets.len();
    let tl: usize = h.global_depth as usize + 13;
    let left = if t < hl {
        dir_line_vec(h, t)
    } else {
        spaces_vec(tl)
    };
    proof {
        if t >= hl {
            lemma_ascii_valid(left@);
        }
    }
    let mut v: Vec<u8> = Vec::new();
    proof {
        lemma_ascii_valid(v@);
    }
    push_valid(&mut v, &left);
    let fill = if left.len() < tl {
        tl - left.len()
    } else {
        0
    };
    push_ascii(&mut v, &spaces_vec(fill));
    if t < bl {
        let line = bucket_line_vec(&h.buckets[t / 6], t % 6);
        push_valid(&mut v, &line);
    } else {
        push_ascii(&mut v, &vec![32u8]);
    }
    v
}

impl HashAlt1 {
    /// The drawing of the index: the directory on the left, the buckets on
    /// the right, as `index_drawing` lays them out.
    pub fn render(&self) -> (r: String)
        requires
            self.wf(),
            self.buckets@.len() <= u16::MAX,
        ensures
            text_bytes(r@) == index_drawing(*self),
    {
        proof {
            self.lemma_dir_small();
        }
        let hl: usize = 3 + 2 * self.directory.len();
        let bl: usize = 6 * self.buckets.len();
        let n = if hl < bl { bl } else { hl };
        let tl: usize = self.global_depth as usize + 13;
        let mut v: Vec<u8> = Vec::new();
        proof {
            lemma_ascii_valid(v@);
        }
        let mut t: usize = 0;
        while t < n
            invariant
                self.wf(),
                self.buckets@.len() <= u16::MAX,
                t <= n,
                v@ == drawing(*self, t as nat),
                valid_utf8(v@),
            decreases n - t,
        {
            let line = merged_line_vec(self, t);
            push_valid(&mut v, &line);
            push_ascii(&mut v, &vec![10u8]);
            t = t + 1;
            assert(v@ =~= drawing(*self, t as nat));
        }
        assert(n == (if dir_line_count(*self) < bucket_line_count(*self) {
            bucket_line_count(*self)
        } else {
            dir_line_count(*self)
        }));
        push_ascii(&mut v, &vec![10u8]);
        to_string_checked(v)
    }
}

} // verus!
