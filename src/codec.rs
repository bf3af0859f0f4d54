//! Fixed-width big-endian fields of the persisted format.

use vstd::prelude::*;

verus! {

/// Why a byte buffer could not be read back.
#[derive(Debug, PartialEq, Eq, Clone, Copy, Structural)]
pub enum DecodeError {
    /// The buffer is shorter than its headers promise, or what it holds
    /// cannot form a well-formed index.
    MalformedPersistedState,
}

pub open spec fn u32_be(u: u32) -> Seq<u8> {
    seq![(u >> 24u32) as u8, (u >> 16u32) as u8, (u >> 8u32) as u8, u as u8]
}

pub open spec fn i32_be(x: i32) -> Seq<u8> {
    u32_be(x as u32)
}

pub open spec fn u16_be(u: u16) -> Seq<u8> {
    seq![(u >> 8u16) as u8, u as u8]
}

pub open spec fn u32_at(b: Seq<u8>, p: int) -> u32 {
    ((b[p] as u32) << 24u32) | ((b[p + 1] as u32) << 16u32) | ((b[p + 2] as u32) << 8u32) | (b[p + 3] as u32)
}

pub open spec fn i32_at(b: Seq<u8>, p: int) -> i32 {
    u32_at(b, p) as i32
}

pub open spec fn u16_at(b: Seq<u8>, p: int) -> u16 {
    ((b[p] as u16) << 8u16) | (b[p + 1] as u16)
}

/// The first `w` bytes of `src`, with zeros after its end.
pub open spec fn field(src: Seq<u8>, w: nat) -> Seq<u8> {
    Seq::new(w, |i: int| if i < src.len() { src[i] } else { 0u8 })
}

/// `b` without its trailing zero bytes.
pub open spec fn trim_zeros(b: Seq<u8>) -> Seq<u8>
    decreases b.len(),
{
    if b.len() > 0 && b.last() == 0 {
        trim_zeros(b.drop_last())
    } else {
        b
    }
}

/// `b` without any of its zero bytes.
pub open spec fn strip_zeros(b: Seq<u8>) -> Seq<u8>
    decreases b.len(),
{
    if b.len() == 0 {
        b
    } else if b.last() == 0 {
        strip_zeros(b.drop_last())
    } else {
        strip_zeros(b.drop_last()).push(b.last())
    }
}

pub proof fn lemma_i32_round_trip(x: i32)
    ensures
        i32_at(i32_be(x), 0) == x,
{
    let u = x as u32;
    assert((((((u >> 24u32) as u8) as u32) << 24u32) | ((((u >> 16u32) as u8) as u32) << 16u32) | (
    (((u >> 8u32) as u8) as u32) << 8u32) | ((u as u8) as u32)) == u) by (bit_vector);
    assert(((x as u32) as i32) == x) by (bit_vector);
}

pub proof fn lemma_u16_round_trip(u: u16)
    ensures
        u16_at(u16_be(u), 0) == u,
{
    assert((((((u >> 8u16) as u8) as u16) << 8u16) | ((u as u8) as u16)) == u) by (bit_vector);
}

pub fn push_i32_be(v: &mut Vec<u8>, x: i32)
    ensures
        final(v)@ == old(v)@ + i32_be(x),
{
    let u: u32 = #[verifier::truncate] (x as u32);
    v.push(#[verifier::truncate] ((u >> 24u32) as u8));
    v.push(#[verifier::truncate] ((u >> 16u32) as u8));
    v.push(#[verifier::truncate] ((u >> 8u32) as u8));
    v.push(#[verifier::truncate] (u as u8));
    assert(v@ =~= old(v)@ + i32_be(x));
}

pub fn push_u16_be(v: &mut Vec<u8>, u: u16)
    ensures
        final(v)@ == old(v)@ + u16_be(u),
{
    v.push(#[verifier::truncate] ((u >> 8u16) as u8));
    v.push(#[verifier::truncate] (u as u8));
    assert(v@ =~= old(v)@ + u16_be(u));
}

pub fn read_i32_be(b: &Vec<u8>, p: usize) -> (r: i32)
    requires
        p + 4 <= b@.len(),
    ensures
        r == i32_at(b@, p as int),
{
    let len = b.len();
    assert(p + 4 <= len);
    let u: u32 = ((b[p] as u32) << 24u32) | ((b[p + 1] as u32) << 16u32) | ((b[p + 2] as u32) << 8u32) | (b[p
        + 3] as u32);
    #[verifier::truncate] (u as i32)
}

pub fn read_u16_be(b: &Vec<u8>, p: usize) -> (r: u16)
    requires
        p + 2 <= b@.len(),
    ensures
        r == u16_at(b@, p as int),
{
    let len = b.len();
    assert(p + 2 <= len);
    ((b[p] as u16) << 8u16) | (b[p + 1] as u16)
}

/// Appends the first `w` bytes of `src`, zero-padded to `w`.
pub fn push_field(v: &mut Vec<u8>, src: &Vec<u8>, w: usize)
    ensures
        final(v)@ == old(v)@ + field(src@, w as nat),
{
    let mut i: usize = 0;
    while i < w
        invariant
            i <= w,
            v@ == old(v)@ + field(src@, w as nat).take(i as int),
        decreases w - i,
    {
        if i < src.len() {
            v.push(src[i]);
        } else {
            v.push(0u8);
        }
        i = i + 1;
        assert(v@ =~= old(v)@ + field(src@, w as nat).take(i as int));
    }
    assert(field(src@, w as nat).take(w as int) =~= field(src@, w as nat));
}

/// Appends `n` zero bytes.
pub fn push_zeros(v: &mut Vec<u8>, n: usize)
    ensures
        final(v)@ == old(v)@ + Seq::new(n as nat, |i: int| 0u8),
{
    let mut i: usize = 0;
    while i < n
        invariant
            i <= n,
            v@ == old(v)@ + Seq::new(i as nat, |i: int| 0u8),
        decreases n - i,
    {
        v.push(0u8);
        i = i + 1;
        assert(v@ =~= old(v)@ + Seq::new(i as nat, |i: int| 0u8));
    }
}

/// The bytes `b[p..p + n]`.
pub fn copy_range(b: &Vec<u8>, p: usize, n: usize) -> (r: Vec<u8>)
    requires
        p + n <= b@.len(),
    ensures
        r@ == b@.subrange(p as int, p + n),
{
    let len = b.len();
    let mut r: Vec<u8> = Vec::new();
    let mut i: usize = 0;
    while i < n
        invariant
            i <= n,
            p + n <= b@.len(),
            len == b@.len(),
            r@ == b@.subrange(p as int, p + i),
        decreases n - i,
    {
        r.push(b[p + i]);
        i = i + 1;
        assert(r@ =~= b@.subrange(p as int, p + i));
    }
    r
}

/// The length of `b[p..p + w]` once its trailing zeros are cut.
pub fn trimmed_len(b: &Vec<u8>, p: usize, w: usize) -> (m: usize)
    requires
        p + w <= b@.len(),
    ensures
        m <= w,
        b@.subrange(p as int, p + m) == trim_zeros(b@.subrange(p as int, p + w)),
{
    let len = b.len();
    let mut m = w;
    while m > 0 && b[p + m - 1] == 0
        invariant
            m <= w,
            p + w <= b@.len(),
            len == b@.len(),
            trim_zeros(b@.subrange(p as int, p + m)) == trim_zeros(b@.subrange(p as int, p + w)),
        decreases m,
    {
        assert(b@.subrange(p as int, p + m).drop_last() =~= b@.subrange(p as int, p + m - 1));
        m = m - 1;
    }
    m
}

/// The nonzero bytes of `b[p..p + w]`, in order.
pub fn nonzero_bytes(b: &Vec<u8>, p: usize, w: usize) -> (r: Vec<u8>)
    requires
        p + w <= b@.len(),
    ensures
        r@ == strip_zeros(b@.subrange(p as int, p + w)),
{
    let len = b.len();
    let mut r: Vec<u8> = Vec::new();
    let mut i: usize = 0;
    while i < w
        invariant
            i <= w,
            p + w <= b@.len(),
            len == b@.len(),
            r@ == strip_zeros(b@.subrange(p as int, p + i)),
        decreases w - i,
    {
        assert(b@.subrange(p as int, p + i + 1).drop_last() =~= b@.subrange(p as int, p + i));
        if b[p + i] != 0 {
            r.push(b[p + i]);
        }
        i = i + 1;
    }
    r
}

} // verus!
