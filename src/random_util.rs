//! Random demo data: distinct keys in a range and letter-only texts, and the
//! loading of both indexes with them.

use rand::Rng;
use vstd::prelude::*;

use crate::hash_alt1::{crowd, crowded, HashAlt1, MAX_DEPTH};
use crate::hash_alt2::{EKey, HashAlt2};
use crate::record::Record;
use crate::text::{ascii_string, padded, text_bytes};

verus! {

/// Relies on rand's `Rng::gen_range` on `thread_rng()`: it panics on an
/// empty range and otherwise returns a value of `0..n`.
#[verifier::external_body]
fn random_below(n: usize) -> (r: usize)
    requires
        n > 0,
    ensures
        r < n,
{
    rand::thread_rng().gen_range(0..n)
}

/// `s` holds each value at most once.
pub open spec fn distinct_values(s: Seq<i32>) -> bool {
    forall|i: int, j: int| 0 <= i < s.len() && 0 <= j < s.len() && i != j ==> s[i] != s[j]
}

/// The integers `start..=end` in a random order (a Fisher-Yates shuffle).
pub fn unique_random_numbers(start: i32, end: i32) -> (r: Vec<i32>)
    requires
        start <= end < i32::MAX,
    ensures
        r@.len() == end - start + 1,
        distinct_values(r@),
        forall|i: int| 0 <= i < r@.len() ==> start <= #[trigger] r@[i] <= end,
{
    let mut numbers: Vec<i32> = Vec::new();
    let mut v: i32 = start;
    while v <= end
        invariant
            start <= v <= end + 1,
            end < i32::MAX,
            numbers@.len() == v - start,
            forall|t: int| 0 <= t < numbers@.len() ==> #[trigger] numbers@[t] == start + t,
        decreases end + 1 - v,
    {
        numbers.push(v);
        v = v + 1;
    }
    let mut k: usize = numbers.len();
    while k > 0
        invariant
            k <= numbers@.len(),
            numbers@.len() == end - start + 1,
            distinct_values(numbers@),
            forall|t: int| 0 <= t < numbers@.len() ==> start <= #[trigger] numbers@[t] <= end,
        decreases k,
    {
        k = k - 1;
        let j = random_below(k + 1);
        let x = numbers[k];
        let y = numbers[j];
        let ghost before = numbers@;
        numbers.set(k, y);
        numbers.set(j, x);
        assert forall|p: int, q: int|
            0 <= p < numbers@.len() && 0 <= q < numbers@.len() && p != q implies numbers@[p] != numbers@[q] by {
            let sp = if p == k { j as int } else if p == j { k as int } else { p };
            let sq = if q == k { j as int } else if q == j { k as int } else { q };
            assert(numbers@[p] == before[sp]);
            assert(numbers@[q] == before[sq]);
        }
    }
    numbers
}

pub open spec fn is_letter(c: char) -> bool {
    ('a' <= c && c <= 'z') || ('A' <= c && c <= 'Z')
}

/// `len` letters drawn at random.
pub fn random_string(len: usize) -> (r: String)
    ensures
        r@.len() == len,
        forall|i: int| 0 <= i < r@.len() ==> is_letter(#[trigger] r@[i]),
        text_bytes(r@).len() == len,
{
    let mut bytes: Vec<u8> = Vec::new();
    let mut i: usize = 0;
    while i < len
        invariant
            i <= len,
            bytes@.len() == i,
            forall|t: int| 0 <= t < i ==> (97 <= #[trigger] bytes@[t] <= 122) || (65 <= bytes@[t] <= 90),
        decreases len - i,
    {
        let idx = random_below(52);
        if idx < 26 {
            bytes.push(97 + idx as u8);
        } else {
            bytes.push(65 + (idx - 26) as u8);
        }
        i = i + 1;
    }
    let ghost b = bytes@;
    let r = ascii_string(bytes);
    proof {
        assert(vstd::utf8::is_ascii_chars(r@));
        vstd::utf8::is_ascii_chars_encode_utf8(r@);
    }
    r
}

/// Fills both indexes with `n` random records: keys `0..=n` shuffled, texts
/// of 95 letters; returns the keys drawn. Each drawn key is stored in the
/// primary index afterwards, unless its bucket overflowed; each record that the
/// primary index takes is entered in the secondary index under its text and
/// key, pointing at where it was stored.
pub fn rand_hash_values(h1: &mut HashAlt1, h2: &mut HashAlt2, n: usize) -> (drawn: Vec<i32>)
    requires
        old(h1).wf(),
        old(h1).aliases_ok(),
        old(h2).wf(),
        n < i32::MAX,
    ensures
        drawn@.len() == n,
        distinct_values(drawn@),
        forall|t: int| 0 <= t < n ==> 0 <= #[trigger] drawn@[t] <= n,
        forall|t: int|
            0 <= t < n ==> final(h1)@.contains_key(#[trigger] drawn@[t]) || exists|c: int|
                0 <= c < final(h1).buckets@.len() && crowded(
                    final(h1)@,
                    drawn@[t],
                    MAX_DEPTH as nat,
                    final(h1).buckets@[c].size as nat,
                ),
        final(h1).wf(),
        final(h2).wf(),
        forall|k: i32| #[trigger] old(h1)@.contains_key(k) ==> final(h1)@.contains_key(k) && final(h1)@[k] == old(h1)@[k],
        forall|k: i32| #[trigger] final(h1)@.contains_key(k) && !old(h1)@.contains_key(k) ==> 0 <= k <= n,
        forall|sk: EKey| #[trigger] old(h2)@.contains_key(sk) ==> final(h2)@.contains_key(sk) && final(h2)@[sk] == old(
            h2,
        )@[sk],
        forall|sk: EKey|
            #[trigger] final(h2)@.contains_key(sk) && !old(h2)@.contains_key(sk) ==> final(h1)@.contains_key(sk.1)
                && !old(h1)@.contains_key(sk.1) && final(h1)@[sk.1] == padded(sk.0),
{
    let random_nseq = unique_random_numbers(0, n as i32);
    let mut i: usize = 0;
    while i < n
        invariant
            h1.wf(),
            h1.aliases_ok(),
            h2.wf(),
            i <= n,
            distinct_values(random_nseq@),
            forall|t: int|
                0 <= t < i ==> h1@.contains_key(#[trigger] random_nseq@[t]) || exists|c: int|
                    0 <= c < h1.buckets@.len() && crowded(
                        h1@,
                        random_nseq@[t],
                        MAX_DEPTH as nat,
                        h1.buckets@[c].size as nat,
                    ),
            n < i32::MAX,
            random_nseq@.len() == n + 1,
            forall|t: int| 0 <= t < random_nseq@.len() ==> 0 <= #[trigger] random_nseq@[t] <= n,
            forall|k: i32| #[trigger] old(h1)@.contains_key(k) ==> h1@.contains_key(k) && h1@[k] == old(h1)@[k],
            forall|k: i32| #[trigger] h1@.contains_key(k) && !old(h1)@.contains_key(k) ==> 0 <= k <= n,
            forall|sk: EKey| #[trigger] old(h2)@.contains_key(sk) ==> h2@.contains_key(sk) && h2@[sk] == old(h2)@[sk],
            forall|sk: EKey|
                #[trigger] h2@.contains_key(sk) && !old(h2)@.contains_key(sk) ==> h1@.contains_key(sk.1)
                    && !old(h1)@.contains_key(sk.1) && h1@[sk.1] == padded(sk.0),
        decreases n - i,
    {
        let nseq = random_nseq[i];
        let text = random_string(95);
        let ghost before = *h1;
        let r = h1.insert(Record { nseq, text: text.clone() });
        proof {
            assert forall|t: int|
                0 <= t < i + 1 implies h1@.contains_key(#[trigger] random_nseq@[t]) || exists|c: int|
                0 <= c < h1.buckets@.len() && crowded(
                    h1@,
                    random_nseq@[t],
                    MAX_DEPTH as nat,
                    h1.buckets@[c].size as nat,
                ) by {
                let k = random_nseq@[t];
                if t < i {
                    if before@.contains_key(k) {
                        assert(h1@.contains_key(k) || h1@ == before@);
                    } else {
                        let c = choose|c: int|
                            0 <= c < before.buckets@.len() && crowded(
                                before@,
                                k,
                                MAX_DEPTH as nat,
                                before.buckets@[c].size as nat,
                            );
                        lemma_crowded_grows(before@, h1@, k, MAX_DEPTH as nat, before.buckets@[c].size as nat);
                        assert(h1.buckets@[c].size == before.buckets@[c].size);
                    }
                } else if !h1@.contains_key(k) {
                    before.lemma_home_in_range(k);
                    let c = before.home(k);
                    assert(h1.buckets@[c].size == before.buckets@[c].size);
                }
            }
            assert forall|k: i32| #[trigger] old(h1)@.contains_key(k) implies h1@.contains_key(k) && h1@[k]
                == old(h1)@[k] by {
                assert(before@.contains_key(k));
            }
            assert forall|k: i32| #[trigger] h1@.contains_key(k) && !old(h1)@.contains_key(k) implies 0 <= k
                <= n by {
                if k != nseq {
                    assert(before@.contains_key(k));
                }
            }
            assert forall|sk: EKey| #[trigger] h2@.contains_key(sk) && !old(h2)@.contains_key(sk) implies h1@.contains_key(
                sk.1,
            ) && !old(h1)@.contains_key(sk.1) && h1@[sk.1] == padded(sk.0) by {
                assert(before@.contains_key(sk.1));
            }
        }
        if r.is_ok() {
            if let Some(rid) = h1.search(nseq) {
                let ghost b2 = *h2;
                let _ = h2.insert(rid, (text, nseq));
                proof {
                    assert(!old(h1)@.contains_key(nseq));
                    assert forall|sk: EKey| #[trigger] old(h2)@.contains_key(sk) implies h2@.contains_key(sk)
                        && h2@[sk] == old(h2)@[sk] by {
                        assert(b2@.contains_key(sk));
                    }
                    assert forall|sk: EKey| #[trigger] h2@.contains_key(sk) && !old(h2)@.contains_key(sk) implies h1@.contains_key(
                        sk.1,
                    ) && !old(h1)@.contains_key(sk.1) && h1@[sk.1] == padded(sk.0) by {
                        if !b2@.contains_key(sk) {
                            assert(sk == (text@, nseq));
                        }
                    }
                }
            }
        }
        i = i + 1;
    }
    let mut drawn: Vec<i32> = Vec::new();
    let mut j: usize = 0;
    while j < n
        invariant
            j <= n,
            n < random_nseq@.len(),
            drawn@ == random_nseq@.take(j as int),
        decreases n - j,
    {
        drawn.push(random_nseq[j]);
        j = j + 1;
        assert(drawn@ =~= random_nseq@.take(j as int));
    }
    drawn
}

/// More stored keys crowd a key at least as much.
pub proof fn lemma_crowded_grows(m: Map<i32, Seq<char>>, m2: Map<i32, Seq<char>>, key: i32, d: nat, cap: nat)
    requires
        crowded(m, key, d, cap),
        forall|k: i32| #[trigger] m.contains_key(k) ==> m2.contains_key(k),
    ensures
        crowded(m2, key, d, cap),
{
    let ks = choose|ks: Seq<i32>| ks.len() >= cap && #[trigger] crowd(m, key, d, ks);
    assert(crowd(m2, key, d, ks));
}

} // verus!
