//! Display labels of buckets: `A`..`Z`, `AA`..`ZZ`, then back to `A`.

use vstd::prelude::*;
use vstd::utf8::*;

use crate::text::ascii_string;

verus! {

pub open spec fn is_label_letter(c: char) -> bool {
    'A' <= c && c <= 'Z'
}

/// The letter that follows `c` in code-point order.
pub open spec fn letter_after(c: char) -> char {
    ((c as u8) + 1) as u8 as char
}

/// Returns the character whose code is one above that of `input`, for a
/// code below 255.
pub fn next_letter(input: char) -> (r: char)
    requires
        (input as u32) < 255,
    ensures
        r == letter_after(input),
        r as u32 == input as u32 + 1,
        'A' <= input && input < 'Z' ==> is_label_letter(r),
{
    let n: u8 = input as u8;
    ((n + 1) as char)
}

/// The label that follows `s`: one letter counts up to `Z` and then goes on
/// to `AA`; two letters count up in the last place, with `ZZ` rolling over to
/// `A`. Anything else starts the sequence again at `A`.
pub open spec fn label_after(s: Seq<char>) -> Seq<char> {
    if s.len() == 1 && is_label_letter(s[0]) {
        if s[0] == 'Z' {
            seq!['A', 'A']
        } else {
            seq![letter_after(s[0])]
        }
    } else if s.len() == 2 && is_label_letter(s[0]) && is_label_letter(s[1]) {
        if s[1] != 'Z' {
            seq![s[0], letter_after(s[1])]
        } else if s[0] == 'Z' {
            seq!['A']
        } else {
            seq![letter_after(s[0]), 'A']
        }
    } else {
        seq!['A']
    }
}

fn is_upper(b: u8) -> (r: bool)
    ensures
        r == (65 <= b && b <= 90),
{
    65u8 <= b && b <= 90u8
}

/// Returns the label that follows `input` in the sequence of bucket labels.
pub fn next_string(input: &String) -> (r: String)
    ensures
        r@ == label_after(input@),
{
    let ascii = input.is_ascii();
    let b = input.as_str().as_bytes();
    let mut out: Vec<u8> = Vec::new();
    proof {
        if ascii {
            is_ascii_chars_encode_utf8(input@);
        }
    }
    if ascii && b.len() == 1 && is_upper(b[0]) {
        if b[0] == 90u8 {
            out.push(65u8);
            out.push(65u8);
        } else {
            let c = next_letter(b[0] as char);
            out.push(c as u8);
        }
    } else if ascii && b.len() == 2 && is_upper(b[0]) && is_upper(b[1]) {
        if b[1] != 90u8 {
            out.push(b[0]);
            let c = next_letter(b[1] as char);
            out.push(c as u8);
        } else if b[0] == 90u8 {
            out.push(65u8);
        } else {
            let c = next_letter(b[0] as char);
            out.push(c as u8);
            out.push(65u8);
        }
    } else {
        out.push(65u8);
    }
    let r = ascii_string(out);
    proof {
        if !(ascii && input@.len() == 1) && !(ascii && input@.len() == 2) {
            // a non-ASCII label is never one of the counted ones
            if input@.len() == 1 && is_label_letter(input@[0]) {
                assert(is_ascii_chars(input@));
            }
            if input@.len() == 2 && is_label_letter(input@[0]) && is_label_letter(input@[1]) {
                assert(is_ascii_chars(input@));
            }
        }
    }
    assert(r@ =~= label_after(input@));
    r
}

} // verus!
