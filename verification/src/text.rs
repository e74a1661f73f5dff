//! Byte strings and text.
//!
//! Names, paths and file contents are byte strings. Some of them are also
//! text: a byte string is text when it is valid UTF-8, and the text it stands
//! for is its decoding.

use crate::search::{first, lemma_first_unique};
use vstd::prelude::*;
use vstd::string::*;
use vstd::utf8::*;

verus! {

/// The text that a byte string stands for, if it is valid UTF-8.
pub open spec fn text_of(bytes: Seq<u8>) -> Option<Seq<char>> {
    if valid_utf8(bytes) {
        Some(decode_utf8(bytes))
    } else {
        None
    }
}

/// The position of the first `byte` in `s`, or the length of `s` if there is
/// none.
pub open spec fn find(s: Seq<u8>, byte: u8) -> int {
    first(s, is_byte(byte))
}

/// The condition of being `byte`.
pub open spec fn is_byte(byte: u8) -> spec_fn(u8) -> bool {
    |b: u8| b == byte
}

/// Compares two byte strings.
pub fn bytes_eq(a: &[u8], b: &[u8]) -> (r: bool)
    ensures
        r == (a@ == b@),
{
    if a.len() != b.len() {
        return false;
    }
    let mut i: usize = 0;
    while i < a.len()
        invariant
            a@.len() == b@.len(),
            i <= a@.len(),
            forall|j: int| 0 <= j < i ==> a@[j] == b@[j],
        decreases a@.len() - i,
    {
        if a[i] != b[i] {
            return false;
        }
        i += 1;
    }
    assert(a@ =~= b@);
    true
}

/// Compares two strings.
pub fn str_eq(a: &str, b: &str) -> (r: bool)
    ensures
        r == (a@ == b@),
{
    let r = bytes_eq(a.as_bytes(), b.as_bytes());
    proof {
        encode_utf8_decode_utf8(a@);
        encode_utf8_decode_utf8(b@);
    }
    r
}

/// Finds the first `byte` in `s` at or after `start`: the result is the end
/// of `s` if there is none.
pub(crate) fn find_byte(s: &[u8], start: usize, byte: u8) -> (i: usize)
    requires
        start <= s@.len(),
    ensures
        i == start + find(s@.skip(start as int), byte),
        start <= i <= s@.len(),
{
    let mut i: usize = start;
    while i < s.len() && s[i] != byte
        invariant
            start <= i <= s@.len(),
            forall|j: int| start <= j < i ==> s@[j] != byte,
        decreases s@.len() - i,
    {
        i += 1;
    }
    proof {
        lemma_first_unique(s@.skip(start as int), is_byte(byte), i - start);
    }
    i
}

/// Calls `std::str::from_utf8`. Trusted: the call succeeds exactly on valid
/// UTF-8, and the string it returns has the bytes that were passed in.
#[verifier::external_body]
fn utf8_text(bytes: &[u8]) -> (r: Option<&str>)
    ensures
        r is Some <==> valid_utf8(bytes@),
        r matches Some(s) ==> s.spec_bytes() == bytes@,
{
    std::str::from_utf8(bytes).ok()
}

/// Reads a byte string as text.
pub fn to_text(bytes: &[u8]) -> (r: Option<String>)
    ensures
        match r {
            Some(s) => text_of(bytes@) == Some(s@),
            None => text_of(bytes@).is_none(),
        },
{
    match utf8_text(bytes) {
        Some(s) => {
            proof {
                encode_utf8_decode_utf8(s@);
            }
            Some(s.to_owned())
        },
        None => None,
    }
}

} // verus!
