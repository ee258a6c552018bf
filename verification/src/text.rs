//! Small operations on strings that the rest of the crate shares.

use vstd::prelude::*;
use vstd::std_specs::iter::IteratorSpec;
use vstd::string::*;
use vstd::utf8::*;

verus! {

/// Whether two strings hold the same characters, decided on their UTF-8 bytes.
pub fn str_eq(a: &str, b: &str) -> (same: bool)
    ensures
        same == (a@ == b@),
{
    let x = a.as_bytes();
    let y = b.as_bytes();
    proof {
        encode_utf8_decode_utf8(a@);
        encode_utf8_decode_utf8(b@);
    }
    if x.len() != y.len() {
        return false;
    }
    let mut i: usize = 0;
    while i < x.len()
        invariant
            i <= x.len(),
            x.len() == y.len(),
            x@ == encode_utf8(a@),
            y@ == encode_utf8(b@),
            forall|j: int| 0 <= j < i ==> x@[j] == y@[j],
        decreases x.len() - i,
    {
        if x[i] != y[i] {
            return false;
        }
        i += 1;
    }
    assert(x@ =~= y@);
    true
}

/// The position of the first occurrence of a character, counted in
/// characters.
pub fn find_char(text: &str, wanted: char) -> (found: Option<usize>)
    ensures
        match found {
            Some(at) => at < text@.len() && text@[at as int] == wanted && !text@.take(at as int).contains(
                wanted,
            ),
            None => !text@.contains(wanted),
        },
{
    let n = text.unicode_len();
    let mut rest = text.chars();
    let mut at: usize = 0;
    assert(text@.skip(0) =~= text@);
    loop
        invariant
            at <= n,
            n == text@.len(),
            rest.remaining() == text@.skip(at as int),
            forall|j: int| 0 <= j < at ==> text@[j] != wanted,
        decreases n - at,
    {
        match rest.next() {
            Some(c) => {
                assert(text@.skip(at as int).drop_first() =~= text@.skip(at + 1));
                if c == wanted {
                    return Some(at);
                }
                at += 1;
            },
            None => {
                return None;
            },
        }
    }
}

/// The text before the first occurrence of a character and the text after
/// it, or `None` where the character does not occur.
pub fn split_once<'a>(text: &'a str, delimiter: char) -> (parts: Option<(&'a str, &'a str)>)
    ensures
        match parts {
            Some((head, tail)) => text@ == head@.push(delimiter) + tail@ && !head@.contains(
                delimiter,
            ),
            None => !text@.contains(delimiter),
        },
{
    match find_char(text, delimiter) {
        Some(at) => {
            let n = text.unicode_len();
            let head = text.substring_char(0, at);
            let tail = text.substring_char(at + 1, n);
            assert(head@ =~= text@.take(at as int));
            assert(text@ =~= head@.push(delimiter) + tail@);
            Some((head, tail))
        },
        None => None,
    }
}

/// The text behind a prefix, or `None` where the text does not start with
/// the prefix.
pub fn without_prefix<'a>(text: &'a str, prefix: &str) -> (rest: Option<&'a str>)
    ensures
        match rest {
            Some(r) => text@ == prefix@ + r@,
            None => !prefix@.is_prefix_of(text@),
        },
{
    let n = text.unicode_len();
    let m = prefix.unicode_len();
    if m > n {
        return None;
    }
    let mut ours = text.chars();
    let mut theirs = prefix.chars();
    let mut at: usize = 0;
    assert(text@.skip(0) =~= text@);
    assert(prefix@.skip(0) =~= prefix@);
    while at < m
        invariant
            at <= m <= n,
            n == text@.len(),
            m == prefix@.len(),
            ours.remaining() == text@.skip(at as int),
            theirs.remaining() == prefix@.skip(at as int),
            forall|j: int| 0 <= j < at ==> text@[j] == prefix@[j],
        decreases m - at,
    {
        let x = ours.next();
        let y = theirs.next();
        assert(text@.skip(at as int).drop_first() =~= text@.skip(at + 1));
        assert(prefix@.skip(at as int).drop_first() =~= prefix@.skip(at + 1));
        let same = match (x, y) {
            (Some(a), Some(b)) => a == b,
            _ => false,
        };
        if !same {
            assert(text@.subrange(0, m as int)[at as int] != prefix@[at as int]);
            return None;
        }
        at += 1;
    }
    let rest = text.substring_char(m, n);
    assert(text@ =~= prefix@ + rest@);
    Some(rest)
}

/// What `String::from_utf8_lossy` makes of bytes that are no UTF-8: the
/// characters that can be read, with replacement characters for the rest.
pub uninterp spec fn utf8_lossy(bytes: Seq<u8>) -> Seq<char>;

/// The characters that bytes are read as: bytes that are UTF-8 as the
/// characters that they encode, other bytes leniently.
pub open spec fn lossy_text(bytes: Seq<u8>) -> Seq<char> {
    if valid_utf8(bytes) {
        decode_utf8(bytes)
    } else {
        utf8_lossy(bytes)
    }
}

/// `String::from_utf8_lossy`, as an owned string. Its documentation says
/// that bytes that are UTF-8 come back as the string that they encode; of
/// other bytes the contract says only that the same bytes give the same
/// characters.
#[verifier::external_body]
pub(crate) fn from_utf8_lossy(bytes: &[u8]) -> (text: String)
    ensures
        valid_utf8(bytes@) ==> text@ == decode_utf8(bytes@),
        !valid_utf8(bytes@) ==> text@ == utf8_lossy(bytes@),
{
    String::from_utf8_lossy(bytes).into_owned()
}

} // verus!
