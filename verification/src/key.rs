//! The flat byte key of a document and the key range of a collection.
//!
//! A document `(collection, id)` lives under the UTF-8 bytes of
//! `collection`, a colon and `id`. Nothing is escaped: the store orders keys
//! byte by byte, and ranges rely on that.

use vstd::prelude::*;
use vstd::string::*;
use vstd::utf8::*;
use crate::order::{bytes_le, bytes_lt, lemma_between_has_prefix, lemma_common_prefix, lemma_lt_at, lemma_prefix_lt};
use crate::text::{from_utf8_lossy, lossy_text, without_prefix};

verus! {

/// The byte between a collection and an id: a colon.
pub const SEPARATOR: u8 = 0x3a;

/// The key of the document `id` in `collection`.
pub open spec fn key_bytes(collection: Seq<char>, id: Seq<char>) -> Seq<u8> {
    encode_utf8(collection) + seq![SEPARATOR] + encode_utf8(id)
}

/// The least key of a collection: the collection and the colon.
pub open spec fn lower_bound(collection: Seq<char>) -> Seq<u8> {
    encode_utf8(collection) + seq![SEPARATOR]
}

/// The upper end of a collection's range: its least key followed by the
/// UTF-8 bytes of U+10FFFF, the greatest code point.
pub open spec fn upper_bound(collection: Seq<char>) -> Seq<u8> {
    lower_bound(collection) + seq![0xf4u8, 0x8fu8, 0xbfu8, 0xbfu8]
}

/// The id that a key shows: what follows the collection and the colon, or
/// the whole key where it does not start with them.
pub open spec fn id_of_key(collection: Seq<char>, full_key: Seq<char>) -> Seq<char> {
    let prefix = collection.push(':');
    if prefix.is_prefix_of(full_key) {
        full_key.skip(prefix.len() as int)
    } else {
        full_key
    }
}

/// A key lies inside the range of a collection: from the least key of the
/// collection up to, but not at, the upper end.
pub open spec fn in_collection(collection: Seq<char>, key: Seq<u8>) -> bool {
    bytes_le(lower_bound(collection), key) && bytes_lt(key, upper_bound(collection))
}

/// The bytes of a scalar other than U+10FFFF come before the bytes of
/// U+10FFFF.
proof fn lemma_scalar_bytes(s: u32)
    by (bit_vector)
    requires
        s < 0x10FFFF,
    ensures
        s <= 0x7F ==> ((s & 0x7F) as u8) < 0xf4u8,
        0x80 <= s <= 0x7FF ==> (0xC0u8 | (((s >> 6) & 0x1F) as u8)) < 0xf4u8,
        0x800 <= s <= 0xFFFF ==> (0xE0u8 | (((s >> 12) & 0x0F) as u8)) < 0xf4u8,
        0x10000 <= s ==> (0xF0u8 | (((s >> 18) & 0x7) as u8)) <= 0xf4u8,
        0x10000 <= s && (0xF0u8 | (((s >> 18) & 0x7) as u8)) == 0xf4u8 ==> (0x80u8 | (((s >> 12)
            & 0x3F) as u8)) <= 0x8fu8,
        0x10000 <= s && (0xF0u8 | (((s >> 18) & 0x7) as u8)) == 0xf4u8 && (0x80u8 | (((s >> 12)
            & 0x3F) as u8)) == 0x8fu8 ==> (0x80u8 | (((s >> 6) & 0x3F) as u8)) <= 0xbfu8,
        0x10000 <= s && (0xF0u8 | (((s >> 18) & 0x7) as u8)) == 0xf4u8 && (0x80u8 | (((s >> 12)
            & 0x3F) as u8)) == 0x8fu8 && (0x80u8 | (((s >> 6) & 0x3F) as u8)) == 0xbfu8 ==> (0x80u8
            | ((s & 0x3F) as u8)) < 0xbfu8,
{
}

/// The bytes of an id that does not start with U+10FFFF come before the
/// bytes of U+10FFFF.
proof fn lemma_id_below_max(id: Seq<char>)
    requires
        id.len() == 0 || id[0] != '\u{10FFFF}',
    ensures
        bytes_lt(encode_utf8(id), seq![0xf4u8, 0x8fu8, 0xbfu8, 0xbfu8]),
{
    let max = seq![0xf4u8, 0x8fu8, 0xbfu8, 0xbfu8];
    if id.len() > 0 {
        let s = id[0] as u32;
        char_is_scalar(id[0]);
        assert(s != 0x10FFFF) by {
            char_u32_cast(id[0], s);
            char_u32_cast('\u{10FFFF}', 0x10FFFFu32);
        }
        lemma_scalar_bytes(s);
        let first = encode_scalar(s);
        let bytes = encode_utf8(id);
        assert(bytes == first + encode_utf8(id.drop_first()));
        if bytes[0] < max[0] {
            assert(bytes.take(0) =~= max.take(0));
            lemma_lt_at(bytes, max, 0);
        } else if bytes[1] < max[1] {
            assert(bytes.take(1) =~= max.take(1));
            lemma_lt_at(bytes, max, 1);
        } else if bytes[2] < max[2] {
            assert(bytes.take(2) =~= max.take(2));
            lemma_lt_at(bytes, max, 2);
        } else {
            assert(bytes.take(3) =~= max.take(3));
            lemma_lt_at(bytes, max, 3);
        }
    }
}

/// Every document of a collection has its key inside the collection's range,
/// but for the ids that start with U+10FFFF, the greatest code point.
pub proof fn law_keys_lie_in_their_collection(collection: Seq<char>, id: Seq<char>)
    requires
        id.len() == 0 || id[0] != '\u{10FFFF}',
    ensures
        in_collection(collection, key_bytes(collection, id)),
{
    let low = lower_bound(collection);
    let max = seq![0xf4u8, 0x8fu8, 0xbfu8, 0xbfu8];
    assert(key_bytes(collection, id) =~= low + encode_utf8(id));
    if encode_utf8(id).len() > 0 {
        lemma_prefix_lt(low, encode_utf8(id));
    } else {
        assert(low + encode_utf8(id) =~= low);
    }
    lemma_id_below_max(id);
    lemma_common_prefix(low, encode_utf8(id), max);
}

/// Only a one-byte encoding holds a byte below 0x80.
proof fn lemma_multibyte(s: u32)
    by (bit_vector)
    ensures
        s <= 0x7F ==> ((s & 0x7F) as u8) as u32 == s,
        (0xC0u8 | (((s >> 6) & 0x1F) as u8)) >= 0x80u8,
        (0xE0u8 | (((s >> 12) & 0x0F) as u8)) >= 0x80u8,
        (0xF0u8 | (((s >> 18) & 0x7) as u8)) >= 0x80u8,
        (0x80u8 | (((s >> 12) & 0x3F) as u8)) >= 0x80u8,
        (0x80u8 | (((s >> 6) & 0x3F) as u8)) >= 0x80u8,
        (0x80u8 | ((s & 0x3F) as u8)) >= 0x80u8,
{
}

/// The colon's byte occurs in the UTF-8 bytes of a text only where the text
/// holds a colon.
proof fn lemma_colon_byte(text: Seq<char>, at: int)
    requires
        0 <= at < encode_utf8(text).len(),
        encode_utf8(text)[at] == SEPARATOR,
    ensures
        text.contains(':'),
    decreases text.len(),
{
    let s = text[0] as u32;
    let first = encode_scalar(s);
    let rest = text.drop_first();
    assert(encode_utf8(text) == first + encode_utf8(rest));
    lemma_multibyte(s);
    if at < first.len() {
        assert(first[at] == SEPARATOR);
        assert(s == 0x3a);
        char_u32_cast(text[0], s);
        assert(text[0] == ':');
    } else {
        lemma_colon_byte(rest, at - first.len());
        let i = choose|i: int| 0 <= i < rest.len() && rest[i] == ':';
        assert(text[i + 1] == ':');
    }
}

/// Two collections whose names hold no colon share no key: no document of
/// the one has its key inside the range of the other.
pub proof fn law_collections_share_no_key(ours: Seq<char>, theirs: Seq<char>, id: Seq<char>)
    requires
        ours != theirs,
        !ours.contains(':'),
        !theirs.contains(':'),
    ensures
        !in_collection(ours, key_bytes(theirs, id)),
{
    let key = key_bytes(theirs, id);
    let max = seq![0xf4u8, 0x8fu8, 0xbfu8, 0xbfu8];
    if in_collection(ours, key) {
        lemma_between_has_prefix(lower_bound(ours), max, key);
        let a = encode_utf8(ours);
        let b = encode_utf8(theirs);
        let low = lower_bound(ours);
        assert(low =~= key.subrange(0, low.len() as int));
        assert forall|i: int| 0 <= i < low.len() implies low[i] == key[i] by {
            assert(key.subrange(0, low.len() as int)[i] == key[i]);
        }
        if a.len() == b.len() {
            assert(a =~= b) by {
                assert forall|i: int| 0 <= i < a.len() implies a[i] == b[i] by {
                    assert(low[i] == key[i]);
                }
            }
            encode_utf8_decode_utf8(ours);
            encode_utf8_decode_utf8(theirs);
        } else if a.len() < b.len() {
            assert(low[a.len() as int] == key[a.len() as int]);
            lemma_colon_byte(theirs, a.len() as int);
        } else {
            assert(low[b.len() as int] == key[b.len() as int]);
            lemma_colon_byte(ours, b.len() as int);
        }
    }
}

proof fn lemma_encode_concat(a: Seq<char>, b: Seq<char>)
    ensures
        encode_utf8(a + b) == encode_utf8(a) + encode_utf8(b),
    decreases a.len(),
{
    if a.len() == 0 {
        assert(a + b =~= b);
    } else {
        assert((a + b).drop_first() =~= a.drop_first() + b);
        lemma_encode_concat(a.drop_first(), b);
    }
}

/// A key is the UTF-8 text of the collection, a colon and the id.
pub proof fn law_key_is_text(collection: Seq<char>, id: Seq<char>)
    ensures
        key_bytes(collection, id) == encode_utf8(collection.push(':') + id),
{
    let colon = seq![':'];
    assert(encode_utf8(colon) =~= seq![SEPARATOR]) by {
        reveal_with_fuel(encode_utf8, 2);
        assert(colon.drop_first() =~= Seq::<char>::empty());
        assert(colon[0] as u32 == 0x3au32);
        assert(leading_byte_width_1(0x3au32) == 0x3au8) by {
            assert((0x3au32 & 0x7F) as u8 == 0x3au8) by (bit_vector);
        }
        assert(encode_scalar(0x3au32) =~= seq![0x3au8]);
    }
    assert(collection.push(':') =~= collection + colon);
    lemma_encode_concat(collection, colon);
    lemma_encode_concat(collection + colon, id);
}

/// The key of a document shows the document's id: reading a key undoes
/// writing it.
pub proof fn law_key_shows_its_id(collection: Seq<char>, id: Seq<char>)
    ensures
        id_of_key(collection, lossy_text(key_bytes(collection, id))) == id,
{
    let text = collection.push(':') + id;
    law_key_is_text(collection, id);
    encode_utf8_valid_utf8(text);
    encode_utf8_decode_utf8(text);
    assert(collection.push(':').is_prefix_of(text));
    assert(text.skip(collection.len() as int + 1) =~= id);
}

/// The key of the document `id` in `collection`.
pub fn encode(collection: &str, id: &str) -> (key: Vec<u8>)
    ensures
        key@ == key_bytes(collection@, id@),
{
    let mut key = collection.as_bytes_vec();
    key.push(SEPARATOR);
    key.extend_from_slice(id.as_bytes());
    key
}

/// The two ends of the range that holds every document of `collection`.
pub fn collection_bounds(collection: &str) -> (bounds: (Vec<u8>, Vec<u8>))
    ensures
        bounds.0@ == lower_bound(collection@),
        bounds.1@ == upper_bound(collection@),
{
    let mut low = collection.as_bytes_vec();
    low.push(SEPARATOR);
    let mut high = low.clone();
    high.push(0xf4u8);
    high.push(0x8fu8);
    high.push(0xbfu8);
    high.push(0xbfu8);
    assert(high@ =~= upper_bound(collection@));
    (low, high)
}

/// The id that the key of a document of `collection` shows. A key that does
/// not start with the collection and the colon comes back whole: to callers
/// that is a sign of misuse, not a result to rely on.
pub fn strip_prefix(collection: &str, full_key: &str) -> (id: String)
    ensures
        id@ == id_of_key(collection@, full_key@),
{
    let prefix = String::from_str(collection).concat(":");
    proof {
        reveal_strlit(":");
        assert(prefix@ =~= collection@.push(':'));
    }
    match without_prefix(full_key, prefix.as_str()) {
        Some(rest) => {
            assert(full_key@.skip(prefix@.len() as int) =~= rest@);
            rest.to_owned()
        },
        None => full_key.to_owned(),
    }
}

/// The id that a stored key shows, read leniently: bytes that are no UTF-8
/// come out as replacement characters.
pub fn document_id(collection: &str, key: &[u8]) -> (id: String)
    ensures
        id@ == id_of_key(collection@, lossy_text(key@)),
{
    let full_key = from_utf8_lossy(key);
    strip_prefix(collection, full_key.as_str())
}

} // verus!
