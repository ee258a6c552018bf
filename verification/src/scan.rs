//! Pages of a collection: the key range to ask the store for, and the page
//! that its answer holds.
//!
//! A cursor is the id of the last document of the page before; the empty
//! cursor starts at the end of the collection that the direction begins with.

use vstd::prelude::*;
use vstd::string::*;
use crate::codec::{decode_or_null, lenient_parse};
use crate::json::{JsonObject, JsonValue};
use crate::key::{collection_bounds, document_id, encode, id_of_key, key_bytes, law_key_shows_its_id, lower_bound, upper_bound};
use crate::order::{bytes_le, bytes_lt, lemma_between_has_prefix, lemma_le_lt, lemma_prefix_lt, lemma_successor};
use crate::text::{lossy_text, str_eq};

verus! {

/// A range of keys as a mathematical value. The start belongs to the range;
/// the end does where `end_inclusive` says so.
pub struct RangeModel {
    pub start: Seq<u8>,
    pub end: Seq<u8>,
    pub end_inclusive: bool,
}

/// A range of keys. The start belongs to the range; the end does where
/// `end_inclusive` says so.
#[derive(Debug)]
pub struct KeyRange {
    pub start: Vec<u8>,
    pub end: Vec<u8>,
    pub end_inclusive: bool,
}

impl View for KeyRange {
    type V = RangeModel;

    open spec fn view(&self) -> RangeModel {
        RangeModel { start: self.start@, end: self.end@, end_inclusive: self.end_inclusive }
    }
}

/// The range that holds the next page.
///
/// Ascending, the page starts right behind the cursor's key: at that key
/// followed by a zero byte, the least key above it. Descending, it ends right
/// before the cursor's key.
pub open spec fn scan_range(collection: Seq<char>, cursor: Seq<char>, descending: bool) -> RangeModel {
    if descending {
        RangeModel {
            start: lower_bound(collection),
            end: if cursor.len() == 0 {
                upper_bound(collection)
            } else {
                key_bytes(collection, cursor)
            },
            end_inclusive: false,
        }
    } else {
        RangeModel {
            start: if cursor.len() == 0 {
                lower_bound(collection)
            } else {
                key_bytes(collection, cursor).push(0u8)
            },
            end: upper_bound(collection),
            end_inclusive: true,
        }
    }
}

/// A key lies in a range.
pub open spec fn in_range(range: RangeModel, key: Seq<u8>) -> bool {
    bytes_le(range.start, key) && (bytes_lt(key, range.end) || (range.end_inclusive && key
        == range.end))
}

/// An ascending page behind a cursor holds the keys above the cursor's key,
/// up to the upper end of the collection: the cursor's own key is left out,
/// and no key above it is.
pub proof fn law_ascending_range_starts_behind_the_cursor(
    collection: Seq<char>,
    cursor: Seq<char>,
    key: Seq<u8>,
)
    requires
        cursor.len() > 0,
    ensures
        in_range(scan_range(collection, cursor, false), key) <==> bytes_lt(
            key_bytes(collection, cursor),
            key,
        ) && bytes_le(key, upper_bound(collection)),
{
    lemma_successor(key_bytes(collection, cursor), key);
}

/// A descending page behind a cursor holds the keys of the collection below
/// the cursor's key: the cursor's own key is left out.
pub proof fn law_descending_range_ends_before_the_cursor(
    collection: Seq<char>,
    cursor: Seq<char>,
    key: Seq<u8>,
)
    requires
        cursor.len() > 0,
    ensures
        in_range(scan_range(collection, cursor, true), key) <==> bytes_le(
            lower_bound(collection),
            key,
        ) && bytes_lt(key, key_bytes(collection, cursor)),
{
}

/// Every key of a page starts with the collection and the colon, whatever
/// the cursor.
pub proof fn law_range_keys_start_with_the_collection(
    collection: Seq<char>,
    cursor: Seq<char>,
    descending: bool,
    key: Seq<u8>,
)
    requires
        in_range(scan_range(collection, cursor, descending), key),
    ensures
        lower_bound(collection).is_prefix_of(key),
{
    let low = lower_bound(collection);
    let max = seq![0xf4u8, 0x8fu8, 0xbfu8, 0xbfu8];
    let at_cursor = key_bytes(collection, cursor);
    assert(at_cursor =~= low + vstd::utf8::encode_utf8(cursor));
    if descending {
        if cursor.len() == 0 {
            lemma_between_has_prefix(low, max, key);
        } else {
            lemma_between_has_prefix(low, vstd::utf8::encode_utf8(cursor), key);
        }
    } else {
        if cursor.len() > 0 {
            lemma_successor(at_cursor, key);
            if vstd::utf8::encode_utf8(cursor).len() > 0 {
                lemma_prefix_lt(low, vstd::utf8::encode_utf8(cursor));
            } else {
                assert(at_cursor =~= low);
            }
            lemma_le_lt(low, at_cursor, key);
        }
        lemma_between_has_prefix(low, max, key);
    }
}

/// The pairs of a store's answer as mathematical values.
pub open spec fn pairs_view(pairs: Seq<(Vec<u8>, Vec<u8>)>) -> Seq<(Seq<u8>, Seq<u8>)> {
    Seq::new(pairs.len(), |i: int| (pairs[i].0@, pairs[i].1@))
}

/// The id under which a pair of a store's answer appears in a page.
pub open spec fn pair_id(collection: Seq<char>, pair: (Seq<u8>, Seq<u8>)) -> Seq<char> {
    id_of_key(collection, lossy_text(pair.0))
}

/// The members of the page that an answer holds: each pair's document under
/// its id. Of two pairs with one id the later one counts.
pub open spec fn page_members(collection: Seq<char>, pairs: Seq<(Seq<u8>, Seq<u8>)>) -> Map<
    Seq<char>,
    JsonValue,
>
    decreases pairs.len(),
{
    if pairs.len() == 0 {
        Map::empty()
    } else {
        page_members(collection, pairs.drop_last()).insert(
            pair_id(collection, pairs.last()),
            lenient_parse(pairs.last().1),
        )
    }
}

/// The ids of a page in the order of the answer, each where it first occurs.
pub open spec fn page_ids(collection: Seq<char>, pairs: Seq<(Seq<u8>, Seq<u8>)>) -> Seq<Seq<char>>
    decreases pairs.len(),
{
    if pairs.len() == 0 {
        Seq::empty()
    } else {
        let before = page_ids(collection, pairs.drop_last());
        if before.contains(pair_id(collection, pairs.last())) {
            before
        } else {
            before.push(pair_id(collection, pairs.last()))
        }
    }
}

/// The pairs of an answer that holds the documents `ids` of a collection,
/// each under its key, with the stored bytes `values`.
pub open spec fn pairs_of(collection: Seq<char>, ids: Seq<Seq<char>>, values: Seq<Seq<u8>>) -> Seq<
    (Seq<u8>, Seq<u8>),
> {
    Seq::new(ids.len(), |i: int| (key_bytes(collection, ids[i]), values[i]))
}

/// A page lists the documents of the answer: where the answer holds the
/// documents `ids`, each once, the page holds exactly these ids, in the order
/// of the answer, and under each id what its stored bytes hold.
pub proof fn law_page_lists_the_documents(
    collection: Seq<char>,
    ids: Seq<Seq<char>>,
    values: Seq<Seq<u8>>,
)
    requires
        ids.len() == values.len(),
        ids.no_duplicates(),
    ensures
        page_ids(collection, pairs_of(collection, ids, values)) == ids,
        page_members(collection, pairs_of(collection, ids, values)).dom() == ids.to_set(),
        forall|i: int|
            0 <= i < ids.len() ==> page_members(collection, pairs_of(collection, ids, values))[#[trigger] ids[i]]
                == lenient_parse(values[i]),
    decreases ids.len(),
{
    let pairs = pairs_of(collection, ids, values);
    if ids.len() == 0 {
        assert(page_members(collection, pairs).dom() =~= ids.to_set());
    } else {
        let last = ids.len() - 1;
        let before = pairs_of(collection, ids.drop_last(), values.drop_last());
        assert(pairs.drop_last() =~= before);
        law_page_lists_the_documents(collection, ids.drop_last(), values.drop_last());
        law_key_shows_its_id(collection, ids[last]);
        assert(pair_id(collection, pairs.last()) == ids[last]);
        assert(!ids.drop_last().contains(ids[last])) by {
            if ids.drop_last().contains(ids[last]) {
                let at = choose|at: int| 0 <= at < last && ids.drop_last()[at] == ids[last];
                assert(ids[at] == ids[last]);
            }
        }
        assert(ids.drop_last().push(ids[last]) =~= ids);
        assert(page_members(collection, pairs).dom() =~= ids.to_set()) by {
            assert forall|id: Seq<char>| ids.to_set().contains(id) <==> (ids.drop_last().to_set().contains(
                id,
            ) || id == ids[last]) by {
                if ids.contains(id) {
                    let at = choose|at: int| 0 <= at < ids.len() && ids[at] == id;
                    if at < last {
                        assert(ids.drop_last()[at] == id);
                    }
                }
                if ids.drop_last().contains(id) {
                    let at = choose|at: int| 0 <= at < last && ids.drop_last()[at] == id;
                    assert(ids[at] == id);
                }
            }
        }
        assert forall|i: int| 0 <= i < ids.len() implies page_members(collection, pairs)[#[trigger] ids[i]]
            == lenient_parse(values[i]) by {
            if i < last {
                assert(ids.drop_last()[i] == ids[i]);
                assert(values.drop_last()[i] == values[i]);
                assert(ids[i] != ids[last]);
            }
        }
    }
}

/// Whether a scan order asks for the descending direction: it does where it
/// is `d`; every other order is ascending.
pub fn is_descending(order: &str) -> (descending: bool)
    ensures
        descending == (order@ == "d"@),
{
    str_eq(order, "d")
}

/// The range of keys to ask the store for.
pub fn scan_bounds(collection: &str, cursor: &str, descending: bool) -> (range: KeyRange)
    ensures
        range@ == scan_range(collection@, cursor@, descending),
{
    let (low, high) = collection_bounds(collection);
    if descending {
        let end = if cursor.is_empty() {
            high
        } else {
            encode(collection, cursor)
        };
        KeyRange { start: low, end, end_inclusive: false }
    } else {
        let start = if cursor.is_empty() {
            low
        } else {
            let mut after = encode(collection, cursor);
            after.push(0u8);
            after
        };
        KeyRange { start, end: high, end_inclusive: true }
    }
}

/// The page that a store's answer holds: each document under its id, in the
/// order of the answer. Stored bytes that are no JSON text give `null`.
pub fn collect_page(collection: &str, pairs: &Vec<(Vec<u8>, Vec<u8>)>) -> (page: JsonObject)
    ensures
        page.wf(),
        page@ == page_members(collection@, pairs_view(pairs@)),
        page.keys() == page_ids(collection@, pairs_view(pairs@)),
{
    let ghost all = pairs_view(pairs@);
    let mut page = JsonObject::new();
    let mut i: usize = 0;
    assert(all.take(0) =~= Seq::<(Seq<u8>, Seq<u8>)>::empty());
    while i < pairs.len()
        invariant
            i <= pairs@.len(),
            all == pairs_view(pairs@),
            page.wf(),
            page@ == page_members(collection@, all.take(i as int)),
            page.keys() == page_ids(collection@, all.take(i as int)),
        decreases pairs@.len() - i,
    {
        proof {
            assert(all.take(i + 1).drop_last() =~= all.take(i as int));
            assert(all.take(i + 1).last() == all[i as int]);
            page.lemma_keys();
        }
        let id = document_id(collection, pairs[i].0.as_slice());
        let doc = decode_or_null(pairs[i].1.as_slice());
        page.insert(id, doc);
        i += 1;
    }
    assert(all.take(pairs@.len() as int) =~= all);
    page
}

/// The cursor for the page after this one: the id of its last document, or
/// `None` where the page is empty.
pub fn next_cursor(page: &JsonObject) -> (cursor: Option<String>)
    ensures
        match cursor {
            Some(id) => page.keys().len() > 0 && id@ == page.keys().last(),
            None => page.keys().len() == 0,
        },
{
    if page.len() == 0 {
        None
    } else {
        Some(page.key_at(page.len() - 1).to_owned())
    }
}

} // verus!
