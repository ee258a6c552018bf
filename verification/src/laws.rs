//! What holds of the operations when the store does its part.
//!
//! The store is a collaborator that this crate never sees. The laws here are
//! stated over what the crate expects of it: a map from keys to values that
//! answers a read with what it holds and carries a write out; a transaction
//! whose writes reach other readers when it commits; and scans that answer
//! with the keys of a range in their order. An operation is run against the
//! map by answering every request that the operation asks for.

use vstd::prelude::*;
use crate::codec::{json_parse, json_text};
use crate::errors::ErrorModel;
use crate::json::JsonValue;
use crate::key::{in_collection, key_bytes, lower_bound, upper_bound};
use crate::order::{bytes_le, bytes_lt, increasing, lemma_le_lt, lemma_lt_asymmetric, lemma_lt_irreflexive, lemma_prefix_lt, lemma_successor};
use crate::scan::{in_range, scan_range, RangeModel};
use crate::merge::merged;
use crate::transaction::{after_reply, batch_add_step, batch_delete_step, next_string, start_add, start_batch_add, start_batch_delete, start_batch_get, start_delete, start_get, start_scan, start_update, Awaiting, OutcomeModel, ReplyModel, RequestModel, StepModel};

verus! {

/// What a store holds after it has carried a request out.
pub open spec fn store_after(store: Map<Seq<u8>, Seq<u8>>, request: RequestModel) -> Map<
    Seq<u8>,
    Seq<u8>,
> {
    match request {
        RequestModel::Put { key, value } => store.insert(key, value),
        RequestModel::Delete { key } => store.remove(key),
        _ => store,
    }
}

/// What a store answers to a read of one key, a write or a removal. The
/// other requests have no answer here.
pub open spec fn store_reply(store: Map<Seq<u8>, Seq<u8>>, request: RequestModel) -> Option<
    ReplyModel,
> {
    match request {
        RequestModel::Get { key } => Some(ReplyModel::Value(store.get(key))),
        RequestModel::Put { key, value } => Some(ReplyModel::Done),
        RequestModel::Delete { key } => Some(ReplyModel::Done),
        _ => None,
    }
}

/// The outcome of an operation that is run against a store, and what the
/// store holds afterwards. There is no outcome where the operation asks for
/// more than `fuel` requests or for one that has no answer here.
pub open spec fn run(
    operation: (Awaiting, StepModel),
    store: Map<Seq<u8>, Seq<u8>>,
    fuel: nat,
) -> (Option<Result<OutcomeModel, ErrorModel>>, Map<Seq<u8>, Seq<u8>>)
    decreases fuel,
{
    match operation.1 {
        StepModel::Finished(outcome) => (Some(outcome), store),
        StepModel::Ask(request) => match store_reply(store, request) {
            Some(reply) if fuel > 0 => run(
                after_reply(operation.0, reply),
                store_after(store, request),
                (fuel - 1) as nat,
            ),
            _ => (None, store),
        },
    }
}

/// A document that was added under an id is what `get` gives for that id,
/// and reading it changes nothing. This holds of every document that comes
/// back from its own JSON text unchanged.
pub proof fn law_add_then_get(
    store: Map<Seq<u8>, Seq<u8>>,
    collection: Seq<char>,
    id: Seq<char>,
    doc: JsonValue,
)
    requires
        json_text(doc) matches Some(text) && json_parse(text) == Some(doc),
    ensures
        ({
            let added = run(start_add(collection, id, doc), store, 1);
            let read = run(start_get(collection, id), added.1, 1);
            &&& added.0 == Some(Ok::<OutcomeModel, ErrorModel>(OutcomeModel::Done))
            &&& read.0 == Some(
                Ok::<OutcomeModel, ErrorModel>(OutcomeModel::Document(Some(doc))),
            )
            &&& read.1 == added.1
        }),
{
    reveal_with_fuel(run, 2);
}

/// After `delete`, `get` gives nothing, whatever the store held; and a second
/// `delete` leaves the store as the first one left it.
pub proof fn law_delete_then_get(
    store: Map<Seq<u8>, Seq<u8>>,
    collection: Seq<char>,
    id: Seq<char>,
)
    ensures
        ({
            let deleted = run(start_delete(collection, id), store, 1);
            let read = run(start_get(collection, id), deleted.1, 1);
            let again = run(start_delete(collection, id), deleted.1, 1);
            &&& deleted.0 == Some(Ok::<OutcomeModel, ErrorModel>(OutcomeModel::Done))
            &&& read.0 == Some(Ok::<OutcomeModel, ErrorModel>(OutcomeModel::Document(None)))
            &&& read.1 == deleted.1
            &&& again.0 == Some(Ok::<OutcomeModel, ErrorModel>(OutcomeModel::Done))
            &&& again.1 == deleted.1
        }),
{
    reveal_with_fuel(run, 2);
    let key = key_bytes(collection, id);
    assert(store.remove(key).remove(key) =~= store.remove(key));
}

/// `update` is a read, a merge and a write: where the stored document can be
/// read, the update applies and the result has a JSON text, the store holds
/// that text under the document's key afterwards and nothing else has
/// changed. A missing document counts as an empty object.
pub proof fn law_update_writes_the_merged_document(
    store: Map<Seq<u8>, Seq<u8>>,
    collection: Seq<char>,
    id: Seq<char>,
    patch: Map<Seq<char>, JsonValue>,
    order: Seq<Seq<char>>,
    existing: JsonValue,
    after: JsonValue,
    text: Seq<u8>,
)
    requires
        match store.get(key_bytes(collection, id)) {
            Some(stored) => json_parse(stored) == Some(existing),
            None => existing == JsonValue::Object(Map::empty()),
        },
        merged(existing, patch, order) == Some(after),
        json_text(after) == Some(text),
    ensures
        run(start_update(collection, id, JsonValue::Object(patch), order), store, 2) == (
            Some(Ok::<OutcomeModel, ErrorModel>(OutcomeModel::Done)),
            store.insert(key_bytes(collection, id), text),
        ),
{
    reveal_with_fuel(run, 3);
}

/// An update that is no object, or one with an increment that leaves the
/// range of `i64`, fails and leaves the store as it was.
pub proof fn law_failed_update_writes_nothing(
    store: Map<Seq<u8>, Seq<u8>>,
    collection: Seq<char>,
    id: Seq<char>,
    fields: JsonValue,
    order: Seq<Seq<char>>,
)
    requires
        match fields {
            JsonValue::Object(patch) => match store.get(key_bytes(collection, id)) {
                Some(stored) => json_parse(stored) matches Some(existing) && merged(
                    existing,
                    patch,
                    order,
                ) is None,
                None => merged(JsonValue::Object(Map::empty()), patch, order) is None,
            },
            _ => true,
        },
    ensures
        ({
            let updated = run(start_update(collection, id, fields, order), store, 2);
            &&& updated.0 matches Some(Err(ErrorModel::InvalidUpdate(_)))
            &&& updated.1 == store
        }),
{
    reveal_with_fuel(run, 3);
}

/// What a store holds after the members of a batch were written, from the
/// member at `next` on.
pub open spec fn batch_written(
    store: Map<Seq<u8>, Seq<u8>>,
    collection: Seq<char>,
    items: Map<Seq<char>, JsonValue>,
    order: Seq<Seq<char>>,
    next: nat,
) -> Map<Seq<u8>, Seq<u8>>
    decreases order.len() - next,
{
    if next >= order.len() {
        store
    } else {
        batch_written(
            store.insert(
                key_bytes(collection, order[next as int]),
                json_text(items[order[next as int]])->Some_0,
            ),
            collection,
            items,
            order,
            next + 1,
        )
    }
}

proof fn lemma_batch_add_runs(
    store: Map<Seq<u8>, Seq<u8>>,
    collection: Seq<char>,
    items: Map<Seq<char>, JsonValue>,
    order: Seq<Seq<char>>,
    next: nat,
    fuel: nat,
)
    requires
        forall|i: int| 0 <= i < order.len() ==> json_text(items[#[trigger] order[i]]) is Some,
        next <= order.len(),
        fuel >= order.len() - next,
    ensures
        run(batch_add_step(collection, items, order, next), store, fuel) == (
            Some(Ok::<OutcomeModel, ErrorModel>(OutcomeModel::Done)),
            batch_written(store, collection, items, order, next),
        ),
    decreases order.len() - next,
{
    if next < order.len() {
        let key = key_bytes(collection, order[next as int]);
        let text = json_text(items[order[next as int]])->Some_0;
        lemma_batch_add_runs(
            store.insert(key, text),
            collection,
            items,
            order,
            next + 1,
            (fuel - 1) as nat,
        );
    }
}

/// `batch_add` is an `add` for every member: where each member has a JSON
/// text, the batch succeeds and the store holds each member's text under the
/// key of the member's id, the members written in their order.
pub proof fn law_batch_add_writes_every_member(
    store: Map<Seq<u8>, Seq<u8>>,
    collection: Seq<char>,
    items: Map<Seq<char>, JsonValue>,
    order: Seq<Seq<char>>,
)
    requires
        forall|i: int| 0 <= i < order.len() ==> json_text(items[#[trigger] order[i]]) is Some,
    ensures
        run(start_batch_add(collection, JsonValue::Object(items), order), store, order.len()) == (
            Some(Ok::<OutcomeModel, ErrorModel>(OutcomeModel::Done)),
            batch_written(store, collection, items, order, 0),
        ),
{
    lemma_batch_add_runs(store, collection, items, order, 0, order.len());
}

/// What a store holds after the ids of a batch were removed, from the id at
/// `next` on. An id that is no string removes nothing.
pub open spec fn batch_removed(
    store: Map<Seq<u8>, Seq<u8>>,
    collection: Seq<char>,
    ids: Seq<JsonValue>,
    next: nat,
) -> Map<Seq<u8>, Seq<u8>>
    decreases ids.len() - next,
{
    if next >= ids.len() {
        store
    } else {
        batch_removed(
            match ids[next as int] {
                JsonValue::String(id) => store.remove(key_bytes(collection, id)),
                _ => store,
            },
            collection,
            ids,
            next + 1,
        )
    }
}

proof fn lemma_batch_delete_runs(
    store: Map<Seq<u8>, Seq<u8>>,
    collection: Seq<char>,
    ids: Seq<JsonValue>,
    next: nat,
    fuel: nat,
)
    requires
        next <= ids.len(),
        fuel >= ids.len() - next,
    ensures
        run(batch_delete_step(collection, ids, next), store, fuel) == (
            Some(Ok::<OutcomeModel, ErrorModel>(OutcomeModel::Done)),
            batch_removed(store, collection, ids, next),
        ),
    decreases ids.len() - next,
{
    if next < ids.len() {
        match ids[next as int] {
            JsonValue::String(id) => {
                lemma_batch_delete_runs(
                    store.remove(key_bytes(collection, id)),
                    collection,
                    ids,
                    next + 1,
                    (fuel - 1) as nat,
                );
            },
            _ => {
                lemma_batch_delete_runs(store, collection, ids, next + 1, fuel);
            },
        }
    }
}

/// `batch_delete` is a `delete` for every id that is a string; the other
/// items are passed over.
pub proof fn law_batch_delete_removes_every_id(
    store: Map<Seq<u8>, Seq<u8>>,
    collection: Seq<char>,
    ids: Seq<JsonValue>,
)
    ensures
        run(start_batch_delete(collection, JsonValue::Array(ids)), store, ids.len()) == (
            Some(Ok::<OutcomeModel, ErrorModel>(OutcomeModel::Done)),
            batch_removed(store, collection, ids, 0),
        ),
{
    lemma_batch_delete_runs(store, collection, ids, 0, ids.len());
}

/// A store with a transaction under way: what every other reader sees, and
/// what the transaction sees.
pub struct Transacted {
    pub committed: Map<Seq<u8>, Seq<u8>>,
    pub pending: Map<Seq<u8>, Seq<u8>>,
}

/// The store after a request of the transaction. The writes of a transaction
/// reach the others when it commits; a rollback discards them.
pub open spec fn transacted_after(store: Transacted, request: RequestModel) -> Transacted {
    match request {
        RequestModel::Commit => Transacted { committed: store.pending, pending: store.pending },
        RequestModel::Rollback => Transacted { committed: store.committed, pending: store.committed },
        _ => Transacted {
            committed: store.committed,
            pending: store_after(store.pending, request),
        },
    }
}

/// A step leaves what the other readers see as it is.
pub open spec fn shows_nothing(step: StepModel, store: Transacted) -> bool {
    match step {
        StepModel::Ask(request) => transacted_after(store, request).committed == store.committed,
        StepModel::Finished(_) => true,
    }
}

/// No step of any operation changes what readers outside the transaction
/// see: an operation never asks for a commit or a rollback. That is left to
/// `commit` and `rollback`, which use the handle up.
pub proof fn law_operations_show_nothing_before_commit(
    store: Transacted,
    state: Awaiting,
    reply: ReplyModel,
    collection: Seq<char>,
    id: Seq<char>,
    doc: JsonValue,
    order: Seq<Seq<char>>,
    limit: u32,
    cursor: Seq<char>,
    direction: Seq<char>,
)
    ensures
        shows_nothing(after_reply(state, reply).1, store),
        shows_nothing(start_add(collection, id, doc).1, store),
        shows_nothing(start_get(collection, id).1, store),
        shows_nothing(start_delete(collection, id).1, store),
        shows_nothing(start_update(collection, id, doc, order).1, store),
        shows_nothing(start_scan(collection, limit, cursor, direction).1, store),
        shows_nothing(start_batch_add(collection, doc, order).1, store),
        shows_nothing(start_batch_get(collection, doc).1, store),
        shows_nothing(start_batch_delete(collection, doc).1, store),
{
}

/// The store after a sequence of requests of the transaction.
pub open spec fn transacted_after_all(store: Transacted, requests: Seq<RequestModel>) -> Transacted
    decreases requests.len(),
{
    if requests.len() == 0 {
        store
    } else {
        transacted_after(transacted_after_all(store, requests.drop_last()), requests.last())
    }
}

/// A rollback leaves the store as it was when the transaction began, whatever
/// the operations of the transaction asked for in between.
pub proof fn law_rollback_restores(store: Transacted, requests: Seq<RequestModel>)
    requires
        forall|i: int|
            0 <= i < requests.len() ==> !(#[trigger] requests[i] is Commit) && !(requests[i]
                is Rollback),
    ensures
        transacted_after(transacted_after_all(store, requests), RequestModel::Rollback)
            == (Transacted { committed: store.committed, pending: store.committed }),
    decreases requests.len(),
{
    if requests.len() > 0 {
        law_rollback_restores(store, requests.drop_last());
    }
}

/// The test that a key lies in a range.
pub open spec fn inside(range: RangeModel) -> spec_fn(Seq<u8>) -> bool {
    |key: Seq<u8>| in_range(range, key)
}

/// The test that a key lies in the range of a collection.
pub open spec fn of_collection(collection: Seq<char>) -> spec_fn(Seq<u8>) -> bool {
    |key: Seq<u8>| in_collection(collection, key)
}

/// The first `limit` keys of a sequence, or all of them where there are fewer.
pub open spec fn first_of(keys: Seq<Seq<u8>>, limit: nat) -> Seq<Seq<u8>> {
    if limit <= keys.len() {
        keys.take(limit as int)
    } else {
        keys
    }
}

/// The keys that an ordered store answers a scan with, where `keys` are the
/// keys that it holds, in their order: the first `limit` keys of the range,
/// counted from its upper end where the scan is reversed.
pub open spec fn scan_answer(keys: Seq<Seq<u8>>, range: RangeModel, limit: nat, reverse: bool) -> Seq<
    Seq<u8>,
> {
    let found = keys.filter(inside(range));
    first_of(
        if reverse {
            found.reverse()
        } else {
            found
        },
        limit,
    )
}

proof fn lemma_filter_alike(
    keys: Seq<Seq<u8>>,
    p: spec_fn(Seq<u8>) -> bool,
    q: spec_fn(Seq<u8>) -> bool,
)
    requires
        forall|i: int| 0 <= i < keys.len() ==> p(#[trigger] keys[i]) == q(keys[i]),
    ensures
        keys.filter(p) == keys.filter(q),
    decreases keys.len(),
{
    reveal(Seq::filter);
    if keys.len() > 0 {
        lemma_filter_alike(keys.drop_last(), p, q);
    }
}

proof fn lemma_filter_both(
    keys: Seq<Seq<u8>>,
    p: spec_fn(Seq<u8>) -> bool,
    q: spec_fn(Seq<u8>) -> bool,
    both: spec_fn(Seq<u8>) -> bool,
)
    requires
        forall|i: int| 0 <= i < keys.len() ==> both(#[trigger] keys[i]) == (p(keys[i]) && q(keys[i])),
    ensures
        keys.filter(both) == keys.filter(p).filter(q),
    decreases keys.len(),
{
    reveal(Seq::filter);
    if keys.len() > 0 {
        let init = keys.drop_last();
        lemma_filter_both(init, p, q, both);
        if p(keys.last()) {
            init.filter(p).lemma_filter_push(keys.last(), q);
        }
    }
}

proof fn lemma_filter_increasing(keys: Seq<Seq<u8>>, p: spec_fn(Seq<u8>) -> bool)
    requires
        increasing(keys),
    ensures
        increasing(keys.filter(p)),
    decreases keys.len(),
{
    reveal(Seq::filter);
    if keys.len() > 0 {
        let init = keys.drop_last();
        let kept = init.filter(p);
        lemma_filter_increasing(init, p);
        if p(keys.last()) {
            assert forall|i: int, j: int| 0 <= i < j < kept.len() + 1 implies bytes_lt(
                kept.push(keys.last())[i],
                kept.push(keys.last())[j],
            ) by {
                if j == kept.len() {
                    assert(kept.contains(kept[i]));
                    init.lemma_filter_contains_rev(p, kept[i]);
                    let at = choose|at: int| 0 <= at < init.len() && init[at] == kept[i];
                    assert(keys[at] == kept[i]);
                }
            }
        }
    }
}

proof fn lemma_filter_above(keys: Seq<Seq<u8>>, at: int, above: spec_fn(Seq<u8>) -> bool)
    requires
        increasing(keys),
        0 <= at < keys.len(),
        forall|i: int| 0 <= i < keys.len() ==> above(#[trigger] keys[i]) == bytes_lt(keys[at], keys[i]),
    ensures
        keys.filter(above) == keys.skip(at + 1),
    decreases keys.len(),
{
    reveal(Seq::filter);
    let init = keys.drop_last();
    let last = keys.len() - 1;
    if at == last {
        lemma_lt_irreflexive(keys[at]);
        assert forall|i: int| 0 <= i < init.len() implies !above(#[trigger] init[i]) by {
            assert(init[i] == keys[i]);
            lemma_lt_asymmetric(keys[i], keys[at]);
        }
        lemma_filter_nothing(init, above);
        assert(keys.skip(at + 1) =~= Seq::<Seq<u8>>::empty());
    } else {
        assert forall|i: int| 0 <= i < init.len() implies above(#[trigger] init[i]) == bytes_lt(
            init[at],
            init[i],
        ) by {
            assert(init[i] == keys[i]);
        }
        lemma_filter_above(init, at, above);
        assert(above(keys[last]));
        assert(init.skip(at + 1).push(keys[last]) =~= keys.skip(at + 1));
    }
}

proof fn lemma_filter_nothing(keys: Seq<Seq<u8>>, p: spec_fn(Seq<u8>) -> bool)
    requires
        forall|i: int| 0 <= i < keys.len() ==> !p(#[trigger] keys[i]),
    ensures
        keys.filter(p) == Seq::<Seq<u8>>::empty(),
    decreases keys.len(),
{
    reveal(Seq::filter);
    if keys.len() > 0 {
        lemma_filter_nothing(keys.drop_last(), p);
    } else {
        assert(keys =~= Seq::<Seq<u8>>::empty());
    }
}

proof fn lemma_filter_below(keys: Seq<Seq<u8>>, at: int, below: spec_fn(Seq<u8>) -> bool)
    requires
        increasing(keys),
        0 <= at < keys.len(),
        forall|i: int| 0 <= i < keys.len() ==> below(#[trigger] keys[i]) == bytes_lt(keys[i], keys[at]),
    ensures
        keys.filter(below) == keys.take(at),
    decreases keys.len(),
{
    reveal(Seq::filter);
    let init = keys.drop_last();
    let last = keys.len() - 1;
    if at == last {
        lemma_lt_irreflexive(keys[at]);
        assert forall|i: int| 0 <= i < init.len() implies below(#[trigger] init[i]) by {
            assert(init[i] == keys[i]);
        }
        lemma_filter_everything(init, below);
        assert(init =~= keys.take(at));
    } else {
        assert forall|i: int| 0 <= i < init.len() implies below(#[trigger] init[i]) == bytes_lt(
            init[i],
            init[at],
        ) by {
            assert(init[i] == keys[i]);
        }
        lemma_filter_below(init, at, below);
        lemma_lt_asymmetric(keys[at], keys[last]);
        assert(init.take(at) =~= keys.take(at));
    }
}

proof fn lemma_filter_everything(keys: Seq<Seq<u8>>, p: spec_fn(Seq<u8>) -> bool)
    requires
        forall|i: int| 0 <= i < keys.len() ==> p(#[trigger] keys[i]),
    ensures
        keys.filter(p) == keys,
    decreases keys.len(),
{
    reveal(Seq::filter);
    if keys.len() > 0 {
        lemma_filter_everything(keys.drop_last(), p);
        assert(keys.drop_last().push(keys.last()) =~= keys);
    }
}

/// The first page of a collection is the start of its keys: ascending, of
/// its keys in their order; descending, of its keys in the reverse order.
///
/// `keys` are the keys that the store holds, in their order. The upper end
/// of the collection's range must not be among them: that one key, the key
/// of the id U+10FFFF, is read upwards and passed over downwards.
pub proof fn law_first_page(keys: Seq<Seq<u8>>, collection: Seq<char>, limit: nat)
    requires
        increasing(keys),
        !keys.contains(upper_bound(collection)),
    ensures
        ({
            let all = keys.filter(of_collection(collection));
            &&& scan_answer(keys, scan_range(collection, Seq::empty(), false), limit, false)
                == first_of(all, limit)
            &&& scan_answer(keys, scan_range(collection, Seq::empty(), true), limit, true)
                == first_of(all.reverse(), limit)
        }),
{
    let up = inside(scan_range(collection, Seq::empty(), false));
    let down = inside(scan_range(collection, Seq::empty(), true));
    assert forall|i: int| 0 <= i < keys.len() implies up(#[trigger] keys[i]) == of_collection(
        collection,
    )(keys[i]) by {
        assert(keys.contains(keys[i]));
    }
    lemma_filter_alike(keys, up, of_collection(collection));
    lemma_filter_alike(keys, down, of_collection(collection));
}

/// The test that a key comes behind another one.
pub open spec fn above(key: Seq<u8>) -> spec_fn(Seq<u8>) -> bool {
    |other: Seq<u8>| bytes_lt(key, other)
}

/// The test that a key comes before another one.
pub open spec fn below(key: Seq<u8>) -> spec_fn(Seq<u8>) -> bool {
    |other: Seq<u8>| bytes_lt(other, key)
}

/// The page behind a cursor holds the keys of the collection on the far side
/// of the cursor's key, nearest first, whether or not the store still holds
/// that key: ascending, the keys above it; descending, the keys below it.
///
/// `keys` are the keys that the store holds, in their order. The upper end
/// of the collection's range must not be among them, as for the first page,
/// and the cursor's key must not lie above it.
pub proof fn law_page_behind_cursor(
    keys: Seq<Seq<u8>>,
    collection: Seq<char>,
    cursor: Seq<char>,
    limit: nat,
)
    requires
        increasing(keys),
        !keys.contains(upper_bound(collection)),
        cursor.len() > 0,
        bytes_le(key_bytes(collection, cursor), upper_bound(collection)),
    ensures
        ({
            let all = keys.filter(of_collection(collection));
            let here = key_bytes(collection, cursor);
            &&& scan_answer(keys, scan_range(collection, cursor, false), limit, false) == first_of(
                all.filter(above(here)),
                limit,
            )
            &&& scan_answer(keys, scan_range(collection, cursor, true), limit, true) == first_of(
                all.filter(below(here)).reverse(),
                limit,
            )
        }),
{
    let member = of_collection(collection);
    let here = key_bytes(collection, cursor);
    let low = lower_bound(collection);
    let high = upper_bound(collection);
    let up = inside(scan_range(collection, cursor, false));
    let down = inside(scan_range(collection, cursor, true));
    assert(bytes_le(low, here)) by {
        assert(here =~= low + vstd::utf8::encode_utf8(cursor));
        if vstd::utf8::encode_utf8(cursor).len() > 0 {
            lemma_prefix_lt(low, vstd::utf8::encode_utf8(cursor));
        } else {
            assert(here =~= low);
        }
    }
    assert forall|i: int| 0 <= i < keys.len() implies up(#[trigger] keys[i]) == (member(keys[i])
        && above(here)(keys[i])) by {
        let key = keys[i];
        assert(keys.contains(key));
        lemma_successor(here, key);
        if bytes_lt(here, key) {
            lemma_le_lt(low, here, key);
        }
    }
    assert forall|i: int| 0 <= i < keys.len() implies down(#[trigger] keys[i]) == (member(keys[i])
        && below(here)(keys[i])) by {
        let key = keys[i];
        if bytes_lt(key, here) {
            lemma_le_lt(key, here, high);
        }
    }
    lemma_filter_both(keys, member, above(here), up);
    lemma_filter_both(keys, member, below(here), down);
}

/// The page behind a cursor goes on where the page before it ended, without
/// overlap and without gap, and the descending pages run through the keys of
/// the collection in the reverse of the order of the ascending ones.
///
/// `keys` are the keys that the store holds, in their order, and `all` those
/// of them that lie in the collection's range. Where the cursor's key is the
/// key at position `at` of `all`, the ascending page is the start of what
/// follows that position in `all`, and the descending page is the start of
/// what follows the same key in the reverse of `all`. The upper end of the
/// collection's range must not be among the keys, as for the first page.
pub proof fn law_next_page(
    keys: Seq<Seq<u8>>,
    collection: Seq<char>,
    cursor: Seq<char>,
    at: int,
    limit: nat,
)
    requires
        increasing(keys),
        !keys.contains(upper_bound(collection)),
        cursor.len() > 0,
        0 <= at < keys.filter(of_collection(collection)).len(),
        keys.filter(of_collection(collection))[at] == key_bytes(collection, cursor),
    ensures
        ({
            let all = keys.filter(of_collection(collection));
            &&& scan_answer(keys, scan_range(collection, cursor, false), limit, false) == first_of(
                all.skip(at + 1),
                limit,
            )
            &&& scan_answer(keys, scan_range(collection, cursor, true), limit, true) == first_of(
                all.reverse().skip(all.len() - at),
                limit,
            )
        }),
{
    let member = of_collection(collection);
    let all = keys.filter(member);
    let here = key_bytes(collection, cursor);
    keys.lemma_filter_pred(member, at);
    assert(in_collection(collection, here));
    law_page_behind_cursor(keys, collection, cursor, limit);
    lemma_filter_increasing(keys, member);
    lemma_filter_above(all, at, above(here));
    lemma_filter_below(all, at, below(here));
    assert(all.take(at).reverse() =~= all.reverse().skip(all.len() - at));
}

} // verus!
