//! Document operations as a conversation with the store.
//!
//! A [`TransactionHandle`] decides what to ask the store for and what to make
//! of its answers, and never touches the store itself. An operation hands back
//! a [`Step`]: either a request for the caller to perform on the store, whose
//! answer goes to [`TransactionHandle::resume`], or the operation's outcome.
//! The caller performs every request of one handle inside one transaction of
//! the store, and ends it with the request that `commit` or `rollback` gives.

use vstd::prelude::*;
use vstd::string::*;
use crate::codec::{decode_document, encode_document, json_parse, json_text};
use crate::errors::{ErrorModel, OsunbitDBError};
use crate::json::{seq_view, Json, JsonObject, JsonValue};
use crate::key::{encode, key_bytes};
use crate::merge::{clone_items, merge, merged};
use crate::scan::{collect_page, is_descending, page_ids, page_members, pairs_view, scan_bounds, scan_range, KeyRange, RangeModel};

verus! {

/// What the caller is to do on the store.
#[derive(Debug)]
pub enum StoreRequest {
    /// Read the value under a key.
    Get { key: Vec<u8> },
    /// Write a value under a key, whatever stood there.
    Put { key: Vec<u8>, value: Vec<u8> },
    /// Remove a key; a missing key is no error.
    Delete { key: Vec<u8> },
    /// Read at most `limit` pairs of a range: from its start upwards, or with
    /// `reverse` from its end downwards.
    Scan { range: KeyRange, limit: u32, reverse: bool },
    /// Read the pairs of those of the keys that the store holds.
    BatchGet { keys: Vec<Vec<u8>> },
    /// Make the transaction's writes final.
    Commit,
    /// Discard the transaction's writes.
    Rollback,
}

/// What the store answered.
#[derive(Debug)]
pub enum StoreReply {
    /// A write, a removal, a commit or a rollback was carried out.
    Done,
    /// The value under the key of a `Get`, if there is one.
    Value(Option<Vec<u8>>),
    /// The pairs of a `Scan` or a `BatchGet`, in the store's order.
    Pairs(Vec<(Vec<u8>, Vec<u8>)>),
    /// The store failed; this is its message.
    Failed(String),
}

/// What an operation gives once it is through.
#[derive(Debug)]
pub enum Outcome {
    /// The operation changed the store and gives nothing back.
    Done,
    /// The document that was asked for, if the store holds it.
    Document(Option<Json>),
    /// The documents of a page or a batch, each under its id.
    Page(JsonObject),
}

/// How an operation goes on.
#[derive(Debug)]
pub enum Step {
    /// Perform this request and hand the answer to `resume`.
    Ask(StoreRequest),
    /// The operation is through.
    Finished(Result<Outcome, OsunbitDBError>),
}

/// A request as a mathematical value.
pub enum RequestModel {
    Get { key: Seq<u8> },
    Put { key: Seq<u8>, value: Seq<u8> },
    Delete { key: Seq<u8> },
    Scan { range: RangeModel, limit: u32, reverse: bool },
    BatchGet { keys: Seq<Seq<u8>> },
    Commit,
    Rollback,
}

/// An answer of the store as a mathematical value.
pub enum ReplyModel {
    Done,
    Value(Option<Seq<u8>>),
    Pairs(Seq<(Seq<u8>, Seq<u8>)>),
    Failed(Seq<char>),
}

/// An outcome as a mathematical value.
pub enum OutcomeModel {
    Done,
    Document(Option<JsonValue>),
    /// The members of the page, and their ids in the page's order.
    Page { members: Map<Seq<char>, JsonValue>, ids: Seq<Seq<char>> },
}

/// A step as a mathematical value.
pub enum StepModel {
    Ask(RequestModel),
    Finished(Result<OutcomeModel, ErrorModel>),
}

/// What a handle is waiting for.
pub enum Awaiting {
    /// No operation is under way.
    Nothing,
    /// The store's word that a write or a removal was carried out.
    Ack,
    /// The stored bytes of the document that `get` asked for.
    Document,
    /// The stored bytes of the document that `update` will merge `patch`
    /// into, member by member in `order`, and write back under `key`.
    Update { key: Seq<u8>, patch: Map<Seq<char>, JsonValue>, order: Seq<Seq<char>> },
    /// The pairs of a page or a batch of `collection`.
    Page { collection: Seq<char> },
    /// The store's word on the write before the member at `next` of a batch.
    BatchAdd {
        collection: Seq<char>,
        items: Map<Seq<char>, JsonValue>,
        order: Seq<Seq<char>>,
        next: nat,
    },
    /// The store's word on the removal before the id at `next` of a batch.
    BatchDelete { collection: Seq<char>, ids: Seq<JsonValue>, next: nat },
}

/// The keys of a request as mathematical values.
pub open spec fn keys_view(keys: Seq<Vec<u8>>) -> Seq<Seq<u8>> {
    Seq::new(keys.len(), |i: int| keys[i]@)
}

impl View for StoreRequest {
    type V = RequestModel;

    open spec fn view(&self) -> RequestModel {
        match self {
            StoreRequest::Get { key } => RequestModel::Get { key: key@ },
            StoreRequest::Put { key, value } => RequestModel::Put { key: key@, value: value@ },
            StoreRequest::Delete { key } => RequestModel::Delete { key: key@ },
            StoreRequest::Scan { range, limit, reverse } => RequestModel::Scan {
                range: range@,
                limit: *limit,
                reverse: *reverse,
            },
            StoreRequest::BatchGet { keys } => RequestModel::BatchGet { keys: keys_view(keys@) },
            StoreRequest::Commit => RequestModel::Commit,
            StoreRequest::Rollback => RequestModel::Rollback,
        }
    }
}

impl View for StoreReply {
    type V = ReplyModel;

    open spec fn view(&self) -> ReplyModel {
        match self {
            StoreReply::Done => ReplyModel::Done,
            StoreReply::Value(stored) => ReplyModel::Value(
                match stored {
                    Some(bytes) => Some(bytes@),
                    None => None,
                },
            ),
            StoreReply::Pairs(pairs) => ReplyModel::Pairs(pairs_view(pairs@)),
            StoreReply::Failed(message) => ReplyModel::Failed(message@),
        }
    }
}

impl View for Outcome {
    type V = OutcomeModel;

    open spec fn view(&self) -> OutcomeModel {
        match self {
            Outcome::Done => OutcomeModel::Done,
            Outcome::Document(doc) => OutcomeModel::Document(
                match doc {
                    Some(d) => Some(d@),
                    None => None,
                },
            ),
            Outcome::Page(page) => OutcomeModel::Page { members: page@, ids: page.keys() },
        }
    }
}

impl View for Step {
    type V = StepModel;

    open spec fn view(&self) -> StepModel {
        match self {
            Step::Ask(request) => StepModel::Ask(request@),
            Step::Finished(outcome) => StepModel::Finished(
                match outcome {
                    Ok(o) => Ok(o@),
                    Err(e) => Err(e@),
                },
            ),
        }
    }
}

impl Step {
    /// Every document in the step is well formed.
    pub open spec fn wf(self) -> bool {
        match self {
            Step::Finished(Ok(Outcome::Document(Some(doc)))) => doc.wf(),
            Step::Finished(Ok(Outcome::Page(page))) => page.wf(),
            _ => true,
        }
    }
}

/// An operation that ends at once because an argument has the wrong shape.
pub open spec fn refused(message: Seq<char>) -> (Awaiting, StepModel) {
    (Awaiting::Nothing, StepModel::Finished(Err(ErrorModel::InvalidUpdate(message))))
}

/// An operation that ends with an outcome.
pub open spec fn finished(outcome: OutcomeModel) -> (Awaiting, StepModel) {
    (Awaiting::Nothing, StepModel::Finished(Ok(outcome)))
}

/// An operation that ends because a document cannot be written or read.
pub open spec fn unreadable() -> (Awaiting, StepModel) {
    (Awaiting::Nothing, StepModel::Finished(Err(ErrorModel::Serialization)))
}

/// `add`: write the document's text under its key.
pub open spec fn start_add(collection: Seq<char>, id: Seq<char>, doc: JsonValue) -> (
    Awaiting,
    StepModel,
) {
    match json_text(doc) {
        Some(text) => (
            Awaiting::Ack,
            StepModel::Ask(RequestModel::Put { key: key_bytes(collection, id), value: text }),
        ),
        None => unreadable(),
    }
}

/// `get`: read what stands under the document's key.
pub open spec fn start_get(collection: Seq<char>, id: Seq<char>) -> (Awaiting, StepModel) {
    (Awaiting::Document, StepModel::Ask(RequestModel::Get { key: key_bytes(collection, id) }))
}

/// `delete`: remove the document's key.
pub open spec fn start_delete(collection: Seq<char>, id: Seq<char>) -> (Awaiting, StepModel) {
    (Awaiting::Ack, StepModel::Ask(RequestModel::Delete { key: key_bytes(collection, id) }))
}

/// `update`: an update that is no object is refused before anything is
/// read; else the stored document is read first.
pub open spec fn start_update(
    collection: Seq<char>,
    id: Seq<char>,
    fields: JsonValue,
    order: Seq<Seq<char>>,
) -> (Awaiting, StepModel) {
    match fields {
        JsonValue::Object(patch) => (
            Awaiting::Update { key: key_bytes(collection, id), patch, order },
            StepModel::Ask(RequestModel::Get { key: key_bytes(collection, id) }),
        ),
        _ => refused("update fields must be an object"@),
    }
}

/// `scan`: a page size of 0 is refused; else the range behind the cursor is
/// asked for, downwards where the order is `d`.
pub open spec fn start_scan(collection: Seq<char>, limit: u32, cursor: Seq<char>, order: Seq<char>) -> (
    Awaiting,
    StepModel,
) {
    if limit == 0 {
        refused("scan expects a page size above 0"@)
    } else {
        (
            Awaiting::Page { collection },
            StepModel::Ask(
                RequestModel::Scan {
                    range: scan_range(collection, cursor, order == "d"@),
                    limit,
                    reverse: order == "d"@,
                },
            ),
        )
    }
}

/// A batch of writes from its member at `next` on: the batch is through
/// where there is none, and fails where that member cannot be written as
/// text; the members before it were written.
pub open spec fn batch_add_step(
    collection: Seq<char>,
    items: Map<Seq<char>, JsonValue>,
    order: Seq<Seq<char>>,
    next: nat,
) -> (Awaiting, StepModel) {
    if next >= order.len() {
        finished(OutcomeModel::Done)
    } else {
        match json_text(items[order[next as int]]) {
            Some(text) => (
                Awaiting::BatchAdd { collection, items, order, next: next + 1 },
                StepModel::Ask(
                    RequestModel::Put { key: key_bytes(collection, order[next as int]), value: text },
                ),
            ),
            None => unreadable(),
        }
    }
}

/// `batch_add`: the members of an object are written one after the other.
pub open spec fn start_batch_add(collection: Seq<char>, items: JsonValue, order: Seq<Seq<char>>) -> (
    Awaiting,
    StepModel,
) {
    match items {
        JsonValue::Object(members) => batch_add_step(collection, members, order, 0),
        _ => refused("batch_add expects a JSON object"@),
    }
}

/// The keys of those of `ids` that are strings, in their order.
pub open spec fn batch_keys(collection: Seq<char>, ids: Seq<JsonValue>) -> Seq<Seq<u8>>
    decreases ids.len(),
{
    if ids.len() == 0 {
        Seq::empty()
    } else {
        let before = batch_keys(collection, ids.drop_last());
        match ids.last() {
            JsonValue::String(id) => before.push(key_bytes(collection, id)),
            _ => before,
        }
    }
}

/// `batch_get`: the keys of the ids that are strings are asked for at once.
pub open spec fn start_batch_get(collection: Seq<char>, ids: JsonValue) -> (Awaiting, StepModel) {
    match ids {
        JsonValue::Array(items) => (
            Awaiting::Page { collection },
            StepModel::Ask(RequestModel::BatchGet { keys: batch_keys(collection, items) }),
        ),
        _ => refused("batch_get expects a JSON array of ids"@),
    }
}

/// The position of the first string among `ids` at or behind `from`.
pub open spec fn next_string(ids: Seq<JsonValue>, from: nat) -> Option<nat>
    decreases ids.len() - from,
{
    if from >= ids.len() {
        None
    } else if ids[from as int] is String {
        Some(from)
    } else {
        next_string(ids, from + 1)
    }
}

/// A batch of removals from the id at `next` on: the next id that is a
/// string is removed; the batch is through where there is none.
pub open spec fn batch_delete_step(collection: Seq<char>, ids: Seq<JsonValue>, next: nat) -> (
    Awaiting,
    StepModel,
) {
    match next_string(ids, next) {
        Some(at) => (
            Awaiting::BatchDelete { collection, ids, next: at + 1 },
            StepModel::Ask(
                RequestModel::Delete { key: key_bytes(collection, ids[at as int]->String_0) },
            ),
        ),
        None => finished(OutcomeModel::Done),
    }
}

/// `batch_delete`: the ids that are strings are removed one after the other.
pub open spec fn start_batch_delete(collection: Seq<char>, ids: JsonValue) -> (Awaiting, StepModel) {
    match ids {
        JsonValue::Array(items) => batch_delete_step(collection, items, 0),
        _ => refused("batch_delete expects a JSON array of ids"@),
    }
}

/// What `get` gives for what the store holds under the key.
pub open spec fn document_read(stored: Option<Seq<u8>>) -> Result<OutcomeModel, ErrorModel> {
    match stored {
        None => Ok(OutcomeModel::Document(None)),
        Some(text) => match json_parse(text) {
            Some(doc) => Ok(OutcomeModel::Document(Some(doc))),
            None => Err(ErrorModel::Serialization),
        },
    }
}

/// The second half of `update`: the update is merged into the stored
/// document, or into an empty object where there is none, and the result is
/// written back whole.
pub open spec fn update_write(
    key: Seq<u8>,
    patch: Map<Seq<char>, JsonValue>,
    order: Seq<Seq<char>>,
    stored: Option<Seq<u8>>,
) -> (Awaiting, StepModel) {
    let existing = match stored {
        None => Some(JsonValue::Object(Map::empty())),
        Some(text) => json_parse(text),
    };
    match existing {
        None => unreadable(),
        Some(doc) => match merged(doc, patch, order) {
            None => refused("increment leaves the range of a 64-bit integer"@),
            Some(after) => match json_text(after) {
                Some(text) => (
                    Awaiting::Ack,
                    StepModel::Ask(RequestModel::Put { key, value: text }),
                ),
                None => unreadable(),
            },
        },
    }
}

/// How an operation goes on after the store's answer.
///
/// A failure of the store ends the operation with the store's message. An
/// answer of a kind that the handle is not waiting for ends it with
/// `InvalidUpdate`.
pub open spec fn after_reply(state: Awaiting, reply: ReplyModel) -> (Awaiting, StepModel) {
    match (state, reply) {
        (_, ReplyModel::Failed(message)) => (
            Awaiting::Nothing,
            StepModel::Finished(Err(ErrorModel::Store(message))),
        ),
        (Awaiting::Ack, ReplyModel::Done) => finished(OutcomeModel::Done),
        (Awaiting::Document, ReplyModel::Value(stored)) => (
            Awaiting::Nothing,
            StepModel::Finished(document_read(stored)),
        ),
        (Awaiting::Update { key, patch, order }, ReplyModel::Value(stored)) => update_write(
            key,
            patch,
            order,
            stored,
        ),
        (Awaiting::Page { collection }, ReplyModel::Pairs(pairs)) => finished(
            OutcomeModel::Page {
                members: page_members(collection, pairs),
                ids: page_ids(collection, pairs),
            },
        ),
        (Awaiting::BatchAdd { collection, items, order, next }, ReplyModel::Done) => batch_add_step(
            collection,
            items,
            order,
            next,
        ),
        (Awaiting::BatchDelete { collection, ids, next }, ReplyModel::Done) => batch_delete_step(
            collection,
            ids,
            next,
        ),
        _ => refused("the store's answer does not fit the request"@),
    }
}

/// What a handle keeps of the operation under way.
enum Pending {
    Idle,
    Ack,
    Document,
    Update { key: Vec<u8>, fields: Json },
    Page { collection: String },
    BatchAdd { collection: String, items: JsonObject, next: usize },
    BatchDelete { collection: String, ids: Vec<Json>, next: usize },
}

/// One transaction's document operations.
pub struct TransactionHandle {
    pending: Pending,
}

impl View for TransactionHandle {
    type V = Awaiting;

    closed spec fn view(&self) -> Awaiting {
        match self.pending {
            Pending::Idle => Awaiting::Nothing,
            Pending::Ack => Awaiting::Ack,
            Pending::Document => Awaiting::Document,
            Pending::Update { key, fields } => Awaiting::Update {
                key: key@,
                patch: fields@->Object_0,
                order: fields->Object_0.keys(),
            },
            Pending::Page { collection } => Awaiting::Page { collection: collection@ },
            Pending::BatchAdd { collection, items, next } => Awaiting::BatchAdd {
                collection: collection@,
                items: items@,
                order: items.keys(),
                next: next as nat,
            },
            Pending::BatchDelete { collection, ids, next } => Awaiting::BatchDelete {
                collection: collection@,
                ids: seq_view(ids@),
                next: next as nat,
            },
        }
    }
}

/// The step that ends an operation because an argument has the wrong shape.
fn refuse(message: &str) -> (step: Step)
    ensures
        step@ == refused(message@).1,
        step.wf(),
{
    Step::Finished(Err(OsunbitDBError::InvalidUpdate(String::from_str(message))))
}

impl TransactionHandle {
    /// What the handle keeps of an operation under way is well formed.
    pub closed spec fn wf(&self) -> bool {
        match self.pending {
            Pending::Update { key, fields } => fields.wf() && fields is Object,
            Pending::BatchAdd { collection, items, next } => items.wf() && next <= items.keys().len(),
            Pending::BatchDelete { collection, ids, next } => next <= ids@.len(),
            _ => true,
        }
    }

    /// A handle with no operation under way.
    pub fn new() -> (handle: TransactionHandle)
        ensures
            handle.wf(),
            handle@ == Awaiting::Nothing,
    {
        TransactionHandle { pending: Pending::Idle }
    }

    /// Stores `value` as the document `id` of `collection`, whatever stood
    /// there.
    pub fn add(&mut self, collection: &str, id: &str, value: &Json) -> (step: Step)
        requires
            value.wf(),
        ensures
            (final(self)@, step@) == start_add(collection@, id@, value@),
            final(self).wf(),
            step.wf(),
    {
        match encode_document(value) {
            Ok(text) => {
                self.pending = Pending::Ack;
                Step::Ask(StoreRequest::Put { key: encode(collection, id), value: text })
            },
            Err(e) => {
                self.pending = Pending::Idle;
                Step::Finished(Err(e))
            },
        }
    }

    /// Reads the document `id` of `collection`.
    pub fn get(&mut self, collection: &str, id: &str) -> (step: Step)
        ensures
            (final(self)@, step@) == start_get(collection@, id@),
            final(self).wf(),
            step.wf(),
    {
        self.pending = Pending::Document;
        Step::Ask(StoreRequest::Get { key: encode(collection, id) })
    }

    /// Removes the document `id` of `collection`; a missing one is no error.
    pub fn delete(&mut self, collection: &str, id: &str) -> (step: Step)
        ensures
            (final(self)@, step@) == start_delete(collection@, id@),
            final(self).wf(),
            step.wf(),
    {
        self.pending = Pending::Ack;
        Step::Ask(StoreRequest::Delete { key: encode(collection, id) })
    }

    /// Merges `fields` into the document `id` of `collection`, or into an
    /// empty object where there is none, and stores the result.
    pub fn update(&mut self, collection: &str, id: &str, fields: &Json) -> (step: Step)
        requires
            fields.wf(),
        ensures
            (final(self)@, step@) == start_update(
                collection@,
                id@,
                fields@,
                match *fields {
                    Json::Object(patch) => patch.keys(),
                    _ => Seq::empty(),
                },
            ),
            final(self).wf(),
            step.wf(),
    {
        match fields {
            Json::Object(patch) => {
                self.pending = Pending::Update {
                    key: encode(collection, id),
                    fields: Json::Object(patch.clone()),
                };
                Step::Ask(StoreRequest::Get { key: encode(collection, id) })
            },
            _ => {
                self.pending = Pending::Idle;
                refuse("update fields must be an object")
            },
        }
    }

    /// Ends the transaction by making its writes final. The handle is used up.
    pub fn commit(self) -> (request: StoreRequest)
        ensures
            request@ == RequestModel::Commit,
    {
        StoreRequest::Commit
    }

    /// Ends the transaction by discarding its writes. The handle is used up.
    pub fn rollback(self) -> (request: StoreRequest)
        ensures
            request@ == RequestModel::Rollback,
    {
        StoreRequest::Rollback
    }
}

/// What `get` gives for what the store holds under the key: the document
/// that the bytes hold, or none where the key is missing.
pub fn read_document(stored: Option<Vec<u8>>) -> (outcome: Result<Outcome, OsunbitDBError>)
    ensures
        (match outcome {
            Ok(o) => Ok(o@),
            Err(e) => Err(e@),
        }) == document_read(
            match stored {
                Some(text) => Some(text@),
                None => None,
            },
        ),
        outcome matches Ok(Outcome::Document(Some(doc))) ==> doc.wf(),
{
    match stored {
        None => Ok(Outcome::Document(None)),
        Some(text) => match decode_document(text.as_slice()) {
            Ok(doc) => Ok(Outcome::Document(Some(doc))),
            Err(e) => Err(e),
        },
    }
}

impl TransactionHandle {
    /// Reads one page of `collection`: at most `limit` documents behind
    /// `cursor`, downwards where `order` is `d` and upwards else.
    pub fn scan(&mut self, collection: &str, limit: u32, cursor: &str, order: &str) -> (step: Step)
        ensures
            (final(self)@, step@) == start_scan(collection@, limit, cursor@, order@),
            final(self).wf(),
            step.wf(),
    {
        if limit == 0 {
            self.pending = Pending::Idle;
            return refuse("scan expects a page size above 0");
        }
        let reverse = is_descending(order);
        self.pending = Pending::Page { collection: collection.to_owned() };
        Step::Ask(
            StoreRequest::Scan { range: scan_bounds(collection, cursor, reverse), limit, reverse },
        )
    }

    /// Stores every member of `items_json` as a document of `collection`,
    /// under the member's key.
    pub fn batch_add(&mut self, collection: &str, items_json: &Json) -> (step: Step)
        requires
            items_json.wf(),
        ensures
            (final(self)@, step@) == start_batch_add(
                collection@,
                items_json@,
                match *items_json {
                    Json::Object(items) => items.keys(),
                    _ => Seq::empty(),
                },
            ),
            final(self).wf(),
            step.wf(),
    {
        match items_json {
            Json::Object(items) => self.batch_add_from(collection.to_owned(), items.clone(), 0),
            _ => {
                self.pending = Pending::Idle;
                refuse("batch_add expects a JSON object")
            },
        }
    }

    /// Reads the documents of `collection` whose ids `ids_json` lists. Items
    /// that are no strings are passed over.
    pub fn batch_get(&mut self, collection: &str, ids_json: &Json) -> (step: Step)
        ensures
            (final(self)@, step@) == start_batch_get(collection@, ids_json@),
            final(self).wf(),
            step.wf(),
    {
        match ids_json {
            Json::Array(ids) => {
                let ghost all = seq_view(ids@);
                let mut keys: Vec<Vec<u8>> = Vec::new();
                let mut i: usize = 0;
                assert(all.take(0) =~= Seq::<JsonValue>::empty());
                assert(keys_view(keys@) =~= Seq::<Seq<u8>>::empty());
                while i < ids.len()
                    invariant
                        i <= ids@.len(),
                        all == seq_view(ids@),
                        keys_view(keys@) == batch_keys(collection@, all.take(i as int)),
                    decreases ids@.len() - i,
                {
                    let ghost before = keys_view(keys@);
                    assert(all.take(i + 1).drop_last() =~= all.take(i as int));
                    assert(all.take(i + 1).last() == ids@[i as int]@);
                    match &ids[i] {
                        Json::String(id) => {
                            let key = encode(collection, id.as_str());
                            keys.push(key);
                            assert(keys_view(keys@) =~= before.push(key@));
                        },
                        _ => {},
                    }
                    i += 1;
                }
                assert(all.take(ids@.len() as int) =~= all);
                self.pending = Pending::Page { collection: collection.to_owned() };
                Step::Ask(StoreRequest::BatchGet { keys })
            },
            _ => {
                self.pending = Pending::Idle;
                refuse("batch_get expects a JSON array of ids")
            },
        }
    }

    /// Removes the documents of `collection` whose ids `ids_json` lists.
    /// Items that are no strings are passed over.
    pub fn batch_delete(&mut self, collection: &str, ids_json: &Json) -> (step: Step)
        ensures
            (final(self)@, step@) == start_batch_delete(collection@, ids_json@),
            final(self).wf(),
            step.wf(),
    {
        match ids_json {
            Json::Array(ids) => self.batch_delete_from(collection.to_owned(), clone_items(ids), 0),
            _ => {
                self.pending = Pending::Idle;
                refuse("batch_delete expects a JSON array of ids")
            },
        }
    }

    /// Goes on with the operation under way, given the store's answer to the
    /// request that the step before asked for.
    pub fn resume(&mut self, reply: StoreReply) -> (step: Step)
        requires
            old(self).wf(),
        ensures
            (final(self)@, step@) == after_reply(old(self)@, reply@),
            final(self).wf(),
            step.wf(),
    {
        let mut pending = Pending::Idle;
        core::mem::swap(&mut self.pending, &mut pending);
        match reply {
            StoreReply::Failed(message) => Step::Finished(Err(OsunbitDBError::Store(message))),
            StoreReply::Done => match pending {
                Pending::Ack => Step::Finished(Ok(Outcome::Done)),
                Pending::BatchAdd { collection, items, next } => self.batch_add_from(
                    collection,
                    items,
                    next,
                ),
                Pending::BatchDelete { collection, ids, next } => self.batch_delete_from(
                    collection,
                    ids,
                    next,
                ),
                _ => refuse("the store's answer does not fit the request"),
            },
            StoreReply::Value(stored) => match pending {
                Pending::Document => Step::Finished(read_document(stored)),
                Pending::Update { key, fields } => self.write_update(key, fields, stored),
                _ => refuse("the store's answer does not fit the request"),
            },
            StoreReply::Pairs(pairs) => match pending {
                Pending::Page { collection } => Step::Finished(
                    Ok(Outcome::Page(collect_page(collection.as_str(), &pairs))),
                ),
                _ => refuse("the store's answer does not fit the request"),
            },
        }
    }

    /// Writes the member at `next` of a batch, or ends the batch.
    fn batch_add_from(&mut self, collection: String, items: JsonObject, next: usize) -> (step: Step)
        requires
            items.wf(),
            next <= items.keys().len(),
        ensures
            (final(self)@, step@) == batch_add_step(
                collection@,
                items@,
                items.keys(),
                next as nat,
            ),
            final(self).wf(),
            step.wf(),
    {
        if next >= items.len() {
            self.pending = Pending::Idle;
            Step::Finished(Ok(Outcome::Done))
        } else {
            match encode_document(items.value_at(next)) {
                Ok(text) => {
                    let key = encode(collection.as_str(), items.key_at(next));
                    self.pending = Pending::BatchAdd { collection, items, next: next + 1 };
                    Step::Ask(StoreRequest::Put { key, value: text })
                },
                Err(e) => {
                    self.pending = Pending::Idle;
                    Step::Finished(Err(e))
                },
            }
        }
    }

    /// Removes the next id of a batch that is a string, or ends the batch.
    fn batch_delete_from(&mut self, collection: String, ids: Vec<Json>, next: usize) -> (step: Step)
        requires
            next <= ids@.len(),
        ensures
            (final(self)@, step@) == batch_delete_step(collection@, seq_view(ids@), next as nat),
            final(self).wf(),
            step.wf(),
    {
        let mut at = next;
        while at < ids.len()
            invariant
                next <= at <= ids@.len(),
                next_string(seq_view(ids@), next as nat) == next_string(seq_view(ids@), at as nat),
            decreases ids@.len() - at,
        {
            let found = match &ids[at] {
                Json::String(id) => Some(encode(collection.as_str(), id.as_str())),
                _ => None,
            };
            match found {
                Some(key) => {
                    self.pending = Pending::BatchDelete { collection, ids, next: at + 1 };
                    return Step::Ask(StoreRequest::Delete { key });
                },
                None => {},
            }
            at += 1;
        }
        self.pending = Pending::Idle;
        Step::Finished(Ok(Outcome::Done))
    }

    /// Merges the update into the stored document and asks for the result to
    /// be written.
    fn write_update(&mut self, key: Vec<u8>, fields: Json, stored: Option<Vec<u8>>) -> (step: Step)
        requires
            fields.wf(),
            fields is Object,
        ensures
            (final(self)@, step@) == update_write(
                key@,
                fields@->Object_0,
                fields->Object_0.keys(),
                match stored {
                    Some(text) => Some(text@),
                    None => None,
                },
            ),
            final(self).wf(),
            step.wf(),
    {
        self.pending = Pending::Idle;
        let existing = match stored {
            None => Json::Object(JsonObject::new()),
            Some(text) => match decode_document(text.as_slice()) {
                Ok(doc) => doc,
                Err(e) => {
                    return Step::Finished(Err(e));
                },
            },
        };
        match merge(existing, &fields) {
            Err(e) => Step::Finished(Err(e)),
            Ok(doc) => match encode_document(&doc) {
                Ok(text) => {
                    self.pending = Pending::Ack;
                    Step::Ask(StoreRequest::Put { key, value: text })
                },
                Err(e) => Step::Finished(Err(e)),
            },
        }
    }
}

} // verus!
