#![allow(dead_code)]

use osunbitdb::transaction::read_document;
use osunbitdb::{increment, Json, JsonObject, OsunbitDBError, Outcome, Step, StoreReply, StoreRequest, TransactionHandle};
use std::collections::BTreeMap;

type Store = BTreeMap<Vec<u8>, Vec<u8>>;

/// What an ordered key-value store answers to a request.
fn answer(store: &mut Store, request: StoreRequest) -> StoreReply {
    match request {
        StoreRequest::Get { key } => StoreReply::Value(store.get(&key).cloned()),
        StoreRequest::Put { key, value } => {
            store.insert(key, value);
            StoreReply::Done
        }
        StoreRequest::Delete { key } => {
            store.remove(&key);
            StoreReply::Done
        }
        StoreRequest::Scan { range, limit, reverse } => {
            let mut pairs: Vec<(Vec<u8>, Vec<u8>)> = store
                .iter()
                .filter(|(k, _)| **k >= range.start)
                .filter(|(k, _)| **k < range.end || (range.end_inclusive && **k == range.end))
                .map(|(k, v)| (k.clone(), v.clone()))
                .collect();
            if reverse {
                pairs.reverse();
            }
            pairs.truncate(limit as usize);
            StoreReply::Pairs(pairs)
        }
        StoreRequest::BatchGet { keys } => StoreReply::Pairs(
            keys.into_iter()
                .filter_map(|k| store.get(&k).cloned().map(|v| (k, v)))
                .collect(),
        ),
        StoreRequest::Commit | StoreRequest::Rollback => StoreReply::Done,
    }
}

/// A transaction: a handle and the store as the transaction sees it.
struct Tx {
    handle: TransactionHandle,
    view: Store,
}

impl Tx {
    fn drive(&mut self, first: Step) -> Result<Outcome, OsunbitDBError> {
        let mut step = first;
        loop {
            match step {
                Step::Finished(outcome) => return outcome,
                Step::Ask(request) => {
                    let reply = answer(&mut self.view, request);
                    step = self.handle.resume(reply);
                }
            }
        }
    }

    fn add(&mut self, collection: &str, id: &str, doc: &Json) -> Result<(), OsunbitDBError> {
        let step = self.handle.add(collection, id, doc);
        self.drive(step).map(|_| ())
    }

    fn get(&mut self, collection: &str, id: &str) -> Result<Option<Json>, OsunbitDBError> {
        let step = self.handle.get(collection, id);
        match self.drive(step)? {
            Outcome::Document(doc) => Ok(doc),
            other => panic!("get gave {:?}", other),
        }
    }

    fn delete(&mut self, collection: &str, id: &str) -> Result<(), OsunbitDBError> {
        let step = self.handle.delete(collection, id);
        self.drive(step).map(|_| ())
    }

    fn update(&mut self, collection: &str, id: &str, fields: &Json) -> Result<(), OsunbitDBError> {
        let step = self.handle.update(collection, id, fields);
        self.drive(step).map(|_| ())
    }

    fn scan(&mut self, collection: &str, limit: u32, cursor: &str, order: &str) -> Result<JsonObject, OsunbitDBError> {
        let step = self.handle.scan(collection, limit, cursor, order);
        match self.drive(step)? {
            Outcome::Page(page) => Ok(page),
            other => panic!("scan gave {:?}", other),
        }
    }

    fn batch_add(&mut self, collection: &str, items: &Json) -> Result<(), OsunbitDBError> {
        let step = self.handle.batch_add(collection, items);
        self.drive(step).map(|_| ())
    }

    fn batch_get(&mut self, collection: &str, ids: &Json) -> Result<JsonObject, OsunbitDBError> {
        let step = self.handle.batch_get(collection, ids);
        match self.drive(step)? {
            Outcome::Page(page) => Ok(page),
            other => panic!("batch_get gave {:?}", other),
        }
    }

    fn batch_delete(&mut self, collection: &str, ids: &Json) -> Result<(), OsunbitDBError> {
        let step = self.handle.batch_delete(collection, ids);
        self.drive(step).map(|_| ())
    }
}

/// A store whose every call is a transaction of its own.
struct Db {
    store: Store,
}

impl Db {
    fn new() -> Db {
        Db { store: Store::new() }
    }

    fn transaction(&self) -> Tx {
        Tx { handle: TransactionHandle::new(), view: self.store.clone() }
    }

    fn commit(&mut self, tx: Tx) {
        let Tx { handle, view } = tx;
        assert!(matches!(handle.commit(), StoreRequest::Commit));
        self.store = view;
    }

    fn rollback(&mut self, tx: Tx) {
        assert!(matches!(tx.handle.rollback(), StoreRequest::Rollback));
    }

    fn auto<T>(&mut self, op: impl FnOnce(&mut Tx) -> Result<T, OsunbitDBError>) -> Result<T, OsunbitDBError> {
        let mut tx = self.transaction();
        match op(&mut tx) {
            Ok(value) => {
                self.commit(tx);
                Ok(value)
            }
            Err(e) => {
                self.rollback(tx);
                Err(e)
            }
        }
    }

    fn add(&mut self, collection: &str, id: &str, doc: &Json) -> Result<(), OsunbitDBError> {
        self.auto(|tx| tx.add(collection, id, doc))
    }

    fn get(&mut self, collection: &str, id: &str) -> Result<Option<Json>, OsunbitDBError> {
        self.auto(|tx| tx.get(collection, id))
    }

    fn delete(&mut self, collection: &str, id: &str) -> Result<(), OsunbitDBError> {
        self.auto(|tx| tx.delete(collection, id))
    }

    fn update(&mut self, collection: &str, id: &str, fields: &Json) -> Result<(), OsunbitDBError> {
        self.auto(|tx| tx.update(collection, id, fields))
    }

    fn scan(&mut self, collection: &str, limit: u32, cursor: &str, order: &str) -> Result<JsonObject, OsunbitDBError> {
        self.auto(|tx| tx.scan(collection, limit, cursor, order))
    }

    fn batch_add(&mut self, collection: &str, items: &Json) -> Result<(), OsunbitDBError> {
        self.auto(|tx| tx.batch_add(collection, items))
    }

    fn batch_get(&mut self, collection: &str, ids: &Json) -> Result<JsonObject, OsunbitDBError> {
        self.auto(|tx| tx.batch_get(collection, ids))
    }

    fn batch_delete(&mut self, collection: &str, ids: &Json) -> Result<(), OsunbitDBError> {
        self.auto(|tx| tx.batch_delete(collection, ids))
    }
}

fn text(s: &str) -> Json {
    Json::String(s.to_string())
}

fn object(members: Vec<(&str, Json)>) -> Json {
    let mut o = JsonObject::new();
    for (key, value) in members {
        o.insert(key.to_string(), value);
    }
    Json::Object(o)
}

fn field<'a>(doc: &'a Json, key: &str) -> &'a Json {
    doc.as_object().unwrap().get(key).unwrap()
}

#[test]
fn add_then_get_gives_the_document_back() {
    let mut db = Db::new();
    let docs = vec![
        Json::Null,
        Json::Bool(false),
        Json::Int(-7),
        Json::Int(i64::MIN),
        Json::UInt(u64::MAX),
        Json::Float("2.5".to_string()),
        text("hello \"world\" \u{1F600}"),
        Json::Array(vec![Json::Int(1), text("two"), Json::Array(vec![])]),
        object(vec![("b", Json::Int(1)), ("a", object(vec![("deep", Json::Array(vec![Json::Null]))]))]),
    ];
    for (n, doc) in docs.iter().enumerate() {
        let id = format!("doc{}", n);
        db.add("things", &id, doc).unwrap();
        let back = db.get("things", &id).unwrap().unwrap();
        assert!(back.deep_eq(doc), "{:?} came back as {:?}", doc, back);
    }
}

#[test]
fn add_overwrites_what_stood_there() {
    let mut db = Db::new();
    db.add("things", "a", &Json::Int(1)).unwrap();
    db.add("things", "a", &text("new")).unwrap();
    assert!(db.get("things", "a").unwrap().unwrap().deep_eq(&text("new")));
    assert_eq!(db.store.len(), 1);
}

#[test]
fn delete_then_get_gives_nothing_and_a_second_delete_changes_nothing() {
    let mut db = Db::new();
    db.add("things", "a", &Json::Int(1)).unwrap();
    db.add("things", "b", &Json::Int(2)).unwrap();
    db.delete("things", "a").unwrap();
    assert!(db.get("things", "a").unwrap().is_none());
    let after_first = db.store.clone();
    db.delete("things", "a").unwrap();
    assert_eq!(db.store, after_first);
    assert!(db.get("things", "a").unwrap().is_none());
    assert!(db.get("things", "b").unwrap().is_some());
}

#[test]
fn add_asks_for_one_write_of_the_json_text() {
    let mut handle = TransactionHandle::new();
    let doc = object(vec![("name", text("Alice")), ("age", Json::Int(25))]);
    match handle.add("users", "u1", &doc) {
        Step::Ask(StoreRequest::Put { key, value }) => {
            assert_eq!(key, b"users:u1".to_vec());
            assert_eq!(value, b"{\"age\":25,\"name\":\"Alice\"}".to_vec());
        }
        other => panic!("add gave {:?}", other),
    }
    assert!(matches!(handle.resume(StoreReply::Done), Step::Finished(Ok(Outcome::Done))));
}

#[test]
fn get_asks_for_the_key_and_reads_the_answer() {
    let mut handle = TransactionHandle::new();
    match handle.get("users", "u1") {
        Step::Ask(StoreRequest::Get { key }) => assert_eq!(key, b"users:u1".to_vec()),
        other => panic!("get gave {:?}", other),
    }
    match handle.resume(StoreReply::Value(Some(b"{\"n\": 3}".to_vec()))) {
        Step::Finished(Ok(Outcome::Document(Some(doc)))) => assert_eq!(field(&doc, "n").as_i64(), Some(3)),
        other => panic!("resume gave {:?}", other),
    }
    assert!(matches!(handle.get("users", "u1"), Step::Ask(_)));
    assert!(matches!(
        handle.resume(StoreReply::Value(None)),
        Step::Finished(Ok(Outcome::Document(None)))
    ));
}

#[test]
fn get_fails_on_stored_bytes_that_are_no_json() {
    let mut handle = TransactionHandle::new();
    assert!(matches!(handle.get("users", "u1"), Step::Ask(_)));
    assert!(matches!(
        handle.resume(StoreReply::Value(Some(b"{oops".to_vec()))),
        Step::Finished(Err(OsunbitDBError::Serialization(_)))
    ));
    assert!(matches!(read_document(Some(b"".to_vec())), Err(OsunbitDBError::Serialization(_))));
    assert!(matches!(read_document(None), Ok(Outcome::Document(None))));
}

#[test]
fn delete_asks_for_one_removal() {
    let mut handle = TransactionHandle::new();
    match handle.delete("users", "u1") {
        Step::Ask(StoreRequest::Delete { key }) => assert_eq!(key, b"users:u1".to_vec()),
        other => panic!("delete gave {:?}", other),
    }
    assert!(matches!(handle.resume(StoreReply::Done), Step::Finished(Ok(Outcome::Done))));
}

#[test]
fn update_reads_merges_and_writes_back() {
    let mut handle = TransactionHandle::new();
    let fields = object(vec![("balance", increment(25)), ("seen", Json::Bool(true))]);
    match handle.update("users", "u2", &fields) {
        Step::Ask(StoreRequest::Get { key }) => assert_eq!(key, b"users:u2".to_vec()),
        other => panic!("update gave {:?}", other),
    }
    match handle.resume(StoreReply::Value(Some(b"{\"balance\":100,\"role\":\"admin\"}".to_vec()))) {
        Step::Ask(StoreRequest::Put { key, value }) => {
            assert_eq!(key, b"users:u2".to_vec());
            assert_eq!(value, b"{\"balance\":125,\"role\":\"admin\",\"seen\":true}".to_vec());
        }
        other => panic!("resume gave {:?}", other),
    }
    assert!(matches!(handle.resume(StoreReply::Done), Step::Finished(Ok(Outcome::Done))));
}

#[test]
fn update_of_a_missing_document_starts_from_an_empty_object() {
    let mut handle = TransactionHandle::new();
    let fields = object(vec![("a.b", Json::Int(1))]);
    assert!(matches!(handle.update("c", "x", &fields), Step::Ask(StoreRequest::Get { .. })));
    match handle.resume(StoreReply::Value(None)) {
        Step::Ask(StoreRequest::Put { value, .. }) => assert_eq!(value, b"{\"a\":{\"b\":1}}".to_vec()),
        other => panic!("resume gave {:?}", other),
    }
}

#[test]
fn update_with_fields_that_are_no_object_fails_before_anything_is_read() {
    let mut handle = TransactionHandle::new();
    for fields in [Json::Null, Json::Int(3), text("x"), Json::Array(vec![])] {
        match handle.update("users", "u1", &fields) {
            Step::Finished(Err(OsunbitDBError::InvalidUpdate(message))) => {
                assert_eq!(message, "update fields must be an object")
            }
            other => panic!("update gave {:?}", other),
        }
    }
    let mut db = Db::new();
    db.add("users", "u1", &Json::Int(1)).unwrap();
    let before = db.store.clone();
    assert!(db.update("users", "u1", &Json::Int(2)).is_err());
    assert_eq!(db.store, before);
}

#[test]
fn update_fails_where_an_increment_leaves_the_range() {
    let mut db = Db::new();
    db.add("users", "u1", &object(vec![("n", Json::Int(i64::MAX))])).unwrap();
    let before = db.store.clone();
    match db.update("users", "u1", &object(vec![("first", Json::Int(1)), ("n", increment(1))])) {
        Err(OsunbitDBError::InvalidUpdate(message)) => {
            assert_eq!(message, "increment leaves the range of a 64-bit integer")
        }
        other => panic!("update gave {:?}", other),
    }
    assert_eq!(db.store, before);
}

#[test]
fn update_fails_on_a_stored_document_that_is_no_json() {
    let mut handle = TransactionHandle::new();
    assert!(matches!(handle.update("c", "x", &object(vec![])), Step::Ask(_)));
    assert!(matches!(
        handle.resume(StoreReply::Value(Some(b"\xff".to_vec()))),
        Step::Finished(Err(OsunbitDBError::Serialization(_)))
    ));
}

#[test]
fn update_leaves_a_document_that_is_no_object_as_it_is() {
    let mut db = Db::new();
    db.add("c", "x", &Json::Array(vec![Json::Int(1)])).unwrap();
    db.update("c", "x", &object(vec![("a", Json::Int(1))])).unwrap();
    let back = db.get("c", "x").unwrap().unwrap();
    assert!(back.deep_eq(&Json::Array(vec![Json::Int(1)])));
}

#[test]
fn a_failure_of_the_store_ends_the_operation_with_its_message() {
    let mut handle = TransactionHandle::new();
    assert!(matches!(handle.get("c", "x"), Step::Ask(_)));
    match handle.resume(StoreReply::Failed("region unavailable".to_string())) {
        Step::Finished(Err(OsunbitDBError::Store(message))) => assert_eq!(message, "region unavailable"),
        other => panic!("resume gave {:?}", other),
    }
    assert!(matches!(handle.update("c", "x", &object(vec![])), Step::Ask(_)));
    assert!(matches!(
        handle.resume(StoreReply::Failed("conflict".to_string())),
        Step::Finished(Err(OsunbitDBError::Store(_)))
    ));
}

#[test]
fn an_answer_that_fits_no_request_is_refused() {
    let mut handle = TransactionHandle::new();
    match handle.resume(StoreReply::Done) {
        Step::Finished(Err(OsunbitDBError::InvalidUpdate(message))) => {
            assert_eq!(message, "the store's answer does not fit the request")
        }
        other => panic!("resume gave {:?}", other),
    }
    assert!(matches!(handle.get("c", "x"), Step::Ask(_)));
    assert!(matches!(
        handle.resume(StoreReply::Pairs(vec![])),
        Step::Finished(Err(OsunbitDBError::InvalidUpdate(_)))
    ));
    assert!(matches!(handle.delete("c", "x"), Step::Ask(_)));
    assert!(matches!(
        handle.resume(StoreReply::Value(None)),
        Step::Finished(Err(OsunbitDBError::InvalidUpdate(_)))
    ));
}

#[test]
fn commit_and_rollback_use_the_handle_up() {
    assert!(matches!(TransactionHandle::new().commit(), StoreRequest::Commit));
    assert!(matches!(TransactionHandle::new().rollback(), StoreRequest::Rollback));
}

#[test]
fn writes_of_a_transaction_show_only_after_commit() {
    let mut db = Db::new();
    db.add("c", "kept", &Json::Int(1)).unwrap();

    let mut tx = db.transaction();
    tx.add("c", "new", &Json::Int(2)).unwrap();
    tx.delete("c", "kept").unwrap();
    assert!(tx.get("c", "new").unwrap().is_some());
    assert!(db.get("c", "new").unwrap().is_none());
    assert!(db.get("c", "kept").unwrap().is_some());
    db.commit(tx);
    assert!(db.get("c", "new").unwrap().is_some());
    assert!(db.get("c", "kept").unwrap().is_none());

    let before = db.store.clone();
    let mut tx = db.transaction();
    tx.add("c", "other", &Json::Int(3)).unwrap();
    tx.update("c", "new", &object(vec![("a", Json::Int(1))])).unwrap();
    db.rollback(tx);
    assert_eq!(db.store, before);
}
