#![allow(dead_code)]

use osunbitdb::scan::{collect_page, is_descending, next_cursor, scan_bounds};
use osunbitdb::{Json, JsonObject, OsunbitDBError, Outcome, Step, StoreReply, StoreRequest, TransactionHandle};
use std::collections::BTreeMap;

type Store = BTreeMap<Vec<u8>, Vec<u8>>;

/// What an ordered key-value store answers to a request.
fn answer(store: &mut Store, request: StoreRequest) -> StoreReply {
    match request {
        StoreRequest::Get { key } => StoreReply::Value(store.get(&key).cloned()),
        StoreRequest::Put { key, value } => {
            store.insert(key, value);
            StoreReply::Done
        }
        StoreRequest::Delete { key } => {
            store.remove(&key);
            StoreReply::Done
        }
        StoreRequest::Scan { range, limit, reverse } => {
            let mut pairs: Vec<(Vec<u8>, Vec<u8>)> = store
                .iter()
                .filter(|(k, _)| **k >= range.start)
                .filter(|(k, _)| **k < range.end || (range.end_inclusive && **k == range.end))
                .map(|(k, v)| (k.clone(), v.clone()))
                .collect();
            if reverse {
                pairs.reverse();
            }
            pairs.truncate(limit as usize);
            StoreReply::Pairs(pairs)
        }
        StoreRequest::BatchGet { keys } => StoreReply::Pairs(
            keys.into_iter()
                .filter_map(|k| store.get(&k).cloned().map(|v| (k, v)))
                .collect(),
        ),
        StoreRequest::Commit | StoreRequest::Rollback => StoreReply::Done,
    }
}

/// A transaction: a handle and the store as the transaction sees it.
struct Tx {
    handle: TransactionHandle,
    view: Store,
}

impl Tx {
    fn drive(&mut self, first: Step) -> Result<Outcome, OsunbitDBError> {
        let mut step = first;
        loop {
            match step {
                Step::Finished(outcome) => return outcome,
                Step::Ask(request) => {
                    let reply = answer(&mut self.view, request);
                    step = self.handle.resume(reply);
                }
            }
        }
    }

    fn add(&mut self, collection: &str, id: &str, doc: &Json) -> Result<(), OsunbitDBError> {
        let step = self.handle.add(collection, id, doc);
        self.drive(step).map(|_| ())
    }

    fn get(&mut self, collection: &str, id: &str) -> Result<Option<Json>, OsunbitDBError> {
        let step = self.handle.get(collection, id);
        match self.drive(step)? {
            Outcome::Document(doc) => Ok(doc),
            other => panic!("get gave {:?}", other),
        }
    }

    fn delete(&mut self, collection: &str, id: &str) -> Result<(), OsunbitDBError> {
        let step = self.handle.delete(collection, id);
        self.drive(step).map(|_| ())
    }

    fn update(&mut self, collection: &str, id: &str, fields: &Json) -> Result<(), OsunbitDBError> {
        let step = self.handle.update(collection, id, fields);
        self.drive(step).map(|_| ())
    }

    fn scan(&mut self, collection: &str, limit: u32, cursor: &str, order: &str) -> Result<JsonObject, OsunbitDBError> {
        let step = self.handle.scan(collection, limit, cursor, order);
        match self.drive(step)? {
            Outcome::Page(page) => Ok(page),
            other => panic!("scan gave {:?}", other),
        }
    }

    fn batch_add(&mut self, collection: &str, items: &Json) -> Result<(), OsunbitDBError> {
        let step = self.handle.batch_add(collection, items);
        self.drive(step).map(|_| ())
    }

    fn batch_get(&mut self, collection: &str, ids: &Json) -> Result<JsonObject, OsunbitDBError> {
        let step = self.handle.batch_get(collection, ids);
        match self.drive(step)? {
            Outcome::Page(page) => Ok(page),
            other => panic!("batch_get gave {:?}", other),
        }
    }

    fn batch_delete(&mut self, collection: &str, ids: &Json) -> Result<(), OsunbitDBError> {
        let step = self.handle.batch_delete(collection, ids);
        self.drive(step).map(|_| ())
    }
}

/// A store whose every call is a transaction of its own.
struct Db {
    store: Store,
}

impl Db {
    fn new() -> Db {
        Db { store: Store::new() }
    }

    fn transaction(&self) -> Tx {
        Tx { handle: TransactionHandle::new(), view: self.store.clone() }
    }

    fn commit(&mut self, tx: Tx) {
        let Tx { handle, view } = tx;
        assert!(matches!(handle.commit(), StoreRequest::Commit));
        self.store = view;
    }

    fn rollback(&mut self, tx: Tx) {
        assert!(matches!(tx.handle.rollback(), StoreRequest::Rollback));
    }

    fn auto<T>(&mut self, op: impl FnOnce(&mut Tx) -> Result<T, OsunbitDBError>) -> Result<T, OsunbitDBError> {
        let mut tx = self.transaction();
        match op(&mut tx) {
            Ok(value) => {
                self.commit(tx);
                Ok(value)
            }
            Err(e) => {
                self.rollback(tx);
                Err(e)
            }
        }
    }

    fn add(&mut self, collection: &str, id: &str, doc: &Json) -> Result<(), OsunbitDBError> {
        self.auto(|tx| tx.add(collection, id, doc))
    }

    fn get(&mut self, collection: &str, id: &str) -> Result<Option<Json>, OsunbitDBError> {
        self.auto(|tx| tx.get(collection, id))
    }

    fn delete(&mut self, collection: &str, id: &str) -> Result<(), OsunbitDBError> {
        self.auto(|tx| tx.delete(collection, id))
    }

    fn update(&mut self, collection: &str, id: &str, fields: &Json) -> Result<(), OsunbitDBError> {
        self.auto(|tx| tx.update(collection, id, fields))
    }

    fn scan(&mut self, collection: &str, limit: u32, cursor: &str, order: &str) -> Result<JsonObject, OsunbitDBError> {
        self.auto(|tx| tx.scan(collection, limit, cursor, order))
    }

    fn batch_add(&mut self, collection: &str, items: &Json) -> Result<(), OsunbitDBError> {
        self.auto(|tx| tx.batch_add(collection, items))
    }

    fn batch_get(&mut self, collection: &str, ids: &Json) -> Result<JsonObject, OsunbitDBError> {
        self.auto(|tx| tx.batch_get(collection, ids))
    }

    fn batch_delete(&mut self, collection: &str, ids: &Json) -> Result<(), OsunbitDBError> {
        self.auto(|tx| tx.batch_delete(collection, ids))
    }
}

fn text(s: &str) -> Json {
    Json::String(s.to_string())
}

fn object(members: Vec<(&str, Json)>) -> Json {
    let mut o = JsonObject::new();
    for (key, value) in members {
        o.insert(key.to_string(), value);
    }
    Json::Object(o)
}

fn field<'a>(doc: &'a Json, key: &str) -> &'a Json {
    doc.as_object().unwrap().get(key).unwrap()
}

fn numbered(prefix: &str, label: &str, count: i64) -> Json {
    let mut docs = JsonObject::new();
    for i in 1..=count {
        let doc = object(vec![("index", Json::Int(i)), ("label", text(&format!("{} {}", label, i)))]);
        docs.insert(format!("{}_{:03}", prefix, i), doc);
    }
    Json::Object(docs)
}

/// The ids and indexes of a page, in the order of the page.
fn entries(page: &JsonObject) -> Vec<(String, i64)> {
    (0..page.len())
        .map(|i| (page.key_at(i).to_string(), field(page.value_at(i), "index").as_i64().unwrap()))
        .collect()
}

/// Reads a collection page by page and hands back the indexes of each page.
fn read_all(db: &mut Db, collection: &str, batch_size: u32, order: &str) -> Vec<Vec<i64>> {
    let mut pages = Vec::new();
    let mut cursor = String::new();
    for _ in 1..=20 {
        let page = db.scan(collection, batch_size, &cursor, order).unwrap();
        if page.is_empty() {
            break;
        }
        let found = entries(&page);
        cursor = found.last().unwrap().0.clone();
        assert_eq!(next_cursor(&page), Some(cursor.clone()));
        let short = found.len() < batch_size as usize;
        pages.push(found.into_iter().map(|(_, index)| index).collect());
        if short {
            break;
        }
    }
    pages
}

#[test]
fn scan_test_straightforward() {
    let mut db = Db::new();
    let batch_size = 5;
    let inbox_col = "inbox_test:u1";
    let txn_col = "transaction_test:u1";

    let inbox_docs = numbered("inbox", "Inbox message", 50);
    db.batch_add(inbox_col, &inbox_docs).unwrap();
    let txn_docs = numbered("transaction", "Transaction record", 50);
    db.batch_add(txn_col, &txn_docs).unwrap();

    for collection in [inbox_col, txn_col] {
        let up = read_all(&mut db, collection, batch_size, "a");
        assert_eq!(up.len(), 10);
        for (n, page) in up.iter().enumerate() {
            let first = 5 * n as i64 + 1;
            assert_eq!(page, &vec![first, first + 1, first + 2, first + 3, first + 4]);
        }

        let down = read_all(&mut db, collection, batch_size, "d");
        assert_eq!(down.len(), 10);
        for (n, page) in down.iter().enumerate() {
            let first = 50 - 5 * n as i64;
            assert_eq!(page, &vec![first, first - 1, first - 2, first - 3, first - 4]);
        }
    }

    let inbox_ids: Vec<Json> = (1..=50).map(|i| text(&format!("inbox_{:03}", i))).collect();
    let txn_ids: Vec<Json> = (1..=50).map(|i| text(&format!("transaction_{:03}", i))).collect();
    db.batch_delete(inbox_col, &Json::Array(inbox_ids)).unwrap();
    db.batch_delete(txn_col, &Json::Array(txn_ids)).unwrap();
    assert!(db.store.is_empty());
}

#[test]
fn ascending_pages_have_no_overlap_and_no_gap() {
    let mut db = Db::new();
    db.batch_add("inbox", &numbered("m", "Message", 50)).unwrap();

    let first = db.scan("inbox", 5, "", "a").unwrap();
    let ids: Vec<String> = entries(&first).into_iter().map(|(id, _)| id).collect();
    assert_eq!(ids, vec!["m_001", "m_002", "m_003", "m_004", "m_005"]);

    let second = db.scan("inbox", 5, "m_005", "a").unwrap();
    let ids: Vec<String> = entries(&second).into_iter().map(|(id, _)| id).collect();
    assert_eq!(ids, vec!["m_006", "m_007", "m_008", "m_009", "m_010"]);

    let mut cursor = String::new();
    let mut seen = Vec::new();
    for _ in 0..10 {
        let page = db.scan("inbox", 5, &cursor, "a").unwrap();
        assert_eq!(page.len(), 5);
        seen.extend(entries(&page).into_iter().map(|(_, index)| index));
        cursor = next_cursor(&page).unwrap();
    }
    assert_eq!(seen, (1..=50).collect::<Vec<i64>>());
    let eleventh = db.scan("inbox", 5, &cursor, "a").unwrap();
    assert!(eleventh.is_empty());
    assert_eq!(next_cursor(&eleventh), None);
}

#[test]
fn descending_pages_are_the_ascending_ones_reversed() {
    let mut db = Db::new();
    db.batch_add("inbox", &numbered("m", "Message", 23)).unwrap();

    let up: Vec<i64> = read_all(&mut db, "inbox", 4, "a").into_iter().flatten().collect();
    let mut down: Vec<i64> = read_all(&mut db, "inbox", 4, "d").into_iter().flatten().collect();
    assert_eq!(up, (1..=23).collect::<Vec<i64>>());
    down.reverse();
    assert_eq!(down, up);
}

#[test]
fn a_cursor_whose_document_is_gone_still_moves_on() {
    let mut db = Db::new();
    db.batch_add("inbox", &numbered("m", "Message", 6)).unwrap();
    db.delete("inbox", "m_003").unwrap();
    let page = db.scan("inbox", 2, "m_003", "a").unwrap();
    let ids: Vec<String> = entries(&page).into_iter().map(|(id, _)| id).collect();
    assert_eq!(ids, vec!["m_004", "m_005"]);
    let page = db.scan("inbox", 2, "m_003", "d").unwrap();
    let ids: Vec<String> = entries(&page).into_iter().map(|(id, _)| id).collect();
    assert_eq!(ids, vec!["m_002", "m_001"]);
}

#[test]
fn a_scan_stays_inside_its_collection() {
    let mut db = Db::new();
    db.add("user", "a", &Json::Int(1)).unwrap();
    db.add("user2", "b", &Json::Int(2)).unwrap();
    db.add("use", "c", &Json::Int(3)).unwrap();
    let page = db.scan("user", 10, "", "a").unwrap();
    assert_eq!(page.len(), 1);
    assert_eq!(page.key_at(0), "a");
    let page = db.scan("user", 10, "", "d").unwrap();
    assert_eq!(page.len(), 1);
}

#[test]
fn a_collection_whose_name_holds_the_separator_shares_its_range() {
    let mut db = Db::new();
    db.add("users", "u1", &Json::Int(1)).unwrap();
    db.add("users:u1:inbox", "m1", &Json::Int(2)).unwrap();
    let page = db.scan("users", 10, "", "a").unwrap();
    let ids: Vec<String> = (0..page.len()).map(|i| page.key_at(i).to_string()).collect();
    assert_eq!(ids, vec!["u1", "u1:inbox:m1"]);
}

#[test]
fn scan_bounds_are_exact_bytes() {
    let all_up = scan_bounds("c", "", false);
    assert_eq!(all_up.start, b"c:".to_vec());
    assert_eq!(all_up.end, vec![b'c', b':', 0xf4, 0x8f, 0xbf, 0xbf]);
    assert!(all_up.end_inclusive);

    let after = scan_bounds("c", "k", false);
    assert_eq!(after.start, vec![b'c', b':', b'k', 0]);
    assert_eq!(after.end, "c:\u{10FFFF}".as_bytes().to_vec());
    assert!(after.end_inclusive);

    let all_down = scan_bounds("c", "", true);
    assert_eq!(all_down.start, b"c:".to_vec());
    assert_eq!(all_down.end, "c:\u{10FFFF}".as_bytes().to_vec());
    assert!(!all_down.end_inclusive);

    let before = scan_bounds("c", "k", true);
    assert_eq!(before.start, b"c:".to_vec());
    assert_eq!(before.end, b"c:k".to_vec());
    assert!(!before.end_inclusive);
}

#[test]
fn only_d_asks_for_the_descending_direction() {
    assert!(is_descending("d"));
    assert!(!is_descending("a"));
    assert!(!is_descending(""));
    assert!(!is_descending("D"));
    assert!(!is_descending("desc"));
}

#[test]
fn scan_asks_the_store_for_the_range_and_the_limit() {
    let mut handle = TransactionHandle::new();
    match handle.scan("c", 5, "k", "d") {
        Step::Ask(StoreRequest::Scan { range, limit, reverse }) => {
            assert_eq!(range.start, b"c:".to_vec());
            assert_eq!(range.end, b"c:k".to_vec());
            assert!(!range.end_inclusive);
            assert_eq!(limit, 5);
            assert!(reverse);
        }
        other => panic!("scan gave {:?}", other),
    }
    match handle.scan("c", 7, "", "a") {
        Step::Ask(StoreRequest::Scan { limit, reverse, .. }) => {
            assert_eq!(limit, 7);
            assert!(!reverse);
        }
        other => panic!("scan gave {:?}", other),
    }
}

#[test]
fn a_page_size_of_zero_is_refused() {
    let mut db = Db::new();
    match db.scan("c", 0, "", "a") {
        Err(OsunbitDBError::InvalidUpdate(message)) => assert_eq!(message, "scan expects a page size above 0"),
        other => panic!("scan gave {:?}", other),
    }
}

#[test]
fn stored_bytes_that_are_no_json_read_as_null() {
    let pairs = vec![
        (b"c:a".to_vec(), b"{\"n\":1}".to_vec()),
        (b"c:b".to_vec(), b"{not json".to_vec()),
        (b"c:c".to_vec(), b"[1,2]".to_vec()),
    ];
    let page = collect_page("c", &pairs);
    assert_eq!(page.len(), 3);
    assert_eq!(field(page.get("a").unwrap(), "n").as_i64(), Some(1));
    assert!(page.get("b").unwrap().is_null());
    assert_eq!(page.get("c").unwrap().as_array().unwrap().len(), 2);
    assert_eq!(page.key_at(0), "a");
    assert_eq!(page.key_at(1), "b");
    assert_eq!(page.key_at(2), "c");
}

#[test]
fn a_key_without_the_prefix_appears_whole() {
    let pairs = vec![(b"other:a".to_vec(), b"1".to_vec()), (vec![b'c', b':', 0xff], b"2".to_vec())];
    let page = collect_page("c", &pairs);
    assert_eq!(page.key_at(0), "other:a");
    assert_eq!(page.key_at(1), "\u{FFFD}");
}
