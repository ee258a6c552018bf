//! JSON documents: the executable tree and the mathematical value it stands for.

use vstd::prelude::*;
use vstd::set_lib::*;
use crate::text::str_eq;

verus! {

/// A JSON value as a mathematical object. An object is a finite map: the
/// order of its members is no part of the value.
pub enum JsonValue {
    Null,
    Bool(bool),
    /// A number that fits a signed 64-bit integer.
    Int(i64),
    /// An integer above `i64::MAX`.
    UInt(u64),
    /// Any other number, by its decimal text.
    Float(Seq<char>),
    String(Seq<char>),
    Array(Seq<JsonValue>),
    Object(Map<Seq<char>, JsonValue>),
}

impl JsonValue {
    /// The number, where the value is an integer that fits `i64`.
    pub open spec fn as_int(self) -> Option<i64> {
        match self {
            JsonValue::Int(i) => Some(i),
            _ => None,
        }
    }

    /// The characters, where the value is a string.
    pub open spec fn as_string(self) -> Option<Seq<char>> {
        match self {
            JsonValue::String(s) => Some(s),
            _ => None,
        }
    }

    /// The items, where the value is an array.
    pub open spec fn as_array(self) -> Option<Seq<JsonValue>> {
        match self {
            JsonValue::Array(items) => Some(items),
            _ => None,
        }
    }

    /// The members, where the value is an object.
    pub open spec fn as_object(self) -> Option<Map<Seq<char>, JsonValue>> {
        match self {
            JsonValue::Object(members) => Some(members),
            _ => None,
        }
    }
}

/// A JSON value. Two of them are the same value where `deep_eq` says so:
/// objects are compared as maps, everything else part by part.
#[derive(Debug)]
pub enum Json {
    Null,
    Bool(bool),
    /// A number that fits a signed 64-bit integer.
    Int(i64),
    /// An integer above `i64::MAX`; smaller ones are `Int`.
    UInt(u64),
    /// A number with a fraction or an exponent, kept as its decimal text: the
    /// shortest text that gives the number back. Two such numbers are equal
    /// where their texts are.
    Float(String),
    String(String),
    Array(Vec<Json>),
    Object(JsonObject),
}

/// A JSON object. It keeps its members in the order in which their keys were
/// first inserted and holds no key twice.
#[derive(Debug)]
pub struct JsonObject {
    entries: Vec<(String, Json)>,
}

/// The keys of a list of members, in order.
spec fn entry_keys(entries: Seq<(String, Json)>) -> Seq<Seq<char>> {
    Seq::new(entries.len(), |i: int| entries[i].0@)
}

/// The map that a list of members stands for; of two members with one key
/// the later one counts.
spec fn entries_map(entries: Seq<(String, Json)>) -> Map<Seq<char>, JsonValue>
    decreases entries,
{
    if entries.len() == 0 {
        Map::empty()
    } else {
        entries_map(entries.drop_last()).insert(entries.last().0@, entries.last().1.view())
    }
}

/// The values of a list of documents, one by one.
pub open spec fn seq_view(items: Seq<Json>) -> Seq<JsonValue>
    decreases items,
{
    Seq::new(
        items.len(),
        |i: int|
            if 0 <= i < items.len() {
                items[i].view()
            } else {
                JsonValue::Null
            },
    )
}

impl View for JsonObject {
    type V = Map<Seq<char>, JsonValue>;

    closed spec fn view(&self) -> Map<Seq<char>, JsonValue>
        decreases self,
    {
        entries_map(self.entries@)
    }
}

impl View for Json {
    type V = JsonValue;

    open spec fn view(&self) -> JsonValue
        decreases self,
    {
        match self {
            Json::Null => JsonValue::Null,
            Json::Bool(b) => JsonValue::Bool(*b),
            Json::Int(i) => JsonValue::Int(*i),
            Json::UInt(u) => JsonValue::UInt(*u),
            Json::Float(text) => JsonValue::Float(text@),
            Json::String(s) => JsonValue::String(s@),
            Json::Array(items) => JsonValue::Array(seq_view(items@)),
            Json::Object(o) => JsonValue::Object(o.view()),
        }
    }
}

proof fn lemma_entry_keys_push(entries: Seq<(String, Json)>, entry: (String, Json))
    ensures
        entry_keys(entries.push(entry)) == entry_keys(entries).push(entry.0@),
        entries_map(entries.push(entry)) == entries_map(entries).insert(entry.0@, entry.1@),
{
    assert(entries.push(entry).drop_last() == entries);
    assert(entry_keys(entries.push(entry)) =~= entry_keys(entries).push(entry.0@));
}

/// What the map of a list of members holds: its keys are the members' keys,
/// and where no key occurs twice each member's value stands under its key.
proof fn lemma_entries_map(entries: Seq<(String, Json)>)
    ensures
        entries_map(entries).dom().finite(),
        forall|k: Seq<char>| #[trigger]
            entries_map(entries).contains_key(k) <==> entry_keys(entries).contains(k),
        entry_keys(entries).no_duplicates() ==> entries_map(entries).dom().len()
            == entries.len(),
        entry_keys(entries).no_duplicates() ==> forall|i: int|
            0 <= i < entries.len() ==> entries_map(entries)[#[trigger] entry_keys(entries)[i]]
                == entries[i].1@,
    decreases entries.len(),
{
    let keys = entry_keys(entries);
    if entries.len() > 0 {
        let init = entries.drop_last();
        let last = entries.last();
        lemma_entries_map(init);
        assert(init.push(last) == entries);
        lemma_entry_keys_push(init, last);
        let init_keys = entry_keys(init);
        assert(keys == init_keys.push(last.0@));
        assert forall|k: Seq<char>| #[trigger]
            entries_map(entries).contains_key(k) <==> keys.contains(k) by {
            if keys.contains(k) {
                let i = choose|i: int| 0 <= i < keys.len() && keys[i] == k;
                if i < init_keys.len() {
                    assert(init_keys[i] == k);
                }
            }
            if entries_map(init).contains_key(k) {
                let i = choose|i: int| 0 <= i < init_keys.len() && init_keys[i] == k;
                assert(keys[i] == k);
            }
            if k == last.0@ {
                assert(keys[keys.len() - 1] == k);
            }
        }
        if keys.no_duplicates() {
            assert(init_keys.no_duplicates()) by {
                assert forall|i: int, j: int|
                    0 <= i < init_keys.len() && 0 <= j < init_keys.len() && i != j implies init_keys[i]
                    != init_keys[j] by {
                    assert(keys[i] == init_keys[i] && keys[j] == init_keys[j]);
                }
            }
            assert(!init_keys.contains(last.0@)) by {
                if init_keys.contains(last.0@) {
                    let i = choose|i: int| 0 <= i < init_keys.len() && init_keys[i] == last.0@;
                    assert(keys[i] == keys[keys.len() - 1]);
                }
            }
            assert(entries_map(entries).dom() == entries_map(init).dom().insert(last.0@));
            assert forall|i: int| 0 <= i < entries.len() implies entries_map(entries)[#[trigger] keys[i]]
                == entries[i].1@ by {
                if i < init.len() {
                    assert(init_keys[i] == keys[i]);
                    assert(init_keys.contains(keys[i]));
                    assert(init[i] == entries[i]);
                }
            }
        }
    } else {
        assert(entries_map(entries).dom() == Set::<Seq<char>>::empty());
    }
}

proof fn lemma_entries_congruent(a: Seq<(String, Json)>, b: Seq<(String, Json)>)
    requires
        a.len() == b.len(),
        forall|i: int| 0 <= i < a.len() ==> a[i].0@ == b[i].0@ && a[i].1@ == b[i].1@,
    ensures
        entry_keys(a) == entry_keys(b),
        entries_map(a) == entries_map(b),
    decreases a.len(),
{
    assert(entry_keys(a) =~= entry_keys(b));
    if a.len() > 0 {
        lemma_entries_congruent(a.drop_last(), b.drop_last());
    }
}

proof fn lemma_entries_update(entries: Seq<(String, Json)>, i: int, entry: (String, Json))
    requires
        entry_keys(entries).no_duplicates(),
        0 <= i < entries.len(),
        entry.0@ == entries[i].0@,
    ensures
        entry_keys(entries.update(i, entry)) == entry_keys(entries),
        entries_map(entries.update(i, entry)) == entries_map(entries).insert(entry.0@, entry.1@),
{
    let after = entries.update(i, entry);
    let keys = entry_keys(entries);
    assert(entry_keys(after) =~= keys);
    lemma_entries_map(entries);
    lemma_entries_map(after);
    let m1 = entries_map(after);
    let m2 = entries_map(entries).insert(entry.0@, entry.1@);
    assert(keys[i] == entry.0@);
    assert forall|k: Seq<char>| m1.contains_key(k) <==> m2.contains_key(k) by {}
    assert forall|k: Seq<char>| m1.contains_key(k) implies m1[k] == m2[k] by {
        let j = choose|j: int| 0 <= j < keys.len() && keys[j] == k;
        assert(m1[entry_keys(after)[j]] == after[j].1@);
        assert(entries_map(entries)[keys[j]] == entries[j].1@);
    }
    assert(m1 =~= m2);
}

proof fn lemma_entries_remove(entries: Seq<(String, Json)>, i: int)
    requires
        entry_keys(entries).no_duplicates(),
        0 <= i < entries.len(),
    ensures
        entry_keys(entries.remove(i)) == entry_keys(entries).remove(i),
        entry_keys(entries.remove(i)) == entry_keys(entries).remove_value(entries[i].0@),
        entry_keys(entries.remove(i)).no_duplicates(),
        entries_map(entries.remove(i)) == entries_map(entries).remove(entries[i].0@),
{
    let after = entries.remove(i);
    let keys = entry_keys(entries);
    let rest = entry_keys(after);
    assert(rest =~= keys.remove(i));
    assert(keys[i] == entries[i].0@);
    assert(keys.contains(keys[i]));
    keys.index_of_first_ensures(keys[i]);
    assert forall|a: int, b: int| 0 <= a < rest.len() && 0 <= b < rest.len() && a != b implies rest[a]
        != rest[b] by {
        let a0 = if a < i { a } else { a + 1 };
        let b0 = if b < i { b } else { b + 1 };
        assert(rest[a] == keys[a0] && rest[b] == keys[b0]);
    }
    lemma_entries_map(entries);
    lemma_entries_map(after);
    let m1 = entries_map(after);
    let m2 = entries_map(entries).remove(keys[i]);
    assert forall|k: Seq<char>| m1.contains_key(k) <==> m2.contains_key(k) by {
        if m1.contains_key(k) {
            let j = choose|j: int| 0 <= j < rest.len() && rest[j] == k;
            let j0 = if j < i { j } else { j + 1 };
            assert(keys[j0] == k);
        }
        if m2.contains_key(k) {
            let j0 = choose|j: int| 0 <= j < keys.len() && keys[j] == k;
            let j = if j0 < i { j0 } else { j0 - 1 };
            assert(rest[j] == k);
        }
    }
    assert forall|k: Seq<char>| m1.contains_key(k) implies m1[k] == m2[k] by {
        let j = choose|j: int| 0 <= j < rest.len() && rest[j] == k;
        let j0 = if j < i { j } else { j + 1 };
        assert(m1[rest[j]] == after[j].1@);
        assert(entries_map(entries)[keys[j0]] == entries[j0].1@);
    }
    assert(m1 =~= m2);
}

impl JsonObject {
    /// The keys in the order in which the object holds its members.
    pub closed spec fn keys(self) -> Seq<Seq<char>> {
        entry_keys(self.entries@)
    }

    /// No key occurs twice, and every member is well formed.
    pub closed spec fn wf(self) -> bool
        decreases self,
    {
        &&& entry_keys(self.entries@).no_duplicates()
        &&& forall|i: int| 0 <= i < self.entries@.len() ==> (#[trigger] self.entries@[i]).1.wf()
    }

    /// The keys of a well-formed object are exactly the domain of its map,
    /// each once.
    pub proof fn lemma_keys(self)
        requires
            self.wf(),
        ensures
            self.keys().no_duplicates(),
            self@.dom().finite(),
            self@.dom().len() == self.keys().len(),
            forall|k: Seq<char>| #[trigger] self@.contains_key(k) <==> self.keys().contains(k),
    {
        lemma_entries_map(self.entries@);
    }
}

impl JsonObject {
    /// An object without members.
    pub fn new() -> (object: JsonObject)
        ensures
            object.wf(),
            object@ == Map::<Seq<char>, JsonValue>::empty(),
            object.keys() == Seq::<Seq<char>>::empty(),
    {
        let object = JsonObject { entries: Vec::new() };
        assert(entry_keys(object.entries@) =~= Seq::<Seq<char>>::empty());
        object
    }

    /// The number of members.
    pub fn len(&self) -> (n: usize)
        ensures
            n == self.keys().len(),
    {
        self.entries.len()
    }

    /// Whether the object has no member.
    pub fn is_empty(&self) -> (empty: bool)
        ensures
            empty == (self.keys().len() == 0),
    {
        self.entries.len() == 0
    }

    /// The key of the member at position `i`.
    pub fn key_at(&self, i: usize) -> (key: &str)
        requires
            i < self.keys().len(),
        ensures
            key@ == self.keys()[i as int],
    {
        self.entries[i].0.as_str()
    }

    /// The value of the member at position `i`.
    pub fn value_at(&self, i: usize) -> (value: &Json)
        requires
            self.wf(),
            i < self.keys().len(),
        ensures
            value@ == self@[self.keys()[i as int]],
            value.wf(),
    {
        proof {
            lemma_entries_map(self.entries@);
        }
        &self.entries[i].1
    }

    /// The position of the member with the given key.
    pub fn index_of(&self, key: &str) -> (found: Option<usize>)
        ensures
            match found {
                Some(i) => i < self.keys().len() && self.keys()[i as int] == key@,
                None => !self.keys().contains(key@),
            },
    {
        let mut i: usize = 0;
        while i < self.entries.len()
            invariant
                i <= self.entries@.len(),
                forall|j: int| 0 <= j < i ==> self.keys()[j] != key@,
            decreases self.entries@.len() - i,
        {
            if str_eq(self.entries[i].0.as_str(), key) {
                return Some(i);
            }
            i += 1;
        }
        None
    }

    /// The value under `key`, if the object has such a member.
    pub fn get(&self, key: &str) -> (value: Option<&Json>)
        requires
            self.wf(),
        ensures
            value is Some <==> self@.contains_key(key@),
            value matches Some(v) ==> v@ == self@[key@] && v.wf(),
    {
        proof {
            lemma_entries_map(self.entries@);
        }
        match self.index_of(key) {
            Some(i) => Some(&self.entries[i].1),
            None => None,
        }
    }

    /// Whether the object has a member under `key`.
    pub fn contains_key(&self, key: &str) -> (found: bool)
        requires
            self.wf(),
        ensures
            found == self@.contains_key(key@),
    {
        self.get(key).is_some()
    }

    /// Puts `value` under `key` and hands back the value that stood there.
    /// A key that the object already has keeps its position; a new one goes
    /// to the end.
    pub fn insert(&mut self, key: String, value: Json) -> (previous: Option<Json>)
        requires
            old(self).wf(),
            value.wf(),
        ensures
            final(self).wf(),
            final(self)@ == old(self)@.insert(key@, value@),
            final(self).keys() == if old(self)@.contains_key(key@) {
                old(self).keys()
            } else {
                old(self).keys().push(key@)
            },
            match previous {
                Some(p) => old(self)@.contains_key(key@) && p@ == old(self)@[key@] && p.wf(),
                None => !old(self)@.contains_key(key@),
            },
    {
        let ghost before = self.entries@;
        proof {
            lemma_entries_map(before);
        }
        match self.index_of(key.as_str()) {
            Some(i) => {
                let ghost entry = (key, value);
                let mut replaced = (key, value);
                core::mem::swap(&mut self.entries[i], &mut replaced);
                proof {
                    assert(self.entries@ =~= before.update(i as int, entry));
                    lemma_entries_update(before, i as int, entry);
                    assert(entry_keys(before)[i as int] == key@);
                }
                Some(replaced.1)
            },
            None => {
                let entry = (key, value);
                self.entries.push(entry);
                proof {
                    lemma_entry_keys_push(before, entry);
                    let keys = entry_keys(self.entries@);
                    assert forall|a: int, b: int|
                        0 <= a < keys.len() && 0 <= b < keys.len() && a != b implies keys[a]
                        != keys[b] by {
                        if a < before.len() {
                            assert(entry_keys(before)[a] == keys[a]);
                        }
                        if b < before.len() {
                            assert(entry_keys(before)[b] == keys[b]);
                        }
                    }
                }
                None
            },
        }
    }

    /// Takes the member under `key` out and hands back its value. The other
    /// members keep their order.
    pub fn remove(&mut self, key: &str) -> (previous: Option<Json>)
        requires
            old(self).wf(),
        ensures
            final(self).wf(),
            final(self)@ == old(self)@.remove(key@),
            final(self).keys() == old(self).keys().remove_value(key@),
            match previous {
                Some(p) => old(self)@.contains_key(key@) && p@ == old(self)@[key@] && p.wf(),
                None => !old(self)@.contains_key(key@),
            },
    {
        let ghost before = self.entries@;
        proof {
            lemma_entries_map(before);
        }
        match self.index_of(key) {
            Some(i) => {
                let removed = self.entries.remove(i);
                proof {
                    lemma_entries_remove(before, i as int);
                    assert(entry_keys(before)[i as int] == key@);
                }
                Some(removed.1)
            },
            None => {
                proof {
                    entry_keys(before).index_of_first_ensures(key@);
                    assert(entries_map(before).remove(key@) =~= entries_map(before));
                }
                None
            },
        }
    }
}

impl Json {
    /// Every object inside holds each key once, and `UInt` is used only above
    /// `i64::MAX`.
    pub open spec fn wf(self) -> bool
        decreases self,
    {
        match self {
            Json::UInt(u) => u > i64::MAX,
            Json::Array(items) => forall|i: int|
                0 <= i < items@.len() ==> (#[trigger] items@[i]).wf(),
            Json::Object(o) => o.wf(),
            _ => true,
        }
    }
}

impl JsonObject {
    /// Whether two objects hold the same members, whatever their order.
    #[verifier::loop_isolation(false)]
    pub fn same_members(&self, other: &JsonObject) -> (same: bool)
        requires
            self.wf(),
            other.wf(),
        ensures
            same == (self@ == other@),
        decreases self,
    {
        proof {
            lemma_entries_map(self.entries@);
            lemma_entries_map(other.entries@);
        }
        if self.entries.len() != other.entries.len() {
            return false;
        }
        let mut i: usize = 0;
        while i < self.entries.len()
            invariant
                i <= self.entries@.len(),
                forall|j: int|
                    0 <= j < i ==> other@.contains_key(#[trigger] self.keys()[j]) && self@[self.keys()[j]]
                        == other@[self.keys()[j]],
            decreases self.entries@.len() - i,
        {
            match other.get(self.entries[i].0.as_str()) {
                None => {
                    assert(self@.contains_key(self.keys()[i as int]));
                    return false;
                },
                Some(theirs) => {
                    if !self.entries[i].1.deep_eq(theirs) {
                        assert(self@[self.keys()[i as int]] != other@[self.keys()[i as int]]);
                        return false;
                    }
                },
            }
            i += 1;
        }
        proof {
            assert(self@.dom().subset_of(other@.dom())) by {
                assert forall|k: Seq<char>| self@.dom().contains(k) implies other@.dom().contains(
                    k,
                ) by {
                    let j = choose|j: int| 0 <= j < self.keys().len() && self.keys()[j] == k;
                    assert(other@.contains_key(self.keys()[j]));
                }
            }
            lemma_subset_equality(self@.dom(), other@.dom());
            assert forall|k: Seq<char>| self@.contains_key(k) implies self@[k] == other@[k] by {
                let j = choose|j: int| 0 <= j < self.keys().len() && self.keys()[j] == k;
                assert(other@.contains_key(self.keys()[j]));
            }
            assert(self@ =~= other@);
        }
        true
    }
}

impl Clone for JsonObject {
    #[verifier::loop_isolation(false)]
    fn clone(&self) -> (copy: JsonObject)
        ensures
            copy@ == self@,
            copy.keys() == self.keys(),
            self.wf() ==> copy.wf(),
        decreases self,
    {
        let mut entries: Vec<(String, Json)> = Vec::new();
        let mut i: usize = 0;
        while i < self.entries.len()
            invariant
                i <= self.entries@.len(),
                entries@.len() == i,
                forall|j: int|
                    0 <= j < i ==> (#[trigger] entries@[j]).0@ == self.entries@[j].0@ && entries@[j].1@
                        == self.entries@[j].1@ && (self.entries@[j].1.wf() ==> entries@[j].1.wf()),
            decreases self.entries@.len() - i,
        {
            let key = self.entries[i].0.clone();
            let value = self.entries[i].1.clone();
            entries.push((key, value));
            i += 1;
        }
        proof {
            lemma_entries_congruent(entries@, self.entries@);
        }
        JsonObject { entries }
    }
}

impl Clone for Json {
    #[verifier::loop_isolation(false)]
    fn clone(&self) -> (copy: Json)
        ensures
            copy@ == self@,
            self.wf() ==> copy.wf(),
        decreases self,
    {
        match self {
            Json::Null => Json::Null,
            Json::Bool(b) => Json::Bool(*b),
            Json::Int(i) => Json::Int(*i),
            Json::UInt(u) => Json::UInt(*u),
            Json::Float(text) => Json::Float(text.clone()),
            Json::String(s) => Json::String(s.clone()),
            Json::Array(items) => {
                let mut copies: Vec<Json> = Vec::new();
                let mut i: usize = 0;
                while i < items.len()
                    invariant
                        i <= items@.len(),
                        copies@.len() == i,
                        forall|j: int|
                            0 <= j < i ==> (#[trigger] copies@[j])@ == items@[j]@ && (items@[j].wf()
                                ==> copies@[j].wf()),
                    decreases items@.len() - i,
                {
                    copies.push(items[i].clone());
                    i += 1;
                }
                assert(seq_view(copies@) =~= seq_view(items@));
                Json::Array(copies)
            },
            Json::Object(o) => Json::Object(o.clone()),
        }
    }
}

impl Json {
    /// The number, where the document is an integer that fits `i64`.
    pub fn as_i64(&self) -> (n: Option<i64>)
        ensures
            n == self@.as_int(),
    {
        match self {
            Json::Int(i) => Some(*i),
            _ => None,
        }
    }

    /// The text, where the document is a string.
    pub fn as_str(&self) -> (text: Option<&str>)
        ensures
            match text {
                Some(t) => self@.as_string() == Some(t@),
                None => self@.as_string() is None,
            },
    {
        match self {
            Json::String(s) => Some(s.as_str()),
            _ => None,
        }
    }

    /// The items, where the document is an array.
    pub fn as_array(&self) -> (items: Option<&Vec<Json>>)
        ensures
            match items {
                Some(v) => *self == Json::Array(*v),
                None => self@.as_array() is None,
            },
    {
        match self {
            Json::Array(items) => Some(items),
            _ => None,
        }
    }

    /// The object, where the document is one.
    pub fn as_object(&self) -> (object: Option<&JsonObject>)
        ensures
            match object {
                Some(o) => *self == Json::Object(*o),
                None => self@.as_object() is None,
            },
    {
        match self {
            Json::Object(o) => Some(o),
            _ => None,
        }
    }

    /// Whether the document is `null`.
    pub fn is_null(&self) -> (null: bool)
        ensures
            null == (self@ == JsonValue::Null),
    {
        match self {
            Json::Null => true,
            _ => false,
        }
    }

    /// Deep equality: the two documents stand for the same value. Objects are
    /// compared as maps, arrays item by item.
    #[verifier::loop_isolation(false)]
    pub fn deep_eq(&self, other: &Json) -> (same: bool)
        requires
            self.wf(),
            other.wf(),
        ensures
            same == (self@ == other@),
        decreases self,
    {
        match self {
            Json::Null => match other {
                Json::Null => true,
                _ => false,
            },
            Json::Bool(a) => match other {
                Json::Bool(b) => *a == *b,
                _ => false,
            },
            Json::Int(a) => match other {
                Json::Int(b) => *a == *b,
                _ => false,
            },
            Json::UInt(a) => match other {
                Json::UInt(b) => *a == *b,
                _ => false,
            },
            Json::Float(a) => match other {
                Json::Float(b) => str_eq(a.as_str(), b.as_str()),
                _ => false,
            },
            Json::String(a) => match other {
                Json::String(b) => str_eq(a.as_str(), b.as_str()),
                _ => false,
            },
            Json::Array(a) => match other {
                Json::Array(b) => {
                    if a.len() != b.len() {
                        assert(seq_view(a@).len() != seq_view(b@).len());
                        return false;
                    }
                    let mut i: usize = 0;
                    while i < a.len()
                        invariant
                            i <= a@.len(),
                            forall|j: int| 0 <= j < i ==> (#[trigger] a@[j])@ == b@[j]@,
                        decreases a@.len() - i,
                    {
                        if !a[i].deep_eq(&b[i]) {
                            assert(seq_view(a@)[i as int] != seq_view(b@)[i as int]);
                            return false;
                        }
                        i += 1;
                    }
                    assert(seq_view(a@) =~= seq_view(b@));
                    true
                },
                _ => false,
            },
            Json::Object(a) => match other {
                Json::Object(b) => a.same_members(b),
                _ => false,
            },
        }
    }
}

} // verus!
