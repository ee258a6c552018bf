//! Values at dotted paths inside an object.
//!
//! A path such as `profile.points` names the member `points` of the object
//! that stands under `profile`. Every piece between two dots is a key, the
//! empty one included.

use vstd::prelude::*;
use crate::json::{Json, JsonObject, JsonValue};
use crate::text::split_once;

verus! {

/// The keys that a path names, outermost first: the pieces between its dots.
pub open spec fn path_segments(path: Seq<char>) -> Seq<Seq<char>>
    decreases path.len(),
{
    match path.index_of_first('.') {
        Some(dot) => {
            proof {
                path.index_of_first_ensures('.');
            }
            seq![path.take(dot)] + path_segments(path.skip(dot + 1))
        },
        None => seq![path],
    }
}

/// The value at a path: each key but the last must lead to an object.
pub open spec fn deep_get(members: Map<Seq<char>, JsonValue>, path: Seq<Seq<char>>) -> Option<
    JsonValue,
>
    decreases path.len(),
{
    if path.len() == 0 || !members.contains_key(path[0]) {
        None
    } else if path.len() == 1 {
        Some(members[path[0]])
    } else {
        match members[path[0]] {
            JsonValue::Object(inner) => deep_get(inner, path.drop_first()),
            _ => None,
        }
    }
}

/// The object under `key`, or an empty one where `key` is missing or leads
/// to something else.
pub open spec fn object_under(members: Map<Seq<char>, JsonValue>, key: Seq<char>) -> Map<
    Seq<char>,
    JsonValue,
> {
    if members.contains_key(key) {
        match members[key] {
            JsonValue::Object(inner) => inner,
            _ => Map::empty(),
        }
    } else {
        Map::empty()
    }
}

/// The members after `value` was put at a path. Keys on the way that are
/// missing, or that lead to something that is no object, get a fresh object.
pub open spec fn deep_set(
    members: Map<Seq<char>, JsonValue>,
    path: Seq<Seq<char>>,
    value: JsonValue,
) -> Map<Seq<char>, JsonValue>
    decreases path.len(),
{
    if path.len() == 0 {
        members
    } else if path.len() == 1 {
        members.insert(path[0], value)
    } else {
        members.insert(
            path[0],
            JsonValue::Object(deep_set(object_under(members, path[0]), path.drop_first(), value)),
        )
    }
}

/// The members after the last key of a path was taken out of the object that
/// the keys before it lead to. Where they lead to no object nothing changes.
pub open spec fn deep_remove(members: Map<Seq<char>, JsonValue>, path: Seq<Seq<char>>) -> Map<
    Seq<char>,
    JsonValue,
>
    decreases path.len(),
{
    if path.len() == 0 {
        members
    } else if path.len() == 1 {
        members.remove(path[0])
    } else if members.contains_key(path[0]) {
        match members[path[0]] {
            JsonValue::Object(inner) => members.insert(
                path[0],
                JsonValue::Object(deep_remove(inner, path.drop_first())),
            ),
            _ => members,
        }
    } else {
        members
    }
}

/// A path without a dot is one key; one with a dot is the key before the
/// first dot and then the keys of what follows the dot.
pub proof fn lemma_path_segments(path: Seq<char>)
    ensures
        path_segments(path).len() >= 1,
        !path.contains('.') ==> path_segments(path) == seq![path],
        forall|head: Seq<char>, tail: Seq<char>|
            path == #[trigger] (head.push('.') + tail) && !head.contains('.') ==> path_segments(
                path,
            ) == seq![head] + path_segments(tail),
    decreases path.len(),
{
    path.index_of_first_ensures('.');
    match path.index_of_first('.') {
        Some(dot) => {
            lemma_path_segments(path.skip(dot + 1));
            assert forall|head: Seq<char>, tail: Seq<char>|
                path == #[trigger] (head.push('.') + tail) && !head.contains('.') implies path_segments(
                path,
            ) == seq![head] + path_segments(tail) by {
                assert(path[head.len() as int] == '.');
                if dot < head.len() {
                    assert(head[dot] == '.');
                }
                assert(dot == head.len());
                assert(path.take(dot) =~= head);
                assert(path.skip(dot + 1) =~= tail);
            }
        },
        None => {
            assert forall|head: Seq<char>, tail: Seq<char>|
                path == #[trigger] (head.push('.') + tail) && !head.contains('.') implies path_segments(
                path,
            ) == seq![head] + path_segments(tail) by {
                assert(path[head.len() as int] == '.');
            }
        },
    }
}

/// What was put at a path is what stands there.
pub proof fn law_get_after_set(
    members: Map<Seq<char>, JsonValue>,
    path: Seq<Seq<char>>,
    value: JsonValue,
)
    requires
        path.len() >= 1,
    ensures
        deep_get(deep_set(members, path, value), path) == Some(value),
    decreases path.len(),
{
    if path.len() > 1 {
        law_get_after_set(object_under(members, path[0]), path.drop_first(), value);
    }
}

/// Of two values put at one path the later one stands there, as if the
/// earlier one had never been put.
pub proof fn law_set_twice(
    members: Map<Seq<char>, JsonValue>,
    path: Seq<Seq<char>>,
    first: JsonValue,
    second: JsonValue,
)
    ensures
        deep_set(deep_set(members, path, first), path, second) == deep_set(members, path, second),
    decreases path.len(),
{
    let once = deep_set(members, path, first);
    if path.len() == 1 {
        assert(once.insert(path[0], second) =~= members.insert(path[0], second));
    } else if path.len() > 1 {
        let inner = object_under(members, path[0]);
        law_set_twice(inner, path.drop_first(), first, second);
        assert(object_under(once, path[0]) == deep_set(inner, path.drop_first(), first));
        assert(deep_set(once, path, second) =~= deep_set(members, path, second));
    }
}

/// Nothing stands at a path after its member was taken out.
pub proof fn law_get_after_remove(members: Map<Seq<char>, JsonValue>, path: Seq<Seq<char>>)
    requires
        path.len() >= 1,
    ensures
        deep_get(deep_remove(members, path), path) is None,
    decreases path.len(),
{
    if path.len() > 1 && members.contains_key(path[0]) {
        match members[path[0]] {
            JsonValue::Object(inner) => {
                law_get_after_remove(inner, path.drop_first());
            },
            _ => {},
        }
    }
}

/// Taking the member at a path out a second time changes nothing.
pub proof fn law_remove_twice(members: Map<Seq<char>, JsonValue>, path: Seq<Seq<char>>)
    ensures
        deep_remove(deep_remove(members, path), path) == deep_remove(members, path),
    decreases path.len(),
{
    let once = deep_remove(members, path);
    if path.len() == 1 {
        assert(once.remove(path[0]) =~= once);
    } else if path.len() > 1 && members.contains_key(path[0]) {
        match members[path[0]] {
            JsonValue::Object(inner) => {
                law_remove_twice(inner, path.drop_first());
                assert(once.insert(path[0], once[path[0]]) =~= once);
            },
            _ => {},
        }
    }
}

/// The value at a dotted path, if every key on the way leads to an object
/// and the last key is there.
pub fn get_deep<'a>(obj: &'a JsonObject, path: &str) -> (value: Option<&'a Json>)
    requires
        obj.wf(),
    ensures
        match value {
            Some(v) => deep_get(obj@, path_segments(path@)) == Some(v@) && v.wf(),
            None => deep_get(obj@, path_segments(path@)) is None,
        },
    decreases path@.len(),
{
    proof {
        lemma_path_segments(path@);
    }
    match split_once(path, '.') {
        None => obj.get(path),
        Some((head, tail)) => {
            proof {
                lemma_path_segments(tail@);
                assert((seq![head@] + path_segments(tail@)).drop_first() =~= path_segments(tail@));
            }
            match obj.get(head) {
                Some(Json::Object(inner)) => get_deep(inner, tail),
                _ => None,
            }
        },
    }
}

/// Puts `value` at a dotted path. Keys on the way that are missing get a
/// fresh object, and so does a key that leads to something that is no object:
/// what stood there is lost.
pub fn set_deep(obj: &mut JsonObject, path: &str, value: Json)
    requires
        old(obj).wf(),
        value.wf(),
    ensures
        final(obj).wf(),
        final(obj)@ == deep_set(old(obj)@, path_segments(path@), value@),
    decreases path@.len(),
{
    proof {
        lemma_path_segments(path@);
    }
    match split_once(path, '.') {
        None => {
            obj.insert(path.to_owned(), value);
        },
        Some((head, tail)) => {
            proof {
                lemma_path_segments(tail@);
                assert((seq![head@] + path_segments(tail@)).drop_first() =~= path_segments(tail@));
            }
            let previous = obj.insert(head.to_owned(), Json::Null);
            let mut inner = match previous {
                Some(Json::Object(o)) => o,
                _ => JsonObject::new(),
            };
            set_deep(&mut inner, tail, value);
            obj.insert(head.to_owned(), Json::Object(inner));
            assert(final(obj)@ =~= deep_set(old(obj)@, path_segments(path@), value@));
        },
    }
}

/// Takes the member at a dotted path out. Nothing changes where a key on the
/// way is missing or leads to something that is no object.
pub fn remove_deep(obj: &mut JsonObject, path: &str)
    requires
        old(obj).wf(),
    ensures
        final(obj).wf(),
        final(obj)@ == deep_remove(old(obj)@, path_segments(path@)),
    decreases path@.len(),
{
    proof {
        lemma_path_segments(path@);
    }
    match split_once(path, '.') {
        None => {
            obj.remove(path);
        },
        Some((head, tail)) => {
            proof {
                lemma_path_segments(tail@);
                assert((seq![head@] + path_segments(tail@)).drop_first() =~= path_segments(tail@));
            }
            let leads_to_object = match obj.get(head) {
                Some(Json::Object(_)) => true,
                _ => false,
            };
            if leads_to_object {
                let previous = obj.insert(head.to_owned(), Json::Null);
                let mut inner = match previous {
                    Some(Json::Object(o)) => o,
                    _ => JsonObject::new(),
                };
                remove_deep(&mut inner, tail);
                obj.insert(head.to_owned(), Json::Object(inner));
                assert(final(obj)@ =~= deep_remove(old(obj)@, path_segments(path@)));
            }
        },
    }
}

} // verus!
