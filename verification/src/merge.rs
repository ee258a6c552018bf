//! Merging an update into a document.
//!
//! An update is an object; each of its members names a dotted path and says
//! what to do there. A member whose value is an object with the member
//! `__op` asks for an operation (`inc`, `remove`, `array_union`,
//! `array_remove`); any other value is put at the path as it is.

use vstd::prelude::*;
use vstd::string::*;
use crate::errors::OsunbitDBError;
use crate::json::{seq_view, Json, JsonObject, JsonValue};
use crate::text::str_eq;
use crate::utils::{deep_get, deep_remove, deep_set, get_deep, law_get_after_set, law_set_twice, path_segments, remove_deep, set_deep};

verus! {

/// What an update asks for at one path, as a mathematical value.
pub enum FieldOp {
    /// Put this value there.
    Assign(JsonValue),
    /// Add this amount to the integer there.
    Increment(i64),
    /// Take the member out.
    Remove,
    /// Append those of these values that the array there does not hold yet.
    ArrayUnion(Seq<JsonValue>),
    /// Take every item that equals one of these values out of the array there.
    ArrayRemove(Seq<JsonValue>),
}

/// What an update asks for at one path.
#[derive(Debug)]
pub enum UpdateOp {
    Assign(Json),
    Increment(i64),
    Remove,
    ArrayUnion(Vec<Json>),
    ArrayRemove(Vec<Json>),
}

/// Every item of a list is well formed.
pub open spec fn all_wf(items: Seq<Json>) -> bool {
    forall|i: int| 0 <= i < items.len() ==> (#[trigger] items[i]).wf()
}

impl View for UpdateOp {
    type V = FieldOp;

    open spec fn view(&self) -> FieldOp {
        match self {
            UpdateOp::Assign(value) => FieldOp::Assign(value@),
            UpdateOp::Increment(amount) => FieldOp::Increment(*amount),
            UpdateOp::Remove => FieldOp::Remove,
            UpdateOp::ArrayUnion(values) => FieldOp::ArrayUnion(seq_view(values@)),
            UpdateOp::ArrayRemove(values) => FieldOp::ArrayRemove(seq_view(values@)),
        }
    }
}

impl UpdateOp {
    /// The documents that the operation carries are well formed.
    pub open spec fn wf(self) -> bool {
        match self {
            UpdateOp::Assign(value) => value.wf(),
            UpdateOp::ArrayUnion(values) => all_wf(values@),
            UpdateOp::ArrayRemove(values) => all_wf(values@),
            _ => true,
        }
    }
}

/// The integer under `key`, or 0 where there is none.
pub open spec fn int_at(members: Map<Seq<char>, JsonValue>, key: Seq<char>) -> i64 {
    match members.get(key) {
        Some(JsonValue::Int(i)) => i,
        _ => 0,
    }
}

/// The items of the array under `key`, or none where there is no array.
pub open spec fn array_at(members: Map<Seq<char>, JsonValue>, key: Seq<char>) -> Seq<JsonValue> {
    match members.get(key) {
        Some(JsonValue::Array(items)) => items,
        _ => Seq::empty(),
    }
}

/// What the value of an update's member asks for. An object whose `__op` is
/// no string, or names no known operation, is itself the value to put.
pub open spec fn field_op(request: JsonValue) -> FieldOp {
    match request {
        JsonValue::Object(members) => match members.get("__op"@) {
            Some(JsonValue::String(name)) => {
                if name == "inc"@ {
                    FieldOp::Increment(int_at(members, "amount"@))
                } else if name == "remove"@ {
                    FieldOp::Remove
                } else if name == "array_union"@ {
                    FieldOp::ArrayUnion(array_at(members, "values"@))
                } else if name == "array_remove"@ {
                    FieldOp::ArrayRemove(array_at(members, "values"@))
                } else {
                    FieldOp::Assign(request)
                }
            },
            _ => FieldOp::Assign(request),
        },
        _ => FieldOp::Assign(request),
    }
}

/// An array after those of `values` that it does not hold yet were appended,
/// one after the other: a value that occurs twice in `values` is appended once.
pub open spec fn union_values(existing: Seq<JsonValue>, values: Seq<JsonValue>) -> Seq<JsonValue>
    decreases values.len(),
{
    if values.len() == 0 {
        existing
    } else {
        let so_far = union_values(existing, values.drop_last());
        if so_far.contains(values.last()) {
            so_far
        } else {
            so_far.push(values.last())
        }
    }
}

/// An array without the items that equal one of `values`.
pub open spec fn remaining_values(existing: Seq<JsonValue>, values: Seq<JsonValue>) -> Seq<
    JsonValue,
> {
    existing.filter(|item: JsonValue| !values.contains(item))
}

/// The integer at a path, or 0 where there is none.
pub open spec fn int_at_path(members: Map<Seq<char>, JsonValue>, path: Seq<Seq<char>>) -> i64 {
    match deep_get(members, path) {
        Some(JsonValue::Int(i)) => i,
        _ => 0,
    }
}

/// The items of the array at a path, or none where there is no array.
pub open spec fn array_at_path(members: Map<Seq<char>, JsonValue>, path: Seq<Seq<char>>) -> Seq<
    JsonValue,
> {
    match deep_get(members, path) {
        Some(JsonValue::Array(items)) => items,
        _ => Seq::empty(),
    }
}

/// The members of a document after one operation at one path, or `None`
/// where an increment leaves the range of `i64`.
pub open spec fn apply_op(
    members: Map<Seq<char>, JsonValue>,
    path: Seq<Seq<char>>,
    op: FieldOp,
) -> Option<Map<Seq<char>, JsonValue>> {
    match op {
        FieldOp::Assign(value) => Some(deep_set(members, path, value)),
        FieldOp::Increment(amount) => {
            let sum = int_at_path(members, path) + amount;
            if i64::MIN <= sum <= i64::MAX {
                Some(deep_set(members, path, JsonValue::Int(sum as i64)))
            } else {
                None
            }
        },
        FieldOp::Remove => Some(deep_remove(members, path)),
        FieldOp::ArrayUnion(values) => Some(
            deep_set(
                members,
                path,
                JsonValue::Array(union_values(array_at_path(members, path), values)),
            ),
        ),
        FieldOp::ArrayRemove(values) => Some(
            deep_set(
                members,
                path,
                JsonValue::Array(remaining_values(array_at_path(members, path), values)),
            ),
        ),
    }
}

/// The members of a document after the members of an update were applied in
/// the given order, each to what the ones before it left; `None` where one
/// of them fails.
pub open spec fn merge_fields(
    members: Map<Seq<char>, JsonValue>,
    patch: Map<Seq<char>, JsonValue>,
    order: Seq<Seq<char>>,
) -> Option<Map<Seq<char>, JsonValue>>
    decreases order.len(),
{
    if order.len() == 0 {
        Some(members)
    } else {
        match merge_fields(members, patch, order.drop_last()) {
            Some(so_far) => apply_op(
                so_far,
                path_segments(order.last()),
                field_op(patch[order.last()]),
            ),
            None => None,
        }
    }
}

/// A document after an update. A document that is no object stays as it is.
pub open spec fn merged(
    existing: JsonValue,
    patch: Map<Seq<char>, JsonValue>,
    order: Seq<Seq<char>>,
) -> Option<JsonValue> {
    match existing {
        JsonValue::Object(members) => match merge_fields(members, patch, order) {
            Some(after) => Some(JsonValue::Object(after)),
            None => None,
        },
        _ => Some(existing),
    }
}

/// An array union keeps the array as it is and appends behind it, in their
/// order, the values that the array does not hold yet, each once.
pub proof fn law_union_appends_each_new_value_once(
    existing: Seq<JsonValue>,
    values: Seq<JsonValue>,
)
    ensures
        ({
            let all = union_values(existing, values);
            &&& existing.is_prefix_of(all)
            &&& forall|i: int| 0 <= i < values.len() ==> all.contains(#[trigger] values[i])
            &&& forall|i: int|
                existing.len() <= i < all.len() ==> values.contains(#[trigger] all[i])
                    && !all.take(i).contains(all[i])
        }),
    decreases values.len(),
{
    let all = union_values(existing, values);
    if values.len() == 0 {
        assert(existing =~= all.subrange(0, existing.len() as int));
    } else {
        let init = values.drop_last();
        let last = values.last();
        let so_far = union_values(existing, init);
        law_union_appends_each_new_value_once(existing, init);
        assert(existing =~= so_far.subrange(0, existing.len() as int));
        assert(existing =~= all.subrange(0, existing.len() as int));
        assert forall|i: int| 0 <= i < values.len() implies all.contains(#[trigger] values[i]) by {
            if i < init.len() {
                assert(so_far.contains(init[i]));
                let at = choose|at: int| 0 <= at < so_far.len() && so_far[at] == init[i];
                assert(all[at] == values[i]);
            } else if so_far.contains(last) {
                let at = choose|at: int| 0 <= at < so_far.len() && so_far[at] == last;
                assert(all[at] == last);
            } else {
                assert(all[so_far.len() as int] == last);
            }
        }
        assert forall|i: int| existing.len() <= i < all.len() implies values.contains(
            #[trigger] all[i],
        ) && !all.take(i).contains(all[i]) by {
            if i < so_far.len() {
                assert(all[i] == so_far[i]);
                assert(all.take(i) =~= so_far.take(i));
                let at = choose|at: int| 0 <= at < init.len() && init[at] == so_far[i];
                assert(values[at] == all[i]);
            } else {
                assert(all.take(i) =~= so_far);
                assert(values[values.len() - 1] == all[i]);
            }
        }
    }
}

/// An array remove keeps exactly the items that equal none of the values.
pub proof fn law_remove_keeps_the_other_items(
    existing: Seq<JsonValue>,
    values: Seq<JsonValue>,
    item: JsonValue,
)
    ensures
        remaining_values(existing, values).contains(item) <==> existing.contains(item)
            && !values.contains(item),
{
    let keep = |item: JsonValue| !values.contains(item);
    let rest = existing.filter(keep);
    if rest.contains(item) {
        let at = choose|at: int| 0 <= at < rest.len() && rest[at] == item;
        existing.lemma_filter_pred(keep, at);
        existing.lemma_filter_contains_rev(keep, item);
    }
    if existing.contains(item) && !values.contains(item) {
        let at = choose|at: int| 0 <= at < existing.len() && existing[at] == item;
        existing.lemma_filter_contains(keep, at);
    }
}

/// Two increments at one path add up: they leave what one increment by the
/// sum leaves, where neither leaves the range of `i64`.
pub proof fn law_increments_add_up(
    members: Map<Seq<char>, JsonValue>,
    path: Seq<Seq<char>>,
    first: i64,
    second: i64,
)
    requires
        path.len() >= 1,
        i64::MIN <= int_at_path(members, path) + first <= i64::MAX,
        i64::MIN <= first + second <= i64::MAX,
        i64::MIN <= int_at_path(members, path) + first + second <= i64::MAX,
    ensures
        apply_op(
            apply_op(members, path, FieldOp::Increment(first))->Some_0,
            path,
            FieldOp::Increment(second),
        ) == apply_op(members, path, FieldOp::Increment((first + second) as i64)),
{
    let start = int_at_path(members, path);
    law_get_after_set(members, path, JsonValue::Int((start + first) as i64));
    law_set_twice(
        members,
        path,
        JsonValue::Int((start + first) as i64),
        JsonValue::Int((start + first + second) as i64),
    );
}

/// Once a member of an update has failed, the update fails.
proof fn lemma_merge_stays_failed(
    members: Map<Seq<char>, JsonValue>,
    patch: Map<Seq<char>, JsonValue>,
    order: Seq<Seq<char>>,
    n: int,
)
    requires
        0 <= n <= order.len(),
        merge_fields(members, patch, order.take(n)) is None,
    ensures
        merge_fields(members, patch, order) is None,
    decreases order.len() - n,
{
    if n < order.len() {
        assert(order.take(n + 1).drop_last() == order.take(n));
        lemma_merge_stays_failed(members, patch, order, n + 1);
    } else {
        assert(order.take(n) == order);
    }
}

/// A copy of a list of documents.
pub fn clone_items(items: &Vec<Json>) -> (copies: Vec<Json>)
    ensures
        seq_view(copies@) == seq_view(items@),
        all_wf(items@) ==> all_wf(copies@),
{
    let mut copies: Vec<Json> = Vec::new();
    let mut i: usize = 0;
    while i < items.len()
        invariant
            i <= items@.len(),
            copies@.len() == i,
            forall|j: int|
                0 <= j < i ==> (#[trigger] copies@[j])@ == items@[j]@ && (items@[j].wf()
                    ==> copies@[j].wf()),
        decreases items@.len() - i,
    {
        copies.push(items[i].clone());
        i += 1;
    }
    assert(seq_view(copies@) =~= seq_view(items@));
    copies
}

/// Whether a list holds a document that deep-equals `needle`.
pub fn contains_value(items: &Vec<Json>, needle: &Json) -> (found: bool)
    requires
        all_wf(items@),
        needle.wf(),
    ensures
        found == seq_view(items@).contains(needle@),
{
    let mut i: usize = 0;
    while i < items.len()
        invariant
            i <= items@.len(),
            all_wf(items@),
            needle.wf(),
            forall|j: int| 0 <= j < i ==> seq_view(items@)[j] != needle@,
        decreases items@.len() - i,
    {
        if items[i].deep_eq(needle) {
            assert(seq_view(items@)[i as int] == needle@);
            return true;
        }
        i += 1;
    }
    false
}

/// The array `existing` after those of `values` that it does not hold yet
/// were appended in their order.
pub fn union_items(existing: &Vec<Json>, values: &Vec<Json>) -> (all: Vec<Json>)
    requires
        all_wf(existing@),
        all_wf(values@),
    ensures
        seq_view(all@) == union_values(seq_view(existing@), seq_view(values@)),
        all_wf(all@),
{
    let mut all = clone_items(existing);
    let mut i: usize = 0;
    assert(seq_view(values@).take(0) =~= Seq::<JsonValue>::empty());
    while i < values.len()
        invariant
            i <= values@.len(),
            all_wf(values@),
            all_wf(all@),
            seq_view(all@) == union_values(seq_view(existing@), seq_view(values@).take(i as int)),
        decreases values@.len() - i,
    {
        let ghost before = seq_view(all@);
        assert(seq_view(values@).take(i + 1).drop_last() =~= seq_view(values@).take(i as int));
        assert(seq_view(values@).take(i + 1).last() == values@[i as int]@);
        if !contains_value(&all, &values[i]) {
            all.push(values[i].clone());
            assert(seq_view(all@) =~= before.push(values@[i as int]@));
        }
        i += 1;
    }
    assert(seq_view(values@).take(values@.len() as int) =~= seq_view(values@));
    all
}

/// The array `existing` without the items that deep-equal one of `values`;
/// the others keep their order.
pub fn remaining_items(existing: &Vec<Json>, values: &Vec<Json>) -> (rest: Vec<Json>)
    requires
        all_wf(existing@),
        all_wf(values@),
    ensures
        seq_view(rest@) == remaining_values(seq_view(existing@), seq_view(values@)),
        all_wf(rest@),
{
    let ghost keep = |item: JsonValue| !seq_view(values@).contains(item);
    let mut rest: Vec<Json> = Vec::new();
    let mut i: usize = 0;
    proof {
        reveal(Seq::filter);
        assert(seq_view(existing@).take(0) =~= Seq::<JsonValue>::empty());
        assert(seq_view(rest@) =~= Seq::<JsonValue>::empty());
    }
    while i < existing.len()
        invariant
            i <= existing@.len(),
            all_wf(existing@),
            all_wf(values@),
            all_wf(rest@),
            keep == |item: JsonValue| !seq_view(values@).contains(item),
            seq_view(rest@) == seq_view(existing@).take(i as int).filter(keep),
        decreases existing@.len() - i,
    {
        let ghost before = seq_view(rest@);
        proof {
            let taken = seq_view(existing@).take(i as int);
            assert(seq_view(existing@).take(i + 1) =~= taken.push(existing@[i as int]@));
            taken.lemma_filter_push(existing@[i as int]@, keep);
        }
        if !contains_value(values, &existing[i]) {
            rest.push(existing[i].clone());
            assert(seq_view(rest@) =~= before.push(existing@[i as int]@));
        }
        i += 1;
    }
    assert(seq_view(existing@).take(existing@.len() as int) =~= seq_view(existing@));
    rest
}

impl UpdateOp {
    /// Reads what the value of an update's member asks for.
    pub fn decode(request: &Json) -> (op: UpdateOp)
        requires
            request.wf(),
        ensures
            op@ == field_op(request@),
            op.wf(),
    {
        let members = match request {
            Json::Object(o) => o,
            _ => {
                return UpdateOp::Assign(request.clone());
            },
        };
        let name = match members.get("__op") {
            Some(Json::String(s)) => s.as_str(),
            _ => {
                return UpdateOp::Assign(request.clone());
            },
        };
        if str_eq(name, "inc") {
            let amount = match members.get("amount") {
                Some(Json::Int(i)) => *i,
                _ => 0,
            };
            UpdateOp::Increment(amount)
        } else if str_eq(name, "remove") {
            UpdateOp::Remove
        } else if str_eq(name, "array_union") {
            match members.get("values") {
                Some(Json::Array(items)) => UpdateOp::ArrayUnion(clone_items(items)),
                _ => {
                    let none: Vec<Json> = Vec::new();
                    assert(seq_view(none@) =~= Seq::<JsonValue>::empty());
                    UpdateOp::ArrayUnion(none)
                },
            }
        } else if str_eq(name, "array_remove") {
            match members.get("values") {
                Some(Json::Array(items)) => UpdateOp::ArrayRemove(clone_items(items)),
                _ => {
                    let none: Vec<Json> = Vec::new();
                    assert(seq_view(none@) =~= Seq::<JsonValue>::empty());
                    UpdateOp::ArrayRemove(none)
                },
            }
        } else {
            UpdateOp::Assign(request.clone())
        }
    }
}

/// The items of the array at a path, copied; none where there is no array.
fn items_at(obj: &JsonObject, path: &str) -> (items: Vec<Json>)
    requires
        obj.wf(),
    ensures
        seq_view(items@) == array_at_path(obj@, path_segments(path@)),
        all_wf(items@),
{
    match get_deep(obj, path) {
        Some(Json::Array(items)) => clone_items(items),
        _ => {
            let none: Vec<Json> = Vec::new();
            assert(seq_view(none@) =~= Seq::<JsonValue>::empty());
            none
        },
    }
}

/// Applies one operation at one dotted path. It hands back `false`, and
/// leaves the object as it was, where an increment leaves the range of `i64`.
pub fn apply_update(obj: &mut JsonObject, path: &str, op: UpdateOp) -> (applied: bool)
    requires
        old(obj).wf(),
        op.wf(),
    ensures
        final(obj).wf(),
        match apply_op(old(obj)@, path_segments(path@), op@) {
            Some(after) => applied && final(obj)@ == after,
            None => !applied && final(obj)@ == old(obj)@,
        },
{
    match op {
        UpdateOp::Assign(value) => {
            set_deep(obj, path, value);
            true
        },
        UpdateOp::Increment(amount) => {
            let current = match get_deep(obj, path) {
                Some(Json::Int(i)) => *i,
                _ => 0,
            };
            match current.checked_add(amount) {
                Some(sum) => {
                    set_deep(obj, path, Json::Int(sum));
                    true
                },
                None => false,
            }
        },
        UpdateOp::Remove => {
            remove_deep(obj, path);
            true
        },
        UpdateOp::ArrayUnion(values) => {
            let existing = items_at(obj, path);
            let all = union_items(&existing, &values);
            set_deep(obj, path, Json::Array(all));
            true
        },
        UpdateOp::ArrayRemove(values) => {
            let existing = items_at(obj, path);
            let rest = remaining_items(&existing, &values);
            set_deep(obj, path, Json::Array(rest));
            true
        },
    }
}

/// Merges an update into a document and hands back the new document.
///
/// The members of `fields` are applied in the order in which `fields` holds
/// them. The update fails as a whole, with `InvalidUpdate`, where `fields` is
/// no object or an increment leaves the range of `i64`. A document that is no
/// object comes back unchanged.
#[verifier::loop_isolation(false)]
pub fn merge(existing: Json, fields: &Json) -> (outcome: Result<Json, OsunbitDBError>)
    requires
        existing.wf(),
        fields.wf(),
    ensures
        match outcome {
            Ok(doc) => fields matches Json::Object(patch) && merged(
                existing@,
                patch@,
                patch.keys(),
            ) == Some(doc@) && doc.wf(),
            Err(e) => e matches OsunbitDBError::InvalidUpdate(message) && match *fields {
                Json::Object(patch) => merged(existing@, patch@, patch.keys()) is None && message@
                    == "increment leaves the range of a 64-bit integer"@,
                _ => message@ == "update fields must be an object"@,
            },
        },
{
    let patch = match fields {
        Json::Object(p) => p,
        _ => {
            return Err(
                OsunbitDBError::InvalidUpdate(String::from_str("update fields must be an object")),
            );
        },
    };
    let mut doc = match existing {
        Json::Object(o) => o,
        other => {
            return Ok(other);
        },
    };
    let ghost start = doc@;
    let mut i: usize = 0;
    assert(patch.keys().take(0) =~= Seq::<Seq<char>>::empty());
    while i < patch.len()
        invariant
            i <= patch.keys().len(),
            patch.wf(),
            doc.wf(),
            merge_fields(start, patch@, patch.keys().take(i as int)) == Some(doc@),
        decreases patch.keys().len() - i,
    {
        assert(patch.keys().take(i + 1).drop_last() =~= patch.keys().take(i as int));
        let op = UpdateOp::decode(patch.value_at(i));
        if !apply_update(&mut doc, patch.key_at(i), op) {
            proof {
                assert(patch.keys().take(i + 1).last() == patch.keys()[i as int]);
                assert(merge_fields(start, patch@, patch.keys().take(i + 1)) is None);
                lemma_merge_stays_failed(start, patch@, patch.keys(), i + 1);
            }
            return Err(
                OsunbitDBError::InvalidUpdate(
                    String::from_str("increment leaves the range of a 64-bit integer"),
                ),
            );
        }
        i += 1;
    }
    assert(patch.keys().take(patch.keys().len() as int) =~= patch.keys());
    Ok(Json::Object(doc))
}

/// The names of the operations and of their members are different strings.
proof fn lemma_names_differ()
    ensures
        "__op"@ != "amount"@,
        "__op"@ != "values"@,
        "remove"@ != "inc"@,
        "array_union"@ != "inc"@,
        "array_union"@ != "remove"@,
        "array_remove"@ != "inc"@,
        "array_remove"@ != "remove"@,
        "array_remove"@ != "array_union"@,
{
    reveal_strlit("__op");
    reveal_strlit("amount");
    reveal_strlit("values");
    reveal_strlit("inc");
    reveal_strlit("remove");
    reveal_strlit("array_union");
    reveal_strlit("array_remove");
    assert("__op"@.len() == 4);
    assert("amount"@.len() == 6);
    assert("values"@.len() == 6);
    assert("inc"@.len() == 3);
    assert("remove"@.len() == 6);
    assert("array_union"@.len() == 11);
    assert("array_remove"@.len() == 12);
}

/// The object that asks for the operation `name`, with one more member.
pub open spec fn tagged_value(name: Seq<char>, member: Seq<char>, value: JsonValue) -> JsonValue {
    JsonValue::Object(
        Map::<Seq<char>, JsonValue>::empty().insert("__op"@, JsonValue::String(name)).insert(
            member,
            value,
        ),
    )
}

fn tagged(name: &str, member: &str, value: Json) -> (request: Json)
    requires
        value.wf(),
        member@ != "__op"@,
    ensures
        request.wf(),
        request@ == tagged_value(name@, member@, value@),
{
    let mut members = JsonObject::new();
    members.insert(String::from_str("__op"), Json::String(String::from_str(name)));
    members.insert(String::from_str(member), value);
    Json::Object(members)
}

/// The value that asks an update to add `amount` to the integer at a path.
/// What stands there counts as 0 where it is no integer.
pub fn increment(amount: i64) -> (request: Json)
    ensures
        request.wf(),
        request@ == tagged_value("inc"@, "amount"@, JsonValue::Int(amount)),
        field_op(request@) == FieldOp::Increment(amount),
{
    proof {
        lemma_names_differ();
    }
    tagged("inc", "amount", Json::Int(amount))
}

/// The value that asks an update to take the member at a path out.
pub fn remove() -> (request: Json)
    ensures
        request.wf(),
        request@ == JsonValue::Object(
            Map::<Seq<char>, JsonValue>::empty().insert("__op"@, JsonValue::String("remove"@)),
        ),
        field_op(request@) == FieldOp::Remove,
{
    proof {
        lemma_names_differ();
    }
    let mut members = JsonObject::new();
    members.insert(String::from_str("__op"), Json::String(String::from_str("remove")));
    Json::Object(members)
}

/// The value that asks an update to append to the array at a path those
/// items of the array `values` that it does not hold yet.
pub fn array_union(values: Json) -> (request: Json)
    requires
        values.wf(),
    ensures
        request.wf(),
        request@ == tagged_value("array_union"@, "values"@, values@),
        field_op(request@) == FieldOp::ArrayUnion(
            match values@ {
                JsonValue::Array(items) => items,
                _ => Seq::empty(),
            },
        ),
{
    proof {
        lemma_names_differ();
    }
    tagged("array_union", "values", values)
}

/// The value that asks an update to take out of the array at a path every
/// item that equals an item of the array `values`.
pub fn array_remove(values: Json) -> (request: Json)
    requires
        values.wf(),
    ensures
        request.wf(),
        request@ == tagged_value("array_remove"@, "values"@, values@),
        field_op(request@) == FieldOp::ArrayRemove(
            match values@ {
                JsonValue::Array(items) => items,
                _ => Seq::empty(),
            },
        ),
{
    proof {
        lemma_names_differ();
    }
    tagged("array_remove", "values", values)
}

} // verus!
