use osunbitdb::utils::{get_deep, remove_deep, set_deep};
use osunbitdb::{Json, JsonObject};

fn text(s: &str) -> Json {
    Json::String(s.to_string())
}

fn members(list: Vec<(&str, Json)>) -> JsonObject {
    let mut o = JsonObject::new();
    for (key, value) in list {
        o.insert(key.to_string(), value);
    }
    o
}

fn sample() -> JsonObject {
    members(vec![
        ("name", text("Alice")),
        ("profile", Json::Object(members(vec![("points", Json::Int(5)), ("address", Json::Object(members(vec![("city", text("Oslo"))])))]))),
        ("tags", Json::Array(vec![text("a")])),
    ])
}

#[test]
fn get_deep_walks_nested_objects() {
    let doc = sample();
    assert_eq!(get_deep(&doc, "name").unwrap().as_str(), Some("Alice"));
    assert_eq!(get_deep(&doc, "profile.points").unwrap().as_i64(), Some(5));
    assert_eq!(get_deep(&doc, "profile.address.city").unwrap().as_str(), Some("Oslo"));
    assert!(get_deep(&doc, "profile").unwrap().as_object().is_some());
}

#[test]
fn get_deep_gives_nothing_where_the_path_breaks() {
    let doc = sample();
    assert!(get_deep(&doc, "missing").is_none());
    assert!(get_deep(&doc, "profile.missing").is_none());
    assert!(get_deep(&doc, "missing.points").is_none());
    assert!(get_deep(&doc, "name.first").is_none());
    assert!(get_deep(&doc, "tags.0").is_none());
    assert!(get_deep(&doc, "").is_none());
    assert!(get_deep(&doc, "profile.").is_none());
    assert!(get_deep(&doc, ".name").is_none());
}

#[test]
fn the_empty_piece_of_a_path_is_a_key() {
    let mut doc = JsonObject::new();
    set_deep(&mut doc, "", Json::Int(1));
    set_deep(&mut doc, "a.", Json::Int(2));
    assert_eq!(doc.get("").unwrap().as_i64(), Some(1));
    assert_eq!(get_deep(&doc, "a.").unwrap().as_i64(), Some(2));
    assert_eq!(doc.get("a").unwrap().as_object().unwrap().get("").unwrap().as_i64(), Some(2));
}

#[test]
fn set_deep_makes_the_objects_on_the_way() {
    let mut doc = JsonObject::new();
    set_deep(&mut doc, "a.b.c", Json::Int(1));
    assert_eq!(get_deep(&doc, "a.b.c").unwrap().as_i64(), Some(1));
    set_deep(&mut doc, "a.b.d", Json::Int(2));
    assert_eq!(get_deep(&doc, "a.b.c").unwrap().as_i64(), Some(1));
    assert_eq!(get_deep(&doc, "a.b.d").unwrap().as_i64(), Some(2));
    assert_eq!(doc.len(), 1);
}

#[test]
fn set_deep_overwrites_what_is_no_object_on_the_way() {
    let mut doc = sample();
    set_deep(&mut doc, "name.first", text("Al"));
    assert_eq!(get_deep(&doc, "name.first").unwrap().as_str(), Some("Al"));
    assert_eq!(doc.get("name").unwrap().as_object().unwrap().len(), 1);
    set_deep(&mut doc, "tags.x.y", Json::Null);
    assert!(get_deep(&doc, "tags.x.y").unwrap().is_null());
}

#[test]
fn set_deep_replaces_the_value_and_keeps_the_position() {
    let mut doc = sample();
    set_deep(&mut doc, "name", text("Bob"));
    set_deep(&mut doc, "profile.points", Json::Int(6));
    assert_eq!(doc.key_at(0), "name");
    assert_eq!(doc.key_at(1), "profile");
    assert_eq!(doc.key_at(2), "tags");
    assert_eq!(get_deep(&doc, "name").unwrap().as_str(), Some("Bob"));
    assert_eq!(get_deep(&doc, "profile.points").unwrap().as_i64(), Some(6));
    assert_eq!(get_deep(&doc, "profile.address.city").unwrap().as_str(), Some("Oslo"));
}

#[test]
fn remove_deep_takes_the_last_key_out() {
    let mut doc = sample();
    remove_deep(&mut doc, "profile.address.city");
    assert!(get_deep(&doc, "profile.address.city").is_none());
    assert!(get_deep(&doc, "profile.address").unwrap().as_object().unwrap().is_empty());
    remove_deep(&mut doc, "profile");
    assert!(doc.get("profile").is_none());
    assert_eq!(doc.len(), 2);
}

#[test]
fn remove_deep_changes_nothing_where_the_path_breaks() {
    let mut doc = sample();
    remove_deep(&mut doc, "missing");
    remove_deep(&mut doc, "missing.deep");
    remove_deep(&mut doc, "name.first");
    remove_deep(&mut doc, "profile.badges");
    remove_deep(&mut doc, "tags.0");
    assert!(doc.same_members(&sample()));
}
