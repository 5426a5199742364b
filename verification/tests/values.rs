use tiny_json::Json;

fn number(text: &str) -> Json {
    Json::Number(String::from(text))
}

#[test]
fn new_object_is_an_empty_object() {
    let object = Json::new_object();
    assert!(object.is_object());
    assert!(!object.is_array());
    assert_eq!(object, Json::Object(vec![]));
}

#[test]
fn new_array_is_an_empty_array() {
    let array = Json::new_array();
    assert!(array.is_array());
    assert!(!array.is_object());
    assert_eq!(array, Json::Array(vec![]));
}

#[test]
fn string_from_wraps_the_text() {
    assert_eq!(Json::string_from("Monday"), Json::String(String::from("Monday")));
    assert!(!Json::string_from("Monday").is_object());
    assert!(!Json::string_from("Monday").is_array());
}

#[test]
fn insert_adds_members_in_order() {
    let mut object = Json::new_object();
    object.insert("b", number("1"));
    object.insert("a", number("2"));
    assert_eq!(object.to_string(), "{\"b\":1,\"a\":2}");
}

#[test]
fn insert_replaces_a_value_in_place() {
    let mut object = Json::new_object();
    object.insert("a", number("1"));
    object.insert("b", number("2"));
    object.insert("a", Json::Bool(true));
    assert_eq!(object.to_string(), "{\"a\":true,\"b\":2}");
    assert_eq!(object.get("a"), Some(&Json::Bool(true)));
}

#[test]
fn get_finds_a_member() {
    let mut object = Json::new_object();
    object.insert("a", number("1"));
    object.insert("b", Json::Null);
    assert_eq!(object.get("b"), Some(&Json::Null));
    assert_eq!(object.get("a"), Some(&number("1")));
}

#[test]
fn get_of_a_missing_key_is_none() {
    let mut object = Json::new_object();
    object.insert("a", number("1"));
    assert_eq!(object.get("c"), None);
    assert_eq!(object.get(""), None);
}

#[test]
fn get_on_other_kinds_is_none() {
    let mut array = Json::new_array();
    array.push(Json::Null);
    assert_eq!(array.get("0"), None);
    assert_eq!(Json::Null.get("a"), None);
    assert_eq!(Json::string_from("a").get("a"), None);
}

#[test]
fn remove_takes_a_member_out() {
    let mut object = Json::new_object();
    object.insert("a", number("1"));
    object.insert("b", number("2"));
    object.insert("c", number("3"));
    object.remove("b");
    assert_eq!(object.get("b"), None);
    assert_eq!(object.to_string(), "{\"a\":1,\"c\":3}");
}

#[test]
fn remove_of_a_missing_key_changes_nothing() {
    let mut object = Json::new_object();
    object.insert("a", number("1"));
    object.remove("b");
    assert_eq!(object.to_string(), "{\"a\":1}");
}

#[test]
fn remove_on_an_array_changes_nothing() {
    let mut array = Json::new_array();
    array.push(Json::string_from("a"));
    array.remove("a");
    assert_eq!(array, Json::Array(vec![Json::string_from("a")]));
}

#[test]
fn push_adds_at_the_end() {
    let mut array = Json::new_array();
    array.push(number("1"));
    array.push(Json::Bool(false));
    assert_eq!(array, Json::Array(vec![number("1"), Json::Bool(false)]));
}

#[test]
fn pull_reads_by_position() {
    let mut array = Json::new_array();
    array.push(number("1"));
    array.push(Json::Bool(false));
    assert_eq!(array.pull(0), Some(&number("1")));
    assert_eq!(array.pull(1), Some(&Json::Bool(false)));
}

#[test]
fn pull_beyond_the_end_is_none() {
    let mut array = Json::new_array();
    array.push(number("1"));
    assert_eq!(array.pull(1), None);
    assert_eq!(array.pull(usize::MAX), None);
    assert_eq!(Json::new_array().pull(0), None);
}

#[test]
fn pull_on_other_kinds_is_none() {
    let mut object = Json::new_object();
    object.insert("0", Json::Null);
    assert_eq!(object.pull(0), None);
    assert_eq!(Json::Bool(true).pull(0), None);
}

#[test]
fn insert_on_an_array_changes_nothing() {
    let mut array = Json::new_array();
    array.push(number("1"));
    array.insert("k", Json::Null);
    assert_eq!(array, Json::Array(vec![number("1")]));
    assert_eq!(array.to_string(), "[1]");

    let mut text = Json::string_from("a");
    text.insert("k", Json::Null);
    assert_eq!(text, Json::string_from("a"));
}

#[test]
fn push_on_an_object_changes_nothing() {
    let mut object = Json::new_object();
    object.insert("k", number("1"));
    object.push(Json::Null);
    assert_eq!(object.to_string(), "{\"k\":1}");

    let mut null = Json::Null;
    null.push(Json::Null);
    assert_eq!(null, Json::Null);
}

#[test]
fn equality_leaves_member_order_aside() {
    let mut one = Json::new_object();
    one.insert("a", number("1"));
    one.insert("b", Json::Array(vec![Json::Null]));
    let mut other = Json::new_object();
    other.insert("b", Json::Array(vec![Json::Null]));
    other.insert("a", number("1"));
    assert_eq!(one, other);
    assert_ne!(one.to_string(), other.to_string());
}

#[test]
fn equality_tells_values_apart() {
    let mut one = Json::new_object();
    one.insert("a", number("1"));
    let mut other = Json::new_object();
    other.insert("a", number("2"));
    assert_ne!(one, other);
    other.insert("a", number("1"));
    assert_eq!(one, other);
    other.insert("b", Json::Null);
    assert_ne!(one, other);
    assert_ne!(other, one);
    assert_ne!(Json::Array(vec![Json::Null]), Json::Array(vec![Json::Null, Json::Null]));
    assert_ne!(Json::Array(vec![Json::Bool(true)]), Json::Array(vec![Json::Bool(false)]));
    assert_ne!(Json::string_from("1"), number("1"));
    assert_ne!(Json::new_object(), Json::new_array());
    assert_ne!(Json::Null, Json::Bool(false));
}

#[test]
fn equality_of_numbers_is_by_their_text() {
    assert_eq!(number("200"), number("200"));
    assert_ne!(number("200"), number("2e2"));
}
