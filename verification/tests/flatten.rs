use shadow_deploy::json::{parse_json, Json};
use shadow_deploy::path_map::PathMap;
use shadow_deploy::utils::{flatten_into, flatten_json};

fn flat(text: &str, prefix: &str) -> PathMap {
    let json = parse_json(text).expect("JSON text");
    let mut map = PathMap::new();
    flatten_json(&json, prefix, &mut map)
}

fn value(map: &PathMap, key: &str) -> Option<String> {
    map.get(key).cloned()
}

#[test]
fn flatten_nested_object_and_array() {
    let map = flat(r#"{"a":{"b":"x"},"c":[1,2]}"#, "");
    assert_eq!(map.len(), 3);
    assert_eq!(value(&map, "a.b").as_deref(), Some("x"));
    assert_eq!(value(&map, "c[0]").as_deref(), Some("1"));
    assert_eq!(value(&map, "c[1]").as_deref(), Some("2"));
}

#[test]
fn flatten_under_a_prefix() {
    let map = flat(r#"{"name":"deploy","env":{"stage":"prod"}}"#, "event");
    assert_eq!(map.len(), 2);
    assert_eq!(value(&map, "event.name").as_deref(), Some("deploy"));
    assert_eq!(value(&map, "event.env.stage").as_deref(), Some("prod"));
    assert_eq!(value(&map, "name"), None);
}

#[test]
fn flatten_scalars_by_their_text() {
    let map = flat(r#"{"t":true,"f":false,"n":null,"i":-7,"x":1.5,"s":"a \"b\""}"#, "p");
    assert_eq!(value(&map, "p.t").as_deref(), Some("true"));
    assert_eq!(value(&map, "p.f").as_deref(), Some("false"));
    assert_eq!(value(&map, "p.n").as_deref(), Some("null"));
    assert_eq!(value(&map, "p.i").as_deref(), Some("-7"));
    assert_eq!(value(&map, "p.x").as_deref(), Some("1.5"));
    assert_eq!(value(&map, "p.s").as_deref(), Some("a \"b\""));
    assert_eq!(map.len(), 6);
}

#[test]
fn flatten_a_scalar_at_the_root() {
    let map = flat("42", "answer");
    assert_eq!(map.len(), 1);
    assert_eq!(value(&map, "answer").as_deref(), Some("42"));
    let map = flat(r#""text""#, "");
    assert_eq!(value(&map, "").as_deref(), Some("text"));
}

#[test]
fn flatten_array_indices_in_decimal() {
    let map = flat(r#"[0,1,2,3,4,5,6,7,8,9,10,11]"#, "v");
    assert_eq!(map.len(), 12);
    assert_eq!(value(&map, "v[0]").as_deref(), Some("0"));
    assert_eq!(value(&map, "v[9]").as_deref(), Some("9"));
    assert_eq!(value(&map, "v[10]").as_deref(), Some("10"));
    assert_eq!(value(&map, "v[11]").as_deref(), Some("11"));
}

#[test]
fn flatten_array_at_the_root_without_prefix() {
    let map = flat(r#"[["a"],{"k":"b"}]"#, "");
    assert_eq!(value(&map, "[0][0]").as_deref(), Some("a"));
    assert_eq!(value(&map, "[1].k").as_deref(), Some("b"));
    assert_eq!(map.len(), 2);
}

#[test]
fn flatten_empty_containers_have_no_leaves() {
    assert_eq!(flat("{}", "p").len(), 0);
    assert_eq!(flat("[]", "p").len(), 0);
    assert_eq!(flat(r#"{"a":{},"b":[]}"#, "p").len(), 0);
    assert!(flat("{}", "p").is_empty());
}

#[test]
fn flatten_later_leaf_wins_where_paths_meet() {
    let json = Json::Object(vec![
        ("a.b".to_string(), Json::Number("1".to_string())),
        ("a".to_string(), Json::Object(vec![("b".to_string(), Json::Number("2".to_string()))])),
    ]);
    let mut map = PathMap::new();
    let copy = flatten_json(&json, "", &mut map);
    assert_eq!(copy.len(), 1);
    assert_eq!(value(&copy, "a.b").as_deref(), Some("2"));
}

#[test]
fn flatten_adds_to_what_the_mapping_holds() {
    let mut map = PathMap::new();
    map.insert("kept".to_string(), "old".to_string());
    map.insert("p.a".to_string(), "old".to_string());
    let json = parse_json(r#"{"a":"new"}"#).unwrap();
    let copy = flatten_json(&json, "p", &mut map);
    assert_eq!(value(&map, "kept").as_deref(), Some("old"));
    assert_eq!(value(&map, "p.a").as_deref(), Some("new"));
    assert_eq!(map.len(), 2);
    assert_eq!(copy.len(), 2);
    assert_eq!(value(&copy, "p.a").as_deref(), Some("new"));
}

#[test]
fn flatten_into_writes_without_copying() {
    let json = Json::Array(vec![Json::Bool(true), Json::Null, Json::Text("s".to_string())]);
    let mut map = PathMap::new();
    flatten_into(&json, "x", &mut map);
    assert_eq!(value(&map, "x[0]").as_deref(), Some("true"));
    assert_eq!(value(&map, "x[1]").as_deref(), Some("null"));
    assert_eq!(value(&map, "x[2]").as_deref(), Some("s"));
}

#[test]
fn parse_json_gives_the_document() {
    let json = parse_json(r#"{"b":[1,"two",null],"a":false}"#).unwrap();
    let expected = Json::Object(vec![
        ("a".to_string(), Json::Bool(false)),
        (
            "b".to_string(),
            Json::Array(vec![
                Json::Number("1".to_string()),
                Json::Text("two".to_string()),
                Json::Null,
            ]),
        ),
    ]);
    assert_eq!(json, expected);
}

#[test]
fn parse_json_refuses_what_is_not_json() {
    assert_eq!(parse_json("{"), None);
    assert_eq!(parse_json(""), None);
    assert_eq!(parse_json("{'a':1}"), None);
    assert_eq!(parse_json("1 2"), None);
}

#[test]
fn json_get_finds_the_member() {
    let json = parse_json(r#"{"name":"x","n":1}"#).unwrap();
    assert_eq!(json.get("name"), Some(&Json::Text("x".to_string())));
    assert_eq!(json.get("n"), Some(&Json::Number("1".to_string())));
    assert_eq!(json.get("missing"), None);
    assert_eq!(Json::Null.get("name"), None);
    assert_eq!(Json::Array(vec![]).get("name"), None);
}
