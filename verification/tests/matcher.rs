use shadow_deploy::config::Event;
use shadow_deploy::executor::{
    fields_of, find_event, match_event, match_payload, name_of, parse_event, ParseError,
};
use shadow_deploy::json::{parse_json, Json};

fn event(name: &str) -> Event {
    Event { name: name.to_string(), cwd: "/".to_string(), secrets: vec![], commands: vec![] }
}

fn events() -> Vec<Event> {
    vec![event("build"), event("deploy"), event("deploy")]
}

#[test]
fn matcher_rejects_payload_without_name() {
    let found = match_event(r#"{"stage":"prod"}"#, &events());
    assert_eq!(found.err(), Some(ParseError::MissingName));
    assert_eq!(parse_event(r#"{"stage":"prod"}"#).err(), Some(ParseError::MissingName));
    assert_eq!(parse_event("{}").err(), Some(ParseError::MissingName));
}

#[test]
fn matcher_rejects_unknown_event() {
    let found = match_event(r#"{"name":"rollback"}"#, &events());
    assert_eq!(found.err(), Some(ParseError::UnknownEvent("rollback".to_string())));
    let found = match_event(r#"{"name":"build"}"#, &vec![]);
    assert_eq!(found.err(), Some(ParseError::UnknownEvent("build".to_string())));
}

#[test]
fn matcher_rejects_name_that_is_no_string() {
    for payload in [r#"{"name":1}"#, r#"{"name":null}"#, r#"{"name":["deploy"]}"#, r#"{"name":{"a":"b"}}"#, r#"{"name":true}"#] {
        assert_eq!(match_event(payload, &events()).err(), Some(ParseError::WrongNameType));
        assert_eq!(parse_event(payload).err(), Some(ParseError::WrongNameType));
    }
}

#[test]
fn matcher_rejects_what_is_no_json_object() {
    for payload in ["", "not json", "{", r#"["name"]"#, "null", "\"deploy\"", "3"] {
        assert_eq!(match_event(payload, &events()).err(), Some(ParseError::InvalidJson));
        assert_eq!(parse_event(payload).err(), Some(ParseError::InvalidJson));
    }
}

#[test]
fn matcher_gives_first_event_of_the_name_and_fields() {
    let (index, fields) =
        match_event(r#"{"name":"deploy","ref":{"branch":"main"},"n":[3]}"#, &events()).unwrap();
    assert_eq!(index, 1);
    assert_eq!(fields.len(), 3);
    assert_eq!(fields.get("event.name").map(String::as_str), Some("deploy"));
    assert_eq!(fields.get("event.ref.branch").map(String::as_str), Some("main"));
    assert_eq!(fields.get("event.n[0]").map(String::as_str), Some("3"));
}

#[test]
fn parse_event_gives_fields_under_event() {
    let fields = parse_event(r#"{"name":"x","a":1}"#).unwrap();
    assert_eq!(fields.len(), 2);
    assert_eq!(fields.get("event.name").map(String::as_str), Some("x"));
    assert_eq!(fields.get("event.a").map(String::as_str), Some("1"));
}

#[test]
fn name_of_reads_the_name_member() {
    let json = parse_json(r#"{"name":"deploy"}"#).unwrap();
    assert_eq!(name_of(&json), Ok(&"deploy".to_string()));
    assert_eq!(name_of(&Json::Null), Err(ParseError::InvalidJson));
    assert_eq!(name_of(&Json::Object(vec![])), Err(ParseError::MissingName));
    let first_counts = Json::Object(vec![
        ("name".to_string(), Json::Text("a".to_string())),
        ("name".to_string(), Json::Number("1".to_string())),
    ]);
    assert_eq!(name_of(&first_counts), Ok(&"a".to_string()));
}

#[test]
fn fields_of_and_match_payload_agree_with_the_text_forms() {
    let json = parse_json(r#"{"name":"build","k":"v"}"#).unwrap();
    let fields = fields_of(&json).unwrap();
    assert_eq!(fields.get("event.k").map(String::as_str), Some("v"));
    let (index, fields) = match_payload(&json, &events()).unwrap();
    assert_eq!(index, 0);
    assert_eq!(fields.get("event.name").map(String::as_str), Some("build"));
    assert_eq!(fields_of(&Json::Array(vec![])).err(), Some(ParseError::InvalidJson));
}

#[test]
fn find_event_gives_the_first_of_a_name() {
    assert_eq!(find_event(&events(), "build"), Some(0));
    assert_eq!(find_event(&events(), "deploy"), Some(1));
    assert_eq!(find_event(&events(), "Deploy"), None);
    assert_eq!(find_event(&vec![], "deploy"), None);
}
