use shadow_deploy::executor::resolve_variables;
use shadow_deploy::path_map::PathMap;

fn map_of(pairs: &[(&str, &str)]) -> PathMap {
    let mut map = PathMap::new();
    for (key, value) in pairs {
        map.insert(key.to_string(), value.to_string());
    }
    map
}

#[test]
fn unknown_token_is_left_as_it_is() {
    let empty = PathMap::new();
    assert_eq!(resolve_variables("{{unknown}}", &empty), "{{unknown}}");
}

#[test]
fn known_token_is_replaced() {
    let values = map_of(&[("name", "bob")]);
    assert_eq!(resolve_variables("hi {{name}}", &values), "hi bob");
}

#[test]
fn two_passes_do_not_disturb_each_other() {
    let template = "{{event.x}} {{secrets.db.pass}}";
    let event = map_of(&[("event.x", "1")]);
    let secrets = map_of(&[("secrets.db.pass", "hunter2")]);
    let first = resolve_variables(template, &event);
    assert_eq!(first, "1 {{secrets.db.pass}}");
    let second = resolve_variables(&first, &secrets);
    assert_eq!(second, "1 hunter2");
}

#[test]
fn unbalanced_opening_is_literal() {
    let values = map_of(&[("b", "X")]);
    assert_eq!(resolve_variables("a {{b", &values), "a {{b");
    assert_eq!(resolve_variables("a {{b}", &values), "a {{b}");
    assert_eq!(resolve_variables("{{", &values), "{{");
    assert_eq!(resolve_variables("{{b}} then {{b", &values), "X then {{b");
}

#[test]
fn stray_closing_is_literal() {
    let values = map_of(&[("b", "X")]);
    assert_eq!(resolve_variables("a}} {{b}}", &values), "a}} X");
    assert_eq!(resolve_variables("}}", &values), "}}");
    assert_eq!(resolve_variables("{{b}}}}", &values), "X}}");
}

#[test]
fn token_is_looked_up_untrimmed() {
    let values = map_of(&[("name", "bob"), (" name ", "padded")]);
    assert_eq!(resolve_variables("{{ name }}", &values), "padded");
    assert_eq!(resolve_variables("{{name }}", &values), "{{name }}");
}

#[test]
fn empty_token_is_a_token() {
    let none = PathMap::new();
    assert_eq!(resolve_variables("{{}}", &none), "{{}}");
    let values = map_of(&[("", "nothing")]);
    assert_eq!(resolve_variables("a{{}}b", &values), "anothingb");
}

#[test]
fn value_is_not_scanned_again() {
    let values = map_of(&[("a", "{{b}}"), ("b", "deep")]);
    assert_eq!(resolve_variables("{{a}}", &values), "{{b}}");
    assert_eq!(resolve_variables("{{a}}{{b}}", &values), "{{b}}deep");
}

#[test]
fn token_starts_at_the_first_opening() {
    let values = map_of(&[("a", "A"), ("{a", "B"), ("a{{b", "C")]);
    assert_eq!(resolve_variables("{{{a}}", &values), "B");
    assert_eq!(resolve_variables("{{a{{b}}", &values), "C");
    assert_eq!(resolve_variables("{{a}}}", &values), "A}");
}

#[test]
fn text_without_tokens_is_unchanged() {
    let values = map_of(&[("a", "A")]);
    assert_eq!(resolve_variables("", &values), "");
    assert_eq!(resolve_variables("plain { text } here", &values), "plain { text } here");
    assert_eq!(resolve_variables("ünïcödé {{a}} ✓", &values), "ünïcödé A ✓");
}

#[test]
fn several_tokens_in_one_template() {
    let values = map_of(&[("x", "1"), ("y", "2")]);
    assert_eq!(resolve_variables("{{x}}{{y}} {{z}} {{x}}", &values), "12 {{z}} 1");
}

#[test]
fn empty_mapping_changes_nothing() {
    let none = PathMap::new();
    for template in ["{{a}} {{b", "}}{{", "{{{{}}}}", "a{{b}}c{{d}}e", "{{a}}}}"] {
        assert_eq!(resolve_variables(template, &none), template);
    }
}
