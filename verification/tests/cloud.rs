use shadow_deploy::cloud::{group_passes, plan_cycle, CycleAction, Received, SecretCache};
use shadow_deploy::config::Config;
use shadow_deploy::json::parse_json;

fn config(group: Option<&str>) -> Config {
    Config {
        queue_name: "queue".to_string(),
        group: group.map(|g| g.to_string()),
        interval: 2000,
        events: vec![],
    }
}

fn message(group: Option<&str>) -> Received {
    Received {
        body: r#"{"name":"deploy"}"#.to_string(),
        group: group.map(|g| g.to_string()),
        receipt: "handle-1".to_string(),
    }
}

#[test]
fn idle_cycle_only_sleeps() {
    assert_eq!(plan_cycle(&config(None), None), vec![CycleAction::Sleep(2000)]);
    assert_eq!(plan_cycle(&config(Some("blue")), None), vec![CycleAction::Sleep(2000)]);
}

#[test]
fn message_is_acknowledged_then_handled_then_sleep() {
    let plan = plan_cycle(&config(None), Some(message(None)));
    assert_eq!(
        plan,
        vec![
            CycleAction::Acknowledge("handle-1".to_string()),
            CycleAction::Handle(r#"{"name":"deploy"}"#.to_string()),
            CycleAction::Sleep(2000),
        ]
    );
    let plan = plan_cycle(&config(Some("blue")), Some(message(Some("blue"))));
    assert_eq!(plan.len(), 3);
}

#[test]
fn message_of_another_group_is_left_alone() {
    assert_eq!(
        plan_cycle(&config(Some("blue")), Some(message(Some("green")))),
        vec![CycleAction::Sleep(2000)]
    );
    assert_eq!(
        plan_cycle(&config(Some("blue")), Some(message(None))),
        vec![CycleAction::Sleep(2000)]
    );
}

#[test]
fn group_filter() {
    let blue = Some("blue".to_string());
    let green = Some("green".to_string());
    assert!(group_passes(&None, &None));
    assert!(group_passes(&None, &blue));
    assert!(group_passes(&blue, &blue));
    assert!(!group_passes(&blue, &green));
    assert!(!group_passes(&blue, &None));
}

fn names(texts: &[&str]) -> Vec<String> {
    texts.iter().map(|t| t.to_string()).collect()
}

#[test]
fn same_secret_is_fetched_once() {
    let wanted = names(&["db", "api", "db", "db", "api"]);
    let mut cache = SecretCache::new();
    let mut fetched: Vec<String> = Vec::new();
    while let Some(i) = cache.next_missing(&wanted) {
        fetched.push(wanted[i].clone());
        cache.store_text(&wanted[i], Some(r#"{"k":"v"}"#));
    }
    assert_eq!(fetched, names(&["db", "api"]));
    assert_eq!(cache.names(), &names(&["db", "api"]));
    assert!(cache.is_cached("db"));
    assert!(!cache.is_cached("mail"));
    assert_eq!(cache.next_missing(&wanted), None);
    assert_eq!(cache.next_missing(&names(&["db", "mail"])), Some(1));
}

#[test]
fn stored_secret_is_flattened_under_its_name() {
    let mut cache = SecretCache::new();
    cache.store_text("db", Some(r#"{"user":"admin","pass":"hunter2","ports":[5432]}"#));
    cache.store_text("token", Some(r#""abc""#));
    let secrets = cache.into_secrets();
    assert_eq!(secrets.len(), 4);
    assert_eq!(secrets.get("secrets.db.user").map(String::as_str), Some("admin"));
    assert_eq!(secrets.get("secrets.db.pass").map(String::as_str), Some("hunter2"));
    assert_eq!(secrets.get("secrets.db.ports[0]").map(String::as_str), Some("5432"));
    assert_eq!(secrets.get("secrets.token").map(String::as_str), Some("abc"));
}

#[test]
fn cached_secret_keeps_its_first_document() {
    let mut cache = SecretCache::new();
    cache.store_text("db", Some(r#"{"pass":"first"}"#));
    cache.store_text("db", Some(r#"{"pass":"second","more":"x"}"#));
    assert_eq!(cache.names(), &names(&["db"]));
    let secrets = cache.into_secrets();
    assert_eq!(secrets.len(), 1);
    assert_eq!(secrets.get("secrets.db.pass").map(String::as_str), Some("first"));
}

#[test]
fn missing_or_broken_document_gives_an_empty_bundle() {
    let mut cache = SecretCache::new();
    cache.store_text("gone", None);
    cache.store_text("broken", Some("{not json"));
    cache.store_text("blank", Some(""));
    assert_eq!(cache.names(), &names(&["gone", "broken", "blank"]));
    assert_eq!(cache.next_missing(&names(&["gone", "broken", "blank"])), None);
    let secrets = cache.into_secrets();
    assert_eq!(secrets.len(), 0);
}

#[test]
fn store_takes_a_parsed_document() {
    let json = parse_json(r#"{"a":{"b":1}}"#).unwrap();
    let mut cache = SecretCache::new();
    cache.store("s", Some(&json));
    cache.store("t", None);
    assert_eq!(cache.names(), &names(&["s", "t"]));
    let secrets = cache.into_secrets();
    assert_eq!(secrets.len(), 1);
    assert_eq!(secrets.get("secrets.s.a.b").map(String::as_str), Some("1"));
}
