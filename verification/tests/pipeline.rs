use shadow_deploy::config::Event;
use shadow_deploy::executor::{report_stream, Invocation, Outcome, Pipeline, RunState, Stream};
use shadow_deploy::path_map::PathMap;

fn map_of(pairs: &[(&str, &str)]) -> PathMap {
    let mut map = PathMap::new();
    for (key, value) in pairs {
        map.insert(key.to_string(), value.to_string());
    }
    map
}

fn event(commands: &[&str]) -> Event {
    Event {
        name: "deploy".to_string(),
        cwd: "/srv/app".to_string(),
        secrets: vec!["db".to_string()],
        commands: commands.iter().map(|c| c.to_string()).collect(),
    }
}

fn ready(commands: &[&str]) -> Pipeline {
    let mut pipeline = Pipeline::new();
    pipeline.event_matched(&event(commands), map_of(&[("event.tag", "v1")]));
    pipeline.secrets_resolved(map_of(&[("secrets.db.pass", "hunter2")]));
    pipeline
}

fn run(pipeline: &mut Pipeline, outcomes: &[Outcome]) -> Vec<String> {
    let mut ran = Vec::new();
    let mut next = outcomes.iter();
    while let Some(invocation) = pipeline.next_command() {
        ran.push(invocation.command);
        match next.next() {
            Some(outcome) => pipeline.command_finished(*outcome),
            None => break,
        }
    }
    ran
}

#[test]
fn fail_fast_second_of_three_fails() {
    let mut pipeline = ready(&["one", "two", "three"]);
    let ran = run(&mut pipeline, &[Outcome::Success, Outcome::Failure, Outcome::Success]);
    assert_eq!(ran, vec!["one".to_string(), "two".to_string()]);
    assert_eq!(pipeline.state(), RunState::Aborted);
    assert_eq!(pipeline.next_command(), None);
}

#[test]
fn spawn_failure_aborts_too() {
    let mut pipeline = ready(&["one", "two"]);
    let ran = run(&mut pipeline, &[Outcome::SpawnFailure, Outcome::Success]);
    assert_eq!(ran, vec!["one".to_string()]);
    assert_eq!(pipeline.state(), RunState::Aborted);
}

#[test]
fn all_commands_run_when_each_succeeds() {
    let mut pipeline = ready(&["one", "two", "three"]);
    let ran = run(&mut pipeline, &[Outcome::Success; 3]);
    assert_eq!(ran.len(), 3);
    assert_eq!(pipeline.state(), RunState::Completed);
    assert_eq!(pipeline.next_command(), None);
}

#[test]
fn event_without_commands_completes_at_once() {
    let mut pipeline = ready(&[]);
    assert_eq!(pipeline.state(), RunState::SecretsResolved);
    assert_eq!(pipeline.next_command(), None);
    assert_eq!(pipeline.state(), RunState::Completed);
}

#[test]
fn states_follow_one_another() {
    let mut pipeline = Pipeline::new();
    assert_eq!(pipeline.state(), RunState::Idle);
    assert_eq!(pipeline.next_command(), None);
    pipeline.command_finished(Outcome::Success);
    pipeline.secrets_resolved(PathMap::new());
    assert_eq!(pipeline.state(), RunState::Idle);
    pipeline.event_matched(&event(&["a", "b"]), PathMap::new());
    assert_eq!(pipeline.state(), RunState::Matched);
    assert_eq!(pipeline.required_secrets(), vec!["db".to_string()]);
    assert_eq!(pipeline.next_command(), None);
    assert_eq!(pipeline.state(), RunState::Matched);
    pipeline.secrets_resolved(PathMap::new());
    assert_eq!(pipeline.state(), RunState::SecretsResolved);
    assert!(pipeline.next_command().is_some());
    assert_eq!(pipeline.state(), RunState::Running(0));
    assert!(pipeline.next_command().is_some());
    assert_eq!(pipeline.state(), RunState::Running(0));
    pipeline.command_finished(Outcome::Success);
    assert_eq!(pipeline.state(), RunState::Running(1));
    pipeline.command_finished(Outcome::Success);
    assert_eq!(pipeline.state(), RunState::Completed);
    pipeline.command_finished(Outcome::Failure);
    assert_eq!(pipeline.state(), RunState::Completed);
}

#[test]
fn a_running_pipeline_ignores_another_match() {
    let mut pipeline = ready(&["first"]);
    pipeline.event_matched(&event(&["other"]), PathMap::new());
    assert_eq!(pipeline.state(), RunState::SecretsResolved);
    assert_eq!(pipeline.next_command().map(|i| i.command), Some("first".to_string()));
    pipeline.secrets_resolved(map_of(&[("secrets.db.pass", "changed")]));
    assert_eq!(pipeline.state(), RunState::Running(0));
}

#[test]
fn invocation_resolves_fields_then_secrets() {
    let mut pipeline = ready(&["deploy {{event.tag}} --pw {{secrets.db.pass}} {{other}}"]);
    let invocation = pipeline.next_command().unwrap();
    assert_eq!(
        invocation,
        Invocation {
            announce: "deploy v1 --pw {{secrets.db.pass}} {{other}}".to_string(),
            command: "deploy v1 --pw hunter2 {{other}}".to_string(),
            cwd: "/srv/app".to_string(),
        }
    );
}

#[test]
fn field_value_with_a_secret_token_is_resolved_in_the_second_pass() {
    let mut pipeline = Pipeline::new();
    pipeline.event_matched(&event(&["{{event.x}}"]), map_of(&[("event.x", "{{secrets.db.pass}}")]));
    pipeline.secrets_resolved(map_of(&[("secrets.db.pass", "hunter2")]));
    let invocation = pipeline.next_command().unwrap();
    assert_eq!(invocation.announce, "{{secrets.db.pass}}");
    assert_eq!(invocation.command, "hunter2");
}

#[test]
fn reported_stream_by_outcome() {
    assert_eq!(report_stream(Outcome::Success), Some(Stream::Stdout));
    assert_eq!(report_stream(Outcome::Failure), Some(Stream::Stderr));
    assert_eq!(report_stream(Outcome::SpawnFailure), None);
}

#[test]
fn new_pipeline_holds_nothing() {
    let mut pipeline = Pipeline::new();
    assert_eq!(pipeline.state(), RunState::Idle);
    assert_eq!(pipeline.required_secrets(), Vec::<String>::new());
    assert_eq!(pipeline.next_command(), None);
    pipeline.event_matched(&event(&["{{event.tag}}{{secrets.db.pass}}"]), PathMap::new());
    pipeline.secrets_resolved(PathMap::new());
    let invocation = pipeline.next_command().unwrap();
    assert_eq!(invocation.command, "{{event.tag}}{{secrets.db.pass}}");
}
