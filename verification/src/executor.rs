//! The run of one event: matching a notification to its event, resolving
//! the tokens of its commands, and deciding which command runs next.

use vstd::prelude::*;
use crate::config::{event_views, Event, EventView};
use crate::json::{parse_json, parsed_json, Json, JsonValue};
use crate::path_map::PathMap;
use crate::utils::{flatten, flatten_into};
use crate::template::{substitute, substitute_from};
use crate::text::{copy_strings, find_double, from_chars, push_range, push_str, texts, to_chars};

verus! {

/// Replaces each `{{token}}` of `command` by the value that `payload` has for
/// the token. The token is the text between the delimiters, untrimmed; a
/// token without a value stays in the text, delimiters included, and a value
/// is not scanned for tokens again. A `{{` that no `}}` follows is literal
/// text, and so is all that stands behind it; a `}}` outside a token is
/// literal text too.
pub fn resolve_variables(command: &str, payload: &PathMap) -> (resolved: String)
    ensures
        resolved@ == substitute(command@, payload@),
{
    let chars = to_chars(command);
    let n: usize = chars.len();
    let mut out: Vec<char> = Vec::new();
    let mut pos: usize = 0;
    loop
        invariant
            n == chars.len(),
            pos <= n,
            out@ + substitute_from(chars@, payload@, pos as int) == substitute(chars@, payload@),
        ensures
            pos <= n,
            out@ + chars@.skip(pos as int) == substitute(chars@, payload@),
        decreases n - pos,
    {
        let open = find_double(&chars, '{', pos);
        if open >= n {
            break ;
        }
        let close = find_double(&chars, '}', open + 2);
        if close >= n {
            break ;
        }
        let mut token_chars: Vec<char> = Vec::new();
        push_range(&mut token_chars, &chars, open + 2, close);
        let token = from_chars(&token_chars);
        assert(token@ == chars@.subrange(open + 2, close as int));
        push_range(&mut out, &chars, pos, open);
        match payload.get(token.as_str()) {
            Some(value) => {
                push_str(&mut out, value.as_str());
            },
            None => {
                out.push('{');
                out.push('{');
                push_range(&mut out, &chars, open + 2, close);
                out.push('}');
                out.push('}');
                assert(seq!['{', '{'] + token@ + seq!['}', '}'] == seq!['{'].push('{') + token@
                    + seq!['}'].push('}'));
            },
        }
        pos = close + 2;
    }
    push_range(&mut out, &chars, pos, n);
    from_chars(&out)
}

/// Where the run of one event stands.
#[derive(Clone, Copy, Debug, PartialEq, Eq, Structural)]
pub enum RunState {
    /// No event has been matched.
    Idle,
    /// An event has been matched; its secrets are not resolved yet.
    Matched,
    /// The secrets are resolved; no command has started.
    SecretsResolved,
    /// The command of this index is the one to run.
    Running(usize),
    /// Every command has exited with success.
    Completed,
    /// A command failed; the commands after it do not run.
    Aborted,
}

/// How the run of one command ended.
#[derive(Clone, Copy, Debug, PartialEq, Eq, Structural)]
pub enum Outcome {
    /// The command exited with status zero.
    Success,
    /// The command exited with another status.
    Failure,
    /// The command could not be started.
    SpawnFailure,
}

/// One of the two streams a command writes to.
#[derive(Clone, Copy, Debug, PartialEq, Eq, Structural)]
pub enum Stream {
    Stdout,
    Stderr,
}

/// The stream whose captured text is reported after a command: standard
/// output after success, standard error after a failing exit, none where the
/// command did not start.
pub open spec fn reported_stream(outcome: Outcome) -> Option<Stream> {
    match outcome {
        Outcome::Success => Some(Stream::Stdout),
        Outcome::Failure => Some(Stream::Stderr),
        Outcome::SpawnFailure => None,
    }
}

/// The stream whose captured text is reported after a command.
pub fn report_stream(outcome: Outcome) -> (stream: Option<Stream>)
    ensures
        stream == reported_stream(outcome),
{
    match outcome {
        Outcome::Success => Some(Stream::Stdout),
        Outcome::Failure => Some(Stream::Stderr),
        Outcome::SpawnFailure => None,
    }
}

/// The state after an event was matched: a run begins only from `Idle`.
pub open spec fn after_match(state: RunState) -> RunState {
    if state == RunState::Idle {
        RunState::Matched
    } else {
        state
    }
}

/// The state after the secrets were resolved.
pub open spec fn after_secrets(state: RunState) -> RunState {
    if state == RunState::Matched {
        RunState::SecretsResolved
    } else {
        state
    }
}

/// The state after the next command was asked for, with `n` commands in all:
/// the first command starts once the secrets are resolved, and an event
/// without commands is complete at once.
pub open spec fn after_next(state: RunState, n: nat) -> RunState {
    if state == RunState::SecretsResolved {
        if n == 0 {
            RunState::Completed
        } else {
            RunState::Running(0)
        }
    } else {
        state
    }
}

/// The state after the running command ended with `outcome`, with `n`
/// commands in all: success moves on to the next command or completes the
/// run, anything else aborts it.
pub open spec fn after_exit(state: RunState, outcome: Outcome, n: nat) -> RunState {
    match state {
        RunState::Running(i) => if outcome == Outcome::Success {
            if i + 1 < n {
                RunState::Running((i + 1) as usize)
            } else {
                RunState::Completed
            }
        } else {
            RunState::Aborted
        },
        _ => state,
    }
}

/// The state in which a run ends when its commands end with `outcomes`, in
/// order: the next command is asked for, runs, and its outcome is recorded,
/// until no command is to run or no outcome is left.
pub open spec fn drive(state: RunState, n: nat, outcomes: Seq<Outcome>) -> RunState
    decreases outcomes.len(),
{
    let ready = after_next(state, n);
    if ready is Running && outcomes.len() > 0 {
        drive(after_exit(ready, outcomes[0], n), n, outcomes.drop_first())
    } else {
        ready
    }
}

/// The number of commands that run when a run is driven as in `drive`.
pub open spec fn commands_run(state: RunState, n: nat, outcomes: Seq<Outcome>) -> nat
    decreases outcomes.len(),
{
    let ready = after_next(state, n);
    if ready is Running && outcomes.len() > 0 {
        1 + commands_run(after_exit(ready, outcomes[0], n), n, outcomes.drop_first())
    } else {
        0
    }
}

/// Whether `state` is about to run the command of index `i`, of `n` commands.
pub open spec fn at_command(state: RunState, i: nat, n: nat) -> bool {
    i < n && (state == RunState::Running(i as usize) || (state == RunState::SecretsResolved && i
        == 0))
}

/// A run aborts at its first failing command: where the `k` commands from
/// index `i` on succeed and the next one does not, exactly `k + 1` commands
/// run, and the run ends aborted.
pub proof fn lemma_fail_fast(state: RunState, i: nat, n: nat, outcomes: Seq<Outcome>, k: nat)
    requires
        at_command(state, i, n),
        i + k < n,
        n <= usize::MAX,
        k < outcomes.len(),
        forall|j: int| 0 <= j < k ==> outcomes[j] == Outcome::Success,
        outcomes[k as int] != Outcome::Success,
    ensures
        drive(state, n, outcomes) == RunState::Aborted,
        commands_run(state, n, outcomes) == k + 1,
    decreases k,
{
    reveal_with_fuel(drive, 2);
    reveal_with_fuel(commands_run, 2);
    let ready = after_next(state, n);
    assert(ready == RunState::Running(i as usize));
    let rest = outcomes.drop_first();
    if k == 0 {
        assert(after_exit(ready, outcomes[0], n) == RunState::Aborted);
        assert(after_next(RunState::Aborted, n) == RunState::Aborted);
    } else {
        assert(outcomes[0] == Outcome::Success);
        assert(after_exit(ready, outcomes[0], n) == RunState::Running((i + 1) as usize));
        assert forall|j: int| 0 <= j < k - 1 implies rest[j] == Outcome::Success by {
            assert(rest[j] == outcomes[j + 1]);
        }
        assert(rest[k - 1] == outcomes[k as int]);
        lemma_fail_fast(RunState::Running((i + 1) as usize), i + 1, n, rest, (k - 1) as nat);
    }
}

/// A run whose commands all succeed runs every command from index `i` on and
/// ends completed.
pub proof fn lemma_all_succeed(state: RunState, i: nat, n: nat, outcomes: Seq<Outcome>)
    requires
        at_command(state, i, n),
        n <= usize::MAX,
        n - i <= outcomes.len(),
        forall|j: int| 0 <= j < n - i ==> outcomes[j] == Outcome::Success,
    ensures
        drive(state, n, outcomes) == RunState::Completed,
        commands_run(state, n, outcomes) == n - i,
    decreases n - i,
{
    reveal_with_fuel(drive, 2);
    reveal_with_fuel(commands_run, 2);
    let ready = after_next(state, n);
    assert(ready == RunState::Running(i as usize));
    let rest = outcomes.drop_first();
    assert(outcomes[0] == Outcome::Success);
    if i + 1 < n {
        assert forall|j: int| 0 <= j < n - (i + 1) implies rest[j] == Outcome::Success by {
            assert(rest[j] == outcomes[j + 1]);
        }
        lemma_all_succeed(RunState::Running((i + 1) as usize), i + 1, n, rest);
    } else {
        assert(after_exit(ready, outcomes[0], n) == RunState::Completed);
        assert(after_next(RunState::Completed, n) == RunState::Completed);
    }
}

/// A finished run stays as it is, whatever is asked of it or told to it.
pub proof fn lemma_finished_is_final(state: RunState, n: nat, outcomes: Seq<Outcome>)
    requires
        state == RunState::Completed || state == RunState::Aborted,
    ensures
        drive(state, n, outcomes) == state,
        commands_run(state, n, outcomes) == 0,
        forall|outcome: Outcome| after_exit(state, outcome, n) == state,
        after_next(state, n) == state,
        after_match(state) == state,
        after_secrets(state) == state,
{
}

/// One command, ready to run.
#[derive(Clone, Debug, PartialEq, Eq)]
pub struct Invocation {
    /// The command with the event's fields in place; secrets are still tokens.
    pub announce: String,
    /// The command with the event's fields and the secrets in place.
    pub command: String,
    /// The directory to run the command in.
    pub cwd: String,
}

/// An invocation as mathematical text.
pub struct InvocationView {
    pub announce: Seq<char>,
    pub command: Seq<char>,
    pub cwd: Seq<char>,
}

impl View for Invocation {
    type V = InvocationView;

    open spec fn view(&self) -> InvocationView {
        InvocationView { announce: self.announce@, command: self.command@, cwd: self.cwd@ }
    }
}

/// The run of one event as mathematical values.
pub struct PipelineView {
    pub commands: Seq<Seq<char>>,
    pub cwd: Seq<char>,
    pub required: Seq<Seq<char>>,
    pub fields: Map<Seq<char>, Seq<char>>,
    pub secrets: Map<Seq<char>, Seq<char>>,
    pub state: RunState,
}

impl PipelineView {
    /// The invocation of the command of index `i`: the event's fields are
    /// put into the template first, the secrets into the result.
    pub open spec fn invocation(self, i: int) -> InvocationView {
        let announce = substitute(self.commands[i], self.fields);
        InvocationView {
            announce,
            command: substitute(announce, self.secrets),
            cwd: self.cwd,
        }
    }
}

/// The run of one event: its commands, what is put into them, and how far
/// the run has come.
pub struct Pipeline {
    commands: Vec<String>,
    cwd: String,
    required: Vec<String>,
    fields: PathMap,
    secrets: PathMap,
    state: RunState,
}

impl View for Pipeline {
    type V = PipelineView;

    closed spec fn view(&self) -> PipelineView {
        PipelineView {
            commands: texts(self.commands@),
            cwd: self.cwd@,
            required: texts(self.required@),
            fields: self.fields@,
            secrets: self.secrets@,
            state: self.state,
        }
    }
}

impl Pipeline {
    #[verifier::type_invariant]
    spec fn running_a_command(&self) -> bool {
        match self.state {
            RunState::Running(i) => i < self.commands@.len(),
            _ => true,
        }
    }

    /// A run that waits for an event: it is idle and holds nothing yet.
    pub fn new() -> (pipeline: Pipeline)
        ensures
            pipeline@ == (PipelineView {
                commands: Seq::empty(),
                cwd: Seq::empty(),
                required: Seq::empty(),
                fields: Map::empty(),
                secrets: Map::empty(),
                state: RunState::Idle,
            }),
    {
        let pipeline = Pipeline {
            commands: Vec::new(),
            cwd: String::new(),
            required: Vec::new(),
            fields: PathMap::new(),
            secrets: PathMap::new(),
            state: RunState::Idle,
        };
        assert(texts(pipeline.commands@) == Seq::<Seq<char>>::empty());
        assert(texts(pipeline.required@) == Seq::<Seq<char>>::empty());
        pipeline
    }

    /// Where the run stands.
    pub fn state(&self) -> (state: RunState)
        ensures
            state == self@.state,
            state matches RunState::Running(i) ==> i < self@.commands.len(),
    {
        proof {
            use_type_invariant(self);
        }
        self.state
    }

    /// An idle run takes up the matched event with the fields of its
    /// notification, and is then `Matched`. A run in another state stays as
    /// it is.
    pub fn event_matched(&mut self, event: &Event, fields: PathMap)
        ensures
            final(self)@ == if old(self)@.state == RunState::Idle {
                PipelineView {
                    commands: event@.commands,
                    cwd: event@.cwd,
                    required: event@.secrets,
                    fields: fields@,
                    secrets: old(self)@.secrets,
                    state: RunState::Matched,
                }
            } else {
                old(self)@
            },
            final(self)@.state == after_match(old(self)@.state),
    {
        match self.state {
            RunState::Idle => {
                self.commands = copy_strings(&event.commands);
                self.cwd = event.cwd.clone();
                self.required = copy_strings(&event.secrets);
                self.fields = fields;
                self.state = RunState::Matched;
            },
            _ => {},
        }
    }

    /// The names of the secrets that the matched event requires.
    pub fn required_secrets(&self) -> (names: Vec<String>)
        ensures
            texts(names@) == self@.required,
    {
        copy_strings(&self.required)
    }

    /// A matched run takes the resolved secrets, and is then
    /// `SecretsResolved`. A run in another state stays as it is.
    pub fn secrets_resolved(&mut self, secrets: PathMap)
        ensures
            final(self)@ == if old(self)@.state == RunState::Matched {
                PipelineView { secrets: secrets@, state: RunState::SecretsResolved, ..old(self)@ }
            } else {
                old(self)@
            },
            final(self)@.state == after_secrets(old(self)@.state),
    {
        match self.state {
            RunState::Matched => {
                self.secrets = secrets;
                self.state = RunState::SecretsResolved;
            },
            _ => {},
        }
    }

    /// The command to run now, if there is one. Once the secrets are
    /// resolved the first command is up, or the run is complete where the
    /// event has no command. While a command runs, it is the one given.
    pub fn next_command(&mut self) -> (invocation: Option<Invocation>)
        ensures
            final(self)@ == (PipelineView {
                state: after_next(old(self)@.state, old(self)@.commands.len()),
                ..old(self)@
            }),
            match final(self)@.state {
                RunState::Running(i) => i < final(self)@.commands.len() && invocation.is_some()
                    && invocation.unwrap()@ == final(self)@.invocation(i as int),
                _ => invocation.is_none(),
            },
    {
        proof {
            use_type_invariant(&*self);
        }
        match self.state {
            RunState::SecretsResolved => {
                if self.commands.len() == 0 {
                    self.state = RunState::Completed;
                } else {
                    self.state = RunState::Running(0);
                }
            },
            _ => {},
        }
        match self.state {
            RunState::Running(i) => {
                let announce = resolve_variables(self.commands[i].as_str(), &self.fields);
                let command = resolve_variables(announce.as_str(), &self.secrets);
                Some(Invocation { announce, command, cwd: self.cwd.clone() })
            },
            _ => None,
        }
    }

    /// Records how the running command ended: after success the next
    /// command is up, or the run is complete behind the last one; after a
    /// failing exit or a failure to start, the run is aborted. A run that
    /// runs no command stays as it is.
    pub fn command_finished(&mut self, outcome: Outcome)
        ensures
            final(self)@ == (PipelineView {
                state: after_exit(old(self)@.state, outcome, old(self)@.commands.len()),
                ..old(self)@
            }),
    {
        proof {
            use_type_invariant(&*self);
        }
        match self.state {
            RunState::Running(i) => {
                let n: usize = self.commands.len();
                match outcome {
                    Outcome::Success => {
                        if i + 1 < n {
                            self.state = RunState::Running(i + 1);
                        } else {
                            self.state = RunState::Completed;
                        }
                    },
                    _ => {
                        self.state = RunState::Aborted;
                    },
                }
            },
            _ => {},
        }
    }
}

/// Why a notification is not handled.
#[derive(Clone, Debug, PartialEq, Eq)]
pub enum ParseError {
    /// The payload is not the text of a JSON object.
    InvalidJson,
    /// The object has no member `name`.
    MissingName,
    /// The member `name` is not a string.
    WrongNameType,
    /// No configured event has the name that the payload gives.
    UnknownEvent(String),
}

/// A reason as mathematical text.
pub enum ParseErrorView {
    InvalidJson,
    MissingName,
    WrongNameType,
    UnknownEvent(Seq<char>),
}

impl View for ParseError {
    type V = ParseErrorView;

    open spec fn view(&self) -> ParseErrorView {
        match self {
            ParseError::InvalidJson => ParseErrorView::InvalidJson,
            ParseError::MissingName => ParseErrorView::MissingName,
            ParseError::WrongNameType => ParseErrorView::WrongNameType,
            ParseError::UnknownEvent(name) => ParseErrorView::UnknownEvent(name@),
        }
    }
}

/// The key of the member that names a notification's event.
pub open spec fn name_key() -> Seq<char> {
    seq!['n', 'a', 'm', 'e']
}

/// The prefix of the paths of a notification's fields.
pub open spec fn event_prefix() -> Seq<char> {
    seq!['e', 'v', 'e', 'n', 't']
}

/// The name of the event that a notification is of: the text of the member
/// `name` of the object that the notification is.
pub open spec fn event_name(payload: JsonValue) -> Result<Seq<char>, ParseErrorView> {
    match payload {
        JsonValue::Object(_) => match payload.get(name_key()) {
            None => Err(ParseErrorView::MissingName),
            Some(JsonValue::Text(name)) => Ok(name),
            Some(_) => Err(ParseErrorView::WrongNameType),
        },
        _ => Err(ParseErrorView::InvalidJson),
    }
}

/// The fields of a notification: its leaves under the prefix `event`, where
/// it is an object with a string for its `name`.
pub open spec fn event_fields(payload: JsonValue) -> Result<
    Map<Seq<char>, Seq<char>>,
    ParseErrorView,
> {
    match event_name(payload) {
        Ok(_) => Ok(flatten(payload, event_prefix())),
        Err(reason) => Err(reason),
    }
}

/// The fields of a parsed notification, or the reason why it has none.
pub open spec fn fields_view(fields: Result<PathMap, ParseError>) -> Result<
    Map<Seq<char>, Seq<char>>,
    ParseErrorView,
> {
    match fields {
        Ok(map) => Ok(map@),
        Err(reason) => Err(reason@),
    }
}

/// The name of the event that a notification is of, or the reason why it
/// names none.
pub fn name_of(payload: &Json) -> (name: Result<&String, ParseError>)
    ensures
        match name {
            Ok(text) => event_name(payload@) == Ok::<Seq<char>, ParseErrorView>(text@),
            Err(reason) => event_name(payload@) == Err::<Seq<char>, ParseErrorView>(reason@),
        },
{
    match payload {
        Json::Object(_) => {
            proof {
                crate::json::lemma_object_view(*payload);
                reveal_strlit("name");
                assert("name"@ == name_key());
            }
            match payload.get("name") {
                None => Err(ParseError::MissingName),
                Some(Json::Text(name)) => Ok(name),
                Some(_) => Err(ParseError::WrongNameType),
            }
        },
        _ => Err(ParseError::InvalidJson),
    }
}

/// The fields of a parsed notification: the leaves of the payload under the
/// prefix `event`. A payload that is no object is `InvalidJson`; an object
/// without a member `name` is `MissingName`; one whose `name` is no string is
/// `WrongNameType`.
pub fn fields_of(payload: &Json) -> (fields: Result<PathMap, ParseError>)
    ensures
        fields_view(fields) == event_fields(payload@),
{
    match name_of(payload) {
        Ok(_) => {
            proof {
                reveal_strlit("event");
                assert("event"@ == event_prefix());
            }
            let mut fields = PathMap::new();
            flatten_into(payload, "event", &mut fields);
            Ok(fields)
        },
        Err(reason) => Err(reason),
    }
}

/// The fields of the notification that `text` is, by what `text` parses to:
/// a text that is not JSON is `InvalidJson`.
pub open spec fn text_fields(parsed: Option<JsonValue>) -> Result<
    Map<Seq<char>, Seq<char>>,
    ParseErrorView,
> {
    match parsed {
        Some(payload) => event_fields(payload),
        None => Err(ParseErrorView::InvalidJson),
    }
}

/// Parses a notification and gives its fields: the leaves of the payload
/// under the prefix `event`, or the reason why the payload is refused.
pub fn parse_event(event: &str) -> (fields: Result<PathMap, ParseError>)
    ensures
        fields_view(fields) == text_fields(parsed_json(event@)),
{
    match parse_json(event) {
        Some(payload) => fields_of(&payload),
        None => Err(ParseError::InvalidJson),
    }
}

/// The index of the first event named `name` among the events from index
/// `from` on.
pub open spec fn first_named(events: Seq<EventView>, name: Seq<char>, from: int) -> Option<int>
    decreases events.len() - from,
{
    if from < 0 || from >= events.len() {
        None
    } else if events[from].name == name {
        Some(from)
    } else {
        first_named(events, name, from + 1)
    }
}

/// `first_named` gives an event of that name that no other one from `from`
/// on precedes, and none only where no event from `from` on has the name.
pub proof fn lemma_first_named(events: Seq<EventView>, name: Seq<char>, from: int)
    requires
        0 <= from,
    ensures
        match first_named(events, name, from) {
            Some(i) => from <= i < events.len() && events[i].name == name && forall|j: int|
                from <= j < i ==> events[j].name != name,
            None => forall|j: int| from <= j < events.len() ==> events[j].name != name,
        },
    decreases events.len() - from,
{
    if from < events.len() && events[from].name != name {
        lemma_first_named(events, name, from + 1);
    }
}

/// The index of the first configured event named `name`.
pub fn find_event(events: &Vec<Event>, name: &str) -> (found: Option<usize>)
    ensures
        match found {
            Some(i) => first_named(event_views(events@), name@, 0) == Some(i as int) && i
                < events.len(),
            None => first_named(event_views(events@), name@, 0) is None,
        },
{
    let owned = name.to_owned();
    let mut i: usize = 0;
    while i < events.len()
        invariant
            i <= events.len(),
            owned@ == name@,
            first_named(event_views(events@), name@, 0) == first_named(
                event_views(events@),
                name@,
                i as int,
            ),
        decreases events.len() - i,
    {
        assert(event_views(events@)[i as int] == events@[i as int]@);
        if events[i].name == owned {
            return Some(i);
        }
        i += 1;
    }
    None
}

/// What a notification is matched to: the index of the configured event of
/// its name and its fields, or the reason why it is dropped.
pub open spec fn matched(payload: JsonValue, events: Seq<EventView>) -> Result<
    (int, Map<Seq<char>, Seq<char>>),
    ParseErrorView,
> {
    match event_name(payload) {
        Err(reason) => Err(reason),
        Ok(name) => match first_named(events, name, 0) {
            None => Err(ParseErrorView::UnknownEvent(name)),
            Some(i) => Ok((i, flatten(payload, event_prefix()))),
        },
    }
}

/// What the text of a notification is matched to, by what the text parses
/// to.
pub open spec fn text_matched(parsed: Option<JsonValue>, events: Seq<EventView>) -> Result<
    (int, Map<Seq<char>, Seq<char>>),
    ParseErrorView,
> {
    match parsed {
        Some(payload) => matched(payload, events),
        None => Err(ParseErrorView::InvalidJson),
    }
}

/// A match as mathematical values.
pub open spec fn match_view(found: Result<(usize, PathMap), ParseError>) -> Result<
    (int, Map<Seq<char>, Seq<char>>),
    ParseErrorView,
> {
    match found {
        Ok((i, fields)) => Ok((i as int, fields@)),
        Err(reason) => Err(reason@),
    }
}

/// Matches a parsed notification to the configured event of its name: gives
/// the index of the first such event and the notification's fields, or the
/// reason why the notification is dropped.
pub fn match_payload(payload: &Json, events: &Vec<Event>) -> (found: Result<
    (usize, PathMap),
    ParseError,
>)
    ensures
        match_view(found) == matched(payload@, event_views(events@)),
        found matches Ok((i, _)) ==> i < events.len(),
{
    match name_of(payload) {
        Err(reason) => Err(reason),
        Ok(name) => match find_event(events, name.as_str()) {
            None => Err(ParseError::UnknownEvent(name.clone())),
            Some(i) => {
                proof {
                    reveal_strlit("event");
                    assert("event"@ == event_prefix());
                }
                let mut fields = PathMap::new();
                flatten_into(payload, "event", &mut fields);
                Ok((i, fields))
            },
        },
    }
}

/// Matches the text of a notification to a configured event: parses it,
/// and matches what it parses to as `match_payload` does.
pub fn match_event(payload: &str, events: &Vec<Event>) -> (found: Result<
    (usize, PathMap),
    ParseError,
>)
    ensures
        match_view(found) == text_matched(parsed_json(payload@), event_views(events@)),
        found matches Ok((i, _)) ==> i < events.len(),
{
    match parse_json(payload) {
        Some(json) => match_payload(&json, events),
        None => Err(ParseError::InvalidJson),
    }
}

/// The matcher refuses what it cannot match, and says why: a payload that is
/// no object, an object without a `name`, a `name` that is no string, and a
/// name that no configured event has. It matches every other payload to the
/// first event of its name.
pub proof fn lemma_matcher_refusals(payload: JsonValue, events: Seq<EventView>)
    ensures
        !(payload is Object) ==> matched(payload, events) == Err::<
            (int, Map<Seq<char>, Seq<char>>),
            ParseErrorView,
        >(ParseErrorView::InvalidJson),
        payload is Object && payload.get(name_key()) is None ==> matched(payload, events) == Err::<
            (int, Map<Seq<char>, Seq<char>>),
            ParseErrorView,
        >(ParseErrorView::MissingName),
        payload is Object && payload.get(name_key()) is Some && !(payload.get(name_key())->0
            is Text) ==> matched(payload, events) == Err::<
            (int, Map<Seq<char>, Seq<char>>),
            ParseErrorView,
        >(ParseErrorView::WrongNameType),
        forall|name: Seq<char>|
            event_name(payload) == Ok::<Seq<char>, ParseErrorView>(name) && (forall|i: int|
                0 <= i < events.len() ==> (#[trigger] events[i]).name != name) ==> matched(
                payload,
                events,
            ) == Err::<(int, Map<Seq<char>, Seq<char>>), ParseErrorView>(
                ParseErrorView::UnknownEvent(name),
            ),
        matched(payload, events) matches Ok((i, fields)) ==> {
            &&& 0 <= i < events.len()
            &&& event_name(payload) == Ok::<Seq<char>, ParseErrorView>(events[i].name)
            &&& fields == flatten(payload, event_prefix())
        },
{
    match event_name(payload) {
        Ok(name) => {
            lemma_first_named(events, name, 0);
        },
        Err(_) => {},
    }
}

} // verus!
