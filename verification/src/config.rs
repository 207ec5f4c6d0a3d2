//! Event definitions and the configuration they come from.

use vstd::prelude::*;
use crate::template::{lemma_token_place, tokens};
use crate::text::{
    copy_strings, distinct, from_chars, holds, lemma_distinct, lemma_distinct_push, push_range,
    texts, to_chars,
};

verus! {

/// The working directory of an event that names none, where the
/// configuration names none either.
pub const DEFAULT_CWD: &'static str = "/home/ubuntu";

/// The pause between two polls, in milliseconds, where the configuration
/// gives none.
pub const DEFAULT_INTERVAL: u64 = 2000;

/// One configured event: the commands that a notification of that name runs.
#[derive(Clone, Debug, PartialEq, Eq)]
pub struct Event {
    pub name: String,
    pub cwd: String,
    pub secrets: Vec<String>,
    pub commands: Vec<String>,
}

/// An event definition as mathematical text.
pub struct EventView {
    pub name: Seq<char>,
    pub cwd: Seq<char>,
    pub secrets: Seq<Seq<char>>,
    pub commands: Seq<Seq<char>>,
}

impl View for Event {
    type V = EventView;

    open spec fn view(&self) -> EventView {
        EventView {
            name: self.name@,
            cwd: self.cwd@,
            secrets: texts(self.secrets@),
            commands: texts(self.commands@),
        }
    }
}

/// The agent's configuration.
#[derive(Clone, Debug, PartialEq, Eq)]
pub struct Config {
    pub queue_name: String,
    pub group: Option<String>,
    pub interval: u64,
    pub events: Vec<Event>,
}

/// A configuration as mathematical text.
pub struct ConfigView {
    pub queue_name: Seq<char>,
    pub group: Option<Seq<char>>,
    pub interval: u64,
    pub events: Seq<EventView>,
}

/// The views of a sequence of events.
pub open spec fn event_views(events: Seq<Event>) -> Seq<EventView> {
    events.map_values(|e: Event| e@)
}

/// The text of an optional string.
pub open spec fn option_text(s: Option<String>) -> Option<Seq<char>> {
    match s {
        Some(text) => Some(text@),
        None => None,
    }
}

impl View for Config {
    type V = ConfigView;

    open spec fn view(&self) -> ConfigView {
        ConfigView {
            queue_name: self.queue_name@,
            group: option_text(self.group),
            interval: self.interval,
            events: event_views(self.events@),
        }
    }
}

/// An event as the configuration file states it.
#[derive(Clone, Debug, PartialEq, Eq)]
pub struct YamlEvent {
    pub name: String,
    pub description: Option<String>,
    pub cwd: Option<String>,
    pub commands: Vec<String>,
}

/// The configuration as the configuration file states it.
#[derive(Clone, Debug, PartialEq, Eq)]
pub struct YamlConfig {
    pub queue_name: String,
    pub group: Option<String>,
    pub cwd: Option<String>,
    pub interval: Option<u64>,
    pub events: Option<Vec<YamlEvent>>,
}

/// The text `{{secrets`, which precedes the dot before a secret's name.
pub open spec fn secrets_marker() -> Seq<char> {
    seq!['{', '{', 's', 'e', 'c', 'r', 'e', 't', 's']
}

/// Whether the dot at index `dot` of `command` follows `{{secrets`.
pub open spec fn names_secret(command: Seq<char>, dot: int) -> bool {
    &&& 9 <= dot < command.len()
    &&& command[dot] == '.'
    &&& command.subrange(dot - 9, dot) == secrets_marker()
}

/// The index of the first dot of `command` at or after `from`, or the length
/// of `command` if there is none.
pub open spec fn next_dot(command: Seq<char>, from: int) -> int
    decreases command.len() - from,
{
    if from < 0 || from >= command.len() {
        command.len() as int
    } else if command[from] == '.' {
        from
    } else {
        next_dot(command, from + 1)
    }
}

/// The secret names that `command` refers to from index `from` on, in the
/// order of their places: for each dot that follows `{{secrets`, the text
/// between that dot and the next one, or the end of the command.
pub open spec fn secret_names_from(command: Seq<char>, from: int) -> Seq<Seq<char>>
    decreases command.len() - from,
{
    if from < 0 || from >= command.len() {
        Seq::empty()
    } else if names_secret(command, from) {
        seq![command.subrange(from + 1, next_dot(command, from + 1))] + secret_names_from(
            command,
            from + 1,
        )
    } else {
        secret_names_from(command, from + 1)
    }
}

/// The secret names that the first `n` commands refer to, command by command.
pub open spec fn secret_names(commands: Seq<Seq<char>>, n: int) -> Seq<Seq<char>>
    decreases n,
{
    if n <= 0 || n > commands.len() {
        Seq::empty()
    } else {
        secret_names(commands, n - 1) + secret_names_from(commands[n - 1], 0)
    }
}

/// The secrets that the commands require: each name that they refer to, once,
/// in the order of first mention.
pub open spec fn required_secrets(commands: Seq<Seq<char>>) -> Seq<Seq<char>> {
    distinct(secret_names(commands, commands.len() as int))
}

/// A text without a dot.
pub open spec fn dot_free(text: Seq<char>) -> bool {
    forall|i: int| 0 <= i < text.len() ==> text[i] != '.'
}

/// The text `secrets.` and a name: what the tokens of a secret begin with,
/// and the prefix of the secret's paths.
pub open spec fn secret_prefix(name: Seq<char>) -> Seq<char> {
    seq!['s', 'e', 'c', 'r', 'e', 't', 's', '.'] + name
}

/// Behind a text without a dot, the next dot is the one that follows it.
proof fn lemma_next_dot(command: Seq<char>, from: int, name: Seq<char>)
    requires
        0 <= from,
        from + name.len() < command.len(),
        command.subrange(from, from + name.len()) == name,
        command[from + name.len()] == '.',
        dot_free(name),
    ensures
        next_dot(command, from) == from + name.len(),
    decreases name.len(),
{
    if name.len() > 0 {
        assert(command[from] == name[0]);
        let rest = name.skip(1);
        assert(command.subrange(from + 1, from + 1 + rest.len()) == rest);
        assert forall|i: int| 0 <= i < rest.len() implies rest[i] != '.' by {
            assert(rest[i] == name[i + 1]);
        }
        lemma_next_dot(command, from + 1, rest);
    }
}

/// The name behind each dot that follows `{{secrets` is among the names that
/// the command refers to.
proof fn lemma_named_secret(command: Seq<char>, from: int, dot: int)
    requires
        0 <= from <= dot,
        names_secret(command, dot),
    ensures
        secret_names_from(command, from).contains(
            command.subrange(dot + 1, next_dot(command, dot + 1)),
        ),
    decreases dot - from,
{
    let name = command.subrange(dot + 1, next_dot(command, dot + 1));
    if from == dot {
        assert(secret_names_from(command, from)[0] == name);
    } else {
        lemma_named_secret(command, from + 1, dot);
        let rest = secret_names_from(command, from + 1);
        let i = choose|i: int| 0 <= i < rest.len() && rest[i] == name;
        if names_secret(command, from) {
            assert(secret_names_from(command, from)[i + 1] == name);
        }
    }
}

/// The names that a command refers to are among those of the commands.
proof fn lemma_command_names(commands: Seq<Seq<char>>, n: int, c: int, name: Seq<char>)
    requires
        0 <= c < n <= commands.len(),
        secret_names_from(commands[c], 0).contains(name),
    ensures
        secret_names(commands, n).contains(name),
    decreases n,
{
    let front = secret_names(commands, n - 1);
    let last = secret_names_from(commands[n - 1], 0);
    if c == n - 1 {
        let i = choose|i: int| 0 <= i < last.len() && last[i] == name;
        assert((front + last)[front.len() + i] == name);
    } else {
        lemma_command_names(commands, n - 1, c, name);
        let i = choose|i: int| 0 <= i < front.len() && front[i] == name;
        assert((front + last)[i] == name);
    }
}

/// The secrets that the tokens of the commands name are required: where a
/// token of a command reads `secrets.`, a name without a dot, a dot and a
/// key, the name is among the required secrets.
pub proof fn lemma_token_secret_required(
    commands: Seq<Seq<char>>,
    c: int,
    t: int,
    name: Seq<char>,
    key: Seq<char>,
)
    requires
        0 <= c < commands.len(),
        0 <= t < tokens(commands[c]).len(),
        tokens(commands[c])[t] == secret_prefix(name) + seq!['.'] + key,
        dot_free(name),
    ensures
        required_secrets(commands).contains(name),
{
    let command = commands[c];
    let token = tokens(command)[t];
    let (open, close) = lemma_token_place(command, 0, t);
    let dot = open + 9;
    assert(token.len() == 9 + name.len() + key.len());
    assert forall|i: int| 0 <= i < token.len() implies command[open + 2 + i] == token[i] by {
        assert(command.subrange(open + 2, close)[i] == command[open + 2 + i]);
    }
    assert(command[dot] == '.') by {
        assert(token[7] == '.');
    }
    assert(command.subrange(dot - 9, dot) =~= secrets_marker()) by {
        assert(token[0] == 's' && token[1] == 'e' && token[2] == 'c' && token[3] == 'r' && token[4]
            == 'e' && token[5] == 't' && token[6] == 's');
    }
    assert(names_secret(command, dot));
    assert(command.subrange(dot + 1, dot + 1 + name.len()) =~= name) by {
        assert forall|i: int| 0 <= i < name.len() implies command[dot + 1 + i] == name[i] by {
            assert(token[8 + i] == name[i]);
        }
    }
    assert(command[dot + 1 + name.len()] == '.') by {
        assert(token[8 + name.len() as int] == '.');
    }
    lemma_next_dot(command, dot + 1, name);
    lemma_named_secret(command, 0, dot);
    lemma_command_names(commands, commands.len() as int, c, name);
    lemma_distinct(secret_names(commands, commands.len() as int));
}

fn dot_after(chars: &Vec<char>, from: usize) -> (index: usize)
    requires
        from <= chars.len(),
    ensures
        index == next_dot(chars@, from as int),
        from <= index <= chars.len(),
{
    let mut i: usize = from;
    while i < chars.len()
        invariant
            from <= i <= chars.len(),
            next_dot(chars@, from as int) == next_dot(chars@, i as int),
        decreases chars.len() - i,
    {
        if chars[i] == '.' {
            return i;
        }
        i += 1;
    }
    i
}

fn follows_marker(chars: &Vec<char>, dot: usize) -> (follows: bool)
    requires
        dot < chars.len(),
    ensures
        follows == names_secret(chars@, dot as int),
{
    if dot < 9 || chars[dot] != '.' {
        return false;
    }
    let follows = chars[dot - 9] == '{' && chars[dot - 8] == '{' && chars[dot - 7] == 's' && chars[dot
        - 6] == 'e' && chars[dot - 5] == 'c' && chars[dot - 4] == 'r' && chars[dot - 3] == 'e'
        && chars[dot - 2] == 't' && chars[dot - 1] == 's';
    proof {
        let window = chars@.subrange(dot - 9, dot as int);
        if follows {
            assert(window =~= secrets_marker());
        } else {
            assert(window[0] == chars@[dot - 9]);
            assert(window[1] == chars@[dot - 8]);
            assert(window[2] == chars@[dot - 7]);
            assert(window[3] == chars@[dot - 6]);
            assert(window[4] == chars@[dot - 5]);
            assert(window[5] == chars@[dot - 4]);
            assert(window[6] == chars@[dot - 3]);
            assert(window[7] == chars@[dot - 2]);
            assert(window[8] == chars@[dot - 1]);
        }
    }
    follows
}

/// The secrets that `commands` require: for each `{{secrets.` in a command,
/// the text up to the next dot or the end of the command; each name once, in
/// the order of first mention.
pub fn get_required_secrets(commands: &Vec<String>) -> (secrets: Vec<String>)
    ensures
        texts(secrets@) == required_secrets(texts(commands@)),
{
    let mut secrets: Vec<String> = Vec::new();
    let ghost all = texts(commands@);
    let mut c: usize = 0;
    while c < commands.len()
        invariant
            c <= commands.len(),
            all == texts(commands@),
            texts(secrets@) == distinct(secret_names(all, c as int)),
        decreases commands.len() - c,
    {
        let chars = to_chars(commands[c].as_str());
        let ghost before = secret_names(all, c as int);
        let ghost command = all[c as int];
        assert(command == chars@);
        let mut i: usize = 0;
        let ghost mut seen: Seq<Seq<char>> = Seq::empty();
        while i < chars.len()
            invariant
                i <= chars.len(),
                command == chars@,
                seen + secret_names_from(command, i as int) == secret_names_from(command, 0),
                texts(secrets@) == distinct(before + seen),
            decreases chars.len() - i,
        {
            if follows_marker(&chars, i) {
                let end = dot_after(&chars, i + 1);
                let mut name_chars: Vec<char> = Vec::new();
                push_range(&mut name_chars, &chars, i + 1, end);
                let name = from_chars(&name_chars);
                proof {
                    lemma_distinct_push(before + seen, name@);
                    assert((before + seen).push(name@) == before + seen.push(name@));
                    assert(seen.push(name@) + secret_names_from(command, i + 1) == seen + (seq![
                        name@,
                    ] + secret_names_from(command, i + 1)));
                    seen = seen.push(name@);
                }
                if !holds(&secrets, &name) {
                    proof {
                        assert(texts(secrets@.push(name)) == texts(secrets@).push(name@));
                    }
                    secrets.push(name);
                }
            }
            i += 1;
        }
        proof {
            assert(seen == secret_names_from(command, 0)) by {
                assert(secret_names_from(command, i as int) == Seq::<Seq<char>>::empty());
                assert(seen + Seq::<Seq<char>>::empty() == seen);
            }
        }
        c += 1;
    }
    secrets
}

/// The working directory of an event: its own, else the configuration's,
/// else `DEFAULT_CWD`.
pub open spec fn effective_cwd(base_cwd: Option<String>, own: Option<String>) -> Seq<char> {
    match own {
        Some(cwd) => cwd@,
        None => match base_cwd {
            Some(cwd) => cwd@,
            None => DEFAULT_CWD@,
        },
    }
}

/// The event that a stated event defines under the configuration's working
/// directory.
pub open spec fn event_of(base_cwd: Option<String>, yaml_event: YamlEvent) -> EventView {
    EventView {
        name: yaml_event.name@,
        cwd: effective_cwd(base_cwd, yaml_event.cwd),
        secrets: required_secrets(texts(yaml_event.commands@)),
        commands: texts(yaml_event.commands@),
    }
}

/// The event definition for an event of the configuration file.
pub fn parse_yaml_event(base_cwd: &Option<String>, yaml_event: &YamlEvent) -> (event: Event)
    ensures
        event@ == event_of(*base_cwd, *yaml_event),
{
    let name = yaml_event.name.clone();
    let cwd = match &yaml_event.cwd {
        Some(cwd) => cwd.clone(),
        None => match base_cwd {
            Some(cwd) => cwd.clone(),
            None => DEFAULT_CWD.to_owned(),
        },
    };
    let commands = copy_strings(&yaml_event.commands);
    let secrets = get_required_secrets(&commands);
    Event { name, cwd, secrets, commands }
}

/// The events that the first `n` stated events define.
pub open spec fn events_of(base_cwd: Option<String>, stated: Seq<YamlEvent>) -> Seq<EventView> {
    stated.map_values(|e: YamlEvent| event_of(base_cwd, e))
}

/// The configuration that a configuration file defines.
pub open spec fn config_of(yaml: YamlConfig) -> ConfigView {
    ConfigView {
        queue_name: yaml.queue_name@,
        group: option_text(yaml.group),
        interval: match yaml.interval {
            Some(interval) => interval,
            None => DEFAULT_INTERVAL,
        },
        events: match yaml.events {
            Some(stated) => events_of(yaml.cwd, stated@),
            None => Seq::empty(),
        },
    }
}

/// The configuration that a configuration file defines: its queue and group,
/// its interval or `DEFAULT_INTERVAL`, and its events in the stated order.
pub fn parse_yaml_config(yaml: &YamlConfig) -> (config: Config)
    ensures
        config@ == config_of(*yaml),
{
    let queue_name = yaml.queue_name.clone();
    let group = match &yaml.group {
        Some(group) => Some(group.clone()),
        None => None,
    };
    let interval = match yaml.interval {
        Some(interval) => interval,
        None => DEFAULT_INTERVAL,
    };
    let mut events: Vec<Event> = Vec::new();
    match &yaml.events {
        Some(stated) => {
            let mut i: usize = 0;
            while i < stated.len()
                invariant
                    i <= stated.len(),
                    event_views(events@) == events_of(yaml.cwd, stated@).take(i as int),
                decreases stated.len() - i,
            {
                let event = parse_yaml_event(&yaml.cwd, &stated[i]);
                proof {
                    assert(event_views(events@.push(event)) == event_views(events@).push(event@));
                    assert(events_of(yaml.cwd, stated@).take(i + 1) == events_of(
                        yaml.cwd,
                        stated@,
                    ).take(i as int).push(event@));
                }
                events.push(event);
                i += 1;
            }
            proof {
                assert(events_of(yaml.cwd, stated@).take(i as int) == events_of(yaml.cwd, stated@));
            }
        },
        None => {
            proof {
                assert(event_views(events@) == Seq::<EventView>::empty());
            }
        },
    }
    Config { queue_name, group, interval, events }
}

} // verus!
