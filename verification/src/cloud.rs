//! What the agent decides about the queue and the secret store: which
//! received message is handled, and which secrets are fetched.

use vstd::prelude::*;
use crate::config::{secret_prefix, Config};
use crate::json::{parse_json, parsed_json, Json, JsonValue};
use crate::path_map::PathMap;
use crate::text::{from_chars, holds, push_str, texts};
use crate::utils::{flatten_into, leaves, overlay};

verus! {

/// A message as the queue delivers it.
#[derive(Clone, Debug, PartialEq, Eq)]
pub struct Received {
    /// The payload of the notification.
    pub body: String,
    /// The group that the message was sent to, if the queue tells it.
    pub group: Option<String>,
    /// The handle by which the message is acknowledged.
    pub receipt: String,
}

/// One thing the agent does in a poll cycle.
#[derive(Clone, Debug, PartialEq, Eq)]
pub enum CycleAction {
    /// Removes the message with this receipt handle from the queue.
    Acknowledge(String),
    /// Handles the notification with this payload.
    Handle(String),
    /// Waits this many milliseconds before the next poll.
    Sleep(u64),
}

/// Whether a message of group `message_group` passes the configured group:
/// any message passes where no group is configured, else only the messages
/// of that group.
pub open spec fn passes_group(group: Option<String>, message_group: Option<String>) -> bool {
    match group {
        None => true,
        Some(wanted) => match message_group {
            Some(given) => given@ == wanted@,
            None => false,
        },
    }
}

/// What the agent does in one poll cycle: a message that passes the group
/// filter is acknowledged and handled, and then the agent sleeps; with no
/// message, or one of another group, the agent only sleeps.
pub open spec fn cycle_plan(group: Option<String>, interval: u64, received: Option<Received>) -> Seq<
    CycleAction,
> {
    match received {
        Some(message) => if passes_group(group, message.group) {
            seq![
                CycleAction::Acknowledge(message.receipt),
                CycleAction::Handle(message.body),
                CycleAction::Sleep(interval),
            ]
        } else {
            seq![CycleAction::Sleep(interval)]
        },
        None => seq![CycleAction::Sleep(interval)],
    }
}

/// Whether a message of group `message_group` passes the configured group.
pub fn group_passes(group: &Option<String>, message_group: &Option<String>) -> (passes: bool)
    ensures
        passes == passes_group(*group, *message_group),
{
    match group {
        None => true,
        Some(wanted) => match message_group {
            Some(given) => *given == *wanted,
            None => false,
        },
    }
}

/// What the agent does in this poll cycle, in order, given what the queue
/// delivered.
pub fn plan_cycle(config: &Config, received: Option<Received>) -> (plan: Vec<CycleAction>)
    ensures
        plan@ == cycle_plan(config.group, config.interval, received),
{
    let mut plan: Vec<CycleAction> = Vec::new();
    match received {
        Some(message) => {
            if group_passes(&config.group, &message.group) {
                plan.push(CycleAction::Acknowledge(message.receipt));
                plan.push(CycleAction::Handle(message.body));
            }
        },
        None => {},
    }
    plan.push(CycleAction::Sleep(config.interval));
    plan
}

/// A cycle without a message is idle: the agent sleeps and does nothing
/// else. So is a cycle whose message does not pass the group filter, and that
/// message is not acknowledged.
pub proof fn lemma_idle_cycle(group: Option<String>, interval: u64, received: Option<Received>)
    requires
        received is None || !passes_group(group, received->0.group),
    ensures
        cycle_plan(group, interval, received) == seq![CycleAction::Sleep(interval)],
{
}

/// The leaves of the bundle of the secret `name`: the leaves of its document
/// under the secret's prefix, and none where the secret has no document.
pub open spec fn bundle_leaves(name: Seq<char>, document: Option<JsonValue>) -> Seq<
    (Seq<char>, Seq<char>),
> {
    match document {
        Some(value) => leaves(value, secret_prefix(name)),
        None => Seq::empty(),
    }
}

/// The secrets resolved in one run, as mathematical values.
pub struct SecretCacheView {
    /// The names of the secrets fetched so far, in the order of the fetches.
    pub names: Seq<Seq<char>>,
    /// The values of all of them, each under its path.
    pub secrets: Map<Seq<char>, Seq<char>>,
}

/// The cache after the document of `name` has come in: a name that is cached
/// keeps its bundle; a new name is cached with the bundle of the document.
pub open spec fn stored(
    cache: SecretCacheView,
    name: Seq<char>,
    document: Option<JsonValue>,
) -> SecretCacheView {
    if cache.names.contains(name) {
        cache
    } else {
        SecretCacheView {
            names: cache.names.push(name),
            secrets: overlay(cache.secrets, bundle_leaves(name, document)),
        }
    }
}

/// The index of the first of the names from index `from` on that is not
/// among `cached`.
pub open spec fn first_missing(cached: Seq<Seq<char>>, names: Seq<Seq<char>>, from: int) -> Option<
    int,
>
    decreases names.len() - from,
{
    if from < 0 || from >= names.len() {
        None
    } else if !cached.contains(names[from]) {
        Some(from)
    } else {
        first_missing(cached, names, from + 1)
    }
}

/// The names that are fetched, in order, when the names from index `from` on
/// are resolved with `cached` in the cache: each name that is not cached is
/// fetched and then cached.
pub open spec fn fetches(cached: Seq<Seq<char>>, names: Seq<Seq<char>>, from: int) -> Seq<
    Seq<char>,
>
    decreases names.len() - from,
{
    if from < 0 || from >= names.len() {
        Seq::empty()
    } else if cached.contains(names[from]) {
        fetches(cached, names, from + 1)
    } else {
        seq![names[from]] + fetches(cached.push(names[from]), names, from + 1)
    }
}

/// Each secret is fetched once: the names fetched hold no name twice and
/// none that was cached, and every name asked for is cached or fetched.
pub proof fn lemma_fetched_once(cached: Seq<Seq<char>>, names: Seq<Seq<char>>, from: int)
    requires
        0 <= from,
    ensures
        fetches(cached, names, from).no_duplicates(),
        forall|name: Seq<char>|
            fetches(cached, names, from).contains(name) ==> !cached.contains(name),
        forall|i: int|
            from <= i < names.len() ==> cached.contains(#[trigger] names[i]) || fetches(
                cached,
                names,
                from,
            ).contains(names[i]),
    decreases names.len() - from,
{
    if from < names.len() {
        let name = names[from];
        if cached.contains(name) {
            lemma_fetched_once(cached, names, from + 1);
        } else {
            let more = cached.push(name);
            let rest = fetches(more, names, from + 1);
            let all = seq![name] + rest;
            lemma_fetched_once(more, names, from + 1);
            assert(more[cached.len() as int] == name);
            assert forall|other: Seq<char>| cached.contains(other) implies more.contains(other) by {
                let i = choose|i: int| 0 <= i < cached.len() && cached[i] == other;
                assert(more[i] == other);
            }
            assert forall|i: int, j: int| 0 <= i < all.len() && 0 <= j < all.len() && i
                != j implies all[i] != all[j] by {
                assert(more.contains(name));
                if i == 0 {
                    assert(rest.contains(all[j])) by {
                        assert(rest[j - 1] == all[j]);
                    }
                    assert(!more.contains(all[j]));
                } else if j == 0 {
                    assert(rest.contains(all[i])) by {
                        assert(rest[i - 1] == all[i]);
                    }
                    assert(!more.contains(all[i]));
                } else {
                    assert(rest[i - 1] != rest[j - 1]);
                }
            }
            assert forall|other: Seq<char>| all.contains(other) implies !cached.contains(other) by {
                let i = choose|i: int| 0 <= i < all.len() && all[i] == other;
                if i > 0 {
                    assert(rest.contains(other)) by {
                        assert(rest[i - 1] == other);
                    }
                }
            }
            assert forall|i: int| from <= i < names.len() implies cached.contains(
                #[trigger] names[i],
            ) || all.contains(names[i]) by {
                if i == from {
                    assert(all[0] == names[i]);
                } else if more.contains(names[i]) {
                    let j = choose|j: int| 0 <= j < more.len() && more[j] == names[i];
                    if j < cached.len() {
                        assert(cached[j] == names[i]);
                    } else {
                        assert(all[0] == names[i]);
                    }
                } else {
                    let j = choose|j: int| 0 <= j < rest.len() && rest[j] == names[i];
                    assert(all[j + 1] == names[i]);
                }
            }
        }
    }
}

/// The next fetch is the first of the fetches to come, and the fetches that
/// come after the document is stored are the others.
pub proof fn lemma_fetch_step(cached: Seq<Seq<char>>, names: Seq<Seq<char>>, from: int)
    requires
        0 <= from,
    ensures
        match first_missing(cached, names, from) {
            Some(i) => from <= i < names.len() && fetches(cached, names, from) == seq![names[i]]
                + fetches(cached.push(names[i]), names, i + 1) && fetches(
                cached.push(names[i]),
                names,
                from,
            ) == fetches(cached.push(names[i]), names, i + 1),
            None => fetches(cached, names, from) == Seq::<Seq<char>>::empty(),
        },
    decreases names.len() - from,
{
    if from < names.len() {
        if cached.contains(names[from]) {
            lemma_fetch_step(cached, names, from + 1);
            match first_missing(cached, names, from) {
                Some(i) => {
                    let more = cached.push(names[i]);
                    let j = choose|j: int| 0 <= j < cached.len() && cached[j] == names[from];
                    assert(more[j] == names[from]);
                },
                None => {},
            }
        } else {
            let more = cached.push(names[from]);
            assert(more[cached.len() as int] == names[from]);
        }
    }
}

/// The secrets resolved in one run: the names fetched so far, each once, and
/// the values of all of them.
pub struct SecretCache {
    names: Vec<String>,
    secrets: PathMap,
}

impl View for SecretCache {
    type V = SecretCacheView;

    closed spec fn view(&self) -> SecretCacheView {
        SecretCacheView { names: texts(self.names@), secrets: self.secrets@ }
    }
}

impl SecretCache {
    #[verifier::type_invariant]
    spec fn names_once(&self) -> bool {
        texts(self.names@).no_duplicates()
    }

    /// The cache at the start of a run: no secret is cached.
    pub fn new() -> (cache: SecretCache)
        ensures
            cache@.names == Seq::<Seq<char>>::empty(),
            cache@.secrets == Map::<Seq<char>, Seq<char>>::empty(),
    {
        let cache = SecretCache { names: Vec::new(), secrets: PathMap::new() };
        assert(texts(cache.names@) == Seq::<Seq<char>>::empty());
        cache
    }

    /// Whether the secret `name` is cached.
    pub fn is_cached(&self, name: &str) -> (cached: bool)
        ensures
            cached == self@.names.contains(name@),
            self@.names.no_duplicates(),
    {
        proof {
            use_type_invariant(self);
        }
        let owned = name.to_owned();
        holds(&self.names, &owned)
    }

    /// The index of the first of `names` that is not cached: the secret to
    /// fetch next. `None` where every name is cached.
    pub fn next_missing(&self, names: &Vec<String>) -> (next: Option<usize>)
        ensures
            match next {
                Some(i) => first_missing(self@.names, texts(names@), 0) == Some(i as int) && i
                    < names.len(),
                None => first_missing(self@.names, texts(names@), 0) is None,
            },
    {
        let mut i: usize = 0;
        while i < names.len()
            invariant
                i <= names.len(),
                first_missing(self@.names, texts(names@), 0) == first_missing(
                    self@.names,
                    texts(names@),
                    i as int,
                ),
            decreases names.len() - i,
        {
            assert(texts(names@)[i as int] == names@[i as int]@);
            if !holds(&self.names, &names[i]) {
                return Some(i);
            }
            i += 1;
        }
        None
    }

    /// Takes in the document of the secret `name`: the leaves of the document
    /// are put under `secrets.` and the name, and the name is cached. A name
    /// that is cached already keeps what it has.
    pub fn store(&mut self, name: &str, document: Option<&Json>)
        ensures
            final(self)@ == stored(
                old(self)@,
                name@,
                match document {
                    Some(json) => Some(json@),
                    None => None,
                },
            ),
    {
        proof {
            use_type_invariant(&*self);
        }
        let owned = name.to_owned();
        if holds(&self.names, &owned) {
            return ;
        }
        let mut secrets = PathMap::new();
        core::mem::swap(&mut self.secrets, &mut secrets);
        match document {
            Some(json) => {
                let mut prefix: Vec<char> = Vec::new();
                push_str(&mut prefix, "secrets.");
                push_str(&mut prefix, name);
                let prefix = from_chars(&prefix);
                proof {
                    reveal_strlit("secrets.");
                    assert(prefix@ == secret_prefix(name@));
                }
                flatten_into(json, prefix.as_str(), &mut secrets);
            },
            None => {},
        }
        let mut names: Vec<String> = Vec::new();
        core::mem::swap(&mut self.names, &mut names);
        proof {
            assert(texts(names@.push(owned)) == texts(names@).push(owned@));
            assert(texts(Seq::<String>::empty()) == Seq::<Seq<char>>::empty());
        }
        names.push(owned);
        self.names = names;
        self.secrets = secrets;
    }

    /// Takes in the text of the document of the secret `name`, or its
    /// absence. A text that is not JSON counts as no document: the secret is
    /// cached with an empty bundle.
    pub fn store_text(&mut self, name: &str, document: Option<&str>)
        ensures
            final(self)@ == stored(
                old(self)@,
                name@,
                match document {
                    Some(text) => parsed_json(text@),
                    None => None,
                },
            ),
    {
        match document {
            Some(text) => match parse_json(text) {
                Some(json) => self.store(name, Some(&json)),
                None => self.store(name, None),
            },
            None => self.store(name, None),
        }
    }

    /// The names of the secrets fetched so far, in the order of the fetches.
    pub fn names(&self) -> (names: &Vec<String>)
        ensures
            texts(names@) == self@.names,
            self@.names.no_duplicates(),
    {
        proof {
            use_type_invariant(self);
        }
        &self.names
    }

    /// The values of the cached secrets, each under its path.
    pub fn into_secrets(self) -> (secrets: PathMap)
        ensures
            secrets@ == self@.secrets,
    {
        self.secrets
    }
}

} // verus!
