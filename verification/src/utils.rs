//! Flattening: a nested JSON value becomes a flat mapping from the paths of
//! its scalar leaves to their texts.

use vstd::prelude::*;
use crate::json::{Json, JsonValue};
use crate::path_map::PathMap;
use crate::text::{decimal, from_chars, push_decimal, push_str};

verus! {

/// The path of the member `key` of an object at `prefix`.
pub open spec fn member_path(prefix: Seq<char>, key: Seq<char>) -> Seq<char> {
    if prefix.len() == 0 {
        key
    } else {
        prefix + seq!['.'] + key
    }
}

/// The path of the item of index `index` of an array at `prefix`.
pub open spec fn item_path(prefix: Seq<char>, index: nat) -> Seq<char> {
    prefix + seq!['['] + decimal(index) + seq![']']
}

/// The text of a scalar: a string's characters without quotes, a number's
/// rendering, `true`, `false` or `null`.
pub open spec fn scalar_text(value: JsonValue) -> Seq<char> {
    match value {
        JsonValue::Text(text) => text,
        JsonValue::Number(text) => text,
        JsonValue::Bool(b) => if b {
            seq!['t', 'r', 'u', 'e']
        } else {
            seq!['f', 'a', 'l', 's', 'e']
        },
        _ => seq!['n', 'u', 'l', 'l'],
    }
}

/// The scalar leaves of `value`, each with its path under `prefix` and its
/// text, in the order of the document.
pub open spec fn leaves(value: JsonValue, prefix: Seq<char>) -> Seq<(Seq<char>, Seq<char>)>
    decreases value, 0nat,
{
    match value {
        JsonValue::Array(items) => item_leaves(items, prefix, items.len()),
        JsonValue::Object(members) => member_leaves(members, prefix, members.len()),
        _ => seq![(prefix, scalar_text(value))],
    }
}

/// The leaves of the first `n` items of an array at `prefix`.
pub open spec fn item_leaves(items: Seq<JsonValue>, prefix: Seq<char>, n: nat) -> Seq<
    (Seq<char>, Seq<char>),
>
    decreases items, n,
{
    if n == 0 || n > items.len() {
        Seq::empty()
    } else {
        item_leaves(items, prefix, (n - 1) as nat) + leaves(
            items[n - 1],
            item_path(prefix, (n - 1) as nat),
        )
    }
}

/// The leaves of the first `n` members of an object at `prefix`.
pub open spec fn member_leaves(
    members: Seq<(Seq<char>, JsonValue)>,
    prefix: Seq<char>,
    n: nat,
) -> Seq<(Seq<char>, Seq<char>)>
    decreases members, n,
{
    if n == 0 || n > members.len() {
        Seq::empty()
    } else {
        member_leaves(members, prefix, (n - 1) as nat) + leaves(
            members[n - 1].1,
            member_path(prefix, members[n - 1].0),
        )
    }
}

/// `base` with each leaf put under its path, from the first leaf to the
/// last: of two leaves with one path the later one stays.
pub open spec fn overlay(
    base: Map<Seq<char>, Seq<char>>,
    leaves: Seq<(Seq<char>, Seq<char>)>,
) -> Map<Seq<char>, Seq<char>>
    decreases leaves.len(),
{
    if leaves.len() == 0 {
        base
    } else {
        overlay(base, leaves.drop_last()).insert(leaves.last().0, leaves.last().1)
    }
}

/// The flat mapping of `value` under `prefix`: the text of each scalar leaf
/// under the leaf's path.
pub open spec fn flatten(value: JsonValue, prefix: Seq<char>) -> Map<Seq<char>, Seq<char>> {
    overlay(Map::empty(), leaves(value, prefix))
}

/// Putting two runs of leaves in turn is putting their concatenation.
pub proof fn lemma_overlay_concat(
    base: Map<Seq<char>, Seq<char>>,
    first: Seq<(Seq<char>, Seq<char>)>,
    second: Seq<(Seq<char>, Seq<char>)>,
)
    ensures
        overlay(overlay(base, first), second) == overlay(base, first + second),
    decreases second.len(),
{
    if second.len() == 0 {
        assert(first + second == first);
    } else {
        lemma_overlay_concat(base, first, second.drop_last());
        assert((first + second).drop_last() == first + second.drop_last());
    }
}

/// The paths of a run of leaves, in order.
pub open spec fn leaf_paths(leaves: Seq<(Seq<char>, Seq<char>)>) -> Seq<Seq<char>> {
    leaves.map_values(|leaf: (Seq<char>, Seq<char>)| leaf.0)
}

/// The number of scalar leaves of `value`.
pub open spec fn leaf_count(value: JsonValue) -> nat
    decreases value, 0nat,
{
    match value {
        JsonValue::Array(items) => item_count(items, items.len()),
        JsonValue::Object(members) => member_count(members, members.len()),
        _ => 1,
    }
}

/// The number of scalar leaves of the first `n` items of an array.
pub open spec fn item_count(items: Seq<JsonValue>, n: nat) -> nat
    decreases items, n,
{
    if n == 0 || n > items.len() {
        0
    } else {
        item_count(items, (n - 1) as nat) + leaf_count(items[n - 1])
    }
}

/// The number of scalar leaves of the first `n` members of an object.
pub open spec fn member_count(members: Seq<(Seq<char>, JsonValue)>, n: nat) -> nat
    decreases members, n,
{
    if n == 0 || n > members.len() {
        0
    } else {
        member_count(members, (n - 1) as nat) + leaf_count(members[n - 1].1)
    }
}

/// `leaves` lists each scalar leaf once, whatever the prefix.
pub proof fn lemma_leaves_len(value: JsonValue, prefix: Seq<char>)
    ensures
        leaves(value, prefix).len() == leaf_count(value),
    decreases value, 0nat,
{
    match value {
        JsonValue::Array(items) => lemma_item_leaves_len(items, prefix, items.len()),
        JsonValue::Object(members) => lemma_member_leaves_len(members, prefix, members.len()),
        _ => {},
    }
}

proof fn lemma_item_leaves_len(items: Seq<JsonValue>, prefix: Seq<char>, n: nat)
    ensures
        item_leaves(items, prefix, n).len() == item_count(items, n),
    decreases items, n,
{
    if !(n == 0 || n > items.len()) {
        lemma_item_leaves_len(items, prefix, (n - 1) as nat);
        lemma_leaves_len(items[n - 1], item_path(prefix, (n - 1) as nat));
    }
}

proof fn lemma_member_leaves_len(members: Seq<(Seq<char>, JsonValue)>, prefix: Seq<char>, n: nat)
    ensures
        member_leaves(members, prefix, n).len() == member_count(members, n),
    decreases members, n,
{
    if !(n == 0 || n > members.len()) {
        lemma_member_leaves_len(members, prefix, (n - 1) as nat);
        lemma_leaves_len(members[n - 1].1, member_path(prefix, members[n - 1].0));
    }
}

/// The keys of an overlay are the keys of its base and the paths of its
/// leaves.
pub proof fn lemma_overlay_keys(
    base: Map<Seq<char>, Seq<char>>,
    leaves: Seq<(Seq<char>, Seq<char>)>,
    key: Seq<char>,
)
    ensures
        overlay(base, leaves).contains_key(key) <==> base.contains_key(key) || leaf_paths(
            leaves,
        ).contains(key),
        base.dom().finite() ==> overlay(base, leaves).dom().finite(),
    decreases leaves.len(),
{
    let paths = leaf_paths(leaves);
    if leaves.len() > 0 {
        let front = leaves.drop_last();
        lemma_overlay_keys(base, front, key);
        if leaf_paths(front).contains(key) {
            let i = choose|i: int| 0 <= i < leaf_paths(front).len() && leaf_paths(front)[i] == key;
            assert(paths[i] == key);
        }
        if leaves.last().0 == key {
            assert(paths[leaves.len() - 1] == key);
        }
        if paths.contains(key) {
            let i = choose|i: int| 0 <= i < paths.len() && paths[i] == key;
            if i < leaves.len() - 1 {
                assert(leaf_paths(front)[i] == key);
            }
        }
    }
}

/// Where no two leaves share a path, an overlay on the empty map holds one
/// entry for each leaf: the leaf's text under the leaf's path.
pub proof fn lemma_overlay_distinct(leaves: Seq<(Seq<char>, Seq<char>)>)
    requires
        leaf_paths(leaves).no_duplicates(),
    ensures
        overlay(Map::empty(), leaves).dom().finite(),
        overlay(Map::empty(), leaves).len() == leaves.len(),
        forall|i: int|
            0 <= i < leaves.len() ==> overlay(Map::empty(), leaves).contains_key(
                #[trigger] leaves[i].0,
            ) && overlay(Map::empty(), leaves)[leaves[i].0] == leaves[i].1,
    decreases leaves.len(),
{
    let empty = Map::<Seq<char>, Seq<char>>::empty();
    let paths = leaf_paths(leaves);
    if leaves.len() > 0 {
        let front = leaves.drop_last();
        let last = leaves.last();
        assert(leaf_paths(front).no_duplicates()) by {
            assert forall|i: int, j: int|
                0 <= i < front.len() && 0 <= j < front.len() && i != j implies leaf_paths(front)[i]
                != leaf_paths(front)[j] by {
                assert(paths[i] != paths[j]);
            }
        }
        lemma_overlay_distinct(front);
        lemma_overlay_keys(empty, front, last.0);
        if leaf_paths(front).contains(last.0) {
            let i = choose|i: int| 0 <= i < front.len() && leaf_paths(front)[i] == last.0;
            assert(paths[i] == paths[leaves.len() - 1]);
        }
        assert forall|i: int| 0 <= i < leaves.len() implies overlay(empty, leaves).contains_key(
            #[trigger] leaves[i].0,
        ) && overlay(empty, leaves)[leaves[i].0] == leaves[i].1 by {
            if i < leaves.len() - 1 {
                assert(front[i] == leaves[i]);
                assert(paths[i] != paths[leaves.len() - 1]);
            }
        }
    }
}

/// The flat mapping has exactly one entry per scalar leaf: its keys are the
/// paths of the leaves, and where no two leaves share a path, it has as many
/// entries as the value has leaves, each leaf's text under the leaf's path.
pub proof fn lemma_one_entry_per_leaf(value: JsonValue, prefix: Seq<char>)
    ensures
        flatten(value, prefix).dom().finite(),
        forall|key: Seq<char>| #[trigger]
            flatten(value, prefix).contains_key(key) <==> leaf_paths(leaves(value, prefix)).contains(
                key,
            ),
        leaf_paths(leaves(value, prefix)).no_duplicates() ==> {
            &&& flatten(value, prefix).len() == leaf_count(value)
            &&& forall|i: int|
                0 <= i < leaves(value, prefix).len() ==> flatten(value, prefix)[#[trigger] leaves(
                    value,
                    prefix,
                )[i].0] == leaves(value, prefix)[i].1
        },
{
    let all = leaves(value, prefix);
    let empty = Map::<Seq<char>, Seq<char>>::empty();
    assert forall|key: Seq<char>| #[trigger]
        flatten(value, prefix).contains_key(key) <==> leaf_paths(all).contains(key) by {
        lemma_overlay_keys(empty, all, key);
    }
    lemma_overlay_keys(empty, all, Seq::empty());
    lemma_leaves_len(value, prefix);
    if leaf_paths(all).no_duplicates() {
        lemma_overlay_distinct(all);
    }
}

fn join_member(prefix: &str, key: &str) -> (path: String)
    ensures
        path@ == member_path(prefix@, key@),
{
    if prefix.is_empty() {
        key.to_owned()
    } else {
        let mut chars: Vec<char> = Vec::new();
        push_str(&mut chars, prefix);
        chars.push('.');
        push_str(&mut chars, key);
        from_chars(&chars)
    }
}

fn join_item(prefix: &str, index: usize) -> (path: String)
    ensures
        path@ == item_path(prefix@, index as nat),
{
    let mut chars: Vec<char> = Vec::new();
    push_str(&mut chars, prefix);
    chars.push('[');
    push_decimal(&mut chars, index);
    chars.push(']');
    from_chars(&chars)
}

fn text_of(json: &Json) -> (text: String)
    requires
        !(json is Array),
        !(json is Object),
    ensures
        text@ == scalar_text(json@),
{
    match json {
        Json::Text(text) => text.clone(),
        Json::Number(text) => text.clone(),
        Json::Bool(b) => {
            let mut chars: Vec<char> = Vec::new();
            if *b {
                chars.push('t');
                chars.push('r');
                chars.push('u');
                chars.push('e');
            } else {
                chars.push('f');
                chars.push('a');
                chars.push('l');
                chars.push('s');
                chars.push('e');
            }
            from_chars(&chars)
        },
        _ => {
            let mut chars: Vec<char> = Vec::new();
            chars.push('n');
            chars.push('u');
            chars.push('l');
            chars.push('l');
            from_chars(&chars)
        },
    }
}

/// Puts the leaves of `json` under `prefix` into `flattened`.
pub fn flatten_into(json: &Json, prefix: &str, flattened: &mut PathMap)
    ensures
        final(flattened)@ == overlay(old(flattened)@, leaves(json@, prefix@)),
    decreases json,
{
    match json {
        Json::Object(members) => {
            let ghost model = json@->Object_0;
            let mut i: usize = 0;
            while i < members.len()
                invariant
                    i <= members.len(),
                    json == Json::Object(*members),
                    json@ == JsonValue::Object(model),
                    model.len() == members@.len(),
                    flattened@ == overlay(
                        old(flattened)@,
                        member_leaves(model, prefix@, i as nat),
                    ),
                decreases members.len() - i,
            {
                let path = join_member(prefix, members[i].0.as_str());
                flatten_into(&members[i].1, path.as_str(), flattened);
                proof {
                    assert(model[i as int] == (members@[i as int].0@, members@[i as int].1@));
                    lemma_overlay_concat(
                        old(flattened)@,
                        member_leaves(model, prefix@, i as nat),
                        leaves(model[i as int].1, path@),
                    );
                }
                i += 1;
            }
            assert(leaves(json@, prefix@) == member_leaves(model, prefix@, model.len()));
        },
        Json::Array(items) => {
            let ghost model = json@->Array_0;
            let mut i: usize = 0;
            while i < items.len()
                invariant
                    i <= items.len(),
                    json == Json::Array(*items),
                    json@ == JsonValue::Array(model),
                    model.len() == items@.len(),
                    flattened@ == overlay(old(flattened)@, item_leaves(model, prefix@, i as nat)),
                decreases items.len() - i,
            {
                let path = join_item(prefix, i);
                flatten_into(&items[i], path.as_str(), flattened);
                proof {
                    assert(model[i as int] == items@[i as int]@);
                    lemma_overlay_concat(
                        old(flattened)@,
                        item_leaves(model, prefix@, i as nat),
                        leaves(model[i as int], path@),
                    );
                }
                i += 1;
            }
            assert(leaves(json@, prefix@) == item_leaves(model, prefix@, model.len()));
        },
        _ => {
            let text = text_of(json);
            proof {
                let leaf = seq![(prefix@, text@)];
                assert(leaf.drop_last() == Seq::<(Seq<char>, Seq<char>)>::empty());
                assert(leaves(json@, prefix@) == leaf);
                assert(overlay(flattened@, leaf.drop_last()) == flattened@);
            }
            flattened.insert(prefix.to_owned(), text);
        },
    }
}

/// Puts the leaves of `json` into `flattened`, each under its path: the
/// members of an object under `prefix`, a dot and their key, or under their
/// key alone where `prefix` is empty; the items of an array under `prefix`
/// and their index in square brackets; a scalar under `prefix` itself.
/// Returns a copy of the mapping as it then is.
pub fn flatten_json(json: &Json, prefix: &str, flattened: &mut PathMap) -> (mapping: PathMap)
    ensures
        final(flattened)@ == overlay(old(flattened)@, leaves(json@, prefix@)),
        mapping@ == final(flattened)@,
{
    flatten_into(json, prefix, flattened);
    flattened.copy()
}

} // verus!
