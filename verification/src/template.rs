//! Command templates: what substitution makes of a template, and the laws
//! that it obeys.

use vstd::prelude::*;
use crate::text::{find_pair, lemma_find_pair, pair_at};

verus! {

/// The text of an opening or closing delimiter: the character twice.
pub open spec fn delimiter(c: char) -> Seq<char> {
    seq![c, c]
}

/// What stands in place of a token: its value where `values` has one, else
/// the token between its delimiters, as it stood in the template.
pub open spec fn resolve_token(token: Seq<char>, values: Map<Seq<char>, Seq<char>>) -> Seq<char> {
    if values.contains_key(token) {
        values[token]
    } else {
        delimiter('{') + token + delimiter('}')
    }
}

/// The template from index `from` on, with its tokens resolved.
///
/// A token starts at the first `{{` and ends before the first `}}` after it;
/// the text up to the `{{` is literal. The scan goes on behind that `}}`.
/// Where no `{{` is left, or no `}}` follows it, the rest is literal.
pub open spec fn substitute_from(
    template: Seq<char>,
    values: Map<Seq<char>, Seq<char>>,
    from: int,
) -> Seq<char>
    decreases template.len() - from,
{
    let open = find_pair(template, '{', from);
    let close = find_pair(template, '}', open + 2);
    if 0 <= from <= open && open + 2 <= close && close + 2 <= template.len() {
        template.subrange(from, open) + resolve_token(
            template.subrange(open + 2, close),
            values,
        ) + substitute_from(template, values, close + 2)
    } else {
        template.skip(from)
    }
}

/// The template with each `{{token}}` replaced by the value that `values`
/// has for the token, and left as it is where `values` has none.
pub open spec fn substitute(template: Seq<char>, values: Map<Seq<char>, Seq<char>>) -> Seq<char> {
    substitute_from(template, values, 0)
}

/// The tokens of the template from index `from` on, in order.
pub open spec fn tokens_from(template: Seq<char>, from: int) -> Seq<Seq<char>>
    decreases template.len() - from,
{
    let open = find_pair(template, '{', from);
    let close = find_pair(template, '}', open + 2);
    if 0 <= from <= open && open + 2 <= close && close + 2 <= template.len() {
        seq![template.subrange(open + 2, close)] + tokens_from(template, close + 2)
    } else {
        Seq::empty()
    }
}

/// The tokens of the template, in order.
pub open spec fn tokens(template: Seq<char>) -> Seq<Seq<char>> {
    tokens_from(template, 0)
}

/// Each token stands in the template between a `{{` and a `}}`: the proof
/// gives the indices of the two.
pub proof fn lemma_token_place(template: Seq<char>, from: int, i: int) -> (place: (int, int))
    requires
        0 <= from,
        0 <= i < tokens_from(template, from).len(),
    ensures
        from <= place.0,
        place.0 + 2 <= place.1,
        place.1 + 2 <= template.len(),
        pair_at(template, '{', place.0),
        pair_at(template, '}', place.1),
        tokens_from(template, from)[i] == template.subrange(place.0 + 2, place.1),
    decreases template.len() - from,
{
    let open = find_pair(template, '{', from);
    let close = find_pair(template, '}', open + 2);
    lemma_find_pair(template, '{', from);
    lemma_find_pair(template, '}', open + 2);
    if i == 0 {
        (open, close)
    } else {
        let rest = tokens_from(template, close + 2);
        assert(tokens_from(template, from)[i] == rest[i - 1]);
        lemma_token_place(template, close + 2, i - 1)
    }
}

/// A template none of whose tokens has a value stays as it is, from any
/// index on.
pub proof fn lemma_unresolved_from(
    template: Seq<char>,
    values: Map<Seq<char>, Seq<char>>,
    from: int,
)
    requires
        0 <= from <= template.len(),
        forall|i: int|
            0 <= i < tokens_from(template, from).len() ==> !values.contains_key(
                #[trigger] tokens_from(template, from)[i],
            ),
    ensures
        substitute_from(template, values, from) == template.skip(from),
    decreases template.len() - from,
{
    let open = find_pair(template, '{', from);
    let close = find_pair(template, '}', open + 2);
    if 0 <= from <= open && open + 2 <= close && close + 2 <= template.len() {
        lemma_find_pair(template, '{', from);
        lemma_find_pair(template, '}', open + 2);
        let token = template.subrange(open + 2, close);
        let rest = tokens_from(template, close + 2);
        let all = tokens_from(template, from);
        assert(all == seq![token] + rest);
        assert(all[0] == token);
        assert forall|i: int| 0 <= i < rest.len() implies !values.contains_key(
            #[trigger] rest[i],
        ) by {
            assert(all[i + 1] == rest[i]);
        }
        lemma_unresolved_from(template, values, close + 2);
        assert(template.subrange(from, open) + (delimiter('{') + token + delimiter('}'))
            + template.skip(close + 2) =~= template.skip(from));
    }
}

/// Substitution leaves alone what it cannot resolve: a template none of
/// whose tokens has a value comes out as it went in.
pub proof fn lemma_unresolved_unchanged(template: Seq<char>, values: Map<Seq<char>, Seq<char>>)
    requires
        forall|i: int|
            0 <= i < tokens(template).len() ==> !values.contains_key(#[trigger] tokens(template)[i]),
    ensures
        substitute(template, values) == template,
{
    assert forall|i: int| 0 <= i < tokens_from(template, 0).len() implies !values.contains_key(
        #[trigger] tokens_from(template, 0)[i],
    ) by {
        assert(tokens(template)[i] == tokens_from(template, 0)[i]);
    }
    lemma_unresolved_from(template, values, 0);
    assert(template.skip(0) == template);
}

/// With no values at all, every template comes out as it went in.
pub proof fn lemma_empty_values(template: Seq<char>)
    ensures
        substitute(template, Map::empty()) == template,
{
    lemma_unresolved_unchanged(template, Map::empty());
}


/// Searching behind the first `k` characters is searching what is left.
pub proof fn lemma_find_pair_skip(s: Seq<char>, c: char, k: int, from: int)
    requires
        0 <= k <= s.len(),
        0 <= from,
    ensures
        find_pair(s, c, from + k) == k + find_pair(s.skip(k), c, from),
    decreases s.len() - k - from,
{
    let rest = s.skip(k);
    if from + 1 < rest.len() {
        assert(rest[from] == s[from + k]);
        assert(rest[from + 1] == s[from + k + 1]);
        if !(rest[from] == c && rest[from + 1] == c) {
            lemma_find_pair_skip(s, c, k, from + 1);
        }
    }
}

/// Substituting from index `k` on is substituting what is left behind the
/// first `k` characters.
pub proof fn lemma_substitute_skip(
    template: Seq<char>,
    values: Map<Seq<char>, Seq<char>>,
    k: int,
)
    requires
        0 <= k <= template.len(),
    ensures
        substitute_from(template, values, k) == substitute(template.skip(k), values),
    decreases template.len() - k,
{
    let rest = template.skip(k);
    let open = find_pair(template, '{', k);
    let close = find_pair(template, '}', open + 2);
    lemma_find_pair(template, '{', k);
    lemma_find_pair_skip(template, '{', k, 0);
    let rest_open = find_pair(rest, '{', 0);
    assert(open == k + rest_open);
    lemma_find_pair_skip(template, '}', k, rest_open + 2);
    let rest_close = find_pair(rest, '}', rest_open + 2);
    assert(close == k + rest_close);
    if k <= open && open + 2 <= close && close + 2 <= template.len() {
        lemma_substitute_skip(template, values, close + 2);
        lemma_substitute_skip(rest, values, rest_close + 2);
        assert(rest.skip(rest_close + 2) == template.skip(close + 2));
        assert(rest.subrange(0, rest_open) == template.subrange(k, open));
        assert(rest.subrange(rest_open + 2, rest_close) == template.subrange(open + 2, close));
    } else {
        assert(rest.skip(0) == rest);
    }
}

/// A text that holds no `{{`, not even with a `{` put behind it.
pub open spec fn is_literal(text: Seq<char>) -> bool {
    forall|i: int| !pair_at(text + seq!['{'], '{', i)
}

/// A text that can stand between `{{` and `}}` as one token: it holds no
/// `}}`, not even with a `}` put behind it.
pub open spec fn is_token(text: Seq<char>) -> bool {
    forall|i: int| !pair_at(text + seq!['}'], '}', i)
}

/// A text without braces.
pub open spec fn brace_free(text: Seq<char>) -> bool {
    forall|i: int| 0 <= i < text.len() ==> text[i] != '{' && text[i] != '}'
}

/// A literal in front of a template stays as it is, and does not change
/// what becomes of the template.
pub proof fn lemma_literal_prefix(
    literal: Seq<char>,
    rest: Seq<char>,
    values: Map<Seq<char>, Seq<char>>,
)
    requires
        is_literal(literal),
    ensures
        substitute(literal + rest, values) == literal + substitute(rest, values),
{
    let whole = literal + rest;
    let n = literal.len() as int;
    assert(whole.skip(n) == rest);
    lemma_find_pair(whole, '{', 0);
    lemma_find_pair(rest, '{', 0);
    lemma_find_pair_skip(whole, '{', n, 0);
    let open = find_pair(whole, '{', 0);
    let rest_open = find_pair(rest, '{', 0);
    assert(open >= n) by {
        if open < n {
            assert(pair_at(whole, '{', open));
            let probe = literal + seq!['{'];
            assert(probe[open] == whole[open]);
            assert(probe[open + 1] == '{');
            assert(pair_at(probe, '{', open));
        }
    }
    assert(open == n + rest_open) by {
        // no pair of `whole` lies in [0, n), so the first one from 0 is the
        // first one from n
        lemma_find_pair(whole, '{', n);
        let from_n = find_pair(whole, '{', n);
        if from_n < whole.len() {
            assert(pair_at(whole, '{', from_n));
            if open < from_n {
                assert(!pair_at(whole, '{', open));
            }
            if from_n < open {
                assert(!pair_at(whole, '{', from_n));
            }
        } else {
            if open < whole.len() {
                assert(!pair_at(whole, '{', open));
            }
        }
    }
    lemma_find_pair_skip(whole, '}', n, rest_open + 2);
    let close = find_pair(whole, '}', open + 2);
    let rest_close = find_pair(rest, '}', rest_open + 2);
    assert(close == n + rest_close);
    if open + 2 <= close && close + 2 <= whole.len() {
        lemma_substitute_skip(whole, values, close + 2);
        lemma_substitute_skip(rest, values, rest_close + 2);
        assert(whole.skip(close + 2) == rest.skip(rest_close + 2));
        assert(whole.subrange(0, open) == literal + rest.subrange(0, rest_open));
        assert(whole.subrange(open + 2, close) == rest.subrange(rest_open + 2, rest_close));
        let token = rest.subrange(rest_open + 2, rest_close);
        let tail = substitute(rest.skip(rest_close + 2), values);
        assert((literal + rest.subrange(0, rest_open)) + resolve_token(token, values) + tail
            == literal + (rest.subrange(0, rest_open) + resolve_token(token, values) + tail));
    } else {
        assert(whole.skip(0) == whole);
        assert(rest.skip(0) == rest);
    }
}

/// A token between its delimiters, in front of a template, is resolved, and
/// does not change what becomes of the template.
pub proof fn lemma_token_prefix(
    token: Seq<char>,
    rest: Seq<char>,
    values: Map<Seq<char>, Seq<char>>,
)
    requires
        is_token(token),
    ensures
        substitute(delimiter('{') + token + delimiter('}') + rest, values) == resolve_token(
            token,
            values,
        ) + substitute(rest, values),
{
    let whole = delimiter('{') + token + delimiter('}') + rest;
    let n = token.len() as int;
    assert(whole[0] == '{' && whole[1] == '{');
    assert(find_pair(whole, '{', 0) == 0);
    lemma_find_pair(whole, '}', 2);
    let close = find_pair(whole, '}', 2);
    assert(whole[n + 2] == '}' && whole[n + 3] == '}');
    assert(pair_at(whole, '}', n + 2));
    assert(close == n + 2) by {
        if close < n + 2 {
            assert(pair_at(whole, '}', close));
            let probe = token + seq!['}'];
            assert(probe[close - 2] == whole[close]);
            assert(probe[close - 1] == whole[close + 1]);
            assert(pair_at(probe, '}', close - 2));
        }
    }
    lemma_substitute_skip(whole, values, close + 2);
    assert(whole.skip(n + 4) == rest);
    assert(whole.subrange(2, close) == token);
    assert(whole.subrange(0, 0) + resolve_token(token, values) + substitute(rest, values)
        == resolve_token(token, values) + substitute(rest, values));
}

/// Substitution resolves a token that has a value: a literal, a token with a
/// value and a template make the literal, the value, and what becomes of the
/// template.
pub proof fn lemma_resolution(
    literal: Seq<char>,
    token: Seq<char>,
    rest: Seq<char>,
    values: Map<Seq<char>, Seq<char>>,
)
    requires
        is_literal(literal),
        is_token(token),
    ensures
        substitute(literal + delimiter('{') + token + delimiter('}') + rest, values) == literal
            + resolve_token(token, values) + substitute(rest, values),
{
    let tail = delimiter('{') + token + delimiter('}') + rest;
    lemma_literal_prefix(literal, tail, values);
    lemma_token_prefix(token, rest, values);
    assert(literal + delimiter('{') + token + delimiter('}') + rest == literal + tail);
    assert(literal + (resolve_token(token, values) + substitute(rest, values)) == literal
        + resolve_token(token, values) + substitute(rest, values));
}

/// A literal with a text without braces behind it is a literal.
pub proof fn lemma_literal_value(literal: Seq<char>, value: Seq<char>)
    requires
        is_literal(literal),
        brace_free(value),
    ensures
        is_literal(literal + value),
{
    let joined = literal + value + seq!['{'];
    let probe = literal + seq!['{'];
    assert forall|i: int| !pair_at(joined, '{', i) by {
        if pair_at(joined, '{', i) {
            if i + 1 < literal.len() {
                assert(probe[i] == joined[i] && probe[i + 1] == joined[i + 1]);
                assert(pair_at(probe, '{', i));
            } else if i + 1 == literal.len() {
                if value.len() > 0 {
                    assert(joined[i + 1] == value[0]);
                } else {
                    assert(probe[i] == joined[i] && probe[i + 1] == '{');
                    assert(pair_at(probe, '{', i));
                }
            } else {
                assert(joined[i] == value[i - literal.len()]);
            }
        }
    }
}

/// The text before the first token of a template is a literal, and the
/// token is one.
pub proof fn lemma_first_token(template: Seq<char>)
    requires
        find_pair(template, '{', 0) + 2 <= find_pair(
            template,
            '}',
            find_pair(template, '{', 0) + 2,
        ),
        find_pair(template, '}', find_pair(template, '{', 0) + 2) + 2 <= template.len(),
    ensures
        is_literal(template.subrange(0, find_pair(template, '{', 0))),
        is_token(
            template.subrange(
                find_pair(template, '{', 0) + 2,
                find_pair(template, '}', find_pair(template, '{', 0) + 2),
            ),
        ),
{
    let open = find_pair(template, '{', 0);
    let close = find_pair(template, '}', open + 2);
    lemma_find_pair(template, '{', 0);
    lemma_find_pair(template, '}', open + 2);
    let literal = template.subrange(0, open);
    let token = template.subrange(open + 2, close);
    let before = literal + seq!['{'];
    assert forall|i: int| !pair_at(before, '{', i) by {
        if pair_at(before, '{', i) {
            assert(before[i] == template[i] && before[i + 1] == template[i + 1]);
            assert(pair_at(template, '{', i));
        }
    }
    let inside = token + seq!['}'];
    assert forall|i: int| !pair_at(inside, '}', i) by {
        if pair_at(inside, '}', i) {
            assert(inside[i] == template[open + 2 + i]);
            assert(inside[i + 1] == template[open + 2 + i + 1]);
            assert(pair_at(template, '}', open + 2 + i));
        }
    }
}

/// Two passes do not disturb each other: where the values of the first pass
/// hold no braces, a pass with the first values and then a pass with the
/// second values give what one pass gives with both, the first values going
/// before the second ones. So a token that only the second pass knows comes
/// through the first pass untouched.
pub proof fn lemma_two_passes(
    template: Seq<char>,
    first: Map<Seq<char>, Seq<char>>,
    second: Map<Seq<char>, Seq<char>>,
)
    requires
        forall|token: Seq<char>| first.contains_key(token) ==> brace_free(#[trigger] first[token]),
    ensures
        substitute(substitute(template, first), second) == substitute(
            template,
            second.union_prefer_right(first),
        ),
    decreases template.len(),
{
    let both = second.union_prefer_right(first);
    let open = find_pair(template, '{', 0);
    let close = find_pair(template, '}', open + 2);
    lemma_find_pair(template, '{', 0);
    if open + 2 <= close && close + 2 <= template.len() {
        let literal = template.subrange(0, open);
        let token = template.subrange(open + 2, close);
        let rest = template.skip(close + 2);
        lemma_first_token(template);
        lemma_substitute_skip(template, first, close + 2);
        lemma_substitute_skip(template, both, close + 2);
        lemma_two_passes(rest, first, second);
        let once = substitute(rest, first);
        assert(substitute(template, first) == literal + resolve_token(token, first) + once);
        assert(substitute(template, both) == literal + resolve_token(token, both) + substitute(
            rest,
            both,
        ));
        if first.contains_key(token) {
            let value = first[token];
            lemma_literal_value(literal, value);
            lemma_literal_prefix(literal + value, once, second);
            assert(resolve_token(token, both) == value);
        } else {
            lemma_resolution(literal, token, once, second);
            assert(resolve_token(token, both) == resolve_token(token, second));
            assert(literal + resolve_token(token, first) + once == literal + delimiter('{') + token
                + delimiter('}') + once);
        }
    } else {
        assert(template.skip(0) == template);
    }
}

} // verus!
