//! Text as sequences of characters: conversion between strings and character
//! vectors, decimal rendering, and the search for a doubled character.

use vstd::prelude::*;

verus! {

/// The characters of `s`, in order.
pub fn to_chars(s: &str) -> (chars: Vec<char>)
    ensures
        chars@ == s@,
{
    let mut chars: Vec<char> = Vec::new();
    for c in it: s.chars()
        invariant
            chars@ == it.seq().take(it.index() as int),
    {
        chars.push(c);
    }
    chars
}

/// `String::from_iter` over the characters of a vector: the string holds
/// exactly those characters, in order.
#[verifier::external_body]
pub(crate) fn from_chars(chars: &Vec<char>) -> (s: String)
    ensures
        s@ == chars@,
{
    String::from_iter(chars.iter())
}

/// Appends the characters `source[from..to]` to `out`.
pub fn push_range(out: &mut Vec<char>, source: &Vec<char>, from: usize, to: usize)
    requires
        from <= to <= source.len(),
    ensures
        final(out)@ == old(out)@ + source@.subrange(from as int, to as int),
{
    let mut i: usize = from;
    while i < to
        invariant
            from <= i <= to <= source.len(),
            out@ == old(out)@ + source@.subrange(from as int, i as int),
        decreases to - i,
    {
        out.push(source[i]);
        i += 1;
    }
}

/// Appends the characters of `s` to `out`.
pub fn push_str(out: &mut Vec<char>, s: &str)
    ensures
        final(out)@ == old(out)@ + s@,
{
    let chars = to_chars(s);
    push_range(out, &chars, 0, chars.len());
    assert(chars@.subrange(0, chars@.len() as int) == chars@);
}

/// The decimal digit for `d`, where `d` is below ten.
pub open spec fn digit(d: nat) -> char {
    if d == 0 {
        '0'
    } else if d == 1 {
        '1'
    } else if d == 2 {
        '2'
    } else if d == 3 {
        '3'
    } else if d == 4 {
        '4'
    } else if d == 5 {
        '5'
    } else if d == 6 {
        '6'
    } else if d == 7 {
        '7'
    } else if d == 8 {
        '8'
    } else {
        '9'
    }
}

/// The decimal numeral of `n`, without leading zeros.
pub open spec fn decimal(n: nat) -> Seq<char>
    decreases n,
{
    if n < 10 {
        seq![digit(n)]
    } else {
        decimal(n / 10).push(digit(n % 10))
    }
}

fn digit_char(d: usize) -> (c: char)
    requires
        d < 10,
    ensures
        c == digit(d as nat),
{
    if d == 0 {
        '0'
    } else if d == 1 {
        '1'
    } else if d == 2 {
        '2'
    } else if d == 3 {
        '3'
    } else if d == 4 {
        '4'
    } else if d == 5 {
        '5'
    } else if d == 6 {
        '6'
    } else if d == 7 {
        '7'
    } else if d == 8 {
        '8'
    } else {
        '9'
    }
}

/// Appends the decimal numeral of `n` to `out`.
pub fn push_decimal(out: &mut Vec<char>, n: usize)
    ensures
        final(out)@ == old(out)@ + decimal(n as nat),
    decreases n,
{
    if n >= 10 {
        push_decimal(out, n / 10);
    }
    out.push(digit_char(n % 10));
}

/// Whether `s` holds the character `c` at `i` and again at `i + 1`.
pub open spec fn pair_at(s: Seq<char>, c: char, i: int) -> bool {
    0 <= i && i + 1 < s.len() && s[i] == c && s[i + 1] == c
}

/// The least index at or after `from` at which `s` holds `c` twice in a row,
/// or the length of `s` if there is none.
pub open spec fn find_pair(s: Seq<char>, c: char, from: int) -> int
    decreases s.len() - from,
{
    if from < 0 || from + 1 >= s.len() {
        s.len() as int
    } else if s[from] == c && s[from + 1] == c {
        from
    } else {
        find_pair(s, c, from + 1)
    }
}

/// `find_pair` gives a doubled `c` that no other one at or after `from`
/// precedes, or the length where there is none.
pub proof fn lemma_find_pair(s: Seq<char>, c: char, from: int)
    requires
        0 <= from,
    ensures
        from <= find_pair(s, c, from) || find_pair(s, c, from) == s.len(),
        find_pair(s, c, from) <= s.len(),
        find_pair(s, c, from) < s.len() ==> pair_at(s, c, find_pair(s, c, from)),
        forall|i: int| from <= i < find_pair(s, c, from) ==> !pair_at(s, c, i),
    decreases s.len() - from,
{
    if from + 1 < s.len() && !(s[from] == c && s[from + 1] == c) {
        lemma_find_pair(s, c, from + 1);
    }
}

/// The index of the first doubled `c` in `chars` at or after `from`, or the
/// length of `chars`.
pub fn find_double(chars: &Vec<char>, c: char, from: usize) -> (index: usize)
    ensures
        index == find_pair(chars@, c, from as int),
        index <= chars.len(),
        index < chars.len() ==> from <= index && index + 1 < chars.len(),
{
    proof {
        lemma_find_pair(chars@, c, from as int);
    }
    let n: usize = chars.len();
    let mut i: usize = from;
    while i < n && n - i >= 2
        invariant
            n == chars.len(),
            from <= i,
            find_pair(chars@, c, from as int) == find_pair(chars@, c, i as int),
        decreases n - i,
    {
        if chars[i] == c && chars[i + 1] == c {
            return i;
        }
        i += 1;
    }
    n
}

/// The texts of a sequence of strings.
pub open spec fn texts(strings: Seq<String>) -> Seq<Seq<char>> {
    strings.map_values(|s: String| s@)
}

/// A vector of the same strings.
pub fn copy_strings(strings: &Vec<String>) -> (copy: Vec<String>)
    ensures
        copy@ == strings@,
{
    let mut copy: Vec<String> = Vec::new();
    let mut i: usize = 0;
    while i < strings.len()
        invariant
            i <= strings.len(),
            copy@ == strings@.take(i as int),
        decreases strings.len() - i,
    {
        copy.push(strings[i].clone());
        assert(copy@ == strings@.take(i + 1));
        i += 1;
    }
    assert(strings@.take(i as int) == strings@);
    copy
}

/// Whether `names` holds `name`.
pub fn holds(names: &Vec<String>, name: &String) -> (found: bool)
    ensures
        found == texts(names@).contains(name@),
{
    let mut i: usize = 0;
    while i < names.len()
        invariant
            i <= names.len(),
            forall|j: int| 0 <= j < i ==> texts(names@)[j] != name@,
        decreases names.len() - i,
    {
        if names[i] == *name {
            assert(texts(names@)[i as int] == name@);
            return true;
        }
        i += 1;
    }
    false
}

/// The names of `names` in the order of their first places, each once.
pub open spec fn distinct(names: Seq<Seq<char>>) -> Seq<Seq<char>>
    decreases names.len(),
{
    if names.len() == 0 {
        Seq::empty()
    } else {
        let front = distinct(names.drop_last());
        if front.contains(names.last()) {
            front
        } else {
            front.push(names.last())
        }
    }
}

/// A further name joins the distinct names unless it is among them.
pub proof fn lemma_distinct_push(names: Seq<Seq<char>>, name: Seq<char>)
    ensures
        distinct(names.push(name)) == if distinct(names).contains(name) {
            distinct(names)
        } else {
            distinct(names).push(name)
        },
{
    assert(names.push(name).drop_last() == names);
}

/// The distinct names hold no name twice, and hold exactly the names given.
pub proof fn lemma_distinct(names: Seq<Seq<char>>)
    ensures
        distinct(names).no_duplicates(),
        forall|name: Seq<char>| distinct(names).contains(name) <==> names.contains(name),
    decreases names.len(),
{
    if names.len() > 0 {
        let front = names.drop_last();
        let last = names.last();
        let d = distinct(front);
        lemma_distinct(front);
        assert forall|name: Seq<char>| distinct(names).contains(name) <==> names.contains(
            name,
        ) by {
            assert(d.contains(name) <==> front.contains(name));
            assert(names.contains(name) <==> (front.contains(name) || name == last)) by {
                if names.contains(name) {
                    let i = choose|i: int| 0 <= i < names.len() && names[i] == name;
                    if i < names.len() - 1 {
                        assert(front[i] == name);
                    }
                }
                if front.contains(name) {
                    let i = choose|i: int| 0 <= i < front.len() && front[i] == name;
                    assert(names[i] == name);
                }
                if name == last {
                    assert(names[names.len() - 1] == name);
                }
            }
            if !d.contains(last) {
                let e = d.push(last);
                assert(e.contains(name) <==> (d.contains(name) || name == last)) by {
                    if d.contains(name) {
                        let i = choose|i: int| 0 <= i < d.len() && d[i] == name;
                        assert(e[i] == name);
                    }
                    if name == last {
                        assert(e[d.len() as int] == name);
                    }
                    if e.contains(name) {
                        let i = choose|i: int| 0 <= i < e.len() && e[i] == name;
                        if i < d.len() {
                            assert(d[i] == name);
                        }
                    }
                }
            }
        }
        if !d.contains(last) {
            let e = d.push(last);
            assert forall|i: int, j: int| 0 <= i < e.len() && 0 <= j < e.len() && i != j implies e[i]
                != e[j] by {
                if i == d.len() {
                    assert(d[j] != last);
                } else if j == d.len() {
                    assert(d[i] != last);
                }
            }
        }
    }
}

} // verus!
