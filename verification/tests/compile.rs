use cylon::{Cylon, Edge, Rule, State, Transition};

fn any(target: usize) -> Transition {
    Transition(Edge::MatchAny, target)
}

fn eow(target: usize) -> Transition {
    Transition(Edge::MatchEow, target)
}

fn on(c: char, target: usize) -> Transition {
    Transition(Edge::MatchChar(c), target)
}

#[test]
fn test_compile() {
    let rules = vec![
        Rule::Disallow("/"),
        Rule::Allow("/a"),
        Rule::Allow("/abc"),
        Rule::Allow("/b"),
    ];

    let expect_transitions = vec![
        vec![any(0)],
        vec![any(1)],
        vec![any(0), on('/', 3)],             // ""
        vec![any(1), on('a', 4), on('b', 5)], // "/"
        vec![any(0), on('b', 6)],             // "/a"
        vec![any(0)],                         // "/b"
        vec![any(0), on('c', 7)],             // "/ab"
        vec![any(0)],                         // "/abc"
    ];

    let expect_states = vec![
        State::Allow,
        State::Disallow,
        State::Allow,
        State::Disallow,
        State::Allow,
        State::Allow,
        State::Allow,
        State::Allow,
    ];

    let actual = Cylon::compile(rules);
    assert_eq!(*actual.transitions(), expect_transitions);
    assert_eq!(*actual.states(), expect_states);
}

#[test]
fn test_compile_with_wildcard() {
    let rules = vec![Rule::Disallow("/"), Rule::Allow("/a"), Rule::Allow("/*.b")];

    let expect_transitions = vec![
        vec![any(0)],
        vec![any(1)],
        vec![any(0), on('/', 3)],                     // ""
        vec![any(1), any(4), on('a', 5), on('.', 6)], // "/"
        vec![any(4), on('.', 6)],                     // "/*"
        vec![any(0)],                                 // "/a"
        vec![any(1), on('b', 7)],                     // "/*."
        vec![any(0)],                                 // "/*.b"
    ];

    let expect_states = vec![
        State::Allow,
        State::Disallow,
        State::Allow,
        State::Disallow,
        State::Disallow,
        State::Allow,
        State::Disallow,
        State::Allow,
    ];

    let actual = Cylon::compile(rules);
    assert_eq!(*actual.transitions(), expect_transitions);
    assert_eq!(*actual.states(), expect_states);
}

#[test]
fn test_compile_tricky_wildcard() {
    let rules = vec![Rule::Disallow("/"), Rule::Allow("/*.")];

    let expect_transitions = vec![
        vec![any(0)],
        vec![any(1)],
        vec![any(0), on('/', 3)],         // ""
        vec![any(1), any(4), on('.', 5)], // "/"
        vec![any(4), on('.', 5)],         // "/*"
        vec![any(0)],                     // "/*."
    ];

    let expect_states = vec![
        State::Allow,
        State::Disallow,
        State::Allow,
        State::Disallow,
        State::Disallow,
        State::Allow,
    ];

    let actual = Cylon::compile(rules);
    assert_eq!(*actual.transitions(), expect_transitions);
    assert_eq!(*actual.states(), expect_states);
}

#[test]
fn test_compile_with_eow() {
    let rules = vec![
        Rule::Allow("/"),
        Rule::Disallow("/a$"),
        // This last rule makes little sense. It compiles, but nothing is
        // promised of how it matches: a literal `$` belongs url-encoded.
        Rule::Disallow("/x$y"),
    ];

    let expect_transitions = vec![
        vec![any(0)],
        vec![any(1)],
        vec![any(0), on('/', 3)],             // ""
        vec![any(0), on('a', 4), on('x', 5)], // "/"
        vec![any(0), eow(6)],                 // "/a"
        vec![any(0), eow(7)],                 // "/x"
        vec![any(0)],                         // "/a$"
        vec![any(0), on('y', 8)],             // "/x$"
        vec![any(1)],                         // "/x$y"
    ];

    let expect_states = vec![
        State::Allow,
        State::Disallow,
        State::Allow,
        State::Allow,
        State::Allow,
        State::Allow,
        State::Disallow,
        State::Allow,
        State::Disallow,
    ];

    let actual = Cylon::compile(rules);
    assert_eq!(*actual.transitions(), expect_transitions);
    assert_eq!(*actual.states(), expect_states);
}
