use cylon::{Cylon, Edge, Rule, State, Transition};

fn paths() -> Vec<&'static str> {
    vec![
        "", "/", "/a", "/ab", "/abc", "/abc/def", "/b", "/b/c", "/fish", "/fish/", "/fish.html",
        "/Fish.asp", "/catfish", "/?id=fish", "/filename.php", "/filename.php5", "/*", "/$", "*",
        "$", "/a$", "/a*", "/\u{e9}t\u{e9}", "/\u{65e5}\u{672c}",
    ]
}

fn rule_sets() -> Vec<Vec<Rule<'static>>> {
    vec![
        vec![],
        vec![Rule::Disallow("/")],
        vec![Rule::Disallow("/"), Rule::Allow("/fish")],
        vec![Rule::Disallow("/"), Rule::Allow("/fish/")],
        vec![Rule::Disallow("/"), Rule::Allow("/*.php$")],
        vec![Rule::Disallow("/"), Rule::Allow("/a"), Rule::Allow("/abc"), Rule::Allow("/b")],
        vec![Rule::Allow("/"), Rule::Disallow("/a$"), Rule::Disallow("/x$y")],
        vec![Rule::Allow("*"), Rule::Disallow("$"), Rule::Disallow("**")],
        vec![Rule::Disallow("/\u{e9}t\u{e9}"), Rule::Allow("/\u{65e5}\u{672c}")],
    ]
}

#[test]
fn allow_gives_the_same_answer_every_time() {
    for rules in rule_sets() {
        let machine = Cylon::compile(rules);
        for path in paths() {
            let first = machine.allow(path);
            assert_eq!(first, machine.allow(path));
            assert_eq!(first, machine.allow(path));
        }
    }
}

#[test]
fn fish_prefix_rule() {
    let machine = Cylon::compile(vec![Rule::Disallow("/"), Rule::Allow("/fish")]);
    assert_eq!(true, machine.allow("/fish"));
    assert_eq!(true, machine.allow("/fish.html"));
    assert_eq!(true, machine.allow("/fish/salmon.html"));
    assert_eq!(false, machine.allow("/catfish"));
    assert_eq!(false, machine.allow("/Fish.asp"));
    assert_eq!(false, machine.allow("/?id=fish"));
}

#[test]
fn fish_directory_rule() {
    let machine = Cylon::compile(vec![Rule::Disallow("/"), Rule::Allow("/fish/")]);
    assert_eq!(false, machine.allow("/fish"));
    assert_eq!(true, machine.allow("/fish/"));
}

#[test]
fn anchored_php_rule() {
    let machine = Cylon::compile(vec![Rule::Disallow("/"), Rule::Allow("/*.php$")]);
    assert_eq!(true, machine.allow("/filename.php"));
    assert_eq!(false, machine.allow("/filename.php?x"));
    assert_eq!(false, machine.allow("/filename.php5"));
}

#[test]
fn nested_prefix_rules() {
    let machine = Cylon::compile(vec![
        Rule::Disallow("/"),
        Rule::Allow("/a"),
        Rule::Allow("/abc"),
        Rule::Allow("/b"),
    ]);
    assert_eq!(false, machine.allow("/"));
    assert_eq!(true, machine.allow("/a"));
    assert_eq!(true, machine.allow("/abc"));
    assert_eq!(true, machine.allow("/abc/def"));
    assert_eq!(true, machine.allow("/b/c"));
}

#[test]
fn restored_machine_decides_like_the_compiled_one() {
    for rules in rule_sets() {
        let machine = Cylon::compile(rules);
        let expected: Vec<bool> = paths().iter().map(|path| machine.allow(path)).collect();
        let states = machine.states().clone();
        let transitions = machine.transitions().clone();
        let (kept_states, kept_transitions) = machine.into_parts();
        assert_eq!(states, kept_states);
        assert_eq!(transitions, kept_transitions);
        let restored = Cylon::from_parts(kept_states, kept_transitions).unwrap();
        assert_eq!(*restored.states(), states);
        assert_eq!(*restored.transitions(), transitions);
        let actual: Vec<bool> = paths().iter().map(|path| restored.allow(path)).collect();
        assert_eq!(expected, actual);
    }
}

#[test]
fn longer_rule_wins_whatever_the_order() {
    let orders = vec![
        vec![Rule::Disallow("/shop"), Rule::Allow("/shop/open"), Rule::Disallow("/shop/open/late")],
        vec![Rule::Allow("/shop/open"), Rule::Disallow("/shop/open/late"), Rule::Disallow("/shop")],
        vec![Rule::Disallow("/shop/open/late"), Rule::Disallow("/shop"), Rule::Allow("/shop/open")],
    ];
    for rules in orders {
        let machine = Cylon::compile(rules);
        // No rule matches: allowed.
        assert_eq!(true, machine.allow("/"));
        assert_eq!(true, machine.allow("/sho"));
        // Only the shortest rule matches.
        assert_eq!(false, machine.allow("/shop"));
        assert_eq!(false, machine.allow("/shop/"));
        assert_eq!(false, machine.allow("/shop/ope"));
        assert_eq!(false, machine.allow("/shopping"));
        // The middle rule is the longest that matches.
        assert_eq!(true, machine.allow("/shop/open"));
        assert_eq!(true, machine.allow("/shop/open/"));
        assert_eq!(true, machine.allow("/shop/open/lat"));
        assert_eq!(true, machine.allow("/shop/opening"));
        // The longest rule matches.
        assert_eq!(false, machine.allow("/shop/open/late"));
        assert_eq!(false, machine.allow("/shop/open/later"));
    }
}

#[test]
fn reordered_rules_compile_to_the_same_tables() {
    let first = Cylon::compile(vec![
        Rule::Disallow("/"),
        Rule::Allow("/a"),
        Rule::Allow("/*.b"),
        Rule::Disallow("/a$"),
    ]);
    let second = Cylon::compile(vec![
        Rule::Disallow("/a$"),
        Rule::Allow("/*.b"),
        Rule::Disallow("/"),
        Rule::Allow("/a"),
    ]);
    assert_eq!(*first.states(), *second.states());
    assert_eq!(*first.transitions(), *second.transitions());
}

#[test]
fn first_of_two_rules_with_one_pattern_wins() {
    let machine = Cylon::compile(vec![Rule::Allow("/x"), Rule::Disallow("/x")]);
    assert_eq!(true, machine.allow("/x"));
    assert_eq!(true, machine.allow("/xy"));
    let machine = Cylon::compile(vec![Rule::Disallow("/x"), Rule::Allow("/x")]);
    assert_eq!(false, machine.allow("/x"));
    assert_eq!(false, machine.allow("/xy"));
}

#[test]
fn anchored_rule_matches_its_path_only() {
    let machine = Cylon::compile(vec![Rule::Allow("/doc"), Rule::Disallow("/doc$")]);
    assert_eq!(false, machine.allow("/doc"));
    assert_eq!(true, machine.allow("/docs"));
    assert_eq!(true, machine.allow("/doc/"));
    // The anchor in a path is an ordinary character, which no edge reads.
    assert_eq!(true, machine.allow("/doc$"));
    assert_eq!(true, machine.allow("/do"));
}

#[test]
fn every_state_has_a_leading_match_any_edge() {
    for rules in rule_sets() {
        let machine = Cylon::compile(rules);
        let states = machine.states();
        let transitions = machine.transitions();
        assert_eq!(states.len(), transitions.len());
        assert!(states.len() >= 3);
        for row in transitions {
            assert!(matches!(row[0], Transition(Edge::MatchAny, _)));
            for Transition(_, target) in row {
                assert!(*target < states.len());
            }
        }
        for state in states {
            assert_ne!(*state, State::Intermediate);
        }
        assert_eq!(states[0], State::Allow);
        assert_eq!(states[1], State::Disallow);
        assert_eq!(transitions[0], vec![Transition(Edge::MatchAny, 0)]);
        assert_eq!(transitions[1], vec![Transition(Edge::MatchAny, 1)]);
    }
}

#[test]
fn no_rules_allow_everything() {
    let machine = Cylon::compile(vec![]);
    assert_eq!(*machine.states(), vec![State::Allow, State::Disallow, State::Allow]);
    assert_eq!(
        *machine.transitions(),
        vec![
            vec![Transition(Edge::MatchAny, 0)],
            vec![Transition(Edge::MatchAny, 1)],
            vec![Transition(Edge::MatchAny, 0)],
        ]
    );
    for path in paths() {
        assert_eq!(true, machine.allow(path));
    }
}

#[test]
fn empty_path_is_decided() {
    let machine = Cylon::compile(vec![Rule::Disallow("/")]);
    assert_eq!(true, machine.allow(""));
    let machine = Cylon::compile(vec![Rule::Disallow("$")]);
    assert_eq!(false, machine.allow(""));
    assert_eq!(true, machine.allow("/"));
}

#[test]
fn empty_pattern_has_no_effect() {
    let with = Cylon::compile(vec![Rule::Disallow(""), Rule::Disallow("/private")]);
    let without = Cylon::compile(vec![Rule::Disallow("/private")]);
    assert_eq!(*with.states(), *without.states());
    assert_eq!(*with.transitions(), *without.transitions());
    assert_eq!(true, with.allow(""));
    assert_eq!(true, with.allow("/public"));
    assert_eq!(false, with.allow("/private"));
}

#[test]
fn patterns_are_read_by_characters() {
    let machine = Cylon::compile(vec![
        Rule::Disallow("/\u{e9}t\u{e9}"),
        Rule::Allow("/\u{e9}t\u{e9}/ouvert"),
        Rule::Disallow("/\u{65e5}\u{672c}$"),
    ]);
    assert_eq!(true, machine.allow("/"));
    assert_eq!(true, machine.allow("/\u{e9}"));
    assert_eq!(false, machine.allow("/\u{e9}t\u{e9}"));
    assert_eq!(false, machine.allow("/\u{e9}t\u{e9}s"));
    assert_eq!(true, machine.allow("/\u{e9}t\u{e9}/ouvert"));
    assert_eq!(true, machine.allow("/ete"));
    assert_eq!(false, machine.allow("/\u{65e5}\u{672c}"));
    assert_eq!(true, machine.allow("/\u{65e5}\u{672c}\u{8a9e}"));
    // One state per character of a pattern, not one per byte.
    assert_eq!(17, machine.states().len());
}

#[test]
fn states_are_numbered_by_length_and_then_by_character() {
    let machine = Cylon::compile(vec![Rule::Allow("ba"), Rule::Disallow("ab"), Rule::Allow("b")]);
    // 2: "", 3: "a", 4: "b", 5: "ab", 6: "ba"
    assert_eq!(
        *machine.transitions(),
        vec![
            vec![Transition(Edge::MatchAny, 0)],
            vec![Transition(Edge::MatchAny, 1)],
            vec![
                Transition(Edge::MatchAny, 0),
                Transition(Edge::MatchChar('a'), 3),
                Transition(Edge::MatchChar('b'), 4),
            ],
            vec![Transition(Edge::MatchAny, 0), Transition(Edge::MatchChar('b'), 5)],
            vec![Transition(Edge::MatchAny, 0), Transition(Edge::MatchChar('a'), 6)],
            vec![Transition(Edge::MatchAny, 1)],
            vec![Transition(Edge::MatchAny, 0)],
        ]
    );
    assert_eq!(
        *machine.states(),
        vec![
            State::Allow,
            State::Disallow,
            State::Allow,
            State::Allow,
            State::Allow,
            State::Disallow,
            State::Allow,
        ]
    );
}

#[test]
fn wildcard_may_stand_for_nothing() {
    let machine = Cylon::compile(vec![Rule::Disallow("/"), Rule::Allow("/fish*.php")]);
    assert_eq!(true, machine.allow("/fish.php"));
    assert_eq!(true, machine.allow("/fishes.php"));
    assert_eq!(false, machine.allow("/fish"));
    assert_eq!(false, machine.allow("/fish.ph"));
}

#[test]
fn wildcard_state_loops_on_itself() {
    let machine = Cylon::compile(vec![Rule::Allow("/"), Rule::Disallow("/*")]);
    // 2: "", 3: "/", 4: "/*"
    assert_eq!(
        machine.transitions()[4],
        vec![Transition(Edge::MatchAny, 4)]
    );
    assert_eq!(
        machine.transitions()[3],
        vec![Transition(Edge::MatchAny, 0), Transition(Edge::MatchAny, 4)]
    );
    assert_eq!(false, machine.allow("/"));
    assert_eq!(false, machine.allow("/anything/at/all"));
    assert_eq!(true, machine.allow(""));
}

#[test]
fn a_path_along_a_wildcard_is_not_matched_in_full() {
    // The second rule matches "/abbc" with "b" for the wildcard, but the
    // automaton reads the first "b" as the one after the wildcard.
    let machine = Cylon::compile(vec![Rule::Disallow("/a"), Rule::Allow("/a*bc")]);
    assert_eq!(true, machine.allow("/abc"));
    assert_eq!(true, machine.allow("/axbc"));
    assert_eq!(false, machine.allow("/abbc"));
}

#[test]
fn end_of_path_prefers_the_anchor() {
    let machine = Cylon::compile(vec![
        Rule::Allow("/"),
        Rule::Disallow("/a$"),
        Rule::Allow("/a*"),
    ]);
    // "/a" has an anchored child and a wildcard child; at the end of the
    // path the anchored one is taken.
    assert_eq!(false, machine.allow("/a"));
    assert_eq!(true, machine.allow("/ab"));
}

#[test]
fn anchor_inside_a_pattern_is_safe() {
    let machine = Cylon::compile(vec![
        Rule::Allow("/"),
        Rule::Disallow("/foo$bar"),
        Rule::Disallow("$/"),
    ]);
    for path in paths() {
        machine.allow(path);
    }
    assert_eq!(true, machine.allow("/foo"));
    assert_eq!(true, machine.allow("/foo$bar"));
}

#[test]
fn malformed_tables_are_refused() {
    let any = |target| Transition(Edge::MatchAny, target);
    let states = vec![State::Allow, State::Disallow, State::Allow];
    let transitions = vec![vec![any(0)], vec![any(1)], vec![any(0)]];
    assert!(Cylon::from_parts(states.clone(), transitions.clone()).is_some());

    // No start state.
    assert!(Cylon::from_parts(vec![], vec![]).is_none());
    assert!(Cylon::from_parts(
        vec![State::Allow, State::Disallow],
        vec![vec![any(0)], vec![any(1)]]
    )
    .is_none());
    // As many classifications as edge lists.
    assert!(Cylon::from_parts(
        vec![State::Allow, State::Disallow, State::Allow, State::Allow],
        transitions.clone()
    )
    .is_none());
    // An edge that leaves the table.
    assert!(Cylon::from_parts(
        states.clone(),
        vec![vec![any(0)], vec![any(1)], vec![any(0), Transition(Edge::MatchChar('a'), 3)]]
    )
    .is_none());
    // A state without edges.
    assert!(Cylon::from_parts(states.clone(), vec![vec![any(0)], vec![any(1)], vec![]]).is_none());
    // A state whose first edge does not take every character.
    assert!(Cylon::from_parts(
        states.clone(),
        vec![vec![any(0)], vec![any(1)], vec![Transition(Edge::MatchChar('a'), 0), any(0)]]
    )
    .is_none());
    assert!(Cylon::from_parts(
        states.clone(),
        vec![vec![any(0)], vec![any(1)], vec![Transition(Edge::MatchEow, 0)]]
    )
    .is_none());
    // An unresolved state.
    assert!(Cylon::from_parts(
        vec![State::Allow, State::Disallow, State::Intermediate],
        transitions.clone()
    )
    .is_none());
    // Sinks out of place.
    assert!(Cylon::from_parts(
        vec![State::Disallow, State::Allow, State::Allow],
        transitions.clone()
    )
    .is_none());
    assert!(Cylon::from_parts(
        states.clone(),
        vec![vec![any(1)], vec![any(1)], vec![any(0)]]
    )
    .is_none());
    assert!(Cylon::from_parts(
        states.clone(),
        vec![vec![any(0)], vec![any(1), any(1)], vec![any(0)]]
    )
    .is_none());
    assert!(Cylon::from_parts(
        states,
        vec![vec![any(0)], vec![Transition(Edge::MatchEow, 1)], vec![any(0)]]
    )
    .is_none());
}

#[test]
fn hand_made_table_is_run_as_written() {
    let any = |target| Transition(Edge::MatchAny, target);
    // From the start, "x" leads to a state from which everything but "y"
    // is disallowed, and a path that ends there is allowed.
    let machine = Cylon::from_parts(
        vec![State::Allow, State::Disallow, State::Disallow, State::Disallow, State::Allow],
        vec![
            vec![any(0)],
            vec![any(1)],
            vec![any(1), Transition(Edge::MatchChar('x'), 3)],
            vec![any(1), Transition(Edge::MatchEow, 4), Transition(Edge::MatchChar('y'), 0)],
            vec![any(4)],
        ],
    )
    .unwrap();
    assert_eq!(false, machine.allow(""));
    assert_eq!(false, machine.allow("a"));
    assert_eq!(true, machine.allow("x"));
    assert_eq!(true, machine.allow("xy"));
    assert_eq!(true, machine.allow("xyz"));
    assert_eq!(false, machine.allow("xz"));
}
