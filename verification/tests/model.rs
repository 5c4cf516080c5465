use cylon::{Cylon, Edge, Rule, State, Transition};

type Text = Vec<char>;

/// What the rules say of `q` itself.
fn stated(rules: &[(bool, Text)], q: &[char]) -> State {
    if q.is_empty() {
        return State::Intermediate;
    }
    match rules.iter().find(|(_, text)| text.as_slice() == q) {
        Some((true, _)) => State::Allow,
        Some((false, _)) => State::Disallow,
        None => State::Intermediate,
    }
}

/// The sink on which `q` falls back.
fn fallback(rules: &[(bool, Text)], q: &[char]) -> usize {
    if q.is_empty() {
        return 0;
    }
    let up = &q[..q.len() - 1];
    match stated(rules, q) {
        State::Allow => 0,
        State::Disallow if q[q.len() - 1] == '$' => fallback(rules, up),
        State::Disallow => 1,
        State::Intermediate => fallback(rules, up),
    }
}

/// The edges to the children of `x`, in the order of the nodes.
fn child_edges(nodes: &[Text], x: &[char]) -> Vec<Transition> {
    let mut edges = Vec::new();
    for (i, q) in nodes.iter().enumerate() {
        if !q.is_empty() && &q[..q.len() - 1] == x {
            let edge = match q[q.len() - 1] {
                '*' => Edge::MatchAny,
                '$' => Edge::MatchEow,
                c => Edge::MatchChar(c),
            };
            edges.push(Transition(edge, i + 2));
        }
    }
    edges
}

/// The table that the rules describe, built node by node from the list of
/// all initial parts of the patterns.
fn described(rules: &[(bool, Text)]) -> (Vec<State>, Vec<Vec<Transition>>) {
    let mut nodes: Vec<Text> = vec![Vec::new()];
    for (_, text) in rules {
        for len in 1..=text.len() {
            let q = text[..len].to_vec();
            if !nodes.contains(&q) {
                nodes.push(q);
            }
        }
    }
    nodes.sort_by(|a, b| (a.len(), a).cmp(&(b.len(), b)));
    let mut states = vec![State::Allow, State::Disallow];
    let mut transitions =
        vec![vec![Transition(Edge::MatchAny, 0)], vec![Transition(Edge::MatchAny, 1)]];
    for (i, q) in nodes.iter().enumerate() {
        let sink = fallback(rules, q);
        states.push(match stated(rules, q) {
            State::Intermediate if sink == 0 => State::Allow,
            State::Intermediate => State::Disallow,
            explicit => explicit,
        });
        let lead = if q.last() == Some(&'*') { i + 2 } else { sink };
        let mut row = vec![Transition(Edge::MatchAny, lead)];
        row.extend(child_edges(&nodes, q));
        let mut starred = q.clone();
        starred.push('*');
        row.extend(child_edges(&nodes, &starred));
        transitions.push(row);
    }
    (states, transitions)
}

/// How the table decides `path`.
fn decided(states: &[State], transitions: &[Vec<Transition>], path: &str) -> bool {
    let mut state = 2;
    for c in path.chars() {
        let row = &transitions[state];
        state = row
            .iter()
            .rev()
            .find(|Transition(edge, _)| match edge {
                Edge::MatchChar(x) => *x == c,
                Edge::MatchAny => true,
                Edge::MatchEow => false,
            })
            .map(|Transition(_, target)| *target)
            .unwrap();
    }
    let row = &transitions[state];
    let at_end = |kind: Edge| {
        row.iter().rev().find(|Transition(edge, _)| *edge == kind).map(|Transition(_, t)| *t)
    };
    let rest = at_end(Edge::MatchEow).or(at_end(Edge::MatchAny)).unwrap_or(state);
    states[rest] == State::Allow
}

struct Dice(u64);

impl Dice {
    fn roll(&mut self, sides: usize) -> usize {
        self.0 ^= self.0 << 13;
        self.0 ^= self.0 >> 7;
        self.0 ^= self.0 << 17;
        (self.0 % sides as u64) as usize
    }

    fn text(&mut self, longest: usize) -> String {
        let alphabet = ['/', 'a', 'b', '*', '$', '!', '\u{e9}', '\u{65e5}'];
        let len = self.roll(longest + 1);
        (0..len).map(|_| alphabet[self.roll(alphabet.len())]).collect()
    }
}

#[test]
fn compiled_tables_are_as_described() {
    let mut dice = Dice(0x2545F4914F6CDD1D);
    for _ in 0..5000 {
        let count = dice.roll(7);
        let owned: Vec<(bool, String)> =
            (0..count).map(|_| (dice.roll(2) == 0, dice.text(5))).collect();
        let plain: Vec<(bool, Text)> =
            owned.iter().map(|(allow, text)| (*allow, text.chars().collect())).collect();
        let rules: Vec<Rule> = owned
            .iter()
            .map(|(allow, text)| if *allow { Rule::Allow(text) } else { Rule::Disallow(text) })
            .collect();
        let machine = Cylon::compile(rules);
        let (states, transitions) = described(&plain);
        assert_eq!(*machine.states(), states);
        assert_eq!(*machine.transitions(), transitions);
        for _ in 0..20 {
            let path = dice.text(7);
            assert_eq!(decided(&states, &transitions, &path), machine.allow(&path));
        }
    }
}
