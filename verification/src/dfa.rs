//! The compiled automaton as an executable value, and the matcher.

use vstd::prelude::*;
use crate::automaton::{
    latest_admitting, latest_of_kind, rows, Automaton, Edge, State, Transition, ALLOW_SINK,
    DISALLOW_SINK, START,
};
use crate::compile::build;
use crate::rule::Rule;
use crate::trie::compiled_from;

verus! {

/// A Cylon is an automaton that recognizes the rules of a compiled robots
/// file. Given a path, it decides whether those rules allow or disallow it
/// in time proportional to the length of the path.
///
/// A value of this type always holds a well-formed table
/// ([`Automaton::wf`]), so matching can never get stuck.
#[derive(Debug)]
pub struct Cylon {
    states: Vec<State>,
    transitions: Vec<Vec<Transition>>,
}

impl View for Cylon {
    type V = Automaton;

    closed spec fn view(&self) -> Automaton {
        Automaton { states: self.states@, transitions: rows(self.transitions@) }
    }
}

impl Cylon {
    #[verifier::type_invariant]
    closed spec fn well_formed(&self) -> bool {
        self@.wf()
    }

    /// Follows one character from state `s`.
    fn advance(&self, s: usize, c: char) -> (next: usize)
        requires
            s < self@.states.len(),
        ensures
            next == self@.step(s, c),
            next < self@.states.len(),
    {
        proof {
            use_type_invariant(self);
            self@.lemma_step_defined(s, c);
        }
        let row = &self.transitions[s];
        let mut i: usize = row.len();
        while i > 0
            invariant
                self@.wf(),
                s < self@.states.len(),
                i <= row.len(),
                row@ == self@.transitions[s as int],
                latest_admitting(row@, c, row.len() as int)
                    == latest_admitting(row@, c, i as int),
            decreases i,
        {
            i = i - 1;
            if row[i].0.takes(c) {
                return row[i].1;
            }
        }
        s
    }

    /// Target of the latest edge of `row` whose kind is `kind`.
    fn latest(row: &Vec<Transition>, kind: Edge) -> (found: Option<usize>)
        ensures
            found == latest_of_kind(row@, kind, row.len() as int),
    {
        let mut i: usize = row.len();
        while i > 0
            invariant
                i <= row.len(),
                latest_of_kind(row@, kind, row.len() as int)
                    == latest_of_kind(row@, kind, i as int),
            decreases i,
        {
            i = i - 1;
            let same = match (row[i].0, kind) {
                (Edge::MatchAny, Edge::MatchAny) => true,
                (Edge::MatchEow, Edge::MatchEow) => true,
                (Edge::MatchChar(a), Edge::MatchChar(b)) => a == b,
                _ => false,
            };
            if same {
                return Some(row[i].1);
            }
        }
        None
    }

    /// Compile a machine from a list of rules.
    ///
    /// The rules may come in any order. The machine holds one state for
    /// each initial part of a pattern, besides the two sinks;
    /// [`compiled_from`] says which classification and which edges each of
    /// them gets.
    pub fn compile(rules: Vec<Rule>) -> (machine: Cylon)
        ensures
            compiled_from(rules@, machine@),
            machine@.wf(),
    {
        let (states, transitions) = build(&rules);
        Cylon { states, transitions }
    }

    /// Takes the machine apart into its classifications and its edge lists,
    /// for a caller that wants to keep them and put the machine together
    /// again later.
    pub fn into_parts(self) -> (parts: (Vec<State>, Vec<Vec<Transition>>))
        ensures
            parts.0@ == self@.states,
            rows(parts.1@) == self@.transitions,
            self@.wf(),
    {
        proof {
            use_type_invariant(&self);
        }
        (self.states, self.transitions)
    }

    /// Puts a machine together from classifications and edge lists that
    /// were kept. Tables that are not well formed are refused, so that
    /// matching on the machine returned cannot get stuck or leave the
    /// tables.
    pub fn from_parts(states: Vec<State>, transitions: Vec<Vec<Transition>>) -> (restored: Option<
        Cylon,
    >)
        ensures
            restored is Some <==> (Automaton {
                states: states@,
                transitions: rows(transitions@),
            }).wf(),
            restored matches Some(machine) ==> machine@ == (Automaton {
                states: states@,
                transitions: rows(transitions@),
            }),
    {
        if well_formed_tables(&states, &transitions) {
            Some(Cylon { states, transitions })
        } else {
            None
        }
    }

    /// The classification of each state, by state index.
    pub fn states(&self) -> (states: &Vec<State>)
        ensures
            states@ == self@.states,
            self@.wf(),
    {
        proof {
            use_type_invariant(self);
        }
        &self.states
    }

    /// The outgoing edges of each state, by state index, in the order in
    /// which they were appended.
    pub fn transitions(&self) -> (transitions: &Vec<Vec<Transition>>)
        ensures
            rows(transitions@) == self@.transitions,
            self@.wf(),
    {
        proof {
            use_type_invariant(self);
        }
        &self.transitions
    }

    /// Match whether the rules allow or disallow the target path.
    pub fn allow(&self, path: &str) -> (allowed: bool)
        ensures
            allowed == self@.accepts(path@),
    {
        proof {
            use_type_invariant(self);
        }
        let mut state: usize = START;
        let ghost mut seen: Seq<char> = Seq::empty();
        for c in it: path.chars()
            invariant
                self@.wf(),
                state < self@.states.len(),
                seen == it.history(),
                state == self@.run(START, seen),
        {
            proof {
                assert(seen.push(c).drop_last() =~= seen);
                seen = seen.push(c);
            }
            state = self.advance(state, c);
        }
        proof {
            broadcast use vstd::string::group_string_axioms;
            assert(seen =~= path@);
        }
        let row = &self.transitions[state];
        proof {
            self@.lemma_settle_defined(state);
        }
        let rest = match Self::latest(row, Edge::MatchEow) {
            Some(t) => t,
            None => match Self::latest(row, Edge::MatchAny) {
                Some(t) => t,
                None => state,
            },
        };
        match self.states[rest] {
            State::Allow => true,
            _ => false,
        }
    }
}

/// Whether `row` is the single edge of the sink `sink`.
fn is_sink_row(row: &Vec<Transition>, sink: usize) -> (yes: bool)
    ensures
        yes == (row@ == seq![Transition(Edge::MatchAny, sink)]),
{
    if row.len() != 1 {
        return false;
    }
    let yes = match row[0] {
        Transition(Edge::MatchAny, target) => target == sink,
        _ => false,
    };
    proof {
        if yes {
            assert(row@ =~= seq![Transition(Edge::MatchAny, sink)]);
        }
    }
    yes
}

/// Whether every edge of `row` leads to one of the first `n` states, and
/// the first edge of `row` is a match-any edge.
fn is_sound_row(row: &Vec<Transition>, n: usize) -> (yes: bool)
    ensures
        yes == (row.len() > 0 && row[0].0 == Edge::MatchAny && forall|e: int|
            0 <= e < row.len() ==> (#[trigger] row[e]).1 < n),
{
    if row.len() == 0 {
        return false;
    }
    match row[0].0 {
        Edge::MatchAny => {},
        _ => {
            return false;
        },
    }
    let mut e: usize = 0;
    while e < row.len()
        invariant
            e <= row.len(),
            forall|k: int| 0 <= k < e ==> (#[trigger] row[k]).1 < n,
        decreases row.len() - e,
    {
        if row[e].1 >= n {
            return false;
        }
        e = e + 1;
    }
    true
}

/// Whether the two tables make a well-formed automaton.
pub fn well_formed_tables(states: &Vec<State>, transitions: &Vec<Vec<Transition>>) -> (yes: bool)
    ensures
        yes == (Automaton { states: states@, transitions: rows(transitions@) }).wf(),
{
    let ghost table = Automaton { states: states@, transitions: rows(transitions@) };
    let n = states.len();
    if transitions.len() != n || n <= START {
        return false;
    }
    match (states[ALLOW_SINK], states[DISALLOW_SINK]) {
        (State::Allow, State::Disallow) => {},
        _ => {
            return false;
        },
    }
    if !is_sink_row(&transitions[ALLOW_SINK], ALLOW_SINK) || !is_sink_row(
        &transitions[DISALLOW_SINK],
        DISALLOW_SINK,
    ) {
        return false;
    }
    let mut s: usize = 0;
    while s < n
        invariant
            table == (Automaton { states: states@, transitions: rows(transitions@) }),
            n == states.len(),
            n == transitions.len(),
            s <= n,
            forall|k: int|
                0 <= k < s ==> (#[trigger] table.transitions[k]).len() > 0
                    && table.transitions[k][0].0 == Edge::MatchAny,
            forall|k: int, e: int|
                0 <= k < s && 0 <= e < table.transitions[k].len() ==> (
                #[trigger] table.transitions[k][e]).1 < n,
            forall|k: int| 0 <= k < s ==> #[trigger] table.states[k] != State::Intermediate,
        decreases n - s,
    {
        assert(table.transitions[s as int] == transitions[s as int]@);
        match states[s] {
            State::Intermediate => {
                return false;
            },
            _ => {},
        }
        if !is_sound_row(&transitions[s], n) {
            return false;
        }
        s = s + 1;
    }
    true
}

} // verus!
