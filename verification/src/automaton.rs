//! The mathematical model of the automaton: states, edges, and what it means
//! to run a path through a transition table.

use vstd::prelude::*;

verus! {

/// What a state says about the paths that end in it.
#[derive(Debug, Clone, Copy, PartialEq)]
pub enum State {
    /// The path may be fetched.
    Allow,
    /// The path may not be fetched.
    Disallow,
    /// A prefix of some pattern that no rule names by itself. It exists only
    /// while a table is being built; no state of a finished table carries it.
    Intermediate,
}

/// What an edge consumes.
#[derive(Debug, Clone, Copy, PartialEq)]
pub enum Edge {
    /// Exactly this character.
    MatchChar(char),
    /// Any character.
    MatchAny,
    /// The end of the path.
    MatchEow,
}

/// An edge together with the index of the state it leads to.
#[derive(Debug, Clone, Copy, PartialEq)]
pub struct Transition(pub Edge, pub usize);

/// Index of the state that allows whatever follows.
pub const ALLOW_SINK: usize = 0;

/// Index of the state that disallows whatever follows.
pub const DISALLOW_SINK: usize = 1;

/// Index of the state in which every path starts.
pub const START: usize = 2;

impl Edge {
    /// Whether the edge can be taken on character `c` in the middle of a path.
    pub open spec fn admits(self, c: char) -> bool {
        match self {
            Edge::MatchChar(x) => x == c,
            Edge::MatchAny => true,
            Edge::MatchEow => false,
        }
    }

    /// Executable form of [`Edge::admits`].
    pub fn takes(&self, c: char) -> (taken: bool)
        ensures
            taken == self.admits(c),
    {
        match self {
            Edge::MatchChar(x) => *x == c,
            Edge::MatchAny => true,
            Edge::MatchEow => false,
        }
    }
}

/// The target of the most recently appended edge among `row[0..n]` that
/// admits `c`, if there is one.
pub open spec fn latest_admitting(row: Seq<Transition>, c: char, n: int) -> Option<usize>
    decreases n,
{
    if n <= 0 {
        None
    } else if row[n - 1].0.admits(c) {
        Some(row[n - 1].1)
    } else {
        latest_admitting(row, c, n - 1)
    }
}

/// The target of the most recently appended edge among `row[0..n]` whose
/// kind is `kind`, if there is one.
pub open spec fn latest_of_kind(row: Seq<Transition>, kind: Edge, n: int) -> Option<usize>
    decreases n,
{
    if n <= 0 {
        None
    } else if row[n - 1].0 == kind {
        Some(row[n - 1].1)
    } else {
        latest_of_kind(row, kind, n - 1)
    }
}

/// What [`latest_admitting`] finds: the edge it reports admits `c` and no
/// later edge does; it reports nothing only if no edge admits `c`.
pub proof fn lemma_latest_admitting(row: Seq<Transition>, c: char, n: int)
    requires
        0 <= n <= row.len(),
    ensures
        match latest_admitting(row, c, n) {
            Some(t) => exists|e: int|
                0 <= e < n && row[e].0.admits(c) && row[e].1 == t && forall|j: int|
                    e < j < n ==> !(#[trigger] row[j]).0.admits(c),
            None => forall|e: int| 0 <= e < n ==> !(#[trigger] row[e]).0.admits(c),
        },
    decreases n,
{
    if n > 0 && !row[n - 1].0.admits(c) {
        lemma_latest_admitting(row, c, n - 1);
    }
}

/// What [`latest_of_kind`] finds: the edge it reports has the kind asked for
/// and no later edge has; it reports nothing only if no edge has that kind.
pub proof fn lemma_latest_of_kind(row: Seq<Transition>, kind: Edge, n: int)
    requires
        0 <= n <= row.len(),
    ensures
        match latest_of_kind(row, kind, n) {
            Some(t) => exists|e: int|
                0 <= e < n && row[e].0 == kind && row[e].1 == t && forall|j: int|
                    e < j < n ==> (#[trigger] row[j]).0 != kind,
            None => forall|e: int| 0 <= e < n ==> (#[trigger] row[e]).0 != kind,
        },
    decreases n,
{
    if n > 0 && row[n - 1].0 != kind {
        lemma_latest_of_kind(row, kind, n - 1);
    }
}

/// A transition table as a mathematical value: one classification and one
/// list of outgoing edges per state.
pub struct Automaton {
    pub states: Seq<State>,
    pub transitions: Seq<Seq<Transition>>,
}

/// The edge lists of a table, each taken by its view.
pub open spec fn rows(table: Seq<Vec<Transition>>) -> Seq<Seq<Transition>> {
    Seq::new(table.len(), |i: int| table[i]@)
}

impl Automaton {
    /// The table can be run on any path: it has a start state, its states
    /// can be counted by a machine index, every edge leads to a state of the
    /// table, every state falls back on a leading match-any edge, no state
    /// is left unresolved, and the two sinks are in their places.
    pub open spec fn wf(self) -> bool {
        &&& self.states.len() == self.transitions.len()
        &&& START < self.states.len() <= usize::MAX
        &&& forall|s: int|
            0 <= s < self.transitions.len() ==> (#[trigger] self.transitions[s]).len() > 0
                && self.transitions[s][0].0 == Edge::MatchAny
        &&& forall|s: int, e: int|
            0 <= s < self.transitions.len() && 0 <= e < self.transitions[s].len() ==> (
            #[trigger] self.transitions[s][e]).1 < self.states.len()
        &&& forall|s: int|
            0 <= s < self.states.len() ==> #[trigger] self.states[s] != State::Intermediate
        &&& self.states[ALLOW_SINK as int] == State::Allow
        &&& self.states[DISALLOW_SINK as int] == State::Disallow
        &&& self.transitions[ALLOW_SINK as int] == seq![Transition(Edge::MatchAny, ALLOW_SINK)]
        &&& self.transitions[DISALLOW_SINK as int] == seq![
            Transition(Edge::MatchAny, DISALLOW_SINK),
        ]
    }

    /// The state reached from `s` on character `c`: the target of the most
    /// recently appended edge of `s` that admits `c`. A state without such
    /// an edge is not left.
    pub open spec fn step(self, s: usize, c: char) -> usize {
        let row = self.transitions[s as int];
        match latest_admitting(row, c, row.len() as int) {
            Some(t) => t,
            None => s,
        }
    }

    /// The state reached from `s` when the path ends there: the target of
    /// the latest end-of-path edge if `s` has one, else of the latest
    /// match-any edge, else `s` itself.
    pub open spec fn settle(self, s: usize) -> usize {
        let row = self.transitions[s as int];
        match latest_of_kind(row, Edge::MatchEow, row.len() as int) {
            Some(t) => t,
            None => match latest_of_kind(row, Edge::MatchAny, row.len() as int) {
                Some(t) => t,
                None => s,
            },
        }
    }

    /// The state reached from `s` after consuming all of `path`.
    pub open spec fn run(self, s: usize, path: Seq<char>) -> usize
        decreases path.len(),
    {
        if path.len() == 0 {
            s
        } else {
            self.step(self.run(s, path.drop_last()), path.last())
        }
    }

    /// The state in which `path` comes to rest.
    pub open spec fn verdict_state(self, path: Seq<char>) -> usize {
        self.settle(self.run(START, path))
    }

    /// Whether the table allows `path`.
    pub open spec fn accepts(self, path: Seq<char>) -> bool {
        self.states[self.verdict_state(path) as int] == State::Allow
    }

    /// Matching never gets stuck: in a well-formed table every state has an
    /// edge for every character, and following it stays inside the table.
    pub proof fn lemma_step_defined(self, s: usize, c: char)
        requires
            self.wf(),
            s < self.states.len(),
        ensures
            latest_admitting(self.transitions[s as int], c, self.transitions[s as int].len() as int)
                is Some,
            self.step(s, c) < self.states.len(),
    {
        let row = self.transitions[s as int];
        lemma_latest_admitting(row, c, row.len() as int);
        assert(row[0].0.admits(c));
    }

    /// Coming to rest stays inside a well-formed table.
    pub proof fn lemma_settle_defined(self, s: usize)
        requires
            self.wf(),
            s < self.states.len(),
        ensures
            self.settle(s) < self.states.len(),
    {
        let row = self.transitions[s as int];
        lemma_latest_of_kind(row, Edge::MatchEow, row.len() as int);
        lemma_latest_of_kind(row, Edge::MatchAny, row.len() as int);
    }

    /// Running any path from a state of a well-formed table ends in a state
    /// of the table.
    pub proof fn lemma_run_defined(self, s: usize, path: Seq<char>)
        requires
            self.wf(),
            s < self.states.len(),
        ensures
            self.run(s, path) < self.states.len(),
        decreases path.len(),
    {
        if path.len() > 0 {
            self.lemma_run_defined(s, path.drop_last());
            self.lemma_step_defined(self.run(s, path.drop_last()), path.last());
        }
    }

    /// In a well-formed table every path comes to rest in a state of the
    /// table, and that state is resolved: it allows or it disallows.
    pub proof fn lemma_verdict_defined(self, path: Seq<char>)
        requires
            self.wf(),
        ensures
            self.verdict_state(path) < self.states.len(),
            self.states[self.verdict_state(path) as int] != State::Intermediate,
            !self.accepts(path) <==> self.states[self.verdict_state(path) as int]
                == State::Disallow,
    {
        self.lemma_run_defined(START, path);
        self.lemma_settle_defined(self.run(START, path));
    }

    /// The verdict on a path is a function of the table and the path: two
    /// tables with the same classifications and the same edge lists, such as
    /// a table and what was restored from its stored form, decide every
    /// path alike, and in the same state.
    pub proof fn lemma_verdict_by_table(self, other: Automaton, path: Seq<char>)
        requires
            self.states == other.states,
            self.transitions == other.transitions,
        ensures
            self.verdict_state(path) == other.verdict_state(path),
            self.accepts(path) == other.accepts(path),
    {
    }
}

} // verus!
