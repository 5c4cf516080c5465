//! What a compiled table is, stated over the prefix tree of the patterns.
//!
//! The nodes of the tree are the initial parts of the patterns. Each node
//! becomes one state; the states are numbered by the nodes' shortlex order,
//! which is the order in which a breadth-first walk meets them when the
//! children of each node are visited in character order.
//!
//! The rules `Disallow("/")`, `Allow("/a")`, `Allow("/*.b")`, for one, have
//! six nodes and so a table of eight states:
//!
//! | state | node     | classification | edges                                  |
//! |-------|----------|----------------|----------------------------------------|
//! | 0     | (sink)   | allow          | any → 0                                |
//! | 1     | (sink)   | disallow       | any → 1                                |
//! | 2     | `""`     | allow          | any → 0, `/` → 3                       |
//! | 3     | `"/"`    | disallow       | any → 1, any → 4, `a` → 5, `.` → 6     |
//! | 4     | `"/*"`   | disallow       | any → 4, `.` → 6                       |
//! | 5     | `"/a"`   | allow          | any → 0                                |
//! | 6     | `"/*."`  | disallow       | any → 1, `b` → 7                       |
//! | 7     | `"/*.b"` | allow          | any → 0                                |
//!
//! State 3 holds, after the edges to its own children, the edge to the child
//! of its wildcard child, so that `"/.b"` is allowed as `"/x.b"` is.

use vstd::prelude::*;
use crate::automaton::{Automaton, Edge, State, Transition, ALLOW_SINK, DISALLOW_SINK};
use crate::order::{is_prefix, lemma_precedes_distinct, lex_lt, parts_at, precedes};
use crate::rule::Rule;

verus! {

/// The pattern character that stands for any run of characters.
pub const WILDCARD: char = '*';

/// The pattern character that stands for the end of the path.
pub const ANCHOR: char = '$';

/// `q` is a node of the prefix tree: the empty sequence, or an initial part
/// of some rule's pattern.
pub open spec fn is_node(rules: Seq<Rule>, q: Seq<char>) -> bool {
    q.len() == 0 || exists|i: int|
        0 <= i < rules.len() && is_prefix(q, #[trigger] rules[i].pattern())
}

/// Rule `i` is the first rule whose pattern is exactly `q`.
pub open spec fn first_stating(rules: Seq<Rule>, i: int, q: Seq<char>) -> bool {
    &&& 0 <= i < rules.len()
    &&& rules[i].pattern() == q
    &&& forall|j: int| 0 <= j < i ==> (#[trigger] rules[j]).pattern() != q
}

/// What the rules say of `q` itself: the tag of the first rule whose pattern
/// is exactly `q`, and `Intermediate` if there is none. The empty sequence
/// is always `Intermediate`: a rule with an empty pattern has no effect.
pub open spec fn stated(rules: Seq<Rule>, q: Seq<char>) -> State {
    if q.len() > 0 && exists|i: int| first_stating(rules, i, q) {
        let i = choose|i: int| first_stating(rules, i, q);
        if rules[i].permits() {
            State::Allow
        } else {
            State::Disallow
        }
    } else {
        State::Intermediate
    }
}

/// The sink that takes over when a path leaves the tree at node `q`.
///
/// An allowing node falls back on the allow sink and a disallowing node on
/// the disallow sink, except that a disallowing node ending in the anchor,
/// like a node of which the rules say nothing, inherits from its parent.
/// The root falls back on the allow sink.
pub open spec fn fallback(rules: Seq<Rule>, q: Seq<char>) -> usize
    decreases q.len(),
{
    if q.len() == 0 {
        ALLOW_SINK
    } else {
        match stated(rules, q) {
            State::Allow => ALLOW_SINK,
            State::Disallow => if q.last() == ANCHOR {
                fallback(rules, q.drop_last())
            } else {
                DISALLOW_SINK
            },
            State::Intermediate => fallback(rules, q.drop_last()),
        }
    }
}

/// The classification of the state that stands for node `q`: what the
/// rules say of `q`, or else the classification of its fallback sink.
pub open spec fn resolved(rules: Seq<Rule>, q: Seq<char>) -> State {
    match stated(rules, q) {
        State::Intermediate => if fallback(rules, q) == ALLOW_SINK {
            State::Allow
        } else {
            State::Disallow
        },
        explicit => explicit,
    }
}

/// The kind of edge that leads to a child whose last character is `c`.
pub open spec fn edge_for(c: char) -> Edge {
    if c == WILDCARD {
        Edge::MatchAny
    } else if c == ANCHOR {
        Edge::MatchEow
    } else {
        Edge::MatchChar(c)
    }
}

/// Index of the state that stands for node number `i`; the two sinks come
/// first.
pub open spec fn state_of(i: int) -> usize {
    (i + 2) as usize
}

/// The edges to the children of `x` among `nodes`, in the order in which
/// `nodes` lists them.
pub open spec fn child_edges(nodes: Seq<Seq<char>>, x: Seq<char>) -> Seq<Transition>
    decreases nodes.len(),
{
    if nodes.len() == 0 {
        Seq::empty()
    } else {
        let earlier = child_edges(nodes.drop_last(), x);
        let q = nodes.last();
        if q.len() > 0 && q.drop_last() == x {
            earlier.push(Transition(edge_for(q.last()), state_of(nodes.len() - 1)))
        } else {
            earlier
        }
    }
}

/// The leading match-any edge of node number `i`: a node that ends in the
/// wildcard loops on itself, every other node leaves for its fallback sink.
pub open spec fn leading_edge(rules: Seq<Rule>, nodes: Seq<Seq<char>>, i: int) -> Transition {
    let q = nodes[i];
    Transition(
        Edge::MatchAny,
        if q.len() > 0 && q.last() == WILDCARD {
            state_of(i)
        } else {
            fallback(rules, q)
        },
    )
}

/// The edge list of node number `i`: its leading match-any edge, then the
/// edges to its children, then the edges to the children of its wildcard
/// child, which let the wildcard stand for nothing at all.
pub open spec fn row_of(rules: Seq<Rule>, nodes: Seq<Seq<char>>, i: int) -> Seq<Transition> {
    seq![leading_edge(rules, nodes, i)] + child_edges(nodes, nodes[i]) + child_edges(
        nodes,
        nodes[i].push(WILDCARD),
    )
}

/// `nodes` lists the nodes of the prefix tree of `rules`, each once, in
/// shortlex order.
pub open spec fn is_layout(rules: Seq<Rule>, nodes: Seq<Seq<char>>) -> bool {
    &&& forall|i: int| 0 <= i < nodes.len() ==> is_node(rules, #[trigger] nodes[i])
    &&& forall|q: Seq<char>| #[trigger] is_node(rules, q) ==> nodes.contains(q)
    &&& forall|i: int, j: int|
        0 <= i < j < nodes.len() ==> precedes(#[trigger] nodes[i], #[trigger] nodes[j])
}

/// `dfa` holds the two sinks and then, for each node of `nodes` in turn,
/// its classification and its edge list.
pub open spec fn tabulates(rules: Seq<Rule>, nodes: Seq<Seq<char>>, dfa: Automaton) -> bool {
    &&& dfa.states.len() == nodes.len() + 2
    &&& dfa.transitions.len() == nodes.len() + 2
    &&& dfa.states[ALLOW_SINK as int] == State::Allow
    &&& dfa.states[DISALLOW_SINK as int] == State::Disallow
    &&& dfa.transitions[ALLOW_SINK as int] == seq![Transition(Edge::MatchAny, ALLOW_SINK)]
    &&& dfa.transitions[DISALLOW_SINK as int] == seq![Transition(Edge::MatchAny, DISALLOW_SINK)]
    &&& forall|i: int|
        0 <= i < nodes.len() ==> dfa.states[i + 2] == resolved(rules, #[trigger] nodes[i])
    &&& forall|i: int|
        0 <= i < nodes.len() ==> dfa.transitions[i + 2] == #[trigger] row_of(rules, nodes, i)
}

/// `dfa` is the table of `rules` laid out along `nodes`.
pub open spec fn describes(rules: Seq<Rule>, nodes: Seq<Seq<char>>, dfa: Automaton) -> bool {
    is_layout(rules, nodes) && tabulates(rules, nodes, dfa)
}

/// `dfa` is the compiled form of `rules`: their table, laid out along the
/// layout of their prefix tree. There is one such table, as
/// [`crate::uniqueness::lemma_compiled_unique`] shows.
pub open spec fn compiled_from(rules: Seq<Rule>, dfa: Automaton) -> bool {
    exists|nodes: Seq<Seq<char>>| describes(rules, nodes, dfa)
}

/// The first rule that states `q` decides what is stated of `q`.
pub proof fn lemma_stated_by(rules: Seq<Rule>, i: int, q: Seq<char>)
    requires
        first_stating(rules, i, q),
        q.len() > 0,
    ensures
        stated(rules, q) == if rules[i].permits() {
            State::Allow
        } else {
            State::Disallow
        },
{
    let j = choose|j: int| first_stating(rules, j, q);
    assert(j == i) by {
        if j < i {
            assert(rules[j].pattern() == q);
        } else if i < j {
            assert(rules[i].pattern() == q);
        }
    }
}

/// Where some rule has pattern `q`, some rule is the first to have it.
pub proof fn lemma_first_exists(rules: Seq<Rule>, j: int, q: Seq<char>)
    requires
        0 <= j < rules.len(),
        rules[j].pattern() == q,
    ensures
        exists|i: int| first_stating(rules, i, q),
    decreases j,
{
    if exists|k: int| 0 <= k < j && (#[trigger] rules[k]).pattern() == q {
        let k = choose|k: int| 0 <= k < j && (#[trigger] rules[k]).pattern() == q;
        lemma_first_exists(rules, k, q);
    } else {
        assert(first_stating(rules, j, q));
    }
}

/// Of a sequence that is no rule's pattern the rules say nothing.
pub proof fn lemma_stated_by_none(rules: Seq<Rule>, q: Seq<char>)
    requires
        forall|i: int| 0 <= i < rules.len() ==> (#[trigger] rules[i]).pattern() != q,
    ensures
        stated(rules, q) == State::Intermediate,
{
    if exists|i: int| first_stating(rules, i, q) {
        let i = choose|i: int| first_stating(rules, i, q);
        assert(rules[i].pattern() == q);
    }
}

/// A fallback is always one of the two sinks.
pub proof fn lemma_fallback_is_sink(rules: Seq<Rule>, q: Seq<char>)
    ensures
        fallback(rules, q) == ALLOW_SINK || fallback(rules, q) == DISALLOW_SINK,
    decreases q.len(),
{
    if q.len() > 0 {
        lemma_fallback_is_sink(rules, q.drop_last());
    }
}

/// Listing one more node adds an edge to the list of its parent and leaves
/// every other list as it was.
pub proof fn lemma_child_edges_push(nodes: Seq<Seq<char>>, q: Seq<char>, x: Seq<char>)
    ensures
        child_edges(nodes.push(q), x) == if q.len() > 0 && q.drop_last() == x {
            child_edges(nodes, x).push(Transition(edge_for(q.last()), state_of(nodes.len() as int)))
        } else {
            child_edges(nodes, x)
        },
{
    assert(nodes.push(q).drop_last() =~= nodes);
}

/// A sequence without children among `nodes` has no edges.
pub proof fn lemma_child_edges_none(nodes: Seq<Seq<char>>, x: Seq<char>)
    requires
        forall|i: int|
            0 <= i < nodes.len() ==> !((#[trigger] nodes[i]).len() > 0 && nodes[i].drop_last()
                == x),
    ensures
        child_edges(nodes, x) == Seq::<Transition>::empty(),
    decreases nodes.len(),
{
    if nodes.len() > 0 {
        lemma_child_edges_none(nodes.drop_last(), x);
    }
}

/// Every edge to a child leads to the state of a listed node, carries the
/// kind that the child's last character asks for, and the edges come in the
/// order of the nodes.
pub proof fn lemma_child_edges_shape(nodes: Seq<Seq<char>>, x: Seq<char>)
    ensures
        child_edges(nodes, x).len() <= nodes.len(),
        forall|e: int|
            0 <= e < child_edges(nodes, x).len() ==> {
                let t = #[trigger] child_edges(nodes, x)[e];
                exists|i: int|
                    0 <= i < nodes.len() && t.1 == state_of(i) && (#[trigger] nodes[i]).len() > 0
                        && nodes[i].drop_last() == x && t.0 == edge_for(nodes[i].last())
            },
    decreases nodes.len(),
{
    if nodes.len() > 0 {
        let shorter = nodes.drop_last();
        lemma_child_edges_shape(shorter, x);
        assert forall|e: int| 0 <= e < child_edges(nodes, x).len() implies {
            let t = #[trigger] child_edges(nodes, x)[e];
            exists|i: int|
                0 <= i < nodes.len() && t.1 == state_of(i) && (#[trigger] nodes[i]).len() > 0
                    && nodes[i].drop_last() == x && t.0 == edge_for(nodes[i].last())
        } by {
            let t = child_edges(nodes, x)[e];
            if e < child_edges(shorter, x).len() {
                let i = choose|i: int|
                    0 <= i < shorter.len() && child_edges(shorter, x)[e].1 == state_of(i) && (
                    #[trigger] shorter[i]).len() > 0 && shorter[i].drop_last() == x
                        && child_edges(shorter, x)[e].0 == edge_for(shorter[i].last());
                assert(nodes[i] == shorter[i]);
            } else {
                assert(nodes[nodes.len() - 1] == nodes.last());
            }
        }
    }
}

/// Every listed child of `x` has its edge.
pub proof fn lemma_child_edges_complete(nodes: Seq<Seq<char>>, x: Seq<char>, i: int)
    requires
        0 <= i < nodes.len(),
        nodes[i].len() > 0,
        nodes[i].drop_last() == x,
    ensures
        exists|e: int|
            0 <= e < child_edges(nodes, x).len() && #[trigger] child_edges(nodes, x)[e]
                == Transition(edge_for(nodes[i].last()), state_of(i)),
    decreases nodes.len(),
{
    let edges = child_edges(nodes, x);
    if i == nodes.len() - 1 {
        assert(edges[edges.len() - 1] == Transition(edge_for(nodes[i].last()), state_of(i)));
    } else {
        let shorter = nodes.drop_last();
        lemma_child_edges_complete(shorter, x, i);
        let e = choose|e: int|
            0 <= e < child_edges(shorter, x).len() && #[trigger] child_edges(shorter, x)[e]
                == Transition(edge_for(shorter[i].last()), state_of(i));
        assert(edges[e] == child_edges(shorter, x)[e]);
    }
}

/// The number of `q` in `nodes`.
pub open spec fn place_of(nodes: Seq<Seq<char>>, q: Seq<char>) -> int {
    choose|i: int| 0 <= i < nodes.len() && nodes[i] == q
}

/// A layout lists no node twice, so a node has one number.
pub proof fn lemma_place_of(rules: Seq<Rule>, nodes: Seq<Seq<char>>, i: int)
    requires
        is_layout(rules, nodes),
        0 <= i < nodes.len(),
    ensures
        place_of(nodes, nodes[i]) == i,
{
    let j = place_of(nodes, nodes[i]);
    if j < i {
        lemma_precedes_distinct(nodes[j], nodes[i]);
    } else if i < j {
        lemma_precedes_distinct(nodes[i], nodes[j]);
    }
}

/// A layout starts with the root.
pub proof fn lemma_root_first(rules: Seq<Rule>, nodes: Seq<Seq<char>>)
    requires
        is_layout(rules, nodes),
    ensures
        nodes.len() > 0,
        nodes[0] == Seq::<char>::empty(),
{
    let root = Seq::<char>::empty();
    assert(is_node(rules, root));
    let i = choose|i: int| 0 <= i < nodes.len() && nodes[i] == root;
    if i > 0 {
        assert(precedes(nodes[0], nodes[i]));
        if lex_lt(nodes[0], root) {
            let k = choose|k: int| #[trigger] parts_at(nodes[0], root, k);
        }
    }
}

} // verus!
