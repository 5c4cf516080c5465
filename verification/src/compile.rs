//! Building the table: a breadth-first walk over the prefix tree of the
//! sorted patterns, which appends one state per node as it meets them.

use vstd::prelude::*;
use crate::automaton::{rows, Automaton, Edge, State, Transition, ALLOW_SINK, DISALLOW_SINK};
use crate::order::{
    extends, is_prefix, is_stable_order, lemma_children_follow_parents, lemma_next_in_order,
    lemma_precedes_distinct, lemma_precedes_transitive, lemma_prefix_not_after,
    lemma_siblings_in_order, lists, precedes, shares_prefix, sorts_before, stable_order,
    texts_of,
};
use crate::rule::Rule;
use crate::trie::{
    child_edges, compiled_from, describes, edge_for, fallback, first_stating, is_layout, is_node,
    leading_edge, lemma_child_edges_none, lemma_child_edges_push, lemma_child_edges_shape,
    lemma_fallback_is_sink, lemma_stated_by, lemma_stated_by_none, resolved, row_of, state_of,
    stated, tabulates, ANCHOR, WILDCARD,
};

verus! {

/// Every child of node `j` that rule `r` calls for is listed.
pub open spec fn covers(rules: Seq<Rule>, nodes: Seq<Seq<char>>, j: int, r: int) -> bool {
    extends(rules[r].pattern(), nodes[j]) ==> exists|m: int|
        0 <= m < nodes.len() && (#[trigger] nodes[m]).len() == nodes[j].len() + 1 && is_prefix(
            nodes[m],
            rules[r].pattern(),
        )
}

/// The state of the walk: `nodes` lists, in shortlex order, the root and
/// every child of the first `expanded` nodes; `parent` gives each node's
/// parent, which is among the first `frontier` nodes.
pub open spec fn growing(
    rules: Seq<Rule>,
    nodes: Seq<Seq<char>>,
    parent: Seq<int>,
    expanded: int,
    frontier: int,
) -> bool {
    &&& nodes.len() == parent.len()
    &&& nodes.len() >= 1
    &&& nodes[0].len() == 0
    &&& 0 <= expanded <= frontier <= nodes.len()
    &&& forall|i: int| 0 <= i < nodes.len() ==> is_node(rules, #[trigger] nodes[i])
    &&& forall|i: int, j: int|
        0 <= i < j < nodes.len() ==> precedes(#[trigger] nodes[i], #[trigger] nodes[j])
    &&& forall|i: int|
        1 <= i < nodes.len() ==> {
            &&& 0 <= #[trigger] parent[i] < i
            &&& parent[i] < frontier
            &&& nodes[i].len() > 0
            &&& nodes[parent[i]] == nodes[i].drop_last()
        }
    &&& forall|j: int, r: int|
        0 <= j < expanded && 0 <= r < rules.len() ==> #[trigger] covers(rules, nodes, j, r)
}

/// Earlier nodes are never longer than later ones.
pub proof fn lemma_lengths_ascend(
    rules: Seq<Rule>,
    nodes: Seq<Seq<char>>,
    parent: Seq<int>,
    expanded: int,
    frontier: int,
    i: int,
    j: int,
)
    requires
        growing(rules, nodes, parent, expanded, frontier),
        0 <= i <= j < nodes.len(),
    ensures
        nodes[i].len() <= nodes[j].len(),
        i != j ==> nodes[i] != nodes[j],
{
    if i < j {
        lemma_precedes_distinct(nodes[i], nodes[j]);
    }
}

/// Listing a new child of node `head` that comes after every listed node
/// keeps the walk in order.
pub proof fn lemma_grow_child(
    rules: Seq<Rule>,
    nodes: Seq<Seq<char>>,
    parent: Seq<int>,
    head: int,
    frontier: int,
    c: char,
)
    requires
        growing(rules, nodes, parent, head, frontier),
        head < nodes.len(),
        frontier <= head + 1,
        is_node(rules, nodes[head].push(c)),
        precedes(nodes.last(), nodes[head].push(c)),
    ensures
        growing(rules, nodes.push(nodes[head].push(c)), parent.push(head), head, head + 1),
{
    let q = nodes[head].push(c);
    let more = nodes.push(q);
    let m = nodes.len() as int;
    assert forall|i: int, j: int| 0 <= i < j < more.len() implies precedes(
        #[trigger] more[i],
        #[trigger] more[j],
    ) by {
        if j == m && i < m - 1 {
            lemma_precedes_transitive(nodes[i], nodes.last(), q);
        }
    }
    assert(q.drop_last() =~= nodes[head]);
    assert forall|j: int, r: int| 0 <= j < head && 0 <= r < rules.len() implies #[trigger] covers(
        rules,
        more,
        j,
        r,
    ) by {
        assert(covers(rules, nodes, j, r));
        if extends(rules[r].pattern(), nodes[j]) {
            let w = choose|w: int|
                0 <= w < nodes.len() && (#[trigger] nodes[w]).len() == nodes[j].len() + 1
                    && is_prefix(nodes[w], rules[r].pattern());
            assert(more[w] == nodes[w]);
        }
    }
}

/// Once every node is expanded, every node of the prefix tree is listed.
pub proof fn lemma_node_listed(
    rules: Seq<Rule>,
    nodes: Seq<Seq<char>>,
    parent: Seq<int>,
    q: Seq<char>,
)
    requires
        growing(rules, nodes, parent, nodes.len() as int, nodes.len() as int),
        is_node(rules, q),
    ensures
        nodes.contains(q),
    decreases q.len(),
{
    if q.len() == 0 {
        assert(nodes[0] =~= q);
    } else {
        let r = choose|r: int| 0 <= r < rules.len() && is_prefix(q, #[trigger] rules[r].pattern());
        let up = q.drop_last();
        assert(is_prefix(up, rules[r].pattern()));
        lemma_node_listed(rules, nodes, parent, up);
        let j = choose|j: int| 0 <= j < nodes.len() && nodes[j] == up;
        assert(covers(rules, nodes, j, r));
        let m = choose|m: int|
            0 <= m < nodes.len() && (#[trigger] nodes[m]).len() == nodes[j].len() + 1 && is_prefix(
                nodes[m],
                rules[r].pattern(),
            );
        assert(nodes[m] =~= q);
    }
}

/// Once every node is expanded, the walk has laid out the whole tree.
pub proof fn lemma_walk_complete(rules: Seq<Rule>, nodes: Seq<Seq<char>>, parent: Seq<int>)
    requires
        growing(rules, nodes, parent, nodes.len() as int, nodes.len() as int),
    ensures
        is_layout(rules, nodes),
{
    assert forall|q: Seq<char>| #[trigger] is_node(rules, q) implies nodes.contains(q) by {
        lemma_node_listed(rules, nodes, parent, q);
    }
}

/// The table after a child with last character `c` was added to node
/// `head`: one more state with its leading edge, and an edge to it from
/// `head` and, where `head` ends in the wildcard, from the parent of `head`.
pub open spec fn with_child(
    dfa: Automaton,
    rules: Seq<Rule>,
    nodes: Seq<Seq<char>>,
    parent: Seq<int>,
    head: int,
    c: char,
) -> Automaton {
    let p = nodes[head];
    let q = p.push(c);
    let child = state_of(nodes.len() as int);
    let edge = Transition(edge_for(c), child);
    let lead = Transition(
        Edge::MatchAny,
        if c == WILDCARD {
            child
        } else {
            fallback(rules, q)
        },
    );
    let t1 = dfa.transitions.push(seq![lead]);
    let t2 = if p.len() > 0 && p.last() == WILDCARD {
        t1.update(parent[head] + 2, t1[parent[head] + 2].push(edge))
    } else {
        t1
    };
    let t3 = t2.update(head + 2, t2[head + 2].push(edge));
    Automaton { states: dfa.states.push(resolved(rules, q)), transitions: t3 }
}

/// Adding a child to the table as [`with_child`] does keeps the table in
/// step with the list of nodes.
pub proof fn lemma_tabulate_child(
    dfa: Automaton,
    rules: Seq<Rule>,
    nodes: Seq<Seq<char>>,
    parent: Seq<int>,
    head: int,
    frontier: int,
    c: char,
)
    requires
        growing(rules, nodes, parent, head, frontier),
        head < nodes.len(),
        frontier <= head + 1,
        tabulates(rules, nodes, dfa),
    ensures
        tabulates(
            rules,
            nodes.push(nodes[head].push(c)),
            with_child(dfa, rules, nodes, parent, head, c),
        ),
{
    let p = nodes[head];
    let q = p.push(c);
    let more = nodes.push(q);
    let m = nodes.len() as int;
    let next = with_child(dfa, rules, nodes, parent, head, c);
    let edge = Transition(edge_for(c), state_of(m));
    let starred = p.len() > 0 && p.last() == WILDCARD;
    assert(q.drop_last() =~= p);
    assert(q.last() == c);
    assert forall|i: int| 0 <= i < more.len() implies next.states[i + 2] == resolved(
        rules,
        #[trigger] more[i],
    ) by {
        if i < m {
            assert(more[i] == nodes[i]);
        }
    }
    assert forall|i: int| 0 <= i < more.len() implies next.transitions[i + 2] == #[trigger] row_of(
        rules,
        more,
        i,
    ) by {
        let x = more[i];
        let y = more[i].push(WILDCARD);
        lemma_child_edges_push(nodes, q, x);
        lemma_child_edges_push(nodes, q, y);
        if i == m {
            assert forall|k: int| 0 <= k < nodes.len() implies !((#[trigger] nodes[k]).len() > 0
                && nodes[k].drop_last() == x) by {
                if k >= 1 {
                    lemma_lengths_ascend(rules, nodes, parent, head, frontier, parent[k], head);
                }
            }
            assert forall|k: int| 0 <= k < nodes.len() implies !((#[trigger] nodes[k]).len() > 0
                && nodes[k].drop_last() == y) by {
                if k >= 1 {
                    lemma_lengths_ascend(rules, nodes, parent, head, frontier, parent[k], head);
                }
            }
            lemma_child_edges_none(nodes, x);
            lemma_child_edges_none(nodes, y);
            assert(next.transitions[i + 2] =~= row_of(rules, more, i));
        } else {
            assert(more[i] == nodes[i]);
            assert(dfa.transitions[i + 2] == row_of(rules, nodes, i));
            assert(leading_edge(rules, more, i) == leading_edge(rules, nodes, i));
            if i == head {
                assert(y != p);
                assert forall|k: int| 0 <= k < nodes.len() implies !((#[trigger] nodes[k]).len()
                    > 0 && nodes[k].drop_last() == y) by {
                    if k >= 1 {
                        lemma_lengths_ascend(rules, nodes, parent, head, frontier, parent[k], head);
                    }
                }
                lemma_child_edges_none(nodes, y);
                if starred {
                    assert(parent[head] != head);
                }
                assert(next.transitions[i + 2] =~= row_of(rules, more, i));
            } else {
                lemma_lengths_ascend(
                    rules,
                    nodes,
                    parent,
                    head,
                    frontier,
                    if i < head { i } else { head },
                    if i < head { head } else { i },
                );
                assert(x != p);
                if starred && i == parent[head] {
                    assert(y =~= p);
                    assert(next.transitions[i + 2] =~= row_of(rules, more, i));
                } else {
                    if y == p {
                        assert(starred);
                        assert(y.drop_last() =~= x);
                        assert(nodes[parent[head]] == x);
                        lemma_lengths_ascend(
                            rules,
                            nodes,
                            parent,
                            head,
                            frontier,
                            if i < parent[head] { i } else { parent[head] },
                            if i < parent[head] { parent[head] } else { i },
                        );
                        assert(false);
                    }
                    assert(next.transitions[i + 2] =~= row_of(rules, more, i));
                }
            }
        }
    }
}

/// A table that is in step with a list of nodes can be run on any path.
pub proof fn lemma_tabulated_wf(rules: Seq<Rule>, nodes: Seq<Seq<char>>, dfa: Automaton)
    requires
        tabulates(rules, nodes, dfa),
        nodes.len() >= 1,
        nodes.len() + 2 <= usize::MAX,
    ensures
        dfa.wf(),
{
    assert forall|s: int| 0 <= s < dfa.transitions.len() implies (
    #[trigger] dfa.transitions[s]).len() > 0 && dfa.transitions[s][0].0 == Edge::MatchAny by {
        if s >= 2 {
            assert(dfa.transitions[s] == row_of(rules, nodes, s - 2));
        }
    }
    assert forall|s: int, e: int|
        0 <= s < dfa.transitions.len() && 0 <= e < dfa.transitions[s].len() implies (
    #[trigger] dfa.transitions[s][e]).1 < dfa.states.len() by {
        if s >= 2 {
            let i = s - 2;
            assert(dfa.transitions[s] == row_of(rules, nodes, i));
            lemma_fallback_is_sink(rules, nodes[i]);
            lemma_child_edges_shape(nodes, nodes[i]);
            lemma_child_edges_shape(nodes, nodes[i].push(WILDCARD));
            let own = child_edges(nodes, nodes[i]);
            let star = child_edges(nodes, nodes[i].push(WILDCARD));
            if 1 <= e < 1 + own.len() {
                assert(dfa.transitions[s][e] == own[e - 1]);
            } else if e >= 1 + own.len() {
                assert(dfa.transitions[s][e] == star[e - 1 - own.len()]);
            }
        }
    }
    assert forall|s: int| 0 <= s < dfa.states.len() implies #[trigger] dfa.states[s]
        != State::Intermediate by {
        if s >= 2 {
            assert(dfa.states[s] == resolved(rules, nodes[s - 2]));
        }
    }
}

/// The first child of a node comes after everything listed before it.
pub proof fn lemma_first_child_follows(
    rules: Seq<Rule>,
    nodes: Seq<Seq<char>>,
    parent: Seq<int>,
    head: int,
    c: char,
)
    requires
        growing(rules, nodes, parent, head, head),
        head < nodes.len(),
    ensures
        precedes(nodes.last(), nodes[head].push(c)),
{
    let at = nodes.len() - 1;
    if at > head {
        let tail = nodes[at];
        assert(tail =~= tail.drop_last().push(tail.last()));
        assert(precedes(nodes[parent[at]], nodes[head]));
        lemma_children_follow_parents(nodes[parent[at]], nodes[head], tail.last(), c);
    }
}

/// What the rules say of `q`, read off the sorted rules: if position `k`
/// holds the first pattern that starts with `q`, then that pattern's rule
/// states `q` if the pattern is `q` itself, and no rule does otherwise.
pub proof fn lemma_classify(rules: Seq<Rule>, order: Seq<usize>, k: int, q: Seq<char>)
    requires
        is_stable_order(patterns_of(rules), order),
        0 <= k < order.len(),
        q.len() > 0,
        is_prefix(q, patterns_of(rules)[order[k] as int]),
        forall|j: int| 0 <= j < k ==> !is_prefix(q, patterns_of(rules)[#[trigger] order[j] as int]),
    ensures
        stated(rules, q) == if patterns_of(rules)[order[k] as int].len() == q.len() {
            if rules[order[k] as int].permits() {
                State::Allow
            } else {
                State::Disallow
            }
        } else {
            State::Intermediate
        },
{
    let keys = patterns_of(rules);
    let r = order[k] as int;
    let text = keys[r];
    assert(text == rules[r].pattern());
    assert forall|i: int| 0 <= i < rules.len() && (#[trigger] rules[i]).pattern() == q implies text
        == q && r <= i by {
        assert(keys[i] == q);
        assert(lists(order, i));
        let at = choose|at: int| 0 <= at < order.len() && #[trigger] order[at] == i;
        if at < k {
            assert(!is_prefix(q, keys[order[at] as int]));
        } else if at > k {
            assert(sorts_before(keys, order[k] as int, order[at] as int));
            lemma_prefix_not_after(q, text);
        }
    }
    if text.len() == q.len() {
        assert(text =~= q);
        assert(first_stating(rules, r, q));
        lemma_stated_by(rules, r, q);
    } else {
        lemma_stated_by_none(rules, q);
    }
}

/// The greatest length among `keys`.
pub open spec fn longest(keys: Seq<Seq<char>>) -> nat
    decreases keys.len(),
{
    if keys.len() == 0 {
        0
    } else if keys.last().len() > longest(keys.drop_last()) {
        keys.last().len()
    } else {
        longest(keys.drop_last())
    }
}

/// No key is longer than the longest.
pub proof fn lemma_longest(keys: Seq<Seq<char>>, i: int)
    requires
        0 <= i < keys.len(),
    ensures
        keys[i].len() <= longest(keys),
    decreases keys.len(),
{
    if i < keys.len() - 1 {
        lemma_longest(keys.drop_last(), i);
    }
}

/// A node that has its state and waits to be expanded: the first `len`
/// characters of pattern number `rule`.
#[derive(Clone, Copy)]
pub struct Pending {
    pub rule: usize,
    pub len: usize,
    /// Index of the sink that the node falls back on.
    pub fallback: usize,
    /// Index of the state of the node's parent.
    pub parent: usize,
}

impl Pending {
    /// The node's characters.
    pub open spec fn prefix(self, keys: Seq<Seq<char>>) -> Seq<char> {
        keys[self.rule as int].take(self.len as int)
    }

    /// The record of node number `i` is sound.
    pub open spec fn sound(self, rules: Seq<Rule>, keys: Seq<Seq<char>>, i: int) -> bool {
        &&& i == 0 ==> self.len == 0
        &&& i > 0 ==> self.rule < keys.len() && 0 < self.len <= keys[self.rule as int].len()
            && self.parent >= 2
        &&& self.fallback == fallback(rules, self.prefix(keys))
    }
}

/// The table under construction, and the nodes met so far in the order of
/// their states.
pub struct Walk {
    pub states: Vec<State>,
    pub transitions: Vec<Vec<Transition>>,
    pub queue: Vec<Pending>,
}

/// The patterns of `rules`, in their order.
pub open spec fn patterns_of(rules: Seq<Rule>) -> Seq<Seq<char>> {
    Seq::new(rules.len(), |i: int| rules[i].pattern())
}

impl Walk {
    /// The nodes met so far.
    pub open spec fn nodes(&self, keys: Seq<Seq<char>>) -> Seq<Seq<char>> {
        Seq::new(self.queue.len() as nat, |i: int| self.queue[i].prefix(keys))
    }

    /// For each node met so far, the number of its parent.
    pub open spec fn parents(&self) -> Seq<int> {
        Seq::new(self.queue.len() as nat, |i: int| self.queue[i].parent - 2)
    }

    /// The table built so far.
    pub open spec fn table(&self) -> Automaton {
        Automaton { states: self.states@, transitions: rows(self.transitions@) }
    }

    /// The walk has expanded the first `expanded` nodes, has met children
    /// of the first `frontier` only, and the table is in step with it.
    pub open spec fn inv(&self, rules: Seq<Rule>, expanded: int, frontier: int) -> bool {
        let keys = patterns_of(rules);
        &&& growing(rules, self.nodes(keys), self.parents(), expanded, frontier)
        &&& tabulates(rules, self.nodes(keys), self.table())
        &&& forall|i: int|
            0 <= i < self.queue.len() ==> (#[trigger] self.queue[i]).sound(rules, keys, i)
    }

    /// The walk before its first step: the two sinks and the root.
    fn start(Ghost(rules): Ghost<Seq<Rule>>) -> (walk: Walk)
        ensures
            walk.inv(rules, 0, 0),
            walk.queue.len() == 1,
    {
        let walk = Walk {
            states: vec![State::Allow, State::Disallow, State::Allow],
            transitions: vec![
                vec![Transition(Edge::MatchAny, ALLOW_SINK)],
                vec![Transition(Edge::MatchAny, DISALLOW_SINK)],
                vec![Transition(Edge::MatchAny, ALLOW_SINK)],
            ],
            queue: vec![Pending { rule: 0, len: 0, fallback: ALLOW_SINK, parent: 0 }],
        };
        proof {
            let keys = patterns_of(rules);
            let nodes = walk.nodes(keys);
            assert(nodes[0].len() == 0);
            lemma_child_edges_none(nodes, nodes[0]);
            lemma_child_edges_none(nodes, nodes[0].push(WILDCARD));
            assert(walk.table().transitions[2] =~= row_of(rules, nodes, 0));
            assert(walk.table().transitions[0] =~= seq![Transition(Edge::MatchAny, ALLOW_SINK)]);
            assert(walk.table().transitions[1] =~= seq![
                Transition(Edge::MatchAny, DISALLOW_SINK),
            ]);
        }
        walk
    }

    /// The child of node `head` that pattern `r` calls for.
    pub open spec fn child(&self, keys: Seq<Seq<char>>, head: int, r: int) -> Seq<char> {
        self.queue[head].prefix(keys).push(keys[r][self.queue[head].len as int])
    }

    /// Gives the child of node `head` that pattern `r` calls for a state
    /// of its own, and an edge to it wherever one is due. `class` is what
    /// the rules say of the child.
    fn add_child(
        &mut self,
        texts: &Vec<Vec<char>>,
        head: usize,
        r: usize,
        class: State,
        Ghost(rules): Ghost<Seq<Rule>>,
        Ghost(frontier): Ghost<int>,
    )
        requires
            texts_of(texts@) == patterns_of(rules),
            old(self).inv(rules, head as int, frontier),
            head < old(self).queue.len(),
            frontier <= head + 1,
            r < texts.len(),
            extends(texts[r as int]@, old(self).queue[head as int].prefix(patterns_of(rules))),
            class == stated(rules, old(self).child(patterns_of(rules), head as int, r as int)),
            precedes(
                old(self).nodes(patterns_of(rules)).last(),
                old(self).child(patterns_of(rules), head as int, r as int),
            ),
        ensures
            final(self).inv(rules, head as int, head + 1),
            final(self).queue@.len() == old(self).queue@.len() + 1,
            final(self).queue@.drop_last() == old(self).queue@,
            final(self).nodes(patterns_of(rules)) == old(self).nodes(patterns_of(rules)).push(
                old(self).child(patterns_of(rules), head as int, r as int),
            ),
    {
        let ghost keys = patterns_of(rules);
        let ghost nodes0 = self.nodes(keys);
        let ghost parents0 = self.parents();
        let ghost table0 = self.table();
        let ghost queue0 = self.queue@;
        let ghost q = self.child(keys, head as int, r as int);
        assert(texts[r as int]@ == keys[r as int]);
        assert(nodes0[head as int] == self.queue[head as int].prefix(keys));
        let node = self.queue[head];
        assert(node.sound(rules, keys, head as int));
        assert(node.len < texts[r as int].len());
        let c = texts[r][node.len];
        let fb: usize = match class {
            State::Allow => ALLOW_SINK,
            State::Disallow => if c == ANCHOR {
                node.fallback
            } else {
                DISALLOW_SINK
            },
            State::Intermediate => node.fallback,
        };
        let state = match class {
            State::Intermediate => if fb == ALLOW_SINK {
                State::Allow
            } else {
                State::Disallow
            },
            explicit => explicit,
        };
        proof {
            assert(q.drop_last() =~= nodes0[head as int]);
            assert(q.last() == c);
            assert(fallback(rules, q) == fb);
            assert(resolved(rules, q) == state);
            if head > 0 {
                assert(parents0[head as int] == node.parent - 2);
                assert(texts[node.rule as int]@ == keys[node.rule as int]);
            }
        }
        let child = self.transitions.len();
        let lead = Transition(
            Edge::MatchAny,
            if c == WILDCARD {
                child
            } else {
                fb
            },
        );
        let edge = Transition(edge_to(c), child);
        let starred = node.len > 0 && texts[node.rule][node.len - 1] == WILDCARD;
        self.states.push(state);
        let row = vec![lead];
        assert(row@ =~= seq![lead]);
        self.transitions.push(row);
        let ghost t1 = table0.transitions.push(seq![lead]);
        assert(rows(self.transitions@) =~= t1);
        if starred {
            self.transitions[node.parent].push(edge);
        }
        let ghost t2 = if starred {
            t1.update(node.parent as int, t1[node.parent as int].push(edge))
        } else {
            t1
        };
        assert(rows(self.transitions@) =~= t2);
        self.transitions[head + 2].push(edge);
        assert(rows(self.transitions@) =~= t2.update(head + 2, t2[head + 2].push(edge)));
        self.queue.push(Pending { rule: r, len: node.len + 1, fallback: fb, parent: head + 2 });
        proof {
            assert(self.queue@.drop_last() =~= queue0);
            assert(self.queue@.last().prefix(keys) =~= q);
            assert(self.nodes(keys) =~= nodes0.push(q));
            assert(self.parents() =~= parents0.push(head as int));
            let next = with_child(table0, rules, nodes0, parents0, head as int, c);
            assert(self.table().transitions =~= next.transitions);
            assert(self.table() == next);
            assert(is_node(rules, q)) by {
                assert(texts_of(texts@).len() == texts.len());
                assert(keys.len() == rules.len());
                assert(keys[r as int] == rules[r as int].pattern());
                assert(is_prefix(q, rules[r as int].pattern()));
            }
            lemma_grow_child(rules, nodes0, parents0, head as int, frontier, c);
            lemma_tabulate_child(table0, rules, nodes0, parents0, head as int, frontier, c);
        }
    }

    /// Expands node `head`: scans the sorted patterns for those that go
    /// on after it and adds one child for each next character among them,
    /// classified by the first pattern that shows it.
    fn expand(
        &mut self,
        rules: &Vec<Rule>,
        texts: &Vec<Vec<char>>,
        order: &Vec<usize>,
        head: usize,
    )
        requires
            texts_of(texts@) == patterns_of(rules@),
            is_stable_order(patterns_of(rules@), order@),
            old(self).inv(rules@, head as int, head as int),
            head < old(self).queue.len(),
        ensures
            final(self).inv(rules@, head + 1, head + 1),
            final(self).queue.len() >= old(self).queue.len(),
            forall|i: int|
                0 <= i < old(self).queue.len() ==> #[trigger] final(self).queue[i] == old(
                    self
                ).queue[i],
            forall|i: int|
                old(self).queue.len() <= i < final(self).queue.len() ==> (
                #[trigger] final(self).queue[i]).len == old(self).queue[head as int].len + 1,
    {
        let ghost keys = patterns_of(rules@);
        let ghost queue0 = self.queue@;
        let node = self.queue[head];
        let ghost p = node.prefix(keys);
        let n = order.len();
        let mut have_last = false;
        let mut last: char = WILDCARD;
        let ghost mut k0: int = 0;
        let mut k: usize = 0;
        proof {
            assert(texts_of(texts@).len() == texts.len());
            assert(keys.len() == rules@.len());
            assert(node.sound(rules@, keys, head as int));
            assert(self.nodes(keys)[head as int] == p);
        }
        while k < n
            invariant
                texts_of(texts@) == patterns_of(rules@),
                keys == patterns_of(rules@),
                is_stable_order(keys, order@),
                keys.len() == rules@.len(),
                keys.len() == texts.len(),
                n == order.len(),
                k <= n,
                head < self.queue.len(),
                self.queue[head as int] == node,
                node.sound(rules@, keys, head as int),
                p == node.prefix(keys),
                p.len() == node.len,
                self.inv(
                    rules@,
                    head as int,
                    if have_last {
                        head + 1
                    } else {
                        head as int
                    },
                ),
                queue0.len() <= self.queue.len(),
                forall|i: int| 0 <= i < queue0.len() ==> #[trigger] self.queue[i] == queue0[i],
                forall|i: int|
                    queue0.len() <= i < self.queue.len() ==> (#[trigger] self.queue[i]).len
                        == node.len + 1,
                forall|j: int|
                    0 <= j < k ==> covers(
                        rules@,
                        self.nodes(keys),
                        head as int,
                        #[trigger] order[j] as int,
                    ),
                have_last ==> 0 <= k0 < k && extends(keys[order[k0] as int], p)
                    && keys[order[k0] as int][node.len as int] == last && self.nodes(keys).last()
                    == p.push(last),
                forall|j: int|
                    0 <= j < k && extends(keys[#[trigger] order[j] as int], p) ==> have_last
                        && keys[order[j] as int][node.len as int] <= last,
            decreases n - k,
        {
            let r = order[k];
            let text = &texts[r];
            proof {
                assert(text@ == keys[r as int]);
                if node.len > 0 {
                    assert(texts[node.rule as int]@ == keys[node.rule as int]);
                }
            }
            let reaches = text.len() > node.len && (node.len == 0 || shares_prefix(
                text,
                &texts[node.rule],
                node.len,
            ));
            assert(reaches == extends(keys[r as int], p));
            let ghost nodes0 = self.nodes(keys);
            if reaches {
                let c = text[node.len];
                let ghost q = p.push(c);
                assert(is_prefix(q, keys[r as int]));
                if have_last {
                    proof {
                        assert(sorts_before(keys, order[k0] as int, order[k as int] as int));
                        lemma_next_in_order(p, keys[order[k0] as int], keys[r as int]);
                    }
                }
                if !have_last || last != c {
                    let class = if text.len() == node.len + 1 {
                        if rules[r].is_allow() {
                            State::Allow
                        } else {
                            State::Disallow
                        }
                    } else {
                        State::Intermediate
                    };
                    proof {
                        assert forall|j: int| 0 <= j < k implies !is_prefix(
                            q,
                            keys[#[trigger] order[j] as int],
                        ) by {
                            let other = keys[order[j] as int];
                            if is_prefix(q, other) {
                                assert(other[node.len as int] == q[node.len as int]);
                                assert(extends(other, p));
                            }
                        }
                        lemma_classify(rules@, order@, k as int, q);
                        if have_last {
                            lemma_siblings_in_order(p, last, c);
                        } else {
                            lemma_first_child_follows(
                                rules@,
                                nodes0,
                                self.parents(),
                                head as int,
                                c,
                            );
                        }
                    }
                    self.add_child(
                        texts,
                        head,
                        r,
                        class,
                        Ghost(rules@),
                        Ghost(
                            if have_last {
                                head + 1
                            } else {
                                head as int
                            },
                        ),
                    );
                    have_last = true;
                    last = c;
                    proof {
                        k0 = k as int;
                        assert(self.queue@.drop_last()[head as int] == self.queue[head as int]);
                        assert forall|i: int| 0 <= i < queue0.len() implies #[trigger] self.queue[i]
                            == queue0[i] by {
                            assert(self.queue@.drop_last()[i] == self.queue[i]);
                        }
                        assert forall|i: int|
                            queue0.len() <= i < self.queue.len() implies (
                        #[trigger] self.queue[i]).len == node.len + 1 by {
                            if i < self.queue.len() - 1 {
                                assert(self.queue@.drop_last()[i] == self.queue[i]);
                            } else {
                                assert(self.nodes(keys)[i] == self.queue[i].prefix(keys));
                                assert(nodes0.push(q)[i] == q);
                                assert(self.queue[i].sound(rules@, keys, i));
                            }
                        }
                        assert forall|j: int| 0 <= j < k implies covers(
                            rules@,
                            self.nodes(keys),
                            head as int,
                            #[trigger] order[j] as int,
                        ) by {
                            let other = rules@[order[j] as int].pattern();
                            assert(covers(rules@, nodes0, head as int, order[j] as int));
                            if extends(other, nodes0[head as int]) {
                                let w = choose|w: int|
                                    0 <= w < nodes0.len() && (#[trigger] nodes0[w]).len()
                                        == nodes0[head as int].len() + 1 && is_prefix(
                                        nodes0[w],
                                        other,
                                    );
                                assert(self.nodes(keys)[w] == nodes0[w]);
                            }
                        }
                    }
                }
                proof {
                    let nodes1 = self.nodes(keys);
                    assert(nodes1[nodes1.len() - 1] == q);
                    assert(keys[r as int] == rules@[r as int].pattern());
                    assert(covers(rules@, nodes1, head as int, r as int));
                }
            }
            k = k + 1;
        }
        proof {
            let nodes = self.nodes(keys);
            assert forall|j: int, r: int|
                0 <= j < head + 1 && 0 <= r < rules@.len() implies #[trigger] covers(
                rules@,
                nodes,
                j,
                r,
            ) by {
                if j == head {
                    assert(lists(order@, r));
                    let at = choose|at: int| 0 <= at < order@.len() && #[trigger] order@[at] == r;
                    assert(covers(rules@, nodes, head as int, order[at] as int));
                }
            }
        }
    }
}

/// The kind of edge that leads to a child whose last character is `c`.
fn edge_to(c: char) -> (edge: Edge)
    ensures
        edge == edge_for(c),
{
    if c == WILDCARD {
        Edge::MatchAny
    } else if c == ANCHOR {
        Edge::MatchEow
    } else {
        Edge::MatchChar(c)
    }
}

/// The patterns of `rules`, character by character.
fn gather(rules: &Vec<Rule>) -> (texts: Vec<Vec<char>>)
    ensures
        texts_of(texts@) == patterns_of(rules@),
{
    let mut texts: Vec<Vec<char>> = Vec::new();
    let n = rules.len();
    let mut i: usize = 0;
    while i < n
        invariant
            n == rules.len(),
            i <= n,
            texts.len() == i,
            forall|j: int| 0 <= j < i ==> (#[trigger] texts[j])@ == rules[j].pattern(),
        decreases n - i,
    {
        texts.push(rules[i].chars());
        i = i + 1;
    }
    assert(texts_of(texts@) =~= patterns_of(rules@));
    texts
}

/// Builds the table of `rules`: its classifications and its edge lists.
pub fn build(rules: &Vec<Rule>) -> (table: (Vec<State>, Vec<Vec<Transition>>))
    ensures
        (Automaton { states: table.0@, transitions: rows(table.1@) }).wf(),
        compiled_from(rules@, Automaton { states: table.0@, transitions: rows(table.1@) }),
{
    let texts = gather(rules);
    let order = stable_order(&texts);
    let mut walk = Walk::start(Ghost(rules@));
    let ghost keys = patterns_of(rules@);
    let ghost mut level: int = 0;
    let mut head: usize = 0;
    while head < walk.queue.len()
        invariant
            texts_of(texts@) == patterns_of(rules@),
            keys == patterns_of(rules@),
            is_stable_order(keys, order@),
            walk.inv(rules@, head as int, head as int),
            head <= walk.queue.len(),
            0 <= level,
            forall|i: int| head <= i < walk.queue.len() ==> (#[trigger] walk.queue[i]).len == level,
        decreases longest(keys) + 1 - level,
    {
        let end = walk.queue.len();
        proof {
            let first = walk.queue[head as int];
            assert(first.sound(rules@, keys, head as int));
            if head > 0 {
                lemma_longest(keys, first.rule as int);
            }
        }
        while head < end
            invariant
                texts_of(texts@) == patterns_of(rules@),
                keys == patterns_of(rules@),
                is_stable_order(keys, order@),
                walk.inv(rules@, head as int, head as int),
                head <= end <= walk.queue.len(),
                forall|i: int| head <= i < end ==> (#[trigger] walk.queue[i]).len == level,
                forall|i: int|
                    end <= i < walk.queue.len() ==> (#[trigger] walk.queue[i]).len == level + 1,
            decreases end - head,
        {
            walk.expand(rules, &texts, &order, head);
            head = head + 1;
        }
        proof {
            level = level + 1;
        }
    }
    proof {
        let nodes = walk.nodes(keys);
        lemma_walk_complete(rules@, nodes, walk.parents());
        assert(nodes.len() + 2 == walk.states.len());
        lemma_tabulated_wf(rules@, nodes, walk.table());
        assert(describes(rules@, nodes, walk.table()));
    }
    (walk.states, walk.transitions)
}

} // verus!
