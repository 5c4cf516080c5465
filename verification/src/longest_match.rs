//! What a compiled table decides: on every path that does not run along a
//! wildcard, the longest rule that matches the path has the say.

use vstd::prelude::*;
use crate::automaton::{
    latest_admitting, latest_of_kind, lemma_latest_admitting, lemma_latest_of_kind, Automaton,
    Edge, State, Transition, ALLOW_SINK, DISALLOW_SINK, START,
};
use crate::order::is_prefix;
use crate::rule::Rule;
use crate::trie::{
    child_edges, compiled_from, describes, edge_for, fallback, first_stating, is_node,
    lemma_child_edges_complete, lemma_child_edges_none, lemma_child_edges_shape,
    lemma_fallback_is_sink, lemma_first_exists, lemma_place_of, lemma_root_first,
    lemma_stated_by, lemma_stated_by_none, place_of, resolved, row_of, state_of, stated, ANCHOR,
    WILDCARD,
};

verus! {

/// `q` holds neither the wildcard nor the anchor.
pub open spec fn plain(q: Seq<char>) -> bool {
    forall|k: int| 0 <= k < q.len() ==> #[trigger] q[k] != WILDCARD && q[k] != ANCHOR
}

/// Whether `pattern` matches `path` without the help of a wildcard: a plain
/// pattern matches every path that starts with it, and a plain pattern
/// followed by the anchor matches the one path that it spells out. The
/// empty pattern matches nothing, and neither does a pattern that holds a
/// wildcard, or an anchor anywhere but at its end.
pub open spec fn applies(pattern: Seq<char>, path: Seq<char>) -> bool {
    pattern.len() > 0 && if plain(pattern) {
        is_prefix(pattern, path)
    } else {
        pattern.last() == ANCHOR && plain(path) && pattern.drop_last() == path
    }
}

/// Rule `i` comes before rule `j` where both have a claim: its pattern is
/// the longer one, or they are of one length and `i` is not the later rule.
pub open spec fn outranks(rules: Seq<Rule>, i: int, j: int) -> bool {
    let mine = rules[i].pattern().len();
    let other = rules[j].pattern().len();
    other < mine || (other == mine && i <= j)
}

/// Rule `i` has the say on `path`: it matches, no matching rule is longer,
/// and of the matching rules with the same pattern it is the first.
pub open spec fn governs(rules: Seq<Rule>, i: int, path: Seq<char>) -> bool {
    &&& 0 <= i < rules.len()
    &&& applies(rules[i].pattern(), path)
    &&& forall|j: int|
        0 <= j < rules.len() && applies((#[trigger] rules[j]).pattern(), path) ==> outranks(
            rules,
            i,
            j,
        )
}

/// No initial part of `path` is followed by a wildcard in any pattern: the
/// path does not run along a wildcard.
pub open spec fn clear_of_wildcards(rules: Seq<Rule>, path: Seq<char>) -> bool {
    forall|k: int| 0 <= k <= path.len() ==> !is_node(rules, #[trigger] path.take(k).push(WILDCARD))
}

/// No pattern of `rules` holds a wildcard.
pub open spec fn wildcard_free(rules: Seq<Rule>) -> bool {
    forall|i: int| 0 <= i < rules.len() ==> !(#[trigger] rules[i]).pattern().contains(WILDCARD)
}

/// The pattern is not empty and `v` starts with it.
pub open spec fn leads(pattern: Seq<char>, v: Seq<char>) -> bool {
    pattern.len() > 0 && is_prefix(pattern, v)
}

/// Among the rules with whose pattern `v` starts, rule `i` is the longest,
/// and the first of those with its pattern.
pub open spec fn leads_best(rules: Seq<Rule>, i: int, v: Seq<char>) -> bool {
    &&& 0 <= i < rules.len()
    &&& leads(rules[i].pattern(), v)
    &&& forall|j: int|
        0 <= j < rules.len() && leads((#[trigger] rules[j]).pattern(), v) ==> outranks(rules, i, j)
}

/// An initial part of a plain sequence is plain.
pub proof fn lemma_plain_prefix(u: Seq<char>, w: Seq<char>)
    requires
        plain(w),
        is_prefix(u, w),
    ensures
        plain(u),
{
    assert forall|k: int| 0 <= k < u.len() implies #[trigger] u[k] != WILDCARD && u[k]
        != ANCHOR by {
        assert(u[k] == w[k]);
    }
}

/// The fallback of a plain sequence is the sink of the longest rule with
/// whose pattern it starts, and the allow sink if there is no such rule.
pub proof fn lemma_fallback_by_longest_prefix(rules: Seq<Rule>, v: Seq<char>)
    requires
        plain(v),
    ensures
        forall|i: int| #[trigger]
            leads_best(rules, i, v) ==> (fallback(rules, v) == ALLOW_SINK <==> rules[i].permits()),
        (forall|j: int| 0 <= j < rules.len() ==> !leads((#[trigger] rules[j]).pattern(), v))
            ==> fallback(rules, v) == ALLOW_SINK,
    decreases v.len(),
{
    lemma_fallback_is_sink(rules, v);
    if v.len() > 0 {
        let up = v.drop_last();
        assert(is_prefix(up, v));
        lemma_plain_prefix(up, v);
        lemma_fallback_by_longest_prefix(rules, up);
        assert(v[v.len() - 1] != ANCHOR);
        if exists|i: int| first_stating(rules, i, v) {
            let i0 = choose|i: int| first_stating(rules, i, v);
            lemma_stated_by(rules, i0, v);
            assert(leads(rules[i0].pattern(), v));
            assert forall|i: int| #[trigger] leads_best(rules, i, v) implies i == i0 by {
                assert(rules[i].pattern() =~= v);
            }
        } else {
            assert forall|j: int| 0 <= j < rules.len() implies (#[trigger] rules[j]).pattern()
                != v by {
                if rules[j].pattern() == v {
                    lemma_first_exists(rules, j, v);
                }
            }
            lemma_stated_by_none(rules, v);
            assert forall|j: int| 0 <= j < rules.len() implies leads(
                (#[trigger] rules[j]).pattern(),
                v,
            ) == leads(rules[j].pattern(), up) by {
                let t = rules[j].pattern();
                if leads(t, v) {
                    if t.len() == v.len() {
                        assert(t =~= v);
                    }
                }
            }
            assert forall|i: int| #[trigger] leads_best(rules, i, v) implies leads_best(
                rules,
                i,
                up,
            ) by {}
        }
    }
}

/// `w` is a node that a path can walk to: it holds no wildcard and no
/// anchor.
pub open spec fn on_tree(rules: Seq<Rule>, w: Seq<char>) -> bool {
    is_node(rules, w) && plain(w)
}

/// The longest initial part of `w` that is on the tree.
pub open spec fn deepest(rules: Seq<Rule>, w: Seq<char>) -> Seq<char>
    decreases w.len(),
{
    if on_tree(rules, w) || w.len() == 0 {
        w
    } else {
        deepest(rules, w.drop_last())
    }
}

/// An initial part of a node is a node.
pub proof fn lemma_node_prefix(rules: Seq<Rule>, u: Seq<char>, w: Seq<char>)
    requires
        is_node(rules, w),
        is_prefix(u, w),
    ensures
        is_node(rules, u),
{
    if u.len() > 0 {
        let r = choose|r: int| 0 <= r < rules.len() && is_prefix(w, #[trigger] rules[r].pattern());
        assert(is_prefix(u, rules[r].pattern()));
    }
}

/// [`deepest`] is on the tree, is an initial part of `w`, and every initial
/// part of `w` on the tree is an initial part of it.
pub proof fn lemma_deepest(rules: Seq<Rule>, w: Seq<char>)
    ensures
        on_tree(rules, deepest(rules, w)),
        is_prefix(deepest(rules, w), w),
        forall|u: Seq<char>|
            on_tree(rules, u) && #[trigger] is_prefix(u, w) ==> is_prefix(u, deepest(rules, w)),
    decreases w.len(),
{
    if !on_tree(rules, w) && w.len() > 0 {
        let up = w.drop_last();
        lemma_deepest(rules, up);
        assert forall|u: Seq<char>|
            on_tree(rules, u) && #[trigger] is_prefix(u, w) implies is_prefix(
            u,
            deepest(rules, w),
        ) by {
            if u.len() == w.len() {
                assert(u =~= w);
            }
            assert(is_prefix(u, up));
        }
    }
}

/// The edges of a node without a wildcard child are its leading edge to
/// its fallback sink and then one edge to each child, none of them a
/// match-any edge.
pub proof fn lemma_row_on_tree(rules: Seq<Rule>, nodes: Seq<Seq<char>>, dfa: Automaton, i: int)
    requires
        describes(rules, nodes, dfa),
        dfa.wf(),
        0 <= i < nodes.len(),
        plain(nodes[i]),
        !is_node(rules, nodes[i].push(WILDCARD)),
    ensures
        state_of(i) == i + 2,
        dfa.transitions[i + 2] == seq![Transition(Edge::MatchAny, fallback(rules, nodes[i]))]
            + child_edges(nodes, nodes[i]),
        forall|e: int|
            1 <= e < dfa.transitions[i + 2].len() ==> exists|k: int|
                0 <= k < nodes.len() && (#[trigger] dfa.transitions[i + 2][e]).1 == state_of(k) && (
                #[trigger] nodes[k]).len() > 0 && nodes[k].drop_last() == nodes[i]
                    && dfa.transitions[i + 2][e].0 == edge_for(nodes[k].last()) && nodes[k].last()
                    != WILDCARD,
{
    let v = nodes[i];
    let row = dfa.transitions[i + 2];
    let own = child_edges(nodes, v);
    assert(row == row_of(rules, nodes, i));
    assert forall|k: int| 0 <= k < nodes.len() implies !((#[trigger] nodes[k]).len() > 0
        && nodes[k].drop_last() == v.push(WILDCARD)) by {
        if nodes[k].len() > 0 && nodes[k].drop_last() == v.push(WILDCARD) {
            assert(is_prefix(nodes[k].drop_last(), nodes[k]));
            lemma_node_prefix(rules, v.push(WILDCARD), nodes[k]);
        }
    }
    lemma_child_edges_none(nodes, v.push(WILDCARD));
    if v.len() > 0 {
        assert(v[v.len() - 1] != WILDCARD);
    }
    assert(row =~= seq![Transition(Edge::MatchAny, fallback(rules, v))] + own);
    lemma_child_edges_shape(nodes, v);
    assert forall|e: int| 1 <= e < row.len() implies exists|k: int|
        0 <= k < nodes.len() && (#[trigger] row[e]).1 == state_of(k) && (#[trigger] nodes[k]).len()
            > 0 && nodes[k].drop_last() == v && row[e].0 == edge_for(nodes[k].last())
            && nodes[k].last() != WILDCARD by {
        assert(row[e] == own[e - 1]);
        let t = own[e - 1];
        let k = choose|k: int|
            0 <= k < nodes.len() && t.1 == state_of(k) && (#[trigger] nodes[k]).len() > 0
                && nodes[k].drop_last() == v && t.0 == edge_for(nodes[k].last());
        if nodes[k].last() == WILDCARD {
            assert(nodes[k] =~= v.push(WILDCARD));
        }
    }
}

/// A step from a node without a wildcard child leads to the child for the
/// character read if there is one on the tree, and to the node's fallback
/// sink if there is none.
pub proof fn lemma_step_on_tree(
    rules: Seq<Rule>,
    nodes: Seq<Seq<char>>,
    dfa: Automaton,
    i: int,
    c: char,
)
    requires
        describes(rules, nodes, dfa),
        dfa.wf(),
        0 <= i < nodes.len(),
        plain(nodes[i]),
        !is_node(rules, nodes[i].push(WILDCARD)),
    ensures
        dfa.step(state_of(i), c) == if on_tree(rules, nodes[i].push(c)) {
            state_of(place_of(nodes, nodes[i].push(c)))
        } else {
            fallback(rules, nodes[i])
        },
{
    let v = nodes[i];
    let w = v.push(c);
    let row = dfa.transitions[i + 2];
    let own = child_edges(nodes, v);
    lemma_row_on_tree(rules, nodes, dfa, i);
    lemma_latest_admitting(row, c, row.len() as int);
    assert(row[0].0.admits(c));
    let t = latest_admitting(row, c, row.len() as int)->0;
    let e = choose|e: int|
        0 <= e < row.len() && row[e].0.admits(c) && row[e].1 == t && forall|j: int|
            e < j < row.len() ==> !(#[trigger] row[j]).0.admits(c);
    if e >= 1 {
        let k = choose|k: int|
            0 <= k < nodes.len() && row[e].1 == state_of(k) && (#[trigger] nodes[k]).len() > 0
                && nodes[k].drop_last() == v && row[e].0 == edge_for(nodes[k].last())
                && nodes[k].last() != WILDCARD;
        assert(nodes[k] =~= w);
        lemma_place_of(rules, nodes, k);
        assert(forall|x: int| 0 <= x < w.len() ==> w[x] == if x < v.len() { v[x] } else { c });
        assert(on_tree(rules, w));
    } else {
        if on_tree(rules, w) {
            let j = place_of(nodes, w);
            assert(nodes.contains(w));
            assert(w.drop_last() =~= v);
            lemma_child_edges_complete(nodes, v, j);
            let f = choose|f: int|
                0 <= f < own.len() && #[trigger] own[f] == Transition(
                    edge_for(nodes[j].last()),
                    state_of(j),
                );
            assert(w[w.len() - 1] == c);
            assert(row[f + 1] == own[f]);
            assert(row[f + 1].0.admits(c));
            assert(false);
        }
    }
}

/// A path that ends in a node without a wildcard child comes to rest in
/// the node's anchored child if it has one, and in the node's fallback
/// sink if it has none.
pub proof fn lemma_settle_on_tree(rules: Seq<Rule>, nodes: Seq<Seq<char>>, dfa: Automaton, i: int)
    requires
        describes(rules, nodes, dfa),
        dfa.wf(),
        0 <= i < nodes.len(),
        plain(nodes[i]),
        !is_node(rules, nodes[i].push(WILDCARD)),
    ensures
        dfa.settle(state_of(i)) == if is_node(rules, nodes[i].push(ANCHOR)) {
            state_of(place_of(nodes, nodes[i].push(ANCHOR)))
        } else {
            fallback(rules, nodes[i])
        },
{
    let v = nodes[i];
    let w = v.push(ANCHOR);
    let row = dfa.transitions[i + 2];
    let own = child_edges(nodes, v);
    lemma_row_on_tree(rules, nodes, dfa, i);
    lemma_latest_of_kind(row, Edge::MatchEow, row.len() as int);
    lemma_latest_of_kind(row, Edge::MatchAny, row.len() as int);
    match latest_of_kind(row, Edge::MatchEow, row.len() as int) {
        Some(t) => {
            let e = choose|e: int|
                0 <= e < row.len() && row[e].0 == Edge::MatchEow && row[e].1 == t && forall|j: int|
                    e < j < row.len() ==> (#[trigger] row[j]).0 != Edge::MatchEow;
            let k = choose|k: int|
                0 <= k < nodes.len() && row[e].1 == state_of(k) && (#[trigger] nodes[k]).len() > 0
                    && nodes[k].drop_last() == v && row[e].0 == edge_for(nodes[k].last())
                    && nodes[k].last() != WILDCARD;
            assert(nodes[k] =~= w);
            lemma_place_of(rules, nodes, k);
        },
        None => {
            if is_node(rules, w) {
                let j = place_of(nodes, w);
                assert(nodes.contains(w));
                assert(w.drop_last() =~= v);
                lemma_child_edges_complete(nodes, v, j);
                let f = choose|f: int|
                    0 <= f < own.len() && #[trigger] own[f] == Transition(
                        edge_for(nodes[j].last()),
                        state_of(j),
                    );
                assert(w[w.len() - 1] == ANCHOR);
                assert(row[f + 1] == own[f]);
                assert(false);
            }
            let t = latest_of_kind(row, Edge::MatchAny, row.len() as int)->0;
            let e = choose|e: int|
                0 <= e < row.len() && row[e].0 == Edge::MatchAny && row[e].1 == t && forall|j: int|
                    e < j < row.len() ==> (#[trigger] row[j]).0 != Edge::MatchAny;
            if e >= 1 {
                let k = choose|k: int|
                    0 <= k < nodes.len() && row[e].1 == state_of(k) && (#[trigger] nodes[k]).len()
                        > 0 && nodes[k].drop_last() == v && row[e].0 == edge_for(nodes[k].last())
                        && nodes[k].last() != WILDCARD;
                assert(false);
            }
        },
    }
}

/// A sink is never left.
pub proof fn lemma_sink_stays(dfa: Automaton, s: usize, c: char)
    requires
        dfa.wf(),
        s == ALLOW_SINK || s == DISALLOW_SINK,
    ensures
        dfa.step(s, c) == s,
        dfa.settle(s) == s,
{
    let row = dfa.transitions[s as int];
    assert(row.len() == 1);
    assert(latest_admitting(row, c, 0) === None);
    assert(latest_of_kind(row, Edge::MatchEow, 0) === None);
    assert(latest_of_kind(row, Edge::MatchAny, 0) === None);
}

/// A path that does not run along a wildcard walks down the tree for as
/// long as its characters lead on, and from where they cease to it is in
/// the fallback sink of the last node it reached.
pub proof fn lemma_walk(rules: Seq<Rule>, nodes: Seq<Seq<char>>, dfa: Automaton, w: Seq<char>)
    requires
        describes(rules, nodes, dfa),
        dfa.wf(),
        clear_of_wildcards(rules, w),
    ensures
        dfa.run(START, w) == if on_tree(rules, w) {
            state_of(place_of(nodes, w))
        } else {
            fallback(rules, deepest(rules, w))
        },
    decreases w.len(),
{
    lemma_root_first(rules, nodes);
    if w.len() == 0 {
        assert(w =~= nodes[0]);
        lemma_place_of(rules, nodes, 0);
    } else {
        let v = w.drop_last();
        let c = w.last();
        assert(v.push(c) =~= w);
        assert(clear_of_wildcards(rules, v)) by {
            assert forall|k: int| 0 <= k <= v.len() implies !is_node(
                rules,
                #[trigger] v.take(k).push(WILDCARD),
            ) by {
                assert(v.take(k) =~= w.take(k));
                assert(!is_node(rules, w.take(k).push(WILDCARD)));
            }
        }
        lemma_walk(rules, nodes, dfa, v);
        assert(dfa.run(START, w) == dfa.step(dfa.run(START, v), c));
        if on_tree(rules, v) {
            assert(nodes.contains(v));
            let i = place_of(nodes, v);
            assert(w.take(v.len() as int) =~= v);
            assert(!is_node(rules, w.take(v.len() as int).push(WILDCARD)));
            lemma_step_on_tree(rules, nodes, dfa, i, c);
            assert(deepest(rules, v) == v);
        } else {
            lemma_fallback_is_sink(rules, deepest(rules, v));
            lemma_sink_stays(dfa, fallback(rules, deepest(rules, v)), c);
            if on_tree(rules, w) {
                assert(is_prefix(v, w));
                lemma_node_prefix(rules, v, w);
                lemma_plain_prefix(v, w);
            }
        }
        if !on_tree(rules, w) {
            assert(deepest(rules, w) == deepest(rules, v));
        }
    }
}

/// What the table decides on a path that does not run along a wildcard:
/// if the path is plain and a rule spells it out with an anchor, the first
/// such rule decides; otherwise the fallback sink of the deepest node that
/// the path reaches.
pub open spec fn decision(rules: Seq<Rule>, path: Seq<char>) -> bool {
    if plain(path) && stated(rules, path.push(ANCHOR)) != State::Intermediate {
        stated(rules, path.push(ANCHOR)) == State::Allow
    } else {
        fallback(rules, deepest(rules, path)) == ALLOW_SINK
    }
}

/// On a path that does not run along a wildcard the table decides as
/// [`decision`] says.
pub proof fn lemma_verdict_on_clear_path(
    rules: Seq<Rule>,
    nodes: Seq<Seq<char>>,
    dfa: Automaton,
    path: Seq<char>,
)
    requires
        describes(rules, nodes, dfa),
        dfa.wf(),
        clear_of_wildcards(rules, path),
    ensures
        dfa.accepts(path) == decision(rules, path),
{
    let d = deepest(rules, path);
    let w = path.push(ANCHOR);
    lemma_walk(rules, nodes, dfa, path);
    lemma_fallback_is_sink(rules, d);
    if stated(rules, w) != State::Intermediate {
        let r = choose|r: int| first_stating(rules, r, w);
        assert(is_prefix(w, rules[r].pattern()));
        assert(is_node(rules, w));
        assert(is_prefix(path, w));
        lemma_node_prefix(rules, path, w);
    }
    if on_tree(rules, path) {
        assert(nodes.contains(path));
        let i = place_of(nodes, path);
        assert(path.take(path.len() as int) =~= path);
        assert(!is_node(rules, path.take(path.len() as int).push(WILDCARD)));
        lemma_settle_on_tree(rules, nodes, dfa, i);
        if is_node(rules, w) {
            assert(nodes.contains(w));
            let m = place_of(nodes, w);
            assert(dfa.states[m + 2] == resolved(rules, nodes[m]));
            assert(w.drop_last() =~= path);
            assert(w.last() == ANCHOR);
            lemma_fallback_is_sink(rules, w);
            if stated(rules, w) == State::Intermediate {
                assert(fallback(rules, w) == fallback(rules, path));
            }
        } else {
            assert(stated(rules, w) == State::Intermediate);
        }
    } else {
        lemma_sink_stays(dfa, fallback(rules, d), ANCHOR);
    }
}

/// The longest-match law. On a path that does not run along a wildcard,
/// the verdict of a compiled table is that of the longest rule that matches
/// the path; where several rules share that pattern, that of the first of
/// them. The order of the rules matters in no other way.
pub proof fn lemma_longest_match_decides(
    rules: Seq<Rule>,
    dfa: Automaton,
    path: Seq<char>,
    i: int,
)
    requires
        compiled_from(rules, dfa),
        dfa.wf(),
        clear_of_wildcards(rules, path),
        governs(rules, i, path),
    ensures
        dfa.accepts(path) == rules[i].permits(),
{
    let nodes = choose|nodes: Seq<Seq<char>>| describes(rules, nodes, dfa);
    let best = rules[i].pattern();
    lemma_verdict_on_clear_path(rules, nodes, dfa, path);
    if plain(best) {
        if plain(path) && stated(rules, path.push(ANCHOR)) != State::Intermediate {
            let r = choose|r: int| first_stating(rules, r, path.push(ANCHOR));
            let other = rules[r].pattern();
            assert(other.drop_last() =~= path);
            assert(other[other.len() - 1] == ANCHOR);
            assert(applies(other, path));
            assert(false);
        }
        let d = deepest(rules, path);
        lemma_deepest(rules, path);
        assert(is_prefix(best, best));
        assert(on_tree(rules, best));
        assert(is_prefix(best, d));
        assert forall|j: int| 0 <= j < rules.len() && leads(
            (#[trigger] rules[j]).pattern(),
            d,
        ) implies applies(rules[j].pattern(), path) by {
            lemma_plain_prefix(rules[j].pattern(), d);
            assert(is_prefix(rules[j].pattern(), path));
        }
        assert(leads_best(rules, i, d));
        lemma_fallback_by_longest_prefix(rules, d);
    } else {
        assert(best =~= path.push(ANCHOR));
        assert(first_stating(rules, i, best)) by {
            assert forall|j: int| 0 <= j < i implies (#[trigger] rules[j]).pattern() != best by {
                if rules[j].pattern() == best {
                    assert(applies(rules[j].pattern(), path));
                }
            }
        }
        lemma_stated_by(rules, i, best);
    }
}

/// On a path that does not run along a wildcard and that no rule matches,
/// the verdict of a compiled table is to allow.
pub proof fn lemma_unmatched_path_allowed(rules: Seq<Rule>, dfa: Automaton, path: Seq<char>)
    requires
        compiled_from(rules, dfa),
        dfa.wf(),
        clear_of_wildcards(rules, path),
        forall|j: int| 0 <= j < rules.len() ==> !applies((#[trigger] rules[j]).pattern(), path),
    ensures
        dfa.accepts(path),
{
    let nodes = choose|nodes: Seq<Seq<char>>| describes(rules, nodes, dfa);
    lemma_verdict_on_clear_path(rules, nodes, dfa, path);
    if plain(path) && stated(rules, path.push(ANCHOR)) != State::Intermediate {
        let r = choose|r: int| first_stating(rules, r, path.push(ANCHOR));
        let other = rules[r].pattern();
        assert(other.drop_last() =~= path);
        assert(other[other.len() - 1] == ANCHOR);
        assert(applies(other, path));
        assert(false);
    }
    let d = deepest(rules, path);
    lemma_deepest(rules, path);
    assert forall|j: int| 0 <= j < rules.len() implies !leads(
        (#[trigger] rules[j]).pattern(),
        d,
    ) by {
        if leads(rules[j].pattern(), d) {
            lemma_plain_prefix(rules[j].pattern(), d);
            assert(is_prefix(rules[j].pattern(), path));
            assert(applies(rules[j].pattern(), path));
        }
    }
    lemma_fallback_by_longest_prefix(rules, d);
}

/// Where no pattern holds a wildcard, no path runs along one: the two laws
/// above then hold of every path.
pub proof fn lemma_wildcard_free_is_clear(rules: Seq<Rule>, path: Seq<char>)
    requires
        wildcard_free(rules),
    ensures
        clear_of_wildcards(rules, path),
{
    assert forall|k: int| 0 <= k <= path.len() implies !is_node(
        rules,
        #[trigger] path.take(k).push(WILDCARD),
    ) by {
        let q = path.take(k).push(WILDCARD);
        if is_node(rules, q) {
            let r = choose|r: int|
                0 <= r < rules.len() && is_prefix(q, #[trigger] rules[r].pattern());
            assert(rules[r].pattern()[k] == q[k]);
            assert(rules[r].pattern().contains(WILDCARD));
        }
    }
}

} // verus!
