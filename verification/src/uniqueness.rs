//! The rules determine their table: there is one layout and one table for
//! it, and the order in which the rules are given matters only between
//! rules that share a pattern.

use vstd::prelude::*;
use crate::automaton::Automaton;
use crate::order::{is_prefix, lemma_precedes_distinct, precedes};
use crate::rule::Rule;
use crate::trie::{
    compiled_from, describes, fallback, first_stating, is_layout, is_node, leading_edge,
    lemma_first_exists, lemma_stated_by, resolved, row_of, stated,
};

verus! {

/// Two layouts of one list of rules agree wherever both are defined.
pub proof fn lemma_layouts_agree(rules: Seq<Rule>, a: Seq<Seq<char>>, b: Seq<Seq<char>>, i: int)
    requires
        is_layout(rules, a),
        is_layout(rules, b),
        0 <= i < a.len(),
        i < b.len(),
    ensures
        a[i] == b[i],
    decreases i,
{
    assert forall|k: int| 0 <= k < i implies a[k] == b[k] by {
        lemma_layouts_agree(rules, a, b, k);
    }
    assert(is_node(rules, a[i]));
    assert(b.contains(a[i]));
    let j = choose|j: int| 0 <= j < b.len() && b[j] == a[i];
    assert(is_node(rules, b[i]));
    assert(a.contains(b[i]));
    let k = choose|k: int| 0 <= k < a.len() && a[k] == b[i];
    if j < i {
        lemma_precedes_distinct(a[j], a[i]);
    } else if k < i {
        lemma_precedes_distinct(b[k], b[i]);
    } else if j > i && k > i {
        lemma_precedes_distinct(b[i], b[j]);
        assert(precedes(a[i], a[k]));
    }
}

/// A list of rules has one layout.
pub proof fn lemma_layout_unique(rules: Seq<Rule>, a: Seq<Seq<char>>, b: Seq<Seq<char>>)
    requires
        is_layout(rules, a),
        is_layout(rules, b),
    ensures
        a == b,
{
    if a.len() < b.len() {
        lemma_one_layout_no_longer(rules, a, b);
    } else if b.len() < a.len() {
        lemma_one_layout_no_longer(rules, b, a);
    }
    assert forall|i: int| 0 <= i < a.len() implies a[i] == b[i] by {
        lemma_layouts_agree(rules, a, b, i);
    }
    assert(a =~= b);
}

/// Of two layouts of one list of rules, neither lists more nodes.
pub proof fn lemma_one_layout_no_longer(rules: Seq<Rule>, a: Seq<Seq<char>>, b: Seq<Seq<char>>)
    requires
        is_layout(rules, a),
        is_layout(rules, b),
    ensures
        b.len() <= a.len(),
{
    if a.len() < b.len() {
        let extra = b[a.len() as int];
        assert(is_node(rules, extra));
        assert(a.contains(extra));
        let j = choose|j: int| 0 <= j < a.len() && a[j] == extra;
        lemma_layouts_agree(rules, a, b, j);
        lemma_precedes_distinct(b[j], b[a.len() as int]);
    }
}

/// Compilation is a function of the rules: two tables compiled from one
/// list of rules are the same.
pub proof fn lemma_compiled_unique(rules: Seq<Rule>, a: Automaton, b: Automaton)
    requires
        compiled_from(rules, a),
        compiled_from(rules, b),
    ensures
        a == b,
{
    let na = choose|nodes: Seq<Seq<char>>| describes(rules, nodes, a);
    let nb = choose|nodes: Seq<Seq<char>>| describes(rules, nodes, b);
    lemma_layout_unique(rules, na, nb);
    assert forall|s: int| 0 <= s < a.states.len() implies a.states[s] == b.states[s] by {
        if s >= 2 {
            assert(a.states[(s - 2) + 2] == resolved(rules, na[s - 2]));
        }
    }
    assert forall|s: int| 0 <= s < a.transitions.len() implies a.transitions[s]
        == b.transitions[s] by {
        if s >= 2 {
            assert(a.transitions[(s - 2) + 2] == row_of(rules, na, s - 2));
        }
    }
    assert(a.states =~= b.states);
    assert(a.transitions =~= b.transitions);
}

/// For each pattern, the first rule of `a` that has it and the first rule of
/// `b` that has it say the same.
pub open spec fn same_say(a: Seq<Rule>, b: Seq<Rule>) -> bool {
    forall|i: int, j: int|
        0 <= i < a.len() && 0 <= j < b.len() && first_stating(a, i, (#[trigger] a[i]).pattern())
            && first_stating(b, j, (#[trigger] b[j]).pattern()) && a[i].pattern() == b[j].pattern()
            ==> a[i].permits() == b[j].permits()
}

/// No two rules with one pattern disagree.
pub open spec fn consistent(rules: Seq<Rule>) -> bool {
    forall|i: int, j: int|
        0 <= i < rules.len() && 0 <= j < rules.len() && (#[trigger] rules[i]).pattern() == (
        #[trigger] rules[j]).pattern() ==> rules[i].permits() == rules[j].permits()
}

/// Two lists hold the same rules.
pub proof fn lemma_same_rules(a: Seq<Rule>, b: Seq<Rule>)
    requires
        a.to_multiset() == b.to_multiset(),
    ensures
        forall|i: int| 0 <= i < a.len() ==> b.contains(#[trigger] a[i]),
        forall|j: int| 0 <= j < b.len() ==> a.contains(#[trigger] b[j]),
{
    a.to_multiset_ensures();
    b.to_multiset_ensures();
    assert forall|i: int| 0 <= i < a.len() implies b.contains(#[trigger] a[i]) by {
        assert(a.contains(a[i]));
        assert(a.to_multiset().count(a[i]) > 0);
        assert(b.to_multiset().count(a[i]) > 0);
    }
    assert forall|j: int| 0 <= j < b.len() implies a.contains(#[trigger] b[j]) by {
        assert(b.contains(b[j]));
        assert(b.to_multiset().count(b[j]) > 0);
        assert(a.to_multiset().count(b[j]) > 0);
    }
}

/// Consistent rules say the same in whatever order they are given.
pub proof fn lemma_consistent_same_say(a: Seq<Rule>, b: Seq<Rule>)
    requires
        a.to_multiset() == b.to_multiset(),
        consistent(a),
    ensures
        same_say(a, b),
{
    lemma_same_rules(a, b);
    assert forall|i: int, j: int|
        0 <= i < a.len() && 0 <= j < b.len() && first_stating(a, i, (#[trigger] a[i]).pattern())
            && first_stating(b, j, (#[trigger] b[j]).pattern()) && a[i].pattern()
            == b[j].pattern() implies a[i].permits() == b[j].permits() by {
        assert(a.contains(b[j]));
        let k = choose|k: int| 0 <= k < a.len() && a[k] == b[j];
        assert(a[k].pattern() == a[i].pattern());
    }
}

/// What the rules say of a sequence, and which sequences are nodes, does
/// not depend on the order of the rules.
pub proof fn lemma_stated_regardless_of_order(a: Seq<Rule>, b: Seq<Rule>, q: Seq<char>)
    requires
        a.to_multiset() == b.to_multiset(),
        same_say(a, b),
    ensures
        stated(a, q) == stated(b, q),
        is_node(a, q) == is_node(b, q),
{
    lemma_same_rules(a, b);
    if is_node(a, q) && q.len() > 0 {
        let i = choose|i: int| 0 <= i < a.len() && is_prefix(q, #[trigger] a[i].pattern());
        assert(b.contains(a[i]));
        let j = choose|j: int| 0 <= j < b.len() && b[j] == a[i];
        assert(is_prefix(q, b[j].pattern()));
    }
    if is_node(b, q) && q.len() > 0 {
        let j = choose|j: int| 0 <= j < b.len() && is_prefix(q, #[trigger] b[j].pattern());
        assert(a.contains(b[j]));
        let i = choose|i: int| 0 <= i < a.len() && a[i] == b[j];
        assert(is_prefix(q, a[i].pattern()));
    }
    if q.len() > 0 {
        if exists|i: int| first_stating(a, i, q) {
            let i = choose|i: int| first_stating(a, i, q);
            lemma_stated_by(a, i, q);
            assert(b.contains(a[i]));
            let j = choose|j: int| 0 <= j < b.len() && b[j] == a[i];
            lemma_first_exists(b, j, q);
            let j0 = choose|j0: int| first_stating(b, j0, q);
            lemma_stated_by(b, j0, q);
        } else {
            if exists|j: int| first_stating(b, j, q) {
                let j = choose|j: int| first_stating(b, j, q);
                assert(a.contains(b[j]));
                let i = choose|i: int| 0 <= i < a.len() && a[i] == b[j];
                lemma_first_exists(a, i, q);
            }
        }
    }
}

/// The fallback and the classification of a node do not depend on the
/// order of the rules.
pub proof fn lemma_fallback_regardless_of_order(a: Seq<Rule>, b: Seq<Rule>, q: Seq<char>)
    requires
        a.to_multiset() == b.to_multiset(),
        same_say(a, b),
    ensures
        fallback(a, q) == fallback(b, q),
        resolved(a, q) == resolved(b, q),
    decreases q.len(),
{
    lemma_stated_regardless_of_order(a, b, q);
    if q.len() > 0 {
        lemma_fallback_regardless_of_order(a, b, q.drop_last());
    }
}

/// The order of the rules matters only between rules that share a pattern:
/// a table compiled from rules is also the table of the same rules in any
/// other order in which, for each pattern, the first rule that has it says
/// the same.
pub proof fn lemma_order_irrelevant(a: Seq<Rule>, b: Seq<Rule>, dfa: Automaton)
    requires
        a.to_multiset() == b.to_multiset(),
        same_say(a, b),
        compiled_from(a, dfa),
    ensures
        compiled_from(b, dfa),
{
    let nodes = choose|nodes: Seq<Seq<char>>| describes(a, nodes, dfa);
    assert forall|i: int| 0 <= i < nodes.len() implies is_node(b, #[trigger] nodes[i]) by {
        lemma_stated_regardless_of_order(a, b, nodes[i]);
    }
    assert forall|q: Seq<char>| #[trigger] is_node(b, q) implies nodes.contains(q) by {
        lemma_stated_regardless_of_order(a, b, q);
        assert(is_node(a, q));
    }
    assert forall|i: int| 0 <= i < nodes.len() implies dfa.states[i + 2] == resolved(
        b,
        #[trigger] nodes[i],
    ) by {
        lemma_fallback_regardless_of_order(a, b, nodes[i]);
    }
    assert forall|i: int| 0 <= i < nodes.len() implies dfa.transitions[i + 2] == #[trigger] row_of(
        b,
        nodes,
        i,
    ) by {
        lemma_fallback_regardless_of_order(a, b, nodes[i]);
        assert(dfa.transitions[i + 2] == row_of(a, nodes, i));
        assert(leading_edge(a, nodes, i) == leading_edge(b, nodes, i));
    }
    assert(describes(b, nodes, dfa));
}

/// Rules of which no two with one pattern disagree compile to the same
/// table in whatever order they are given.
pub proof fn lemma_consistent_rules_in_any_order(a: Seq<Rule>, b: Seq<Rule>, dfa: Automaton)
    requires
        a.to_multiset() == b.to_multiset(),
        consistent(a),
        compiled_from(a, dfa),
    ensures
        compiled_from(b, dfa),
{
    lemma_consistent_same_say(a, b);
    lemma_order_irrelevant(a, b, dfa);
}

} // verus!
