//! The two orders on character sequences that compilation rests on, and a
//! stable sort by the first of them.

use vstd::prelude::*;

verus! {

/// `a` and `b` hold the same characters at every position below `k`.
pub open spec fn agree_below(a: Seq<char>, b: Seq<char>, k: int) -> bool {
    &&& 0 <= k <= a.len()
    &&& k <= b.len()
    &&& forall|j: int|
        #![trigger a[j]]
        #![trigger b[j]]
        0 <= j < k ==> a[j] == b[j]
}

/// `a` and `b` agree below `k`, and at `k` either `a` ends while `b` goes
/// on, or `a` holds the smaller character.
pub open spec fn parts_at(a: Seq<char>, b: Seq<char>, k: int) -> bool {
    &&& agree_below(a, b, k)
    &&& k < b.len()
    &&& k == a.len() || a[k] < b[k]
}

/// `a` comes strictly before `b` in dictionary order.
pub open spec fn lex_lt(a: Seq<char>, b: Seq<char>) -> bool {
    exists|k: int| #[trigger] parts_at(a, b, k)
}

/// `a` comes strictly before `b` when shorter sequences come first and
/// sequences of one length are in dictionary order.
pub open spec fn precedes(a: Seq<char>, b: Seq<char>) -> bool {
    a.len() < b.len() || (a.len() == b.len() && lex_lt(a, b))
}

/// `q` is an initial part of `t`.
pub open spec fn is_prefix(q: Seq<char>, t: Seq<char>) -> bool {
    agree_below(q, t, q.len() as int)
}

/// `q` is an initial part of `t` and `t` goes on after it.
pub open spec fn extends(t: Seq<char>, q: Seq<char>) -> bool {
    is_prefix(q, t) && q.len() < t.len()
}

/// Dictionary order is transitive.
pub proof fn lemma_lex_transitive(a: Seq<char>, b: Seq<char>, c: Seq<char>)
    requires
        lex_lt(a, b),
        lex_lt(b, c),
    ensures
        lex_lt(a, c),
{
    let k1 = choose|k: int| #[trigger] parts_at(a, b, k);
    let k2 = choose|k: int| #[trigger] parts_at(b, c, k);
    let k = if k1 <= k2 { k1 } else { k2 };
    assert(parts_at(a, c, k));
}

/// No sequence comes before itself, and of two sequences at most one comes
/// before the other.
pub proof fn lemma_lex_asymmetric(a: Seq<char>, b: Seq<char>)
    requires
        lex_lt(a, b),
    ensures
        !lex_lt(b, a),
        a != b,
{
    let k1 = choose|k: int| #[trigger] parts_at(a, b, k);
    if lex_lt(b, a) {
        let k2 = choose|k: int| #[trigger] parts_at(b, a, k);
        assert(false);
    }
}

/// Of two sequences one comes before the other, or they are the same.
pub proof fn lemma_lex_total(a: Seq<char>, b: Seq<char>)
    ensures
        lex_lt(a, b) || a == b || lex_lt(b, a),
{
    lemma_lex_total_from(a, b, 0);
}

/// Two sequences that agree below `k` are in dictionary order one way or
/// the other, or they are the same.
proof fn lemma_lex_total_from(a: Seq<char>, b: Seq<char>, k: int)
    requires
        agree_below(a, b, k),
    ensures
        lex_lt(a, b) || a == b || lex_lt(b, a),
    decreases a.len() - k,
{
    if k == a.len() && k == b.len() {
        assert(a =~= b);
    } else if k == a.len() || (k < b.len() && a[k] < b[k]) {
        assert(parts_at(a, b, k));
    } else if k == b.len() || b[k] < a[k] {
        assert(agree_below(b, a, k));
        assert(parts_at(b, a, k));
    } else {
        lemma_lex_total_from(a, b, k + 1);
    }
}

/// The shortlex order is transitive.
pub proof fn lemma_precedes_transitive(a: Seq<char>, b: Seq<char>, c: Seq<char>)
    requires
        precedes(a, b),
        precedes(b, c),
    ensures
        precedes(a, c),
{
    if a.len() == b.len() && b.len() == c.len() {
        lemma_lex_transitive(a, b, c);
    }
}

/// What the shortlex order puts apart is different.
pub proof fn lemma_precedes_distinct(a: Seq<char>, b: Seq<char>)
    requires
        precedes(a, b),
    ensures
        a != b,
        !precedes(b, a),
{
    if a.len() == b.len() {
        lemma_lex_asymmetric(a, b);
    }
}

/// Two sequences that go on after a common prefix and are in dictionary
/// order have their next characters in order.
pub proof fn lemma_next_in_order(p: Seq<char>, a: Seq<char>, b: Seq<char>)
    requires
        extends(a, p),
        extends(b, p),
        lex_lt(a, b) || a == b,
    ensures
        a[p.len() as int] <= b[p.len() as int],
{
    if a != b {
        let k = choose|k: int| #[trigger] parts_at(a, b, k);
        let n = p.len() as int;
        if k < n {
            assert(a[k] == p[k]);
            assert(b[k] == p[k]);
        }
    }
}

/// A sequence never comes before one of its own prefixes.
pub proof fn lemma_prefix_not_after(q: Seq<char>, t: Seq<char>)
    requires
        is_prefix(q, t),
    ensures
        !lex_lt(t, q),
{
    if lex_lt(t, q) {
        let k = choose|k: int| #[trigger] parts_at(t, q, k);
        assert(q[k] == t[k]);
    }
}

/// Children of one node are ordered by their last characters.
pub proof fn lemma_siblings_in_order(p: Seq<char>, c: char, d: char)
    requires
        c < d,
    ensures
        precedes(p.push(c), p.push(d)),
{
    assert(parts_at(p.push(c), p.push(d), p.len() as int));
}

/// Children come in the order of their parents.
pub proof fn lemma_children_follow_parents(a: Seq<char>, b: Seq<char>, c: char, d: char)
    requires
        precedes(a, b),
    ensures
        precedes(a.push(c), b.push(d)),
{
    if a.len() == b.len() {
        let k = choose|k: int| #[trigger] parts_at(a, b, k);
        assert(parts_at(a.push(c), b.push(d), k));
    }
}

/// How one sequence stands to another in dictionary order.
#[derive(Debug, Clone, Copy, PartialEq)]
pub enum Rank {
    Before,
    Same,
    After,
}

/// Compares two sequences in dictionary order.
pub fn collate(a: &Vec<char>, b: &Vec<char>) -> (rank: Rank)
    ensures
        match rank {
            Rank::Before => lex_lt(a@, b@),
            Rank::Same => a@ == b@,
            Rank::After => lex_lt(b@, a@),
        },
{
    let mut k: usize = 0;
    while k < a.len() && k < b.len()
        invariant
            agree_below(a@, b@, k as int),
        decreases a.len() - k,
    {
        if a[k] < b[k] {
            assert(parts_at(a@, b@, k as int));
            return Rank::Before;
        }
        if b[k] < a[k] {
            assert(parts_at(b@, a@, k as int));
            return Rank::After;
        }
        k = k + 1;
    }
    if k < b.len() {
        assert(parts_at(a@, b@, k as int));
        Rank::Before
    } else if k < a.len() {
        assert(parts_at(b@, a@, k as int));
        Rank::After
    } else {
        assert(a@ =~= b@);
        Rank::Same
    }
}

/// Whether the first `n` characters of `t` are the first `n` of `base`.
pub fn shares_prefix(t: &Vec<char>, base: &Vec<char>, n: usize) -> (shared: bool)
    requires
        n <= t.len(),
        n <= base.len(),
    ensures
        shared == agree_below(t@, base@, n as int),
{
    let mut k: usize = 0;
    while k < n
        invariant
            k <= n,
            n <= t.len(),
            n <= base.len(),
            agree_below(t@, base@, k as int),
        decreases n - k,
    {
        if t[k] != base[k] {
            return false;
        }
        k = k + 1;
    }
    true
}

/// The sequences held by a vector of vectors.
pub open spec fn texts_of(texts: Seq<Vec<char>>) -> Seq<Seq<char>> {
    Seq::new(texts.len(), |i: int| texts[i]@)
}

/// Key `i` has its place before key `j`: it is the smaller one, or they are
/// equal and `i` is the earlier index.
pub open spec fn sorts_before(keys: Seq<Seq<char>>, i: int, j: int) -> bool {
    lex_lt(keys[i], keys[j]) || (keys[i] == keys[j] && i < j)
}

/// Index `i` occurs in `order`.
pub open spec fn lists(order: Seq<usize>, i: int) -> bool {
    exists|k: int| 0 <= k < order.len() && #[trigger] order[k] == i
}

/// `order` lists every index of `keys`, smaller keys first and equal keys
/// in the order of their indices.
pub open spec fn is_stable_order(keys: Seq<Seq<char>>, order: Seq<usize>) -> bool {
    &&& order.len() == keys.len()
    &&& forall|k: int| 0 <= k < order.len() ==> #[trigger] order[k] < keys.len()
    &&& forall|i: int| 0 <= i < keys.len() ==> #[trigger] lists(order, i)
    &&& forall|k1: int, k2: int|
        0 <= k1 < k2 < order.len() ==> sorts_before(
            keys,
            #[trigger] order[k1] as int,
            #[trigger] order[k2] as int,
        )
}

/// Having one's place before another is transitive.
pub proof fn lemma_sorts_before_transitive(keys: Seq<Seq<char>>, a: int, b: int, c: int)
    requires
        sorts_before(keys, a, b),
        sorts_before(keys, b, c),
    ensures
        sorts_before(keys, a, c),
{
    if lex_lt(keys[a], keys[b]) && lex_lt(keys[b], keys[c]) {
        lemma_lex_transitive(keys[a], keys[b], keys[c]);
    }
}

/// `run` lists the indices from `lo` up to `hi`, smaller keys first and
/// equal keys in the order of their indices.
pub open spec fn is_stable_run(keys: Seq<Seq<char>>, run: Seq<usize>, lo: int, hi: int) -> bool {
    &&& run.len() == hi - lo
    &&& forall|k: int| 0 <= k < run.len() ==> lo <= #[trigger] run[k] < hi
    &&& forall|i: int| lo <= i < hi ==> #[trigger] lists(run, i)
    &&& forall|k1: int, k2: int|
        0 <= k1 < k2 < run.len() ==> sorts_before(
            keys,
            #[trigger] run[k1] as int,
            #[trigger] run[k2] as int,
        )
}

/// Whether `left` still holds an index at `i` that has its place before
/// the index that `right` holds at `j`.
fn left_is_next(
    texts: &Vec<Vec<char>>,
    left: &Vec<usize>,
    i: usize,
    right: &Vec<usize>,
    j: usize,
) -> (yes: bool)
    requires
        i < left.len() || j < right.len(),
        i <= left.len(),
        j <= right.len(),
        forall|k: int| 0 <= k < left.len() ==> #[trigger] left[k] < texts.len(),
        forall|k: int| 0 <= k < right.len() ==> #[trigger] right[k] < texts.len(),
    ensures
        yes ==> i < left.len(),
        !yes ==> j < right.len(),
        yes && j < right.len() ==> !lex_lt(
            texts_of(texts@)[right[j as int] as int],
            texts_of(texts@)[left[i as int] as int],
        ),
        !yes && i < left.len() ==> lex_lt(
            texts_of(texts@)[right[j as int] as int],
            texts_of(texts@)[left[i as int] as int],
        ),
{
    if i == left.len() {
        false
    } else if j == right.len() {
        true
    } else {
        let ghost a = texts_of(texts@)[left[i as int] as int];
        let ghost b = texts_of(texts@)[right[j as int] as int];
        match collate(&texts[right[j]], &texts[left[i]]) {
            Rank::Before => false,
            Rank::Same => {
                proof {
                    if lex_lt(b, a) {
                        lemma_lex_asymmetric(b, a);
                    }
                }
                true
            },
            Rank::After => {
                proof {
                    lemma_lex_asymmetric(a, b);
                }
                true
            },
        }
    }
}

/// Merges two runs that lie side by side into one.
fn merge(
    texts: &Vec<Vec<char>>,
    left: &Vec<usize>,
    right: &Vec<usize>,
    Ghost(lo): Ghost<int>,
    Ghost(mid): Ghost<int>,
    Ghost(hi): Ghost<int>,
) -> (merged: Vec<usize>)
    requires
        0 <= lo <= mid <= hi <= texts.len(),
        is_stable_run(texts_of(texts@), left@, lo, mid),
        is_stable_run(texts_of(texts@), right@, mid, hi),
    ensures
        is_stable_run(texts_of(texts@), merged@, lo, hi),
{
    let ghost keys = texts_of(texts@);
    let mut merged: Vec<usize> = Vec::new();
    let mut i: usize = 0;
    let mut j: usize = 0;
    while i < left.len() || j < right.len()
        invariant
            keys == texts_of(texts@),
            0 <= lo <= mid <= hi <= texts.len(),
            is_stable_run(keys, left@, lo, mid),
            is_stable_run(keys, right@, mid, hi),
            i <= left.len(),
            j <= right.len(),
            merged.len() == i + j,
            forall|k: int| 0 <= k < merged.len() ==> lo <= #[trigger] merged[k] < hi,
            forall|a: int| 0 <= a < i ==> lists(merged@, #[trigger] left[a] as int),
            forall|b: int| 0 <= b < j ==> lists(merged@, #[trigger] right[b] as int),
            forall|k1: int, k2: int|
                0 <= k1 < k2 < merged.len() ==> sorts_before(
                    keys,
                    #[trigger] merged[k1] as int,
                    #[trigger] merged[k2] as int,
                ),
            forall|k: int, a: int|
                0 <= k < merged.len() && i <= a < left.len() ==> sorts_before(
                    keys,
                    #[trigger] merged[k] as int,
                    #[trigger] left[a] as int,
                ),
            forall|k: int, b: int|
                0 <= k < merged.len() && j <= b < right.len() ==> sorts_before(
                    keys,
                    #[trigger] merged[k] as int,
                    #[trigger] right[b] as int,
                ),
        decreases left.len() - i + right.len() - j,
    {
        let ghost before = merged@;
        let from_left = left_is_next(texts, left, i, right, j);
        let next = if from_left {
            left[i]
        } else {
            right[j]
        };
        proof {
            assert forall|a: int|
                i <= a < left.len() && !(from_left && a == i) implies sorts_before(
                keys,
                next as int,
                #[trigger] left[a] as int,
            ) by {
                if from_left {
                    assert(sorts_before(keys, left[i as int] as int, left[a] as int));
                } else if a > i {
                    assert(sorts_before(keys, left[i as int] as int, left[a] as int));
                    lemma_sorts_before_transitive(
                        keys,
                        next as int,
                        left[i as int] as int,
                        left[a] as int,
                    );
                }
            }
            assert forall|b: int|
                j <= b < right.len() && !(!from_left && b == j) implies sorts_before(
                keys,
                next as int,
                #[trigger] right[b] as int,
            ) by {
                if !from_left {
                    assert(sorts_before(keys, right[j as int] as int, right[b] as int));
                } else {
                    let first = right[j as int] as int;
                    assert(sorts_before(keys, next as int, first)) by {
                        lemma_lex_total(keys[next as int], keys[first]);
                    }
                    if b > j {
                        assert(sorts_before(keys, first, right[b] as int));
                        lemma_sorts_before_transitive(keys, next as int, first, right[b] as int);
                    }
                }
            }
        }
        merged.push(next);
        if from_left {
            i = i + 1;
        } else {
            j = j + 1;
        }
        proof {
            assert forall|a: int| 0 <= a < i implies lists(merged@, #[trigger] left[a] as int) by {
                if from_left && a == i - 1 {
                    assert(merged@[merged.len() - 1] == left[a]);
                } else {
                    let at = choose|at: int|
                        0 <= at < before.len() && #[trigger] before[at] == left[a] as int;
                    assert(merged@[at] == before[at]);
                }
            }
            assert forall|b: int| 0 <= b < j implies lists(merged@, #[trigger] right[b] as int) by {
                if !from_left && b == j - 1 {
                    assert(merged@[merged.len() - 1] == right[b]);
                } else {
                    let at = choose|at: int|
                        0 <= at < before.len() && #[trigger] before[at] == right[b] as int;
                    assert(merged@[at] == before[at]);
                }
            }
        }
    }
    proof {
        assert forall|t: int| lo <= t < hi implies #[trigger] lists(merged@, t) by {
            if t < mid {
                assert(lists(left@, t));
                let a = choose|a: int| 0 <= a < left.len() && #[trigger] left@[a] == t;
                assert(lists(merged@, left[a] as int));
            } else {
                assert(lists(right@, t));
                let b = choose|b: int| 0 <= b < right.len() && #[trigger] right@[b] == t;
                assert(lists(merged@, right[b] as int));
            }
        }
    }
    merged
}

/// Sorts the indices from `lo` up to `hi` by their texts in dictionary
/// order, keeping equal texts in their given order.
fn sort_range(texts: &Vec<Vec<char>>, lo: usize, hi: usize) -> (run: Vec<usize>)
    requires
        lo <= hi <= texts.len(),
    ensures
        is_stable_run(texts_of(texts@), run@, lo as int, hi as int),
    decreases hi - lo,
{
    let mut run: Vec<usize> = Vec::new();
    if hi - lo == 1 {
        run.push(lo);
        assert(run@[0] == lo);
    } else if hi - lo > 1 {
        let mid = lo + (hi - lo) / 2;
        let left = sort_range(texts, lo, mid);
        let right = sort_range(texts, mid, hi);
        run = merge(texts, &left, &right, Ghost(lo as int), Ghost(mid as int), Ghost(hi as int));
    }
    run
}

/// Sorts the indices of `texts` by their texts in dictionary order, keeping
/// equal texts in their given order.
pub fn stable_order(texts: &Vec<Vec<char>>) -> (order: Vec<usize>)
    ensures
        is_stable_order(texts_of(texts@), order@),
{
    sort_range(texts, 0, texts.len())
}

} // verus!
