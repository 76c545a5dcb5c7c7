//! Paths, reachability and acyclicity over a sequence of directed edges.
//!
//! An edge list is a sequence of `(source, target)` pairs.  These
//! definitions and lemmas carry the graph's acyclicity invariant: adding an
//! edge whose target does not reach its source keeps the list acyclic, and
//! an acyclic list admits no infinite chain of producers.

use vstd::prelude::*;

verus! {

/// `p` is a walk along edges of `es`: it visits at least one node, and each
/// consecutive pair of visited nodes is an edge.
pub open spec fn is_path(es: Seq<(int, int)>, p: Seq<int>) -> bool {
    &&& p.len() >= 1
    &&& forall|k: int| 0 <= k < p.len() - 1 ==> #[trigger] es.contains((p[k], p[k + 1]))
}

/// Some walk along `es` leads from `a` to `b`; in particular every node
/// reaches itself.
pub open spec fn reaches(es: Seq<(int, int)>, a: int, b: int) -> bool {
    exists|p: Seq<int>| #[trigger] is_path(es, p) && p.first() == a && p.last() == b
}

/// No walk along `es` returns to its starting node.
pub open spec fn acyclic(es: Seq<(int, int)>) -> bool {
    forall|p: Seq<int>| #[trigger] is_path(es, p) && p.len() >= 2 ==> p.first() != p.last()
}

/// Every edge of `es1` is an edge of `es2`.
pub open spec fn sub_edges(es1: Seq<(int, int)>, es2: Seq<(int, int)>) -> bool {
    forall|x: (int, int)| #[trigger] es1.contains(x) ==> es2.contains(x)
}

/// Each consecutive pair of a walk is an edge.
pub proof fn lemma_path_edge(es: Seq<(int, int)>, p: Seq<int>, k: int)
    requires
        is_path(es, p),
        0 <= k < p.len() - 1,
    ensures
        es.contains((p[k], p[k + 1])),
{
}

/// A walk along a sub-list is a walk along the larger list.
pub proof fn lemma_path_in_superset(es1: Seq<(int, int)>, es2: Seq<(int, int)>, p: Seq<int>)
    requires
        is_path(es1, p),
        sub_edges(es1, es2),
    ensures
        is_path(es2, p),
{
    assert forall|k: int| 0 <= k < p.len() - 1 implies #[trigger] es2.contains(
        (p[k], p[k + 1]),
    ) by {
        lemma_path_edge(es1, p, k);
        assert(es1.contains((p[k], p[k + 1])));
    }
}

/// Acyclicity is inherited by sub-lists.
pub proof fn lemma_acyclic_sub(es1: Seq<(int, int)>, es2: Seq<(int, int)>)
    requires
        acyclic(es2),
        sub_edges(es1, es2),
    ensures
        acyclic(es1),
{
    assert forall|p: Seq<int>| #[trigger] is_path(es1, p) && p.len() >= 2 implies p.first()
        != p.last() by {
        lemma_path_in_superset(es1, es2, p);
    }
}

/// Every node reaches itself, by the one-node walk.
pub proof fn lemma_reaches_self(es: Seq<(int, int)>, x: int)
    ensures
        reaches(es, x, x),
{
    let p = seq![x];
    assert(is_path(es, p) && p.first() == x && p.last() == x);
}

/// Extending a walk by one edge extends reachability.
pub proof fn lemma_reaches_step(es: Seq<(int, int)>, x: int, y: int, z: int)
    requires
        reaches(es, x, y),
        es.contains((y, z)),
    ensures
        reaches(es, x, z),
{
    let p = choose|p: Seq<int>| #[trigger] is_path(es, p) && p.first() == x && p.last() == y;
    let q = p.push(z);
    assert forall|k: int| 0 <= k < q.len() - 1 implies #[trigger] es.contains((q[k], q[k + 1])) by {
        if k < p.len() - 1 {
            assert(q[k] == p[k] && q[k + 1] == p[k + 1]);
        } else {
            assert(q[k] == p[p.len() - 1] && q[k + 1] == z);
        }
    }
    assert(is_path(es, q) && q.first() == x && q.last() == z);
}

/// Reachability is transitive.
pub proof fn lemma_reaches_trans(es: Seq<(int, int)>, a: int, b: int, c: int)
    requires
        reaches(es, a, b),
        reaches(es, b, c),
    ensures
        reaches(es, a, c),
{
    let q = choose|q: Seq<int>| #[trigger] is_path(es, q) && q.first() == b && q.last() == c;
    lemma_reaches_trans_helper(es, a, b, q);
}

/// Reachability along an explicit walk from `b`.
proof fn lemma_reaches_trans_helper(es: Seq<(int, int)>, a: int, b: int, q: Seq<int>)
    requires
        reaches(es, a, b),
        is_path(es, q),
        q.first() == b,
    ensures
        reaches(es, a, q.last()),
    decreases q.len(),
{
    if q.len() == 1 {
        assert(q.last() == b);
    } else {
        let q1 = q.drop_last();
        lemma_path_edge(es, q, q.len() - 2);
        assert forall|k: int| 0 <= k < q1.len() - 1 implies #[trigger] es.contains(
            (q1[k], q1[k + 1]),
        ) by {
            lemma_path_edge(es, q, k);
        }
        assert(is_path(es, q1));
        lemma_reaches_trans_helper(es, a, b, q1);
        assert(q1.last() == q[q.len() - 2]);
        lemma_reaches_step(es, a, q1.last(), q.last());
    }
}

/// A walk along `es.push((a, b))` is either a walk along `es` alone, or
/// shows that its start reaches `a` and that `b` reaches its end in `es`.
proof fn lemma_path_decompose(es: Seq<(int, int)>, a: int, b: int, p: Seq<int>)
    requires
        is_path(es.push((a, b)), p),
    ensures
        is_path(es, p) || (reaches(es, p.first(), a) && reaches(es, b, p.last())),
    decreases p.len(),
{
    let es2 = es.push((a, b));
    if p.len() == 1 {
        assert(is_path(es, p));
    } else {
        let p1 = p.drop_last();
        let n = p.len() as int;
        assert forall|k: int| 0 <= k < p1.len() - 1 implies #[trigger] es2.contains(
            (p1[k], p1[k + 1]),
        ) by {
            lemma_path_edge(es2, p, k);
        }
        assert(is_path(es2, p1));
        lemma_path_decompose(es, a, b, p1);
        lemma_path_edge(es2, p, n - 2);
        assert(es2.contains((p[n - 2], p[n - 1])));
        let ei = choose|ei: int| 0 <= ei < es2.len() && es2[ei] == (p[n - 2], p[n - 1]);
        if ei < es.len() {
            // The last step of the walk is an old edge.
            assert(es.contains((p[n - 2], p[n - 1])));
            if is_path(es, p1) {
                assert forall|k: int| 0 <= k < p.len() - 1 implies #[trigger] es.contains(
                    (p[k], p[k + 1]),
                ) by {
                    if k < n - 2 {
                        assert(p1[k] == p[k] && p1[k + 1] == p[k + 1]);
                        assert(es.contains((p1[k], p1[k + 1])));
                    }
                }
                assert(is_path(es, p));
            } else {
                assert(p1.last() == p[n - 2]);
                lemma_reaches_step(es, b, p[n - 2], p[n - 1]);
            }
        } else {
            // The last step of the walk is the new edge itself.
            assert(es2[ei] == (a, b));
            assert(p[n - 2] == a && p[n - 1] == b);
            if is_path(es, p1) {
                assert(p1.first() == p.first() && p1.last() == a);
                assert(reaches(es, p.first(), a));
            }
            lemma_reaches_self(es, b);
        }
    }
}

/// Adding an edge whose target does not already reach its source keeps the
/// edge list acyclic.
pub proof fn lemma_acyclic_push(es: Seq<(int, int)>, a: int, b: int)
    requires
        acyclic(es),
        !reaches(es, b, a),
    ensures
        acyclic(es.push((a, b))),
{
    let es2 = es.push((a, b));
    assert forall|p: Seq<int>| #[trigger] is_path(es2, p) && p.len() >= 2 implies p.first()
        != p.last() by {
        lemma_path_decompose(es, a, b, p);
        if p.first() == p.last() {
            if is_path(es, p) {
                assert(false);
            } else {
                lemma_reaches_trans(es, b, p.last(), a);
                assert(false);
            }
        }
    }
}

/// The empty edge list is acyclic.
pub proof fn lemma_acyclic_empty()
    ensures
        acyclic(Seq::<(int, int)>::empty()),
{
    assert forall|p: Seq<int>|
        #[trigger] is_path(Seq::<(int, int)>::empty(), p) && p.len() >= 2 implies p.first()
        != p.last() by {
        lemma_path_edge(Seq::<(int, int)>::empty(), p, 0);
    }
}

/// A node with no incoming edge is reached from nowhere else.
pub proof fn lemma_not_reaches_no_incoming(es: Seq<(int, int)>, a: int, b: int)
    requires
        a != b,
        forall|x: (int, int)| #[trigger] es.contains(x) ==> x.1 != b,
    ensures
        !reaches(es, a, b),
{
    if reaches(es, a, b) {
        let p = choose|p: Seq<int>| #[trigger] is_path(es, p) && p.first() == a && p.last() == b;
        if p.len() >= 2 {
            lemma_path_edge(es, p, p.len() - 2);
            assert(es.contains((p[p.len() - 2], b)));
        }
    }
}

/// A node with no outgoing edge reaches nothing else.
pub proof fn lemma_not_reaches_no_outgoing(es: Seq<(int, int)>, a: int, b: int)
    requires
        a != b,
        forall|x: (int, int)| #[trigger] es.contains(x) ==> x.0 != a,
    ensures
        !reaches(es, a, b),
{
    if reaches(es, a, b) {
        let p = choose|p: Seq<int>| #[trigger] is_path(es, p) && p.first() == a && p.last() == b;
        if p.len() >= 2 {
            lemma_path_edge(es, p, 0);
            assert(es.contains((a, p[1])));
        }
    }
}

/// A contiguous piece of a walk is a walk.
pub proof fn lemma_subpath(es: Seq<(int, int)>, p: Seq<int>, i: int, j: int)
    requires
        is_path(es, p),
        0 <= i < j < p.len(),
    ensures
        is_path(es, p.subrange(i, j + 1)),
        p.subrange(i, j + 1).first() == p[i],
        p.subrange(i, j + 1).last() == p[j],
        p.subrange(i, j + 1).len() >= 2,
{
    let q = p.subrange(i, j + 1);
    assert forall|k: int| 0 <= k < q.len() - 1 implies #[trigger] es.contains((q[k], q[k + 1])) by {
        assert(q[k] == p[i + k] && q[k + 1] == p[i + k + 1]);
        assert(es.contains((p[i + k], p[i + k + 1])));
    }
}

/// Swap-removing one edge leaves a sub-list.
pub proof fn lemma_sub_edges_swap_remove(es: Seq<(int, int)>, k: int)
    requires
        0 <= k < es.len(),
    ensures
        sub_edges(es.update(k, es.last()).drop_last(), es),
{
    let es2 = es.update(k, es.last()).drop_last();
    assert forall|x: (int, int)| #[trigger] es2.contains(x) implies es.contains(x) by {
        let j = choose|j: int| 0 <= j < es2.len() && es2[j] == x;
        if j == k {
            assert(es[es.len() - 1] == x);
        } else {
            assert(es[j] == x);
        }
    }
}

/// A sequence of more than `n` values drawn from `0 .. n` repeats a value.
pub proof fn lemma_pigeonhole(s: Seq<int>, n: int)
    requires
        n >= 0,
        s.len() > n,
        forall|i: int| 0 <= i < s.len() ==> 0 <= #[trigger] s[i] < n,
    ensures
        exists|i: int, j: int| 0 <= i < j < s.len() && s[i] == s[j],
{
    if !(exists|i: int, j: int| 0 <= i < j < s.len() && s[i] == s[j]) {
        assert(s.no_duplicates()) by {
            assert forall|i: int, j: int|
                0 <= i < s.len() && 0 <= j < s.len() && i != j implies s[i] != s[j] by {
                if i < j {
                    assert(!(0 <= i < j < s.len() && s[i] == s[j]));
                } else {
                    assert(!(0 <= j < i < s.len() && s[j] == s[i]));
                }
            }
        }
        s.unique_seq_to_set();
        let range = vstd::set_lib::set_int_range(0, n);
        vstd::set_lib::lemma_int_range(0, n);
        assert(s.to_set().subset_of(range));
        vstd::set_lib::lemma_len_subset(s.to_set(), range);
        assert(false);
    }
}

/// A non-empty set of nodes each of which has a producer inside the set
/// witnesses a cycle.
pub proof fn lemma_self_feeding_set_cycles(es: Seq<(int, int)>, s: Set<int>, x0: int, n: int)
    requires
        n >= 0,
        s.contains(x0),
        forall|x: int| #[trigger] s.contains(x) ==> 0 <= x < n,
        forall|x: int| #[trigger] s.contains(x) ==> exists|y: int|
            #[trigger] s.contains(y) && es.contains((y, x)),
    ensures
        !acyclic(es),
{
    let p = build_chain(es, s, x0, n + 1);
    assert forall|i: int| 0 <= i < p.len() implies 0 <= #[trigger] p[i] < n by {
        assert(s.contains(p[i]));
    }
    lemma_pigeonhole(p, n);
    let (i, j) = choose|i: int, j: int| 0 <= i < j < p.len() && p[i] == p[j];
    lemma_subpath(es, p, i, j);
    let q = p.subrange(i, j + 1);
    assert(is_path(es, q) && q.len() >= 2 && q.first() == q.last());
}

/// Builds a walk of `k + 1` nodes inside `s` that ends at `x`, stepping
/// backwards through producers.
proof fn build_chain(es: Seq<(int, int)>, s: Set<int>, x: int, k: int) -> (p: Seq<int>)
    requires
        k >= 0,
        s.contains(x),
        forall|z: int| #[trigger] s.contains(z) ==> exists|y: int|
            #[trigger] s.contains(y) && es.contains((y, z)),
    ensures
        is_path(es, p),
        p.len() == k + 1,
        p.last() == x,
        forall|i: int| 0 <= i < p.len() ==> s.contains(#[trigger] p[i]),
    decreases k,
{
    if k == 0 {
        let p = seq![x];
        assert(is_path(es, p));
        p
    } else {
        let y = choose|y: int| #[trigger] s.contains(y) && es.contains((y, x));
        let p1 = build_chain(es, s, y, k - 1);
        let p = p1.push(x);
        assert forall|m: int| 0 <= m < p.len() - 1 implies #[trigger] es.contains(
            (p[m], p[m + 1]),
        ) by {
            if m < p1.len() - 1 {
                assert(p[m] == p1[m] && p[m + 1] == p1[m + 1]);
                assert(es.contains((p1[m], p1[m + 1])));
            } else {
                assert(p[m] == p1.last() && p[m + 1] == x);
            }
        }
        p
    }
}

} // verus!
