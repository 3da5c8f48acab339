use vstd::prelude::*;

verus! {

/// The mathematical view of an adjacency-list graph held in vectors.
pub open spec fn adj(g: Seq<Vec<usize>>) -> Seq<Seq<usize>> {
    g.map_values(|row: Vec<usize>| row@)
}

/// The dependency graph is an array of adjacency lists: `g[u]` is the ordered
/// sequence of indices `v` such that package `u` depends on package `v`.
/// Well-formed means every edge target is a vertex of the graph.
pub open spec fn graph_wf(g: Seq<Seq<usize>>) -> bool {
    forall|u: int, k: int|
        0 <= u < g.len() && 0 <= k < g[u].len() ==> (#[trigger] g[u][k]) < g.len()
}

/// Each adjacency row lists every dependency at most once, as a row built
/// from a manifest's dependency table does.
pub open spec fn rows_distinct(g: Seq<Seq<usize>>) -> bool {
    forall|u: int| 0 <= u < g.len() ==> (#[trigger] g[u]).no_duplicates()
}

/// There is an edge from `u` to `v`.
pub open spec fn has_edge(g: Seq<Seq<usize>>, u: usize, v: usize) -> bool {
    (u as int) < g.len() && g[u as int].contains(v)
}

/// A closed walk: at least one vertex, an edge between each pair of
/// consecutive vertices, and an edge from the last vertex back to the first.
pub open spec fn is_closed_walk(g: Seq<Seq<usize>>, c: Seq<usize>) -> bool {
    &&& c.len() >= 1
    &&& forall|i: int| 0 <= i < c.len() ==> (#[trigger] c[i] as int) < g.len()
    &&& forall|i: int| 0 <= i < c.len() - 1 ==> has_edge(g, #[trigger] c[i], c[i + 1])
    &&& has_edge(g, c[c.len() - 1], c[0])
}

/// A simple cycle: a closed walk that visits no vertex twice.
pub open spec fn is_simple_cycle(g: Seq<Seq<usize>>, c: Seq<usize>) -> bool {
    is_closed_walk(g, c) && c.no_duplicates()
}

/// The canonical representative of a cycle starts at its minimum index: every
/// later element is strictly greater than the first.
pub open spec fn is_anchored(c: Seq<usize>) -> bool {
    c.len() >= 1 && forall|j: int| 1 <= j < c.len() ==> c[0] < #[trigger] c[j]
}

/// A graph with no edges at all.
pub open spec fn edge_free(g: Seq<Seq<usize>>) -> bool {
    forall|u: int| 0 <= u < g.len() ==> (#[trigger] g[u]).len() == 0
}

/// A sequence of distinct vertices below `n` has at most `n` elements.
pub proof fn lemma_distinct_bounded_len(s: Seq<usize>, n: nat)
    requires
        s.no_duplicates(),
        forall|i: int| 0 <= i < s.len() ==> (#[trigger] s[i] as nat) < n,
    ensures
        s.len() <= n,
{
    broadcast use vstd::seq_lib::seq_to_set_is_finite;

    let si = s.map_values(|x: usize| x as int);
    assert(si.no_duplicates());
    si.unique_seq_to_set();
    let range = vstd::set_lib::set_int_range(0, n as int);
    vstd::set_lib::lemma_int_range(0, n as int);
    assert(si.to_set().subset_of(range)) by {
        assert forall|v: int| si.to_set().contains(v) implies range.contains(v) by {
            let i = choose|i: int| 0 <= i < si.len() && si[i] == v;
            assert((s[i] as nat) < n);
        }
    }
    vstd::set_lib::lemma_len_subset(si.to_set(), range);
}

/// A sequence of `n` distinct vertices below `n` contains every vertex below `n`.
pub proof fn lemma_distinct_bounded_onto(s: Seq<usize>, n: nat)
    requires
        s.no_duplicates(),
        forall|i: int| 0 <= i < s.len() ==> (#[trigger] s[i] as nat) < n,
        s.len() == n,
    ensures
        forall|v: usize| (v as nat) < n ==> s.contains(v),
{
    broadcast use vstd::seq_lib::seq_to_set_is_finite;

    let si = s.map_values(|x: usize| x as int);
    assert(si.no_duplicates());
    si.unique_seq_to_set();
    let range = vstd::set_lib::set_int_range(0, n as int);
    vstd::set_lib::lemma_int_range(0, n as int);
    assert(si.to_set().subset_of(range)) by {
        assert forall|v: int| si.to_set().contains(v) implies range.contains(v) by {
            let i = choose|i: int| 0 <= i < si.len() && si[i] == v;
            assert((s[i] as nat) < n);
        }
    }
    vstd::set_lib::lemma_subset_equality(si.to_set(), range);
    assert forall|v: usize| (v as nat) < n implies s.contains(v) by {
        assert(si.to_set().contains(v as int));
        let i = choose|i: int| 0 <= i < si.len() && si[i] == v as int;
        assert(s[i] == v);
    }
}

/// A sequence of fewer than `n` distinct vertices below `n` misses some vertex.
pub proof fn lemma_distinct_bounded_missing(s: Seq<usize>, n: nat)
    requires
        s.no_duplicates(),
        forall|i: int| 0 <= i < s.len() ==> (#[trigger] s[i] as nat) < n,
        s.len() < n,
        n <= usize::MAX as nat,
    ensures
        exists|v: usize| (v as nat) < n && !s.contains(v),
{
    broadcast use vstd::seq_lib::seq_to_set_is_finite;

    let si = s.map_values(|x: usize| x as int);
    assert(si.no_duplicates());
    si.unique_seq_to_set();
    let range = vstd::set_lib::set_int_range(0, n as int);
    vstd::set_lib::lemma_int_range(0, n as int);
    if forall|v: usize| (v as nat) < n ==> #[trigger] s.contains(v) {
        assert(range.subset_of(si.to_set())) by {
            assert forall|v: int| range.contains(v) implies si.to_set().contains(v) by {
                assert(s.contains(v as usize));
                let i = choose|i: int| 0 <= i < s.len() && s[i] == v as usize;
                assert((v as usize) as int == v);
                assert(si[i] == s[i] as int);
                assert(si[i] == v);
            }
        }
        vstd::set_lib::lemma_len_subset(range, si.to_set());
        assert(false);
    }
}

/// Whether a row holds a given vertex; used when testing for an edge.
pub fn row_contains(row: &Vec<usize>, x: usize) -> (r: bool)
    ensures
        r == row@.contains(x),
{
    let mut t: usize = 0;
    while t < row.len()
        invariant
            t <= row.len(),
            forall|j: int| 0 <= j < t ==> row@[j] != x,
        decreases row.len() - t,
    {
        if row[t] == x {
            return true;
        }
        t = t + 1;
    }
    false
}

/// An element-by-element copy of a row of vertex indices.
pub fn copy_row(row: &Vec<usize>) -> (r: Vec<usize>)
    ensures
        r@ == row@,
{
    let mut r: Vec<usize> = Vec::new();
    let mut t: usize = 0;
    while t < row.len()
        invariant
            t <= row.len(),
            r@ == row@.take(t as int),
        decreases row.len() - t,
    {
        r.push(row[t]);
        assert(r@ == row@.take(t as int + 1));
        t = t + 1;
    }
    assert(row@.take(row@.len() as int) == row@);
    r
}

/// A graph with `n` vertices and no edges yet.
pub fn new_empty_graph(n: usize) -> (g: Vec<Vec<usize>>)
    ensures
        adj(g@).len() == n,
        edge_free(adj(g@)),
{
    let mut g: Vec<Vec<usize>> = Vec::new();
    let mut u: usize = 0;
    while u < n
        invariant
            u <= n,
            g.len() == u,
            forall|i: int| 0 <= i < u ==> (#[trigger] adj(g@)[i]).len() == 0,
        decreases n - u,
    {
        let ghost prev = g@;
        g.push(Vec::new());
        proof {
            assert forall|i: int| 0 <= i < u + 1 implies (#[trigger] adj(g@)[i]).len()
                == 0 by {
                if i < u {
                    assert(adj(prev)[i] == prev[i]@);
                    assert(g@[i] == prev[i]);
                }
                assert(adj(g@)[i] == g@[i]@);
            }
        }
        u = u + 1;
    }
    g
}

/// Replaces the adjacency row of vertex `u`.
pub fn set_row(digraph: &mut Vec<Vec<usize>>, u: usize, row: Vec<usize>)
    requires
        (u as int) < old(digraph).len(),
    ensures
        adj(final(digraph)@) == adj(old(digraph)@).update(u as int, row@),
{
    digraph.set(u, row);
    assert(adj(digraph@) =~~= adj(old(digraph)@).update(u as int, row@));
}

/// Whether the whole graph is well-formed with duplicate-free rows; callers
/// that received adjacency data from outside check it with this before
/// running the orderer or the enumerator.
pub fn check_graph(digraph: &Vec<Vec<usize>>) -> (r: bool)
    ensures
        r == (graph_wf(adj(digraph@)) && rows_distinct(adj(digraph@))),
{
    let n = digraph.len();
    let mut u: usize = 0;
    while u < n
        invariant
            u <= n,
            n == digraph.len(),
            forall|i: int, k: int|
                0 <= i < u && 0 <= k < adj(digraph@)[i].len()
                    ==> (#[trigger] adj(digraph@)[i][k]) < n,
            forall|i: int| 0 <= i < u ==> (#[trigger] adj(digraph@)[i]).no_duplicates(),
        decreases n - u,
    {
        let row = &digraph[u];
        let mut t: usize = 0;
        while t < row.len()
            invariant
                t <= row.len(),
                n == digraph.len(),
                (u as int) < digraph.len(),
                row@ == adj(digraph@)[u as int],
                forall|k: int| 0 <= k < t ==> (#[trigger] row@[k]) < n,
                forall|k1: int, k2: int| 0 <= k1 < k2 < t ==> row@[k1] != row@[k2],
            decreases row.len() - t,
        {
            if row[t] >= n {
                assert(adj(digraph@)[u as int][t as int] >= n);
                assert(!graph_wf(adj(digraph@)));
                return false;
            }
            let mut s: usize = 0;
            while s < t
                invariant
                    s <= t < row.len(),
                    n == digraph.len(),
                    (u as int) < digraph.len(),
                    row@ == adj(digraph@)[u as int],
                    forall|k1: int| 0 <= k1 < s ==> row@[k1] != row@[t as int],
                decreases t - s,
            {
                if row[s] == row[t] {
                    assert(adj(digraph@)[u as int][s as int]
                        == adj(digraph@)[u as int][t as int]);
                    assert(!adj(digraph@)[u as int].no_duplicates());
                    assert(!rows_distinct(adj(digraph@)));
                    return false;
                }
                s = s + 1;
            }
            t = t + 1;
        }
        assert(row@.no_duplicates());
        u = u + 1;
    }
    true
}

} // verus!
