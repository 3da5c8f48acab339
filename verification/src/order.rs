use vstd::prelude::*;
use crate::graph::{
    adj, graph_wf, has_edge, is_closed_walk, is_simple_cycle, edge_free,
    lemma_distinct_bounded_onto, lemma_distinct_bounded_missing, lemma_distinct_bounded_len,
};

verus! {

/// Every out-edge of `u` targets a vertex whose status is nonzero (placed).
pub open spec fn status_covered(g: Seq<Seq<usize>>, st: Seq<usize>, u: int) -> bool {
    forall|t: int| 0 <= t < g[u].len() ==> st[(#[trigger] g[u][t]) as int] != 0
}

/// Vertex `u` may be appended next: it is unplaced and all its out-edges
/// target placed vertices.
pub open spec fn status_appendable(g: Seq<Seq<usize>>, st: Seq<usize>, u: int) -> bool {
    &&& 0 <= u < g.len()
    &&& st[u] == 0
    &&& status_covered(g, st, u)
}

/// Vertex `u` may be appended after the prefix `placed`: it does not occur in
/// the prefix and all its out-edges target vertices that do.
pub open spec fn appendable_in(g: Seq<Seq<usize>>, placed: Seq<usize>, u: int) -> bool {
    &&& 0 <= u < g.len()
    &&& !placed.contains(u as usize)
    &&& forall|t: int| 0 <= t < g[u].len() ==> placed.contains(#[trigger] g[u][t])
}

/// Vertex `u` is the *first* appendable vertex in index order after `placed`:
/// the deterministic tie-break of the orderer.
pub open spec fn first_appendable(g: Seq<Seq<usize>>, placed: Seq<usize>, u: int) -> bool {
    &&& appendable_in(g, placed, u)
    &&& forall|w: int| 0 <= w < u ==> !appendable_in(g, placed, w)
}

/// The sequence was produced by repeated selection: each element is the first
/// appendable vertex after the prefix before it.  This pins the orderer's
/// output uniquely.
pub open spec fn is_selection_order(g: Seq<Seq<usize>>, ord: Seq<usize>) -> bool {
    forall|k: int|
        0 <= k < ord.len() ==> first_appendable(g, ord.take(k), (#[trigger] ord[k]) as int)
}

/// Every edge `u -> v` of the graph has `v` standing earlier than `u`.
pub open spec fn respects_edges(g: Seq<Seq<usize>>, ord: Seq<usize>) -> bool {
    forall|i: int, j: int|
        0 <= i < ord.len() && 0 <= j < ord.len()
            && has_edge(g, #[trigger] ord[i], #[trigger] ord[j]) ==> j < i
}

/// A valid ordering: a permutation of the vertices in which every dependency
/// of a package appears earlier than the package itself.
pub open spec fn is_valid_ordering(g: Seq<Seq<usize>>, ord: Seq<usize>) -> bool {
    &&& ord.len() == g.len()
    &&& ord.no_duplicates()
    &&& forall|i: int| 0 <= i < ord.len() ==> ((#[trigger] ord[i]) as int) < g.len()
    &&& respects_edges(g, ord)
}

/// Returns the first unplaced vertex (status zero) all of whose out-edges
/// target placed vertices, or `None` when no such vertex exists.
pub fn get_appendable_vertex(digraph: &Vec<Vec<usize>>, l_status: &Vec<usize>) -> (r: Option<
    usize,
>)
    requires
        graph_wf(adj(digraph@)),
        l_status.len() == digraph.len(),
    ensures
        match r {
            Some(u) => status_appendable(adj(digraph@), l_status@, u as int) && forall|w: int|
                0 <= w < u ==> !status_appendable(adj(digraph@), l_status@, w),
            None => forall|u: int|
                0 <= u < digraph.len() ==> !status_appendable(adj(digraph@), l_status@, u),
        },
{
    let n_vert = digraph.len();
    let mut u: usize = 0;
    while u < n_vert
        invariant
            graph_wf(adj(digraph@)),
            l_status.len() == digraph.len(),
            n_vert == digraph.len(),
            u <= n_vert,
            forall|w: int| 0 <= w < u ==> !status_appendable(adj(digraph@), l_status@, w),
        decreases n_vert - u,
    {
        if l_status[u] == 0 {
            let row = &digraph[u];
            proof {
                assert(row@ == adj(digraph@)[u as int]);
            }
            let mut n_uncover: usize = 0;
            let mut t: usize = 0;
            while t < row.len()
                invariant
                    graph_wf(adj(digraph@)),
                    l_status.len() == digraph.len(),
                    n_vert == digraph.len(),
                    (u as int) < digraph.len(),
                    row@ == adj(digraph@)[u as int],
                    t <= row.len(),
                    n_uncover <= t,
                    (n_uncover == 0) <==> (forall|k: int|
                        0 <= k < t ==> l_status@[(#[trigger] row@[k]) as int] != 0),
                decreases row.len() - t,
            {
                proof {
                    assert(adj(digraph@)[u as int][t as int] < n_vert);
                }
                if l_status[row[t]] == 0 {
                    n_uncover = n_uncover + 1;
                }
                t = t + 1;
            }
            if n_uncover == 0 {
                proof {
                    assert forall|k: int| 0 <= k < adj(digraph@)[u as int].len()
                        implies l_status@[(#[trigger] adj(digraph@)[u as int][k]) as int]
                        != 0 by {
                        assert(row@[k] == adj(digraph@)[u as int][k]);
                    }
                    assert(status_appendable(adj(digraph@), l_status@, u as int));
                }
                return Some(u);
            }
            proof {
                assert(!(forall|k: int|
                    0 <= k < row@.len() ==> l_status@[(#[trigger] row@[k]) as int] != 0));
                let k = choose|k: int|
                    0 <= k < row@.len() && l_status@[(row@[k]) as int] == 0;
                assert(adj(digraph@)[u as int][k] == row@[k]);
                assert(!status_covered(adj(digraph@), l_status@, u as int));
            }
        }
        u = u + 1;
    }
    None
}

/// Some out-edge of `u` targets an unplaced vertex.
spec fn has_unplaced_successor(g: Seq<Seq<usize>>, st: Seq<usize>, u: int) -> bool {
    exists|t: int| 0 <= t < g[u].len() && st[(#[trigger] g[u][t]) as int] == 0
}

/// A path is a sequence of distinct vertices joined by consecutive edges.
spec fn is_path(g: Seq<Seq<usize>>, p: Seq<usize>) -> bool {
    &&& p.len() >= 1
    &&& p.no_duplicates()
    &&& forall|i: int| 0 <= i < p.len() ==> ((#[trigger] p[i]) as int) < g.len()
    &&& forall|i: int| 0 <= i < p.len() - 1 ==> has_edge(g, #[trigger] p[i], p[i + 1])
}

/// Closing a path back onto its element at position `i` yields a simple cycle.
proof fn lemma_close_cycle(g: Seq<Seq<usize>>, p: Seq<usize>, i: int) -> (c: Seq<usize>)
    requires
        is_path(g, p),
        0 <= i < p.len(),
        has_edge(g, p[p.len() - 1], p[i]),
    ensures
        is_simple_cycle(g, c),
{
    let c = p.subrange(i, p.len() as int);
    assert(c.len() >= 1);
    assert(c[0] == p[i]);
    assert(c[c.len() - 1] == p[p.len() - 1]);
    assert forall|j: int| 0 <= j < c.len() - 1 implies has_edge(g, #[trigger] c[j], c[j + 1]) by {
        assert(c[j] == p[i + j]);
        assert(c[j + 1] == p[i + j + 1]);
    }
    assert(c.no_duplicates()) by {
        assert forall|a: int, b: int|
            0 <= a < c.len() && 0 <= b < c.len() && a != b implies c[a] != c[b] by {
            assert(c[a] == p[i + a]);
            assert(c[b] == p[i + b]);
        }
    }
    c
}

/// Appending a fresh successor of the last vertex keeps a path a path.
proof fn lemma_extend_path(g: Seq<Seq<usize>>, p: Seq<usize>, v: usize)
    requires
        is_path(g, p),
        (v as int) < g.len(),
        !p.contains(v),
        has_edge(g, p[p.len() - 1], v),
    ensures
        is_path(g, p.push(v)),
{
    let p2 = p.push(v);
    assert(p2.no_duplicates()) by {
        assert forall|a: int, b: int|
            0 <= a < p2.len() && 0 <= b < p2.len() && a != b implies p2[a] != p2[b] by {
            if a < p.len() && b < p.len() {
                assert(p2[a] == p[a]);
                assert(p2[b] == p[b]);
            } else if b == p.len() {
                assert(p2[b] == v);
                assert(p2[a] == p[a]);
                if p[a] == v {
                    assert(p.contains(v));
                }
            } else {
                assert(p2[a] == v);
                assert(p2[b] == p[b]);
                if p[b] == v {
                    assert(p.contains(v));
                }
            }
        }
    }
    assert forall|i: int| 0 <= i < p2.len() - 1 implies has_edge(
        g,
        #[trigger] p2[i],
        p2[i + 1],
    ) by {
        if i < p.len() - 1 {
            assert(p2[i] == p[i]);
            assert(p2[i + 1] == p[i + 1]);
        } else {
            assert(p2[i] == p[p.len() - 1]);
            assert(p2[i + 1] == v);
        }
    }
}

/// Extends a path of unplaced vertices until it revisits one of its own
/// elements, which closes a simple cycle.  The stuck hypothesis guarantees
/// that every unplaced vertex has an unplaced successor.
proof fn lemma_path_to_cycle(g: Seq<Seq<usize>>, st: Seq<usize>, p: Seq<usize>) -> (c: Seq<
    usize,
>)
    requires
        graph_wf(g),
        st.len() == g.len(),
        is_path(g, p),
        forall|i: int| 0 <= i < p.len() ==> st[(#[trigger] p[i]) as int] == 0,
        forall|u: int| 0 <= u < g.len() && st[u] == 0 ==> #[trigger] has_unplaced_successor(g, st, u),
    ensures
        is_simple_cycle(g, c),
    decreases g.len() - p.len(),
{
    let last = p[p.len() - 1];
    assert(st[last as int] == 0);
    assert(has_unplaced_successor(g, st, last as int));
    let t = choose|t: int| 0 <= t < g[last as int].len() && st[(g[last as int][t]) as int] == 0;
    let v = g[last as int][t];
    assert((v as int) < g.len());
    assert(g[last as int].contains(v));
    assert(has_edge(g, last, v));
    if p.contains(v) {
        let i = choose|i: int| 0 <= i < p.len() && p[i] == v;
        lemma_close_cycle(g, p, i)
    } else {
        lemma_distinct_bounded_len(p, g.len() as nat);
        if p.len() == g.len() {
            lemma_distinct_bounded_onto(p, g.len() as nat);
            assert(p.contains(v));
            assert(false);
        }
        assert(p.len() < g.len());
        lemma_extend_path(g, p, v);
        let p2 = p.push(v);
        assert forall|i: int| 0 <= i < p2.len() implies st[(#[trigger] p2[i]) as int] == 0 by {
            if i < p.len() {
                assert(p2[i] == p[i]);
            } else {
                assert(p2[i] == v);
            }
        }
        lemma_path_to_cycle(g, st, p2)
    }
}

/// When some vertex is unplaced and every unplaced vertex has an unplaced
/// successor, the graph holds a simple cycle.
proof fn lemma_stuck_has_cycle(g: Seq<Seq<usize>>, st: Seq<usize>)
    requires
        graph_wf(g),
        g.len() <= usize::MAX as nat,
        st.len() == g.len(),
        exists|u: int| 0 <= u < g.len() && st[u] == 0,
        forall|u: int| 0 <= u < g.len() && st[u] == 0 ==> #[trigger] has_unplaced_successor(g, st, u),
    ensures
        exists|c: Seq<usize>| is_simple_cycle(g, c),
{
    let u = choose|u: int| 0 <= u < g.len() && st[u] == 0;
    let p = seq![u as usize];
    assert((u as usize) as int == u);
    assert(p[0] == u as usize);
    assert(is_path(g, p));
    let c = lemma_path_to_cycle(g, st, p);
    assert(is_simple_cycle(g, c));
}

/// Runs the repeated-selection topological orderer.
///
/// On success the result is the unique selection order: a permutation of the
/// vertices in which every dependency of a package stands earlier than the
/// package, picked first-in-index-order at every step.  It returns `None`
/// exactly when the graph holds a cycle; a simple cycle then exists.
pub fn get_ordering(digraph: &Vec<Vec<usize>>) -> (r: Option<Vec<usize>>)
    requires
        graph_wf(adj(digraph@)),
    ensures
        match r {
            Some(ord) => {
                &&& is_valid_ordering(adj(digraph@), ord@)
                &&& is_selection_order(adj(digraph@), ord@)
                &&& forall|v: usize| (v as int) < digraph.len() ==> ord@.contains(v)
            },
            None => exists|c: Seq<usize>| is_simple_cycle(adj(digraph@), c),
        },
{
    let ghost g = adj(digraph@);
    let n_vert = digraph.len();
    let mut l_status: Vec<usize> = Vec::new();
    while l_status.len() < n_vert
        invariant
            l_status.len() <= n_vert,
            forall|i: int| 0 <= i < l_status.len() ==> l_status@[i] == 0,
        decreases n_vert - l_status.len(),
    {
        l_status.push(0);
    }
    let mut l_depend: Vec<usize> = Vec::new();
    let mut k: usize = 0;
    while k < n_vert
        invariant
            g == adj(digraph@),
            graph_wf(g),
            n_vert == digraph.len(),
            l_status.len() == n_vert,
            l_depend.len() == k,
            k <= n_vert,
            forall|i: int| 0 <= i < k ==> ((#[trigger] l_depend@[i]) as int) < n_vert,
            l_depend@.no_duplicates(),
            forall|v: int|
                0 <= v < n_vert ==> ((l_status@[v] != 0) <==> l_depend@.contains(v as usize)),
            is_selection_order(g, l_depend@),
        decreases n_vert - k,
    {
        let opt = get_appendable_vertex(digraph, &l_status);
        if let Some(vert) = opt {
            proof {
                assert(status_appendable(g, l_status@, vert as int));
                assert(!l_depend@.contains(vert));
                assert forall|t: int| 0 <= t < g[vert as int].len() implies l_depend@.contains(
                    #[trigger] g[vert as int][t],
                ) by {
                    assert((g[vert as int][t] as int) < n_vert);
                    assert(l_status@[g[vert as int][t] as int] != 0);
                }
                assert(appendable_in(g, l_depend@, vert as int));
                assert forall|w: int| 0 <= w < vert implies !appendable_in(
                    g,
                    l_depend@,
                    w,
                ) by {
                    if appendable_in(g, l_depend@, w) {
                        assert(!l_depend@.contains(w as usize));
                        assert(l_status@[w] == 0);
                        assert forall|t: int| 0 <= t < g[w].len() implies l_status@[(
                        #[trigger] g[w][t]) as int] != 0 by {
                            assert(l_depend@.contains(g[w][t]));
                            assert((g[w][t] as int) < n_vert);
                        }
                        assert(status_appendable(g, l_status@, w));
                        assert(false);
                    }
                }
                assert(first_appendable(g, l_depend@, vert as int));
            }
            let ghost prev = l_depend@;
            let ghost prev_st = l_status@;
            l_depend.push(vert);
            l_status.set(vert, 1);
            proof {
                assert(l_depend@ == prev.push(vert));
                assert(l_status@ == prev_st.update(vert as int, 1usize));
                assert(l_depend@.no_duplicates()) by {
                    assert forall|a: int, b: int|
                        0 <= a < l_depend@.len() && 0 <= b < l_depend@.len() && a != b
                        implies l_depend@[a] != l_depend@[b] by {
                        if a < prev.len() && b < prev.len() {
                            assert(l_depend@[a] == prev[a]);
                            assert(l_depend@[b] == prev[b]);
                        } else if b == prev.len() {
                            assert(l_depend@[b] == vert);
                            assert(l_depend@[a] == prev[a]);
                            if prev[a] == vert {
                                assert(prev.contains(vert));
                            }
                        } else {
                            assert(l_depend@[a] == vert);
                            assert(l_depend@[b] == prev[b]);
                            if prev[b] == vert {
                                assert(prev.contains(vert));
                            }
                        }
                    }
                }
                assert forall|v: int| 0 <= v < n_vert implies ((l_status@[v] != 0)
                    <==> l_depend@.contains(v as usize)) by {
                    if v == vert as int {
                        assert(l_status@[v] == 1);
                        assert(l_depend@[prev.len() as int] == vert);
                        assert(l_depend@.contains(vert));
                    } else {
                        assert(l_status@[v] == prev_st[v]);
                        if l_depend@.contains(v as usize) {
                            let i = choose|i: int|
                                0 <= i < l_depend@.len() && l_depend@[i] == v as usize;
                            assert(i < prev.len());
                            assert(prev[i] == v as usize);
                            assert(prev.contains(v as usize));
                        }
                        if prev.contains(v as usize) {
                            let i = choose|i: int| 0 <= i < prev.len() && prev[i] == v as usize;
                            assert(l_depend@[i] == v as usize);
                            assert(l_depend@.contains(v as usize));
                        }
                    }
                }
                assert forall|k2: int| 0 <= k2 < l_depend@.len() implies first_appendable(
                    g,
                    l_depend@.take(k2),
                    (#[trigger] l_depend@[k2]) as int,
                ) by {
                    assert(l_depend@.take(k2) =~= prev.take(k2));
                    if k2 < prev.len() {
                        assert(first_appendable(g, prev.take(k2), prev[k2] as int));
                        assert(l_depend@[k2] == prev[k2]);
                    } else {
                        assert(prev.take(k2) =~= prev);
                        assert(l_depend@[k2] == vert);
                    }
                }
            }
            k = k + 1;
        } else {
            proof {
                assert(l_depend@.len() < n_vert);
                lemma_distinct_bounded_missing(l_depend@, n_vert as nat);
                let miss = choose|v: usize| (v as nat) < n_vert && !l_depend@.contains(v);
                assert(l_status@[miss as int] == 0);
                assert forall|u: int|
                    0 <= u < g.len() && l_status@[u] == 0 implies #[trigger] has_unplaced_successor(
                    g,
                    l_status@,
                    u,
                ) by {
                    assert(!status_appendable(g, l_status@, u));
                    assert(!status_covered(g, l_status@, u));
                    let t = choose|t: int|
                        0 <= t < g[u].len() && l_status@[(g[u][t]) as int] == 0;
                    assert(0 <= t < g[u].len() && l_status@[(g[u][t]) as int] == 0);
                }
                lemma_stuck_has_cycle(g, l_status@);
            }
            return None;
        }
    }
    proof {
        lemma_distinct_bounded_onto(l_depend@, n_vert as nat);
        assert forall|i: int, j: int|
            0 <= i < l_depend@.len() && 0 <= j < l_depend@.len() && has_edge(
                g,
                #[trigger] l_depend@[i],
                #[trigger] l_depend@[j],
            ) implies j < i by {
            let ord = l_depend@;
            assert(first_appendable(g, ord.take(i), ord[i] as int));
            assert(g[ord[i] as int].contains(ord[j]));
            let t = choose|t: int|
                0 <= t < g[ord[i] as int].len() && g[ord[i] as int][t] == ord[j];
            assert(ord.take(i).contains(g[ord[i] as int][t]));
            let k2 = choose|k2: int| 0 <= k2 < i && ord.take(i)[k2] == ord[j];
            assert(ord[k2] == ord[j]);
            if k2 != j {
                assert(false);
            }
        }
        assert(is_valid_ordering(g, l_depend@));
    }
    Some(l_depend)
}

/// The position of vertex `v` in an ordering.
pub open spec fn position_in(ord: Seq<usize>, v: usize) -> int {
    choose|i: int| 0 <= i < ord.len() && ord[i] == v
}

/// Along a closed walk, positions in a valid ordering strictly decrease, so
/// the walk's `t`-th vertex stands at least `t` places before its first.
proof fn lemma_walk_positions(g: Seq<Seq<usize>>, c: Seq<usize>, ord: Seq<usize>, t: int)
    requires
        is_closed_walk(g, c),
        is_valid_ordering(g, ord),
        0 <= t < c.len(),
    ensures
        0 <= position_in(ord, c[t]) < ord.len(),
        ord[position_in(ord, c[t])] == c[t],
        position_in(ord, c[t]) <= position_in(ord, c[0]) - t,
    decreases t,
{
    lemma_distinct_bounded_onto(ord, g.len() as nat);
    assert(ord.contains(c[t]));
    let i = choose|i: int| 0 <= i < ord.len() && ord[i] == c[t];
    assert(0 <= position_in(ord, c[t]) < ord.len() && ord[position_in(ord, c[t])] == c[t]);
    if t > 0 {
        lemma_walk_positions(g, c, ord, t - 1);
        let p1 = position_in(ord, c[t - 1]);
        let p2 = position_in(ord, c[t]);
        assert(has_edge(g, c[t - 1], c[t]));
        assert(has_edge(g, ord[p1], ord[p2]));
        assert(p2 < p1);
    }
}

/// If the graph holds a cycle (any closed walk), then no sequence whatever is
/// a valid ordering: the orderer can never return a permutation for it.
pub proof fn lemma_cycle_excludes_ordering(g: Seq<Seq<usize>>, c: Seq<usize>, ord: Seq<usize>)
    requires
        is_closed_walk(g, c),
    ensures
        !is_valid_ordering(g, ord),
{
    if is_valid_ordering(g, ord) {
        let last = c.len() - 1;
        lemma_walk_positions(g, c, ord, 0);
        lemma_walk_positions(g, c, ord, last);
        let p0 = position_in(ord, c[0]);
        let pl = position_in(ord, c[last]);
        assert(has_edge(g, c[last], c[0]));
        assert(has_edge(g, ord[pl], ord[p0]));
        assert(p0 < pl);
        assert(pl <= p0 - last);
        assert(false);
    }
}

/// In a graph with no edges the selection order is the identity: the trivial
/// ordering `[0, 1, ..., n-1]`.
proof fn lemma_edge_free_prefix(g: Seq<Seq<usize>>, ord: Seq<usize>, k: int)
    requires
        edge_free(g),
        ord.len() == g.len(),
        is_selection_order(g, ord),
        0 <= k < ord.len(),
    ensures
        forall|j: int| 0 <= j <= k ==> (#[trigger] ord[j]) as int == j,
    decreases k,
{
    if k > 0 {
        lemma_edge_free_prefix(g, ord, k - 1);
    }
    assert(first_appendable(g, ord.take(k), ord[k] as int));
    assert(!ord.take(k).contains(ord[k]));
    if (ord[k] as int) < k {
        assert(ord.take(k)[ord[k] as int] == ord[ord[k] as int]);
        assert(ord[ord[k] as int] == ord[k]);
        assert(ord.take(k).contains(ord[k]));
        assert(false);
    }
    if (ord[k] as int) > k {
        assert(appendable_in(g, ord.take(k), k)) by {
            if ord.take(k).contains(k as usize) {
                let j = choose|j: int| 0 <= j < k && ord.take(k)[j] == k as usize;
                assert(ord[j] as int == j);
                assert(false);
            }
            assert(g[k].len() == 0);
        }
        assert(!appendable_in(g, ord.take(k), k));
        assert(false);
    }
}

/// A graph with zero edges yields the trivial ordering equal to index order,
/// and zero cycles: no closed walk exists in it, so any list of cycles the
/// enumerator could return is empty.
pub proof fn lemma_edge_free_trivial(g: Seq<Seq<usize>>, ord: Seq<usize>, cycles: Seq<Seq<usize>>)
    requires
        edge_free(g),
        ord.len() == g.len(),
        is_selection_order(g, ord),
        forall|i: int| 0 <= i < cycles.len() ==> is_closed_walk(g, #[trigger] cycles[i]),
    ensures
        forall|k: int| 0 <= k < ord.len() ==> (#[trigger] ord[k]) as int == k,
        cycles.len() == 0,
{
    if ord.len() > 0 {
        lemma_edge_free_prefix(g, ord, ord.len() - 1);
    }
    if cycles.len() > 0 {
        let c = cycles[0];
        assert(has_edge(g, c[c.len() - 1], c[0]));
        let u = c[c.len() - 1];
        assert(g[u as int].contains(c[0]));
        let t = choose|t: int| 0 <= t < g[u as int].len() && g[u as int][t] == c[0];
        assert((u as int) < g.len());
        assert(g[u as int].len() == 0);
        assert(false);
    }
}

} // verus!
