use vstd::prelude::*;
use crate::graph::{
    adj, graph_wf, rows_distinct, has_edge, is_closed_walk, is_simple_cycle, is_anchored,
    row_contains, copy_row, lemma_distinct_bounded_len,
};

verus! {

/// A partial path grown by the enumerator for anchor `a`: it starts at the
/// anchor, every later vertex is strictly greater than the anchor, no vertex
/// repeats, and consecutive vertices are joined by edges.
spec fn anchored_path(g: Seq<Seq<usize>>, a: usize, p: Seq<usize>) -> bool {
    &&& p.len() >= 1
    &&& p[0] == a
    &&& p.no_duplicates()
    &&& forall|i: int| 0 <= i < p.len() ==> ((#[trigger] p[i]) as int) < g.len()
    &&& forall|j: int| 1 <= j < p.len() ==> a < #[trigger] p[j]
    &&& forall|i: int| 0 <= i < p.len() - 1 ==> has_edge(g, #[trigger] p[i], p[i + 1])
}

/// What the enumerator guarantees of each entry: every one is a simple cycle
/// anchored at its minimum-index vertex (so each cycle has one canonical
/// representative), and no entry repeats.
pub open spec fn cycle_list_ok(g: Seq<Seq<usize>>, cs: Seq<Seq<usize>>) -> bool {
    &&& forall|i: int|
        0 <= i < cs.len() ==> is_simple_cycle(g, #[trigger] cs[i]) && is_anchored(cs[i])
    &&& forall|i: int, j: int| 0 <= i < j < cs.len() ==> cs[i] != cs[j]
}

/// No proper prefix of the cycle closes back to its anchor.  The expansion
/// emits a path as soon as it closes and never extends it further, so a
/// cycle with an early-closing prefix is subsumed by the shorter cycle that
/// prefix yields.
pub open spec fn no_early_closure(g: Seq<Seq<usize>>, c: Seq<usize>) -> bool {
    forall|j: int| 0 <= j < c.len() - 1 ==> !has_edge(g, #[trigger] c[j], c[0])
}

/// A cycle the enumerator reports: a simple cycle in canonical anchored form,
/// none of whose proper prefixes closes back to the anchor.
pub open spec fn is_reported_cycle(g: Seq<Seq<usize>>, c: Seq<usize>) -> bool {
    is_simple_cycle(g, c) && is_anchored(c) && no_early_closure(g, c)
}

/// Anchors never decrease across the list, and within one anchor the lengths
/// never decrease: the enumeration runs anchor by anchor, level by level.
pub open spec fn emission_ordered(cs: Seq<Seq<usize>>) -> bool {
    forall|i: int, j: int|
        0 <= i < j < cs.len() ==> ((#[trigger] cs[i])[0] < (#[trigger] cs[j])[0] || (cs[i][0]
            == cs[j][0] && cs[i].len() <= cs[j].len()))
}

/// Membership of a sequence among the views of a list of vectors.
spec fn in_list(cs: Seq<Vec<usize>>, c: Seq<usize>) -> bool {
    exists|m: int| 0 <= m < cs.len() && (#[trigger] cs[m])@ == c
}

/// The same pairwise order as `emission_ordered`, over a list of vectors.
spec fn pairwise_ordered(cs: Seq<Vec<usize>>) -> bool {
    forall|m1: int, m2: int|
        0 <= m1 < m2 < cs.len() ==> ((#[trigger] cs[m1])@[0] < (#[trigger] cs[m2])@[0] || (
        cs[m1]@[0] == cs[m2]@[0] && cs[m1]@.len() <= cs[m2]@.len()))
}

/// Extending the proper prefix `c.take(level)` of a reported cycle by the
/// cycle's next vertex: the prefix does not close, the next vertex qualifies,
/// and the extension is the next prefix.
proof fn lemma_prefix_facts(g: Seq<Seq<usize>>, c: Seq<usize>, level: int)
    requires
        is_reported_cycle(g, c),
        1 <= level < c.len(),
    ensures
        c.take(level)[level - 1] == c[level - 1],
        !has_edge(g, c[level - 1], c[0]),
        has_edge(g, c[level - 1], c[level]),
        c[0] < c[level],
        !c.take(level).contains(c[level]),
        c.take(level).push(c[level]) =~= c.take(level + 1),
{
    assert(c.take(level)[level - 1] == c[level - 1]);
    assert(c[0] < c[level]);
    if c.take(level).contains(c[level]) {
        let j = choose|j: int| 0 <= j < level && c.take(level)[j] == c[level];
        assert(c[j] == c[level]);
        assert(false);
    }
}

/// Enumerates the simple cycles of the graph by level-by-level expansion of
/// anchored paths, anchor by anchor in increasing index order.
///
/// Soundness: each entry is a simple cycle that closes back onto its first
/// vertex and is anchored at its minimum index, and no entry repeats.
/// Completeness: every reported-form cycle — one none of whose proper
/// prefixes closes early — is in the result.  The entries come anchor by
/// anchor and, within one anchor, level by level.
pub fn get_shortest_cycles(digraph: &Vec<Vec<usize>>) -> (cycles: Vec<Vec<usize>>)
    requires
        graph_wf(adj(digraph@)),
        rows_distinct(adj(digraph@)),
    ensures
        cycle_list_ok(adj(digraph@), adj(cycles@)),
        emission_ordered(adj(cycles@)),
        forall|c: Seq<usize>| #[trigger]
            is_reported_cycle(adj(digraph@), c) ==> adj(cycles@).contains(c),
{
    let ghost g = adj(digraph@);
    let n_vert = digraph.len();
    let mut cycles: Vec<Vec<usize>> = Vec::new();
    let mut i_vert: usize = 0;
    while i_vert < n_vert
        invariant
            g == adj(digraph@),
            graph_wf(g),
            rows_distinct(g),
            n_vert == digraph.len(),
            i_vert <= n_vert,
            forall|m: int|
                0 <= m < cycles@.len() ==> is_simple_cycle(g, (#[trigger] cycles@[m])@)
                    && is_anchored(cycles@[m]@) && (cycles@[m]@[0] as int) < i_vert,
            forall|m1: int, m2: int|
                0 <= m1 < m2 < cycles@.len() ==> cycles@[m1]@ != cycles@[m2]@,
            pairwise_ordered(cycles@),
            forall|c: Seq<usize>| #[trigger]
                is_reported_cycle(g, c) && (c[0] as int) < i_vert ==> in_list(cycles@, c),
        decreases n_vert - i_vert,
    {
        let mut seed: Vec<usize> = Vec::new();
        seed.push(i_vert);
        let mut cycles_a: Vec<Vec<usize>> = Vec::new();
        cycles_a.push(seed);
        let ghost anchor_start = cycles@.len() as int;
        let ghost mut level: int = 1;
        proof {
            assert(cycles_a@[0]@ =~= seq![i_vert]);
            assert(anchored_path(g, i_vert, cycles_a@[0]@));
            assert forall|c: Seq<usize>| #[trigger]
                is_reported_cycle(g, c) && c[0] == i_vert && c.len() >= 1 implies in_list(
                cycles_a@,
                c.take(1),
            ) by {
                assert(c.take(1) =~= seq![i_vert]);
                assert(cycles_a@[0]@ == c.take(1));
            }
            assert forall|c: Seq<usize>| #[trigger]
                is_reported_cycle(g, c) && c[0] == i_vert && c.len() < 1 implies in_list(
                cycles@,
                c,
            ) by {
                assert(c.len() >= 1);
            }
        }
        while cycles_a.len() > 0
            invariant
                g == adj(digraph@),
                graph_wf(g),
                rows_distinct(g),
                n_vert == digraph.len(),
                (i_vert as int) < n_vert,
                level >= 1,
                forall|m: int|
                    0 <= m < cycles_a@.len() ==> anchored_path(g, i_vert, (#[trigger] cycles_a@[m])@)
                        && cycles_a@[m]@.len() == level,
                forall|m1: int, m2: int|
                    0 <= m1 < m2 < cycles_a@.len() ==> cycles_a@[m1]@ != cycles_a@[m2]@,
                0 <= anchor_start <= cycles@.len(),
                forall|m: int|
                    0 <= m < anchor_start ==> ((#[trigger] cycles@[m])@[0] as int) < i_vert,
                forall|m: int|
                    anchor_start <= m < cycles@.len() ==> (#[trigger] cycles@[m])@[0] == i_vert
                        && cycles@[m]@.len() < level,
                forall|m: int|
                    0 <= m < cycles@.len() ==> is_simple_cycle(g, (#[trigger] cycles@[m])@)
                        && is_anchored(cycles@[m]@),
                forall|m1: int, m2: int|
                    0 <= m1 < m2 < cycles@.len() ==> cycles@[m1]@ != cycles@[m2]@,
                pairwise_ordered(cycles@),
                forall|c: Seq<usize>| #[trigger]
                    is_reported_cycle(g, c) && (c[0] as int) < i_vert ==> in_list(cycles@, c),
                forall|c: Seq<usize>| #[trigger]
                    is_reported_cycle(g, c) && c[0] == i_vert && c.len() < level ==> in_list(
                        cycles@,
                        c,
                    ),
                forall|c: Seq<usize>| #[trigger]
                    is_reported_cycle(g, c) && c[0] == i_vert && c.len() >= level ==> in_list(
                        cycles_a@,
                        c.take(level),
                    ),
            decreases n_vert + 1 - level,
        {
            proof {
                lemma_distinct_bounded_len(cycles_a@[0]@, n_vert as nat);
                assert(level <= n_vert);
            }
            let mut cycles_b: Vec<Vec<usize>> = Vec::new();
            let ghost level_start = cycles@.len() as int;
            let mut ia: usize = 0;
            while ia < cycles_a.len()
                invariant
                    g == adj(digraph@),
                    graph_wf(g),
                    rows_distinct(g),
                    n_vert == digraph.len(),
                    (i_vert as int) < n_vert,
                    level >= 1,
                    ia <= cycles_a.len(),
                    forall|m: int|
                        0 <= m < cycles_a@.len() ==> anchored_path(
                            g,
                            i_vert,
                            (#[trigger] cycles_a@[m])@,
                        ) && cycles_a@[m]@.len() == level,
                    forall|m1: int, m2: int|
                        0 <= m1 < m2 < cycles_a@.len() ==> cycles_a@[m1]@ != cycles_a@[m2]@,
                    forall|m: int|
                        0 <= m < cycles_b@.len() ==> anchored_path(
                            g,
                            i_vert,
                            (#[trigger] cycles_b@[m])@,
                        ) && cycles_b@[m]@.len() == level + 1 && exists|k: int|
                            0 <= k < ia && cycles_b@[m]@.take(level) == cycles_a@[k]@,
                    forall|m1: int, m2: int|
                        0 <= m1 < m2 < cycles_b@.len() ==> cycles_b@[m1]@ != cycles_b@[m2]@,
                    0 <= anchor_start <= level_start <= cycles@.len(),
                    forall|m: int|
                        0 <= m < anchor_start ==> ((#[trigger] cycles@[m])@[0] as int) < i_vert,
                    forall|m: int|
                        anchor_start <= m < level_start ==> (#[trigger] cycles@[m])@[0] == i_vert
                            && cycles@[m]@.len() < level,
                    forall|m: int|
                        level_start <= m < cycles@.len() ==> exists|k: int|
                            0 <= k < ia && (#[trigger] cycles@[m])@ == cycles_a@[k]@,
                    forall|m: int|
                        0 <= m < cycles@.len() ==> is_simple_cycle(g, (#[trigger] cycles@[m])@)
                            && is_anchored(cycles@[m]@),
                    forall|m1: int, m2: int|
                        0 <= m1 < m2 < cycles@.len() ==> cycles@[m1]@ != cycles@[m2]@,
                    pairwise_ordered(cycles@),
                    forall|c: Seq<usize>| #[trigger]
                        is_reported_cycle(g, c) && (c[0] as int) < i_vert ==> in_list(cycles@, c),
                    forall|c: Seq<usize>| #[trigger]
                        is_reported_cycle(g, c) && c[0] == i_vert && c.len() < level ==> in_list(
                            cycles@,
                            c,
                        ),
                    forall|m: int|
                        0 <= m < ia && has_edge(
                            g,
                            (#[trigger] cycles_a@[m])@[cycles_a@[m]@.len() - 1],
                            i_vert,
                        ) ==> in_list(cycles@, cycles_a@[m]@),
                    forall|m: int, v: usize|
                        0 <= m < ia && !has_edge(
                            g,
                            cycles_a@[m]@[cycles_a@[m]@.len() - 1],
                            i_vert,
                        ) && has_edge(g, cycles_a@[m]@[cycles_a@[m]@.len() - 1], v) && i_vert < v
                            && !cycles_a@[m]@.contains(v) ==> in_list(
                            cycles_b@,
                            #[trigger] cycles_a@[m]@.push(v),
                        ),
                decreases cycles_a.len() - ia,
            {
                let path = &cycles_a[ia];
                proof {
                    assert(anchored_path(g, i_vert, path@));
                }
                let last_vert = path[path.len() - 1];
                proof {
                    assert(path@[path@.len() - 1] == last_vert);
                    assert((last_vert as int) < n_vert);
                    assert(digraph@[last_vert as int]@ == g[last_vert as int]);
                }
                let is_cyc = row_contains(&digraph[last_vert], i_vert);
                if is_cyc {
                    let emitted = copy_row(path);
                    proof {
                        let ev = emitted@;
                        assert(ev == cycles_a@[ia as int]@);
                        assert(has_edge(g, last_vert, i_vert));
                        assert(ev[ev.len() - 1] == last_vert);
                        assert(ev[0] == i_vert);
                        assert(is_closed_walk(g, ev));
                        assert(is_simple_cycle(g, ev));
                        assert(is_anchored(ev));
                        assert forall|m: int| 0 <= m < cycles@.len() implies (#[trigger] cycles@[m])@
                            != ev by {
                            if m < anchor_start {
                                assert((cycles@[m]@[0] as int) < i_vert);
                                if cycles@[m]@ == ev {
                                    assert(cycles@[m]@[0] == ev[0]);
                                    assert(false);
                                }
                            } else if m < level_start {
                                assert(cycles@[m]@.len() < level);
                                if cycles@[m]@ == ev {
                                    assert(cycles@[m]@.len() == ev.len());
                                    assert(false);
                                }
                            } else {
                                let k = choose|k: int|
                                    0 <= k < ia && cycles@[m]@ == cycles_a@[k]@;
                                assert(cycles_a@[k]@ != cycles_a@[ia as int]@);
                            }
                        }
                    }
                    let ghost prev_cycles = cycles@;
                    cycles.push(emitted);
                    proof {
                        assert(cycles@ == prev_cycles.push(emitted));
                        assert(cycles@[cycles@.len() - 1]@ == cycles_a@[ia as int]@);
                        assert forall|c: Seq<usize>| in_list(prev_cycles, c) implies in_list(
                            cycles@,
                            c,
                        ) by {
                            let m = choose|m: int|
                                0 <= m < prev_cycles.len() && (#[trigger] prev_cycles[m])@ == c;
                            assert(cycles@[m]@ == c);
                        }
                        assert(in_list(cycles@, cycles_a@[ia as int]@)) by {
                            assert(cycles@[prev_cycles.len() as int]@ == cycles_a@[ia as int]@);
                        }
                        assert forall|m: int|
                            level_start <= m < cycles@.len() implies exists|k: int|
                            0 <= k < ia + 1 && (#[trigger] cycles@[m])@ == cycles_a@[k]@ by {
                            if m < prev_cycles.len() {
                                assert(cycles@[m] == prev_cycles[m]);
                                let k = choose|k: int|
                                    0 <= k < ia && prev_cycles[m]@ == cycles_a@[k]@;
                                assert(0 <= k < ia + 1 && cycles@[m]@ == cycles_a@[k]@);
                            } else {
                                assert(cycles@[m]@ == cycles_a@[ia as int]@);
                            }
                        }
                        assert forall|m1: int, m2: int|
                            0 <= m1 < m2 < cycles@.len() implies ((#[trigger] cycles@[m1])@[0] < (
                        #[trigger] cycles@[m2])@[0] || (cycles@[m1]@[0] == cycles@[m2]@[0]
                            && cycles@[m1]@.len() <= cycles@[m2]@.len())) by {
                            if m2 < prev_cycles.len() {
                                assert(cycles@[m1] == prev_cycles[m1]);
                                assert(cycles@[m2] == prev_cycles[m2]);
                            } else {
                                assert(cycles@[m2]@ == cycles_a@[ia as int]@);
                                assert(cycles@[m2]@[0] == i_vert);
                                assert(cycles@[m2]@.len() == level);
                                assert(cycles@[m1] == prev_cycles[m1]);
                                if m1 < anchor_start {
                                    assert((cycles@[m1]@[0] as int) < i_vert);
                                } else if m1 < level_start {
                                    assert(cycles@[m1]@[0] == i_vert);
                                    assert(cycles@[m1]@.len() < level);
                                } else {
                                    let k = choose|k: int|
                                        0 <= k < ia && prev_cycles[m1]@ == cycles_a@[k]@;
                                    assert(cycles@[m1]@[0] == i_vert);
                                    assert(cycles@[m1]@.len() == level);
                                }
                            }
                        }
                    }
                } else {
                    let row = &digraph[last_vert];
                    proof {
                        assert(row@ == g[last_vert as int]);
                        assert(row@.no_duplicates());
                    }
                    let ghost b_start = cycles_b@.len() as int;
                    let mut t: usize = 0;
                    while t < row.len()
                        invariant
                            g == adj(digraph@),
                            graph_wf(g),
                            rows_distinct(g),
                            n_vert == digraph.len(),
                            (i_vert as int) < n_vert,
                            level >= 1,
                            (ia as int) < cycles_a.len(),
                            t <= row.len(),
                            row@ == g[last_vert as int],
                            row@.no_duplicates(),
                            (last_vert as int) < n_vert,
                            path == cycles_a[ia as int],
                            anchored_path(g, i_vert, path@),
                            path@.len() == level,
                            path@[path@.len() - 1] == last_vert,
                            !row@.contains(i_vert),
                            forall|m: int|
                                0 <= m < cycles_a@.len() ==> anchored_path(
                                    g,
                                    i_vert,
                                    (#[trigger] cycles_a@[m])@,
                                ) && cycles_a@[m]@.len() == level,
                            forall|m1: int, m2: int|
                                0 <= m1 < m2 < cycles_a@.len() ==> cycles_a@[m1]@
                                    != cycles_a@[m2]@,
                            0 <= b_start <= cycles_b@.len(),
                            forall|m: int|
                                0 <= m < b_start ==> anchored_path(
                                    g,
                                    i_vert,
                                    (#[trigger] cycles_b@[m])@,
                                ) && cycles_b@[m]@.len() == level + 1 && exists|k: int|
                                    0 <= k < ia && cycles_b@[m]@.take(level) == cycles_a@[k]@,
                            forall|m: int|
                                b_start <= m < cycles_b@.len() ==> anchored_path(
                                    g,
                                    i_vert,
                                    (#[trigger] cycles_b@[m])@,
                                ) && cycles_b@[m]@.len() == level + 1
                                    && cycles_b@[m]@.take(level) == path@ && exists|t2: int|
                                    0 <= t2 < t && cycles_b@[m]@[level] == row@[t2],
                            forall|m1: int, m2: int|
                                0 <= m1 < m2 < cycles_b@.len() ==> cycles_b@[m1]@
                                    != cycles_b@[m2]@,
                            forall|m: int, v: usize|
                                0 <= m < ia && !has_edge(
                                    g,
                                    cycles_a@[m]@[cycles_a@[m]@.len() - 1],
                                    i_vert,
                                ) && has_edge(g, cycles_a@[m]@[cycles_a@[m]@.len() - 1], v)
                                    && i_vert < v && !cycles_a@[m]@.contains(v) ==> in_list(
                                    cycles_b@,
                                    #[trigger] cycles_a@[m]@.push(v),
                                ),
                            forall|t2: int|
                                0 <= t2 < t && i_vert < (#[trigger] row@[t2])
                                    && !path@.contains(row@[t2]) ==> in_list(
                                    cycles_b@,
                                    path@.push(row@[t2]),
                                ),
                        decreases row.len() - t,
                    {
                        let new_vert = row[t];
                        if new_vert > i_vert {
                            let inpath = row_contains(path, new_vert);
                            if !inpath {
                                let mut cycle_b = copy_row(path);
                                cycle_b.push(new_vert);
                                proof {
                                    let bv = cycle_b@;
                                    assert(bv == path@.push(new_vert));
                                    assert(bv.take(level) =~= path@);
                                    assert((new_vert as int) < n_vert);
                                    assert(has_edge(g, last_vert, new_vert)) by {
                                        assert(row@[t as int] == new_vert);
                                    }
                                    assert(anchored_path(g, i_vert, bv)) by {
                                        assert(bv[0] == i_vert);
                                        assert(bv.no_duplicates()) by {
                                            assert forall|a: int, b: int|
                                                0 <= a < bv.len() && 0 <= b < bv.len() && a != b
                                                implies bv[a] != bv[b] by {
                                                if a < path@.len() && b < path@.len() {
                                                    assert(bv[a] == path@[a]);
                                                    assert(bv[b] == path@[b]);
                                                } else if b == path@.len() {
                                                    assert(bv[b] == new_vert);
                                                    assert(bv[a] == path@[a]);
                                                    if path@[a] == new_vert {
                                                        assert(path@.contains(new_vert));
                                                    }
                                                } else {
                                                    assert(bv[a] == new_vert);
                                                    assert(bv[b] == path@[b]);
                                                    if path@[b] == new_vert {
                                                        assert(path@.contains(new_vert));
                                                    }
                                                }
                                            }
                                        }
                                        assert forall|i: int|
                                            0 <= i < bv.len() - 1 implies has_edge(
                                            g,
                                            #[trigger] bv[i],
                                            bv[i + 1],
                                        ) by {
                                            if i < path@.len() - 1 {
                                                assert(bv[i] == path@[i]);
                                                assert(bv[i + 1] == path@[i + 1]);
                                            } else {
                                                assert(bv[i] == last_vert);
                                                assert(bv[i + 1] == new_vert);
                                            }
                                        }
                                    }
                                    assert forall|m: int|
                                        0 <= m < cycles_b@.len() implies (#[trigger] cycles_b@[m])@
                                        != bv by {
                                        if m < b_start {
                                            let k = choose|k: int|
                                                0 <= k < ia && cycles_b@[m]@.take(level)
                                                    == cycles_a@[k]@;
                                            assert(cycles_a@[k]@ != cycles_a@[ia as int]@);
                                            assert(cycles_a@[ia as int]@ == path@);
                                            if cycles_b@[m]@ == bv {
                                                assert(cycles_b@[m]@.take(level) == bv.take(
                                                    level,
                                                ));
                                                assert(false);
                                            }
                                        } else {
                                            let t2 = choose|t2: int|
                                                0 <= t2 < t && cycles_b@[m]@[level] == row@[t2];
                                            assert(row@[t2] != row@[t as int]);
                                            assert(bv[level] == new_vert);
                                            if cycles_b@[m]@ == bv {
                                                assert(cycles_b@[m]@[level] == bv[level]);
                                                assert(false);
                                            }
                                        }
                                    }
                                }
                                let ghost prev_b = cycles_b@;
                                cycles_b.push(cycle_b);
                                proof {
                                    assert(cycles_b@ == prev_b.push(cycle_b));
                                    assert(cycles_b@[cycles_b@.len() - 1]@[level]
                                        == row@[t as int]);
                                    assert forall|c: Seq<usize>| in_list(prev_b, c)
                                        implies in_list(cycles_b@, c) by {
                                        let m = choose|m: int|
                                            0 <= m < prev_b.len() && (#[trigger] prev_b[m])@ == c;
                                        assert(cycles_b@[m]@ == c);
                                    }
                                    assert(in_list(cycles_b@, path@.push(row@[t as int]))) by {
                                        assert(cycles_b@[prev_b.len() as int]@ == path@.push(
                                            row@[t as int],
                                        ));
                                    }
                                }
                            } else {
                                proof {
                                    assert(path@.contains(new_vert));
                                }
                            }
                        }
                        t = t + 1;
                    }
                    proof {
                        assert forall|m: int|
                            0 <= m < cycles_b@.len() implies anchored_path(
                            g,
                            i_vert,
                            (#[trigger] cycles_b@[m])@,
                        ) && cycles_b@[m]@.len() == level + 1 && exists|k: int|
                            0 <= k < ia + 1 && cycles_b@[m]@.take(level) == cycles_a@[k]@ by {
                            if m < b_start {
                                let k = choose|k: int|
                                    0 <= k < ia && cycles_b@[m]@.take(level) == cycles_a@[k]@;
                                assert(0 <= k < ia + 1 && cycles_b@[m]@.take(level)
                                    == cycles_a@[k]@);
                            } else {
                                assert(cycles_b@[m]@.take(level) == path@);
                                assert(path@ == cycles_a@[ia as int]@);
                            }
                        }
                        // Every qualifying successor of this non-closing path
                        // now has its extension in the next level.
                        assert forall|v: usize|
                            has_edge(g, last_vert, v) && i_vert < v && !path@.contains(v)
                            implies in_list(cycles_b@, path@.push(v)) by {
                            let t2 = choose|t2: int|
                                0 <= t2 < g[last_vert as int].len() && g[last_vert as int][t2]
                                    == v;
                            assert(row@[t2] == v);
                        }
                        assert(!has_edge(g, last_vert, i_vert));
                    }
                }
                ia = ia + 1;
            }
            proof {
                // All closing paths of this level are now emitted...
                assert forall|c: Seq<usize>| #[trigger]
                    is_reported_cycle(g, c) && c[0] == i_vert && c.len() < level + 1
                    implies in_list(cycles@, c) by {
                    if c.len() >= level {
                        assert(c.len() == level);
                        assert(in_list(cycles_a@, c.take(level)));
                        let m = choose|m: int|
                            0 <= m < cycles_a@.len() && (#[trigger] cycles_a@[m])@ == c.take(
                                level,
                            );
                        assert(c.take(level) =~= c);
                        assert(has_edge(g, c[c.len() - 1], c[0]));
                        assert(cycles_a@[m]@[cycles_a@[m]@.len() - 1] == c[c.len() - 1]);
                        assert(in_list(cycles@, cycles_a@[m]@));
                    }
                }
                // ... and every longer reported cycle has its next prefix in
                // the new frontier.
                assert forall|c: Seq<usize>| #[trigger]
                    is_reported_cycle(g, c) && c[0] == i_vert && c.len() >= level + 1
                    implies in_list(cycles_b@, c.take(level + 1)) by {
                    assert(in_list(cycles_a@, c.take(level)));
                    let m = choose|m: int|
                        0 <= m < cycles_a@.len() && (#[trigger] cycles_a@[m])@ == c.take(level);
                    lemma_prefix_facts(g, c, level);
                    assert(cycles_a@[m]@[cycles_a@[m]@.len() - 1] == c[level - 1]);
                    assert(i_vert < c[level]);
                    assert(!cycles_a@[m]@.contains(c[level]));
                    assert(in_list(cycles_b@, cycles_a@[m]@.push(c[level])));
                    assert(cycles_a@[m]@.push(c[level]) == c.take(level + 1));
                }
            }
            cycles_a = cycles_b;
            proof {
                level = level + 1;
            }
        }
        proof {
            assert forall|c: Seq<usize>| #[trigger]
                is_reported_cycle(g, c) && (c[0] as int) < i_vert + 1 implies in_list(
                cycles@,
                c,
            ) by {
                if (c[0] as int) >= i_vert {
                    assert(c[0] == i_vert);
                    if c.len() >= level {
                        assert(in_list(cycles_a@, c.take(level)));
                        let m = choose|m: int|
                            0 <= m < cycles_a@.len() && (#[trigger] cycles_a@[m])@ == c.take(
                                level,
                            );
                        assert(false);
                    }
                }
            }
        }
        i_vert = i_vert + 1;
    }
    proof {
        assert forall|i: int| 0 <= i < adj(cycles@).len() implies is_simple_cycle(
            g,
            #[trigger] adj(cycles@)[i],
        ) && is_anchored(adj(cycles@)[i]) by {
            assert(adj(cycles@)[i] == cycles@[i]@);
        }
        assert forall|i: int, j: int| 0 <= i < j < adj(cycles@).len() implies adj(cycles@)[i]
            != adj(cycles@)[j] by {
            assert(adj(cycles@)[i] == cycles@[i]@);
            assert(adj(cycles@)[j] == cycles@[j]@);
        }
        assert forall|i: int, j: int| 0 <= i < j < adj(cycles@).len() implies ((
        #[trigger] adj(cycles@)[i])[0] < (#[trigger] adj(cycles@)[j])[0] || (adj(cycles@)[i][0]
            == adj(cycles@)[j][0] && adj(cycles@)[i].len() <= adj(cycles@)[j].len())) by {
            assert(adj(cycles@)[i] == cycles@[i]@);
            assert(adj(cycles@)[j] == cycles@[j]@);
        }
        assert forall|c: Seq<usize>| #[trigger]
            is_reported_cycle(adj(digraph@), c) implies adj(cycles@).contains(c) by {
            assert((c[0] as int) < g.len());
            assert(in_list(cycles@, c));
            let m = choose|m: int| 0 <= m < cycles@.len() && (#[trigger] cycles@[m])@ == c;
            assert(adj(cycles@)[m] == cycles@[m]@);
        }
    }
    cycles
}

} // verus!
