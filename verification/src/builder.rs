use vstd::prelude::*;
use crate::errors::AnalysisError;
use crate::registry::{Registry, views_of};

verus! {

/// The form of a workspace-level dependency entry, as the root manifest
/// declares it.
#[derive(Clone, Debug)]
pub enum DependencyDescriptor {
    /// A bare version requirement.
    Version(String),
    /// A detailed table, possibly with a concrete local path.
    Detailed { path: Option<String> },
    /// Inherited from the workspace's own dependency table.
    Inherited,
}

/// Whether the descriptor names a concrete local filesystem path.
pub open spec fn has_local_path(d: DependencyDescriptor) -> bool {
    match d {
        DependencyDescriptor::Detailed { path } => path is Some,
        _ => false,
    }
}

/// The path the descriptor names.
pub open spec fn local_path_of(d: DependencyDescriptor) -> Seq<char> {
    match d {
        DependencyDescriptor::Detailed { path } => match path {
            Some(p) => p@,
            None => Seq::empty(),
        },
        _ => Seq::empty(),
    }
}

/// The concrete local path of a workspace dependency entry; an entry in any
/// other form is the fatal `UnresolvableDependencyDescriptor` error.
pub fn descriptor_path(descr: &DependencyDescriptor) -> (r: Result<String, AnalysisError>)
    ensures
        match r {
            Ok(p) => has_local_path(*descr) && p@ == local_path_of(*descr),
            Err(e) => e == AnalysisError::UnresolvableDependencyDescriptor && !has_local_path(
                *descr,
            ),
        },
{
    match descr {
        DependencyDescriptor::Detailed { path: Some(p) } => Ok(p.clone()),
        _ => Err(AnalysisError::UnresolvableDependencyDescriptor),
    }
}

/// One workspace dependency entry held against the registry: `Ok(None)` for a
/// name outside the curated set, the member's index and local path for a
/// curated one, and the fatal error for a curated entry without a concrete
/// local path — before any graph row is built from it.
pub fn resolve_member(reg: &Registry, name: &str, descr: &DependencyDescriptor) -> (r: Result<
    Option<(usize, String)>,
    AnalysisError,
>)
    ensures
        match r {
            Ok(opt) => match opt {
                Some(pair) => reg@.contains(name@) && (pair.0 as int) < reg@.len()
                    && reg@[pair.0 as int] == name@ && (forall|j: int|
                    0 <= j < pair.0 ==> reg@[j] != name@) && has_local_path(*descr) && pair.1@
                    == local_path_of(*descr),
                None => !reg@.contains(name@),
            },
            Err(e) => e == AnalysisError::UnresolvableDependencyDescriptor && reg@.contains(name@)
                && !has_local_path(*descr),
        },
{
    match reg.index_of(name) {
        None => Ok(None),
        Some(u) => {
            proof {
                assert(reg@[u as int] == name@);
                assert(reg@.contains(name@));
            }
            match descriptor_path(descr) {
                Ok(p) => Ok(Some((u, p))),
                Err(e) => Err(e),
            }
        },
    }
}

/// The first position of `x` in `names`.
pub open spec fn first_index(names: Seq<Seq<char>>, x: Seq<char>) -> int
    decreases names.len(),
{
    if names.len() == 0 {
        0
    } else if names[0] == x {
        0
    } else {
        1 + first_index(names.drop_first(), x)
    }
}

/// For a present name, `first_index` is a position holding it, before which
/// it does not occur.
proof fn lemma_first_index(names: Seq<Seq<char>>, x: Seq<char>)
    requires
        names.contains(x),
    ensures
        0 <= first_index(names, x) < names.len(),
        names[first_index(names, x)] == x,
        forall|j: int| 0 <= j < first_index(names, x) ==> names[j] != x,
    decreases names.len(),
{
    if names[0] == x {
    } else {
        let rest = names.drop_first();
        assert(rest.contains(x)) by {
            let k = choose|k: int| 0 <= k < names.len() && names[k] == x;
            assert(k >= 1);
            assert(rest[k - 1] == x);
        }
        lemma_first_index(rest, x);
        let f = first_index(rest, x);
        assert(names[1 + f] == rest[f]);
        assert forall|j: int| 0 <= j < 1 + f implies names[j] != x by {
            if j >= 1 {
                assert(rest[j - 1] == names[j]);
            }
        }
    }
}

/// The adjacency row built from a member's dependency names: each name that
/// is itself curated becomes its registry index, in order; names outside the
/// curated set are dropped, not an error.
pub open spec fn spec_row(names: Seq<Seq<char>>, deps: Seq<Seq<char>>) -> Seq<usize>
    decreases deps.len(),
{
    if deps.len() == 0 {
        Seq::empty()
    } else {
        let rest = spec_row(names, deps.drop_last());
        if names.contains(deps.last()) {
            rest.push(first_index(names, deps.last()) as usize)
        } else {
            rest
        }
    }
}

/// Maps a member's dependency names through the registry into its adjacency
/// row.  Every entry of the row is a vertex of the graph.
pub fn build_row(reg: &Registry, dep_names: &Vec<String>) -> (row: Vec<usize>)
    ensures
        row@ == spec_row(reg@, views_of(dep_names@)),
        forall|k: int| 0 <= k < row@.len() ==> ((#[trigger] row@[k]) as int) < reg@.len(),
{
    broadcast use crate::registry::lemma_views_len, crate::registry::lemma_views_index;

    let ghost dv = views_of(dep_names@);
    let mut row: Vec<usize> = Vec::new();
    let mut i: usize = 0;
    while i < dep_names.len()
        invariant
            dv == views_of(dep_names@),
            i <= dep_names.len(),
            row@ == spec_row(reg@, dv.take(i as int)),
            forall|k: int| 0 <= k < row@.len() ==> ((#[trigger] row@[k]) as int) < reg@.len(),
        decreases dep_names.len() - i,
    {
        let opt = reg.index_of(dep_names[i].as_str());
        proof {
            assert(dv.take(i + 1).drop_last() =~= dv.take(i as int));
            assert(dv.take(i + 1).last() == dv[i as int]);
            assert(dv[i as int] == dep_names@[i as int]@);
        }
        if let Some(idx) = opt {
            proof {
                assert(reg@[idx as int] == dep_names@[i as int]@);
                assert(reg@.contains(dv[i as int]));
                lemma_first_index(reg@, dv[i as int]);
                let f = first_index(reg@, dv[i as int]);
                if f < idx {
                    assert(reg@[f] != dep_names@[i as int]@);
                    assert(false);
                }
                if idx < f {
                    assert(reg@[idx as int] != dv[i as int]);
                    assert(false);
                }
                assert(idx as int == f);
            }
            row.push(idx);
        } else {
            proof {
                assert(!reg@.contains(dv[i as int]));
            }
        }
        i = i + 1;
    }
    proof {
        assert(dv.take(dv.len() as int) =~= dv);
    }
    row
}

} // verus!
