use vstd::prelude::*;
use crate::errors::AnalysisError;
use crate::registry::views_of;
use crate::text::{compare_names, names_equal, lex_lt, lemma_lex_irrefl, lemma_lex_trans,
    lemma_lex_total, NameOrder};

verus! {

/// The dependency scope selector: `partial` reads only the direct
/// dependencies, `full` also the development dependencies.
#[derive(Clone, Copy, PartialEq, Eq, Structural, Debug)]
pub enum Scope {
    Partial,
    Full,
}

/// Parses the scope token; anything but the two literal tokens is the fatal
/// `InvalidScopeSelector` error.
pub fn parse_scope(token: &str) -> (r: Result<Scope, AnalysisError>)
    ensures
        match r {
            Ok(s) => (s == Scope::Partial && token@ == "partial"@) || (s == Scope::Full
                && token@ == "full"@),
            Err(e) => e == AnalysisError::InvalidScopeSelector && token@ != "partial"@
                && token@ != "full"@,
        },
{
    if names_equal(token, "partial") {
        return Ok(Scope::Partial);
    }
    if names_equal(token, "full") {
        return Ok(Scope::Full);
    }
    Err(AnalysisError::InvalidScopeSelector)
}

/// What the resolver extracts from one package's manifest: the names of its
/// direct dependencies and of its development dependencies, each list as the
/// manifest's dependency table hands it out.
pub struct ManifestDeps {
    pub dependencies: Vec<String>,
    pub dev_dependencies: Vec<String>,
}

/// Strictly increasing in the lexicographic order, hence duplicate-free.
pub open spec fn sorted_distinct(s: Seq<Seq<char>>) -> bool {
    forall|i: int, j: int| 0 <= i < j < s.len() ==> lex_lt(#[trigger] s[i], #[trigger] s[j])
}

/// Whether `name` comes strictly before `other`.
fn name_lt(a: &String, b: &String) -> (r: bool)
    ensures
        r == lex_lt(a@, b@),
{
    match compare_names(a.as_str(), b.as_str()) {
        NameOrder::Before => true,
        NameOrder::Same => {
            proof {
                lemma_lex_irrefl(a@);
            }
            false
        },
        NameOrder::After => {
            proof {
                if lex_lt(a@, b@) {
                    lemma_lex_trans(a@, b@, a@);
                    lemma_lex_irrefl(a@);
                }
            }
            false
        },
    }
}

/// Inserts a name into a sorted duplicate-free list, keeping it sorted and
/// duplicate-free; inserting a name already present changes nothing.
fn insert_sorted(acc: Vec<String>, name: &String) -> (r: Vec<String>)
    requires
        sorted_distinct(views_of(acc@)),
    ensures
        sorted_distinct(views_of(r@)),
        forall|x: Seq<char>| #[trigger]
            views_of(r@).contains(x) <==> (views_of(acc@).contains(x) || x == name@),
{
    broadcast use crate::registry::lemma_views_len, crate::registry::lemma_views_index;

    let ghost av = views_of(acc@);
    let n = acc.len();
    let mut out: Vec<String> = Vec::new();
    let mut i: usize = 0;
    while i < n && name_lt(&acc[i], name)
        invariant
            i <= n,
            n == acc.len(),
            av == views_of(acc@),
            sorted_distinct(av),
            views_of(out@) == av.take(i as int),
            forall|j: int| 0 <= j < i ==> lex_lt(#[trigger] av[j], name@),
        decreases n - i,
    {
        let ghost prev = out@;
        out.push(acc[i].clone());
        proof {
            assert(views_of(prev) == av.take(i as int));
            assert(views_of(out@) =~= av.take(i + 1));
        }
        i = i + 1;
    }
    let ghost i0 = i as int;
    if i < n && names_equal(acc[i].as_str(), name.as_str()) {
        while i < n
            invariant
                0 <= i0 < n,
                i0 <= i <= n,
                n == acc.len(),
                av == views_of(acc@),
                av[i0] == name@,
                views_of(out@) == av.take(i as int),
            decreases n - i,
        {
            let ghost prev = out@;
            out.push(acc[i].clone());
            proof {
                assert(views_of(prev) == av.take(i as int));
                assert(views_of(prev).len() == prev.len());
                assert(out@ == prev.push(acc@[i as int]));
                assert(views_of(out@) =~= views_of(prev).push(acc@[i as int]@));
                assert(av.take(i + 1) =~= av.take(i as int).push(views_of(acc@)[i as int]));
                assert(views_of(out@) == av.take(i + 1));
            }
            i = i + 1;
        }
        proof {
            assert(av.take(n as int) =~= av);
            assert(av[i0] == name@);
            assert(av.contains(name@));
        }
        return out;
    }
    proof {
        if i0 < n {
            lemma_lex_total(av[i0], name@);
            assert(!lex_lt(av[i0], name@));
            assert(av[i0] != name@);
            assert(lex_lt(name@, av[i0]));
        }
    }
    let ghost mid = out@;
    out.push(name.clone());
    proof {
        assert(views_of(mid) == av.take(i0));
        assert forall|k: int| 0 <= k < i0 implies #[trigger] views_of(out@)[k] == av[k] by {
            assert(out@[k] == mid[k]);
            assert(views_of(mid)[k] == av.take(i0)[k]);
        }
        assert(views_of(out@)[i0] == name@);
    }
    while i < n
        invariant
            0 <= i0 <= i <= n,
            n == acc.len(),
            av == views_of(acc@),
            sorted_distinct(av),
            forall|j: int| 0 <= j < i0 ==> lex_lt(#[trigger] av[j], name@),
            i0 < n ==> lex_lt(name@, av[i0]),
            out@.len() == i - i0 + i0 + 1,
            forall|k: int| 0 <= k < i0 ==> #[trigger] views_of(out@)[k] == av[k],
            views_of(out@)[i0] == name@,
            forall|k: int| i0 < k < out@.len() ==> #[trigger] views_of(out@)[k] == av[k - 1],
        decreases n - i,
    {
        let ghost prev = out@;
        out.push(acc[i].clone());
        proof {
            assert(views_of(prev).len() == prev.len());
            assert(out@ == prev.push(acc@[i as int]));
            assert forall|k: int| 0 <= k < out@.len() - 1 implies #[trigger] views_of(out@)[k]
                == views_of(prev)[k] by {
                assert(out@[k] == prev[k]);
                assert(views_of(out@)[k] == out@[k]@);
                assert(views_of(prev)[k] == prev[k]@);
            }
            assert(views_of(out@)[out@.len() - 1] == out@[out@.len() - 1]@);
            assert(out@[out@.len() - 1] == acc@[i as int]);
            assert(views_of(acc@)[i as int] == acc@[i as int]@);
            assert(views_of(out@)[out@.len() - 1] == av[i as int]);
            assert(out@.len() == prev.len() + 1);
            assert(views_of(prev)[i0] == name@);
            assert(views_of(out@)[i0] == views_of(prev)[i0]);
            assert(views_of(out@)[i0] == name@);
            assert forall|k: int| i0 < k < out@.len() implies #[trigger] views_of(out@)[k]
                == av[k - 1] by {
                if k < out@.len() - 1 {
                    assert(views_of(out@)[k] == views_of(prev)[k]);
                    assert(views_of(prev)[k] == av[k - 1]);
                } else {
                    assert(views_of(out@)[k] == av[i as int]);
                }
            }
        }
        i = i + 1;
    }
    let ghost rv = views_of(out@);
    proof {
        assert(rv.len() == n + 1);
        assert forall|p: int| 0 <= p < rv.len() implies #[trigger] rv[p] == (if p < i0 {
            av[p]
        } else if p == i0 {
            name@
        } else {
            av[p - 1]
        }) by {
        }
        assert forall|p: int, q: int| 0 <= p < q < rv.len() implies lex_lt(
            #[trigger] rv[p],
            #[trigger] rv[q],
        ) by {
            if q < i0 {
            } else if q == i0 {
                assert(lex_lt(av[p], name@));
            } else if p < i0 {
                assert(lex_lt(av[p], av[q - 1]));
            } else if p == i0 {
                if q - 1 == i0 {
                    assert(lex_lt(name@, av[i0]));
                } else {
                    assert(lex_lt(av[i0], av[q - 1]));
                    lemma_lex_trans(name@, av[i0], av[q - 1]);
                }
            } else {
                assert(lex_lt(av[p - 1], av[q - 1]));
            }
        }
        assert forall|x: Seq<char>| #[trigger]
            rv.contains(x) implies (av.contains(x) || x == name@) by {
            let p = choose|p: int| 0 <= p < rv.len() && rv[p] == x;
            if p < i0 {
                assert(av[p] == x);
            } else if p > i0 {
                assert(av[p - 1] == x);
            }
        }
        assert forall|x: Seq<char>| av.contains(x) || x == name@ implies #[trigger] rv.contains(
            x,
        ) by {
            if x == name@ {
                assert(rv[i0] == x);
            } else {
                let p = choose|p: int| 0 <= p < av.len() && av[p] == x;
                if p < i0 {
                    assert(rv[p] == x);
                } else {
                    assert(rv[p + 1] == x);
                }
            }
        }
    }
    out
}

/// Membership in a prefix one element longer.
proof fn lemma_take_contains(s: Seq<Seq<char>>, i: int)
    requires
        0 <= i < s.len(),
    ensures
        forall|x: Seq<char>| #[trigger]
            s.take(i + 1).contains(x) <==> (s.take(i).contains(x) || x == s[i]),
{
    assert forall|x: Seq<char>| #[trigger]
        s.take(i + 1).contains(x) implies (s.take(i).contains(x) || x == s[i]) by {
        let p = choose|p: int| 0 <= p < i + 1 && #[trigger] s.take(i + 1)[p] == x;
        if p < i {
            assert(s.take(i)[p] == x);
        }
    }
    assert forall|x: Seq<char>| s.take(i).contains(x) || x == s[i] implies #[trigger] s.take(
        i + 1,
    ).contains(x) by {
        if x == s[i] {
            assert(s.take(i + 1)[i] == x);
        } else {
            let p = choose|p: int| 0 <= p < i && #[trigger] s.take(i)[p] == x;
            assert(s.take(i + 1)[p] == x);
        }
    }
}

/// The dependency names of one package for the requested scope.
///
/// `Partial` returns the direct dependencies exactly as listed.  `Full`
/// returns the union of direct and development dependencies, deduplicated and
/// in lexicographic order — which pins the result uniquely.
pub fn get_depends(manifest: &ManifestDeps, file_opt: Scope) -> (r: Vec<String>)
    ensures
        match file_opt {
            Scope::Partial => views_of(r@) == views_of(manifest.dependencies@),
            Scope::Full => sorted_distinct(views_of(r@)) && forall|x: Seq<char>| #[trigger]
                views_of(r@).contains(x) <==> (views_of(manifest.dependencies@).contains(x)
                    || views_of(manifest.dev_dependencies@).contains(x)),
        },
{
    broadcast use crate::registry::lemma_views_len, crate::registry::lemma_views_index;

    match file_opt {
        Scope::Partial => {
            let mut out: Vec<String> = Vec::new();
            let mut i: usize = 0;
            while i < manifest.dependencies.len()
                invariant
                    i <= manifest.dependencies.len(),
                    views_of(out@) == views_of(manifest.dependencies@).take(i as int),
                decreases manifest.dependencies.len() - i,
            {
                let ghost prev = out@;
                out.push(manifest.dependencies[i].clone());
                proof {
                    let dv = views_of(manifest.dependencies@);
                    assert(views_of(prev) == dv.take(i as int));
                    assert(views_of(prev).len() == prev.len());
                    assert(out@ == prev.push(manifest.dependencies@[i as int]));
                    assert(views_of(out@) =~= views_of(prev).push(
                        manifest.dependencies@[i as int]@,
                    ));
                    assert(dv.take(i + 1) =~= dv.take(i as int).push(
                        views_of(manifest.dependencies@)[i as int],
                    ));
                    assert(views_of(out@) == dv.take(i + 1));
                }
                i = i + 1;
            }
            proof {
                let dv = views_of(manifest.dependencies@);
                assert(dv.take(dv.len() as int) =~= dv);
            }
            out
        },
        Scope::Full => {
            let ghost dv = views_of(manifest.dependencies@);
            let ghost ev = views_of(manifest.dev_dependencies@);
            let mut out: Vec<String> = Vec::new();
            let mut i: usize = 0;
            while i < manifest.dependencies.len()
                invariant
                    i <= manifest.dependencies.len(),
                    dv == views_of(manifest.dependencies@),
                    ev == views_of(manifest.dev_dependencies@),
                    sorted_distinct(views_of(out@)),
                    forall|x: Seq<char>| #[trigger]
                        views_of(out@).contains(x) <==> dv.take(i as int).contains(x),
                decreases manifest.dependencies.len() - i,
            {
                out = insert_sorted(out, &manifest.dependencies[i]);
                proof {
                    assert(dv[i as int] == manifest.dependencies@[i as int]@);
                    lemma_take_contains(dv, i as int);
                }
                i = i + 1;
            }
            proof {
                assert(dv.take(dv.len() as int) =~= dv);
            }
            let mut j: usize = 0;
            while j < manifest.dev_dependencies.len()
                invariant
                    j <= manifest.dev_dependencies.len(),
                    dv == views_of(manifest.dependencies@),
                    ev == views_of(manifest.dev_dependencies@),
                    sorted_distinct(views_of(out@)),
                    forall|x: Seq<char>| #[trigger]
                        views_of(out@).contains(x) <==> (dv.contains(x) || ev.take(
                            j as int,
                        ).contains(x)),
                decreases manifest.dev_dependencies.len() - j,
            {
                out = insert_sorted(out, &manifest.dev_dependencies[j]);
                proof {
                    assert(ev[j as int] == manifest.dev_dependencies@[j as int]@);
                    lemma_take_contains(ev, j as int);
                }
                j = j + 1;
            }
            proof {
                assert(ev.take(ev.len() as int) =~= ev);
            }
            out
        },
    }
}


} // verus!
