use vstd::prelude::*;
use crate::registry::views_of;
use crate::text::{normalize_name, normalized, occurs, occurs_in};

verus! {

/// The normalized dependency names that occur nowhere in the source text, in
/// declaration order: the candidates the heuristic flags as possibly unused.
pub open spec fn flagged(deps: Seq<Seq<char>>, text: Seq<char>) -> Seq<Seq<char>>
    decreases deps.len(),
{
    if deps.len() == 0 {
        Seq::empty()
    } else {
        let rest = flagged(deps.drop_last(), text);
        if occurs(normalized(deps.last()), text) {
            rest
        } else {
            rest.push(normalized(deps.last()))
        }
    }
}

/// Flags each dependency whose normalized name occurs nowhere in the
/// concatenated source text.  This is a bare substring scan with no
/// tokenization: it can both under- and over-report, which is inherent to
/// the heuristic, not a defect.
pub fn find_unused(dependencies: &Vec<String>, source_text: &str) -> (r: Vec<String>)
    ensures
        views_of(r@) == flagged(views_of(dependencies@), source_text@),
{
    broadcast use crate::registry::lemma_views_len, crate::registry::lemma_views_index;

    let ghost dv = views_of(dependencies@);
    let mut r: Vec<String> = Vec::new();
    let mut i: usize = 0;
    while i < dependencies.len()
        invariant
            dv == views_of(dependencies@),
            i <= dependencies.len(),
            views_of(r@) == flagged(dv.take(i as int), source_text@),
        decreases dependencies.len() - i,
    {
        let candidate = normalize_name(dependencies[i].as_str());
        let ghost cval = candidate@;
        let present = occurs_in(candidate.as_str(), source_text);
        proof {
            assert(dv.take(i + 1).drop_last() =~= dv.take(i as int));
            assert(dv.take(i + 1).last() == dv[i as int]);
            assert(dv[i as int] == dependencies@[i as int]@);
            assert(cval == normalized(dv[i as int]));
        }
        if !present {
            let ghost prev = r@;
            r.push(candidate);
            proof {
                assert(views_of(prev) == flagged(dv.take(i as int), source_text@));
                assert(views_of(prev).len() == prev.len());
                assert(views_of(r@) =~= views_of(prev).push(cval));
                assert(views_of(r@) == flagged(dv.take(i + 1), source_text@));
            }
        }
        i = i + 1;
    }
    proof {
        assert(dv.take(dv.len() as int) =~= dv);
    }
    r
}

} // verus!
