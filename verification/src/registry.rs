use vstd::prelude::*;
use vstd::string::*;
use crate::errors::AnalysisError;
use crate::text::names_equal;

verus! {

/// The views of a list of strings.
pub open spec fn views_of(lines: Seq<String>) -> Seq<Seq<char>> {
    lines.map_values(|s: String| s@)
}

/// The length of the view list equals the length of the string list.
pub broadcast proof fn lemma_views_len(s: Seq<String>)
    ensures
        (#[trigger] views_of(s)).len() == s.len(),
{
}

/// The view list is the elementwise view.
pub broadcast proof fn lemma_views_index(s: Seq<String>, k: int)
    requires
        0 <= k < s.len(),
    ensures
        #[trigger] views_of(s)[k] == s[k]@,
{
}

/// A line of the curated package list that is ignored.
pub open spec fn is_comment(line: Seq<char>) -> bool {
    line.len() > 0 && line[0] == '#'
}

/// The curated package names: the input lines in order, comment lines
/// skipped.
pub open spec fn curated(lines: Seq<Seq<char>>) -> Seq<Seq<char>>
    decreases lines.len(),
{
    if lines.len() == 0 {
        Seq::empty()
    } else {
        let rest = curated(lines.drop_last());
        if is_comment(lines.last()) {
            rest
        } else {
            rest.push(lines.last())
        }
    }
}

/// The registry of curated package names.  The index of a package is its
/// position in this order-preserving list; indices are dense, zero-based and
/// stable for the whole run.
pub struct Registry {
    names: Vec<String>,
}

impl View for Registry {
    type V = Seq<Seq<char>>;

    closed spec fn view(&self) -> Seq<Seq<char>> {
        views_of(self.names@)
    }
}

impl Registry {
    /// Builds the registry from the lines of the package-list file: comment
    /// lines are skipped, and a duplicate name among the rest is the fatal
    /// `DuplicatePackage` error, never a silent dedup.
    ///
    /// The result is a function of the input alone, so building the registry
    /// twice from the same lines gives identical index assignments.
    pub fn new(lines: &Vec<String>) -> (r: Result<Registry, AnalysisError>)
        ensures
            match r {
                Ok(reg) => reg@ == curated(views_of(lines@)) && reg@.no_duplicates(),
                Err(e) => e == AnalysisError::DuplicatePackage && !curated(
                    views_of(lines@),
                ).no_duplicates(),
            },
    {
        let mut names: Vec<String> = Vec::new();
        let mut i: usize = 0;
        while i < lines.len()
            invariant
                i <= lines.len(),
                views_of(names@) == curated(views_of(lines@).take(i as int)),
            decreases lines.len() - i,
        {
            let line = &lines[i];
            let keep = if line.as_str().unicode_len() == 0 {
                true
            } else {
                line.as_str().get_char(0) != '#'
            };
            let ghost prev = names@;
            if keep {
                names.push(line.clone());
            }
            proof {
                let lv = views_of(lines@);
                assert(lv.take(i + 1).drop_last() =~= lv.take(i as int));
                assert(lv.take(i + 1).last() == lv[i as int]);
                assert(lv[i as int] == lines@[i as int]@);
                if keep {
                    assert(!is_comment(lv[i as int]));
                    assert(views_of(names@) =~= views_of(prev).push(lines@[i as int]@));
                } else {
                    assert(is_comment(lv[i as int]));
                    assert(views_of(names@) =~= views_of(prev));
                }
            }
            i = i + 1;
        }
        proof {
            assert(views_of(lines@).take(lines@.len() as int) =~= views_of(lines@));
        }
        // The number of distinct names must equal the number of retained
        // lines; a duplicate is a fatal configuration error.
        let n = names.len();
        let mut a: usize = 0;
        while a < n
            invariant
                a <= n,
                n == names.len(),
                views_of(names@) == curated(views_of(lines@)),
                forall|x: int, y: int| 0 <= x < y < names@.len() && x < a ==> names@[x]@ != names@[y]@,
            decreases n - a,
        {
            let mut b: usize = a + 1;
            while b < n
                invariant
                    a < b <= n || (a + 1 == b && b > n),
                    a < n,
                    n == names.len(),
                    views_of(names@) == curated(views_of(lines@)),
                    forall|y: int| (a as int) < y < b ==> names@[a as int]@ != names@[y]@,
                decreases n - b,
            {
                if names_equal(names[a].as_str(), names[b].as_str()) {
                    proof {
                        let cs = curated(views_of(lines@));
                        assert(cs[a as int] == names@[a as int]@);
                        assert(cs[b as int] == names@[b as int]@);
                        assert(!cs.no_duplicates());
                    }
                    return Err(AnalysisError::DuplicatePackage);
                }
                b = b + 1;
            }
            a = a + 1;
        }
        proof {
            let cs = curated(views_of(lines@));
            assert forall|x: int, y: int|
                0 <= x < cs.len() && 0 <= y < cs.len() && x != y implies cs[x] != cs[y] by {
                if x < y {
                    assert(names@[x]@ != names@[y]@);
                } else {
                    assert(names@[y]@ != names@[x]@);
                }
                assert(cs[x] == names@[x]@);
                assert(cs[y] == names@[y]@);
            }
        }
        Ok(Registry { names })
    }

    /// How many packages are curated.
    pub fn len(&self) -> (n: usize)
        ensures
            n == self@.len(),
    {
        self.names.len()
    }

    /// The name at a given index.
    pub fn name_at(&self, i: usize) -> (r: &String)
        requires
            (i as int) < self@.len(),
        ensures
            r@ == self@[i as int],
    {
        &self.names[i]
    }

    /// The index assigned to a name: the first position holding it, or `None`
    /// when the name is not curated.
    pub fn index_of(&self, name: &str) -> (r: Option<usize>)
        ensures
            match r {
                Some(i) => (i as int) < self@.len() && self@[i as int] == name@ && forall|j: int|
                    0 <= j < i ==> self@[j] != name@,
                None => !self@.contains(name@),
            },
    {
        let mut i: usize = 0;
        while i < self.names.len()
            invariant
                i <= self.names.len(),
                forall|j: int| 0 <= j < i ==> self@[j] != name@,
            decreases self.names.len() - i,
        {
            if names_equal(self.names[i].as_str(), name) {
                return Some(i);
            }
            i = i + 1;
        }
        proof {
            if self@.contains(name@) {
                let j = choose|j: int| 0 <= j < self@.len() && self@[j] == name@;
                assert(false);
            }
        }
        None
    }
}

/// Indices are dense and repeat-free: in a registry without duplicate names,
/// each name determines its index uniquely, so the name-to-index mapping has
/// no gaps or repeats over `0..n-1`.
pub proof fn lemma_registry_indices(names: Seq<Seq<char>>)
    requires
        names.no_duplicates(),
    ensures
        forall|i: int, j: int|
            0 <= i < names.len() && 0 <= j < names.len() && names[i] == names[j] ==> i == j,
{
}

} // verus!
