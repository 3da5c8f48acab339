use vstd::prelude::*;
use vstd::string::*;

verus! {

/// Strict lexicographic order on character sequences, by code point.
pub open spec fn lex_lt(a: Seq<char>, b: Seq<char>) -> bool
    decreases b.len(),
{
    if b.len() == 0 {
        false
    } else if a.len() == 0 {
        true
    } else if (a[0] as int) != (b[0] as int) {
        (a[0] as int) < (b[0] as int)
    } else {
        lex_lt(a.drop_first(), b.drop_first())
    }
}

/// When two sequences agree before position `i` and differ there, the one
/// with the smaller code point comes first.
proof fn lemma_lex_lt_from_diff(a: Seq<char>, b: Seq<char>, i: int)
    requires
        0 <= i < a.len(),
        i < b.len(),
        forall|j: int| 0 <= j < i ==> a[j] == b[j],
        (a[i] as int) < (b[i] as int),
    ensures
        lex_lt(a, b),
    decreases i,
{
    if i == 0 {
        assert((a[0] as int) != (b[0] as int));
    } else {
        assert(a[0] == b[0]);
        let a2 = a.drop_first();
        let b2 = b.drop_first();
        assert forall|j: int| 0 <= j < i - 1 implies a2[j] == b2[j] by {
            assert(a2[j] == a[j + 1]);
            assert(b2[j] == b[j + 1]);
        }
        assert(a2[i - 1] == a[i]);
        assert(b2[i - 1] == b[i]);
        lemma_lex_lt_from_diff(a2, b2, i - 1);
    }
}

/// A strict prefix comes before the longer sequence.
proof fn lemma_lex_lt_prefix(a: Seq<char>, b: Seq<char>)
    requires
        a.len() < b.len(),
        forall|j: int| 0 <= j < a.len() ==> a[j] == b[j],
    ensures
        lex_lt(a, b),
    decreases a.len(),
{
    if a.len() > 0 {
        let a2 = a.drop_first();
        let b2 = b.drop_first();
        assert forall|j: int| 0 <= j < a2.len() implies a2[j] == b2[j] by {
            assert(a2[j] == a[j + 1]);
            assert(b2[j] == b[j + 1]);
        }
        lemma_lex_lt_prefix(a2, b2);
    }
}

/// The lexicographic order is irreflexive.
pub proof fn lemma_lex_irrefl(a: Seq<char>)
    ensures
        !lex_lt(a, a),
    decreases a.len(),
{
    if a.len() > 0 {
        lemma_lex_irrefl(a.drop_first());
    }
}

/// The lexicographic order is transitive.
pub proof fn lemma_lex_trans(a: Seq<char>, b: Seq<char>, c: Seq<char>)
    requires
        lex_lt(a, b),
        lex_lt(b, c),
    ensures
        lex_lt(a, c),
    decreases a.len() + b.len() + c.len(),
{
    if c.len() == 0 {
    } else if b.len() == 0 {
    } else if a.len() == 0 {
    } else {
        if (a[0] as int) == (b[0] as int) && (b[0] as int) == (c[0] as int) {
            lemma_lex_trans(a.drop_first(), b.drop_first(), c.drop_first());
        }
    }
}

/// Any two sequences are ordered or equal.
pub proof fn lemma_lex_total(a: Seq<char>, b: Seq<char>)
    ensures
        lex_lt(a, b) || lex_lt(b, a) || a == b,
    decreases a.len() + b.len(),
{
    if a.len() == 0 && b.len() == 0 {
        assert(a =~= b);
    } else if a.len() == 0 || b.len() == 0 {
    } else if (a[0] as int) != (b[0] as int) {
    } else {
        lemma_lex_total(a.drop_first(), b.drop_first());
        if !lex_lt(a, b) && !lex_lt(b, a) {
            assert(a.drop_first() == b.drop_first());
            assert(a =~= b) by {
                assert forall|j: int| 0 <= j < a.len() implies a[j] == b[j] by {
                    if j > 0 {
                        assert(a.drop_first()[j - 1] == a[j]);
                        assert(b.drop_first()[j - 1] == b[j]);
                    } else {
                        assert((a[0] as int) == (b[0] as int));
                        assert(a[0] == b[0]);
                    }
                }
            }
        }
    }
}

/// The three-way outcome of comparing two package names.
#[derive(Clone, Copy, PartialEq, Eq, Structural, Debug)]
pub enum NameOrder {
    Before,
    Same,
    After,
}

/// Three-way lexicographic comparison of two strings, by code point.
pub fn compare_names(a: &str, b: &str) -> (r: NameOrder)
    ensures
        match r {
            NameOrder::Before => lex_lt(a@, b@),
            NameOrder::Same => a@ == b@,
            NameOrder::After => lex_lt(b@, a@),
        },
{
    let alen = a.unicode_len();
    let blen = b.unicode_len();
    let mut i: usize = 0;
    while i < alen && i < blen
        invariant
            i <= alen,
            i <= blen,
            alen == a@.len(),
            blen == b@.len(),
            forall|j: int| 0 <= j < i ==> a@[j] == b@[j],
        decreases alen - i,
    {
        let ca = a.get_char(i);
        let cb = b.get_char(i);
        if (ca as u32) < (cb as u32) {
            proof {
                assert((a@[i as int] as int) < (b@[i as int] as int));
                lemma_lex_lt_from_diff(a@, b@, i as int);
            }
            return NameOrder::Before;
        }
        if (cb as u32) < (ca as u32) {
            proof {
                assert((b@[i as int] as int) < (a@[i as int] as int));
                lemma_lex_lt_from_diff(b@, a@, i as int);
            }
            return NameOrder::After;
        }
        proof {
            assert(a@[i as int] == b@[i as int]);
        }
        i = i + 1;
    }
    if alen < blen {
        proof {
            lemma_lex_lt_prefix(a@, b@);
        }
        return NameOrder::Before;
    }
    if blen < alen {
        proof {
            lemma_lex_lt_prefix(b@, a@);
        }
        return NameOrder::After;
    }
    proof {
        assert(a@ =~= b@);
    }
    NameOrder::Same
}

/// Whether two strings hold the same characters.
pub fn names_equal(a: &str, b: &str) -> (r: bool)
    ensures
        r == (a@ == b@),
{
    match compare_names(a, b) {
        NameOrder::Same => true,
        NameOrder::Before => {
            proof {
                lemma_lex_irrefl(a@);
            }
            false
        },
        NameOrder::After => {
            proof {
                lemma_lex_irrefl(a@);
            }
            false
        },
    }
}

/// A manifest key normalised to identifier syntax: each `-` becomes `_`.
pub open spec fn normalized(s: Seq<char>) -> Seq<char> {
    s.map_values(|c: char| if c == '-' { '_' } else { c })
}

/// Replaces every `-` with `_`, as source code written against the package
/// would spell its name.
pub fn normalize_name(name: &str) -> (r: String)
    ensures
        r@ == normalized(name@),
{
    let n = name.unicode_len();
    let mut r = String::new();
    let mut i: usize = 0;
    while i < n
        invariant
            i <= n,
            n == name@.len(),
            r@ == normalized(name@).take(i as int),
        decreases n - i,
    {
        let c = name.get_char(i);
        if c == '-' {
            r.append("_");
            proof {
                reveal_strlit("_");
                assert(r@ =~= normalized(name@).take(i as int + 1));
            }
        } else {
            let piece = name.substring_char(i, i + 1);
            r.append(piece);
            proof {
                assert(piece@[0] == name@[i as int]);
                assert(r@ =~= normalized(name@).take(i as int + 1));
            }
        }
        i = i + 1;
    }
    proof {
        assert(normalized(name@).take(n as int) =~= normalized(name@));
    }
    r
}

/// Whether `needle` occurs contiguously somewhere inside `hay`.
pub open spec fn occurs(needle: Seq<char>, hay: Seq<char>) -> bool {
    exists|i: int|
        0 <= i && i + needle.len() <= hay.len() && #[trigger] hay.subrange(i, i + needle.len())
            == needle
}

/// Whether `needle` stands at position `i` of `hay`.
fn match_at(needle: &str, hay: &str, i: usize) -> (r: bool)
    requires
        i as int + needle@.len() <= hay@.len(),
        hay@.len() <= usize::MAX as nat,
    ensures
        r == (hay@.subrange(i as int, i as int + needle@.len() as int) == needle@),
{
    let nl = needle.unicode_len();
    let mut j: usize = 0;
    while j < nl
        invariant
            j <= nl,
            nl == needle@.len(),
            i as int + nl as int <= hay@.len(),
            hay@.len() <= usize::MAX as nat,
            forall|x: int| 0 <= x < j ==> hay@[i + x] == needle@[x],
        decreases nl - j,
    {
        let ch = hay.get_char(i + j);
        let cn = needle.get_char(j);
        if ch != cn {
            proof {
                let sub = hay@.subrange(i as int, i as int + nl as int);
                assert(sub[j as int] == hay@[i + j]);
                if sub == needle@ {
                    assert(sub[j as int] == needle@[j as int]);
                    assert(false);
                }
            }
            return false;
        }
        j = j + 1;
    }
    proof {
        assert(hay@.subrange(i as int, i as int + nl as int) =~= needle@);
    }
    true
}

/// The substring scan of the unused-dependency heuristic.
pub fn occurs_in(needle: &str, hay: &str) -> (r: bool)
    ensures
        r == occurs(needle@, hay@),
{
    let nl = needle.unicode_len();
    let hl = hay.unicode_len();
    if nl > hl {
        proof {
            assert(!occurs(needle@, hay@));
        }
        return false;
    }
    if nl == 0 {
        proof {
            let l = needle@.len() as int;
            assert(hay@.subrange(0, 0 + l) =~= needle@);
            assert(occurs(needle@, hay@));
        }
        return true;
    }
    let mut i: usize = 0;
    while i <= hl - nl
        invariant
            1 <= nl <= hl,
            nl == needle@.len(),
            hl == hay@.len(),
            i <= hl - nl + 1,
            forall|k: int|
                0 <= k < i ==> #[trigger] hay@.subrange(k, k + needle@.len() as int) != needle@,
        decreases hl - nl - i + 1,
    {
        if match_at(needle, hay, i) {
            proof {
                assert(0 <= i as int && i as int + needle@.len() <= hay@.len());
                assert(occurs(needle@, hay@));
            }
            return true;
        }
        i = i + 1;
    }
    proof {
        if occurs(needle@, hay@) {
            let k = choose|k: int|
                0 <= k && k + needle@.len() <= hay@.len() && #[trigger] hay@.subrange(
                    k,
                    k + needle@.len(),
                ) == needle@;
            assert(k < i);
            assert(false);
        }
    }
    false
}

/// Whether `s` ends with the given suffix.
pub open spec fn has_suffix(s: Seq<char>, suffix: Seq<char>) -> bool {
    s.len() >= suffix.len() && s.subrange(s.len() - suffix.len(), s.len() as int) == suffix
}

/// Whether a string ends with the given suffix (a file extension, say).
pub fn ends_with_str(s: &str, suffix: &str) -> (r: bool)
    ensures
        r == has_suffix(s@, suffix@),
{
    let sl = s.unicode_len();
    let xl = suffix.unicode_len();
    if xl > sl {
        return false;
    }
    match_at(suffix, s, sl - xl)
}

/// The manifest file inside a package directory.
pub fn manifest_path_of(dir: &str) -> (r: String)
    ensures
        r@ == dir@ + "/Cargo.toml"@,
{
    let mut r = String::from_str(dir);
    r.append("/Cargo.toml");
    r
}

} // verus!
