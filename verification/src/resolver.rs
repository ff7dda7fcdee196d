use vstd::prelude::*;
use vstd::string::StrSliceExecFns;

verus! {

/// One locale variant: its directory-derived name (the output column header
/// and sort key) and the location of its source file.
#[derive(Clone, Debug)]
pub struct Configuration {
    pub name: String,
    pub strings_path: String,
}

/// Lexicographic order on character sequences, as directory names sort.
pub open spec fn lex_le(a: Seq<char>, b: Seq<char>) -> bool
    decreases a.len(),
{
    if a.len() == 0 {
        true
    } else if b.len() == 0 {
        false
    } else if a[0] < b[0] {
        true
    } else if b[0] < a[0] {
        false
    } else {
        lex_le(a.skip(1), b.skip(1))
    }
}

/// Decides the lexicographic order of two names.
pub fn str_le(a: &str, b: &str) -> (r: bool)
    ensures
        r == lex_le(a@, b@),
{
    let alen = a.unicode_len();
    let blen = b.unicode_len();
    let mut i: usize = 0;
    proof {
        assert(a@.skip(0) =~= a@);
        assert(b@.skip(0) =~= b@);
    }
    while i < alen && i < blen
        invariant
            i <= alen,
            i <= blen,
            alen == a@.len(),
            blen == b@.len(),
            lex_le(a@, b@) == lex_le(a@.skip(i as int), b@.skip(i as int)),
        decreases alen - i,
    {
        let ca = a.get_char(i);
        let cb = b.get_char(i);
        if ca < cb {
            return true;
        }
        if cb < ca {
            return false;
        }
        proof {
            assert(a@.skip(i as int).skip(1) =~= a@.skip(i + 1));
            assert(b@.skip(i as int).skip(1) =~= b@.skip(i + 1));
        }
        i = i + 1;
    }
    i == alen
}

/// The reserved prefix that a configuration directory's name must carry.
pub open spec fn is_values_prefixed(s: Seq<char>) -> bool {
    s.len() >= 6 && s.subrange(0, 6) == "values"@
}

/// Decides whether a directory name starts with the reserved prefix.
pub fn has_values_prefix(s: &str) -> (r: bool)
    ensures
        r == is_values_prefixed(s@),
{
    proof {
        reveal_strlit("values");
    }
    let p = "values";
    let len = s.unicode_len();
    if len < 6 {
        return false;
    }
    let mut i: usize = 0;
    while i < 6
        invariant
            i <= 6,
            len == s@.len(),
            len >= 6,
            p@ == "values"@,
            p@.len() == 6,
            forall|j: int| 0 <= j < i ==> s@[j] == "values"@[j],
        decreases 6 - i,
    {
        let c = s.get_char(i);
        let pc = p.get_char(i);
        if c != pc {
            proof {
                assert(s@[i as int] != "values"@[i as int]);
                if is_values_prefixed(s@) {
                    assert(s@.subrange(0, 6)[i as int] == s@[i as int]);
                }
            }
            return false;
        }
        i = i + 1;
    }
    proof {
        assert(s@.subrange(0, 6) =~= "values"@);
    }
    true
}

/// One subdirectory found under the root path: its name and, when the
/// expected source file exists inside it, that file's path.
pub struct CandidateDir {
    pub name: String,
    pub strings_path: Option<String>,
}

/// A subdirectory qualifies when its name carries the reserved prefix and it
/// holds the expected source file.
pub open spec fn qualifies(c: CandidateDir) -> bool {
    is_values_prefixed(c.name@) && c.strings_path is Some
}

/// Decides whether one subdirectory is a configuration.
pub fn as_configuration_or_none(candidate: CandidateDir) -> (r: Option<Configuration>)
    ensures
        match r {
            Some(c) => qualifies(candidate) && c.name == candidate.name && Some(c.strings_path)
                == candidate.strings_path,
            None => !qualifies(candidate),
        },
{
    if has_values_prefix(candidate.name.as_str()) {
        match candidate.strings_path {
            Some(p) => Some(Configuration { name: candidate.name, strings_path: p }),
            None => None,
        }
    } else {
        None
    }
}

/// The configurations that a list of subdirectories yields, in found order.
pub open spec fn configs_of(cs: Seq<CandidateDir>) -> Seq<Configuration>
    decreases cs.len(),
{
    if cs.len() == 0 {
        Seq::empty()
    } else {
        configs_of(cs.drop_last()) + (if qualifies(cs.last()) {
            seq![
                (Configuration {
                    name: cs.last().name,
                    strings_path: cs.last().strings_path->Some_0,
                }),
            ]
        } else {
            Seq::<Configuration>::empty()
        })
    }
}

/// Relies on itertools::Itertools::sorted_by, which collects the items and
/// stable-sorts them with the comparator (it calls slice::sort_by): the
/// result holds the same items, in ascending comparator order.
#[verifier::external_body]
fn sorted_by_name(v: Vec<Configuration>) -> (r: Vec<Configuration>)
    ensures
        r@.to_multiset() == v@.to_multiset(),
        forall|i: int, j: int| 0 <= i < j < r@.len() ==> lex_le(r@[i].name@, r@[j].name@),
{
    itertools::Itertools::sorted_by(
        v.into_iter(),
        |a: &Configuration, b: &Configuration| if str_le(a.name.as_str(), b.name.as_str()) {
            if str_le(b.name.as_str(), a.name.as_str()) {
                std::cmp::Ordering::Equal
            } else {
                std::cmp::Ordering::Less
            }
        } else {
            std::cmp::Ordering::Greater
        },
    ).collect()
}

/// Turns the subdirectories of the root path into the configuration list:
/// those with the reserved prefix and the expected source file, sorted
/// ascending by name. This sort order becomes the output column order. An
/// empty result is an informational outcome, not an error.
pub fn resolve_res_dir(candidates: Vec<CandidateDir>) -> (r: Vec<Configuration>)
    ensures
        r@.to_multiset() == configs_of(candidates@).to_multiset(),
        forall|i: int, j: int| 0 <= i < j < r@.len() ==> lex_le(r@[i].name@, r@[j].name@),
{
    let ghost cs = candidates@;
    let mut candidates = candidates;
    let mut picked: Vec<Configuration> = Vec::new();
    let ghost mut i: int = 0;
    proof {
        assert(cs.subrange(0, 0) =~= Seq::<CandidateDir>::empty());
        assert(picked@ =~= configs_of(cs.subrange(0, 0)));
    }
    while candidates.len() > 0
        invariant
            0 <= i <= cs.len(),
            candidates@ =~= cs.subrange(i, cs.len() as int),
            picked@ == configs_of(cs.subrange(0, i)),
        decreases candidates@.len(),
    {
        let c = candidates.remove(0);
        proof {
            assert(c == cs[i]);
            assert(cs.subrange(i, cs.len() as int).subrange(1, cs.len() - i) =~= cs.subrange(
                i + 1,
                cs.len() as int,
            ));
            assert(cs.subrange(0, i + 1).drop_last() =~= cs.subrange(0, i));
            assert(cs.subrange(0, i + 1).last() == c);
        }
        match as_configuration_or_none(c) {
            Some(cfg) => {
                picked.push(cfg);
                proof {
                    assert(picked@ =~= configs_of(cs.subrange(0, i)) + seq![cfg]);
                    assert(configs_of(cs.subrange(0, i + 1)) =~= configs_of(cs.subrange(0, i))
                        + seq![cfg]);
                }
            },
            None => {
                proof {
                    assert(configs_of(cs.subrange(0, i + 1)) =~= configs_of(cs.subrange(0, i)));
                }
            },
        }
        proof {
            i = i + 1;
        }
    }
    proof {
        assert(cs.subrange(0, cs.len() as int) =~= cs);
    }
    sorted_by_name(picked)
}

} // verus!
