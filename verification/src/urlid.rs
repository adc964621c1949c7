//! Recovering a package-version identity from a registry source URL: a
//! validated parser for URLs carrying a `crates/<name>/<version>` path
//! segment, used to feed report rows back into graph lookups.

use vstd::prelude::*;
use vstd::string::StrSliceExecFns;

use crate::version::{parse_version, semver_parse, PackageId, PackageIdView};

verus! {

/// Why a URL yields no identity: it is not a registry package URL at all,
/// or its version segment is not valid semantic-version syntax.
#[derive(Structural, PartialEq, Eq, Copy, Clone, Debug)]
pub enum RegistryUrlError {
    NotRegistry,
    InvalidVersion,
}

/// Whether the pattern occurs in `s` starting at position `i`.
pub open spec fn occurs_at(s: Seq<char>, pat: Seq<char>, i: int) -> bool {
    0 <= i && i + pat.len() <= s.len() && s.subrange(i, i + pat.len()) == pat
}

/// Whether the pattern occurs anywhere in `s`.
pub open spec fn contains_pat(s: Seq<char>, pat: Seq<char>) -> bool {
    exists|i: int| occurs_at(s, pat, i)
}

/// Whether `i` is the first position the pattern occurs at.
pub open spec fn is_first_at(s: Seq<char>, pat: Seq<char>, i: int) -> bool {
    occurs_at(s, pat, i) && forall|j: int| 0 <= j < i ==> !occurs_at(s, pat, j)
}

/// The first position the pattern occurs at.
pub open spec fn first_at(s: Seq<char>, pat: Seq<char>) -> int {
    choose|i: int| is_first_at(s, pat, i)
}

/// A first occurrence is the unique one the spec picks.
proof fn lemma_first_at_unique(s: Seq<char>, pat: Seq<char>, i: int)
    requires
        is_first_at(s, pat, i),
    ensures
        contains_pat(s, pat),
        first_at(s, pat) == i,
{
    assert(occurs_at(s, pat, i));
    let w = first_at(s, pat);
    assert(is_first_at(s, pat, w));
    if w < i {
        assert(!occurs_at(s, pat, w));
    }
    if i < w {
        assert(!occurs_at(s, pat, i));
    }
}

/// What the parser makes of a URL text: the identity in its
/// `crates/<name>/<version>` segment. A text without `crates.io`, without
/// `crates/`, or without a `/` after the name is not a registry package
/// URL; a version segment that is not valid semantic-version syntax is its
/// own error.
pub open spec fn spec_parse_registry_url(s: Seq<char>) -> Result<PackageIdView, RegistryUrlError> {
    if !contains_pat(s, "crates.io"@) || !contains_pat(s, "crates/"@) {
        Err(RegistryUrlError::NotRegistry)
    } else {
        let rest = s.subrange(first_at(s, "crates/"@) + "crates/"@.len(), s.len() as int);
        if !contains_pat(rest, "/"@) {
            Err(RegistryUrlError::NotRegistry)
        } else {
            let name = rest.subrange(0, first_at(rest, "/"@));
            let vtext = rest.subrange(first_at(rest, "/"@) + 1, rest.len() as int);
            match semver_parse(vtext) {
                Some(v) => Ok(PackageIdView { name, version: v }),
                None => Err(RegistryUrlError::InvalidVersion),
            }
        }
    }
}

/// The first occurrence of a pattern, by scanning every position.
fn find_pattern(s: &str, pat: &str) -> (r: Option<usize>)
    ensures
        match r {
            Some(i) => is_first_at(s@, pat@, i as int),
            None => !contains_pat(s@, pat@),
        },
{
    let n = s.unicode_len();
    let m = pat.unicode_len();
    if m > n {
        proof {
            assert forall|i: int| !occurs_at(s@, pat@, i) by {}
        }
        return None;
    }
    let mut i: usize = 0;
    while i <= n - m
        invariant
            n == s@.len(),
            m == pat@.len(),
            m <= n,
            i <= n - m + 1,
            forall|j: int| 0 <= j < i ==> !occurs_at(s@, pat@, j),
        decreases n + 1 - i,
    {
        let mut k: usize = 0;
        let mut ok = true;
        while k < m && ok
            invariant
                n == s@.len(),
                m == pat@.len(),
                m <= n,
                i <= n - m,
                k <= m,
                ok ==> forall|u: int| 0 <= u < k ==> s@[i + u] == pat@[u],
                !ok ==> k < m && s@[i + k as int] != pat@[k as int],
            decreases m - k, (if ok { 1int } else { 0int }),
        {
            if s.get_char(i + k) == pat.get_char(k) {
                k += 1;
            } else {
                ok = false;
            }
        }
        if ok {
            proof {
                assert(s@.subrange(i as int, i + m) =~= pat@);
                assert(occurs_at(s@, pat@, i as int));
            }
            return Some(i);
        }
        proof {
            assert(!occurs_at(s@, pat@, i as int)) by {
                if occurs_at(s@, pat@, i as int) {
                    assert(s@.subrange(i as int, i + m)[k as int] == pat@[k as int]);
                    assert(s@[i + k as int] == pat@[k as int]);
                }
            }
        }
        i += 1;
    }
    proof {
        assert forall|j: int| !occurs_at(s@, pat@, j) by {
            if occurs_at(s@, pat@, j) {
                assert(0 <= j <= n - m);
            }
        }
    }
    None
}

/// Recover the package-version identity a registry source URL points at:
/// the `<name>` and `<version>` of its first `crates/<name>/<version>`
/// path segment.
pub fn parse_registry_url(url: &str) -> (r: Result<PackageId, RegistryUrlError>)
    ensures
        match r {
            Ok(p) => spec_parse_registry_url(url@) == Ok::<PackageIdView, RegistryUrlError>(p@),
            Err(e) => spec_parse_registry_url(url@) == Err::<PackageIdView, RegistryUrlError>(e),
        },
{
    proof {
        reveal_strlit("crates.io");
        reveal_strlit("crates/");
        reveal_strlit("/");
    }
    let n = url.unicode_len();
    match find_pattern(url, "crates.io") {
        Some(_) => {
            proof {
                assert(contains_pat(url@, "crates.io"@)) by {
                    let i = choose|i: int| is_first_at(url@, "crates.io"@, i);
                }
            }
        },
        None => {
            return Err(RegistryUrlError::NotRegistry);
        },
    }
    let start = match find_pattern(url, "crates/") {
        Some(i) => i,
        None => {
            return Err(RegistryUrlError::NotRegistry);
        },
    };
    proof {
        lemma_first_at_unique(url@, "crates/"@, start as int);
        assert("crates/"@.len() == 7);
    }
    let name_start = start + 7;
    let rest = url.substring_char(name_start, n);
    proof {
        assert(rest@ == url@.subrange(
            first_at(url@, "crates/"@) + "crates/"@.len(),
            url@.len() as int,
        ));
    }
    let rn = rest.unicode_len();
    let slash = match find_pattern(rest, "/") {
        Some(j) => j,
        None => {
            return Err(RegistryUrlError::NotRegistry);
        },
    };
    proof {
        lemma_first_at_unique(rest@, "/"@, slash as int);
        assert("/"@.len() == 1);
    }
    let name_str = rest.substring_char(0, slash);
    let vtext = rest.substring_char(slash + 1, rn);
    match parse_version(vtext) {
        Some(v) => {
            let p = PackageId { name: name_str.to_owned(), version: v };
            proof {
                assert(p@ =~= spec_parse_registry_url(url@)->Ok_0);
            }
            Ok(p)
        },
        None => Err(RegistryUrlError::InvalidVersion),
    }
}

} // verus!
