//! Package-version identities and the semantic-version operations the graph
//! needs: ordering, version parsing, and range matching, all supplied by the
//! `semver` crate behind trusted declarations.

use vstd::prelude::*;

verus! {

/// Mathematical value of a [`Version`].
#[verifier::ext_equal]
pub ghost struct VersionView {
    pub major: int,
    pub minor: int,
    pub patch: int,
    pub pre: Seq<char>,
    pub build: Seq<char>,
}

/// One published semantic version: the numeric triple plus the raw
/// pre-release and build-metadata identifiers (empty strings when absent).
#[derive(Debug)]
#[verifier::ext_equal]
pub struct Version {
    pub major: u64,
    pub minor: u64,
    pub patch: u64,
    pub pre: String,
    pub build: String,
}

impl View for Version {
    type V = VersionView;

    open spec fn view(&self) -> VersionView {
        VersionView {
            major: self.major as int,
            minor: self.minor as int,
            patch: self.patch as int,
            pre: self.pre@,
            build: self.build@,
        }
    }
}

/// The view of a version with the given numeric triple and no pre-release or
/// build identifiers.
pub open spec fn plain_version(major: u64, minor: u64, patch: u64) -> VersionView {
    VersionView {
        major: major as int,
        minor: minor as int,
        patch: patch as int,
        pre: Seq::empty(),
        build: Seq::empty(),
    }
}

impl Version {
    /// A version with no pre-release and no build metadata.
    pub fn new(major: u64, minor: u64, patch: u64) -> (r: Version)
        ensures
            r@ == plain_version(major, minor, patch),
    {
        let r = Version { major, minor, patch, pre: String::new(), build: String::new() };
        proof {
            assert(r@ =~= plain_version(major, minor, patch));
        }
        r
    }
}

impl Clone for Version {
    fn clone(&self) -> (r: Self)
        ensures
            r == *self,
    {
        let r = Version {
            major: self.major,
            minor: self.minor,
            patch: self.patch,
            pre: self.pre.clone(),
            build: self.build.clone(),
        };
        proof {
            assert(r =~= *self);
        }
        r
    }
}

impl PartialEq for Version {
    fn eq(&self, other: &Version) -> (r: bool) {
        let r = self.major == other.major && self.minor == other.minor && self.patch
            == other.patch && self.pre == other.pre && self.build == other.build;
        proof {
            if r {
                assert(self@ =~= other@);
            }
        }
        r
    }
}

impl vstd::std_specs::cmp::PartialEqSpecImpl for Version {
    open spec fn obeys_eq_spec() -> bool {
        true
    }

    open spec fn eq_spec(&self, other: &Version) -> bool {
        self@ == other@
    }
}

/// Mathematical value of a [`PackageId`].
#[verifier::ext_equal]
pub ghost struct PackageIdView {
    pub name: Seq<char>,
    pub version: VersionView,
}

/// Unique identity of one published package version: package name plus
/// version. No two nodes of a dependency graph share a `PackageId`.
#[derive(Debug)]
#[verifier::ext_equal]
pub struct PackageId {
    pub name: String,
    pub version: Version,
}

impl View for PackageId {
    type V = PackageIdView;

    open spec fn view(&self) -> PackageIdView {
        PackageIdView { name: self.name@, version: self.version@ }
    }
}

impl Clone for PackageId {
    fn clone(&self) -> (r: Self)
        ensures
            r == *self,
    {
        let r = PackageId { name: self.name.clone(), version: self.version.clone() };
        proof {
            assert(r =~= *self);
        }
        r
    }
}

impl PartialEq for PackageId {
    fn eq(&self, other: &PackageId) -> (r: bool) {
        let r = self.name == other.name && self.version == other.version;
        proof {
            if r {
                assert(self@ =~= other@);
            } else {
                assert(self@ != other@);
            }
        }
        r
    }
}

impl vstd::std_specs::cmp::PartialEqSpecImpl for PackageId {
    open spec fn obeys_eq_spec() -> bool {
        true
    }

    open spec fn eq_spec(&self, other: &PackageId) -> bool {
        self@ == other@
    }
}

/// Whether version `a` precedes version `b` in semantic-version order. The
/// order is `semver`'s: major, then minor, then patch, then the pre-release
/// and build identifier rules of that scheme.
pub uninterp spec fn semver_lt(a: VersionView, b: VersionView) -> bool;

/// Strict lexicographic order on the numeric triple alone.
pub open spec fn triple_lt(a: VersionView, b: VersionView) -> bool {
    ||| a.major < b.major
    ||| (a.major == b.major && a.minor < b.minor)
    ||| (a.major == b.major && a.minor == b.minor && a.patch < b.patch)
}

/// Whether the version satisfies the requirement text (a conventional
/// comma-separated comparator list such as `^1.2` or `>=1.0, <2.0`). A
/// requirement that does not parse matches nothing.
pub uninterp spec fn semver_req_matches(req: Seq<char>, v: VersionView) -> bool;

/// What `semver` recovers from a version text: `Some` exactly for valid
/// semantic-version syntax.
pub uninterp spec fn semver_parse(s: Seq<char>) -> Option<VersionView>;

/// The view of an optional version.
pub open spec fn opt_version_view(o: Option<Version>) -> Option<VersionView> {
    match o {
        Some(v) => Some(v@),
        None => None,
    }
}

/// Relies on `semver::Version`'s `Ord`: a total order determined by the five
/// fields alone (major, minor, patch, pre-release, build). A pre-release or
/// build field that is not valid identifier syntax is treated as absent.
/// When neither side carries identifiers, the order is the numeric one; the
/// `semver` source compares the triples first and empty identifiers tie.
#[verifier::external_body]
pub fn version_lt(a: &Version, b: &Version) -> (r: bool)
    ensures
        r == semver_lt(a@, b@),
        (a.pre@.len() == 0 && b.pre@.len() == 0 && a.build@.len() == 0 && b.build@.len() == 0)
            ==> r == triple_lt(a@, b@),
{
    let av = semver::Version {
        major: a.major,
        minor: a.minor,
        patch: a.patch,
        pre: semver::Prerelease::new(&a.pre).unwrap_or(semver::Prerelease::EMPTY),
        build: semver::BuildMetadata::new(&a.build).unwrap_or(semver::BuildMetadata::EMPTY),
    };
    let bv = semver::Version {
        major: b.major,
        minor: b.minor,
        patch: b.patch,
        pre: semver::Prerelease::new(&b.pre).unwrap_or(semver::Prerelease::EMPTY),
        build: semver::BuildMetadata::new(&b.build).unwrap_or(semver::BuildMetadata::EMPTY),
    };
    av < bv
}

/// Relies on `semver::VersionReq::parse` and `VersionReq::matches`: whether
/// the version satisfies the comparator list, which depends on the
/// requirement text and the version's fields alone. An unparsable
/// requirement matches nothing; an invalid pre-release or build field is
/// treated as absent.
#[verifier::external_body]
pub fn req_matches(req: &str, v: &Version) -> (r: bool)
    ensures
        r == semver_req_matches(req@, v@),
{
    match semver::VersionReq::parse(req) {
        Ok(parsed) => {
            let sv = semver::Version {
                major: v.major,
                minor: v.minor,
                patch: v.patch,
                pre: semver::Prerelease::new(&v.pre).unwrap_or(semver::Prerelease::EMPTY),
                build: semver::BuildMetadata::new(&v.build).unwrap_or(semver::BuildMetadata::EMPTY),
            };
            parsed.matches(&sv)
        },
        Err(_) => false,
    }
}

/// Relies on `semver::Version::parse`: `Some` exactly when the text is valid
/// semantic-version syntax, carrying the numeric triple and the raw
/// pre-release and build identifiers. The result depends on the text alone.
#[verifier::external_body]
pub fn parse_version(s: &str) -> (r: Option<Version>)
    ensures
        opt_version_view(r) == semver_parse(s@),
{
    match semver::Version::parse(s) {
        Ok(v) => Some(
            Version {
                major: v.major,
                minor: v.minor,
                patch: v.patch,
                pre: v.pre.as_str().to_owned(),
                build: v.build.as_str().to_owned(),
            },
        ),
        Err(_) => None,
    }
}

} // verus!
