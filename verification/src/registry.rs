//! The registry snapshot the graph is built from: published package-version
//! records with their declared dependency requirements, and the
//! latest-known-version index derived from them.

use vstd::prelude::*;

use crate::version::{semver_lt, version_lt, PackageId, PackageIdView, Version, VersionView};

verus! {

/// Mathematical value of a [`DependencyRequirement`].
#[verifier::ext_equal]
pub ghost struct DependencyRequirementView {
    pub name: Seq<char>,
    pub req: Seq<char>,
}

/// One dependency declaration: the depended-on package's name and the
/// version-range requirement text its versions must satisfy.
#[derive(Debug)]
#[verifier::ext_equal]
pub struct DependencyRequirement {
    pub name: String,
    pub req: String,
}

impl View for DependencyRequirement {
    type V = DependencyRequirementView;

    open spec fn view(&self) -> DependencyRequirementView {
        DependencyRequirementView { name: self.name@, req: self.req@ }
    }
}

impl Clone for DependencyRequirement {
    fn clone(&self) -> (r: Self)
        ensures
            r == *self,
    {
        let r = DependencyRequirement { name: self.name.clone(), req: self.req.clone() };
        proof {
            assert(r =~= *self);
        }
        r
    }
}

/// Mathematical value of a [`PackageRecord`].
#[verifier::ext_equal]
pub ghost struct PackageRecordView {
    pub id: PackageIdView,
    pub dependencies: Seq<DependencyRequirementView>,
}

/// One published package version together with its ordered dependency
/// declarations. Produced once per metadata record and never mutated.
#[verifier::ext_equal]
pub struct PackageRecord {
    pub id: PackageId,
    pub dependencies: Vec<DependencyRequirement>,
}

impl View for PackageRecord {
    type V = PackageRecordView;

    open spec fn view(&self) -> PackageRecordView {
        PackageRecordView {
            id: self.id@,
            dependencies: self.dependencies@.map_values(|d: DependencyRequirement| d@),
        }
    }
}

/// A dependency name with every underscore rewritten to a hyphen, the
/// fallback naming convention a requirement is resolved under.
pub open spec fn normalized(s: Seq<char>) -> Seq<char> {
    s.map_values(
        |c: char|
            if c == '_' {
                '-'
            } else {
                c
            },
    )
}

/// Relies on `str::replace`: with a one-character pattern and a
/// one-character replacement the result substitutes that character
/// pointwise and changes nothing else.
#[verifier::external_body]
pub fn normalize_name(s: &str) -> (r: String)
    ensures
        r@ == normalized(s@),
{
    s.replace('_', "-")
}

/// An in-memory registry snapshot: every published package-version record,
/// in the order the loader handed them over.
pub struct Registry {
    pub records: Vec<PackageRecord>,
}

impl View for Registry {
    type V = Seq<PackageRecordView>;

    open spec fn view(&self) -> Seq<PackageRecordView> {
        self.records@.map_values(|r: PackageRecord| r@)
    }
}

/// Whether some record of the registry publishes the given package name.
pub open spec fn reg_has_name(reg: Seq<PackageRecordView>, name: Seq<char>) -> bool {
    exists|i: int| 0 <= i < reg.len() && #[trigger] reg[i].id.name == name
}

impl Registry {
    /// An empty snapshot.
    pub fn new() -> (r: Registry)
        ensures
            r@ == Seq::<PackageRecordView>::empty(),
    {
        let r = Registry { records: Vec::new() };
        proof {
            assert(r@ =~= Seq::<PackageRecordView>::empty());
        }
        r
    }

    /// Append one published record.
    pub fn add_record(&mut self, rec: PackageRecord)
        ensures
            final(self)@ == old(self)@.push(rec@),
    {
        let ghost pre = self@;
        let ghost recv = rec@;
        self.records.push(rec);
        proof {
            assert(self@ =~= pre.push(recv));
        }
    }

    /// How many records the snapshot holds.
    pub fn len(&self) -> (r: usize)
        ensures
            r == self@.len(),
    {
        self.records.len()
    }

    /// Whether any record publishes this exact name.
    pub fn has_name(&self, name: &String) -> (r: bool)
        ensures
            r == reg_has_name(self@, name@),
    {
        let n = self.records.len();
        let mut k: usize = 0;
        while k < n
            invariant
                n == self@.len(),
                k <= n,
                forall|i: int| 0 <= i < k ==> #[trigger] self@[i].id.name != name@,
            decreases n - k,
        {
            if self.records[k].id.name == *name {
                proof {
                    assert(self@[k as int].id.name == name@);
                }
                return true;
            }
            k += 1;
        }
        false
    }
}

/// The maximum version a registry publishes under a name, folded in record
/// order with the semantic-version order; `None` when the name is absent.
pub open spec fn spec_latest(reg: Seq<PackageRecordView>, name: Seq<char>) -> Option<VersionView>
    decreases reg.len(),
{
    if reg.len() == 0 {
        None
    } else {
        let prev = spec_latest(reg.drop_last(), name);
        let last = reg.last();
        if last.id.name == name {
            match prev {
                None => Some(last.id.version),
                Some(m) => if semver_lt(m, last.id.version) {
                    Some(last.id.version)
                } else {
                    Some(m)
                },
            }
        } else {
            prev
        }
    }
}

/// A name no record publishes has no latest version.
pub proof fn lemma_latest_absent(reg: Seq<PackageRecordView>, name: Seq<char>)
    requires
        !reg_has_name(reg, name),
    ensures
        spec_latest(reg, name) is None,
    decreases reg.len(),
{
    if reg.len() > 0 {
        assert(reg[reg.len() - 1].id.name != name);
        assert forall|i: int| 0 <= i < reg.drop_last().len() implies #[trigger] reg.drop_last()[i].id.name
            != name by {
            assert(reg.drop_last()[i] == reg[i]);
        }
        lemma_latest_absent(reg.drop_last(), name);
    }
}

/// What it means for an index to capture a registry's latest versions: at
/// most one entry per name, each entry carrying its name's maximum version,
/// and an entry for every published name.
pub open spec fn latest_matches(reg: Seq<PackageRecordView>, idx: Seq<PackageIdView>) -> bool {
    &&& forall|i: int, j: int|
        #![trigger idx[i].name, idx[j].name]
        0 <= i < idx.len() && 0 <= j < idx.len() && i != j ==> idx[i].name != idx[j].name
    &&& forall|i: int|
        0 <= i < idx.len() ==> spec_latest(reg, #[trigger] idx[i].name) == Some(idx[i].version)
    &&& forall|name: Seq<char>|
        #[trigger] reg_has_name(reg, name) ==> exists|i: int|
            0 <= i < idx.len() && #[trigger] idx[i].name == name
}

/// Per-name index of the maximum version a snapshot publishes. Used to
/// filter reverse-reachability output down to currently relevant versions.
pub struct LatestReleaseIndex {
    pub entries: Vec<PackageId>,
}

impl View for LatestReleaseIndex {
    type V = Seq<PackageIdView>;

    open spec fn view(&self) -> Seq<PackageIdView> {
        self.entries@.map_values(|e: PackageId| e@)
    }
}

impl LatestReleaseIndex {
    /// Scan a registry and record, for every published name, the maximum
    /// version seen under the semantic-version order.
    pub fn build(reg: &Registry) -> (r: LatestReleaseIndex)
        ensures
            latest_matches(reg@, r@),
    {
        let n = reg.records.len();
        let mut entries: Vec<PackageId> = Vec::new();
        let mut k: usize = 0;
        proof {
            assert(reg@.take(0) =~= Seq::<PackageRecordView>::empty());
        }
        while k < n
            invariant
                n == reg@.len(),
                k <= n,
                latest_matches(reg@.take(k as int), entries@.map_values(|e: PackageId| e@)),
            decreases n - k,
        {
            let ghost prefix = reg@.take(k as int);
            let ghost prefix1 = reg@.take(k as int + 1);
            let ghost pre_entries = entries@.map_values(|e: PackageId| e@);
            proof {
                assert(prefix1.drop_last() =~= prefix);
                assert(prefix1.last() == reg@[k as int]);
            }
            let rec = &reg.records[k];
            let ghost rec_name = rec.id.name@;
            let ghost rec_version = rec.id.version@;
            assert(reg@[k as int].id.name == rec_name);
            let m = entries.len();
            let mut pos: usize = 0;
            let mut found = false;
            while pos < m && !found
                invariant
                    m == entries@.len(),
                    pos <= m,
                    rec_name == rec.id.name@,
                    found ==> pos < m && entries@[pos as int]@.name == rec_name,
                    !found ==> forall|j: int|
                        0 <= j < pos ==> #[trigger] entries@[j]@.name != rec_name,
                decreases m - pos, (if found { 0int } else { 1int }),
            {
                if entries[pos].name == rec.id.name {
                    found = true;
                } else {
                    pos += 1;
                }
            }
            if found {
                if version_lt(&entries[pos].version, &rec.id.version) {
                    let fresh = rec.id.version.clone();
                    entries[pos].version = fresh;
                    proof {
                        let post = entries@.map_values(|e: PackageId| e@);
                        assert(post =~= pre_entries.update(
                            pos as int,
                            PackageIdView { name: rec_name, version: rec_version },
                        ));
                        lemma_step_update(prefix, prefix1, pre_entries, post, pos as int, reg@[k as int]);
                    }
                } else {
                    proof {
                        let post = entries@.map_values(|e: PackageId| e@);
                        assert(post =~= pre_entries);
                        lemma_step_keep(prefix, prefix1, pre_entries, pos as int, reg@[k as int]);
                    }
                }
            } else {
                entries.push(PackageId { name: rec.id.name.clone(), version: rec.id.version.clone() });
                proof {
                    let post = entries@.map_values(|e: PackageId| e@);
                    assert(post =~= pre_entries.push(
                        PackageIdView { name: rec_name, version: rec_version },
                    ));
                    lemma_step_push(prefix, prefix1, pre_entries, reg@[k as int]);
                }
            }
            k += 1;
        }
        proof {
            assert(reg@.take(n as int) =~= reg@);
        }
        LatestReleaseIndex { entries }
    }

    /// The recorded maximum version for a name, if the name is known.
    pub fn latest_of(&self, name: &String) -> (r: Option<&Version>)
        ensures
            match r {
                Some(v) => exists|i: int|
                    0 <= i < self@.len() && #[trigger] self@[i].name == name@ && self@[i].version
                        == v@,
                None => forall|i: int| 0 <= i < self@.len() ==> #[trigger] self@[i].name != name@,
            },
    {
        let m = self.entries.len();
        let mut pos: usize = 0;
        while pos < m
            invariant
                m == self@.len(),
                pos <= m,
                forall|j: int| 0 <= j < pos ==> #[trigger] self@[j].name != name@,
            decreases m - pos,
        {
            if self.entries[pos].name == *name {
                proof {
                    assert(self@[pos as int].name == name@);
                }
                return Some(&self.entries[pos].version);
            }
            pos += 1;
        }
        None
    }
}

/// Extending the registry by one record whose name is absent from the index
/// keeps the index correct once that record's identity is appended.
proof fn lemma_step_push(
    prefix: Seq<PackageRecordView>,
    prefix1: Seq<PackageRecordView>,
    idx: Seq<PackageIdView>,
    rec: PackageRecordView,
)
    requires
        latest_matches(prefix, idx),
        prefix1.len() == prefix.len() + 1,
        prefix1.drop_last() == prefix,
        prefix1.last() == rec,
        forall|j: int| 0 <= j < idx.len() ==> #[trigger] idx[j].name != rec.id.name,
    ensures
        latest_matches(prefix1, idx.push(PackageIdView { name: rec.id.name, version: rec.id.version })),
{
    let idx1 = idx.push(PackageIdView { name: rec.id.name, version: rec.id.version });
    lemma_prefix_latest(prefix, prefix1, idx, rec);
    // The new name has no earlier latest version.
    assert(!reg_has_name(prefix, rec.id.name)) by {
        if reg_has_name(prefix, rec.id.name) {
            let i = choose|i: int|
                0 <= i < idx.len() && #[trigger] idx[i].name == rec.id.name;
            assert(idx[i].name != rec.id.name);
        }
    }
    lemma_latest_absent(prefix, rec.id.name);
    assert(spec_latest(prefix1, rec.id.name) == Some(rec.id.version));
    assert forall|i: int| 0 <= i < idx1.len() implies spec_latest(prefix1, #[trigger] idx1[i].name)
        == Some(idx1[i].version) by {
        if i < idx.len() {
            assert(idx1[i] == idx[i]);
        }
    }
    assert forall|name: Seq<char>| #[trigger] reg_has_name(prefix1, name) implies exists|i: int|
        0 <= i < idx1.len() && #[trigger] idx1[i].name == name by {
        let w = choose|w: int| 0 <= w < prefix1.len() && #[trigger] prefix1[w].id.name == name;
        if w < prefix.len() {
            assert(prefix[w].id.name == name);
            assert(reg_has_name(prefix, name));
            let i = choose|i: int| 0 <= i < idx.len() && #[trigger] idx[i].name == name;
            assert(idx1[i].name == name);
        } else {
            assert(idx1[idx.len() as int].name == name);
        }
    }
}

/// Extending the registry by one record that does not exceed the recorded
/// maximum of its name leaves the index correct unchanged.
proof fn lemma_step_keep(
    prefix: Seq<PackageRecordView>,
    prefix1: Seq<PackageRecordView>,
    idx: Seq<PackageIdView>,
    pos: int,
    rec: PackageRecordView,
)
    requires
        latest_matches(prefix, idx),
        prefix1.len() == prefix.len() + 1,
        prefix1.drop_last() == prefix,
        prefix1.last() == rec,
        0 <= pos < idx.len(),
        idx[pos].name == rec.id.name,
        !semver_lt(idx[pos].version, rec.id.version),
    ensures
        latest_matches(prefix1, idx),
{
    lemma_prefix_latest(prefix, prefix1, idx, rec);
    assert(spec_latest(prefix, rec.id.name) == Some(idx[pos].version));
    assert(spec_latest(prefix1, rec.id.name) == Some(idx[pos].version));
    assert forall|i: int| 0 <= i < idx.len() implies spec_latest(prefix1, #[trigger] idx[i].name)
        == Some(idx[i].version) by {
        if idx[i].name != rec.id.name {
            assert(spec_latest(prefix1, idx[i].name) == spec_latest(prefix, idx[i].name));
        } else {
            assert(i == pos);
        }
    }
    lemma_cover_step(prefix, prefix1, idx, rec);
}

/// Extending the registry by one record that exceeds the recorded maximum of
/// its name keeps the index correct once that entry's version is replaced.
proof fn lemma_step_update(
    prefix: Seq<PackageRecordView>,
    prefix1: Seq<PackageRecordView>,
    idx: Seq<PackageIdView>,
    idx1: Seq<PackageIdView>,
    pos: int,
    rec: PackageRecordView,
)
    requires
        latest_matches(prefix, idx),
        prefix1.len() == prefix.len() + 1,
        prefix1.drop_last() == prefix,
        prefix1.last() == rec,
        0 <= pos < idx.len(),
        idx[pos].name == rec.id.name,
        semver_lt(idx[pos].version, rec.id.version),
        idx1 == idx.update(pos, PackageIdView { name: rec.id.name, version: rec.id.version }),
    ensures
        latest_matches(prefix1, idx1),
{
    lemma_prefix_latest(prefix, prefix1, idx, rec);
    assert(spec_latest(prefix, rec.id.name) == Some(idx[pos].version));
    assert(spec_latest(prefix1, rec.id.name) == Some(rec.id.version));
    assert forall|i: int| 0 <= i < idx1.len() implies spec_latest(prefix1, #[trigger] idx1[i].name)
        == Some(idx1[i].version) by {
        if i != pos {
            assert(idx1[i] == idx[i]);
            assert(idx[i].name != rec.id.name);
            assert(spec_latest(prefix1, idx[i].name) == spec_latest(prefix, idx[i].name));
        }
    }
    assert forall|i: int, j: int|
        #![trigger idx1[i].name, idx1[j].name]
        0 <= i < idx1.len() && 0 <= j < idx1.len() && i != j implies idx1[i].name
        != idx1[j].name by {
        assert(idx1[i].name == idx[i].name);
        assert(idx1[j].name == idx[j].name);
    }
    assert forall|name: Seq<char>| #[trigger] reg_has_name(prefix1, name) implies exists|i: int|
        0 <= i < idx1.len() && #[trigger] idx1[i].name == name by {
        lemma_cover_step(prefix, prefix1, idx, rec);
        let i = choose|i: int| 0 <= i < idx.len() && #[trigger] idx[i].name == name;
        assert(idx1[i].name == name);
    }
}

/// A record's addition changes no other name's latest version.
proof fn lemma_prefix_latest(
    prefix: Seq<PackageRecordView>,
    prefix1: Seq<PackageRecordView>,
    idx: Seq<PackageIdView>,
    rec: PackageRecordView,
)
    requires
        prefix1.len() == prefix.len() + 1,
        prefix1.drop_last() == prefix,
        prefix1.last() == rec,
    ensures
        forall|name: Seq<char>|
            name != rec.id.name ==> spec_latest(prefix1, name) == #[trigger] spec_latest(
                prefix,
                name,
            ),
{
}

/// After one record is added, every published name is still covered by an
/// index that covered the registry before and has an entry for the record's
/// name.
proof fn lemma_cover_step(
    prefix: Seq<PackageRecordView>,
    prefix1: Seq<PackageRecordView>,
    idx: Seq<PackageIdView>,
    rec: PackageRecordView,
)
    requires
        latest_matches(prefix, idx),
        prefix1.len() == prefix.len() + 1,
        prefix1.drop_last() == prefix,
        prefix1.last() == rec,
        exists|p: int| 0 <= p < idx.len() && #[trigger] idx[p].name == rec.id.name,
    ensures
        forall|name: Seq<char>|
            #[trigger] reg_has_name(prefix1, name) ==> exists|i: int|
                0 <= i < idx.len() && #[trigger] idx[i].name == name,
{
    assert forall|name: Seq<char>| #[trigger] reg_has_name(prefix1, name) implies exists|i: int|
        0 <= i < idx.len() && #[trigger] idx[i].name == name by {
        let w = choose|w: int| 0 <= w < prefix1.len() && #[trigger] prefix1[w].id.name == name;
        if w < prefix.len() {
            assert(prefix[w].id.name == name);
            assert(reg_has_name(prefix, name));
        } else {
            assert(name == rec.id.name);
        }
    }
}

} // verus!
