//! The root-regression filter: reduce a set of regressed package versions
//! to the ones with no other regressed package among their transitive
//! dependents.

use vstd::prelude::*;

use crate::graph::{contains_id, DependencyGraph};
use crate::version::{PackageId, PackageIdView};

verus! {

/// Whether a regressed identity survives the filter: no *other* member of
/// the regressed set lies in its impact set. Membership is by full identity
/// (name and version).
pub open spec fn is_root_regression(
    g: DependencyGraph,
    regressed: Seq<PackageId>,
    id: PackageIdView,
) -> bool {
    forall|k: int|
        0 <= k < regressed.len() && (#[trigger] regressed[k])@ != id ==> !g.in_impact(
            regressed[k]@,
            id,
        )
}

/// The members of `items` that are root regressions with respect to the
/// set `all`, keeping their input order.
pub open spec fn root_filter_spec(
    g: DependencyGraph,
    all: Seq<PackageId>,
    items: Seq<PackageId>,
) -> Seq<PackageId>
    decreases items.len(),
{
    if items.len() == 0 {
        Seq::empty()
    } else {
        let pre = root_filter_spec(g, all, items.drop_last());
        if is_root_regression(g, all, items.last()@) {
            pre.push(items.last())
        } else {
            pre
        }
    }
}

/// Whether the identity value is a member of the impact list.
fn impact_member(impact: &Vec<PackageId>, id: &PackageId) -> (r: bool)
    ensures
        r == contains_id(impact@, id@),
{
    let n = impact.len();
    let mut k: usize = 0;
    while k < n
        invariant
            n == impact@.len(),
            k <= n,
            forall|i: int| 0 <= i < k ==> #[trigger] impact@[i]@ != id@,
        decreases n - k,
    {
        if impact[k] == *id {
            proof {
                assert(impact@[k as int]@ == id@);
            }
            return true;
        }
        k += 1;
    }
    false
}

/// Keep exactly the regressed packages whose impact set (themselves
/// excluded) holds no other regressed package. A package is removed as soon
/// as any other member of the set is found among its transitive
/// dependents; what survives are the independent regressions.
pub fn filter_roots(g: &DependencyGraph, regressed: &Vec<PackageId>) -> (r: Vec<PackageId>)
    requires
        g.wf(),
        forall|k: int| 0 <= k < regressed@.len() ==> g.is_node((#[trigger] regressed@[k])@),
    ensures
        r@ == root_filter_spec(*g, regressed@, regressed@),
{
    let n = regressed.len();
    let mut out: Vec<PackageId> = Vec::new();
    let mut t: usize = 0;
    proof {
        assert(regressed@.take(0) =~= Seq::<PackageId>::empty());
    }
    while t < n
        invariant
            g.wf(),
            n == regressed@.len(),
            t <= n,
            forall|k: int| 0 <= k < regressed@.len() ==> g.is_node((#[trigger] regressed@[k])@),
            out@ == root_filter_spec(*g, regressed@, regressed@.take(t as int)),
        decreases n - t,
    {
        let ghost prefix = regressed@.take(t as int);
        let ghost prefix1 = regressed@.take(t as int + 1);
        proof {
            assert(prefix1.drop_last() =~= prefix);
            assert(prefix1.last() == regressed@[t as int]);
        }
        let cand = &regressed[t];
        let impact = g.impact_of(cand);
        let mut keep = true;
        let mut k: usize = 0;
        while k < n && keep
            invariant
                g.wf(),
                n == regressed@.len(),
                k <= n,
                cand == regressed@[t as int],
                t < n,
                forall|u: int|
                    0 <= u < impact@.len() ==> g.in_impact((#[trigger] impact@[u])@, cand@),
                forall|id: PackageIdView| #[trigger] g.in_impact(id, cand@) ==> contains_id(
                    impact@,
                    id,
                ),
                keep ==> forall|k2: int|
                    0 <= k2 < k && (#[trigger] regressed@[k2])@ != cand@ ==> !g.in_impact(
                        regressed@[k2]@,
                        cand@,
                    ),
                !keep ==> exists|k2: int|
                    0 <= k2 < regressed@.len() && (#[trigger] regressed@[k2])@ != cand@
                        && g.in_impact(regressed@[k2]@, cand@),
            decreases n - k, (if keep { 1int } else { 0int }),
        {
            let other = &regressed[k];
            if !(*other == *cand) {
                if impact_member(&impact, other) {
                    proof {
                        let u = choose|u: int|
                            0 <= u < impact@.len() && #[trigger] impact@[u]@ == other@;
                        assert(g.in_impact(impact@[u]@, cand@));
                        assert(regressed@[k as int]@ == other@);
                    }
                    keep = false;
                }
            }
            k += 1;
        }
        proof {
            assert(keep == is_root_regression(*g, regressed@, cand@)) by {
                if !keep {
                    let k2 = choose|k2: int|
                        0 <= k2 < regressed@.len() && (#[trigger] regressed@[k2])@ != cand@
                            && g.in_impact(regressed@[k2]@, cand@);
                    assert(!is_root_regression(*g, regressed@, cand@));
                }
            }
        }
        if keep {
            let ghost pre_out = out@;
            out.push(cand.clone());
            proof {
                assert(out@ =~= pre_out.push(regressed@[t as int]));
            }
        }
        t += 1;
    }
    proof {
        assert(regressed@.take(n as int) =~= regressed@);
    }
    out
}

/// Every member of the filter's output comes from the input and is a root
/// regression with respect to `all`.
pub proof fn lemma_root_filter_members(
    g: DependencyGraph,
    all: Seq<PackageId>,
    items: Seq<PackageId>,
)
    ensures
        forall|t: int|
            0 <= t < root_filter_spec(g, all, items).len() ==> items.contains(
                #[trigger] root_filter_spec(g, all, items)[t],
            ) && is_root_regression(g, all, root_filter_spec(g, all, items)[t]@),
    decreases items.len(),
{
    if items.len() > 0 {
        lemma_root_filter_members(g, all, items.drop_last());
        let pre = root_filter_spec(g, all, items.drop_last());
        assert forall|t: int| 0 <= t < root_filter_spec(g, all, items).len() implies items.contains(
            #[trigger] root_filter_spec(g, all, items)[t],
        ) && is_root_regression(g, all, root_filter_spec(g, all, items)[t]@) by {
            let f = root_filter_spec(g, all, items);
            if t < pre.len() {
                assert(f[t] == pre[t]);
                assert(items.drop_last().contains(pre[t]));
                let u = choose|u: int|
                    0 <= u < items.drop_last().len() && items.drop_last()[u] == pre[t];
                assert(items[u] == pre[t]);
            } else {
                assert(f[t] == items.last());
                assert(items[items.len() - 1] == items.last());
            }
        }
    }
}

/// Shrinking the candidate set can only make the root test easier: a root
/// with respect to `all` is a root with respect to any value-subset of
/// `all`.
pub proof fn lemma_root_in_subset(
    g: DependencyGraph,
    all: Seq<PackageId>,
    sub: Seq<PackageId>,
    id: PackageIdView,
)
    requires
        forall|k: int| 0 <= k < sub.len() ==> all.contains(#[trigger] sub[k]),
        is_root_regression(g, all, id),
    ensures
        is_root_regression(g, sub, id),
{
    assert forall|k: int| 0 <= k < sub.len() && (#[trigger] sub[k])@ != id implies !g.in_impact(
        sub[k]@,
        id,
    ) by {
        assert(all.contains(sub[k]));
        let u = choose|u: int| 0 <= u < all.len() && all[u] == sub[k];
        assert(all[u]@ != id);
        assert(!g.in_impact(all[u]@, id));
    }
}

/// A filter pass over items that all pass the test keeps them all.
proof fn lemma_filter_all_pass(g: DependencyGraph, all: Seq<PackageId>, items: Seq<PackageId>)
    requires
        forall|t: int| 0 <= t < items.len() ==> is_root_regression(g, all, (#[trigger] items[t])@),
    ensures
        root_filter_spec(g, all, items) == items,
    decreases items.len(),
{
    if items.len() == 0 {
        assert(root_filter_spec(g, all, items) =~= items);
    } else {
        assert forall|t: int|
            0 <= t < items.drop_last().len() implies is_root_regression(
            g,
            all,
            (#[trigger] items.drop_last()[t])@,
        ) by {
            assert(items.drop_last()[t] == items[t]);
        }
        lemma_filter_all_pass(g, all, items.drop_last());
        assert(items[items.len() - 1] == items.last());
        assert(is_root_regression(g, all, items.last()@));
        assert(root_filter_spec(g, all, items) =~= items);
    }
}

/// Filtering is idempotent: running the root filter on its own output
/// changes nothing, because every survivor already has no other survivor
/// among its dependents.
pub proof fn lemma_filter_roots_idempotent(g: DependencyGraph, regressed: Seq<PackageId>)
    ensures
        root_filter_spec(
            g,
            root_filter_spec(g, regressed, regressed),
            root_filter_spec(g, regressed, regressed),
        ) == root_filter_spec(g, regressed, regressed),
{
    let f = root_filter_spec(g, regressed, regressed);
    lemma_root_filter_members(g, regressed, regressed);
    assert forall|t: int| 0 <= t < f.len() implies is_root_regression(
        g,
        f,
        (#[trigger] f[t])@,
    ) by {
        lemma_root_in_subset(g, regressed, f, f[t]@);
    }
    lemma_filter_all_pass(g, f, f);
}

} // verus!
