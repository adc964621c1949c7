//! The dependency graph: nodes are package-version identities, a directed
//! edge A -> B means "A declares a dependency some published version B
//! satisfies". The edge structure lives in a `petgraph` graph behind trusted
//! declarations; node identities and every algorithm on the graph are
//! verified here.

use vstd::prelude::*;

use petgraph::visit::EdgeRef;

use crate::registry::{
    latest_matches, normalize_name, normalized, reg_has_name, spec_latest, DependencyRequirement,
    DependencyRequirementView, LatestReleaseIndex, PackageRecordView, Registry,
};
use crate::version::{req_matches, semver_req_matches, PackageId, PackageIdView};

verus! {

#[verifier::external_type_specification]
#[verifier::external_body]
#[verifier::reject_recursive_types(N)]
#[verifier::reject_recursive_types(E)]
#[verifier::reject_recursive_types(Ty)]
#[verifier::reject_recursive_types(Ix)]
pub struct ExPetgraphGraph<N, E, Ty, Ix>(petgraph::graph::Graph<N, E, Ty, Ix>);

#[verifier::external_type_specification]
#[verifier::external_body]
pub struct ExPetgraphDirected(petgraph::Directed);

/// The directed edges a `petgraph` edge store holds, as pairs of node
/// indices (source, target).
pub uninterp spec fn store_edges(
    g: petgraph::graph::Graph<(), (), petgraph::Directed, usize>,
) -> Set<(int, int)>;

/// How many nodes a `petgraph` edge store holds; its node indices are
/// exactly `0 .. store_node_count`.
pub uninterp spec fn store_node_count(
    g: petgraph::graph::Graph<(), (), petgraph::Directed, usize>,
) -> int;

/// Relies on `petgraph::graph::Graph::with_capacity`: a graph with no nodes
/// and no edges.
#[verifier::external_body]
fn store_new(nodes: usize, edges: usize) -> (g: petgraph::graph::Graph<
    (),
    (),
    petgraph::Directed,
    usize,
>)
    ensures
        store_node_count(g) == 0,
        store_edges(g) == Set::<(int, int)>::empty(),
{
    petgraph::graph::Graph::with_capacity(nodes, edges)
}

/// Relies on `petgraph::graph::Graph::add_node`: appends one node whose
/// index is the old node count, leaving the edges unchanged.
#[verifier::external_body]
fn store_add_node(g: &mut petgraph::graph::Graph<(), (), petgraph::Directed, usize>) -> (idx:
    usize)
    ensures
        store_node_count(*final(g)) == store_node_count(*old(g)) + 1,
        store_edges(*final(g)) == store_edges(*old(g)),
        idx == store_node_count(*old(g)),
{
    g.add_node(()).index()
}

/// Relies on `petgraph::graph::Graph::update_edge`: adds the edge from `a`
/// to `b` unless one is already present, touching nothing else. Both nodes
/// must exist.
#[verifier::external_body]
fn store_update_edge(
    g: &mut petgraph::graph::Graph<(), (), petgraph::Directed, usize>,
    a: usize,
    b: usize,
)
    requires
        a < store_node_count(*old(g)),
        b < store_node_count(*old(g)),
    ensures
        store_node_count(*final(g)) == store_node_count(*old(g)),
        store_edges(*final(g)) == store_edges(*old(g)).insert((a as int, b as int)),
{
    let ai = petgraph::graph::NodeIndex::new(a);
    let bi = petgraph::graph::NodeIndex::new(b);
    g.update_edge(ai, bi, ());
}

/// Relies on `petgraph::graph::Graph::edges_directed` with
/// `Direction::Incoming`: the edges whose target is the given node, each
/// yielding its source; every edge endpoint is an existing node.
#[verifier::external_body]
fn store_incoming_sources(
    g: &petgraph::graph::Graph<(), (), petgraph::Directed, usize>,
    n: usize,
) -> (r: Vec<usize>)
    ensures
        forall|s: usize| r@.contains(s) <==> store_edges(*g).contains((s as int, n as int)),
        forall|q: int| 0 <= q < r@.len() ==> (#[trigger] r@[q]) < store_node_count(*g),
{
    g.edges_directed(petgraph::graph::NodeIndex::new(n), petgraph::Direction::Incoming)
        .map(|e| e.source().index())
        .collect()
}

/// The position of an identity in a list of node identities.
fn find_id(ids: &Vec<PackageId>, id: &PackageId) -> (r: Option<usize>)
    ensures
        match r {
            Some(i) => i < ids@.len() && ids@[i as int]@ == id@,
            None => forall|i: int| 0 <= i < ids@.len() ==> #[trigger] ids@[i]@ != id@,
        },
{
    let n = ids.len();
    let mut k: usize = 0;
    while k < n
        invariant
            n == ids@.len(),
            k <= n,
            forall|i: int| 0 <= i < k ==> #[trigger] ids@[i]@ != id@,
        decreases n - k,
    {
        if ids[k] == *id {
            return Some(k);
        }
        k += 1;
    }
    None
}

/// The dependency graph of a registry snapshot: a `petgraph` edge store
/// whose node `i` stands for the package-version identity `ids[i]`. Built
/// once and read-only afterwards.
pub struct DependencyGraph {
    pub store: petgraph::graph::Graph<(), (), petgraph::Directed, usize>,
    pub ids: Vec<PackageId>,
}

impl DependencyGraph {
    /// Node identities are unique and in step with the edge store.
    pub open spec fn wf(self) -> bool {
        &&& store_node_count(self.store) == self.ids@.len()
        &&& forall|i: int, j: int|
            #![trigger self.ids@[i], self.ids@[j]]
            0 <= i < self.ids@.len() && 0 <= j < self.ids@.len() && i != j ==> self.ids@[i]@
                != self.ids@[j]@
    }

    /// How many nodes the graph holds.
    pub open spec fn node_count(self) -> int {
        self.ids@.len() as int
    }

    /// Whether the edge "node `a` depends on node `b`" is present.
    pub open spec fn has_edge(self, a: int, b: int) -> bool {
        store_edges(self.store).contains((a, b))
    }

    /// Whether the identity is a node of the graph.
    pub open spec fn is_node(self, id: PackageIdView) -> bool {
        exists|i: int| 0 <= i < self.ids@.len() && #[trigger] self.ids@[i]@ == id
    }

    /// The node index carrying the identity.
    pub open spec fn idx_of(self, id: PackageIdView) -> int {
        choose|i: int| 0 <= i < self.ids@.len() && #[trigger] self.ids@[i]@ == id
    }

    /// A non-empty walk along dependency edges: every step follows an edge
    /// in the "depends on" direction.
    pub open spec fn is_path(self, p: Seq<int>) -> bool {
        &&& p.len() > 0
        &&& forall|i: int| 0 <= i < p.len() ==> 0 <= #[trigger] p[i] < self.node_count()
        &&& forall|i: int| 0 <= i < p.len() - 1 ==> #[trigger] self.has_edge(p[i], p[i + 1])
    }

    /// Whether a dependency chain leads from node `from` to node `to`: that
    /// is, `from` depends on `to`, possibly through intermediaries, or the
    /// two are the same node.
    pub open spec fn reaches(self, from: int, to: int) -> bool {
        exists|p: Seq<int>| self.is_path(p) && p.first() == from && p.last() == to
    }

    /// Whether `member`'s node would be affected if `root`'s node broke:
    /// every node that transitively depends on the root is, the root
    /// itself included.
    pub open spec fn in_impact(self, member: PackageIdView, root: PackageIdView) -> bool {
        exists|j: int|
            0 <= j < self.ids@.len() && #[trigger] self.ids@[j]@ == member && self.reaches(
                j,
                self.idx_of(root),
            )
    }
}

/// Every node lies on a one-step walk to itself.
pub proof fn lemma_reaches_self(g: DependencyGraph, i: int)
    requires
        0 <= i < g.node_count(),
    ensures
        g.reaches(i, i),
{
    let p = seq![i];
    assert(g.is_path(p));
    assert(p.first() == i && p.last() == i);
}

/// Prepending a dependency edge to a walk extends reachability: if `s`
/// depends on `m` and `m` reaches `to`, then `s` reaches `to`.
pub proof fn lemma_reaches_step(g: DependencyGraph, s: int, m: int, to: int)
    requires
        0 <= s < g.node_count(),
        g.has_edge(s, m),
        g.reaches(m, to),
    ensures
        g.reaches(s, to),
{
    broadcast use vstd::seq::axiom_seq_add_index1, vstd::seq::axiom_seq_add_index2;

    let p = choose|p: Seq<int>| g.is_path(p) && p.first() == m && p.last() == to;
    let q = seq![s] + p;
    assert(q.len() == p.len() + 1);
    assert(q[0] == s);
    assert forall|i: int| 1 <= i < q.len() implies #[trigger] q[i] == p[i - 1] by {
        assert(seq![s].len() == 1);
    }
    assert forall|i: int| 0 <= i < q.len() implies 0 <= #[trigger] q[i] < g.node_count() by {
        if i > 0 {
            assert(q[i] == p[i - 1]);
            assert(0 <= p[i - 1] < g.node_count());
        }
    }
    assert forall|i: int| 0 <= i < q.len() - 1 implies #[trigger] g.has_edge(q[i], q[i + 1]) by {
        if i == 0 {
            assert(q[1] == p[0]);
            assert(p[0] == p.first());
            assert(g.has_edge(s, m));
        } else {
            assert(q[i] == p[i - 1]);
            assert(q[i + 1] == p[i]);
            let ii = i - 1;
            assert(0 <= ii < p.len() - 1);
            assert(g.has_edge(p[ii], p[ii + 1]));
            assert(p[ii + 1] == p[i]);
        }
    }
    assert(g.is_path(q));
    assert(q.first() == s && q.last() == to);
}

/// A set of nodes that contains a target and is closed under incoming
/// dependency edges contains every node that reaches the target. The set is
/// given as a membership flag per node index.
proof fn lemma_closed_set_covers(g: DependencyGraph, flags: Seq<bool>, to: int, p: Seq<int>)
    requires
        flags.len() == g.node_count(),
        0 <= to < g.node_count(),
        flags[to],
        forall|s: int, t: int|
            0 <= s < g.node_count() && 0 <= t < g.node_count() && #[trigger] g.has_edge(s, t)
                && flags[t] ==> flags[s],
        g.is_path(p),
        p.last() == to,
    ensures
        flags[p.first()],
    decreases p.len(),
{
    if p.len() == 1 {
        assert(p.first() == to);
    } else {
        let rest = p.drop_first();
        assert forall|i: int| 0 <= i < rest.len() - 1 implies #[trigger] g.has_edge(
            rest[i],
            rest[i + 1],
        ) by {
            assert(rest[i] == p[i + 1] && rest[i + 1] == p[i + 2]);
            assert(g.has_edge(p[i + 1], p[i + 2]));
        }
        assert(g.is_path(rest));
        assert(rest.last() == to);
        lemma_closed_set_covers(g, flags, to, rest);
        assert(flags[rest.first()]);
        assert(g.has_edge(p[0], p[1]));
        assert(rest.first() == p[1]);
    }
}

/// How many entries of a flag sequence are set.
spec fn count_trues(s: Seq<bool>) -> int
    decreases s.len(),
{
    if s.len() == 0 {
        0
    } else {
        count_trues(s.drop_last()) + if s.last() {
            1int
        } else {
            0int
        }
    }
}

proof fn lemma_count_trues_bounds(s: Seq<bool>)
    ensures
        0 <= count_trues(s) <= s.len(),
    decreases s.len(),
{
    if s.len() > 0 {
        lemma_count_trues_bounds(s.drop_last());
    }
}

/// Setting one clear flag raises the count by one.
proof fn lemma_count_trues_set(s: Seq<bool>, j: int)
    requires
        0 <= j < s.len(),
        !s[j],
    ensures
        count_trues(s.update(j, true)) == count_trues(s) + 1,
    decreases s.len(),
{
    let t = s.update(j, true);
    if j == s.len() - 1 {
        assert(t.drop_last() =~= s.drop_last());
        assert(t.last());
        assert(!s.last());
    } else {
        assert(t.drop_last() =~= s.drop_last().update(j, true));
        lemma_count_trues_set(s.drop_last(), j);
        assert(t.last() == s.last());
    }
}


/// Whether some element of an identity list carries the given value.
pub open spec fn contains_id(r: Seq<PackageId>, id: PackageIdView) -> bool {
    exists|t: int| 0 <= t < r.len() && #[trigger] r[t]@ == id
}

/// Whether the value appears among the first `j` identities whose flag is
/// set.
pub open spec fn some_flagged_source(
    ids: Seq<PackageId>,
    flags: Seq<bool>,
    j: int,
    id: PackageIdView,
) -> bool {
    exists|w: int| 0 <= w < j && 0 <= w < flags.len() && flags[w] && #[trigger] ids[w]@ == id
}

proof fn lemma_source_mono(
    ids: Seq<PackageId>,
    flags: Seq<bool>,
    j1: int,
    j2: int,
    id: PackageIdView,
)
    requires
        some_flagged_source(ids, flags, j1, id),
        j1 <= j2,
    ensures
        some_flagged_source(ids, flags, j2, id),
{
    let w = choose|w: int|
        0 <= w < j1 && 0 <= w < flags.len() && flags[w] && #[trigger] ids[w]@ == id;
    assert(0 <= w < j2 && 0 <= w < flags.len() && flags[w] && ids[w]@ == id);
}

proof fn lemma_contains_push(r: Seq<PackageId>, x: PackageId, id: PackageIdView)
    requires
        contains_id(r, id),
    ensures
        contains_id(r.push(x), id),
{
    let t = choose|t: int| 0 <= t < r.len() && #[trigger] r[t]@ == id;
    assert(r.push(x)[t]@ == id);
}

impl DependencyGraph {
    /// Look the identity's node up by linear scan.
    pub fn node_of(&self, id: &PackageId) -> (r: Option<usize>)
        ensures
            match r {
                Some(i) => i < self.ids@.len() && self.ids@[i as int]@ == id@,
                None => forall|i: int|
                    0 <= i < self.ids@.len() ==> #[trigger] self.ids@[i]@ != id@,
            },
    {
        find_id(&self.ids, id)
    }

    /// Every package version that would be affected if `root` broke: the
    /// full transitive set of dependents, `root` itself included, computed
    /// by a worklist traversal of incoming dependency edges. The result
    /// names each affected node exactly once.
    #[verifier::rlimit(50)]
    pub fn impact_of(&self, root: &PackageId) -> (r: Vec<PackageId>)
        requires
            self.wf(),
            self.is_node(root@),
        ensures
            forall|t: int| 0 <= t < r@.len() ==> self.in_impact(#[trigger] r@[t]@, root@),
            forall|id: PackageIdView| #[trigger] self.in_impact(id, root@) ==> contains_id(r@, id),
            forall|t1: int, t2: int|
                #![trigger r@[t1], r@[t2]]
                0 <= t1 < r@.len() && 0 <= t2 < r@.len() && t1 != t2 ==> r@[t1]@ != r@[t2]@,
            contains_id(r@, root@),
    {
        let n = self.ids.len();
        let root_idx = match self.node_of(root) {
            Some(i) => i,
            None => {
                proof {
                    assert(false);
                }
                0
            },
        };
        proof {
            assert(self.idx_of(root@) == root_idx) by {
                let w = self.idx_of(root@);
                assert(self.ids@[root_idx as int]@ == root@);
                assert(0 <= w < self.ids@.len() && self.ids@[w]@ == root@);
            }
        }
        let mut visited: Vec<bool> = Vec::new();
        while visited.len() < n
            invariant
                visited@.len() <= n,
                forall|j: int| 0 <= j < visited@.len() ==> !(#[trigger] visited@[j]),
            decreases n - visited@.len(),
        {
            visited.push(false);
        }
        visited[root_idx] = true;
        let mut work: Vec<usize> = Vec::new();
        work.push(root_idx);
        proof {
            lemma_reaches_self(*self, root_idx as int);
            assert(work@[0] == root_idx);
            assert(work@.contains(root_idx));
        }
        while work.len() > 0
            invariant
                self.wf(),
                n == self.ids@.len(),
                visited@.len() == n,
                root_idx < n,
                visited@[root_idx as int],
                forall|t: int|
                    0 <= t < work@.len() ==> (#[trigger] work@[t]) < n && visited@[work@[t] as int],
                forall|j: int|
                    0 <= j < n && #[trigger] visited@[j] ==> self.reaches(j, root_idx as int),
                forall|s: int, t: int|
                    0 <= s < n && 0 <= t < n && #[trigger] self.has_edge(s, t) && visited@[t] && !work@.contains(
                        t as usize,
                    ) ==> visited@[s],
            decreases (n - count_trues(visited@)), work@.len(),
        {
            proof {
                lemma_count_trues_bounds(visited@);
            }
            let ghost pre_visited = visited@;
            let ghost pre_work = work@;
            let node = match work.pop() {
                Some(x) => x,
                None => {
                    proof {
                        assert(false);
                    }
                    0
                },
            };
            assert(node < n && visited@[node as int]);
            proof {
                // Popping removes only the last entry, so any other index
                // still on the worklist before the pop is still on it.
                assert forall|s: int, t: int|
                    0 <= s < n && 0 <= t < n && #[trigger] self.has_edge(s, t) && visited@[t]
                        && t != node && !work@.contains(t as usize) implies visited@[s] by {
                    if pre_work.contains(t as usize) {
                        let u = choose|u: int|
                            0 <= u < pre_work.len() && pre_work[u] == t as usize;
                        assert(pre_work[pre_work.len() - 1] == node);
                        assert(u < pre_work.len() - 1);
                        assert(work@[u] == t as usize);
                        assert(work@.contains(t as usize));
                    }
                }
            }
            let sources = store_incoming_sources(&self.store, node);
            let ghost srcs = sources@;
            let mut q: usize = 0;
            let sn = sources.len();
            while q < sn
                invariant
                    self.wf(),
                    n == self.ids@.len(),
                    visited@.len() == n,
                    root_idx < n,
                    visited@[root_idx as int],
                    node < n,
                    visited@[node as int],
                    sn == srcs.len(),
                    q <= sn,
                    srcs == sources@,
                    forall|s: usize| srcs.contains(s) <==> self.has_edge(s as int, node as int),
                    forall|t: int| 0 <= t < srcs.len() ==> (#[trigger] srcs[t]) < n,
                    forall|t: int|
                        0 <= t < work@.len() ==> (#[trigger] work@[t]) < n && visited@[work@[t] as int],
                    forall|j: int|
                        0 <= j < n && #[trigger] visited@[j] ==> self.reaches(j, root_idx as int),
                    forall|s: int, t: int|
                        0 <= s < n && 0 <= t < n && #[trigger] self.has_edge(s, t) && visited@[t]
                            && t != node && !work@.contains(t as usize) ==> visited@[s],
                    forall|u: int| 0 <= u < q ==> visited@[#[trigger] srcs[u] as int],
                    count_trues(pre_visited) <= count_trues(visited@),
                    count_trues(visited@) == count_trues(pre_visited) ==> visited@ == pre_visited
                        && work@ == pre_work.drop_last(),
                decreases sn - q,
            {
                let s = sources[q];
                let ghost iv = visited@;
                let ghost iw = work@;
                if !visited[s] {
                    proof {
                        lemma_count_trues_set(visited@, s as int);
                        assert(self.has_edge(s as int, node as int)) by {
                            assert(srcs[q as int] == s);
                            assert(srcs.contains(s));
                        }
                        assert(self.reaches(node as int, root_idx as int));
                        lemma_reaches_step(*self, s as int, node as int, root_idx as int);
                    }
                    visited[s] = true;
                    work.push(s);
                    proof {
                        // A fresh worklist entry covers the node it marks;
                        // every other node's closure carries over.
                        assert(visited@ == iv.update(s as int, true));
                        assert(work@ == iw.push(s));
                        assert(work@[iw.len() as int] == s);
                        assert(work@.contains(s));
                        assert forall|s2: int, t: int|
                            0 <= s2 < n && 0 <= t < n && #[trigger] self.has_edge(s2, t)
                                && visited@[t] && t != node && !work@.contains(t as usize) implies visited@[s2] by {
                            if t == s as int {
                                assert(work@.contains(t as usize));
                            } else {
                                assert(visited@[t] == iv[t]);
                                if iw.contains(t as usize) {
                                    let u = choose|u: int|
                                        0 <= u < iw.len() && iw[u] == t as usize;
                                    assert(work@[u] == t as usize);
                                    assert(work@.contains(t as usize));
                                }
                                assert(iv[s2]);
                            }
                        }
                    }
                }
                q += 1;
            }
            proof {
                // The popped node's sources are now all visited, so the
                // closure invariant holds for it as well.
                assert forall|s: int, t: int|
                    0 <= s < n && 0 <= t < n && #[trigger] self.has_edge(s, t) && visited@[t]
                        && !work@.contains(t as usize) implies visited@[s] by {
                    if t == node as int {
                        let su = s as usize;
                        assert(su as int == s);
                        assert(srcs.contains(su));
                        let u = choose|u: int| 0 <= u < srcs.len() && srcs[u] == su;
                        assert(visited@[srcs[u] as int]);
                    }
                }
                if count_trues(visited@) == count_trues(pre_visited) {
                    assert(work@.len() < pre_work.len());
                }
                lemma_count_trues_bounds(visited@);
            }
        }
        // Collect the visited identities in index order.
        let mut result: Vec<PackageId> = Vec::new();
        let mut j: usize = 0;
        while j < n
            invariant
                self.wf(),
                n == self.ids@.len(),
                visited@.len() == n,
                j <= n,
                forall|t: int|
                    0 <= t < result@.len() ==> #[trigger] some_flagged_source(
                        self.ids@,
                        visited@,
                        j as int,
                        result@[t]@,
                    ),
                forall|w: int|
                    0 <= w < j && #[trigger] visited@[w] ==> contains_id(
                        result@,
                        self.ids@[w]@,
                    ),
                forall|t1: int, t2: int|
                    #![trigger result@[t1], result@[t2]]
                    0 <= t1 < result@.len() && 0 <= t2 < result@.len() && t1 != t2 ==> result@[t1]@
                        != result@[t2]@,
            decreases n - j,
        {
            let ghost pre_res = result@;
            if visited[j] {
                result.push(self.ids[j].clone());
                proof {
                    assert(result@ == pre_res.push(self.ids@[j as int]));
                    assert(result@[pre_res.len() as int]@ == self.ids@[j as int]@);
                    assert forall|t: int| 0 <= t < result@.len() implies #[trigger] some_flagged_source(
                        self.ids@,
                        visited@,
                        j + 1,
                        result@[t]@,
                    ) by {
                        if t < pre_res.len() {
                            assert(result@[t]@ == pre_res[t]@);
                            lemma_source_mono(self.ids@, visited@, j as int, j + 1, pre_res[t]@);
                        } else {
                            assert(result@[t]@ == self.ids@[j as int]@);
                            assert(some_flagged_source(self.ids@, visited@, j + 1, self.ids@[j as int]@));
                        }
                    }
                    assert forall|w: int| 0 <= w < j + 1 && #[trigger] visited@[w] implies contains_id(
                        result@,
                        self.ids@[w]@,
                    ) by {
                        if w < j {
                            lemma_contains_push(pre_res, self.ids@[j as int], self.ids@[w]@);
                        } else {
                            assert(result@[pre_res.len() as int]@ == self.ids@[w]@);
                        }
                    }
                    assert forall|t1: int, t2: int|
                        #![trigger result@[t1], result@[t2]]
                        0 <= t1 < result@.len() && 0 <= t2 < result@.len() && t1 != t2 implies result@[t1]@
                        != result@[t2]@ by {
                        if t1 < pre_res.len() && t2 < pre_res.len() {
                        } else {
                            let told: int = if t1 < pre_res.len() {
                                t1
                            } else {
                                t2
                            };
                            if told < pre_res.len() {
                                assert(some_flagged_source(
                                    self.ids@,
                                    visited@,
                                    j as int,
                                    pre_res[told]@,
                                ));
                                let w = choose|w: int|
                                    0 <= w < j && 0 <= w < visited@.len() && visited@[w]
                                        && #[trigger] self.ids@[w]@ == pre_res[told]@;
                                assert(self.ids@[w]@ != self.ids@[j as int]@);
                            }
                        }
                    }
                }
            } else {
                proof {
                    assert forall|t: int| 0 <= t < result@.len() implies #[trigger] some_flagged_source(
                        self.ids@,
                        visited@,
                        j + 1,
                        result@[t]@,
                    ) by {
                        lemma_source_mono(self.ids@, visited@, j as int, j + 1, result@[t]@);
                    }
                }
            }
            j += 1;
        }
        proof {
            // Visited flags coincide with reachability, so the collected
            // identities are exactly the impact set.
            assert forall|id: PackageIdView| #[trigger] self.in_impact(id, root@) implies contains_id(
                result@,
                id,
            ) by {
                let jj = choose|jj: int|
                    0 <= jj < self.ids@.len() && #[trigger] self.ids@[jj]@ == id && self.reaches(
                        jj,
                        self.idx_of(root@),
                    )
                ;
                let p = choose|p: Seq<int>|
                    self.is_path(p) && p.first() == jj && p.last() == root_idx as int;
                lemma_closed_set_covers(*self, visited@, root_idx as int, p);
                assert(visited@[jj]);
            }
            assert forall|t: int| 0 <= t < result@.len() implies self.in_impact(
                #[trigger] result@[t]@,
                root@,
            ) by {
                assert(some_flagged_source(self.ids@, visited@, n as int, result@[t]@));
                let w = choose|w: int|
                    0 <= w < n && 0 <= w < visited@.len() && visited@[w] && #[trigger] self.ids@[w]@
                        == result@[t]@;
                assert(self.reaches(w, root_idx as int));
            }
            assert(self.in_impact(root@, root@)) by {
                assert(self.ids@[root_idx as int]@ == root@);
                assert(self.reaches(root_idx as int, root_idx as int)) by {
                    lemma_reaches_self(*self, root_idx as int);
                }
            }
            assert(visited@[root_idx as int]);
        }
        result
    }
}

/// A dependency chain is never outrun: whoever stands at the start of a
/// dependency path is in the impact set of whoever stands at its end.
pub proof fn lemma_path_in_impact(g: DependencyGraph, p: Seq<int>)
    requires
        g.wf(),
        g.is_path(p),
    ensures
        g.in_impact(g.ids@[p.first()]@, g.ids@[p.last()]@),
{
    let from = p.first();
    let to = p.last();
    assert(0 <= from < g.node_count() && 0 <= to < g.node_count());
    let target = g.ids@[to]@;
    assert(g.is_node(target));
    let w = g.idx_of(target);
    assert(0 <= w < g.ids@.len() && g.ids@[w]@ == target);
    assert(w == to);
    assert(g.reaches(from, to));
}


/// The error a graph build aborts with: a declared requirement of a
/// published package resolves to no known package name under any naming
/// convention.
#[derive(Debug)]
pub struct BuildError {
    pub package: PackageId,
    pub requirement: DependencyRequirement,
}

/// Whether some record of the registry publishes exactly this identity.
pub open spec fn reg_has_id(reg: Seq<PackageRecordView>, id: PackageIdView) -> bool {
    exists|i: int| 0 <= i < reg.len() && #[trigger] reg[i].id == id
}

/// The name a requirement's candidates are published under: the declared
/// text when some record publishes it, else its normalized form.
pub open spec fn resolved_name(reg: Seq<PackageRecordView>, dep: DependencyRequirementView) -> Seq<
    char,
> {
    if reg_has_name(reg, dep.name) {
        dep.name
    } else {
        normalized(dep.name)
    }
}

/// Whether the requirement names a published package at all, under its
/// declared name or its normalized form.
pub open spec fn dep_resolvable(reg: Seq<PackageRecordView>, dep: DependencyRequirementView) -> bool {
    reg_has_name(reg, dep.name) || reg_has_name(reg, normalized(dep.name))
}

/// Whether `target` is one of the published versions the requirement
/// resolves to: published under the resolved name and satisfying the
/// version range.
pub open spec fn dep_resolves_to(
    reg: Seq<PackageRecordView>,
    dep: DependencyRequirementView,
    target: PackageIdView,
) -> bool {
    &&& target.name == resolved_name(reg, dep)
    &&& reg_has_id(reg, target)
    &&& semver_req_matches(dep.req, target.version)
}

/// Whether every declared requirement in the registry names a published
/// package.
pub open spec fn all_resolvable(reg: Seq<PackageRecordView>) -> bool {
    forall|i: int, d: int|
        0 <= i < reg.len() && 0 <= d < reg[i].dependencies.len() ==> dep_resolvable(
            reg,
            #[trigger] reg[i].dependencies[d],
        )
}

/// Whether the edge from node `a` to node `b` is warranted: some record
/// carrying `a`'s identity declares a requirement that resolves to `b`'s
/// identity.
pub open spec fn edge_justified(
    reg: Seq<PackageRecordView>,
    ids: Seq<PackageId>,
    a: int,
    b: int,
) -> bool {
    &&& 0 <= a < ids.len()
    &&& 0 <= b < ids.len()
    &&& exists|i: int, d: int|
        0 <= i < reg.len() && 0 <= d < reg[i].dependencies.len() && reg[i].id == ids[a]@
            && dep_resolves_to(reg, #[trigger] reg[i].dependencies[d], ids[b]@)
}

/// The node index carrying an identity, in a list known to hold it.
pub open spec fn spec_node_idx(ids: Seq<PackageId>, id: PackageIdView) -> int {
    choose|t: int| 0 <= t < ids.len() && #[trigger] ids[t]@ == id
}

impl DependencyGraph {
    /// Build the dependency graph and the latest-release index of a registry
    /// snapshot. Every record gets a node (one per distinct identity), and a
    /// requirement contributes one edge per published version that satisfies
    /// it, under the declared dependency name when the registry knows it and
    /// under its normalized form otherwise. A requirement whose name is
    /// unknown either way aborts the build; one that matches no version
    /// contributes no edges and is not an error.
    pub fn build(reg: &Registry) -> (r: Result<(DependencyGraph, LatestReleaseIndex), BuildError>)
        ensures
            r is Ok <==> all_resolvable(reg@),
            (match r {
                Ok(pair) => ({
                    &&& pair.0.wf()
                    &&& forall|id: PackageIdView| pair.0.is_node(id) <==> reg_has_id(reg@, id)
                    &&& forall|a: int, b: int|
                        pair.0.has_edge(a, b) <==> edge_justified(reg@, pair.0.ids@, a, b)
                    &&& latest_matches(reg@, pair.1@)
                }),
                Err(e) => exists|i: int, d: int|
                    0 <= i < reg@.len() && 0 <= d < reg@[i].dependencies.len() && !dep_resolvable(
                        reg@,
                        #[trigger] reg@[i].dependencies[d],
                    ) && e.package@ == reg@[i].id && e.requirement@ == reg@[i].dependencies[d],
            }),
    {
        let n = reg.records.len();
        let mut store = store_new(n, n);
        let mut ids: Vec<PackageId> = Vec::new();

        // First pass: one node per distinct package-version identity.
        let mut k: usize = 0;
        while k < n
            invariant
                n == reg@.len(),
                k <= n,
                store_node_count(store) == ids@.len(),
                store_edges(store) == Set::<(int, int)>::empty(),
                forall|i: int, j: int|
                    #![trigger ids@[i], ids@[j]]
                    0 <= i < ids@.len() && 0 <= j < ids@.len() && i != j ==> ids@[i]@ != ids@[j]@,
                forall|t: int| 0 <= t < ids@.len() ==> reg_has_id(reg@, #[trigger] ids@[t]@),
                forall|i: int| 0 <= i < k ==> contains_id(ids@, #[trigger] reg@[i].id),
            decreases n - k,
        {
            let rid = &reg.records[k].id;
            let ghost pre_ids = ids@;
            match find_id(&ids, rid) {
                Some(_) => {
                    proof {
                        assert(contains_id(ids@, reg@[k as int].id));
                    }
                },
                None => {
                    let idx = store_add_node(&mut store);
                    ids.push(rid.clone());
                    proof {
                        assert(ids@ == pre_ids.push(reg.records@[k as int].id));
                        assert(ids@[pre_ids.len() as int]@ == reg@[k as int].id);
                        assert(contains_id(ids@, reg@[k as int].id));
                        assert(reg_has_id(reg@, ids@[pre_ids.len() as int]@)) by {
                            assert(reg@[k as int].id == ids@[pre_ids.len() as int]@);
                        }
                        assert forall|i: int| 0 <= i < k + 1 implies contains_id(
                            ids@,
                            #[trigger] reg@[i].id,
                        ) by {
                            if i < k {
                                lemma_contains_push(pre_ids, reg.records@[k as int].id, reg@[i].id);
                            }
                        }
                    }
                },
            }
            k += 1;
        }

        // Second pass: resolve every declared requirement and add its edges.
        let mut i: usize = 0;
        while i < n
            invariant
                n == reg@.len(),
                i <= n,
                store_node_count(store) == ids@.len(),
                forall|ii: int, jj: int|
                    #![trigger ids@[ii], ids@[jj]]
                    0 <= ii < ids@.len() && 0 <= jj < ids@.len() && ii != jj ==> ids@[ii]@
                        != ids@[jj]@,
                forall|t: int| 0 <= t < ids@.len() ==> reg_has_id(reg@, #[trigger] ids@[t]@),
                forall|ii: int| 0 <= ii < n ==> contains_id(ids@, #[trigger] reg@[ii].id),
                forall|a: int, b: int|
                    #[trigger] store_edges(store).contains((a, b)) ==> edge_justified(
                        reg@,
                        ids@,
                        a,
                        b,
                    ),
                forall|i2: int, d: int, b: int|
                    0 <= i2 < i && 0 <= d < reg@[i2].dependencies.len() && 0 <= b < ids@.len()
                        && #[trigger] dep_resolves_to(reg@, reg@[i2].dependencies[d], ids@[b]@)
                        ==> store_edges(store).contains((spec_node_idx(ids@, reg@[i2].id), b)),
                forall|i2: int, d: int|
                    0 <= i2 < i && 0 <= d < reg@[i2].dependencies.len() ==> dep_resolvable(
                        reg@,
                        #[trigger] reg@[i2].dependencies[d],
                    ),
            decreases n - i,
        {
            let src_idx = match find_id(&ids, &reg.records[i].id) {
                Some(x) => x,
                None => {
                    proof {
                        assert(contains_id(ids@, reg@[i as int].id));
                        let t = choose|t: int|
                            0 <= t < ids@.len() && #[trigger] ids@[t]@ == reg@[i as int].id;
                        assert(false);
                    }
                    0
                },
            };
            proof {
                assert(ids@[src_idx as int]@ == reg@[i as int].id);
                assert(spec_node_idx(ids@, reg@[i as int].id) == src_idx) by {
                    let t = spec_node_idx(ids@, reg@[i as int].id);
                    assert(0 <= t < ids@.len() && ids@[t]@ == reg@[i as int].id);
                }
            }
            let dm = reg.records[i].dependencies.len();
            let mut d: usize = 0;
            while d < dm
                invariant
                    n == reg@.len(),
                    i < n,
                    dm == reg@[i as int].dependencies.len(),
                    d <= dm,
                    store_node_count(store) == ids@.len(),
                    src_idx < ids@.len(),
                    ids@[src_idx as int]@ == reg@[i as int].id,
                    spec_node_idx(ids@, reg@[i as int].id) == src_idx,
                    forall|ii: int, jj: int|
                        #![trigger ids@[ii], ids@[jj]]
                        0 <= ii < ids@.len() && 0 <= jj < ids@.len() && ii != jj ==> ids@[ii]@
                            != ids@[jj]@,
                    forall|t: int| 0 <= t < ids@.len() ==> reg_has_id(reg@, #[trigger] ids@[t]@),
                    forall|ii: int| 0 <= ii < n ==> contains_id(ids@, #[trigger] reg@[ii].id),
                    forall|a: int, b: int|
                        #[trigger] store_edges(store).contains((a, b)) ==> edge_justified(
                            reg@,
                            ids@,
                            a,
                            b,
                        ),
                    forall|i2: int, d2: int, b: int|
                        0 <= i2 < i && 0 <= d2 < reg@[i2].dependencies.len() && 0 <= b < ids@.len()
                            && #[trigger] dep_resolves_to(reg@, reg@[i2].dependencies[d2], ids@[b]@)
                            ==> store_edges(store).contains((spec_node_idx(ids@, reg@[i2].id), b)),
                    forall|i2: int, d2: int|
                        0 <= i2 < i && 0 <= d2 < reg@[i2].dependencies.len() ==> dep_resolvable(
                            reg@,
                            #[trigger] reg@[i2].dependencies[d2],
                        ),
                    forall|d2: int, b: int|
                        0 <= d2 < d && 0 <= b < ids@.len() && #[trigger] dep_resolves_to(
                            reg@,
                            reg@[i as int].dependencies[d2],
                            ids@[b]@,
                        ) ==> store_edges(store).contains((src_idx as int, b)),
                    forall|d2: int|
                        0 <= d2 < d ==> dep_resolvable(
                            reg@,
                            #[trigger] reg@[i as int].dependencies[d2],
                        ),
                decreases dm - d,
            {
                let dep = &reg.records[i].dependencies[d];
                proof {
                    assert(reg@[i as int].dependencies[d as int] == dep@);
                }
                let rname: String = if reg.has_name(&dep.name) {
                    dep.name.clone()
                } else {
                    let norm = normalize_name(dep.name.as_str());
                    if reg.has_name(&norm) {
                        norm
                    } else {
                        proof {
                            assert(!dep_resolvable(reg@, reg@[i as int].dependencies[d as int]));
                        }
                        return Err(
                            BuildError {
                                package: reg.records[i].id.clone(),
                                requirement: dep.clone(),
                            },
                        );
                    }
                };
                proof {
                    assert(rname@ == resolved_name(reg@, dep@));
                    assert(dep_resolvable(reg@, dep@));
                }
                // Every published version under the resolved name that
                // satisfies the range gets its own edge.
                let mut c: usize = 0;
                while c < n
                    invariant
                        n == reg@.len(),
                        i < n,
                        d < dm,
                        dm == reg@[i as int].dependencies.len(),
                        c <= n,
                        reg@[i as int].dependencies[d as int] == dep@,
                        rname@ == resolved_name(reg@, dep@),
                        store_node_count(store) == ids@.len(),
                        src_idx < ids@.len(),
                        ids@[src_idx as int]@ == reg@[i as int].id,
                        spec_node_idx(ids@, reg@[i as int].id) == src_idx,
                        forall|ii: int, jj: int|
                            #![trigger ids@[ii], ids@[jj]]
                            0 <= ii < ids@.len() && 0 <= jj < ids@.len() && ii != jj ==> ids@[ii]@
                                != ids@[jj]@,
                        forall|t: int|
                            0 <= t < ids@.len() ==> reg_has_id(reg@, #[trigger] ids@[t]@),
                        forall|ii: int| 0 <= ii < n ==> contains_id(ids@, #[trigger] reg@[ii].id),
                        forall|a: int, b: int|
                            #[trigger] store_edges(store).contains((a, b)) ==> edge_justified(
                                reg@,
                                ids@,
                                a,
                                b,
                            ),
                        forall|i2: int, d2: int, b: int|
                            0 <= i2 < i && 0 <= d2 < reg@[i2].dependencies.len() && 0 <= b
                                < ids@.len() && #[trigger] dep_resolves_to(
                                reg@,
                                reg@[i2].dependencies[d2],
                                ids@[b]@,
                            ) ==> store_edges(store).contains(
                                (spec_node_idx(ids@, reg@[i2].id), b),
                            ),
                        forall|i2: int, d2: int|
                            0 <= i2 < i && 0 <= d2 < reg@[i2].dependencies.len() ==> dep_resolvable(
                                reg@,
                                #[trigger] reg@[i2].dependencies[d2],
                            ),
                        forall|d2: int, b: int|
                            0 <= d2 < d && 0 <= b < ids@.len() && #[trigger] dep_resolves_to(
                                reg@,
                                reg@[i as int].dependencies[d2],
                                ids@[b]@,
                            ) ==> store_edges(store).contains((src_idx as int, b)),
                        forall|d2: int|
                            0 <= d2 < d ==> dep_resolvable(
                                reg@,
                                #[trigger] reg@[i as int].dependencies[d2],
                            ),
                        forall|c2: int|
                            0 <= c2 < c && #[trigger] reg@[c2].id.name == rname@
                                && semver_req_matches(dep@.req, reg@[c2].id.version)
                                ==> store_edges(store).contains(
                                (src_idx as int, spec_node_idx(ids@, reg@[c2].id)),
                            ),
                    decreases n - c,
                {
                    let cand = &reg.records[c];
                    proof {
                        assert(reg@[c as int].id == cand.id@);
                    }
                    if cand.id.name == rname && req_matches(dep.req.as_str(), &cand.id.version) {
                        let tgt_idx = match find_id(&ids, &cand.id) {
                            Some(x) => x,
                            None => {
                                proof {
                                    assert(contains_id(ids@, reg@[c as int].id));
                                    let t = choose|t: int|
                                        0 <= t < ids@.len() && #[trigger] ids@[t]@
                                            == reg@[c as int].id;
                                    assert(false);
                                }
                                0
                            },
                        };
                        let ghost pre_edges = store_edges(store);
                        store_update_edge(&mut store, src_idx, tgt_idx);
                        proof {
                            assert(ids@[tgt_idx as int]@ == reg@[c as int].id);
                            assert(spec_node_idx(ids@, reg@[c as int].id) == tgt_idx) by {
                                let t = spec_node_idx(ids@, reg@[c as int].id);
                                assert(0 <= t < ids@.len() && ids@[t]@ == reg@[c as int].id);
                            }
                            assert(semver_req_matches(dep@.req, ids@[tgt_idx as int]@.version));
                            assert(reg_has_id(reg@, ids@[tgt_idx as int]@)) by {
                                assert(reg@[c as int].id == ids@[tgt_idx as int]@);
                            }
                            assert(dep_resolves_to(reg@, dep@, ids@[tgt_idx as int]@));
                            assert(dep_resolves_to(
                                reg@,
                                reg@[i as int].dependencies[d as int],
                                ids@[tgt_idx as int]@,
                            ));
                            assert forall|a: int, b: int|
                                #[trigger] store_edges(store).contains((a, b)) implies edge_justified(
                                reg@,
                                ids@,
                                a,
                                b,
                            ) by {
                                if a == src_idx as int && b == tgt_idx as int {
                                    assert(reg@[i as int].id == ids@[src_idx as int]@);
                                } else {
                                    assert(pre_edges.contains((a, b)));
                                }
                            }
                        }
                    }
                    c += 1;
                }
                proof {
                    // Every published version the requirement resolves to
                    // received its edge during the candidate scan.
                    assert forall|b: int|
                        0 <= b < ids@.len() && #[trigger] dep_resolves_to(
                            reg@,
                            reg@[i as int].dependencies[d as int],
                            ids@[b]@,
                        ) implies store_edges(store).contains((src_idx as int, b)) by {
                        let c2 = choose|c2: int|
                            0 <= c2 < reg@.len() && #[trigger] reg@[c2].id == ids@[b]@;
                        assert(reg@[c2].id.name == rname@);
                        assert(semver_req_matches(dep@.req, reg@[c2].id.version));
                        assert(store_edges(store).contains(
                            (src_idx as int, spec_node_idx(ids@, reg@[c2].id)),
                        ));
                        assert(spec_node_idx(ids@, reg@[c2].id) == b) by {
                            let t = spec_node_idx(ids@, ids@[b]@);
                            assert(0 <= t < ids@.len() && ids@[t]@ == ids@[b]@);
                        }
                    }
                }
                d += 1;
            }
            i += 1;
        }
        let g = DependencyGraph { store, ids };
        let idx = LatestReleaseIndex::build(reg);
        proof {
            assert forall|id: PackageIdView| g.is_node(id) == reg_has_id(reg@, id) by {
                if g.is_node(id) {
                    let t = choose|t: int|
                        0 <= t < g.ids@.len() && #[trigger] g.ids@[t]@ == id;
                    assert(reg_has_id(reg@, g.ids@[t]@));
                }
                if reg_has_id(reg@, id) {
                    let i2 = choose|i2: int| 0 <= i2 < reg@.len() && #[trigger] reg@[i2].id == id;
                    assert(contains_id(g.ids@, reg@[i2].id));
                    let t = choose|t: int|
                        0 <= t < g.ids@.len() && #[trigger] g.ids@[t]@ == reg@[i2].id;
                    assert(g.is_node(id));
                }
            }
            assert forall|a: int, b: int| g.has_edge(a, b) == edge_justified(reg@, g.ids@, a, b) by {
                if edge_justified(reg@, g.ids@, a, b) {
                    let (i2, d2): (int, int) = choose|i2: int, d2: int|
                        0 <= i2 < reg@.len() && 0 <= d2 < reg@[i2].dependencies.len()
                            && reg@[i2].id == g.ids@[a]@ && dep_resolves_to(
                            reg@,
                            #[trigger] reg@[i2].dependencies[d2],
                            g.ids@[b]@,
                        );
                    assert(dep_resolves_to(reg@, reg@[i2].dependencies[d2], g.ids@[b]@));
                    assert(store_edges(g.store).contains((spec_node_idx(g.ids@, reg@[i2].id), b)));
                    assert(spec_node_idx(g.ids@, reg@[i2].id) == a) by {
                        let t = spec_node_idx(g.ids@, reg@[i2].id);
                        assert(0 <= t < g.ids@.len() && g.ids@[t]@ == reg@[i2].id);
                    }
                }
            }
        }
        Ok((g, idx))
    }
}


/// Whether the index records exactly this package version as its name's
/// latest release.
pub open spec fn is_latest(latest: Seq<PackageIdView>, id: PackageIdView) -> bool {
    exists|i: int|
        0 <= i < latest.len() && #[trigger] latest[i].name == id.name && latest[i].version
            == id.version
}

/// Unique names: at most one index entry per package name.
pub open spec fn index_unique_names(latest: Seq<PackageIdView>) -> bool {
    forall|i: int, j: int|
        #![trigger latest[i].name, latest[j].name]
        0 <= i < latest.len() && 0 <= j < latest.len() && i != j ==> latest[i].name
            != latest[j].name
}

/// The names of an impact list's members that are their package's latest
/// release, first occurrence kept, later repeats of a name dropped.
pub open spec fn latest_only_spec(
    latest: Seq<PackageIdView>,
    impact: Seq<PackageIdView>,
) -> Seq<Seq<char>>
    decreases impact.len(),
{
    if impact.len() == 0 {
        Seq::empty()
    } else {
        let pre = latest_only_spec(latest, impact.drop_last());
        let last = impact.last();
        if is_latest(latest, last) && !pre.contains(last.name) {
            pre.push(last.name)
        } else {
            pre
        }
    }
}

/// Reduce an impact set to the names it is currently relevant for: keep the
/// members whose version is the latest release of their name, map each to
/// its package name, and drop repeated names.
pub fn latest_only(latest: &LatestReleaseIndex, impact: &Vec<PackageId>) -> (r: Vec<String>)
    requires
        index_unique_names(latest@),
    ensures
        r@.map_values(|s: String| s@) == latest_only_spec(
            latest@,
            impact@.map_values(|p: PackageId| p@),
        ),
{
    let ghost iv = impact@.map_values(|p: PackageId| p@);
    let n = impact.len();
    let mut r: Vec<String> = Vec::new();
    let mut t: usize = 0;
    proof {
        assert(iv.take(0) =~= Seq::<PackageIdView>::empty());
        assert(r@.map_values(|s: String| s@) =~= latest_only_spec(latest@, iv.take(0)));
    }
    while t < n
        invariant
            index_unique_names(latest@),
            n == impact@.len(),
            iv == impact@.map_values(|p: PackageId| p@),
            t <= n,
            r@.map_values(|s: String| s@) == latest_only_spec(latest@, iv.take(t as int)),
        decreases n - t,
    {
        let ghost prefix = iv.take(t as int);
        let ghost prefix1 = iv.take(t as int + 1);
        proof {
            assert(prefix1.drop_last() =~= prefix);
            assert(prefix1.last() == iv[t as int]);
            assert(iv[t as int] == impact@[t as int]@);
        }
        let id = &impact[t];
        let keep = match latest.latest_of(&id.name) {
            Some(v) => *v == id.version,
            None => false,
        };
        proof {
            assert(keep == is_latest(latest@, id@)) by {
                if keep {
                } else {
                    if is_latest(latest@, id@) {
                        let i = choose|i: int|
                            0 <= i < latest@.len() && #[trigger] latest@[i].name == id@.name
                                && latest@[i].version == id@.version;
                        assert(latest@[i].name == id@.name);
                    }
                }
            }
        }
        if keep {
            // Drop the name if an earlier member already contributed it.
            let m = r.len();
            let mut w: usize = 0;
            let mut seen = false;
            while w < m && !seen
                invariant
                    m == r@.len(),
                    w <= m,
                    seen ==> w < m && r@[w as int]@ == id.name@,
                    !seen ==> forall|u: int| 0 <= u < w ==> #[trigger] r@[u]@ != id.name@,
                decreases m - w, (if seen { 0int } else { 1int }),
            {
                if r[w] == id.name {
                    seen = true;
                } else {
                    w += 1;
                }
            }
            proof {
                let names = r@.map_values(|s: String| s@);
                assert(seen == names.contains(id@.name)) by {
                    if seen {
                        assert(names[w as int] == id.name@);
                    } else {
                        if names.contains(id@.name) {
                            let u = choose|u: int|
                                0 <= u < names.len() && names[u] == id@.name;
                            assert(r@[u]@ == id.name@);
                        }
                    }
                }
            }
            if !seen {
                let ghost pre_names = r@.map_values(|s: String| s@);
                r.push(id.name.clone());
                proof {
                    assert(r@.map_values(|s: String| s@) =~= pre_names.push(id@.name));
                }
            }
        }
        t += 1;
    }
    proof {
        assert(iv.take(n as int) =~= iv);
    }
    r
}

/// The running count of first occurrences in a name list.
pub open spec fn distinct_count(names: Seq<Seq<char>>) -> int
    decreases names.len(),
{
    if names.len() == 0 {
        0
    } else {
        distinct_count(names.drop_last()) + if names.drop_last().contains(names.last()) {
            0int
        } else {
            1int
        }
    }
}

/// How many distinct package names an impact set touches, regardless of
/// version.
pub fn distinct_name_count(impact: &Vec<PackageId>) -> (r: usize)
    ensures
        r == distinct_count(impact@.map_values(|p: PackageId| p@.name)),
{
    let ghost names = impact@.map_values(|p: PackageId| p@.name);
    let n = impact.len();
    let mut count: usize = 0;
    let mut t: usize = 0;
    proof {
        assert(names.take(0) =~= Seq::<Seq<char>>::empty());
    }
    while t < n
        invariant
            n == impact@.len(),
            names == impact@.map_values(|p: PackageId| p@.name),
            t <= n,
            count == distinct_count(names.take(t as int)),
            count <= t,
        decreases n - t,
    {
        let ghost prefix = names.take(t as int);
        let ghost prefix1 = names.take(t as int + 1);
        proof {
            assert(prefix1.drop_last() =~= prefix);
            assert(prefix1.last() == names[t as int]);
        }
        let mut w: usize = 0;
        let mut seen = false;
        while w < t && !seen
            invariant
                t < n,
                n == impact@.len(),
                names == impact@.map_values(|p: PackageId| p@.name),
                w <= t,
                seen ==> w < t && impact@[w as int]@.name == impact@[t as int]@.name,
                !seen ==> forall|u: int|
                    0 <= u < w ==> #[trigger] impact@[u]@.name != impact@[t as int]@.name,
            decreases t - w, (if seen { 0int } else { 1int }),
        {
            if impact[w].name == impact[t].name {
                seen = true;
            } else {
                w += 1;
            }
        }
        proof {
            assert(seen == prefix.contains(names[t as int])) by {
                if seen {
                    assert(prefix[w as int] == names[t as int]);
                } else {
                    if prefix.contains(names[t as int]) {
                        let u = choose|u: int| 0 <= u < prefix.len() && prefix[u] == names[t as int];
                        assert(impact@[u]@.name == impact@[t as int]@.name);
                    }
                }
            }
        }
        if !seen {
            count += 1;
        }
        t += 1;
    }
    proof {
        assert(names.take(n as int) =~= names);
    }
    count
}

} // verus!
