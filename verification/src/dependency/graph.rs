//! The dependency graph that a list of packages implies: each reference of
//! each package resolved against the whole list.

use crate::dependency::{admits, full_reference, Dependency, DependencyView};
use crate::error::{result_view, Error, ErrorView};
use crate::package::{Package, PackageId, PackageIdView, PackageView};
use crate::text::views;
use vstd::prelude::*;

verus! {

/// The direction in which the edges of the graph are followed.
#[derive(Debug, Clone, Copy, PartialEq, Eq, Structural)]
pub enum EdgeDirection {
    /// From a package to what it depends on.
    Outgoing,
    /// From a package to what depends on it.
    Incoming,
}

/// A list of indices as integers.
pub open spec fn indices(v: Seq<usize>) -> Seq<int> {
    Seq::new(v.len(), |i: int| v[i] as int)
}

/// The positions, among the first `n` packages and in ascending order, of
/// those that the reference `r` admits.
pub open spec fn candidates_upto(packages: Seq<PackageView>, r: DependencyView, n: nat) -> Seq<int>
    decreases n,
{
    if n == 0 {
        Seq::empty()
    } else {
        let before = candidates_upto(packages, r, (n - 1) as nat);
        if admits(r, packages[n - 1].id) {
            before.push(n - 1)
        } else {
            before
        }
    }
}

/// The positions, in ascending order, of the packages that the reference
/// `r` admits.
pub open spec fn candidates(packages: Seq<PackageView>, r: DependencyView) -> Seq<int> {
    candidates_upto(packages, r, packages.len())
}

/// What a reference of the package at `from` resolves to: the one package
/// that it admits, or the failure that none or several give.
pub open spec fn resolution(packages: Seq<PackageView>, from: int, r: DependencyView) -> Result<
    int,
    ErrorView,
> {
    let c = candidates(packages, r);
    if c.len() == 1 {
        Ok(c[0])
    } else if c.len() == 0 {
        Err(ErrorView::UnresolvedDependency { from: packages[from].id, reference: r })
    } else {
        Err(
            ErrorView::AmbiguousDependency {
                from: packages[from].id,
                reference: r,
                candidates: Seq::new(c.len(), |k: int| packages[c[k]].id),
            },
        )
    }
}

/// Reference `j` of package `i` exists and does not resolve.
pub open spec fn edge_fails(packages: Seq<PackageView>, i: int, j: int) -> bool {
    &&& 0 <= i < packages.len()
    &&& 0 <= j < packages[i].dependencies.len()
    &&& resolution(packages, i, packages[i].dependencies[j]) is Err
}

/// Reference `j` of package `i` is the first that does not resolve, going
/// through the packages in order and through the references of each in
/// order.
pub open spec fn is_first_failing_edge(packages: Seq<PackageView>, i: int, j: int) -> bool {
    &&& edge_fails(packages, i, j)
    &&& forall|i2: int, j2: int| #[trigger]
        edge_fails(packages, i2, j2) ==> i < i2 || (i == i2 && j <= j2)
}

/// The positions, among the first `n` nodes and in ascending order, of
/// those with an edge to `target`.
pub open spec fn dependents_upto(outgoing: Seq<Seq<int>>, target: int, n: nat) -> Seq<int>
    decreases n,
{
    if n == 0 {
        Seq::empty()
    } else {
        let before = dependents_upto(outgoing, target, (n - 1) as nat);
        if outgoing[n - 1].contains(target) {
            before.push(n - 1)
        } else {
            before
        }
    }
}

/// The mathematical value of a `Graph`: the identity of each node, and for
/// each node the nodes that its edges lead to and come from.
pub struct GraphView {
    pub nodes: Seq<PackageIdView>,
    pub outgoing: Seq<Seq<int>>,
    pub incoming: Seq<Seq<int>>,
}

/// The edges that leave each package: one for each of its references, in
/// their order, to the package that the reference resolves to.
pub open spec fn outgoing_of(packages: Seq<PackageView>) -> Seq<Seq<int>> {
    Seq::new(
        packages.len(),
        |i: int|
            Seq::new(
                packages[i].dependencies.len(),
                |j: int| resolution(packages, i, packages[i].dependencies[j])->Ok_0,
            ),
    )
}

/// The edges that reach each node: one from each node with an edge to it,
/// in the order of the nodes.
pub open spec fn incoming_of(outgoing: Seq<Seq<int>>) -> Seq<Seq<int>> {
    Seq::new(outgoing.len(), |k: int| dependents_upto(outgoing, k, outgoing.len()))
}

/// The graph of a list of packages, or the failure of the first reference
/// that does not resolve. The node of a package has the position of the
/// package in the list.
pub open spec fn graph_of(packages: Seq<PackageView>) -> Result<GraphView, ErrorView> {
    if exists|i: int, j: int| edge_fails(packages, i, j) {
        let (i, j) = choose|i: int, j: int| is_first_failing_edge(packages, i, j);
        Err(resolution(packages, i, packages[i].dependencies[j])->Err_0)
    } else {
        Ok(
            GraphView {
                nodes: Seq::new(packages.len(), |i: int| packages[i].id),
                outgoing: outgoing_of(packages),
                incoming: incoming_of(outgoing_of(packages)),
            },
        )
    }
}

/// Every edge of the graph leads to a node of the graph, and every node has
/// its two lists of edges.
pub open spec fn graph_wf(g: GraphView) -> bool {
    &&& g.outgoing.len() == g.nodes.len()
    &&& g.incoming.len() == g.nodes.len()
    &&& forall|i: int, j: int|
        0 <= i < g.outgoing.len() && 0 <= j < g.outgoing[i].len() ==> 0 <= #[trigger] g.outgoing[i][j]
            < g.nodes.len()
    &&& forall|i: int, j: int|
        0 <= i < g.incoming.len() && 0 <= j < g.incoming[i].len() ==> 0 <= #[trigger] g.incoming[i][j]
            < g.nodes.len()
}

/// The nodes next to `node` in the direction `dir`.
pub open spec fn neighbors(g: GraphView, node: int, dir: EdgeDirection) -> Seq<int> {
    match dir {
        EdgeDirection::Outgoing => g.outgoing[node],
        EdgeDirection::Incoming => g.incoming[node],
    }
}

/// What the candidates are: positions in range of admitted packages, in
/// ascending order, none left out.
pub proof fn lemma_candidates_upto(packages: Seq<PackageView>, r: DependencyView, n: nat)
    requires
        n <= packages.len(),
    ensures
        forall|k: int|
            0 <= k < candidates_upto(packages, r, n).len() ==> 0 <= #[trigger] candidates_upto(
                packages,
                r,
                n,
            )[k] < n && admits(r, packages[candidates_upto(packages, r, n)[k]].id),
        forall|k1: int, k2: int|
            0 <= k1 < k2 < candidates_upto(packages, r, n).len() ==> candidates_upto(
                packages,
                r,
                n,
            )[k1] < candidates_upto(packages, r, n)[k2],
        forall|i: int|
            0 <= i < n && admits(r, #[trigger] packages[i].id) ==> candidates_upto(
                packages,
                r,
                n,
            ).contains(i),
    decreases n,
{
    if n > 0 {
        lemma_candidates_upto(packages, r, (n - 1) as nat);
        let before = candidates_upto(packages, r, (n - 1) as nat);
        let c = candidates_upto(packages, r, n);
        assert forall|i: int| 0 <= i < n && admits(r, #[trigger] packages[i].id) implies c.contains(
            i,
        ) by {
            if i < n - 1 {
                let k = choose|k: int| 0 <= k < before.len() && before[k] == i;
                assert(c[k] == i);
            } else {
                assert(c[c.len() - 1] == i);
            }
        }
    }
}

/// What the dependents are: positions in range of nodes with an edge to the
/// target, in ascending order.
pub proof fn lemma_dependents_upto(outgoing: Seq<Seq<int>>, target: int, n: nat)
    requires
        n <= outgoing.len(),
    ensures
        forall|k: int|
            0 <= k < dependents_upto(outgoing, target, n).len() ==> 0 <= #[trigger] dependents_upto(
                outgoing,
                target,
                n,
            )[k] < n && outgoing[dependents_upto(outgoing, target, n)[k]].contains(target),
        forall|k1: int, k2: int|
            0 <= k1 < k2 < dependents_upto(outgoing, target, n).len() ==> dependents_upto(
                outgoing,
                target,
                n,
            )[k1] < dependents_upto(outgoing, target, n)[k2],
        forall|i: int|
            0 <= i < n && (#[trigger] outgoing[i]).contains(target) ==> dependents_upto(
                outgoing,
                target,
                n,
            ).contains(i),
    decreases n,
{
    if n > 0 {
        lemma_dependents_upto(outgoing, target, (n - 1) as nat);
        let before = dependents_upto(outgoing, target, (n - 1) as nat);
        let c = dependents_upto(outgoing, target, n);
        assert forall|i: int| 0 <= i < n && (#[trigger] outgoing[i]).contains(target) implies c.contains(
            i,
        ) by {
            if i < n - 1 {
                let k = choose|k: int| 0 <= k < before.len() && before[k] == i;
                assert(c[k] == i);
            } else {
                assert(c[c.len() - 1] == i);
            }
        }
    }
}

/// A reference that admits the package at `k` and no other resolves to
/// `k`.
pub proof fn lemma_resolves_when_unique(
    packages: Seq<PackageView>,
    from: int,
    r: DependencyView,
    k: int,
)
    requires
        0 <= k < packages.len(),
        admits(r, packages[k].id),
        forall|i: int| 0 <= i < packages.len() && admits(r, #[trigger] packages[i].id) ==> i == k,
    ensures
        resolution(packages, from, r) == Ok::<int, ErrorView>(k),
{
    lemma_candidates_upto(packages, r, packages.len());
    let c = candidates(packages, r);
    assert(c.contains(k));
    if c.len() > 1 {
        assert(c[0] < c[1]);
        assert(admits(r, packages[c[0]].id));
        assert(admits(r, packages[c[1]].id));
    }
    let w = choose|w: int| 0 <= w < c.len() && c[w] == k;
    assert(c[0] == k);
}

/// A reference that admits two different packages is ambiguous.
pub proof fn lemma_ambiguous_when_two(
    packages: Seq<PackageView>,
    from: int,
    r: DependencyView,
    k1: int,
    k2: int,
)
    requires
        0 <= k1 < k2 < packages.len(),
        admits(r, packages[k1].id),
        admits(r, packages[k2].id),
    ensures
        resolution(packages, from, r) matches Err(e) && e is AmbiguousDependency && e->AmbiguousDependency_from
            == packages[from].id && e->AmbiguousDependency_reference == r,
{
    lemma_candidates_upto(packages, r, packages.len());
    let c = candidates(packages, r);
    assert(c.contains(k1));
    assert(c.contains(k2));
    let w1 = choose|w: int| 0 <= w < c.len() && c[w] == k1;
    let w2 = choose|w: int| 0 <= w < c.len() && c[w] == k2;
    assert(w1 != w2);
}

/// A reference that admits no package is unresolved.
pub proof fn lemma_unresolved_when_none(packages: Seq<PackageView>, from: int, r: DependencyView)
    requires
        forall|i: int| 0 <= i < packages.len() ==> !admits(r, #[trigger] packages[i].id),
    ensures
        resolution(packages, from, r) == Err::<int, ErrorView>(
            ErrorView::UnresolvedDependency { from: packages[from].id, reference: r },
        ),
{
    lemma_candidates_upto(packages, r, packages.len());
    let c = candidates(packages, r);
    if c.len() > 0 {
        assert(admits(r, packages[c[0]].id));
    }
}

/// The graph of a list of packages fails with the failure of the first
/// reference that does not resolve.
pub proof fn lemma_graph_fails(packages: Seq<PackageView>, i: int, j: int)
    requires
        is_first_failing_edge(packages, i, j),
    ensures
        graph_of(packages) == Err::<GraphView, ErrorView>(
            resolution(packages, i, packages[i].dependencies[j])->Err_0,
        ),
{
    let (i2, j2) = choose|i2: int, j2: int| is_first_failing_edge(packages, i2, j2);
    assert(edge_fails(packages, i, j));
    assert(edge_fails(packages, i2, j2));
    assert(i2 == i && j2 == j);
}

/// The edges of the graph of a list of packages: edge `j` of a package
/// leads to the one package that its reference `j` admits, and the edges
/// that reach a node come, in ascending order, from the nodes with an edge
/// to it.
pub proof fn lemma_graph_edges(packages: Seq<PackageView>)
    requires
        graph_of(packages) is Ok,
    ensures
        graph_wf(graph_of(packages)->Ok_0),
        forall|i: int, j: int|
            0 <= i < packages.len() && 0 <= j < packages[i].dependencies.len() ==> {
                let t = #[trigger] graph_of(packages)->Ok_0.outgoing[i][j];
                &&& 0 <= t < packages.len()
                &&& admits(packages[i].dependencies[j], packages[t].id)
                &&& forall|u: int|
                    0 <= u < packages.len() && admits(
                        packages[i].dependencies[j],
                        #[trigger] packages[u].id,
                    ) ==> u == t
            },
        forall|k: int, i: int|
            0 <= k < packages.len() ==> ((#[trigger] graph_of(packages)->Ok_0.incoming[k]).contains(i)
                <==> 0 <= i < packages.len() && (#[trigger] graph_of(
                packages,
            )->Ok_0.outgoing[i]).contains(k)),
        forall|k: int, a: int, b: int|
            0 <= k < packages.len() && 0 <= a < b < graph_of(packages)->Ok_0.incoming[k].len()
                ==> (#[trigger] graph_of(packages)->Ok_0.incoming[k][a]) < (#[trigger] graph_of(
                packages,
            )->Ok_0.incoming[k][b]),
{
    let g = graph_of(packages)->Ok_0;
    let n = packages.len();
    assert forall|i: int, j: int|
        0 <= i < packages.len() && 0 <= j < packages[i].dependencies.len() implies {
        let t = #[trigger] g.outgoing[i][j];
        &&& 0 <= t < packages.len()
        &&& admits(packages[i].dependencies[j], packages[t].id)
        &&& forall|u: int|
            0 <= u < packages.len() && admits(packages[i].dependencies[j], #[trigger] packages[u].id)
                ==> u == t
    } by {
        let r = packages[i].dependencies[j];
        assert(!edge_fails(packages, i, j));
        lemma_candidates_upto(packages, r, n);
        let c = candidates(packages, r);
        assert(c.len() == 1);
        assert(g.outgoing[i][j] == c[0]);
        assert forall|u: int| 0 <= u < packages.len() && admits(r, #[trigger] packages[u].id) implies u
            == c[0] by {
            assert(c.contains(u));
        }
    }
    assert forall|k: int, i: int| 0 <= k < packages.len() implies ((#[trigger] g.incoming[k]).contains(
        i,
    ) <==> 0 <= i < packages.len() && (#[trigger] g.outgoing[i]).contains(k)) by {
        lemma_dependents_upto(g.outgoing, k, n);
        let d = g.incoming[k];
        if d.contains(i) {
            let w = choose|w: int| 0 <= w < d.len() && d[w] == i;
            assert(0 <= d[w] < n && g.outgoing[d[w]].contains(k));
        }
    }
    assert forall|k: int, a: int, b: int|
        0 <= k < packages.len() && 0 <= a < b < g.incoming[k].len() implies (#[trigger] g.incoming[k][a])
        < (#[trigger] g.incoming[k][b]) by {
        lemma_dependents_upto(g.outgoing, k, n);
    }
    assert(graph_wf(g)) by {
        assert forall|i: int, j: int|
            0 <= i < g.incoming.len() && 0 <= j < g.incoming[i].len() implies 0
            <= #[trigger] g.incoming[i][j] < g.nodes.len() by {
            lemma_dependents_upto(g.outgoing, i, n);
        }
    }
}

/// No two packages of the list have the same identity.
pub open spec fn identities_unique(packages: Seq<PackageView>) -> bool {
    forall|i: int, j: int|
        0 <= i < j < packages.len() ==> (#[trigger] packages[i]).id != (#[trigger] packages[j]).id
}

/// Among packages with unique identities, the full reference to one that
/// has a source resolves to it. (The full reference to a package without a
/// source gives no source, and so admits a package of the same name and
/// version that has one.)
pub proof fn lemma_full_reference_resolves(packages: Seq<PackageView>, from: int, k: int)
    requires
        identities_unique(packages),
        0 <= k < packages.len(),
        packages[k].id.source is Some,
    ensures
        resolution(packages, from, full_reference(packages[k].id)) == Ok::<
            int,
            ErrorView,
        >(k),
{
    let r = full_reference(packages[k].id);
    assert forall|i: int| 0 <= i < packages.len() && admits(r, #[trigger] packages[i].id) implies i
        == k by {
        assert(packages[i].id == packages[k].id);
        if i < k {
            assert(packages[i].id != packages[k].id);
        } else if k < i {
            assert(packages[k].id != packages[i].id);
        }
    }
    lemma_resolves_when_unique(packages, from, r, k);
}

/// Whether no two packages of the list have the same identity.
pub fn has_unique_identities(packages: &Vec<Package>) -> (b: bool)
    ensures
        b == identities_unique(views(packages@)),
{
    let ghost ps = views(packages@);
    let n: usize = packages.len();
    let mut j: usize = 0;
    while j < n
        invariant
            j <= n,
            n == packages.len(),
            ps == views(packages@),
            forall|a: int, b: int| 0 <= a < b < j ==> (#[trigger] ps[a]).id != (#[trigger] ps[b]).id,
        decreases n - j,
    {
        assert(ps[j as int] == packages[j as int]@);
        let mut i: usize = 0;
        while i < j
            invariant
                i <= j < n,
                n == packages.len(),
                ps == views(packages@),
                ps[j as int] == packages[j as int]@,
                forall|a: int| 0 <= a < i ==> (#[trigger] ps[a]).id != ps[j as int].id,
            decreases j - i,
        {
            assert(ps[i as int] == packages[i as int]@);
            if packages[i].id.same(&packages[j].id) {
                return false;
            }
            i += 1;
        }
        j += 1;
    }
    true
}

/// A directed graph over the packages of a record. Nodes are numbered as
/// the packages are listed.
#[derive(Debug, PartialEq, Eq)]
pub struct Graph {
    nodes: Vec<PackageId>,
    outgoing: Vec<Vec<usize>>,
    incoming: Vec<Vec<usize>>,
}

impl View for Graph {
    type V = GraphView;

    closed spec fn view(&self) -> GraphView {
        GraphView {
            nodes: views(self.nodes@),
            outgoing: Seq::new(self.outgoing@.len(), |i: int| indices(self.outgoing@[i]@)),
            incoming: Seq::new(self.incoming@.len(), |i: int| indices(self.incoming@[i]@)),
        }
    }
}

/// Whether `x` occurs in `v`.
pub(crate) fn contains_index(v: &Vec<usize>, x: usize) -> (b: bool)
    ensures
        b == indices(v@).contains(x as int),
{
    let n: usize = v.len();
    let mut i: usize = 0;
    while i < n
        invariant
            i <= n,
            n == v.len(),
            forall|k: int| 0 <= k < i ==> indices(v@)[k] != x as int,
        decreases n - i,
    {
        if v[i] == x {
            assert(indices(v@)[i as int] == x as int);
            return true;
        }
        i += 1;
    }
    false
}

/// The positions of the packages that `r` admits, in ascending order.
fn find_candidates(packages: &Vec<Package>, r: &Dependency) -> (c: Vec<usize>)
    ensures
        indices(c@) == candidates(views(packages@), r@),
{
    let ghost ps = views(packages@);
    let n: usize = packages.len();
    let mut c: Vec<usize> = Vec::new();
    let mut i: usize = 0;
    assert(indices(c@) =~= candidates_upto(ps, r@, 0));
    while i < n
        invariant
            i <= n,
            n == packages.len(),
            ps == views(packages@),
            indices(c@) == candidates_upto(ps, r@, i as nat),
        decreases n - i,
    {
        assert(ps[i as int] == packages[i as int]@);
        let ghost before = indices(c@);
        if r.admits(&packages[i].id) {
            c.push(i);
            assert(indices(c@) =~= before.push(i as int));
        }
        i += 1;
    }
    c
}

/// Resolves one reference of the package at `from`.
fn resolve(packages: &Vec<Package>, from: usize, r: &Dependency) -> (res: Result<usize, Error>)
    requires
        from < packages.len(),
    ensures
        match res {
            Ok(k) => resolution(views(packages@), from as int, r@) == Ok::<int, ErrorView>(
                k as int,
            ) && k < packages.len(),
            Err(e) => resolution(views(packages@), from as int, r@) == Err::<int, ErrorView>(e@),
        },
{
    let ghost ps = views(packages@);
    let c = find_candidates(packages, r);
    proof {
        lemma_candidates_upto(ps, r@, ps.len());
        assert(ps[from as int] == packages[from as int]@);
    }
    if c.len() == 1 {
        assert(indices(c@)[0] == c[0] as int);
        Ok(c[0])
    } else if c.len() == 0 {
        Err(Error::UnresolvedDependency { from: packages[from].id.clone(), reference: r.clone() })
    } else {
        let m: usize = c.len();
        let mut ids: Vec<PackageId> = Vec::new();
        let mut k: usize = 0;
        while k < m
            invariant
                k <= m,
                m == c.len(),
                ps == views(packages@),
                indices(c@) == candidates(ps, r@),
                forall|w: int| 0 <= w < m ==> 0 <= #[trigger] indices(c@)[w] < packages.len(),
                ids.len() == k,
                forall|w: int| 0 <= w < k ==> (#[trigger] ids[w])@ == ps[indices(c@)[w]].id,
            decreases m - k,
        {
            assert(indices(c@)[k as int] == c[k as int] as int);
            assert(ps[c[k as int] as int] == packages[c[k as int] as int]@);
            ids.push(packages[c[k]].id.clone());
            k += 1;
        }
        let e = Error::AmbiguousDependency {
            from: packages[from].id.clone(),
            reference: r.clone(),
            candidates: ids,
        };
        proof {
            let cs = candidates(ps, r@);
            assert(views(ids@) =~= Seq::new(cs.len(), |k: int| ps[cs[k]].id));
        }
        Err(e)
    }
}

impl Graph {
    /// Builds the graph of a list of packages.
    pub fn build(packages: &Vec<Package>) -> (r: Result<Graph, Error>)
        ensures
            result_view(r) == graph_of(views(packages@)),
            r matches Ok(g) ==> graph_wf(g@),
    {
        let ghost ps = views(packages@);
        let n: usize = packages.len();
        let mut nodes: Vec<PackageId> = Vec::new();
        let mut outgoing: Vec<Vec<usize>> = Vec::new();
        let mut i: usize = 0;
        while i < n
            invariant
                i <= n,
                n == packages.len(),
                ps == views(packages@),
                nodes.len() == i,
                outgoing.len() == i,
                forall|k: int| 0 <= k < i ==> (#[trigger] nodes[k])@ == ps[k].id,
                forall|k: int, j: int| 0 <= k < i ==> !edge_fails(ps, k, j),
                forall|k: int|
                    0 <= k < i ==> indices((#[trigger] outgoing[k])@) == outgoing_of(ps)[k],
                forall|k: int, j: int|
                    0 <= k < i && 0 <= j < outgoing[k].len() ==> (#[trigger] outgoing[k][j]) < n,
            decreases n - i,
        {
            assert(ps[i as int] == packages[i as int]@);
            let m: usize = packages[i].dependencies.len();
            let mut row: Vec<usize> = Vec::new();
            let mut j: usize = 0;
            while j < m
                invariant
                    i < n,
                    n == packages.len(),
                    ps == views(packages@),
                    ps[i as int] == packages[i as int]@,
                    j <= m,
                    m == packages[i as int].dependencies.len(),
                    row.len() == j,
                    forall|k: int, l: int| 0 <= k < i ==> !edge_fails(ps, k, l),
                    forall|l: int| 0 <= l < j ==> !edge_fails(ps, i as int, l),
                    forall|l: int|
                        0 <= l < j ==> (#[trigger] row[l]) as int == resolution(
                            ps,
                            i as int,
                            ps[i as int].dependencies[l],
                        )->Ok_0,
                    forall|l: int| 0 <= l < j ==> (#[trigger] row[l]) < n,
                decreases m - j,
            {
                assert(ps[i as int].dependencies[j as int] == packages[i as int].dependencies[j as int]@);
                match resolve(packages, i, &packages[i].dependencies[j]) {
                    Ok(k) => {
                        row.push(k);
                    },
                    Err(e) => {
                        proof {
                            assert(edge_fails(ps, i as int, j as int));
                            assert(is_first_failing_edge(ps, i as int, j as int));
                            let (i2, j2) = choose|i2: int, j2: int|
                                is_first_failing_edge(ps, i2, j2);
                            assert(edge_fails(ps, i2, j2));
                            assert(i2 == i && j2 == j);
                        }
                        return Err(e);
                    },
                }
                j += 1;
            }
            assert(indices(row@) =~= outgoing_of(ps)[i as int]);
            nodes.push(packages[i].id.clone());
            outgoing.push(row);
            i += 1;
        }
        let ghost out = outgoing_of(ps);
        let mut incoming: Vec<Vec<usize>> = Vec::new();
        let mut t: usize = 0;
        while t < n
            invariant
                t <= n,
                n == packages.len(),
                ps == views(packages@),
                out == outgoing_of(ps),
                outgoing.len() == n,
                incoming.len() == t,
                forall|k: int| 0 <= k < n ==> indices((#[trigger] outgoing[k])@) == out[k],
                forall|k: int|
                    0 <= k < t ==> indices((#[trigger] incoming[k])@) == dependents_upto(
                        out,
                        k,
                        n as nat,
                    ),
                forall|k: int, j: int|
                    0 <= k < t && 0 <= j < incoming[k].len() ==> (#[trigger] incoming[k][j]) < n,
            decreases n - t,
        {
            let mut row: Vec<usize> = Vec::new();
            let mut s: usize = 0;
            assert(indices(row@) =~= dependents_upto(out, t as int, 0));
            while s < n
                invariant
                    s <= n,
                    t < n,
                    outgoing.len() == n,
                    out.len() == n,
                    forall|k: int| 0 <= k < n ==> indices((#[trigger] outgoing[k])@) == out[k],
                    indices(row@) == dependents_upto(out, t as int, s as nat),
                    forall|l: int| 0 <= l < row.len() ==> (#[trigger] row[l]) < n,
                decreases n - s,
            {
                let ghost before = indices(row@);
                if contains_index(&outgoing[s], t) {
                    row.push(s);
                    assert(indices(row@) =~= before.push(s as int));
                }
                s += 1;
            }
            incoming.push(row);
            t += 1;
        }
        let g = Graph { nodes, outgoing, incoming };
        proof {
            assert(!exists|i: int, j: int| edge_fails(ps, i, j));
            let want = graph_of(ps)->Ok_0;
            assert(g@.nodes =~= want.nodes);
            assert(g@.outgoing =~= want.outgoing);
            assert(g@.incoming =~= want.incoming);
            assert forall|a: int, b: int|
                0 <= a < g@.outgoing.len() && 0 <= b < g@.outgoing[a].len() implies 0
                <= #[trigger] g@.outgoing[a][b] < g@.nodes.len() by {
                assert(g@.outgoing[a][b] == g.outgoing[a][b] as int);
            }
            assert forall|a: int, b: int|
                0 <= a < g@.incoming.len() && 0 <= b < g@.incoming[a].len() implies 0
                <= #[trigger] g@.incoming[a][b] < g@.nodes.len() by {
                assert(g@.incoming[a][b] == g.incoming[a][b] as int);
            }
        }
        Ok(g)
    }

    /// The number of nodes.
    pub fn len(&self) -> (n: usize)
        ensures
            n == self@.nodes.len(),
            graph_wf(self@),
    {
        proof {
            use_type_invariant(self);
        }
        self.nodes.len()
    }

    /// The identity of the package at `node`; nothing when `node` is no
    /// node of the graph.
    pub fn node(&self, node: usize) -> (r: Option<&PackageId>)
        ensures
            r is Some <==> node < self@.nodes.len(),
            r matches Some(id) ==> id@ == self@.nodes[node as int],
    {
        if node < self.nodes.len() {
            Some(&self.nodes[node])
        } else {
            None
        }
    }

    /// The identities of the packages, by node.
    pub fn nodes(&self) -> (ids: &Vec<PackageId>)
        ensures
            views(ids@) == self@.nodes,
    {
        &self.nodes
    }

    /// The nodes next to `node` in the direction `dir`, in the order of the
    /// references of the package for `Outgoing`, in the order of the nodes
    /// for `Incoming`; nothing when `node` is no node of the graph.
    pub fn neighbors(&self, node: usize, dir: EdgeDirection) -> (r: Option<&Vec<usize>>)
        ensures
            r is Some <==> node < self@.nodes.len(),
            r matches Some(v) ==> indices(v@) == neighbors(self@, node as int, dir),
    {
        if node < self.len() {
            Some(self.edges(node, dir))
        } else {
            None
        }
    }

    /// The edges of a node of the graph.
    pub(crate) fn edges(&self, node: usize, dir: EdgeDirection) -> (r: &Vec<usize>)
        requires
            node < self@.nodes.len(),
        ensures
            indices(r@) == neighbors(self@, node as int, dir),
            graph_wf(self@),
    {
        proof {
            use_type_invariant(self);
        }
        match dir {
            EdgeDirection::Outgoing => &self.outgoing[node],
            EdgeDirection::Incoming => &self.incoming[node],
        }
    }

    #[verifier::type_invariant]
    spec fn inv(self) -> bool {
        graph_wf(self@)
    }
}

} // verus!
