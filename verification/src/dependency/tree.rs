//! Walking the dependency graph from a node, and writing the walk as an
//! indented tree.

use crate::dependency::graph::{
    contains_index, graph_of, graph_wf, indices, neighbors, EdgeDirection, Graph, GraphView,
};
use crate::dependency::{dep_text, full_reference, Dependency};
use crate::error::{result_view, Error};
use crate::lockfile::Lockfile;
use crate::package::{Package, PackageId, PackageIdView};
use crate::text::views;
use vstd::prelude::*;
use vstd::string::*;

verus! {

/// One line of a walk: a node, how deep below the start it was reached,
/// and whether it was reached again on the path that leads to it.
#[derive(Debug, Clone, Copy, PartialEq, Eq, Structural)]
pub struct Visit {
    pub depth: usize,
    pub node: usize,
    pub repeated: bool,
}

/// The mathematical value of a `Visit`.
pub struct VisitView {
    pub depth: nat,
    pub node: int,
    pub repeated: bool,
}

impl View for Visit {
    type V = VisitView;

    open spec fn view(&self) -> VisitView {
        VisitView { depth: self.depth as nat, node: self.node as int, repeated: self.repeated }
    }
}

/// The depth-first walk from `node`, which was reached along `path`.
///
/// A node that lies on the path is visited as repeated and not entered
/// again. Any other node is visited and then each of its neighbours is
/// walked, in their order, with the node added to the path. The depth of a
/// visit is the length of the path that led to it.
///
/// A path of distinct nodes of the graph is shorter than the number of
/// nodes when a further node is reached, so the last case does not arise in
/// a walk from a node of the graph.
pub open spec fn walk(g: GraphView, dir: EdgeDirection, node: int, path: Seq<int>) -> Seq<VisitView>
    decreases g.nodes.len() - path.len(), 0int,
{
    if path.contains(node) {
        seq![VisitView { depth: path.len(), node, repeated: true }]
    } else if path.len() < g.nodes.len() {
        seq![VisitView { depth: path.len(), node, repeated: false }] + walk_each(
            g,
            dir,
            neighbors(g, node, dir),
            0,
            path.push(node),
        )
    } else {
        seq![VisitView { depth: path.len(), node, repeated: false }]
    }
}

/// The walks from `children[k]`, `children[k + 1]`, ... one after the
/// other, each reached along `path`.
pub open spec fn walk_each(
    g: GraphView,
    dir: EdgeDirection,
    children: Seq<int>,
    k: int,
    path: Seq<int>,
) -> Seq<VisitView>
    decreases g.nodes.len() - path.len(), children.len() - k + 1,
{
    if 0 <= k < children.len() && path.len() <= g.nodes.len() {
        walk(g, dir, children[k], path) + walk_each(g, dir, children, k + 1, path)
    } else {
        Seq::empty()
    }
}

/// The indentation of a line at `depth`: two spaces for each level.
pub open spec fn indent(depth: nat) -> Seq<char> {
    Seq::new(2 * depth, |i: int| ' ')
}

/// The line of a visit: the indentation, the package in full, a mark if
/// the visit is a repeated one, and the end of the line.
pub open spec fn line(nodes: Seq<PackageIdView>, v: VisitView) -> Seq<char> {
    indent(v.depth) + dep_text(full_reference(nodes[v.node])) + (if v.repeated {
        " (*)"@
    } else {
        Seq::empty()
    }) + seq!['\n']
}

/// The lines of a walk, one after the other.
pub open spec fn lines(nodes: Seq<PackageIdView>, visits: Seq<VisitView>) -> Seq<char>
    decreases visits.len(),
{
    if visits.len() == 0 {
        Seq::empty()
    } else {
        lines(nodes, visits.drop_last()) + line(nodes, visits.last())
    }
}

/// A walk is cut where a cycle closes: a node that lies on the path is
/// visited as repeated, and nothing is visited below it.
pub proof fn lemma_walk_cuts_cycle(g: GraphView, dir: EdgeDirection, node: int, path: Seq<int>)
    requires
        path.contains(node),
    ensures
        walk(g, dir, node, path) == seq![VisitView { depth: path.len(), node, repeated: true }],
{
}

/// A walk begins with the node it starts from, at the depth of the path
/// that led there, and no visit of it lies above that depth or deeper than
/// there are nodes.
pub proof fn lemma_walk_depths(g: GraphView, dir: EdgeDirection, node: int, path: Seq<int>)
    requires
        path.len() <= g.nodes.len(),
    ensures
        walk(g, dir, node, path).len() >= 1,
        walk(g, dir, node, path)[0] == (VisitView {
            depth: path.len(),
            node,
            repeated: path.contains(node),
        }),
        forall|k: int|
            0 <= k < walk(g, dir, node, path).len() ==> path.len() <= (#[trigger] walk(
                g,
                dir,
                node,
                path,
            )[k]).depth <= g.nodes.len(),
    decreases g.nodes.len() - path.len(), 0int,
{
    let w = walk(g, dir, node, path);
    if !path.contains(node) && path.len() < g.nodes.len() {
        let below = walk_each(g, dir, neighbors(g, node, dir), 0, path.push(node));
        lemma_walk_each_depths(g, dir, neighbors(g, node, dir), 0, path.push(node));
        assert forall|k: int| 0 <= k < w.len() implies path.len() <= (#[trigger] w[k]).depth
            <= g.nodes.len() by {
            if k > 0 {
                assert(w[k] == below[k - 1]);
            }
        }
    }
}

/// No visit of the walks from the children lies above the depth of the
/// path or deeper than there are nodes.
pub proof fn lemma_walk_each_depths(
    g: GraphView,
    dir: EdgeDirection,
    children: Seq<int>,
    k: int,
    path: Seq<int>,
)
    requires
        path.len() <= g.nodes.len(),
    ensures
        forall|i: int|
            0 <= i < walk_each(g, dir, children, k, path).len() ==> path.len() <= (#[trigger] walk_each(
                g,
                dir,
                children,
                k,
                path,
            )[i]).depth <= g.nodes.len(),
    decreases g.nodes.len() - path.len(), children.len() - k + 1,
{
    let w = walk_each(g, dir, children, k, path);
    if 0 <= k < children.len() {
        let first = walk(g, dir, children[k], path);
        let rest = walk_each(g, dir, children, k + 1, path);
        lemma_walk_depths(g, dir, children[k], path);
        lemma_walk_each_depths(g, dir, children, k + 1, path);
        assert forall|i: int| 0 <= i < w.len() implies path.len() <= (#[trigger] w[i]).depth
            <= g.nodes.len() by {
            if i < first.len() {
                assert(w[i] == first[i]);
            } else {
                assert(w[i] == rest[i - first.len()]);
            }
        }
    }
}

/// Distinct numbers below `n` are at most `n` many.
pub proof fn lemma_distinct_bounded(s: Seq<int>, n: nat)
    requires
        s.no_duplicates(),
        forall|i: int| 0 <= i < s.len() ==> 0 <= #[trigger] s[i] < n,
    ensures
        s.len() <= n,
{
    s.unique_seq_to_set();
    vstd::set_lib::lemma_int_range(0, n as int);
    assert(s.to_set().subset_of(vstd::set_lib::set_int_range(0, n as int))) by {
        assert forall|x: int| s.to_set().contains(x) implies vstd::set_lib::set_int_range(
            0,
            n as int,
        ).contains(x) by {
            let i = choose|i: int| 0 <= i < s.len() && s[i] == x;
            assert(0 <= s[i] < n);
        }
    }
    vstd::set_lib::lemma_len_subset(s.to_set(), vstd::set_lib::set_int_range(0, n as int));
}

/// The path with one more node at its end.
fn extended(path: &Vec<usize>, node: usize) -> (r: Vec<usize>)
    ensures
        r@ == path@.push(node),
{
    let n: usize = path.len();
    let mut r: Vec<usize> = Vec::new();
    let mut i: usize = 0;
    while i < n
        invariant
            i <= n,
            n == path.len(),
            r@ == path@.take(i as int),
        decreases n - i,
    {
        r.push(path[i]);
        assert(r@ =~= path@.take(i + 1));
        i += 1;
    }
    assert(path@.take(n as int) =~= path@);
    r.push(node);
    r
}

/// Walks from `node`, reached along `path`, and adds the visits to `out`.
fn walk_from(g: &Graph, dir: EdgeDirection, node: usize, path: &Vec<usize>, out: &mut Vec<Visit>)
    requires
        node < g@.nodes.len(),
        indices(path@).no_duplicates(),
        forall|k: int| 0 <= k < path.len() ==> (#[trigger] path[k]) < g@.nodes.len(),
        forall|k: int| 0 <= k < old(out).len() ==> (#[trigger] old(out)[k]).node < g@.nodes.len(),
    ensures
        views(final(out)@) == views(old(out)@) + walk(g@, dir, node as int, indices(path@)),
        forall|k: int| 0 <= k < final(out).len() ==> (#[trigger] final(out)[k]).node < g@.nodes.len(),
    decreases g@.nodes.len() - path.len(),
{
    let n: usize = g.len();
    let depth: usize = path.len();
    let ghost before = views(out@);
    let ghost p = indices(path@);
    if contains_index(path, node) {
        out.push(Visit { depth, node, repeated: true });
        assert(views(out@) =~= before + walk(g@, dir, node as int, p));
        return;
    }
    let longer = extended(path, node);
    let ghost q = indices(longer@);
    proof {
        assert(q =~= p.push(node as int));
        assert(q.no_duplicates()) by {
            assert forall|a: int, b: int| 0 <= a < q.len() && 0 <= b < q.len() && a != b implies q[a]
                != q[b] by {
                if a < p.len() && b < p.len() {
                    assert(p[a] != p[b]);
                } else if a < p.len() {
                    assert(p[a] == q[a]);
                    assert(p.contains(q[a]));
                } else {
                    assert(p[b] == q[b]);
                    assert(p.contains(q[b]));
                }
            }
        }
        assert forall|i: int| 0 <= i < q.len() implies 0 <= #[trigger] q[i] < n by {
            if i < p.len() {
                assert(q[i] == path[i] as int);
            }
        }
        lemma_distinct_bounded(q, n as nat);
    }
    out.push(Visit { depth, node, repeated: false });
    let children = g.edges(node, dir);
    let ghost cs = indices(children@);
    let ghost base = before + seq![VisitView { depth: depth as nat, node: node as int, repeated: false }];
    assert(views(out@) =~= base);
    let m: usize = children.len();
    let mut k: usize = 0;
    while k < m
        invariant
            k <= m,
            m == children.len(),
            n == g@.nodes.len(),
            graph_wf(g@),
            node < n,
            cs == indices(children@),
            cs == neighbors(g@, node as int, dir),
            q == indices(longer@),
            q.no_duplicates(),
            longer.len() == path.len() + 1,
            longer.len() <= n,
            forall|i: int| 0 <= i < longer.len() ==> (#[trigger] longer[i]) < n,
            forall|i: int| 0 <= i < out.len() ==> (#[trigger] out[i]).node < n,
            base + walk_each(g@, dir, cs, 0, q) == views(out@) + walk_each(g@, dir, cs, k as int, q),
        decreases m - k,
    {
        let ghost sofar = views(out@);
        assert(cs[k as int] == children[k as int] as int);
        assert(0 <= cs[k as int] < n) by {
            match dir {
                EdgeDirection::Outgoing => {
                    assert(0 <= g@.outgoing[node as int][k as int] < n);
                },
                EdgeDirection::Incoming => {
                    assert(0 <= g@.incoming[node as int][k as int] < n);
                },
            }
        }
        walk_from(g, dir, children[k], &longer, out);
        assert(sofar + walk_each(g@, dir, cs, k as int, q) =~= views(out@) + walk_each(
            g@,
            dir,
            cs,
            k + 1,
            q,
        ));
        k += 1;
    }
    assert(views(out@) =~= before + walk(g@, dir, node as int, p));
}

/// The dependency tree of a record: its graph, ready to be walked.
#[derive(Debug, PartialEq, Eq)]
pub struct Tree {
    graph: Graph,
}

impl View for Tree {
    type V = GraphView;

    closed spec fn view(&self) -> GraphView {
        self.graph@
    }
}

/// `k` is the first node with the identity `id`.
pub open spec fn is_first_node(nodes: Seq<PackageIdView>, id: PackageIdView, k: int) -> bool {
    &&& 0 <= k < nodes.len()
    &&& nodes[k] == id
    &&& forall|j: int| 0 <= j < k ==> #[trigger] nodes[j] != id
}

impl Tree {
    /// Builds the tree of a list of packages.
    pub fn new(packages: &Vec<Package>) -> (r: Result<Tree, Error>)
        ensures
            result_view(r) == graph_of(views(packages@)),
            r matches Ok(t) ==> graph_wf(t@),
    {
        match Graph::build(packages) {
            Ok(graph) => Ok(Tree { graph }),
            Err(e) => Err(e),
        }
    }

    /// The graph of the tree.
    pub fn graph(&self) -> (g: &Graph)
        ensures
            g@ == self@,
    {
        &self.graph
    }

    /// The identities of the packages, by node.
    pub fn nodes(&self) -> (ids: &Vec<PackageId>)
        ensures
            views(ids@) == self@.nodes,
    {
        self.graph.nodes()
    }

    /// The first node with the identity `id`.
    pub fn index_of(&self, id: &PackageId) -> (r: Option<usize>)
        ensures
            match r {
                Some(k) => is_first_node(self@.nodes, id@, k as int),
                None => forall|j: int| 0 <= j < self@.nodes.len() ==> #[trigger] self@.nodes[j] != id@,
            },
    {
        let ids = self.graph.nodes();
        let n: usize = ids.len();
        let mut i: usize = 0;
        while i < n
            invariant
                i <= n,
                n == ids.len(),
                views(ids@) == self@.nodes,
                forall|j: int| 0 <= j < i ==> #[trigger] self@.nodes[j] != id@,
            decreases n - i,
        {
            assert(self@.nodes[i as int] == ids[i as int]@);
            if ids[i].same(id) {
                return Some(i);
            }
            i += 1;
        }
        None
    }

    /// The depth-first walk from `start` in the direction `dir`; nothing
    /// when `start` is no node of the tree.
    pub fn walk(&self, start: usize, dir: EdgeDirection) -> (r: Option<Vec<Visit>>)
        ensures
            r is Some <==> start < self@.nodes.len(),
            r matches Some(vs) ==> views(vs@) == walk(self@, dir, start as int, Seq::empty())
                && forall|k: int| 0 <= k < vs.len() ==> (#[trigger] vs[k]).node < self@.nodes.len(),
    {
        if start >= self.graph.len() {
            return None;
        }
        let path: Vec<usize> = Vec::new();
        let mut out: Vec<Visit> = Vec::new();
        assert(indices(path@) =~= Seq::<int>::empty());
        assert(views(out@) =~= Seq::<VisitView>::empty());
        walk_from(&self.graph, dir, start, &path, &mut out);
        assert(views(out@) =~= walk(self@, dir, start as int, Seq::empty()));
        Some(out)
    }

    /// The walk from `start` in the direction `dir` as text, one line for
    /// each visit; nothing when `start` is no node of the tree.
    pub fn render(&self, start: usize, dir: EdgeDirection) -> (r: Option<String>)
        ensures
            r is Some <==> start < self@.nodes.len(),
            r matches Some(text) ==> text@ == lines(
                self@.nodes,
                walk(self@, dir, start as int, Seq::empty()),
            ),
    {
        let visits = match self.walk(start, dir) {
            Some(vs) => vs,
            None => {
                return None;
            },
        };
        Some(write_lines(self.graph.nodes(), &visits))
    }
}

/// Writes the line of each visit.
fn write_lines(nodes: &Vec<PackageId>, visits: &Vec<Visit>) -> (text: String)
    requires
        forall|k: int| 0 <= k < visits.len() ==> (#[trigger] visits[k]).node < nodes.len(),
    ensures
        text@ == lines(views(nodes@), views(visits@)),
{
    let ghost ns = views(nodes@);
    let ghost vs = views(visits@);
    let mut out = String::new();
    let n: usize = visits.len();
    let mut k: usize = 0;
    assert(vs.take(0) =~= Seq::<VisitView>::empty());
    while k < n
        invariant
            k <= n,
            n == visits.len(),
            ns == views(nodes@),
            vs == views(visits@),
            forall|i: int| 0 <= i < visits.len() ==> (#[trigger] visits[i]).node < nodes.len(),
            out@ == lines(ns, vs.take(k as int)),
        decreases n - k,
    {
        let v = visits[k];
        let ghost start = out@;
        let mut d: usize = 0;
        while d < v.depth
            invariant
                d <= v.depth,
                out@ == start + indent(d as nat),
            decreases v.depth - d,
        {
            out.append("  ");
            proof {
                reveal_strlit("  ");
                assert(out@ =~= start + indent((d + 1) as nat));
            }
            d += 1;
        }
        let label = Dependency::from_id(&nodes[v.node]).to_string();
        out.append(label.as_str());
        if v.repeated {
            out.append(" (*)");
        }
        out.append("\n");
        proof {
            reveal_strlit("\n");
            assert(ns[v.node as int] == nodes[v.node as int]@);
            assert(vs[k as int] == v@);
            assert(vs.take(k + 1).drop_last() =~= vs.take(k as int));
            assert(vs.take(k + 1).last() == v@);
            assert(out@ =~= start + line(ns, v@));
        }
        k += 1;
    }
    assert(vs.take(n as int) =~= vs);
    out
}

impl Lockfile {
    /// The dependency tree of the record.
    pub fn dependency_tree(&self) -> (r: Result<Tree, Error>)
        ensures
            result_view(r) == graph_of(self@.packages),
            r matches Ok(t) ==> graph_wf(t@),
    {
        Tree::new(&self.packages)
    }
}

} // verus!
