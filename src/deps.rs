//! The dependency graph of targets and plain files: its construction, the
//! depth of each node below a requested target, which targets are obsolete,
//! and the order in which they are rebuilt.
use vstd::prelude::*;

use crate::dag::{
    add_edge, add_node, dag_edges, dag_node_count, has_out_edge, neighbors, new_dag, sinks,
    DependencyDag, Direction,
};
use crate::error::{Error, UserError};
use crate::paths::{
    acyclic, edge_rel, edges_within, is_path, lemma_no_edges_acyclic, lemma_push_edge_acyclic,
    lemma_walk_map,
    lemma_reaches_in_bound, lemma_reaches_in_last, lemma_reaches_in_prefix, lemma_reaches_in_push,
    lemma_walk_mono, lemma_walk_prepend, lemma_walk_single, reaches, reaches_in, walk,
};
use crate::target::{Target, TargetView};
use std::collections::VecDeque;

verus! {

/// A node of the graph: a target, or a file that no target produces.
#[derive(Debug)]
pub enum Node {
    Target(Target),
    NoRule(String),
}

/// The mathematical value of a node.
pub enum NodeView {
    Target(TargetView),
    NoRule(Seq<char>),
}

impl NodeView {
    /// The identifier the node stands for.
    pub open spec fn id(self) -> Seq<char> {
        match self {
            NodeView::Target(t) => t.identifier,
            NodeView::NoRule(id) => id,
        }
    }

    /// What the node needs: a target's dependencies; nothing for a file.
    pub open spec fn deps(self) -> Seq<Seq<char>> {
        match self {
            NodeView::Target(t) => t.deps,
            NodeView::NoRule(_) => Seq::empty(),
        }
    }
}

impl View for Node {
    type V = NodeView;

    open spec fn view(&self) -> NodeView {
        match self {
            Node::Target(t) => NodeView::Target(t@),
            Node::NoRule(id) => NodeView::NoRule(id@),
        }
    }
}

/// The mathematical value of a dependency graph: its nodes by index, and its
/// "needs" edges as pairs of indices.
pub struct GraphView {
    pub nodes: Seq<NodeView>,
    pub edges: Seq<(nat, nat)>,
}

impl GraphView {
    /// The "needs" relation between node indices.
    pub open spec fn needs(self) -> spec_fn(nat, nat) -> bool {
        edge_rel(self.edges)
    }

    /// Node `v` exists and is a target.
    pub open spec fn is_target(self, v: nat) -> bool {
        v < self.nodes.len() && self.nodes[v as int] is Target
    }

    /// No two nodes share an identifier.
    pub open spec fn ids_distinct(self) -> bool {
        forall|i: int, j: int|
            0 <= i < j < self.nodes.len() ==> self.nodes[i].id() != self.nodes[j].id()
    }

    /// The graph is acyclic, each identifier names one node, and only targets
    /// need anything.
    pub open spec fn wf(self) -> bool {
        &&& edges_within(self.edges, self.nodes.len())
        &&& acyclic(self.needs())
        &&& self.ids_distinct()
        &&& forall|e: (nat, nat)| #[trigger]
            self.edges.contains(e) ==> self.nodes[e.0 as int] is Target
    }
}

/// The values of a sequence of targets.
pub open spec fn views(targets: Seq<Target>) -> Seq<TargetView> {
    targets.map_values(|t: Target| t@)
}

/// No two targets share an identifier.
pub open spec fn ids_unique(ts: Seq<TargetView>) -> bool {
    forall|i: int, j: int| 0 <= i < j < ts.len() ==> ts[i].identifier != ts[j].identifier
}

/// Some target with identifier `x` lists `y` among its dependencies.
pub open spec fn declares(ts: Seq<TargetView>, x: Seq<char>, y: Seq<char>) -> bool {
    exists|i: int| #![trigger ts[i]] 0 <= i < ts.len() && ts[i].identifier == x && ts[i].deps.contains(y)
}

/// The "needs" relation between identifiers that the targets declare.
pub open spec fn declared_needs(ts: Seq<TargetView>) -> spec_fn(Seq<char>, Seq<char>) -> bool {
    |x: Seq<char>, y: Seq<char>| declares(ts, x, y)
}

/// Some identifier needs itself, directly or through others.
pub open spec fn has_cycle(ts: Seq<TargetView>) -> bool {
    !acyclic(declared_needs(ts))
}

/// `x` is the identifier or a dependency of some target.
pub open spec fn mentions(ts: Seq<TargetView>, x: Seq<char>) -> bool {
    exists|i: int| #![trigger ts[i]] 0 <= i < ts.len() && (ts[i].identifier == x || ts[i].deps.contains(x))
}

/// The dependencies that the first `k` targets list, one list after the
/// other.
pub open spec fn deps_prefix(ts: Seq<TargetView>, k: int) -> Seq<Seq<char>>
    decreases k,
{
    if k <= 0 {
        Seq::empty()
    } else {
        deps_prefix(ts, k - 1) + ts[k - 1].deps
    }
}

/// The number of dependencies that the first `k` targets list.
pub open spec fn deps_count(ts: Seq<TargetView>, k: int) -> nat {
    deps_prefix(ts, k).len()
}

/// The identifiers of the targets, in order.
pub open spec fn target_ids(ts: Seq<TargetView>) -> Seq<Seq<char>> {
    ts.map_values(|t: TargetView| t.identifier)
}

/// The identifiers in `ds` that are not in `known`, each once, in the order
/// of their first occurrence.
pub open spec fn new_ids(known: Seq<Seq<char>>, ds: Seq<Seq<char>>) -> Seq<Seq<char>>
    decreases ds.len(),
{
    if ds.len() == 0 {
        Seq::empty()
    } else {
        let prev = new_ids(known, ds.drop_last());
        if (known + prev).contains(ds.last()) {
            prev
        } else {
            prev.push(ds.last())
        }
    }
}

/// The plain files of the targets: the dependencies that no target
/// produces, each once, in the order in which they are first listed.
pub open spec fn leaf_ids(ts: Seq<TargetView>) -> Seq<Seq<char>> {
    new_ids(target_ids(ts), deps_prefix(ts, ts.len() as int))
}

/// The identifiers of a list of nodes.
pub open spec fn ids_of(nodes: Seq<Node>) -> Seq<Seq<char>> {
    nodes.map_values(|n: Node| n@.id())
}

/// The graph of the targets fits the `u32` indices of its nodes and edges.
pub open spec fn fits_in_graph(ts: Seq<TargetView>) -> bool {
    ts.len() + deps_count(ts, ts.len() as int) < u32::MAX
}

/// `g` is the graph of the targets `ts`: the targets come first, in their
/// order, followed by one plain-file node for each other identifier that is
/// listed as a dependency, in the order of first listing; each identifier
/// that occurs names exactly one node; and the edges are one from each target
/// to the node of each dependency it lists, repeats included, target after
/// target and in the order of listing.
pub open spec fn built_from(g: GraphView, ts: Seq<TargetView>) -> bool {
    &&& g.wf()
    &&& g.nodes.len() == ts.len() + leaf_ids(ts).len()
    &&& forall|i: int| 0 <= i < ts.len() ==> g.nodes[i] == NodeView::Target(#[trigger] ts[i])
    &&& forall|i: int|
        ts.len() <= i < g.nodes.len() ==> #[trigger] g.nodes[i] == NodeView::NoRule(
            leaf_ids(ts)[i - ts.len()],
        )
    &&& forall|i: int| 0 <= i < g.nodes.len() ==> mentions(ts, #[trigger] g.nodes[i].id())
    &&& forall|x: Seq<char>| #[trigger]
        mentions(ts, x) ==> exists|i: int| 0 <= i < g.nodes.len() && g.nodes[i].id() == x
    &&& g.edges == declared_edges(g.nodes, g.nodes.len() as int)
    &&& g.edges.len() == deps_count(ts, ts.len() as int)
    &&& forall|a: nat, b: nat|
        #![trigger g.edges.contains((a, b))]
        #![trigger ts[a as int].deps.contains(g.nodes[b as int].id())]
        g.edges.contains((a, b)) <==> (a < ts.len() && b < g.nodes.len() && ts[a as int].deps.contains(
            g.nodes[b as int].id(),
        ))
}

/// `d` is the length of the longest path from `root` to `v`.
pub open spec fn is_longest(g: GraphView, root: nat, v: nat, d: nat) -> bool {
    &&& reaches_in(g.needs(), root, v, d)
    &&& forall|k: nat| k > d ==> !#[trigger] reaches_in(g.needs(), root, v, k)
}

/// `depth` gives each node that `root` reaches the length of the longest path
/// to it, and no depth to the other nodes.
pub open spec fn is_depth_map(g: GraphView, root: nat, depth: Seq<Option<usize>>) -> bool {
    &&& depth.len() == g.nodes.len()
    &&& forall|v: int|
        0 <= v < depth.len() ==> match #[trigger] depth[v] {
            Some(d) => is_longest(g, root, v as nat, d as nat),
            None => !reaches(g.needs(), root, v as nat),
        }
}

/// Some node of `level` before `v` has an edge to `c`.
spec fn fed_before(g: GraphView, level: Seq<bool>, v: int, c: nat) -> bool {
    exists|w: int| 0 <= w < v && level[w] && #[trigger] g.edges.contains((w as nat, c))
}

/// `v` is a target that needs one of the obsolete nodes `seeds`, directly or
/// through others, or is one of them itself.
pub open spec fn is_obsolete(g: GraphView, seeds: Seq<bool>, v: nat) -> bool {
    &&& g.is_target(v)
    &&& exists|s: nat| s < seeds.len() && seeds[s as int] && #[trigger] reaches(g.needs(), v, s)
}

/// For each node, whether it is an obsolete target.
pub open spec fn obsolete_targets(g: GraphView, seeds: Seq<bool>) -> Seq<bool> {
    Seq::new(g.nodes.len(), |v: int| is_obsolete(g, seeds, v as nat))
}

/// For each node, whether it needs nothing: a plain file, or a target
/// without dependencies.
pub open spec fn sink_marks(g: GraphView) -> Seq<bool> {
    Seq::new(g.nodes.len(), |v: int| !has_out_edge(g.edges, v as nat))
}

/// The number of marks that are set.
spec fn num_true(s: Seq<bool>) -> nat
    decreases s.len(),
{
    if s.len() == 0 {
        0
    } else {
        num_true(s.drop_last()) + if s.last() {
            1nat
        } else {
            0nat
        }
    }
}

proof fn lemma_num_true_set(s: Seq<bool>, i: int)
    requires
        0 <= i < s.len(),
        !s[i],
    ensures
        num_true(s.update(i, true)) == num_true(s) + 1,
        num_true(s) < s.len(),
    decreases s.len(),
{
    let t = s.update(i, true);
    if i == s.len() - 1 {
        assert(t.drop_last() =~= s.drop_last());
        lemma_num_true_le(s.drop_last());
    } else {
        assert(t.drop_last() =~= s.drop_last().update(i, true));
        lemma_num_true_set(s.drop_last(), i);
    }
}

proof fn lemma_num_true_none(s: Seq<bool>)
    requires
        forall|i: int| 0 <= i < s.len() ==> !s[i],
    ensures
        num_true(s) == 0,
    decreases s.len(),
{
    if s.len() > 0 {
        lemma_num_true_none(s.drop_last());
    }
}

proof fn lemma_num_true_le(s: Seq<bool>)
    ensures
        num_true(s) <= s.len(),
    decreases s.len(),
{
    if s.len() > 0 {
        lemma_num_true_le(s.drop_last());
    }
}

/// Marks that are closed under "is needed by": every node that needs a
/// marked node is marked.
spec fn closed_upward(g: GraphView, marks: Seq<bool>) -> bool {
    forall|x: nat, y: nat| #[trigger] g.edges.contains((x, y)) && marks[y as int] ==> marks[x as int]
}

/// Each obsolete target among the seeds is marked, and so is each node that
/// needs an obsolete plain file among them.
spec fn seeds_marked(g: GraphView, seeds: Seq<bool>, marks: Seq<bool>, upto: int) -> bool {
    forall|s: int|
        0 <= s < upto && #[trigger] seeds[s] ==> (g.is_target(s as nat) ==> marks[s]) && (!g.is_target(
            s as nat,
        ) ==> forall|x: nat| #[trigger] g.edges.contains((x, s as nat)) ==> marks[x as int])
}

/// Marks that are closed under "is needed by" hold every node on a path that
/// ends in a marked node.
proof fn lemma_marks_back(g: GraphView, marks: Seq<bool>, p: Seq<nat>, i: int)
    requires
        is_path(g.needs(), p),
        0 <= i < p.len(),
        marks[p[i] as int],
        closed_upward(g, marks),
    ensures
        marks[p[0] as int],
    decreases i,
{
    if i > 0 {
        assert(crate::paths::path_step(g.needs(), p, i - 1));
        assert(g.edges.contains((p[i - 1], p[i])));
        lemma_marks_back(g, marks, p, i - 1);
    }
}

/// Every obsolete target is marked when the marks hold the seeds and are
/// closed under "is needed by".
proof fn lemma_obsolete_marked(g: GraphView, seeds: Seq<bool>, marks: Seq<bool>, v: nat)
    requires
        g.wf(),
        seeds.len() == g.nodes.len(),
        marks.len() == g.nodes.len(),
        seeds_marked(g, seeds, marks, g.nodes.len() as int),
        closed_upward(g, marks),
        is_obsolete(g, seeds, v),
    ensures
        marks[v as int],
{
    let s = choose|s: nat| s < seeds.len() && seeds[s as int] && #[trigger] reaches(g.needs(), v, s);
    let p = choose|p: Seq<nat>| walk(g.needs(), p, v, s);
    assert(seeds[s as int]);
    if g.is_target(s) {
        lemma_marks_back(g, marks, p, p.len() - 1);
    } else {
        assert(p.len() > 1) by {
            if p.len() == 1 {
                assert(v == s);
            }
        }
        assert(crate::paths::path_step(g.needs(), p, p.len() - 2));
        assert(g.edges.contains((p[p.len() - 2], s)));
        lemma_marks_back(g, marks, p, p.len() - 2);
    }
}

/// `v` is to be rebuilt: obsolete and below the requested target.
pub open spec fn selected(depth: Seq<Option<usize>>, obsolete: Seq<bool>, v: int) -> bool {
    &&& 0 <= v < obsolete.len()
    &&& v < depth.len()
    &&& obsolete[v]
    &&& depth[v] is Some
}

/// `a` runs before `b`: it lies deeper, or as deep and at a smaller index.
pub open spec fn comes_before(depth: Seq<Option<usize>>, a: usize, b: usize) -> bool {
    ||| depth[a as int]->0 > depth[b as int]->0
    ||| depth[a as int]->0 == depth[b as int]->0 && a < b
}

/// `s` holds the selected nodes, deepest first, and among equally deep nodes
/// the smaller index first.
pub open spec fn is_sequence(depth: Seq<Option<usize>>, obsolete: Seq<bool>, s: Seq<usize>) -> bool {
    &&& forall|v: usize| s.contains(v) <==> selected(depth, obsolete, v as int)
    &&& forall|i: int, j: int| 0 <= i < j < s.len() ==> comes_before(depth, #[trigger] s[i], #[trigger] s[j])
}

/// `ts` are the targets at the nodes `s`, in that order.
pub open spec fn targets_at(g: GraphView, s: Seq<usize>, ts: Seq<Target>) -> bool {
    &&& ts.len() == s.len()
    &&& forall|i: int| 0 <= i < s.len() ==> g.nodes[#[trigger] s[i] as int] == NodeView::Target(ts[i]@)
}

/// Whether node `a` runs before node `b`.
fn runs_before(depth_map: &Vec<Option<usize>>, a: usize, b: usize) -> (r: bool)
    requires
        a < depth_map@.len(),
        b < depth_map@.len(),
        depth_map@[a as int] is Some,
        depth_map@[b as int] is Some,
    ensures
        r == comes_before(depth_map@, a, b),
{
    match (depth_map[a], depth_map[b]) {
        (Some(da), Some(db)) => da > db || (da == db && a < b),
        _ => false,
    }
}

/// `ts` is what a request for the node `root` rebuilds, in order: the targets
/// that are obsolete when every node that needs nothing counts as changed,
/// restricted to those below `root`, deepest first.
pub open spec fn requested_sequence(g: GraphView, root: nat, ts: Seq<Target>) -> bool {
    exists|depth: Seq<Option<usize>>|
        #[trigger] is_depth_map(g, root, depth) && exists|s: Seq<usize>|
            #[trigger] is_sequence(depth, obsolete_targets(g, sink_marks(g)), s) && targets_at(g, s, ts)
}

/// The state a file was in when its dependants were last built.
pub type FileState = ();

/// Whether the file named `identifier` changed since `previous_state`. No
/// states are kept yet, so every file counts as changed, which rebuilds more
/// than needed but never less.
pub fn has_file_been_modified(identifier: &String, previous_state: FileState) -> (r: Result<bool, Error>)
    ensures
        r matches Ok(true),
{
    Ok(true)
}

/// The dependency graph: the nodes by index, and a daggy graph over the same
/// indices that holds the "needs" edges.
pub struct DependencyGraph {
    nodes: Vec<Node>,
    graph: DependencyDag,
}

impl View for DependencyGraph {
    type V = GraphView;

    closed spec fn view(&self) -> GraphView {
        GraphView { nodes: self.nodes@.map_values(|n: Node| n@), edges: dag_edges(self.graph) }
    }
}

/// The identifier of a node.
fn node_id(node: &Node) -> (r: &String)
    ensures
        r@ == node@.id(),
{
    match node {
        Node::Target(t) => &t.identifier,
        Node::NoRule(id) => id,
    }
}

/// The index of the node named `id`, if there is one.
fn find_node(nodes: &Vec<Node>, id: &String) -> (r: Option<usize>)
    ensures
        match r {
            Some(k) => k < nodes@.len() && nodes@[k as int]@.id() == id@,
            None => forall|k: int| 0 <= k < nodes@.len() ==> nodes@[k]@.id() != id@,
        },
{
    let mut k: usize = 0;
    while k < nodes.len()
        invariant
            k <= nodes@.len(),
            forall|m: int| 0 <= m < k ==> nodes@[m]@.id() != id@,
        decreases nodes@.len() - k,
    {
        if *node_id(&nodes[k]) == *id {
            return Some(k);
        }
        k += 1;
    }
    None
}

proof fn lemma_deps_count_mono(ts: Seq<TargetView>, i: int, j: int)
    requires
        i <= j,
    ensures
        deps_count(ts, i) <= deps_count(ts, j),
    decreases j - i,
{
    if i < j {
        lemma_deps_count_mono(ts, i, j - 1);
    }
}

/// A failed edge from `a` to `b` closes a cycle among the declared
/// identifiers: `b` already reached `a` along declared edges.
proof fn lemma_refused_edge_is_cycle(
    ts: Seq<TargetView>,
    nodes: Seq<NodeView>,
    edges: Seq<(nat, nat)>,
    a: nat,
    b: nat,
)
    requires
        a < ts.len() <= nodes.len(),
        b < nodes.len(),
        forall|i: int| 0 <= i < ts.len() ==> nodes[i] == NodeView::Target(#[trigger] ts[i]),
        forall|x: nat, y: nat| #[trigger]
            edges.contains((x, y)) ==> x < ts.len() && y < nodes.len() && ts[x as int].deps.contains(
                nodes[y as int].id(),
            ),
        ts[a as int].deps.contains(nodes[b as int].id()),
        reaches(edge_rel(edges), b, a),
    ensures
        has_cycle(ts),
{
    let decl = |x: nat, y: nat|
        x < ts.len() && y < nodes.len() && ts[x as int].deps.contains(nodes[y as int].id());
    let f = |k: nat| nodes[k as int].id();
    let p = choose|p: Seq<nat>| walk(edge_rel(edges), p, b, a);
    lemma_walk_mono(edge_rel(edges), decl, p, b, a);
    lemma_walk_prepend(decl, p, a, b, a);
    let q = seq![a] + p;
    assert forall|x: nat, y: nat| #[trigger] decl(x, y) implies declared_needs(ts)(f(x), f(y)) by {
        assert(nodes[x as int] == NodeView::Target(ts[x as int]));
        assert(ts[x as int].identifier == f(x));
    }
    lemma_walk_map(decl, declared_needs(ts), f, q, a, a);
    let r = q.map_values(f);
    assert(is_path(declared_needs(ts), r) && r.len() > 1);
}

/// A cycle among the declared identifiers would be a cycle of the graph.
proof fn lemma_declared_acyclic(ts: Seq<TargetView>, nodes: Seq<NodeView>, edges: Seq<(nat, nat)>)
    requires
        ts.len() <= nodes.len(),
        forall|i: int| 0 <= i < ts.len() ==> nodes[i] == NodeView::Target(#[trigger] ts[i]),
        forall|i: int, j: int| 0 <= i < j < nodes.len() ==> nodes[i].id() != nodes[j].id(),
        forall|x: Seq<char>| #[trigger]
            mentions(ts, x) ==> exists|i: int| 0 <= i < nodes.len() && nodes[i].id() == x,
        forall|x: nat, y: nat|
            x < ts.len() && y < nodes.len() && #[trigger] ts[x as int].deps.contains(
                nodes[y as int].id(),
            ) ==> edges.contains((x, y)),
        acyclic(edge_rel(edges)),
    ensures
        !has_cycle(ts),
{
    let idx = |x: Seq<char>| choose|k: nat| k < nodes.len() && nodes[k as int].id() == x;
    assert forall|x: Seq<char>, y: Seq<char>| #[trigger]
        declared_needs(ts)(x, y) implies edge_rel(edges)(idx(x), idx(y)) by {
        let i = choose|i: int| 0 <= i < ts.len() && ts[i].identifier == x && ts[i].deps.contains(y);
        assert(nodes[i] == NodeView::Target(ts[i]));
        assert(mentions(ts, x));
        assert(mentions(ts, y));
        let kx = choose|k: int| 0 <= k < nodes.len() && nodes[k].id() == x;
        let ky = choose|k: int| 0 <= k < nodes.len() && nodes[k].id() == y;
        assert(nodes[kx as nat as int].id() == x);
        assert(nodes[ky as nat as int].id() == y);
        let ix = idx(x);
        let iy = idx(y);
        assert(ix == i);
        assert(ts[ix as int].deps.contains(nodes[iy as int].id()));
    }
    assert forall|q: Seq<Seq<char>>| #[trigger]
        is_path(declared_needs(ts), q) && q.len() > 1 implies q[0] != q.last() by {
        if q[0] == q.last() {
            lemma_walk_map(declared_needs(ts), edge_rel(edges), idx, q, q[0], q.last());
            let r = q.map_values(idx);
            assert(is_path(edge_rel(edges), r) && r.len() > 1);
        }
    }
}

/// The values of a list of nodes.
pub open spec fn node_views(nodes: Seq<Node>) -> Seq<NodeView> {
    nodes.map_values(|n: Node| n@)
}

/// Adds a node for `target`; fails with `DuplicateTarget` if a node of its
/// name exists already.
fn add_target_node(graph: &mut DependencyDag, nodes: &mut Vec<Node>, target: Target) -> (r: Result<(), Error>)
    requires
        dag_node_count(*old(graph)) == old(nodes)@.len(),
        old(nodes)@.len() < u32::MAX,
    ensures
        dag_edges(*final(graph)) == dag_edges(*old(graph)),
        dag_node_count(*final(graph)) == final(nodes)@.len(),
        match r {
            Ok(()) => {
                &&& !ids_of(old(nodes)@).contains(target@.identifier)
                &&& final(nodes)@ == old(nodes)@.push(Node::Target(target))
            },
            Err(e) => {
                &&& ids_of(old(nodes)@).contains(target@.identifier)
                &&& e matches Error::UserError(UserError::DuplicateTarget)
                &&& final(nodes)@ == old(nodes)@
            },
        },
{
    match find_node(nodes, &target.identifier) {
        Some(k) => {
            assert(ids_of(nodes@)[k as int] == target@.identifier);
            Err(Error::UserError(UserError::DuplicateTarget))
        },
        None => {
            assert(!ids_of(nodes@).contains(target@.identifier)) by {
                if ids_of(nodes@).contains(target@.identifier) {
                    let k = choose|k: int| 0 <= k < ids_of(nodes@).len() && ids_of(nodes@)[k] == target@.identifier;
                    assert(nodes@[k]@.id() == target@.identifier);
                }
            }
            nodes.push(Node::Target(target));
            add_node(graph);
            Ok(())
        },
    }
}

/// Adds a plain-file node for `dependency_identifier` unless a node of that
/// name exists already.
fn add_leaf_node(graph: &mut DependencyDag, nodes: &mut Vec<Node>, dependency_identifier: &String)
    requires
        dag_node_count(*old(graph)) == old(nodes)@.len(),
        old(nodes)@.len() < u32::MAX,
    ensures
        dag_edges(*final(graph)) == dag_edges(*old(graph)),
        dag_node_count(*final(graph)) == final(nodes)@.len(),
        final(nodes)@ == if ids_of(old(nodes)@).contains(dependency_identifier@) {
            old(nodes)@
        } else {
            old(nodes)@.push(Node::NoRule(*dependency_identifier))
        },
{
    match find_node(nodes, dependency_identifier) {
        Some(k) => {
            assert(ids_of(nodes@)[k as int] == dependency_identifier@);
        },
        None => {
            assert(!ids_of(nodes@).contains(dependency_identifier@)) by {
                if ids_of(nodes@).contains(dependency_identifier@) {
                    let k = choose|k: int|
                        0 <= k < ids_of(nodes@).len() && ids_of(nodes@)[k] == dependency_identifier@;
                    assert(nodes@[k]@.id() == dependency_identifier@);
                }
            }
            nodes.push(Node::NoRule(dependency_identifier.clone()));
            add_node(graph);
        },
    }
}

/// The index of the node named `x`.
pub open spec fn index_in(nodes: Seq<NodeView>, x: Seq<char>) -> nat {
    choose|k: nat| k < nodes.len() && nodes[k as int].id() == x
}

/// The edges of node `a`: one to the node of each of its dependencies, in
/// the order in which they are listed, repeats included. A plain file has
/// none.
pub open spec fn own_edges(nodes: Seq<NodeView>, a: nat) -> Seq<(nat, nat)> {
    nodes[a as int].deps().map_values(|d: Seq<char>| (a, index_in(nodes, d)))
}

/// The edges of the first `k` nodes, node after node.
pub open spec fn declared_edges(nodes: Seq<NodeView>, k: int) -> Seq<(nat, nat)>
    decreases k,
{
    if k <= 0 {
        Seq::empty()
    } else {
        declared_edges(nodes, k - 1) + own_edges(nodes, (k - 1) as nat)
    }
}

/// The edge `es[j]`, added after `old` and the edges of `es` before it, would
/// close a cycle: its target already reaches its source.
pub open spec fn closes_cycle(old: Seq<(nat, nat)>, es: Seq<(nat, nat)>, j: int) -> bool {
    reaches(edge_rel(old + es.take(j)), es[j].1, es[j].0)
}

/// Every dependency of every node names a node.
pub open spec fn deps_resolved(nodes: Seq<NodeView>) -> bool {
    forall|i: int, d: Seq<char>|
        0 <= i < nodes.len() && #[trigger] nodes[i].deps().contains(d) ==> exists|k: int|
            0 <= k < nodes.len() && nodes[k].id() == d
}

/// Among nodes with distinct identifiers, `index_in` finds the node of an
/// identifier that names one.
proof fn lemma_index_in(nodes: Seq<NodeView>, k: int)
    requires
        0 <= k < nodes.len(),
        forall|i: int, j: int| 0 <= i < j < nodes.len() ==> nodes[i].id() != nodes[j].id(),
    ensures
        index_in(nodes, nodes[k].id()) == k,
{
    let x = nodes[k].id();
    assert((k as nat) < nodes.len() && nodes[k as nat as int].id() == x);
    let c = index_in(nodes, x);
    if c != k {
        if (c as int) < k {
            assert(nodes[c as int].id() != nodes[k].id());
        } else {
            assert(nodes[k].id() != nodes[c as int].id());
        }
    }
}

/// The edges of node `a` go from `a` to the nodes of its dependencies.
proof fn lemma_own_edges_contains(nodes: Seq<NodeView>, a: nat, x: nat, y: nat)
    requires
        a < nodes.len(),
        forall|i: int, j: int| 0 <= i < j < nodes.len() ==> nodes[i].id() != nodes[j].id(),
        deps_resolved(nodes),
    ensures
        own_edges(nodes, a).contains((x, y)) <==> (x == a && y < nodes.len()
            && nodes[a as int].deps().contains(nodes[y as int].id())),
{
    let es = own_edges(nodes, a);
    let deps = nodes[a as int].deps();
    if es.contains((x, y)) {
        let j = choose|j: int| 0 <= j < es.len() && es[j] == (x, y);
        assert(deps.contains(deps[j]));
        let k = choose|k: int| 0 <= k < nodes.len() && nodes[k].id() == deps[j];
        lemma_index_in(nodes, k);
        assert(y == k);
    }
    if x == a && y < nodes.len() && deps.contains(nodes[y as int].id()) {
        let j = choose|j: int| 0 <= j < deps.len() && deps[j] == nodes[y as int].id();
        lemma_index_in(nodes, y as int);
        assert(es[j] == (x, y));
    }
}

/// The edges of the first `k` nodes go from each of them to the nodes of its
/// dependencies.
proof fn lemma_declared_edges_contains(nodes: Seq<NodeView>, k: int, x: nat, y: nat)
    requires
        0 <= k <= nodes.len(),
        forall|i: int, j: int| 0 <= i < j < nodes.len() ==> nodes[i].id() != nodes[j].id(),
        deps_resolved(nodes),
    ensures
        declared_edges(nodes, k).contains((x, y)) <==> (x < k && y < nodes.len()
            && nodes[x as int].deps().contains(nodes[y as int].id())),
    decreases k,
{
    if k > 0 {
        let before = declared_edges(nodes, k - 1);
        let own = own_edges(nodes, (k - 1) as nat);
        let all = declared_edges(nodes, k);
        lemma_declared_edges_contains(nodes, k - 1, x, y);
        lemma_own_edges_contains(nodes, (k - 1) as nat, x, y);
        if all.contains((x, y)) {
            let i = choose|i: int| 0 <= i < all.len() && all[i] == (x, y);
            if i < before.len() {
                assert(before[i] == (x, y));
            } else {
                assert(own[i - before.len()] == (x, y));
            }
        }
        if before.contains((x, y)) {
            let i = choose|i: int| 0 <= i < before.len() && before[i] == (x, y);
            assert(all[i] == (x, y));
        }
        if own.contains((x, y)) {
            let i = choose|i: int| 0 <= i < own.len() && own[i] == (x, y);
            assert(all[before.len() + i] == (x, y));
        }
    }
}

/// The targets come first and the plain files after them: the edges of the
/// first `k` nodes are as many as the dependencies of the first targets.
proof fn lemma_declared_edges_len(nodes: Seq<NodeView>, ts: Seq<TargetView>, k: int)
    requires
        ts.len() <= nodes.len(),
        0 <= k <= nodes.len(),
        forall|i: int| 0 <= i < ts.len() ==> nodes[i] == NodeView::Target(#[trigger] ts[i]),
        forall|i: int| ts.len() <= i < nodes.len() ==> #[trigger] nodes[i] is NoRule,
    ensures
        declared_edges(nodes, k).len() == deps_count(ts, if k < ts.len() { k } else { ts.len() as int }),
    decreases k,
{
    if k > 0 {
        lemma_declared_edges_len(nodes, ts, k - 1);
        if k - 1 < ts.len() {
            assert(nodes[k - 1] == NodeView::Target(ts[k - 1]));
        } else {
            assert(nodes[k - 1] is NoRule);
        }
    }
}

/// Adds an edge from the node at `target_ix` to the node of each of its
/// dependencies, in the order in which they are listed; a plain file has none.
/// Stops with `DependencyCycle` at the first edge that would close a cycle,
/// leaving the edges before it added.
fn add_edges_to_deps(graph: &mut DependencyDag, nodes: &Vec<Node>, target_ix: usize) -> (r: Result<(), Error>)
    requires
        target_ix < nodes@.len(),
        dag_node_count(*old(graph)) == nodes@.len(),
        forall|i: int, j: int|
            0 <= i < j < nodes@.len() ==> node_views(nodes@)[i].id() != node_views(nodes@)[j].id(),
        deps_resolved(node_views(nodes@)),
        acyclic(edge_rel(dag_edges(*old(graph)))),
        dag_edges(*old(graph)).len() + own_edges(node_views(nodes@), target_ix as nat).len() < u32::MAX,
    ensures
        dag_node_count(*final(graph)) == nodes@.len(),
        acyclic(edge_rel(dag_edges(*final(graph)))),
        (node_views(nodes@)[target_ix as int] is NoRule) ==> ((r is Ok) && dag_edges(*final(graph))
            == dag_edges(*old(graph))),
        ({
            let old_edges = dag_edges(*old(graph));
            let es = own_edges(node_views(nodes@), target_ix as nat);
            &&& ((r is Ok) <==> forall|j: int| 0 <= j < es.len() ==> !closes_cycle(old_edges, es, j))
            &&& (r is Ok) ==> dag_edges(*final(graph)) == old_edges + es
            &&& !(r is Ok) ==> {
                &&& r matches Err(Error::UserError(UserError::DependencyCycle))
                &&& exists|j: int|
                    0 <= j < es.len() && closes_cycle(old_edges, es, j) && (forall|k: int|
                        0 <= k < j ==> !closes_cycle(old_edges, es, k)) && dag_edges(*final(graph))
                        == old_edges + es.take(j)
            }
        }),
{
    let a = target_ix;
    let ghost gnodes = node_views(nodes@);
    let ghost old_edges = dag_edges(*graph);
    let ghost es = own_edges(gnodes, a as nat);
    assert(gnodes[a as int] == nodes@[a as int]@);
    let target = match &nodes[a] {
        Node::Target(target) => target,
        Node::NoRule(_) => {
            assert(old_edges + es =~= old_edges);
            return Ok(());
        },
    };
    let deps = &target.deps;
    proof {
        assert(old_edges + es.take(0) =~= old_edges);
    }
    let mut j: usize = 0;
    while j < deps.len()
        invariant
            a == target_ix,
            a < nodes@.len(),
            old_edges == dag_edges(*old(graph)),
            gnodes == node_views(nodes@),
            gnodes[a as int] == NodeView::Target(target@),
            es == own_edges(gnodes, a as nat),
            deps == &target.deps,
            es.len() == deps@.len(),
            j <= deps@.len(),
            forall|i: int, k: int| 0 <= i < k < nodes@.len() ==> gnodes[i].id() != gnodes[k].id(),
            deps_resolved(gnodes),
            dag_node_count(*graph) == nodes@.len(),
            dag_edges(*graph) == old_edges + es.take(j as int),
            acyclic(edge_rel(dag_edges(*graph))),
            old_edges.len() + es.len() < u32::MAX,
            forall|k: int| 0 <= k < j ==> !closes_cycle(old_edges, es, k),
        decreases deps@.len() - j,
    {
        let dep = &deps[j];
        assert(target@.deps[j as int] == dep@);
        assert(gnodes[a as int].deps().contains(dep@));
        let b = match find_node(nodes, dep) {
            Some(b) => b,
            None => {
                proof {
                    let k = choose|k: int| 0 <= k < gnodes.len() && gnodes[k].id() == dep@;
                    assert(nodes@[k]@.id() == dep@);
                }
                return Err(Error::internal("a dependency without a node"));
            },
        };
        proof {
            assert(gnodes[b as int].id() == dep@);
            lemma_index_in(gnodes, b as int);
            assert(es[j as int] == (a as nat, b as nat));
        }
        let ghost before = dag_edges(*graph);
        if !add_edge(graph, a, b) {
            proof {
                let jj = j as int;
                assert(closes_cycle(old_edges, es, jj));
                assert(dag_edges(*graph) == old_edges + es.take(jj));
                assert(0 <= jj < es.len() && closes_cycle(old_edges, es, jj) && (forall|k: int|
                    0 <= k < jj ==> !closes_cycle(old_edges, es, k)) && dag_edges(*graph)
                    == old_edges + es.take(jj));
                assert(!(node_views(nodes@)[a as int] is NoRule));
            }
            return Err(Error::UserError(UserError::DependencyCycle));
        }
        proof {
            lemma_push_edge_acyclic(before, a as nat, b as nat);
            assert(old_edges + es.take(j + 1) =~= (old_edges + es.take(j as int)).push(es[j as int]));
        }
        j += 1;
    }
    assert(es.take(deps@.len() as int) =~= es);
    Ok(())
}

impl DependencyGraph {
    #[verifier::type_invariant]
    spec fn inv(&self) -> bool {
        &&& dag_node_count(self.graph) == self.nodes@.len()
        &&& self@.wf()
    }

    /// Builds the graph of the targets: one node for each target, then one for
    /// each dependency that no target produces, then an edge from each target
    /// to each of its dependencies, in order. Fails on the first target whose
    /// identifier was taken already, and then on the first edge that would
    /// close a cycle.
    pub fn construct(targets: Vec<Target>) -> (r: Result<DependencyGraph, Error>)
        requires
            fits_in_graph(views(targets@)),
        ensures
            match r {
                Ok(g) => ids_unique(views(targets@)) && !has_cycle(views(targets@)) && built_from(
                    g@,
                    views(targets@),
                ),
                Err(e) => {
                    ||| !ids_unique(views(targets@)) && e matches Error::UserError(
                        UserError::DuplicateTarget,
                    )
                    ||| ids_unique(views(targets@)) && has_cycle(views(targets@))
                        && e matches Error::UserError(UserError::DependencyCycle)
                },
            },
    {
        let ghost ts = views(targets@);
        let mut nodes: Vec<Node> = Vec::new();
        let mut graph = new_dag();

        // one node for each target
        let mut i: usize = 0;
        while i < targets.len()
            invariant
                ts == views(targets@),
                fits_in_graph(ts),
                i <= targets@.len(),
                nodes@.len() == i,
                dag_node_count(graph) == i,
                dag_edges(graph) == Seq::<(nat, nat)>::empty(),
                forall|k: int| 0 <= k < i ==> nodes@[k]@ == NodeView::Target(#[trigger] ts[k]),
                forall|a: int, b: int| 0 <= a < b < i ==> ts[a].identifier != ts[b].identifier,
            decreases targets@.len() - i,
        {
            let ghost before = nodes@;
            match add_target_node(&mut graph, &mut nodes, targets[i].clone()) {
                Ok(()) => {},
                Err(e) => {
                    proof {
                        let k = choose|k: int| 0 <= k < before.len() && ids_of(before)[k] == ts[i as int].identifier;
                        assert(before[k]@ == NodeView::Target(ts[k]));
                    }
                    return Err(e);
                },
            }
            proof {
                assert forall|k: int| 0 <= k < i implies ts[k].identifier != ts[i as int].identifier by {
                    assert(nodes@[k]@ == NodeView::Target(ts[k]));
                    assert(ids_of(before)[k] == ts[k].identifier);
                }
            }
            i += 1;
        }
        assert(ids_unique(ts));
        let ghost t = ts.len();
        let ghost tids = target_ids(ts);
        proof {
            assert(ids_of(nodes@) =~= tids + new_ids(tids, deps_prefix(ts, 0))) by {
                assert forall|k: int| 0 <= k < t implies ids_of(nodes@)[k] == tids[k] by {
                    assert(nodes@[k]@ == NodeView::Target(ts[k]));
                }
            }
            assert forall|a: int, b: int|
                0 <= a < b < nodes@.len() implies nodes@[a]@.id() != nodes@[b]@.id() by {
                assert(nodes@[a]@ == NodeView::Target(ts[a]));
                assert(nodes@[b]@ == NodeView::Target(ts[b]));
            }
            assert forall|k: int| 0 <= k < nodes@.len() implies mentions(
                ts,
                #[trigger] nodes@[k]@.id(),
            ) by {
                assert(nodes@[k]@ == NodeView::Target(ts[k]));
            }
        }

        // one node for each dependency that no target produces
        let mut i: usize = 0;
        while i < targets.len()
            invariant
                ts == views(targets@),
                fits_in_graph(ts),
                ids_unique(ts),
                t == targets@.len(),
                i <= t,
                t <= nodes@.len() <= t + deps_count(ts, i as int),
                tids == target_ids(ts),
                ids_of(nodes@) == tids + new_ids(tids, deps_prefix(ts, i as int)),
                dag_node_count(graph) == nodes@.len(),
                dag_edges(graph) == Seq::<(nat, nat)>::empty(),
                forall|k: int| 0 <= k < t ==> nodes@[k]@ == NodeView::Target(#[trigger] ts[k]),
                forall|k: int| t <= k < nodes@.len() ==> #[trigger] nodes@[k]@ is NoRule,
                forall|a: int, b: int|
                    0 <= a < b < nodes@.len() ==> nodes@[a]@.id() != nodes@[b]@.id(),
                forall|k: int| 0 <= k < nodes@.len() ==> mentions(ts, #[trigger] nodes@[k]@.id()),
                forall|a: int, d: Seq<char>|
                    0 <= a < i && #[trigger] ts[a].deps.contains(d) ==> exists|k: int|
                        0 <= k < nodes@.len() && nodes@[k]@.id() == d,
            decreases t - i,
        {
            let deps = &targets[i].deps;
            proof {
                lemma_deps_count_mono(ts, i + 1, t as int);
                assert(deps_prefix(ts, i as int) + ts[i as int].deps.take(0) =~= deps_prefix(ts, i as int));
            }
            let mut j: usize = 0;
            while j < deps.len()
                invariant
                    ts == views(targets@),
                    fits_in_graph(ts),
                    ids_unique(ts),
                    t == targets@.len(),
                    i < t,
                    deps@.map_values(|d: String| d@) == ts[i as int].deps,
                    j <= deps@.len(),
                    deps_count(ts, i + 1) <= deps_count(ts, t as int),
                    t <= nodes@.len() <= t + deps_count(ts, i as int) + j,
                    tids == target_ids(ts),
                    ids_of(nodes@) == tids + new_ids(tids, deps_prefix(ts, i as int) + ts[i as int].deps.take(j as int)),
                    dag_node_count(graph) == nodes@.len(),
                    dag_edges(graph) == Seq::<(nat, nat)>::empty(),
                    forall|k: int| 0 <= k < t ==> nodes@[k]@ == NodeView::Target(#[trigger] ts[k]),
                    forall|k: int| t <= k < nodes@.len() ==> #[trigger] nodes@[k]@ is NoRule,
                    forall|a: int, b: int|
                        0 <= a < b < nodes@.len() ==> nodes@[a]@.id() != nodes@[b]@.id(),
                    forall|k: int|
                        0 <= k < nodes@.len() ==> mentions(ts, #[trigger] nodes@[k]@.id()),
                    forall|a: int, d: Seq<char>|
                        0 <= a < i && #[trigger] ts[a].deps.contains(d) ==> exists|k: int|
                            0 <= k < nodes@.len() && nodes@[k]@.id() == d,
                    forall|m: int|
                        0 <= m < j ==> exists|k: int|
                            0 <= k < nodes@.len() && nodes@[k]@.id() == #[trigger] ts[i as int].deps[m],
                decreases deps@.len() - j,
            {
                let dep = &deps[j];
                let ghost old_nodes = nodes@;
                proof {
                    assert(ts[i as int].deps[j as int] == dep@);
                    assert(mentions(ts, dep@) && ts[i as int].deps.contains(dep@));
                }
                let ghost ds = deps_prefix(ts, i as int) + ts[i as int].deps.take(j as int);
                let ghost ds1 = deps_prefix(ts, i as int) + ts[i as int].deps.take(j + 1);
                proof {
                    assert(ds1.drop_last() =~= ds);
                    assert(ds1.last() == dep@);
                }
                add_leaf_node(&mut graph, &mut nodes, dep);
                proof {
                    let prev = new_ids(tids, ds);
                    assert(ids_of(old_nodes) == tids + prev);
                    if !ids_of(old_nodes).contains(dep@) {
                        assert(ids_of(nodes@) =~= ids_of(old_nodes).push(dep@));
                        assert(tids + prev.push(dep@) =~= (tids + prev).push(dep@));
                        let last = nodes@.len() - 1;
                        assert(nodes@[last]@.id() == dep@);
                        assert forall|a: int| 0 <= a < last implies nodes@[a]@.id() != dep@ by {
                            assert(ids_of(old_nodes)[a] == old_nodes[a]@.id());
                        }
                    } else {
                        let k = choose|k: int| 0 <= k < ids_of(old_nodes).len() && ids_of(old_nodes)[k] == dep@;
                        assert(nodes@[k]@.id() == dep@);
                    }
                    assert forall|k: int| 0 <= k < old_nodes.len() implies nodes@[k] == old_nodes[k] by {}
                    assert forall|a: int, d: Seq<char>|
                        0 <= a < i && #[trigger] ts[a].deps.contains(d) implies exists|k: int|
                            0 <= k < nodes@.len() && nodes@[k]@.id() == d by {
                        let k = choose|k: int| 0 <= k < old_nodes.len() && old_nodes[k]@.id() == d;
                        assert(nodes@[k] == old_nodes[k]);
                    }
                    assert forall|m: int| 0 <= m < j + 1 implies exists|k: int|
                        0 <= k < nodes@.len() && nodes@[k]@.id() == #[trigger] ts[i as int].deps[m] by {
                        if m < j {
                            let k = choose|k: int|
                                0 <= k < old_nodes.len() && old_nodes[k]@.id() == ts[i as int].deps[m];
                            assert(nodes@[k] == old_nodes[k]);
                        } else if nodes@.len() == old_nodes.len() {
                            let k = choose|k: int| 0 <= k < ids_of(old_nodes).len() && ids_of(old_nodes)[k] == dep@;
                            assert(nodes@[k]@.id() == dep@);
                        } else {
                            assert(nodes@[old_nodes.len() as int]@.id() == dep@);
                        }
                    }
                }
                j += 1;
            }
            proof {
                assert(ts[i as int].deps.take(deps@.len() as int) =~= ts[i as int].deps);
                assert(deps_prefix(ts, i + 1) == deps_prefix(ts, i as int) + ts[i as int].deps);
                assert forall|a: int, d: Seq<char>|
                    0 <= a < i + 1 && #[trigger] ts[a].deps.contains(d) implies exists|k: int|
                        0 <= k < nodes@.len() && nodes@[k]@.id() == d by {
                    if a == i {
                        let m = choose|m: int| 0 <= m < ts[a].deps.len() && ts[a].deps[m] == d;
                        assert(ts[i as int].deps[m] == d);
                    }
                }
            }
            i += 1;
        }
        let ghost gnodes = node_views(nodes@);
        proof {
            assert(nodes@.len() == t + leaf_ids(ts).len()) by {
                assert(ids_of(nodes@).len() == nodes@.len());
            }
            assert forall|k: int| t <= k < nodes@.len() implies #[trigger] gnodes[k] == NodeView::NoRule(
                leaf_ids(ts)[k - t],
            ) by {
                assert(nodes@[k]@ is NoRule);
                assert(ids_of(nodes@)[k] == leaf_ids(ts)[k - t]);
            }
            assert forall|x: Seq<char>| #[trigger]
                mentions(ts, x) implies exists|k: int| 0 <= k < gnodes.len() && gnodes[k].id() == x by {
                let a = choose|a: int| 0 <= a < ts.len() && (ts[a].identifier == x || ts[a].deps.contains(x));
                if ts[a].identifier == x {
                    assert(nodes@[a]@ == NodeView::Target(ts[a]));
                    assert(gnodes[a].id() == x);
                } else {
                    assert(ts[a].deps.contains(x));
                    let k = choose|k: int| 0 <= k < nodes@.len() && nodes@[k]@.id() == x;
                    assert(gnodes[k].id() == x);
                }
            }
        }

        // an edge from each target to each of its dependencies
        proof {
            lemma_no_edges_acyclic();
            assert forall|i: int, d: Seq<char>|
                0 <= i < gnodes.len() && #[trigger] gnodes[i].deps().contains(d) implies exists|k: int|
                    0 <= k < gnodes.len() && gnodes[k].id() == d by {
                if i < t {
                    assert(gnodes[i] == NodeView::Target(ts[i]));
                    assert(mentions(ts, d));
                } else {
                    assert(gnodes[i] is NoRule);
                }
            }
            assert(declared_edges(gnodes, 0) == Seq::<(nat, nat)>::empty());
        }
        let n = nodes.len();
        let mut a: usize = 0;
        while a < n
            invariant
                ts == views(targets@),
                fits_in_graph(ts),
                ids_unique(ts),
                t == targets@.len(),
                t <= n,
                n == nodes@.len(),
                gnodes == node_views(nodes@),
                a <= n,
                dag_node_count(graph) == n,
                dag_edges(graph) == declared_edges(gnodes, a as int),
                deps_count(ts, t as int) < u32::MAX,
                forall|k: int| 0 <= k < t ==> gnodes[k] == NodeView::Target(#[trigger] ts[k]),
                n == t + leaf_ids(ts).len(),
                forall|k: int| t <= k < n ==> #[trigger] gnodes[k] == NodeView::NoRule(leaf_ids(ts)[k - t]),
                acyclic(edge_rel(dag_edges(graph))),
                forall|a: int, b: int| 0 <= a < b < n ==> gnodes[a].id() != gnodes[b].id(),
                deps_resolved(gnodes),
                forall|x: Seq<char>| #[trigger]
                    mentions(ts, x) ==> exists|k: int| 0 <= k < gnodes.len() && gnodes[k].id() == x,
            decreases n - a,
        {
            proof {
                assert forall|k: int| t <= k < n implies #[trigger] gnodes[k] is NoRule by {
                    assert(gnodes[k] == NodeView::NoRule(leaf_ids(ts)[k - t]));
                }
                lemma_declared_edges_len(gnodes, ts, a + 1);
                lemma_deps_count_mono(ts, if a + 1 < t { a + 1 } else { t as int }, t as int);
                assert(declared_edges(gnodes, a + 1) == declared_edges(gnodes, a as int) + own_edges(
                    gnodes,
                    a as nat,
                ));
            }
            let ghost old_edges = dag_edges(graph);
            let ghost es = own_edges(gnodes, a as nat);
            match add_edges_to_deps(&mut graph, &nodes, a) {
                Ok(()) => {},
                Err(e) => {
                    proof {
                        let j = choose|j: int|
                            0 <= j < es.len() && closes_cycle(old_edges, es, j) && (forall|k: int|
                                0 <= k < j ==> !closes_cycle(old_edges, es, k)) && dag_edges(graph)
                                == old_edges + es.take(j);
                        let edges = old_edges + es.take(j);
                        let b = es[j].1;
                        assert(es.contains(es[j]));
                        lemma_own_edges_contains(gnodes, a as nat, a as nat, b);
                        assert(a < t) by {
                            if a >= t {
                                assert(gnodes[a as int] == NodeView::NoRule(leaf_ids(ts)[a - t]));
                            }
                        }
                        assert(gnodes[a as int] == NodeView::Target(ts[a as int]));
                        assert forall|x: nat, y: nat| #[trigger]
                            edges.contains((x, y)) implies x < ts.len() && y < gnodes.len()
                                && ts[x as int].deps.contains(gnodes[y as int].id()) by {
                            let i = choose|i: int| 0 <= i < edges.len() && edges[i] == (x, y);
                            if i < old_edges.len() {
                                assert(old_edges[i] == (x, y));
                                lemma_declared_edges_contains(gnodes, a as int, x, y);
                                assert(gnodes[x as int] == NodeView::Target(ts[x as int]));
                            } else {
                                assert(es[i - old_edges.len()] == (x, y));
                                assert(es.contains((x, y)));
                                lemma_own_edges_contains(gnodes, a as nat, x, y);
                            }
                        }
                        lemma_refused_edge_is_cycle(ts, gnodes, edges, a as nat, b);
                    }
                    return Err(e);
                },
            }
            a += 1;
        }
        proof {
            lemma_declared_edges_len(gnodes, ts, n as int);
            assert forall|x: nat, y: nat|
                #![trigger dag_edges(graph).contains((x, y))]
                #![trigger ts[x as int].deps.contains(gnodes[y as int].id())]
                dag_edges(graph).contains((x, y)) <==> (x < ts.len() && y < n && ts[x as int].deps.contains(
                    gnodes[y as int].id(),
                )) by {
                lemma_declared_edges_contains(gnodes, n as int, x, y);
                if x < n {
                    if x < t {
                        assert(gnodes[x as int] == NodeView::Target(ts[x as int]));
                    } else {
                        assert(gnodes[x as int] == NodeView::NoRule(leaf_ids(ts)[x - t]));
                    }
                }
            }
            lemma_declared_acyclic(ts, gnodes, dag_edges(graph));
            assert forall|e: (nat, nat)| #[trigger]
                dag_edges(graph).contains(e) implies e.0 < n && e.1 < n && gnodes[e.0 as int] is Target by {
                assert(dag_edges(graph).contains((e.0, e.1)));
                assert(gnodes[e.0 as int] == NodeView::Target(ts[e.0 as int]));
            }
            assert forall|k: int| 0 <= k < n implies mentions(ts, #[trigger] gnodes[k].id()) by {
                assert(gnodes[k] == nodes@[k]@);
            }
        }
        let g = DependencyGraph { nodes, graph };
        assert(g@.nodes == gnodes);
        Ok(g)
    }

    /// The depth of each node below `root`: the length of the longest path
    /// of "needs" edges from `root`, found level by level; `None` for the
    /// nodes that `root` does not reach.
    pub fn generate_depth_map(&self, root: usize) -> (depth: Vec<Option<usize>>)
        requires
            root < self@.nodes.len(),
        ensures
            is_depth_map(self@, root as nat, depth@),
    {
        proof {
            use_type_invariant(self);
        }
        let ghost g = self@;
        let ghost rel = g.needs();
        let n = self.nodes.len();
        let mut depth: Vec<Option<usize>> = Vec::new();
        let mut level: Vec<bool> = Vec::new();
        let mut v: usize = 0;
        while v < n
            invariant
                n == g.nodes.len(),
                v <= n,
                depth@.len() == v,
                level@.len() == v,
                forall|k: int| 0 <= k < v ==> depth@[k] is None,
                forall|k: int| 0 <= k < v ==> level@[k] == (k == root),
            decreases n - v,
        {
            depth.push(None);
            level.push(v == root);
            v += 1;
        }
        proof {
            lemma_walk_single(rel, root as nat);
            assert forall|c: int| 0 <= c < n implies (level@[c] <==> reaches_in(
                rel,
                root as nat,
                c as nat,
                0,
            )) by {
                let (r0, c0) = (root as nat, c as nat);
                if reaches_in(rel, r0, c0, 0) {
                    let p = choose|p: Seq<nat>| walk(rel, p, r0, c0) && p.len() == 1;
                }
            }
        }
        assert(level@[root as int]);
        let mut k: usize = 0;
        let mut nonempty = true;
        while nonempty
            invariant
                dag_node_count(self.graph) == n,
                g == self@,
                rel == g.needs(),
                g.wf(),
                n == g.nodes.len(),
                root < n,
                level@.len() == n,
                depth@.len() == n,
                k <= n,
                forall|c: int|
                    0 <= c < n ==> (#[trigger] level@[c] <==> reaches_in(rel, root as nat, c as nat, k as nat)),
                nonempty ==> exists|c: int| 0 <= c < n && level@[c],
                !nonempty ==> forall|c: int| 0 <= c < n ==> !level@[c],
                forall|c: int|
                    0 <= c < n ==> match #[trigger] depth@[c] {
                        Some(d) => d < k && reaches_in(rel, root as nat, c as nat, d as nat) && forall|m: nat|
                            d < m < k ==> !#[trigger] reaches_in(rel, root as nat, c as nat, m),
                        None => forall|m: nat| m < k ==> !#[trigger] reaches_in(rel, root as nat, c as nat, m),
                    },
            decreases n - k,
        {
            proof {
                let c = choose|c: int| 0 <= c < n && level@[c];
                lemma_reaches_in_bound(g.edges, n as nat, root as nat, c as nat, k as nat);
            }
            let ghost old_depth = depth@;
            let mut next: Vec<bool> = Vec::new();
            let mut c: usize = 0;
            while c < n
                invariant
                    c <= n,
                    next@.len() == c,
                    forall|x: int| 0 <= x < c ==> !next@[x],
                decreases n - c,
            {
                next.push(false);
                c += 1;
            }
            let mut any = false;
            let mut v: usize = 0;
            while v < n
                invariant
                    dag_node_count(self.graph) == n,
                    old_depth.len() == n,
                    g == self@,
                    rel == g.needs(),
                    g.wf(),
                    n == g.nodes.len(),
                    v <= n,
                    k < n,
                    level@.len() == n,
                    depth@.len() == n,
                    next@.len() == n,
                    forall|x: int| 0 <= x < n ==> (#[trigger] next@[x] <==> fed_before(g, level@, v as int, x as nat)),
                    any <==> exists|x: int| 0 <= x < n && next@[x],
                    forall|x: int|
                        0 <= x < n ==> #[trigger] depth@[x] == if x < v && level@[x] {
                            Some(k)
                        } else {
                            old_depth[x]
                        },
                decreases n - v,
            {
                if level[v] {
                    depth.set(v, Some(k));
                    let children = neighbors(&self.graph, v, Direction::Outgoing);
                    let mut i: usize = 0;
                    while i < children.len()
                        invariant
                            g == self@,
                            g.wf(),
                            n == g.nodes.len(),
                            v < n,
                            level@.len() == n,
                            level@[v as int],
                            next@.len() == n,
                            i <= children@.len(),
                            forall|j: usize| children@.contains(j) <==> g.edges.contains((v as nat, j as nat)),
                            forall|x: int|
                                0 <= x < n ==> (#[trigger] next@[x] <==> (fed_before(g, level@, v as int, x as nat)
                                    || children@.take(i as int).contains(x as usize))),
                            any <==> exists|x: int| 0 <= x < n && next@[x],
                        decreases children@.len() - i,
                    {
                        let ch = children[i];
                        assert(children@.contains(ch));
                        assert(g.edges.contains((v as nat, ch as nat)));
                        assert(ch < n);
                        proof {
                            assert(children@.take(i + 1) == children@.take(i as int).push(ch));
                        }
                        let ghost old_next = next@;
                        next.set(ch, true);
                        any = true;
                        proof {
                            assert(next@[ch as int]);
                            let t0 = children@.take(i as int);
                            let t1 = children@.take(i + 1);
                            assert forall|x: int| 0 <= x < n implies (#[trigger] next@[x] <==> (fed_before(
                                g,
                                level@,
                                v as int,
                                x as nat,
                            ) || t1.contains(x as usize))) by {
                                let xs = x as usize;
                                if t0.contains(xs) {
                                    let m = choose|m: int| 0 <= m < t0.len() && t0[m] == xs;
                                    assert(t1[m] == xs);
                                }
                                if xs == ch {
                                    assert(t1[i as int] == ch);
                                }
                                if t1.contains(xs) {
                                    let m = choose|m: int| 0 <= m < t1.len() && t1[m] == xs;
                                    if m < i {
                                        assert(t0[m] == xs);
                                    }
                                }
                                if x != ch as int {
                                    assert(next@[x] == old_next[x]);
                                }
                            }
                        }
                        i += 1;
                    }
                    proof {
                        assert(children@.take(children@.len() as int) == children@);
                        assert forall|x: int| 0 <= x < n implies (#[trigger] next@[x] <==> fed_before(
                            g,
                            level@,
                            v + 1,
                            x as nat,
                        )) by {
                            let xs = x as usize;
                            if next@[x] {
                                if fed_before(g, level@, v as int, x as nat) {
                                    let w = choose|w: int|
                                        0 <= w < v && level@[w] && #[trigger] g.edges.contains((w as nat, x as nat));
                                    assert(fed_before(g, level@, v + 1, x as nat));
                                } else {
                                    assert(children@.contains(xs));
                                    assert(g.edges.contains((v as nat, xs as nat)));
                                    let vi = v as int;
                                    assert(level@[vi]);
                                    assert(g.edges.contains((vi as nat, x as nat)));
                                    assert(fed_before(g, level@, v + 1, x as nat));
                                }
                            }
                            if fed_before(g, level@, v + 1, x as nat) {
                                let w = choose|w: int|
                                    0 <= w < v + 1 && level@[w] && #[trigger] g.edges.contains((w as nat, x as nat));
                                if w == v {
                                    assert(g.edges.contains((v as nat, xs as nat)));
                                    assert(children@.contains(xs));
                                    assert(next@[x]);
                                } else {
                                    assert(fed_before(g, level@, v as int, x as nat));
                                }
                            }
                        }
                    }
                } else {
                    proof {
                        assert forall|x: int| 0 <= x < n implies (#[trigger] next@[x] <==> fed_before(
                            g,
                            level@,
                            v + 1,
                            x as nat,
                        )) by {
                            if fed_before(g, level@, v + 1, x as nat) {
                                let w = choose|w: int|
                                    0 <= w < v + 1 && level@[w] && #[trigger] g.edges.contains((w as nat, x as nat));
                            }
                        }
                    }
                }
                v += 1;
            }
            proof {
                assert forall|x: int| 0 <= x < n implies (#[trigger] next@[x] <==> reaches_in(
                    rel,
                    root as nat,
                    x as nat,
                    (k + 1) as nat,
                )) by {
                    if next@[x] {
                        let w = choose|w: int|
                            0 <= w < n && level@[w] && #[trigger] g.edges.contains((w as nat, x as nat));
                        lemma_reaches_in_push(rel, root as nat, w as nat, x as nat, k as nat);
                    }
                    if reaches_in(rel, root as nat, x as nat, (k + 1) as nat) {
                        let w = lemma_reaches_in_last(rel, root as nat, x as nat, k as nat);
                        assert(g.edges.contains((w, x as nat)));
                        assert(level@[w as int]);
                        assert(fed_before(g, level@, n as int, x as nat));
                    }
                }
                assert forall|c: int| 0 <= c < n implies match #[trigger] depth@[c] {
                    Some(d) => d < k + 1 && reaches_in(rel, root as nat, c as nat, d as nat) && forall|m: nat|
                        d < m < k + 1 ==> !#[trigger] reaches_in(rel, root as nat, c as nat, m),
                    None => forall|m: nat| m < k + 1 ==> !#[trigger] reaches_in(rel, root as nat, c as nat, m),
                } by {
                    assert(level@[c] <==> reaches_in(rel, root as nat, c as nat, k as nat));
                    match old_depth[c] {
                        Some(d) => {},
                        None => {},
                    }
                }
            }
            level = next;
            k += 1;
            nonempty = any;
        }
        proof {
            assert forall|v: int| 0 <= v < depth@.len() implies match #[trigger] depth@[v] {
                Some(d) => is_longest(g, root as nat, v as nat, d as nat),
                None => !reaches(g.needs(), root as nat, v as nat),
            } by {
                assert forall|m: nat| m >= k implies !#[trigger] reaches_in(rel, root as nat, v as nat, m) by {
                    if reaches_in(rel, root as nat, v as nat, m) {
                        let w = lemma_reaches_in_prefix(g.edges, n as nat, root as nat, v as nat, m, k as nat);
                        assert(level@[w as int]);
                    }
                }
                match depth@[v] {
                    Some(d) => {},
                    None => {
                        if reaches(rel, root as nat, v as nat) {
                            let (r0, v0) = (root as nat, v as nat);
                            let p = choose|p: Seq<nat>| walk(rel, p, r0, v0);
                            assert(reaches_in(rel, r0, v0, (p.len() - 1) as nat));
                        }
                    },
                }
            }
        }
        depth
    }

    /// Marks each unmarked node that needs `v` and queues it.
    fn mark_dependants(
        &self,
        v: usize,
        obsolete: &mut Vec<bool>,
        queue: &mut VecDeque<usize>,
        marked: &mut usize,
    )
        requires
            v < self@.nodes.len(),
            old(obsolete)@.len() == self@.nodes.len(),
            *old(marked) == num_true(old(obsolete)@),
        ensures
            final(obsolete)@.len() == self@.nodes.len(),
            forall|x: int|
                0 <= x < self@.nodes.len() ==> (#[trigger] final(obsolete)@[x] <==> (old(obsolete)@[x]
                    || self@.edges.contains((x as nat, v as nat)))),
            *final(marked) == num_true(final(obsolete)@),
            old(queue)@.len() <= final(queue)@.len(),
            final(queue)@.len() - old(queue)@.len() == *final(marked) - *old(marked),
            final(queue)@.subrange(0, old(queue)@.len() as int) == old(queue)@,
            forall|x: int|
                0 <= x < self@.nodes.len() && #[trigger] final(obsolete)@[x] && !old(obsolete)@[x]
                    ==> final(queue)@.contains(x as usize),
            forall|k: int|
                old(queue)@.len() <= k < final(queue)@.len() ==> {
                    let q = #[trigger] final(queue)@[k];
                    &&& q < self@.nodes.len()
                    &&& final(obsolete)@[q as int]
                    &&& !old(obsolete)@[q as int]
                },
    {
        proof {
            use_type_invariant(self);
        }
        let ghost g = self@;
        let n = self.nodes.len();
        let ghost old_marks = obsolete@;
        let ghost old_queue = queue@;
        let parents = neighbors(&self.graph, v, Direction::Incoming);
        let mut i: usize = 0;
        while i < parents.len()
            invariant
                g == self@,
                g.wf(),
                n == g.nodes.len(),
                v < n,
                i <= parents@.len(),
                forall|j: usize| parents@.contains(j) <==> g.edges.contains((j as nat, v as nat)),
                obsolete@.len() == n,
                forall|x: int|
                    0 <= x < n ==> (#[trigger] obsolete@[x] <==> (old_marks[x]
                        || parents@.take(i as int).contains(x as usize))),
                old_marks.len() == n,
                *marked == num_true(obsolete@),
                old_queue.len() <= queue@.len(),
                queue@.len() - old_queue.len() == *marked - num_true(old_marks),
                queue@.subrange(0, old_queue.len() as int) == old_queue,
                forall|x: int|
                    0 <= x < n && #[trigger] obsolete@[x] && !old_marks[x] ==> queue@.contains(x as usize),
                forall|k: int|
                    old_queue.len() <= k < queue@.len() ==> {
                        let q = #[trigger] queue@[k];
                        &&& q < n
                        &&& obsolete@[q as int]
                        &&& !old_marks[q as int]
                    },
            decreases parents@.len() - i,
        {
            let p = parents[i];
            assert(parents@.contains(p));
            assert(g.edges.contains((p as nat, v as nat)));
            let ghost before = obsolete@;
            let ghost queue_before = queue@;
            if !obsolete[p] {
                let len = obsolete.len();
                proof {
                    lemma_num_true_set(obsolete@, p as int);
                }
                obsolete.set(p, true);
                queue.push_back(p);
                *marked = *marked + 1;
                proof {
                    assert(queue@.subrange(0, old_queue.len() as int) =~= queue_before.subrange(
                        0,
                        old_queue.len() as int,
                    ));
                    assert(queue@.last() == p);
                    assert forall|x: int|
                        0 <= x < n && #[trigger] obsolete@[x] && !old_marks[x] implies queue@.contains(
                            x as usize,
                        ) by {
                        if x != p as int {
                            assert(before[x]);
                            let k = choose|k: int| 0 <= k < queue_before.len() && queue_before[k] == x as usize;
                            assert(queue@[k] == queue_before[k]);
                        } else {
                            assert(queue@[queue@.len() - 1] == p);
                        }
                    }
                }
            }
            proof {
                let t0 = parents@.take(i as int);
                let t1 = parents@.take(i + 1);
                assert forall|x: int| 0 <= x < n implies (#[trigger] obsolete@[x] <==> (old_marks[x]
                    || t1.contains(x as usize))) by {
                    let xs = x as usize;
                    if t0.contains(xs) {
                        let m = choose|m: int| 0 <= m < t0.len() && t0[m] == xs;
                        assert(t1[m] == xs);
                    }
                    if xs == p {
                        assert(t1[i as int] == p);
                    }
                    if t1.contains(xs) {
                        let m = choose|m: int| 0 <= m < t1.len() && t1[m] == xs;
                        if m < i {
                            assert(t0[m] == xs);
                        }
                    }
                    if x != p as int {
                        assert(obsolete@[x] == before[x]);
                    }
                }
            }
            i += 1;
        }
        proof {
            assert(parents@.take(parents@.len() as int) == parents@);
            assert forall|x: int| 0 <= x < n implies (#[trigger] obsolete@[x] <==> (old_marks[x]
                || g.edges.contains((x as nat, v as nat)))) by {
                let xs = x as usize;
                if g.edges.contains((x as nat, v as nat)) {
                    assert(g.edges.contains((xs as nat, v as nat)));
                    assert(parents@.contains(xs));
                }
                if parents@.contains(xs) {
                    assert(g.edges.contains((xs as nat, v as nat)));
                }
            }
        }
    }

    /// The targets that must be rebuilt when the nodes marked in
    /// `obsolete_leaf_nodes` have changed: each target that needs one of them,
    /// directly or through others, and each marked target itself. The graph is
    /// walked backwards along "needs" edges, breadth first, visiting each node
    /// once.
    pub fn find_obsolete_targets(&self, obsolete_leaf_nodes: &Vec<bool>) -> (r: Vec<bool>)
        requires
            obsolete_leaf_nodes@.len() == self@.nodes.len(),
        ensures
            r@ == obsolete_targets(self@, obsolete_leaf_nodes@),
    {
        proof {
            use_type_invariant(self);
        }
        let ghost g = self@;
        let ghost seeds = obsolete_leaf_nodes@;
        let ghost rel = g.needs();
        let n = self.nodes.len();
        let mut obsolete: Vec<bool> = Vec::new();
        let mut i: usize = 0;
        while i < n
            invariant
                i <= n,
                obsolete@.len() == i,
                forall|x: int| 0 <= x < i ==> !obsolete@[x],
            decreases n - i,
        {
            obsolete.push(false);
            i += 1;
        }
        proof {
            lemma_num_true_none(obsolete@);
        }
        let mut queue: VecDeque<usize> = VecDeque::new();
        let mut marked: usize = 0;

        // the seeds: obsolete targets themselves, and what needs an obsolete file
        let mut s: usize = 0;
        while s < n
            invariant
                g == self@,
                g.wf(),
                rel == g.needs(),
                seeds == obsolete_leaf_nodes@,
                n == g.nodes.len(),
                seeds.len() == n,
                s <= n,
                obsolete@.len() == n,
                marked == num_true(obsolete@),
                queue@.len() == marked,
                forall|k: int| 0 <= k < queue@.len() ==> #[trigger] queue@[k] < n && obsolete@[queue@[k] as int],
                forall|x: int| 0 <= x < n && #[trigger] obsolete@[x] ==> queue@.contains(x as usize),
                forall|x: int| 0 <= x < n && #[trigger] obsolete@[x] ==> is_obsolete(g, seeds, x as nat),
                seeds_marked(g, seeds, obsolete@, s as int),
            decreases n - s,
        {
            if obsolete_leaf_nodes[s] {
                assert(self.nodes@[s as int]@ == g.nodes[s as int]);
                match &self.nodes[s] {
                    Node::Target(_) => {
                        proof {
                            crate::paths::lemma_walk_single(rel, s as nat);
                        }
                        if !obsolete[s] {
                            let len = obsolete.len();
                            proof {
                                lemma_num_true_set(obsolete@, s as int);
                            }
                            let ghost before = obsolete@;
                            let ghost queue_before = queue@;
                            obsolete.set(s, true);
                            queue.push_back(s);
                            marked = marked + 1;
                            proof {
                                assert(queue@[queue@.len() - 1] == s);
                                assert(g.is_target(s as nat));
                                assert(is_obsolete(g, seeds, s as nat));
                                assert forall|x: int| 0 <= x < n && #[trigger] obsolete@[x] implies queue@.contains(
                                    x as usize,
                                ) by {
                                    if x != s as int {
                                        assert(before[x]);
                                        let k = choose|k: int|
                                            0 <= k < queue_before.len() && queue_before[k] == x as usize;
                                        assert(queue@[k] == queue_before[k]);
                                    }
                                }
                                assert forall|k: int| 0 <= k < queue@.len() implies #[trigger] queue@[k] < n
                                    && obsolete@[queue@[k] as int] by {
                                    if k < queue_before.len() {
                                        assert(queue@[k] == queue_before[k]);
                                    }
                                }
                            }
                        }
                    },
                    Node::NoRule(_) => {
                        let ghost before = obsolete@;
                        let ghost queue_before = queue@;
                        self.mark_dependants(s, &mut obsolete, &mut queue, &mut marked);
                        proof {
                            assert forall|x: int| 0 <= x < n && #[trigger] obsolete@[x] implies is_obsolete(
                                g,
                                seeds,
                                x as nat,
                            ) by {
                                if !before[x] {
                                    assert(g.edges.contains((x as nat, s as nat)));
                                    crate::paths::lemma_walk_single(rel, s as nat);
                                    lemma_walk_prepend(rel, seq![s as nat], x as nat, s as nat, s as nat);
                                    assert(reaches(rel, x as nat, s as nat));
                                }
                            }
                            assert forall|k: int| 0 <= k < queue@.len() implies #[trigger] queue@[k] < n
                                && obsolete@[queue@[k] as int] by {
                                if k < queue_before.len() {
                                    assert(queue@.subrange(0, queue_before.len() as int)[k] == queue@[k]);
                                    assert(queue@[k] == queue_before[k]);
                                }
                            }
                            assert forall|x: int| 0 <= x < n && #[trigger] obsolete@[x] implies queue@.contains(
                                x as usize,
                            ) by {
                                if before[x] {
                                    let k = choose|k: int| 0 <= k < queue_before.len() && queue_before[k] == x as usize;
                                    assert(queue@.subrange(0, queue_before.len() as int)[k] == queue@[k]);
                                    assert(queue@[k] == queue_before[k]);
                                }
                            }
                        }
                    },
                }
            }
            s += 1;
        }

        // walk back from the marked nodes to what needs them
        while queue.len() > 0
            invariant
                g == self@,
                g.wf(),
                rel == g.needs(),
                seeds == obsolete_leaf_nodes@,
                n == g.nodes.len(),
                seeds.len() == n,
                obsolete@.len() == n,
                marked == num_true(obsolete@),
                forall|k: int| 0 <= k < queue@.len() ==> #[trigger] queue@[k] < n && obsolete@[queue@[k] as int],
                forall|x: int| 0 <= x < n && #[trigger] obsolete@[x] ==> is_obsolete(g, seeds, x as nat),
                seeds_marked(g, seeds, obsolete@, n as int),
                forall|x: nat, y: nat|
                    #[trigger] g.edges.contains((x, y)) && obsolete@[y as int] && !queue@.contains(y as usize)
                        ==> obsolete@[x as int],
            decreases (n - num_true(obsolete@)) + queue@.len(),
        {
            proof {
                lemma_num_true_le(obsolete@);
            }
            let ghost old_queue = queue@;
            if let Some(v) = queue.pop_front() {
                let ghost before = obsolete@;
                let ghost queue_before = queue@;
                assert(v < n && obsolete@[v as int]);
                self.mark_dependants(v, &mut obsolete, &mut queue, &mut marked);
                proof {
                    lemma_num_true_le(obsolete@);
                    assert(is_obsolete(g, seeds, v as nat));
                    let sv = choose|sv: nat| sv < seeds.len() && seeds[sv as int] && #[trigger] reaches(rel, v as nat, sv);
                    assert forall|x: int| 0 <= x < n && #[trigger] obsolete@[x] implies is_obsolete(
                        g,
                        seeds,
                        x as nat,
                    ) by {
                        if !before[x] {
                            assert(g.edges.contains((x as nat, v as nat)));
                            let p = choose|p: Seq<nat>| walk(rel, p, v as nat, sv);
                            lemma_walk_prepend(rel, p, x as nat, v as nat, sv);
                            assert(reaches(rel, x as nat, sv));
                        }
                    }
                    assert forall|k: int| 0 <= k < queue@.len() implies #[trigger] queue@[k] < n
                        && obsolete@[queue@[k] as int] by {
                        if k < queue_before.len() {
                            assert(queue@.subrange(0, queue_before.len() as int)[k] == queue@[k]);
                            assert(queue@[k] == old_queue[k + 1]);
                        }
                    }
                    assert forall|x: nat, y: nat|
                        #[trigger] g.edges.contains((x, y)) && obsolete@[y as int] && !queue@.contains(
                            y as usize,
                        ) implies obsolete@[x as int] by {
                        assert(x < n && y < n);
                        if y != v as nat {
                            if before[y as int] {
                                assert(!old_queue.contains(y as usize)) by {
                                    if old_queue.contains(y as usize) {
                                        let k = choose|k: int| 0 <= k < old_queue.len() && old_queue[k] == y as usize;
                                        assert(k > 0);
                                        assert(queue_before[k - 1] == y as usize);
                                        assert(queue@.subrange(0, queue_before.len() as int)[k - 1] == queue@[k - 1]);
                                    }
                                }
                                assert(before[x as int]);
                            }
                        }
                    }
                }
            }
        }
        proof {
            assert(closed_upward(g, obsolete@)) by {
                assert forall|x: nat, y: nat| #[trigger] g.edges.contains((x, y)) && obsolete@[y as int] implies obsolete@[x as int] by {
                    assert(!queue@.contains(y as usize));
                }
            }
            assert forall|v: int| 0 <= v < n implies obsolete@[v] == obsolete_targets(g, seeds)[v] by {
                if is_obsolete(g, seeds, v as nat) {
                    lemma_obsolete_marked(g, seeds, obsolete@, v as nat);
                }
            }
            assert(obsolete@ =~= obsolete_targets(g, seeds));
        }
        obsolete
    }

    /// The number of nodes: the targets and the plain files.
    pub fn node_count(&self) -> (n: usize)
        ensures
            n == self@.nodes.len(),
    {
        self.nodes.len()
    }

    /// The index of the node named `identifier`, if there is one.
    pub fn index_of(&self, identifier: &String) -> (r: Option<usize>)
        ensures
            match r {
                Some(k) => k < self@.nodes.len() && self@.nodes[k as int].id() == identifier@,
                None => forall|k: int| 0 <= k < self@.nodes.len() ==> self@.nodes[k].id() != identifier@,
            },
    {
        let r = find_node(&self.nodes, identifier);
        proof {
            match r {
                Some(k) => assert(self@.nodes[k as int] == self.nodes@[k as int]@),
                None => assert forall|k: int| 0 <= k < self@.nodes.len() implies self@.nodes[k].id() != identifier@ by {
                    assert(self@.nodes[k] == self.nodes@[k]@);
                },
            }
        }
        r
    }

    /// The nodes that need nothing and have changed: each plain file that
    /// has been modified, and each target without dependencies, which may
    /// depend on what the graph cannot see.
    pub fn find_obsolete_leaf_nodes(&self) -> (r: Result<Vec<bool>, Error>)
        ensures
            r matches Ok(marks) && marks@ == sink_marks(self@),
    {
        proof {
            use_type_invariant(self);
        }
        let ghost g = self@;
        let n = self.nodes.len();
        let mut marks: Vec<bool> = Vec::new();
        let mut i: usize = 0;
        while i < n
            invariant
                i <= n,
                marks@.len() == i,
                forall|x: int| 0 <= x < i ==> !marks@[x],
            decreases n - i,
        {
            marks.push(false);
            i += 1;
        }
        let ends = sinks(&self.graph);
        let mut i: usize = 0;
        while i < ends.len()
            invariant
                g == self@,
                n == g.nodes.len(),
                dag_node_count(self.graph) == n,
                dag_edges(self.graph) == g.edges,
                marks@.len() == n,
                i <= ends@.len(),
                forall|j: usize| ends@.contains(j) <==> (dag_node_count(self.graph) > j && !has_out_edge(dag_edges(self.graph), j as nat)),
                forall|x: int| 0 <= x < n ==> (#[trigger] marks@[x] <==> ends@.take(i as int).contains(x as usize)),
            decreases ends@.len() - i,
        {
            let v = ends[i];
            assert(ends@.contains(v));
            let ghost before = marks@;
            let changed = match &self.nodes[v] {
                Node::Target(_) => true,
                Node::NoRule(identifier) => match has_file_been_modified(identifier, ()) {
                    Ok(changed) => changed,
                    Err(e) => {
                        return Err(e);
                    },
                },
            };
            if changed {
                marks.set(v, true);
            }
            proof {
                let t0 = ends@.take(i as int);
                let t1 = ends@.take(i + 1);
                assert forall|x: int| 0 <= x < n implies (#[trigger] marks@[x] <==> t1.contains(x as usize)) by {
                    let xs = x as usize;
                    if t0.contains(xs) {
                        let m = choose|m: int| 0 <= m < t0.len() && t0[m] == xs;
                        assert(t1[m] == xs);
                    }
                    if xs == v {
                        assert(t1[i as int] == v);
                    }
                    if t1.contains(xs) {
                        let m = choose|m: int| 0 <= m < t1.len() && t1[m] == xs;
                        if m < i {
                            assert(t0[m] == xs);
                        }
                    }
                    if x != v as int {
                        assert(marks@[x] == before[x]);
                    }
                }
            }
            i += 1;
        }
        proof {
            assert(ends@.take(ends@.len() as int) == ends@);
            assert forall|x: int| 0 <= x < n implies marks@[x] == sink_marks(g)[x] by {
                let xs = x as usize;
                assert(xs as nat == x as nat);
            }
            assert(marks@ =~= sink_marks(g));
        }
        Ok(marks)
    }

    /// The targets to rebuild, in order: the nodes marked in
    /// `obsolete_targets` that have a depth in `depth_map`, deepest first, so
    /// that each comes after everything it needs. Fails if one of them is not
    /// a target.
    pub fn sequence(&self, depth_map: &Vec<Option<usize>>, obsolete_targets: &Vec<bool>) -> (r: Result<Vec<Target>, Error>)
        requires
            depth_map@.len() == self@.nodes.len(),
            obsolete_targets@.len() == self@.nodes.len(),
        ensures
            match r {
                Ok(ts) => {
                    &&& forall|v: int| selected(depth_map@, obsolete_targets@, v) ==> self@.is_target(v as nat)
                    &&& exists|s: Seq<usize>| is_sequence(depth_map@, obsolete_targets@, s) && targets_at(self@, s, ts@)
                },
                Err(e) => {
                    &&& exists|v: int| selected(depth_map@, obsolete_targets@, v) && !self@.is_target(v as nat)
                    &&& e matches Error::Internal { .. }
                },
            },
    {
        let ghost g = self@;
        let ghost depth = depth_map@;
        let ghost obs = obsolete_targets@;
        let n = self.nodes.len();
        let mut order: Vec<usize> = Vec::new();
        let mut v: usize = 0;
        while v < n
            invariant
                n == g.nodes.len(),
                depth == depth_map@,
                obs == obsolete_targets@,
                depth.len() == n,
                obs.len() == n,
                v <= n,
                forall|x: usize| order@.contains(x) <==> (x < v && selected(depth, obs, x as int)),
                forall|i: int, j: int| 0 <= i < j < order@.len() ==> comes_before(depth, #[trigger] order@[i], #[trigger] order@[j]),
            decreases n - v,
        {
            if obsolete_targets[v] && depth_map[v].is_some() {
                proof {
                    assert forall|i: int| 0 <= i < order@.len() implies #[trigger] order@[i] < v && selected(depth, obs, order@[i] as int) by {
                        assert(order@.contains(order@[i]));
                    }
                }
                let mut pos: usize = 0;
                while pos < order.len() && runs_before(depth_map, order[pos], v)
                    invariant
                        n == g.nodes.len(),
                        depth == depth_map@,
                        depth.len() == n,
                        pos <= order@.len(),
                        v < n,
                        selected(depth, obs, v as int),
                        forall|x: usize| order@.contains(x) ==> x < v && selected(depth, obs, x as int),
                        forall|i: int| 0 <= i < order@.len() ==> #[trigger] order@[i] < v && selected(depth, obs, order@[i] as int),
                        forall|i: int| 0 <= i < pos ==> comes_before(depth, #[trigger] order@[i], v),
                    decreases order@.len() - pos,
                {
                    pos += 1;
                }
                let ghost before = order@;
                order.insert(pos, v);
                proof {
                    assert forall|x: usize| order@.contains(x) <==> (x < v + 1 && selected(depth, obs, x as int)) by {
                        if before.contains(x) {
                            let k = choose|k: int| 0 <= k < before.len() && before[k] == x;
                            if k < pos {
                                assert(order@[k] == x);
                            } else {
                                assert(order@[k + 1] == x);
                            }
                        }
                        if x == v {
                            assert(order@[pos as int] == v);
                        }
                        if order@.contains(x) {
                            let k = choose|k: int| 0 <= k < order@.len() && order@[k] == x;
                            if k < pos {
                                assert(before[k] == x);
                            } else if k > pos {
                                assert(before[k - 1] == x);
                            }
                        }
                    }
                    if pos < before.len() {
                        assert(before.contains(before[pos as int]));
                        assert(comes_before(depth, v, before[pos as int]));
                    }
                    assert forall|i: int, j: int| 0 <= i < j < order@.len() implies comes_before(
                        depth,
                        #[trigger] order@[i],
                        #[trigger] order@[j],
                    ) by {
                        if j < pos {
                            assert(order@[i] == before[i] && order@[j] == before[j]);
                        } else if j == pos {
                            assert(order@[i] == before[i]);
                        } else if i == pos {
                            assert(order@[j] == before[j - 1]);
                            if j - 1 > pos {
                                assert(comes_before(depth, before[pos as int], before[j - 1]));
                            }
                        } else if i < pos {
                            assert(order@[i] == before[i] && order@[j] == before[j - 1]);
                        } else {
                            assert(order@[i] == before[i - 1] && order@[j] == before[j - 1]);
                        }
                    }
                }
            }
            v += 1;
        }
        let mut ts: Vec<Target> = Vec::new();
        let mut i: usize = 0;
        while i < order.len()
            invariant
                g == self@,
                n == g.nodes.len(),
                depth == depth_map@,
                obs == obsolete_targets@,
                forall|x: usize| order@.contains(x) ==> x < n,
                is_sequence(depth, obs, order@),
                i <= order@.len(),
                targets_at(g, order@.take(i as int), ts@),
            decreases order@.len() - i,
        {
            let w = order[i];
            assert(order@.contains(w));
            assert(self.nodes@[w as int]@ == g.nodes[w as int]);
            match &self.nodes[w] {
                Node::Target(t) => {
                    let c = t.clone();
                    let ghost before = ts@;
                    ts.push(c);
                    proof {
                        let t1 = order@.take(i + 1);
                        assert forall|k: int| 0 <= k < t1.len() implies g.nodes[#[trigger] t1[k] as int] == NodeView::Target(ts@[k]@) by {
                            if k < i {
                                assert(t1[k] == order@.take(i as int)[k]);
                            }
                        }
                    }
                },
                Node::NoRule(_) => {
                    proof {
                        assert(selected(depth, obs, w as int));
                        assert(!g.is_target(w as nat));
                    }
                    return Err(Error::internal("a plain file among the targets to rebuild"));
                },
            }
            i += 1;
        }
        proof {
            assert(order@.take(order@.len() as int) == order@);
            assert forall|v: int| selected(depth, obs, v) implies g.is_target(v as nat) by {
                assert(order@.contains(v as usize));
                let k = choose|k: int| 0 <= k < order@.len() && order@[k] == v as usize;
                assert(g.nodes[order@[k] as int] == NodeView::Target(ts@[k]@));
            }
            assert(is_sequence(depth, obs, order@) && targets_at(g, order@, ts@));
        }
        Ok(ts)
    }

    /// The targets to rebuild for the target named `target_id`, in the order
    /// in which their tasks must run. Fails with `NoSuchTarget` when no node
    /// has that name.
    pub fn get_target_sequence(&self, target_id: String) -> (r: Result<Vec<Target>, Error>)
        ensures
            match r {
                Ok(ts) => exists|root: nat|
                    #![trigger self@.nodes[root as int]]
                    root < self@.nodes.len() && self@.nodes[root as int].id() == target_id@
                        && requested_sequence(self@, root, ts@),
                Err(e) => {
                    &&& forall|k: int| 0 <= k < self@.nodes.len() ==> self@.nodes[k].id() != target_id@
                    &&& e matches Error::UserError(UserError::NoSuchTarget(id)) && id@ == target_id@
                },
            },
    {
        proof {
            use_type_invariant(self);
        }
        let ghost g = self@;
        let root = match self.index_of(&target_id) {
            Some(k) => k,
            None => {
                return Err(Error::UserError(UserError::NoSuchTarget(target_id)));
            },
        };
        let depth_map = self.generate_depth_map(root);
        let obsolete_leaf_nodes = match self.find_obsolete_leaf_nodes() {
            Ok(marks) => marks,
            Err(e) => {
                return Err(e);
            },
        };
        let obsolete = self.find_obsolete_targets(&obsolete_leaf_nodes);
        let r = self.sequence(&depth_map, &obsolete);
        proof {
            match &r {
                Ok(ts) => {
                    let s = choose|s: Seq<usize>|
                        is_sequence(depth_map@, obsolete@, s) && targets_at(g, s, ts@);
                    assert(is_sequence(depth_map@, obsolete_targets(g, sink_marks(g)), s));
                    assert(is_depth_map(g, root as nat, depth_map@));
                    assert(requested_sequence(g, root as nat, ts@));
                    assert(g.nodes[root as int].id() == target_id@);
                },
                Err(_) => {
                    let v = choose|v: int|
                        selected(depth_map@, obsolete@, v) && !g.is_target(v as nat);
                    assert(obsolete@[v]);
                    assert(is_obsolete(g, obsolete_leaf_nodes@, v as nat));
                },
            }
        }
        r
    }
}

} // verus!
