//! Properties that relate the results of the graph's operations.
use vstd::prelude::*;

use crate::deps::{
    comes_before, is_depth_map, is_obsolete, is_sequence, obsolete_targets, requested_sequence,
    selected, sink_marks, targets_at, GraphView, NodeView,
};
use crate::target::Target;
use crate::paths::{
    lemma_reaches_in_push, lemma_walk_concat, lemma_walk_single, reaches, reaches_in, walk,
};

verus! {

/// The requested target lies at depth zero, and below it depth grows along
/// every edge: a node lies deeper than each node that needs it.
pub proof fn lemma_depth_grows_along_edges(g: GraphView, root: nat, depth: Seq<Option<usize>>)
    requires
        g.wf(),
        root < g.nodes.len(),
        is_depth_map(g, root, depth),
    ensures
        depth[root as int] == Some(0usize),
        forall|a: nat, b: nat|
            #[trigger] g.edges.contains((a, b)) && depth[a as int] is Some ==> depth[b as int] is Some
                && depth[b as int]->0 > depth[a as int]->0,
{
    let rel = g.needs();
    lemma_walk_single(rel, root);
    assert(depth[root as int] is Some);
    let d = depth[root as int]->0;
    if d > 0 {
        let p = choose|p: Seq<nat>| walk(rel, p, root, root) && p.len() == d + 1;
        assert(crate::paths::is_path(rel, p) && p.len() > 1);
    }
    assert forall|a: nat, b: nat|
        #[trigger] g.edges.contains((a, b)) && depth[a as int] is Some implies depth[b as int] is Some
            && depth[b as int]->0 > depth[a as int]->0 by {
        assert(a < g.nodes.len() && b < g.nodes.len());
        let da = depth[a as int]->0;
        lemma_reaches_in_push(rel, root, a, b, da as nat);
        let p = choose|p: Seq<nat>| walk(rel, p, root, b) && p.len() == da + 2;
        assert(reaches(rel, root, b));
    }
}

/// Marking one more node as changed never makes an obsolete target up to
/// date again.
pub proof fn lemma_propagation_monotonic(g: GraphView, seeds: Seq<bool>, x: nat)
    requires
        x < seeds.len(),
    ensures
        forall|v: int|
            0 <= v < g.nodes.len() && #[trigger] obsolete_targets(g, seeds)[v] ==> obsolete_targets(
                g,
                seeds.update(x as int, true),
            )[v],
{
    let more = seeds.update(x as int, true);
    assert forall|v: int| 0 <= v < g.nodes.len() && #[trigger] obsolete_targets(g, seeds)[v] implies obsolete_targets(
        g,
        more,
    )[v] by {
        assert(is_obsolete(g, seeds, v as nat));
        let s = choose|s: nat| s < seeds.len() && seeds[s as int] && #[trigger] reaches(g.needs(), v as nat, s);
        assert(more[s as int]);
        assert(is_obsolete(g, more, v as nat));
    }
}

/// In an order built from a depth map of the graph, no target comes before
/// a node that it needs, directly or through others.
pub proof fn lemma_sequence_respects_needs(
    g: GraphView,
    root: nat,
    depth: Seq<Option<usize>>,
    obsolete: Seq<bool>,
    s: Seq<usize>,
)
    requires
        g.wf(),
        root < g.nodes.len(),
        is_depth_map(g, root, depth),
        is_sequence(depth, obsolete, s),
    ensures
        forall|i: int, j: int|
            0 <= i < j < s.len() ==> !reaches(g.needs(), #[trigger] s[i] as nat, #[trigger] s[j] as nat),
{
    let rel = g.needs();
    assert forall|i: int, j: int| 0 <= i < j < s.len() implies !reaches(
        rel,
        #[trigger] s[i] as nat,
        #[trigger] s[j] as nat,
    ) by {
        let (a, b) = (s[i], s[j]);
        assert(comes_before(depth, a, b));
        assert(s.contains(a) && s.contains(b));
        assert(selected(depth, obsolete, a as int) && selected(depth, obsolete, b as int));
        let (an, bn) = (a as nat, b as nat);
        if reaches(rel, an, bn) {
            let da = depth[a as int]->0;
            let db = depth[b as int]->0;
            let p = choose|p: Seq<nat>| walk(rel, p, an, bn);
            let q = choose|q: Seq<nat>| walk(rel, q, root, an) && q.len() == da + 1;
            lemma_walk_concat(rel, q, p, root, an, bn);
            let m = (p.len() - 1) as nat;
            assert(m > 0) by {
                if m == 0 {
                    assert(p[0] == p.last());
                }
            }
            let r = q + p.drop_first();
            assert(walk(rel, r, root, bn) && r.len() == (da + m) + 1);
            assert(reaches_in(rel, root, bn, (da + m) as nat));
        }
    }
}

/// In what a request rebuilds, no target comes before a node that it needs,
/// directly or through others.
pub proof fn lemma_requested_sequence_respects_needs(g: GraphView, root: nat, ts: Seq<Target>)
    requires
        g.wf(),
        root < g.nodes.len(),
        requested_sequence(g, root, ts),
    ensures
        forall|i: int, j: int, x: nat, y: nat|
            #![trigger reaches(g.needs(), x, y), ts[i], ts[j]]
            0 <= i < j < ts.len() && x < g.nodes.len() && y < g.nodes.len() && g.nodes[x as int]
                == NodeView::Target(ts[i]@) && g.nodes[y as int] == NodeView::Target(ts[j]@) ==> !reaches(
                g.needs(),
                x,
                y,
            ),
{
    let obsolete = obsolete_targets(g, sink_marks(g));
    let depth = choose|depth: Seq<Option<usize>>|
        #[trigger] is_depth_map(g, root, depth) && exists|s: Seq<usize>|
            #[trigger] is_sequence(depth, obsolete, s) && targets_at(g, s, ts);
    let s = choose|s: Seq<usize>| #[trigger] is_sequence(depth, obsolete, s) && targets_at(g, s, ts);
    lemma_sequence_respects_needs(g, root, depth, obsolete, s);
    assert forall|i: int, j: int, x: nat, y: nat|
        #![trigger reaches(g.needs(), x, y), ts[i], ts[j]]
        0 <= i < j < ts.len() && x < g.nodes.len() && y < g.nodes.len() && g.nodes[x as int]
            == NodeView::Target(ts[i]@) && g.nodes[y as int] == NodeView::Target(ts[j]@) implies !reaches(
            g.needs(),
            x,
            y,
        ) by {
        assert(s.contains(s[i]) && s.contains(s[j]));
        assert(g.nodes[s[i] as int] == NodeView::Target(ts[i]@));
        assert(g.nodes[s[j] as int] == NodeView::Target(ts[j]@));
        if x != s[i] as nat {
            if x < s[i] {
                assert(g.nodes[x as int].id() != g.nodes[s[i] as int].id());
            } else {
                assert(g.nodes[s[i] as int].id() != g.nodes[x as int].id());
            }
        }
        if y != s[j] as nat {
            if y < s[j] {
                assert(g.nodes[y as int].id() != g.nodes[s[j] as int].id());
            } else {
                assert(g.nodes[s[j] as int].id() != g.nodes[y as int].id());
            }
        }
    }
}

} // verus!
