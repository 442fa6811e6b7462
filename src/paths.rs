//! Paths in a directed graph given by an edge relation, and the facts about
//! them that the graph algorithms rely on.
use vstd::prelude::*;

verus! {

/// Consecutive elements `i` and `i + 1` of `p` are joined by an edge.
pub open spec fn path_step<A>(rel: spec_fn(A, A) -> bool, p: Seq<A>, i: int) -> bool {
    rel(p[i], p[i + 1])
}

/// `p` is a non-empty sequence of nodes, each joined to the next by an edge.
pub open spec fn is_path<A>(rel: spec_fn(A, A) -> bool, p: Seq<A>) -> bool {
    &&& p.len() > 0
    &&& forall|i: int| 0 <= i < p.len() - 1 ==> #[trigger] path_step(rel, p, i)
}

/// `p` is a path from `x` to `y`.
pub open spec fn walk<A>(rel: spec_fn(A, A) -> bool, p: Seq<A>, x: A, y: A) -> bool {
    &&& is_path(rel, p)
    &&& p[0] == x
    &&& p.last() == y
}

/// `y` can be reached from `x` by following zero or more edges.
pub open spec fn reaches<A>(rel: spec_fn(A, A) -> bool, x: A, y: A) -> bool {
    exists|p: Seq<A>| #[trigger] walk(rel, p, x, y)
}

/// `y` can be reached from `x` by following exactly `k` edges.
pub open spec fn reaches_in<A>(rel: spec_fn(A, A) -> bool, x: A, y: A, k: nat) -> bool {
    exists|p: Seq<A>| #[trigger] walk(rel, p, x, y) && p.len() == k + 1
}

/// No path of one edge or more returns to where it started.
pub open spec fn acyclic<A>(rel: spec_fn(A, A) -> bool) -> bool {
    forall|p: Seq<A>| #[trigger] is_path(rel, p) && p.len() > 1 ==> p[0] != p.last()
}

/// The relation "there is an edge from `a` to `b`" of a list of edges.
pub open spec fn edge_rel(edges: Seq<(nat, nat)>) -> spec_fn(nat, nat) -> bool {
    |a: nat, b: nat| edges.contains((a, b))
}

/// Every edge of the list joins two of the nodes `0 .. n`.
pub open spec fn edges_within(edges: Seq<(nat, nat)>, n: nat) -> bool {
    forall|e: (nat, nat)| #[trigger] edges.contains(e) ==> e.0 < n && e.1 < n
}

/// A graph without edges is acyclic.
pub proof fn lemma_no_edges_acyclic()
    ensures
        acyclic(edge_rel(Seq::<(nat, nat)>::empty())),
{
    let r = edge_rel(Seq::<(nat, nat)>::empty());
    assert forall|p: Seq<nat>| #[trigger] is_path(r, p) && p.len() > 1 implies p[0] != p.last() by {
        assert(path_step(r, p, 0));
    }
}

/// A path of a single node.
pub proof fn lemma_walk_single<A>(rel: spec_fn(A, A) -> bool, x: A)
    ensures
        walk(rel, seq![x], x, x),
        reaches(rel, x, x),
        reaches_in(rel, x, x, 0),
{
    assert(walk(rel, seq![x], x, x));
}

/// A path followed by one more edge.
pub proof fn lemma_walk_push<A>(rel: spec_fn(A, A) -> bool, p: Seq<A>, x: A, y: A, z: A)
    requires
        walk(rel, p, x, y),
        rel(y, z),
    ensures
        walk(rel, p.push(z), x, z),
{
    let q = p.push(z);
    assert forall|i: int| 0 <= i < q.len() - 1 implies #[trigger] path_step(rel, q, i) by {
        if i < p.len() - 1 {
            assert(path_step(rel, p, i));
        }
    }
}

/// An edge followed by a path.
pub proof fn lemma_walk_prepend<A>(rel: spec_fn(A, A) -> bool, p: Seq<A>, x: A, y: A, z: A)
    requires
        walk(rel, p, y, z),
        rel(x, y),
    ensures
        walk(rel, seq![x] + p, x, z),
{
    let q = seq![x] + p;
    assert forall|i: int| 0 <= i < q.len() - 1 implies #[trigger] path_step(rel, q, i) by {
        if i > 0 {
            assert(path_step(rel, p, i - 1));
        }
    }
}

/// A path of `k + 1` edges is a path of `k` edges followed by one more edge.
pub proof fn lemma_walk_split_last<A>(rel: spec_fn(A, A) -> bool, p: Seq<A>, x: A, z: A)
    requires
        walk(rel, p, x, z),
        p.len() > 1,
    ensures
        walk(rel, p.drop_last(), x, p[p.len() - 2]),
        rel(p[p.len() - 2], z),
{
    let q = p.drop_last();
    assert(path_step(rel, p, p.len() - 2));
    assert forall|i: int| 0 <= i < q.len() - 1 implies #[trigger] path_step(rel, q, i) by {
        assert(path_step(rel, p, i));
    }
}

/// The part of a path between two of its positions is a path.
pub proof fn lemma_subpath<A>(rel: spec_fn(A, A) -> bool, p: Seq<A>, i: int, j: int)
    requires
        is_path(rel, p),
        0 <= i <= j < p.len(),
    ensures
        walk(rel, p.subrange(i, j + 1), p[i], p[j]),
{
    let q = p.subrange(i, j + 1);
    assert forall|k: int| 0 <= k < q.len() - 1 implies #[trigger] path_step(rel, q, k) by {
        assert(path_step(rel, p, i + k));
    }
}

/// Two paths joined where the first ends and the second starts.
pub proof fn lemma_walk_concat<A>(
    rel: spec_fn(A, A) -> bool,
    p: Seq<A>,
    q: Seq<A>,
    x: A,
    y: A,
    z: A,
)
    requires
        walk(rel, p, x, y),
        walk(rel, q, y, z),
    ensures
        walk(rel, p + q.drop_first(), x, z),
        (p + q.drop_first()).len() == p.len() + q.len() - 1,
{
    let r = p + q.drop_first();
    assert forall|k: int| 0 <= k < r.len() - 1 implies #[trigger] path_step(rel, r, k) by {
        if k < p.len() - 1 {
            assert(path_step(rel, p, k));
        } else {
            assert(path_step(rel, q, k - p.len() + 1));
        }
    }
}

/// Reachability is transitive.
pub proof fn lemma_reaches_trans<A>(rel: spec_fn(A, A) -> bool, x: A, y: A, z: A)
    requires
        reaches(rel, x, y),
        reaches(rel, y, z),
    ensures
        reaches(rel, x, z),
{
    let p = choose|p: Seq<A>| walk(rel, p, x, y);
    let q = choose|q: Seq<A>| walk(rel, q, y, z);
    lemma_walk_concat(rel, p, q, x, y, z);
}

/// A path along the edges of one relation is a path of any relation that
/// holds wherever the first does.
pub proof fn lemma_walk_mono<A>(
    r1: spec_fn(A, A) -> bool,
    r2: spec_fn(A, A) -> bool,
    p: Seq<A>,
    x: A,
    y: A,
)
    requires
        walk(r1, p, x, y),
        forall|a: A, b: A| #[trigger] r1(a, b) ==> r2(a, b),
    ensures
        walk(r2, p, x, y),
{
    assert forall|i: int| 0 <= i < p.len() - 1 implies #[trigger] path_step(r2, p, i) by {
        assert(path_step(r1, p, i));
    }
}

/// Mapping the nodes of a path by a function that carries edges to edges
/// gives a path.
pub proof fn lemma_walk_map<A, B>(
    r1: spec_fn(A, A) -> bool,
    r2: spec_fn(B, B) -> bool,
    f: spec_fn(A) -> B,
    p: Seq<A>,
    x: A,
    y: A,
)
    requires
        walk(r1, p, x, y),
        forall|a: A, b: A| #[trigger] r1(a, b) ==> r2(f(a), f(b)),
    ensures
        walk(r2, p.map_values(f), f(x), f(y)),
{
    let q = p.map_values(f);
    assert forall|i: int| 0 <= i < q.len() - 1 implies #[trigger] path_step(r2, q, i) by {
        assert(path_step(r1, p, i));
    }
}

/// The set of naturals below `n` is finite, with `n` elements.
proof fn lemma_nat_range(n: nat)
    ensures
        Set::new(|i: nat| i < n).finite(),
        Set::new(|i: nat| i < n).len() == n,
    decreases n,
{
    if n == 0 {
        assert(Set::new(|i: nat| i < n) =~= Set::<nat>::empty());
    } else {
        lemma_nat_range((n - 1) as nat);
        assert(Set::new(|i: nat| i < (n - 1) as nat).insert((n - 1) as nat) =~= Set::new(
            |i: nat| i < n,
        ));
    }
}

/// In an acyclic graph on the nodes `0 .. n` every path visits at most `n`
/// nodes.
pub proof fn lemma_acyclic_path_len(edges: Seq<(nat, nat)>, n: nat, p: Seq<nat>)
    requires
        acyclic(edge_rel(edges)),
        edges_within(edges, n),
        is_path(edge_rel(edges), p),
        p[0] < n,
    ensures
        p.len() <= n,
{
    let rel = edge_rel(edges);
    assert forall|i: int, j: int| 0 <= i < j < p.len() implies p[i] != p[j] by {
        lemma_subpath(rel, p, i, j);
        assert(is_path(rel, p.subrange(i, j + 1)));
    }
    assert forall|x: nat| p.to_set().contains(x) implies x < n by {
        let i = choose|i: int| 0 <= i < p.len() && p[i] == x;
        if i > 0 {
            assert(path_step(rel, p, i - 1));
            assert(edges.contains((p[i - 1], p[i])));
        }
    }
    p.unique_seq_to_set();
    lemma_nat_range(n);
    vstd::set_lib::lemma_len_subset(p.to_set(), Set::new(|i: nat| i < n));
}

/// After adding the edge `a -> b`, whatever is reached was reached before, or
/// is reached from `b` by a node that reached `a`.
proof fn lemma_reach_after_push(
    edges: Seq<(nat, nat)>,
    a: nat,
    b: nat,
    p: Seq<nat>,
    u: nat,
    v: nat,
)
    requires
        walk(edge_rel(edges.push((a, b))), p, u, v),
    ensures
        reaches(edge_rel(edges), u, v) || (reaches(edge_rel(edges), u, a) && reaches(
            edge_rel(edges),
            b,
            v,
        )),
    decreases p.len(),
{
    let r = edge_rel(edges);
    let r2 = edge_rel(edges.push((a, b)));
    if p.len() == 1 {
        lemma_walk_single(r, u);
    } else {
        lemma_walk_split_last(r2, p, u, v);
        let w = p[p.len() - 2];
        lemma_reach_after_push(edges, a, b, p.drop_last(), u, w);
        assert(edges.push((a, b)).contains((w, v)));
        let k = choose|k: int| 0 <= k < edges.len() + 1 && edges.push((a, b))[k] == (w, v);
        if k < edges.len() {
            assert(edges[k] == (w, v));
            assert(r(w, v));
            lemma_walk_single(r, w);
            lemma_walk_push(r, seq![w], w, w, v);
            if reaches(r, u, w) {
                lemma_reaches_trans(r, u, w, v);
            } else {
                lemma_reaches_trans(r, b, w, v);
            }
        } else {
            lemma_walk_single(r, b);
        }
    }
}

/// Adding the edge `a -> b` keeps a graph acyclic when `a` cannot be reached
/// from `b`.
pub proof fn lemma_push_edge_acyclic(edges: Seq<(nat, nat)>, a: nat, b: nat)
    requires
        acyclic(edge_rel(edges)),
        !reaches(edge_rel(edges), b, a),
    ensures
        acyclic(edge_rel(edges.push((a, b)))),
{
    let r = edge_rel(edges);
    let r2 = edge_rel(edges.push((a, b)));
    assert forall|p: Seq<nat>| #[trigger] is_path(r2, p) && p.len() > 1 implies p[0] != p.last() by {
        if p[0] == p.last() {
            let x = p[0];
            let y = p[1];
            assert(path_step(r2, p, 0));
            lemma_subpath(r2, p, 1, p.len() - 1);
            lemma_reach_after_push(edges, a, b, p.subrange(1, p.len() as int), y, x);
            assert(edges.push((a, b)).contains((x, y)));
            let k = choose|k: int| 0 <= k < edges.len() + 1 && edges.push((a, b))[k] == (x, y);
            if k < edges.len() {
                assert(edges[k] == (x, y));
                if reaches(r, y, x) {
                    let q = choose|q: Seq<nat>| walk(r, q, y, x);
                    lemma_walk_prepend(r, q, x, y, x);
                    assert(is_path(r, seq![x] + q));
                } else {
                    lemma_walk_single(r, x);
                    let q = choose|q: Seq<nat>| walk(r, q, b, x);
                    lemma_walk_push(r, q, b, x, y);
                    lemma_reaches_trans(r, b, y, a);
                }
            }
        }
    }
}

/// A path of `k + 1` edges ends with an edge from a node reached in `k`.
pub proof fn lemma_reaches_in_last<A>(rel: spec_fn(A, A) -> bool, x: A, z: A, k: nat) -> (w: A)
    requires
        reaches_in(rel, x, z, k + 1),
    ensures
        reaches_in(rel, x, w, k),
        rel(w, z),
{
    let p = choose|p: Seq<A>| walk(rel, p, x, z) && p.len() == k + 2;
    lemma_walk_split_last(rel, p, x, z);
    let w = p[p.len() - 2];
    assert(walk(rel, p.drop_last(), x, w) && p.drop_last().len() == k + 1);
    w
}

/// A node reached in `k` edges, followed by one more edge.
pub proof fn lemma_reaches_in_push<A>(rel: spec_fn(A, A) -> bool, x: A, w: A, z: A, k: nat)
    requires
        reaches_in(rel, x, w, k),
        rel(w, z),
    ensures
        reaches_in(rel, x, z, k + 1),
{
    let p = choose|p: Seq<A>| walk(rel, p, x, w) && p.len() == k + 1;
    lemma_walk_push(rel, p, x, w, z);
    assert(walk(rel, p.push(z), x, z) && p.push(z).len() == k + 2);
}

/// A node reached in `m` edges passes, after `k <= m` edges, through a node
/// of the graph.
pub proof fn lemma_reaches_in_prefix(
    edges: Seq<(nat, nat)>,
    n: nat,
    x: nat,
    v: nat,
    m: nat,
    k: nat,
) -> (w: nat)
    requires
        edges_within(edges, n),
        x < n,
        reaches_in(edge_rel(edges), x, v, m),
        k <= m,
    ensures
        w < n,
        reaches_in(edge_rel(edges), x, w, k),
{
    let rel = edge_rel(edges);
    let p = choose|p: Seq<nat>| walk(rel, p, x, v) && p.len() == m + 1;
    lemma_subpath(rel, p, 0, k as int);
    let w = p[k as int];
    assert(walk(rel, p.subrange(0, k + 1 as int), x, w) && p.subrange(0, k + 1 as int).len() == k + 1);
    if k > 0 {
        assert(path_step(rel, p, k - 1));
        assert(edges.contains((p[k - 1], p[k as int])));
    }
    w
}

/// In an acyclic graph on the nodes `0 .. n`, no node is reached in `n`
/// edges or more.
pub proof fn lemma_reaches_in_bound(edges: Seq<(nat, nat)>, n: nat, x: nat, v: nat, k: nat)
    requires
        acyclic(edge_rel(edges)),
        edges_within(edges, n),
        x < n,
        reaches_in(edge_rel(edges), x, v, k),
    ensures
        k < n,
{
    let p = choose|p: Seq<nat>| walk(edge_rel(edges), p, x, v) && p.len() == k + 1;
    lemma_acyclic_path_len(edges, n, p);
}

} // verus!
