//! Dungeon generation: rooms, tunnels and what populates them.
pub mod rect_room;
pub mod tunnel_iter;
pub mod chances;
pub mod populate;

use vstd::prelude::*;

use rand::rngs::ThreadRng;

use self::chances::{is_spawnable, EntityChances};
use self::populate::{
    in_interior, place_entities, place_items, place_stairs, placed_within, room_inside, TagGrid,
};
use self::rect_room::{small, RectRoom};
use self::tunnel_iter::{between, l_cell, l_corner, l_fits, tunnel_run, TunnelIter};
use crate::components::StuffTag;
use crate::grid::Grid;
use crate::math::Vec2;
use crate::rng::{choose_one, gen_range, gen_ratio, thread_rng};

verus! {

broadcast use vstd::seq_lib::group_to_multiset_ensures;

/// A spanning tree over rooms: each room but one has a parent, and each tree edge is
/// `(parent, child)`.
pub struct Mst {
    pub edges: Vec<(u32, u32)>,
    pub parents: Vec<i32>,
}

/// Number of entries without a parent.
pub open spec fn count_roots(parents: Seq<i32>) -> int
    decreases parents.len(),
{
    if parents.len() == 0 {
        0
    } else {
        count_roots(parents.drop_last()) + if parents.last() == -1 {
            1int
        } else {
            0
        }
    }
}

proof fn lemma_count_roots_update(ps: Seq<i32>, i: int, v: i32)
    requires
        0 <= i < ps.len(),
    ensures
        count_roots(ps.update(i, v)) == count_roots(ps) - (if ps[i] == -1 {
            1int
        } else {
            0
        }) + (if v == -1 {
            1int
        } else {
            0
        }),
    decreases ps.len(),
{
    if i < ps.len() - 1 {
        assert(ps.update(i, v).drop_last() =~= ps.drop_last().update(i, v));
        lemma_count_roots_update(ps.drop_last(), i, v);
    } else {
        assert(ps.update(i, v).drop_last() =~= ps.drop_last());
    }
}

proof fn lemma_count_roots_all(ps: Seq<i32>)
    requires
        forall|i: int| 0 <= i < ps.len() ==> ps[i] == -1,
    ensures
        count_roots(ps) == ps.len(),
    decreases ps.len(),
{
    if ps.len() > 0 {
        lemma_count_roots_all(ps.drop_last());
    }
}

/// A root is counted.
proof fn lemma_count_roots_pos(ps: Seq<i32>, i: int)
    requires
        0 <= i < ps.len(),
        ps[i] == -1,
    ensures
        count_roots(ps) >= 1,
    decreases ps.len(),
{
    if i < ps.len() - 1 {
        lemma_count_roots_pos(ps.drop_last(), i);
    } else {
        lemma_count_roots_nonneg(ps.drop_last());
    }
}

proof fn lemma_count_roots_nonneg(ps: Seq<i32>)
    ensures
        count_roots(ps) >= 0,
    decreases ps.len(),
{
    if ps.len() > 0 {
        lemma_count_roots_nonneg(ps.drop_last());
    }
}

/// Two distinct roots are both counted.
proof fn lemma_count_roots_two(ps: Seq<i32>, i: int, j: int)
    requires
        0 <= i < j < ps.len(),
        ps[i] == -1,
        ps[j] == -1,
    ensures
        count_roots(ps) >= 2,
    decreases ps.len(),
{
    if j < ps.len() - 1 {
        lemma_count_roots_two(ps.drop_last(), i, j);
    } else {
        lemma_count_roots_pos(ps.drop_last(), i);
    }
}

/// Some edge joins `a` and `b`.
pub open spec fn pair_listed(edges: Seq<(i32, usize, usize)>, a: int, b: int) -> bool {
    exists|u: int| 0 <= u < edges.len() && (#[trigger] edges[u]).1 == a && edges[u].2 == b
}

/// `parents` is a forest: `root` gives each entry's root and `depth` its distance to it.
pub open spec fn forest(parents: Seq<i32>, root: Seq<int>, depth: Seq<int>) -> bool {
    let n = parents.len();
    &&& root.len() == n
    &&& depth.len() == n
    &&& forall|x: int|
        #![trigger parents[x]]
        #![trigger root[x]]
        #![trigger depth[x]]
        0 <= x < n ==> {
            &&& parents[x] == -1 || 0 <= parents[x] < n
            &&& 0 <= root[x] < n
            &&& parents[root[x]] == -1
            &&& depth[x] >= 0
            &&& parents[x] == -1 ==> root[x] == x && depth[x] == 0
            &&& parents[x] != -1 ==> root[x] == root[parents[x] as int] && depth[x] == depth[parents[x] as int] + 1
        }
}

/// Result of linking root `j` under `i`: the roots and depths of `j`'s tree move under `i`.
pub open spec fn linked_root(root: Seq<int>, i: int, j: int) -> Seq<int> {
    Seq::new(root.len(), |y: int| if root[y] == j { root[i] } else { root[y] })
}

pub open spec fn linked_depth(root: Seq<int>, depth: Seq<int>, i: int, j: int) -> Seq<int> {
    Seq::new(depth.len(), |y: int| if root[y] == j { depth[y] + depth[i] + 1 } else { depth[y] })
}

proof fn lemma_link(parents: Seq<i32>, root: Seq<int>, depth: Seq<int>, i: int, j: int)
    requires
        forest(parents, root, depth),
        0 <= i < parents.len(),
        0 <= j < parents.len(),
        parents.len() <= i32::MAX,
        parents[j] == -1,
        root[i] != j,
    ensures
        forest(
            parents.update(j, i as i32),
            linked_root(root, i, j),
            linked_depth(root, depth, i, j),
        ),
        linked_root(root, i, j)[i] == root[i],
        linked_root(root, i, j)[j] == root[i],
        forall|y: int|
            0 <= y < parents.len() && root[y] == root[i] ==> linked_root(root, i, j)[y] == root[i],
        forall|a: int, b: int|
            0 <= a < parents.len() && 0 <= b < parents.len() && root[a] == root[b] ==> linked_root(
                root,
                i,
                j,
            )[a] == linked_root(root, i, j)[b],
{
    let n = parents.len();
    let p2 = parents.update(j, i as i32);
    let r2 = linked_root(root, i, j);
    let d2 = linked_depth(root, depth, i, j);
    assert(root[j] == j);
    assert(root[root[i]] == root[i]) by {
        assert(parents[root[i]] == -1);
    }
    assert forall|x: int|
        #![trigger p2[x]]
        #![trigger r2[x]]
        #![trigger d2[x]]
        0 <= x < n implies {
        &&& p2[x] == -1 || 0 <= p2[x] < n
        &&& 0 <= r2[x] < n
        &&& p2[r2[x]] == -1
        &&& d2[x] >= 0
        &&& p2[x] == -1 ==> r2[x] == x && d2[x] == 0
        &&& p2[x] != -1 ==> r2[x] == r2[p2[x] as int] && d2[x] == d2[p2[x] as int] + 1
    } by {
        assert(parents[x] == -1 || 0 <= parents[x] < n);
        assert(parents[root[x]] == -1);
        if x == j {
        } else {
            if parents[x] != -1 {
                let p = parents[x] as int;
                assert(root[x] == root[p]);
            }
        }
    }
}

/// Some entry of `g` joins `a` and `b`, in either direction.
pub open spec fn has_link(g: Seq<(u32, u32)>, a: int, b: int) -> bool {
    exists|u: int|
        0 <= u < g.len() && ((#[trigger] g[u]).0 == a && g[u].1 == b || g[u].0 == b && g[u].1 == a)
}

/// `p` is a route of consecutive links of `g`.
pub open spec fn is_route(g: Seq<(u32, u32)>, p: Seq<int>) -> bool {
    &&& p.len() >= 1
    &&& forall|t: int| 0 <= t < p.len() - 1 ==> has_link(g, #[trigger] p[t], p[t + 1])
}

/// `a` and `b` are joined by a route of links of `g`.
pub open spec fn linked(g: Seq<(u32, u32)>, a: int, b: int) -> bool {
    exists|p: Seq<int>| #[trigger] is_route(g, p) && p[0] == a && p.last() == b
}

pub proof fn lemma_linked_refl(g: Seq<(u32, u32)>, a: int)
    ensures
        linked(g, a, a),
{
    let p = seq![a];
    assert(is_route(g, p));
}

pub proof fn lemma_linked_link(g: Seq<(u32, u32)>, a: int, b: int)
    requires
        has_link(g, a, b),
    ensures
        linked(g, a, b),
        linked(g, b, a),
{
    let p = seq![a, b];
    assert(is_route(g, p)) by {
        assert forall|t: int| 0 <= t < p.len() - 1 implies has_link(g, #[trigger] p[t], p[t + 1]) by {
            assert(t == 0);
        }
    }
    let q = seq![b, a];
    assert(has_link(g, b, a)) by {
        let u = choose|u: int|
            0 <= u < g.len() && ((#[trigger] g[u]).0 == a && g[u].1 == b || g[u].0 == b && g[u].1 == a);
        assert(g[u].0 == b && g[u].1 == a || g[u].0 == a && g[u].1 == b);
    }
    assert(is_route(g, q)) by {
        assert forall|t: int| 0 <= t < q.len() - 1 implies has_link(g, #[trigger] q[t], q[t + 1]) by {
            assert(t == 0);
        }
    }
}

pub proof fn lemma_linked_trans(g: Seq<(u32, u32)>, a: int, b: int, c: int)
    requires
        linked(g, a, b),
        linked(g, b, c),
    ensures
        linked(g, a, c),
{
    let p = choose|p: Seq<int>| #[trigger] is_route(g, p) && p[0] == a && p.last() == b;
    let q = choose|p: Seq<int>| #[trigger] is_route(g, p) && p[0] == b && p.last() == c;
    let r = p + q.drop_first();
    assert(is_route(g, r)) by {
        assert forall|t: int| 0 <= t < r.len() - 1 implies has_link(g, #[trigger] r[t], r[t + 1]) by {
            if t < p.len() - 1 {
                assert(r[t] == p[t] && r[t + 1] == p[t + 1]);
            } else {
                let s = t - (p.len() - 1);
                assert(r[t] == q[s]);
                assert(r[t + 1] == q[s + 1]);
            }
        }
    }
    if q.len() == 1 {
        assert(r.last() == p.last());
    } else {
        assert(r.last() == q.last());
    }
}

pub proof fn lemma_linked_sym(g: Seq<(u32, u32)>, a: int, b: int)
    requires
        linked(g, a, b),
    ensures
        linked(g, b, a),
{
    let r = choose|p: Seq<int>| #[trigger] is_route(g, p) && p[0] == a && p.last() == b;
    let rr = r.reverse();
    assert(is_route(g, rr)) by {
        assert forall|t: int| 0 <= t < rr.len() - 1 implies has_link(g, #[trigger] rr[t], rr[t + 1]) by {
            let s = r.len() - 2 - t;
            assert(rr[t] == r[s + 1] && rr[t + 1] == r[s]);
            assert(has_link(g, r[s], r[s + 1]));
            let u = choose|u: int|
                0 <= u < g.len() && ((#[trigger] g[u]).0 == r[s] && g[u].1 == r[s + 1] || g[u].0 == r[s + 1]
                    && g[u].1 == r[s]);
            assert(g[u].0 == rr[t] && g[u].1 == rr[t + 1] || g[u].0 == rr[t + 1] && g[u].1 == rr[t]);
        }
    }
    assert(rr[0] == b && rr.last() == a);
}

/// Every parent link of `parents` is an edge of `f`.
#[verifier::opaque]
pub open spec fn parent_links(parents: Seq<i32>, f: Seq<(u32, u32)>) -> bool {
    forall|y: int| 0 <= y < parents.len() && #[trigger] parents[y] != -1 ==> has_link(f, parents[y] as int, y)
}

/// Linking `b` under `a` and recording the edge keeps every parent link an edge.
proof fn lemma_parent_links_push(ps0: Seq<i32>, f0: Seq<(u32, u32)>, a: int, b: int)
    requires
        parent_links(ps0, f0),
        0 <= a <= u32::MAX,
        0 <= b < ps0.len(),
        ps0.len() <= 0x8000,
        0 <= a <= i32::MAX,
    ensures
        parent_links(ps0.update(b, a as i32), f0.push((a as u32, b as u32))),
{
    reveal(parent_links);
    let ps = ps0.update(b, a as i32);
    let f = f0.push((a as u32, b as u32));
    assert forall|y: int| 0 <= y < ps.len() && #[trigger] ps[y] != -1 implies has_link(f, ps[y] as int, y) by {
        if y == b {
            assert(f[f0.len() as int] == (a as u32, b as u32));
        } else {
            assert(ps0[y] == ps[y]);
            let u = choose|u: int|
                0 <= u < f0.len() && ((#[trigger] f0[u]).0 == ps[y] as int && f0[u].1 == y || f0[u].0 == y && f0[u].1
                    == ps[y] as int);
            assert(f[u] == f0[u]);
        }
    }
}

/// A forest with a single root whose parent links are edges of `f` joins entry 0 to every entry.
proof fn lemma_mst_linked(parents: Seq<i32>, root: Seq<int>, depth: Seq<int>, f: Seq<(u32, u32)>)
    requires
        forest(parents, root, depth),
        parent_links(parents, f),
        count_roots(parents) == 1,
        parents.len() >= 1,
    ensures
        forall|x: int| 0 <= x < parents.len() ==> #[trigger] linked(f, 0, x),
{
    reveal(parent_links);
    assert forall|x: int| 0 <= x < parents.len() implies #[trigger] linked(f, 0, x) by {
        lemma_tree_linked(parents, root, depth, f, x);
        lemma_tree_linked(parents, root, depth, f, 0);
        if root[x] != root[0] {
            assert(parents[root[x]] == -1 && parents[root[0]] == -1);
            if root[x] < root[0] {
                lemma_count_roots_two(parents, root[x], root[0]);
            } else {
                lemma_count_roots_two(parents, root[0], root[x]);
            }
        }
        lemma_linked_sym(f, root[0], 0);
        lemma_linked_trans(f, 0, root[0], x);
    }
}

/// In a forest whose every parent link is an edge, each entry is joined to its root.
proof fn lemma_tree_linked(parents: Seq<i32>, root: Seq<int>, depth: Seq<int>, f: Seq<(u32, u32)>, x: int)
    requires
        forest(parents, root, depth),
        forall|y: int| 0 <= y < parents.len() && #[trigger] parents[y] != -1 ==> has_link(f, parents[y] as int, y),
        0 <= x < parents.len(),
    ensures
        linked(f, root[x], x),
    decreases depth[x],
{
    if parents[x] == -1 {
        lemma_linked_refl(f, x);
    } else {
        let p = parents[x] as int;
        lemma_tree_linked(parents, root, depth, f, p);
        lemma_linked_link(f, p, x);
        lemma_linked_trans(f, root[x], p, x);
    }
}

/// A route of `g` carries over to `g2` when every link of `g` but the pair `i`-`j` is a link of
/// `g2` and `i` and `j` are joined in `g2`.
pub proof fn lemma_route_transfer(g: Seq<(u32, u32)>, g2: Seq<(u32, u32)>, p: Seq<int>, i: int, j: int)
    requires
        is_route(g, p),
        forall|a: int, b: int| has_link(g, a, b) && !(a == i && b == j || a == j && b == i) ==> has_link(g2, a, b),
        linked(g2, i, j),
    ensures
        linked(g2, p[0], p.last()),
    decreases p.len(),
{
    if p.len() == 1 {
        lemma_linked_refl(g2, p[0]);
    } else {
        let q = p.drop_last();
        assert(is_route(g, q)) by {
            assert forall|t: int| 0 <= t < q.len() - 1 implies has_link(g, #[trigger] q[t], q[t + 1]) by {
                assert(q[t] == p[t] && q[t + 1] == p[t + 1]);
            }
        }
        lemma_route_transfer(g, g2, q, i, j);
        let a = p[p.len() - 2];
        let b = p.last();
        assert(has_link(g, p[p.len() - 2], p[p.len() - 1]));
        if a == i && b == j {
        } else if a == j && b == i {
            let r = choose|p: Seq<int>| #[trigger] is_route(g2, p) && p[0] == i && p.last() == j;
            let rr = r.reverse();
            assert(is_route(g2, rr)) by {
                assert forall|t: int| 0 <= t < rr.len() - 1 implies has_link(g2, #[trigger] rr[t], rr[t + 1]) by {
                    let s = r.len() - 2 - t;
                    assert(rr[t] == r[s + 1] && rr[t + 1] == r[s]);
                    assert(has_link(g2, r[s], r[s + 1]));
                    let u = choose|u: int|
                        0 <= u < g2.len() && ((#[trigger] g2[u]).0 == r[s] && g2[u].1 == r[s + 1] || g2[u].0 == r[s + 1]
                            && g2[u].1 == r[s]);
                    assert(g2[u].0 == rr[t] && g2[u].1 == rr[t + 1] || g2[u].0 == rr[t + 1] && g2[u].1 == rr[t]);
                }
            }
            assert(rr[0] == j && rr.last() == i);
        } else {
            lemma_linked_link(g2, a, b);
        }
        lemma_linked_trans(g2, p[0], a, b);
    }
}

/// Weight of the pair of rooms `a` and `b`: the Manhattan distance of their centers.
pub open spec fn pair_weight(points: Seq<RectRoom>, a: int, b: int) -> i32 {
    points[a].spec_center().manhattan_spec(points[b].spec_center()) as i32
}

/// The pairs of room `a` with each lower room, lowest first.
pub open spec fn pair_row(points: Seq<RectRoom>, a: int) -> Seq<(i32, usize, usize)> {
    Seq::new(a as nat, |b: int| (pair_weight(points, a, b), a as usize, b as usize))
}

/// Every pair `(a, b)` with `b < a < i`, weighted, ordered by `a` and then by `b`.
pub open spec fn pairs_below(points: Seq<RectRoom>, i: int) -> Seq<(i32, usize, usize)>
    decreases i,
{
    if i <= 0 {
        Seq::empty()
    } else {
        pairs_below(points, i - 1) + pair_row(points, i - 1)
    }
}

/// `perm` shows `after` to be `before` sorted by weight without reordering entries of equal
/// weight: `after[k]` is `before[perm[k]]`.
pub open spec fn sort_witness(
    before: Seq<(i32, usize, usize)>,
    after: Seq<(i32, usize, usize)>,
    perm: Seq<int>,
) -> bool {
    &&& perm.len() == before.len()
    &&& after.len() == before.len()
    &&& forall|k: int|
        0 <= k < after.len() ==> 0 <= #[trigger] perm[k] < before.len() && after[k] == before[perm[k]]
    &&& forall|k: int, l: int| 0 <= k < l < after.len() ==> #[trigger] perm[k] != #[trigger] perm[l]
    &&& forall|k: int, l: int| 0 <= k < l < after.len() ==> (#[trigger] after[k]).0 <= (#[trigger] after[l]).0
    &&& forall|k: int, l: int|
        0 <= k < l < after.len() && (#[trigger] after[k]).0 == (#[trigger] after[l]).0 ==> perm[k] < perm[l]
}

/// `after` is `before` sorted stably by weight.
pub open spec fn stable_sort_of(before: Seq<(i32, usize, usize)>, after: Seq<(i32, usize, usize)>) -> bool {
    exists|perm: Seq<int>| #[trigger] sort_witness(before, after, perm)
}

/// Node `t` is reached from `x` by climbing `k` parent links (`-1` once a root is passed).
pub open spec fn climb(parents: Seq<i32>, x: int, k: nat) -> int
    decreases k,
{
    if k == 0 {
        x
    } else {
        let y = climb(parents, x, (k - 1) as nat);
        if 0 <= y < parents.len() && parents[y] != -1 {
            parents[y] as int
        } else {
            -1
        }
    }
}

/// `t` is the parent of `x` or of one of its ancestors.
pub open spec fn proper_ancestor(parents: Seq<i32>, x: int, t: int) -> bool {
    exists|k: nat| k >= 1 && #[trigger] climb(parents, x, k) == t
}

/// One step of the tree building: the pair `(w, a, b)` links `b` under `a` when the tree is
/// not yet full, `b` is no ancestor of `a` nor of itself, and `b` has no parent yet.
pub open spec fn mst_step(
    n: int,
    st: (Seq<i32>, Seq<(u32, u32)>),
    e: (i32, usize, usize),
) -> (Seq<i32>, Seq<(u32, u32)>) {
    let (ps, f) = st;
    let (w, a, b) = e;
    if f.len() == n || proper_ancestor(ps, a as int, b as int) || proper_ancestor(ps, b as int, b as int)
        || ps[b as int] != -1 {
        st
    } else {
        (ps.update(b as int, a as i32), f.push((a as u32, b as u32)))
    }
}

/// The parents and tree edges after the first `k` pairs of `edges`, starting from `n` roots.
pub open spec fn mst_run(n: int, edges: Seq<(i32, usize, usize)>, k: int) -> (Seq<i32>, Seq<(u32, u32)>)
    decreases k,
{
    if k <= 0 {
        (Seq::new(n as nat, |i: int| -1i32), Seq::empty())
    } else {
        mst_step(n, mst_run(n, edges, k - 1), edges[k - 1])
    }
}

/// Once a climb has passed a root it stays past it.
proof fn lemma_climb_stuck(parents: Seq<i32>, x: int, j: nat, k: nat)
    requires
        climb(parents, x, j) == -1,
        j <= k,
    ensures
        climb(parents, x, k) == -1,
    decreases k - j,
{
    if k > j {
        lemma_climb_stuck(parents, x, j, (k - 1) as nat);
    }
}

/// Sorts the edges by weight with `slice::sort_by_key`, which std documents as stable: the
/// result holds the same edges in nondecreasing weight, entries of equal weight in their
/// former order.
#[verifier::external_body]
fn sort_edges_by_weight(edges: &mut Vec<(i32, usize, usize)>)
    ensures
        final(edges)@.to_multiset() == old(edges)@.to_multiset(),
        forall|a: int, b: int|
            0 <= a < b < final(edges)@.len() ==> final(edges)@[a].0 <= final(edges)@[b].0,
        stable_sort_of(old(edges)@, final(edges)@),
{
    edges.sort_by_key(|e| e.0);
}

/// A spanning tree of the rooms: the pairs of rooms are taken by the Manhattan distance of
/// their centers, nearest first, and a pair links its lower room under the higher one when the
/// lower room is still a root and not already an ancestor of the higher one.
///
/// return edges, which are indices into `points`
///
/// the edges in the fully connected graph are sorted by the rooms' manhatten distance
#[verifier::spinoff_prover]
#[verifier::rlimit(100)]
pub fn minimum_spanning_tree(points: &Vec<RectRoom>) -> (r: Mst)
    requires
        1 <= points@.len() <= 0x8000,
        forall|k: int| 0 <= k < points@.len() ==> (#[trigger] points@[k]).is_small(),
    ensures
        r.parents@.len() == points@.len(),
        count_roots(r.parents@) == 1,
        r.edges@.len() == points@.len() - 1,
        forall|u: int|
            0 <= u < r.edges@.len() ==> {
                let (a, b) = #[trigger] r.edges@[u];
                &&& a < points@.len()
                &&& b < points@.len()
                &&& r.parents@[b as int] == a
            },
        forall|u: int, v: int|
            0 <= u < v < r.edges@.len() ==> (#[trigger] r.edges@[u]).1 != (#[trigger] r.edges@[v]).1,
        exists|root: Seq<int>, depth: Seq<int>| forest(r.parents@, root, depth),
        forall|u: int| 0 <= u < r.edges@.len() ==> (#[trigger] r.edges@[u]).1 < r.edges@[u].0,
        forall|x: int| 0 <= x < points@.len() ==> #[trigger] linked(r.edges@, 0, x),
        forall|u: int, v: int|
            0 <= u < v < r.edges@.len() ==> pair_weight(
                points@,
                (#[trigger] r.edges@[u]).0 as int,
                r.edges@[u].1 as int,
            ) <= pair_weight(points@, (#[trigger] r.edges@[v]).0 as int, r.edges@[v].1 as int),
        exists|sorted: Seq<(i32, usize, usize)>|
            #![trigger stable_sort_of(pairs_below(points@, points@.len() as int), sorted)]
            stable_sort_of(pairs_below(points@, points@.len() as int), sorted) && r.parents@ == mst_run(
                points@.len() as int,
                sorted,
                sorted.len() as int,
            ).0 && r.edges@ == mst_run(points@.len() as int, sorted, sorted.len() as int).1,
{
    let n = points.len();
    // all pairs (i, j) with j < i, weighted by distance
    let mut edges: Vec<(i32, usize, usize)> = Vec::new();
    let mut i: usize = 1;
    proof {
        assert(pair_row(points@, 0) =~= Seq::<(i32, usize, usize)>::empty());
        assert(pairs_below(points@, 0) =~= Seq::<(i32, usize, usize)>::empty());
        assert(pairs_below(points@, 1) == pairs_below(points@, 0) + pair_row(points@, 0));
        assert(pairs_below(points@, 1) =~= edges@);
    }
    while i < n
        invariant
            n == points@.len(),
            1 <= i <= n,
            n <= 0x8000,
            forall|k: int| 0 <= k < points@.len() ==> (#[trigger] points@[k]).is_small(),
            forall|u: int|
                0 <= u < edges@.len() ==> {
                    let (w, a, b) = #[trigger] edges@[u];
                    b < a < i && w == pair_weight(points@, a as int, b as int)
                },
            forall|a: int, b: int|
                0 <= b < a < i ==> #[trigger] pair_listed(edges@, a, b),
            edges@.len() <= i * i,
            edges@ == pairs_below(points@, i as int),
        decreases n - i,
    {
        let mut j: usize = 0;
        while j < i
            invariant
                n == points@.len(),
                1 <= i < n,
                n <= 0x8000,
                j <= i,
                forall|k: int| 0 <= k < points@.len() ==> (#[trigger] points@[k]).is_small(),
                forall|u: int|
                    0 <= u < edges@.len() ==> {
                        let (w, a, b) = #[trigger] edges@[u];
                        ((b < a < i) || (a == i && b < j)) && w == pair_weight(points@, a as int, b as int)
                    },
                forall|a: int, b: int|
                    ((0 <= b < a < i) || (a == i && 0 <= b < j)) ==> #[trigger] pair_listed(edges@, a, b),
                edges@.len() <= i * i + j,
                edges@ == pairs_below(points@, i as int) + pair_row(points@, i as int).take(j as int),
            decreases i - j,
        {
            let ci = points[i].center();
            let cj = points[j].center();
            let ghost before = edges@;
            edges.push((ci.manhatten(cj), i, j));
            proof {
                assert(pair_row(points@, i as int).take(j + 1) =~= pair_row(points@, i as int).take(
                    j as int,
                ).push(pair_row(points@, i as int)[j as int]));
                assert(edges@[edges@.len() - 1].1 == i && edges@[edges@.len() - 1].2 == j);
                assert forall|a: int, b: int|
                    ((0 <= b < a < i) || (a == i && 0 <= b < j + 1)) implies #[trigger] pair_listed(
                        edges@,
                        a,
                        b,
                    ) by {
                    if a == i && b == j {
                        assert(edges@[edges@.len() - 1].1 == a);
                    } else {
                        assert(pair_listed(before, a, b));
                        let u = choose|u: int|
                            0 <= u < before.len() && (#[trigger] before[u]).1 == a && before[u].2
                                == b;
                        assert(edges@[u] == before[u]);
                    }
                }
            }
            j = j + 1;
        }
        assert((i + 1) * (i + 1) >= i * i + i) by (nonlinear_arith);
        assert(pair_row(points@, i as int).take(i as int) =~= pair_row(points@, i as int));
        i = i + 1;
    }
    let ghost unsorted = edges@;
    sort_edges_by_weight(&mut edges);
    proof {
        assert forall|a: int, b: int|
            0 <= b < a < n implies #[trigger] pair_listed(edges@, a, b) by {
            assert(pair_listed(unsorted, a, b));
            let u0 = choose|u: int|
                0 <= u < unsorted.len() && (#[trigger] unsorted[u]).1 == a && unsorted[u].2 == b;
            let e = unsorted[u0];
            assert(unsorted.contains(e));
            assert(unsorted.to_multiset().count(e) > 0);
            assert(edges@.to_multiset().count(e) > 0);
            assert(edges@.contains(e));
        }
        assert forall|u: int| 0 <= u < edges@.len() implies {
            let (w, a, b) = #[trigger] edges@[u];
            b < a < n && w == pair_weight(points@, a as int, b as int)
        } by {
            let e = edges@[u];
            assert(edges@.contains(e));
            assert(edges@.to_multiset().count(e) > 0);
            assert(unsorted.to_multiset().count(e) > 0);
            assert(unsorted.contains(e));
        }
    }
    let mut parents: Vec<i32> = Vec::new();
    let mut k: usize = 0;
    while k < n
        invariant
            k <= n,
            parents@.len() == k,
            forall|x: int| 0 <= x < k ==> parents@[x] == -1,
        decreases n - k,
    {
        parents.push(-1);
        k = k + 1;
    }
    let ghost mut root: Seq<int> = Seq::new(n as nat, |y: int| y);
    let ghost mut depth: Seq<int> = Seq::new(n as nat, |y: int| 0int);
    proof {
        lemma_count_roots_all(parents@);
    }
    let mut f: Vec<(u32, u32)> = Vec::new();
    let ne = edges.len();
    let mut t: usize = 0;
    proof {
        assert(parents@ =~= mst_run(n as int, edges@, 0).0);
        assert(f@ =~= mst_run(n as int, edges@, 0).1);
        assert(parent_links(parents@, f@)) by {
            reveal(parent_links);
        }
    }
    while t < ne && f.len() != n
        invariant
            n == points@.len(),
            1 <= n <= 0x8000,
            ne == edges@.len(),
            t <= ne,
            parents@.len() == n,
            forest(parents@, root, depth),
            forall|u: int|
                0 <= u < edges@.len() ==> {
                    let (w, a, b) = #[trigger] edges@[u];
                    b < a < n && w == pair_weight(points@, a as int, b as int)
                },
            forall|a: int, b: int| 0 <= a < b < edges@.len() ==> edges@[a].0 <= edges@[b].0,
            parents@ == mst_run(n as int, edges@, t as int).0,
            f@ == mst_run(n as int, edges@, t as int).1,
            forall|u: int| 0 <= u < f@.len() ==> (#[trigger] f@[u]).1 < f@[u].0,
            parent_links(parents@, f@),
            forall|u: int, v: int|
                0 <= u < v < f@.len() ==> pair_weight(points@, (#[trigger] f@[u]).0 as int, f@[u].1 as int)
                    <= pair_weight(points@, (#[trigger] f@[v]).0 as int, f@[v].1 as int),
            forall|u: int, k: int|
                0 <= u < f@.len() && t <= k < ne ==> pair_weight(
                    points@,
                    (#[trigger] f@[u]).0 as int,
                    f@[u].1 as int,
                ) <= (#[trigger] edges@[k]).0,
            forall|u: int|
                0 <= u < t ==> {
                    let (w, a, b) = #[trigger] edges@[u];
                    parents@[b as int] != -1 || root[a as int] == root[b as int]
                },
            f@.len() == n - count_roots(parents@),
            forall|u: int|
                0 <= u < f@.len() ==> {
                    let (a, b) = #[trigger] f@[u];
                    &&& a < n
                    &&& b < n
                    &&& parents@[b as int] == a
                },
            forall|u: int, v: int|
                0 <= u < v < f@.len() ==> (#[trigger] f@[u]).1 != (#[trigger] f@[v]).1,
        decreases ne - t,
    {
        let (_, a, b) = edges[t];
        let ghost ps0 = parents@;
        let ghost f0 = f@;
        proof {
            assert(0 <= root[0] < n);
            lemma_count_roots_pos(parents@, root[0]);
            assert(mst_run(n as int, edges@, t + 1) == mst_step(n as int, mst_run(n as int, edges@, t as int), edges@[t as int]));
            assert(edges@[t as int].0 == pair_weight(points@, a as int, b as int));
        }
        // is `b` an ancestor of `a`, or of itself?
        let cyc_a = has_ancestor(&parents, a, b, Ghost(root), Ghost(depth));
        let mut linked = false;
        if !cyc_a {
            let cyc_b = has_ancestor(&parents, b, b, Ghost(root), Ghost(depth));
            if !cyc_b && parents[b] == -1 {
                let ghost old_parents = parents@;
                let ghost old_root = root;
                proof {
                    lemma_link(parents@, root, depth, a as int, b as int);
                    lemma_count_roots_update(parents@, b as int, a as i32);
                    assert forall|u: int, v: int|
                        0 <= u < v < f@.len() implies (#[trigger] f@[u]).1 != (#[trigger] f@[v]).1 by {}
                    assert forall|u: int| 0 <= u < f@.len() implies (#[trigger] f@[u]).1 != b by {
                        assert(old_parents[f@[u].1 as int] == f@[u].0);
                    }
                    depth = linked_depth(root, depth, a as int, b as int);
                    root = linked_root(root, a as int, b as int);
                }
                parents.set(b, a as i32);
                f.push((a as u32, b as u32));
                linked = true;
                proof {
                    assert(parents@ =~= ps0.update(b as int, a as i32));
                    assert(f@ =~= f0.push((a as u32, b as u32)));
                    lemma_parent_links_push(ps0, f0, a as int, b as int);
                    assert forall|u: int, k: int|
                        0 <= u < f@.len() && t + 1 <= k < ne implies pair_weight(
                        points@,
                        (#[trigger] f@[u]).0 as int,
                        f@[u].1 as int,
                    ) <= (#[trigger] edges@[k]).0 by {
                        assert(edges@[t as int].0 <= edges@[k].0);
                        if u < f0.len() {
                            assert(f@[u] == f0[u]);
                        }
                    }
                    assert forall|u: int, v: int|
                        0 <= u < v < f@.len() implies pair_weight(points@, (#[trigger] f@[u]).0 as int, f@[u].1 as int)
                            <= pair_weight(points@, (#[trigger] f@[v]).0 as int, f@[v].1 as int) by {
                        assert(f@[u] == f0[u]);
                        if v < f0.len() {
                            assert(f@[v] == f0[v]);
                        } else {
                            assert(edges@[t as int] == edges@[t as int]);
                        }
                    }
                    assert forall|u: int| 0 <= u < t + 1 implies {
                        let (w, a2, b2) = #[trigger] edges@[u];
                        parents@[b2 as int] != -1 || root[a2 as int] == root[b2 as int]
                    } by {
                        let (w, a2, b2) = edges@[u];
                        if u < t {
                            if old_parents[b2 as int] != -1 {
                            } else {
                                assert(old_root[a2 as int] == old_root[b2 as int]);
                            }
                        }
                    }
                }
            }
        }
        proof {
            if !linked {
                let (w, a2, b2) = edges@[t as int];
            }
        }
        t = t + 1;
    }
    proof {
        assert(0 <= root[0] < n);
        lemma_count_roots_pos(parents@, root[0]);
        assert(t == ne);
        // every pair was processed and links its rooms, so a single root remains
        assert(0 <= root[0] < n);
        lemma_count_roots_pos(parents@, root[0]);
        lemma_two_roots(parents@, root, depth, edges@);
        assert(stable_sort_of(pairs_below(points@, points@.len() as int), edges@));
        lemma_mst_linked(parents@, root, depth, f@);
    }
    Mst { edges: f, parents }
}

/// A forest in which every pair of entries was linked, or its lower entry got a parent,
/// has at most one root.
proof fn lemma_two_roots(
    parents: Seq<i32>,
    root: Seq<int>,
    depth: Seq<int>,
    edges: Seq<(i32, usize, usize)>,
)
    requires
        forest(parents, root, depth),
        forall|a: int, b: int|
            0 <= b < a < parents.len() ==> #[trigger] pair_listed(edges, a, b),
        forall|u: int|
            0 <= u < edges.len() ==> {
                let (w, a, b) = #[trigger] edges[u];
                &&& b < a < parents.len()
                &&& parents[b as int] != -1 || root[a as int] == root[b as int]
            },
    ensures
        count_roots(parents) <= 1,
{
    if count_roots(parents) >= 2 {
        let (x, y) = lemma_two_roots_witness(parents);
        assert(pair_listed(edges, y, x));
        let u = choose|u: int|
            0 <= u < edges.len() && (#[trigger] edges[u]).1 == y && edges[u].2 == x;
        let (w, a, b) = edges[u];
        assert(root[x] == x);
        assert(root[y] == y);
    }
}

/// Two roots, the lower first, of a sequence with at least two.
proof fn lemma_two_roots_witness(ps: Seq<i32>) -> (r: (int, int))
    requires
        count_roots(ps) >= 2,
    ensures
        0 <= r.0 < r.1 < ps.len(),
        ps[r.0] == -1,
        ps[r.1] == -1,
    decreases ps.len(),
{
    let prefix = ps.drop_last();
    if ps.last() == -1 && count_roots(prefix) >= 1 {
        let i = lemma_root_witness(prefix);
        (i, ps.len() - 1)
    } else if ps.last() == -1 {
        lemma_count_roots_nonneg(prefix);
        assert(false);
        (0, 0)
    } else {
        let (i, j) = lemma_two_roots_witness(prefix);
        (i, j)
    }
}

/// A root of a sequence that has one.
proof fn lemma_root_witness(ps: Seq<i32>) -> (r: int)
    requires
        count_roots(ps) >= 1,
    ensures
        0 <= r < ps.len(),
        ps[r] == -1,
    decreases ps.len(),
{
    let prefix = ps.drop_last();
    if ps.last() == -1 {
        ps.len() - 1
    } else {
        lemma_root_witness(prefix)
    }
}

/// Walk up from `start`: is `target` the parent of `start` or of one of its ancestors?
fn has_ancestor(
    parents: &Vec<i32>,
    start: usize,
    target: usize,
    Ghost(root): Ghost<Seq<int>>,
    Ghost(depth): Ghost<Seq<int>>,
) -> (r: bool)
    requires
        forest(parents@, root, depth),
        start < parents@.len(),
        target < parents@.len(),
        parents@.len() <= i32::MAX,
    ensures
        r ==> root[target as int] == root[start as int] && depth[target as int] < depth[start as int],
        !r && parents@[target as int] == -1 && start != target ==> root[start as int] != target,
        r == proper_ancestor(parents@, start as int, target as int),
{
    let mut ii = start;
    let ghost mut m: nat = 0;
    while parents[ii] != -1
        invariant
            forest(parents@, root, depth),
            ii < parents@.len(),
            root[ii as int] == root[start as int],
            depth[ii as int] <= depth[start as int],
            ii == start || ii != target,
            ii == climb(parents@, start as int, m),
            forall|k: nat| 1 <= k <= m ==> #[trigger] climb(parents@, start as int, k) != target,
        decreases depth[ii as int],
    {
        let p = parents[ii];
        proof {
            assert(0 <= p < parents@.len());
            assert(climb(parents@, start as int, m + 1) == p);
        }
        if p as usize == target {
            return true;
        }
        ii = p as usize;
        proof {
            m = m + 1;
        }
    }
    proof {
        assert(climb(parents@, start as int, m + 1) == -1);
        assert forall|k: nat| k >= 1 implies #[trigger] climb(parents@, start as int, k) != target by {
            if k > m {
                lemma_climb_stuck(parents@, start as int, m + 1, k);
            }
        }
    }
    false
}


/// The knobs of dungeon generation.
#[derive(Clone, Copy, Debug)]
pub struct MapGenProps {
    pub room_min_size: u32,
    pub room_max_size: u32,
    pub max_rooms: u32,
    pub max_items_per_floor: u32,
    pub max_monsters_per_floor: u32,
}

/// Items per room allowed on a floor: 2 from floor 4, 1 from floor 1, none before.
pub open spec fn max_items_on(level: u32) -> u32 {
    if level >= 4 {
        2
    } else if level >= 1 {
        1
    } else {
        0
    }
}

/// Monsters per room allowed on a floor: 5 from floor 6, 3 from floor 4, 2 from floor 1.
pub open spec fn max_monsters_on(level: u32) -> u32 {
    if level >= 6 {
        5
    } else if level >= 4 {
        3
    } else if level >= 1 {
        2
    } else {
        0
    }
}

impl MapGenProps {
    pub fn from_level(level: u32) -> (r: Self)
        ensures
            r.max_items_per_floor == max_items_on(level),
            r.max_monsters_per_floor == max_monsters_on(level),
            r.room_min_size == 6,
            r.room_max_size == 10,
            r.max_rooms == 50,
    {
        // sorted from high to low: [from floor, count]
        let max_items_per_floor = if level >= 4 {
            2
        } else if level >= 1 {
            1
        } else {
            0
        };
        let max_monsters_per_floor = if level >= 6 {
            5
        } else if level >= 4 {
            3
        } else if level >= 1 {
            2
        } else {
            0
        };
        MapGenProps {
            max_monsters_per_floor,
            max_items_per_floor,
            room_min_size: 6,
            room_max_size: 10,
            max_rooms: 50,
        }
    }
}

/// An L shaped tunnel from `start` to `end`, bending at one of the two corners of their
/// bounding box, each with equal chance.
pub fn tunnel_between(rng: &mut ThreadRng, start: Vec2, end: Vec2) -> (r: TunnelIter)
    ensures
        r.current == start,
        r.end == end,
        r.corner == (Vec2 { x: end.x, y: start.y }) || r.corner == (Vec2 { x: start.x, y: end.y }),
        r.wf() == l_fits(start, end, r.corner),
{
    let cornerx;
    let cornery;
    if gen_ratio(rng, 1, 2) {
        cornerx = end.x;
        cornery = start.y;
    } else {
        cornerx = start.x;
        cornery = end.y;
    }
    TunnelIter::new(start, end, Vec2::new(cornerx, cornery))
}

/// The rooms kept from the candidates `cands`, in order: each candidate that touches none of
/// the rooms kept before it.
pub open spec fn kept_rooms(cands: Seq<RectRoom>) -> Seq<RectRoom>
    decreases cands.len(),
{
    if cands.len() == 0 {
        Seq::empty()
    } else {
        let prev = kept_rooms(cands.drop_last());
        let c = cands.last();
        if forall|q: int| 0 <= q < prev.len() ==> !c.spec_touches(#[trigger] prev[q]) {
            prev.push(c)
        } else {
            prev
        }
    }
}

/// A candidate room as generation draws it on a `w` by `h` grid: its sides are at least
/// `room_min_size` and below `room_max_size`, with three cells before it and four after it.
pub open spec fn drawn_room(props: MapGenProps, w: int, h: int, c: RectRoom) -> bool {
    &&& props.room_min_size <= c.max.x - c.min.x < props.room_max_size
    &&& props.room_min_size <= c.max.y - c.min.y < props.room_max_size
    &&& 3 <= c.min.x && c.max.x < w - 4
    &&& 3 <= c.min.y && c.max.y < h - 4
}

/// A candidate room fits when it touches none of the rooms placed so far.
pub fn room_fits(rooms: &Vec<RectRoom>, room: &RectRoom) -> (r: bool)
    requires
        room.is_small(),
        forall|q: int| 0 <= q < rooms@.len() ==> (#[trigger] rooms@[q]).is_small(),
    ensures
        r == forall|q: int| 0 <= q < rooms@.len() ==> !room.spec_touches(#[trigger] rooms@[q]),
{
    let mut k: usize = 0;
    while k < rooms.len()
        invariant
            room.is_small(),
            forall|q: int| 0 <= q < rooms@.len() ==> (#[trigger] rooms@[q]).is_small(),
            k <= rooms@.len(),
            forall|q: int| 0 <= q < k ==> !room.spec_touches(#[trigger] rooms@[q]),
        decreases rooms@.len() - k,
    {
        proof {
            room.lemma_small_fits(rooms@[k as int], room.min, room.min);
        }
        if room.touches(&rooms[k]) {
            return false;
        }
        k = k + 1;
    }
    true
}

/// Room `k` lies across the tunnel: it is neither end's room and meets one of its legs.
pub open spec fn blocks_tunnel(rooms: Seq<RectRoom>, i: int, j: int, t: TunnelIter, k: int) -> bool {
    k != i && k != j && (rooms[k].spec_intersects_segment(t.current, t.corner)
        || rooms[k].spec_intersects_segment(t.end, t.corner))
}

/// The first room, other than rooms `i` and `j`, that the tunnel's legs cut through; the room
/// count when there is none.
pub fn tunnel_blocker(rooms: &Vec<RectRoom>, i: usize, j: usize, tunnel: &TunnelIter) -> (r: usize)
    requires
        forall|q: int| 0 <= q < rooms@.len() ==> (#[trigger] rooms@[q]).is_small(),
        small(tunnel.current),
        small(tunnel.end),
        small(tunnel.corner),
    ensures
        r <= rooms@.len(),
        r < rooms@.len() ==> blocks_tunnel(rooms@, i as int, j as int, *tunnel, r as int),
        forall|k: int| 0 <= k < r ==> !#[trigger] blocks_tunnel(rooms@, i as int, j as int, *tunnel, k),
{
    let n = rooms.len();
    let mut k: usize = 0;
    while k < n
        invariant
            n == rooms@.len(),
            k <= n,
            forall|q: int| 0 <= q < rooms@.len() ==> (#[trigger] rooms@[q]).is_small(),
            small(tunnel.current),
            small(tunnel.end),
            small(tunnel.corner),
            forall|q: int| 0 <= q < k ==> !#[trigger] blocks_tunnel(rooms@, i as int, j as int, *tunnel, q),
        decreases n - k,
    {
        if k != i && k != j {
            let room = &rooms[k];
            proof {
                room.lemma_small_fits(*room, tunnel.current, tunnel.corner);
                room.lemma_small_fits(*room, tunnel.end, tunnel.corner);
            }
            if room.intersects_segment(tunnel.current, tunnel.corner) || room.intersects_segment(
                tunnel.end,
                tunnel.corner,
            ) {
                return k;
            }
        }
        k = k + 1;
    }
    n
}

/// Cell `(x, y)` is one of the cells after `start` on the L from `start` through `corner`
/// to `end`.
pub open spec fn tunnel_dug(start: Vec2, corner: Vec2, end: Vec2, x: int, y: int) -> bool {
    exists|k: int|
        1 <= k <= start.manhattan_spec(end) && (#[trigger] l_cell(start, corner, end, k)).x == x
            && l_cell(start, corner, end, k).y == y
}

/// Dig the tunnel: every cell it yields becomes empty; nothing else changes.
pub fn dig_tunnel(grid: &mut TagGrid, tunnel: TunnelIter)
    requires
        old(grid).wf(),
        l_corner(tunnel.current, tunnel.end, tunnel.corner),
        l_fits(tunnel.current, tunnel.end, tunnel.corner),
        forall|x: int, y: int|
            between(x, tunnel.current.x as int, tunnel.end.x as int) && between(y, tunnel.current.y as int, tunnel.end.y as int)
                ==> old(grid).in_bounds(x, y),
    ensures
        final(grid).wf(),
        final(grid).spec_dims() == old(grid).spec_dims(),
        forall|x: int, y: int|
            old(grid).in_bounds(x, y) ==> #[trigger] final(grid).cell(x, y) == if tunnel_dug(
                tunnel.current,
                tunnel.corner,
                tunnel.end,
                x,
                y,
            ) {
                None
            } else {
                old(grid).cell(x, y)
            },
        forall|x: int, y: int|
            old(grid).in_bounds(x, y) && #[trigger] final(grid).cell(x, y) != old(grid).cell(x, y) ==> between(
                x,
                tunnel.current.x as int,
                tunnel.end.x as int,
            ) && between(y, tunnel.current.y as int, tunnel.end.y as int),
{
    let ghost g0 = *old(grid);
    let ghost t0 = tunnel;
    let ghost start = tunnel.current;
    let ghost end = tunnel.end;
    let ghost corner = tunnel.corner;
    let ghost n = start.manhattan_spec(end);
    let ghost mut i: int = 0;
    proof {
        TunnelIter::lemma_tunnel_run(start, end, corner);
        assert(tunnel_run(t0, 0) == t0);
    }
    let mut tunnel = tunnel;
    loop
        invariant
            g0.wf(),
            grid.wf(),
            grid.spec_dims() == g0.spec_dims(),
            l_corner(start, end, corner),
            l_fits(start, end, corner),
            forall|x: int, y: int|
                between(x, start.x as int, end.x as int) && between(y, start.y as int, end.y as int) ==> g0.in_bounds(x, y),
            n == start.manhattan_spec(end),
            0 <= i <= n,
            tunnel == tunnel_run(t0, i as nat),
            t0 == (TunnelIter { current: start, end, corner }),
            tunnel.wf(),
            tunnel.end == end,
            tunnel.corner == corner,
            tunnel.current == l_cell(start, corner, end, i),
            l_cell(start, corner, end, n) == end,
            forall|x: int, y: int|
                g0.in_bounds(x, y) ==> #[trigger] grid.cell(x, y) == if exists|k: int|
                    1 <= k <= i && (#[trigger] l_cell(start, corner, end, k)).x == x && l_cell(start, corner, end, k).y
                        == y {
                    None
                } else {
                    g0.cell(x, y)
                },
            forall|x: int, y: int|
                g0.in_bounds(x, y) && #[trigger] grid.cell(x, y) != g0.cell(x, y) ==> between(x, start.x as int, end.x as int)
                    && between(y, start.y as int, end.y as int),
        ensures
            i == n,
            forall|x: int, y: int|
                g0.in_bounds(x, y) ==> #[trigger] grid.cell(x, y) == if exists|k: int|
                    1 <= k <= i && (#[trigger] l_cell(start, corner, end, k)).x == x && l_cell(start, corner, end, k).y
                        == y {
                    None
                } else {
                    g0.cell(x, y)
                },
        decreases n - i,
    {
        let ghost u = tunnel;
        proof {
            assert(tunnel_run(u, 0) == u);
            assert(tunnel_run(t0, (i + 1) as nat) == tunnel_run(u, 1));
            if i < n {
                TunnelIter::lemma_l_next(start, end, corner, i + 1);
                TunnelIter::lemma_run_step(start, end, corner, (i + 1) as nat);
            }
        }
        match tunnel.next() {
            None => {
                break;
            },
            Some(p) => {
                let ghost before = *grid;
                proof {
                    assert(i < n);
                    i = i + 1;
                    assert(p == l_cell(start, corner, end, i));
                    assert(between(p.x as int, start.x as int, end.x as int));
                    assert(between(p.y as int, start.y as int, end.y as int));
                    assert(g0.in_bounds(p.x as int, p.y as int));
                }
                grid.set(p, None);
                proof {
                    assert forall|x: int, y: int| g0.in_bounds(x, y) implies #[trigger] grid.cell(x, y) == if exists|k: int|
                        1 <= k <= i && (#[trigger] l_cell(start, corner, end, k)).x == x && l_cell(start, corner, end, k).y
                            == y {
                        None
                    } else {
                        g0.cell(x, y)
                    } by {
                        if x == p.x && y == p.y {
                            assert(l_cell(start, corner, end, i).x == x && l_cell(start, corner, end, i).y == y);
                        } else {
                            assert(grid.cell(x, y) == before.cell(x, y));
                            if exists|k: int|
                                1 <= k <= i && (#[trigger] l_cell(start, corner, end, k)).x == x && l_cell(start, corner, end, k).y
                                    == y {
                                let k = choose|k: int|
                                    1 <= k <= i && (#[trigger] l_cell(start, corner, end, k)).x == x && l_cell(start, corner, end, k).y
                                        == y;
                                assert(k < i);
                            }
                        }
                    }
                }
            },
        }
    }
    proof {
        assert forall|x: int, y: int| g0.in_bounds(x, y) implies #[trigger] grid.cell(x, y) == if tunnel_dug(start, corner, end, x, y) {
            None
        } else {
            g0.cell(x, y)
        } by {
            if tunnel_dug(start, corner, end, x, y) {
                let k = choose|k: int|
                    1 <= k <= start.manhattan_spec(end) && (#[trigger] l_cell(start, corner, end, k)).x == x
                        && l_cell(start, corner, end, k).y == y;
                assert(1 <= k <= i && l_cell(start, corner, end, k).x == x && l_cell(start, corner, end, k).y == y);
            }
        }
    }
}

/// The cell `(x, y)` is on the ring of cells around the room.
pub open spec fn on_edge(room: RectRoom, x: int, y: int) -> bool {
    &&& room.min.x - 1 <= x <= room.max.x + 1
    &&& room.min.y - 1 <= y <= room.max.y + 1
    &&& !room.covers(x, y)
}

/// The ring of cells around the room, corners included.
pub fn iter_edge(room: &RectRoom) -> (r: Vec<Vec2>)
    requires
        room.min.x <= room.max.x,
        room.min.y <= room.max.y,
        room.is_small(),
    ensures
        forall|i: int| 0 <= i < r@.len() ==> on_edge(*room, (#[trigger] r@[i]).x as int, r@[i].y as int),
        forall|x: int, y: int| #[trigger] on_edge(*room, x, y) ==> r@.contains(Vec2 { x: x as i32, y: y as i32 }),
{
    let mut r: Vec<Vec2> = Vec::new();
    // +-1 in x to touch the corners
    let mut x = room.min.x - 1;
    while x <= room.max.x + 1
        invariant
            room.min.x <= room.max.x,
            room.min.y <= room.max.y,
            room.is_small(),
            room.min.x - 1 <= x <= room.max.x + 2,
            forall|i: int| 0 <= i < r@.len() ==> on_edge(*room, (#[trigger] r@[i]).x as int, r@[i].y as int),
            forall|xx: int, yy: int|
                #[trigger] on_edge(*room, xx, yy) && xx < x && (yy == room.min.y - 1 || yy == room.max.y + 1)
                    ==> r@.contains(Vec2 { x: xx as i32, y: yy as i32 }),
        decreases room.max.x + 2 - x,
    {
        let ghost before = r@;
        r.push(Vec2::new(x, room.min.y - 1));
        r.push(Vec2::new(x, room.max.y + 1));
        proof {
            assert(r@[before.len() as int] == Vec2 { x: x, y: (room.min.y - 1) as i32 });
            assert(r@[before.len() as int + 1] == Vec2 { x: x, y: (room.max.y + 1) as i32 });
            assert forall|xx: int, yy: int|
                #[trigger] on_edge(*room, xx, yy) && xx < x + 1 && (yy == room.min.y - 1 || yy == room.max.y + 1)
                    implies r@.contains(Vec2 { x: xx as i32, y: yy as i32 }) by {
                if xx < x {
                    let i = choose|i: int| 0 <= i < before.len() && before[i] == Vec2 { x: xx as i32, y: yy as i32 };
                    assert(r@[i] == before[i]);
                }
            }
        }
        x = x + 1;
    }
    let mut y = room.min.y;
    while y <= room.max.y
        invariant
            room.min.x <= room.max.x,
            room.min.y <= room.max.y,
            room.is_small(),
            room.min.y <= y <= room.max.y + 1,
            forall|i: int| 0 <= i < r@.len() ==> on_edge(*room, (#[trigger] r@[i]).x as int, r@[i].y as int),
            forall|xx: int, yy: int|
                #[trigger] on_edge(*room, xx, yy) && (yy < y || yy == room.max.y + 1)
                    ==> r@.contains(Vec2 { x: xx as i32, y: yy as i32 }),
        decreases room.max.y + 1 - y,
    {
        let ghost before = r@;
        r.push(Vec2::new(room.min.x - 1, y));
        r.push(Vec2::new(room.max.x + 1, y));
        proof {
            assert(r@[before.len() as int] == Vec2 { x: (room.min.x - 1) as i32, y: y });
            assert(r@[before.len() as int + 1] == Vec2 { x: (room.max.x + 1) as i32, y: y });
            assert forall|xx: int, yy: int|
                #[trigger] on_edge(*room, xx, yy) && (yy < y + 1 || yy == room.max.y + 1)
                    implies r@.contains(Vec2 { x: xx as i32, y: yy as i32 }) by {
                if yy < y || yy == room.max.y + 1 {
                    let i = choose|i: int| 0 <= i < before.len() && before[i] == Vec2 { x: xx as i32, y: yy as i32 };
                    assert(r@[i] == before[i]);
                }
            }
        }
        y = y + 1;
    }
    r
}

/// A wall next to (or at) an open cell or a door, which the player can see.
pub open spec fn wall_exposed(g: TagGrid, x: int, y: int) -> bool {
    exists|dx: int, dy: int|
        -1 <= dx <= 1 && -1 <= dy <= 1 && g.in_bounds(x + dx, y + dy) && (#[trigger] g.cell(
            x + dx,
            y + dy,
        ) is None || g.cell(x + dx, y + dy) == Some(StuffTag::Door))
}

/// The cell holds something that gets an entity: anything but a wall buried in rock.
pub open spec fn spawned(g: TagGrid, x: int, y: int) -> bool {
    &&& g.cell(x, y) is Some
    &&& g.cell(x, y) != Some(StuffTag::Wall) || wall_exposed(g, x, y)
}

/// The cell is on the grid and open (nothing in it) or a door: a wall next to it can be seen.
pub open spec fn see_through(g: TagGrid, x: int, y: int) -> bool {
    g.in_bounds(x, y) && (g.cell(x, y) is None || g.cell(x, y) == Some(StuffTag::Door))
}

/// A wall on the map gets spawned exactly when one of its eight neighbours, the four diagonal
/// ones included, is open or a door; a wall touching only walls, rock or the map's edge is
/// left out.
pub proof fn lemma_wall_spawned_iff_touches_open(g: TagGrid, x: int, y: int)
    requires
        g.cell(x, y) == Some(StuffTag::Wall),
    ensures
        spawned(g, x, y) <==> {
            ||| see_through(g, x - 1, y - 1)
            ||| see_through(g, x, y - 1)
            ||| see_through(g, x + 1, y - 1)
            ||| see_through(g, x - 1, y)
            ||| see_through(g, x + 1, y)
            ||| see_through(g, x - 1, y + 1)
            ||| see_through(g, x, y + 1)
            ||| see_through(g, x + 1, y + 1)
        },
{
    if wall_exposed(g, x, y) {
        let (dx, dy) = choose|dx: int, dy: int|
            -1 <= dx <= 1 && -1 <= dy <= 1 && g.in_bounds(x + dx, y + dy) && (#[trigger] g.cell(
                x + dx,
                y + dy,
            ) is None || g.cell(x + dx, y + dy) == Some(StuffTag::Door));
        assert(see_through(g, x + dx, y + dy));
        assert(dx != 0 || dy != 0);
    }
    let offsets: Seq<(int, int)> = seq![(-1int, -1int), (0, -1), (1, -1), (-1, 0), (1, 0), (-1, 1), (0, 1), (1, 1)];
    assert forall|i: int| 0 <= i < 8 && see_through(g, x + offsets[i].0, y + offsets[i].1) implies wall_exposed(
        g,
        x,
        y,
    ) by {
        let (dx, dy) = offsets[i];
        assert(g.cell(x + dx, y + dy) is None || g.cell(x + dx, y + dy) == Some(StuffTag::Door));
    }
    assert(see_through(g, x - 1, y - 1) ==> see_through(g, x + offsets[0].0, y + offsets[0].1));
    assert(see_through(g, x, y - 1) ==> see_through(g, x + offsets[1].0, y + offsets[1].1));
    assert(see_through(g, x + 1, y - 1) ==> see_through(g, x + offsets[2].0, y + offsets[2].1));
    assert(see_through(g, x - 1, y) ==> see_through(g, x + offsets[3].0, y + offsets[3].1));
    assert(see_through(g, x + 1, y) ==> see_through(g, x + offsets[4].0, y + offsets[4].1));
    assert(see_through(g, x - 1, y + 1) ==> see_through(g, x + offsets[5].0, y + offsets[5].1));
    assert(see_through(g, x, y + 1) ==> see_through(g, x + offsets[6].0, y + offsets[6].1));
    assert(see_through(g, x + 1, y + 1) ==> see_through(g, x + offsets[7].0, y + offsets[7].1));
}

/// Every cell of the map that holds something other than a wall gets spawned, whatever its
/// neighbours; an empty cell spawns nothing.
pub proof fn lemma_non_walls_spawned(g: TagGrid, x: int, y: int)
    ensures
        g.cell(x, y) is Some && g.cell(x, y) != Some(StuffTag::Wall) ==> spawned(g, x, y),
        g.cell(x, y) is None ==> !spawned(g, x, y),
{
}

/// Is the wall at `pos` exposed?
fn exposed_wall(g: &TagGrid, pos: Vec2) -> (r: bool)
    requires
        g.wf(),
        g.in_bounds(pos.x as int, pos.y as int),
    ensures
        r == wall_exposed(*g, pos.x as int, pos.y as int),
{
    // clear invisible walls
    let mut dy: i32 = -1;
    while dy <= 1
        invariant
            g.wf(),
            g.in_bounds(pos.x as int, pos.y as int),
            -1 <= dy <= 2,
            forall|ex: int, ey: int|
                -1 <= ex <= 1 && -1 <= ey < dy && g.in_bounds(pos.x + ex, pos.y + ey) ==> !(
                #[trigger] g.cell(pos.x + ex, pos.y + ey) is None || g.cell(pos.x + ex, pos.y + ey)
                    == Some(StuffTag::Door)),
        decreases 2 - dy,
    {
        let mut dx: i32 = -1;
        while dx <= 1
            invariant
                g.wf(),
                g.in_bounds(pos.x as int, pos.y as int),
                -1 <= dy <= 1,
                -1 <= dx <= 2,
                forall|ex: int, ey: int|
                    -1 <= ex <= 1 && (-1 <= ey < dy || (ey == dy && ex < dx)) && g.in_bounds(
                        pos.x + ex,
                        pos.y + ey,
                    ) ==> !(#[trigger] g.cell(pos.x + ex, pos.y + ey) is None || g.cell(
                        pos.x + ex,
                        pos.y + ey,
                    ) == Some(StuffTag::Door)),
            decreases 2 - dx,
        {
            match g.at(pos.x + dx, pos.y + dy) {
                None => {},
                Some(stuff) => {
                    match stuff {
                        None | Some(StuffTag::Door) => {
                            proof {
                                assert(g.cell(pos.x + dx, pos.y + dy) == *stuff);
                            }
                            return true;
                        },
                        _ => {},
                    }
                },
            }
            dx = dx + 1;
        }
        dy = dy + 1;
    }
    false
}

/// The things to spawn for a generated map, row by row: every occupied cell but the walls
/// that no open cell or door touches.
pub fn spawn_list(g: &TagGrid) -> (r: Vec<(Vec2, StuffTag)>)
    requires
        g.wf(),
    ensures
        forall|i: int|
            0 <= i < r@.len() ==> {
                let (p, t) = #[trigger] r@[i];
                &&& g.in_bounds(p.x as int, p.y as int)
                &&& g.cell(p.x as int, p.y as int) == Some(t)
                &&& spawned(*g, p.x as int, p.y as int)
            },
        forall|i: int, j: int|
            0 <= i < j < r@.len() ==> crate::grid::cell_offset(g.spec_width(), (#[trigger] r@[i]).0.x as int, r@[i].0.y as int)
                < crate::grid::cell_offset(g.spec_width(), (#[trigger] r@[j]).0.x as int, r@[j].0.y as int),
        forall|x: int, y: int|
            g.in_bounds(x, y) && #[trigger] spawned(*g, x, y) ==> exists|i: int|
                0 <= i < r@.len() && (#[trigger] r@[i]).0 == (Vec2 { x: x as i32, y: y as i32 }),
{
    let cells = g.iter();
    let mut r: Vec<(Vec2, StuffTag)> = Vec::new();
    let mut k: usize = 0;
    while k < cells.len()
        invariant
            g.wf(),
            cells@.len() == g.cells().len(),
            forall|i: int|
                0 <= i < cells@.len() ==> {
                    let (p, v) = #[trigger] cells@[i];
                    &&& g.in_bounds(p.x as int, p.y as int)
                    &&& crate::grid::cell_offset(g.spec_width(), p.x as int, p.y as int) == i
                    &&& v == g.cells()[i]
                },
            k <= cells@.len(),
            forall|i: int|
                0 <= i < r@.len() ==> {
                    let (p, t) = #[trigger] r@[i];
                    &&& g.in_bounds(p.x as int, p.y as int)
                    &&& g.cell(p.x as int, p.y as int) == Some(t)
                    &&& spawned(*g, p.x as int, p.y as int)
                    &&& crate::grid::cell_offset(g.spec_width(), p.x as int, p.y as int) < k
                },
            forall|i: int, j: int|
                0 <= i < j < r@.len() ==> crate::grid::cell_offset(g.spec_width(), (#[trigger] r@[i]).0.x as int, r@[i].0.y as int)
                    < crate::grid::cell_offset(g.spec_width(), (#[trigger] r@[j]).0.x as int, r@[j].0.y as int),
            forall|x: int, y: int|
                g.in_bounds(x, y) && #[trigger] spawned(*g, x, y) && crate::grid::cell_offset(g.spec_width(), x, y) < k
                    ==> exists|i: int| 0 <= i < r@.len() && (#[trigger] r@[i]).0 == (Vec2 { x: x as i32, y: y as i32 }),
        decreases cells@.len() - k,
    {
        let (pos, stuff) = cells[k];
        let ghost before = r@;
        match stuff {
            None => {},
            Some(tag) => {
                let keep = match tag {
                    StuffTag::Wall => exposed_wall(g, pos),
                    _ => true,
                };
                if keep {
                    r.push((pos, tag));
                }
            },
        }
        proof {
            let w = g.spec_width();
            assert(g.cell(pos.x as int, pos.y as int) == stuff);
            assert forall|x: int, y: int|
                g.in_bounds(x, y) && #[trigger] spawned(*g, x, y) && crate::grid::cell_offset(w, x, y) < k + 1
                    implies exists|i: int| 0 <= i < r@.len() && (#[trigger] r@[i]).0 == (Vec2 { x: x as i32, y: y as i32 }) by {
                if crate::grid::cell_offset(w, x, y) == k {
                    crate::grid::lemma_cell_offset_injective(w, x, y, pos.x as int, pos.y as int);
                    assert(r@[before.len() as int].0 == Vec2 { x: x as i32, y: y as i32 });
                } else {
                    let i = choose|i: int| 0 <= i < before.len() && (#[trigger] before[i]).0 == (Vec2 { x: x as i32, y: y as i32 });
                    assert(r@[i] == before[i]);
                }
            }
        }
        k = k + 1;
    }
    proof {
        g.lemma_len();
        assert forall|x: int, y: int| g.in_bounds(x, y) && #[trigger] spawned(*g, x, y) implies exists|i: int|
            0 <= i < r@.len() && (#[trigger] r@[i]).0 == (Vec2 { x: x as i32, y: y as i32 }) by {
            crate::grid::lemma_cell_offset(g.spec_width(), g.spec_height(), x, y);
        }
    }
    r
}


/// Why a dungeon could not be built.
#[derive(Clone, Copy, Debug, PartialEq, Eq, Structural)]
pub enum MapGenError {
    /// Fewer than two rooms fit: there is no room apart from the player's for the stairs.
    TooFewRooms,
    /// The room chosen for the stairs had no empty cell left.
    NoRoomForStairs,
    /// Rerouting tunnels around rooms kept going far beyond any reasonable number of tries.
    /// A reroute replaces one tunnel by up to two, and nothing that shrinks with each reroute
    /// is known, so the tries are capped (the cube of the room count, plus 16) to keep
    /// generation finite.
    TunnelsDidNotSettle,
}

/// No cell holds `t`.
pub open spec fn no_cell_holds(g: TagGrid, t: StuffTag) -> bool {
    forall|x: int, y: int| g.in_bounds(x, y) ==> #[trigger] g.cell(x, y) != Some(t)
}

/// The cell at `p`, and no other, holds `t`.
pub open spec fn only_cell_holds(g: TagGrid, t: StuffTag, p: Vec2) -> bool {
    &&& g.in_bounds(p.x as int, p.y as int)
    &&& forall|x: int, y: int|
        g.in_bounds(x, y) ==> (#[trigger] g.cell(x, y) == Some(t) <==> x == p.x && y == p.y)
}

/// No room has a wall left inside it.
pub open spec fn rooms_open(g: TagGrid, rooms: Seq<RectRoom>) -> bool {
    forall|k: int, x: int, y: int|
        0 <= k < rooms.len() && (#[trigger] rooms[k]).covers(x, y) && g.in_bounds(x, y) ==> #[trigger] g.cell(x, y)
            != Some(StuffTag::Wall)
}

/// Props that generation can work with on a `w` by `h` grid: rooms at least a cell wide, a
/// grid wide and high enough for the largest room and its padding, and a bounded room count.
pub open spec fn props_fit(props: MapGenProps, w: int, h: int) -> bool {
    &&& 1 <= props.room_min_size < props.room_max_size
    &&& props.room_max_size + 7 <= w
    &&& props.room_max_size + 7 <= h
    &&& props.max_rooms <= 0x8000
}

/// A room as generation places it: three cells of padding before it and four after it.
pub open spec fn room_placed(room: RectRoom, w: int, h: int) -> bool {
    &&& 3 <= room.min.x < room.max.x <= w - 5
    &&& 3 <= room.min.y < room.max.y <= h - 5
    &&& room.is_small()
}

/// The rooms of a generated dungeon, the player's first, and where its stairs are.
pub struct DungeonLayout {
    pub rooms: Vec<RectRoom>,
    pub stairs: Vec2,
}

/// The cell lies on the outer ring of the grid.
pub open spec fn on_border(g: TagGrid, x: int, y: int) -> bool {
    x == 0 || y == 0 || x == g.spec_width() - 1 || y == g.spec_height() - 1
}

/// `after` has the dimensions of `before` and the same cells on its outer ring.
pub open spec fn border_kept(before: TagGrid, after: TagGrid) -> bool {
    &&& after.spec_dims() == before.spec_dims()
    &&& forall|x: int, y: int|
        before.in_bounds(x, y) && on_border(before, x, y) ==> #[trigger] after.cell(x, y) == before.cell(x, y)
}

/// Keeping the border is transitive.
proof fn lemma_border_trans(g0: TagGrid, g1: TagGrid, g2: TagGrid)
    requires
        border_kept(g0, g1),
        border_kept(g1, g2),
    ensures
        border_kept(g0, g2),
{
    assert forall|x: int, y: int| g0.in_bounds(x, y) && on_border(g0, x, y) implies #[trigger] g2.cell(x, y)
        == g0.cell(x, y) by {
        assert(g1.cell(x, y) == g0.cell(x, y));
    }
}

/// Changing only cells off the outer ring keeps the border.
proof fn lemma_inner_change(before: TagGrid, after: TagGrid, lo_x: int, hi_x: int, lo_y: int, hi_y: int)
    requires
        after.spec_dims() == before.spec_dims(),
        1 <= lo_x,
        hi_x <= before.spec_width() - 2,
        1 <= lo_y,
        hi_y <= before.spec_height() - 2,
        forall|x: int, y: int|
            before.in_bounds(x, y) && !(lo_x <= x <= hi_x && lo_y <= y <= hi_y) ==> #[trigger] after.cell(x, y)
                == before.cell(x, y),
    ensures
        border_kept(before, after),
{
}

/// Filling interior cells of a placed room keeps the border.
proof fn lemma_placed_border(before: TagGrid, after: TagGrid, room: RectRoom, kinds: Seq<StuffTag>)
    requires
        placed_within(before, after, room, kinds),
        room_placed(room, before.spec_width(), before.spec_height()),
    ensures
        border_kept(before, after),
{
    lemma_inner_change(before, after, room.min.x as int, room.max.x as int, room.min.y as int, room.max.y as int);
}

/// Put a door on every empty cell of the ring around each room; every other cell stays.
pub fn place_doors(grid: &mut TagGrid, rooms: &Vec<RectRoom>)
    requires
        old(grid).wf(),
        forall|k: int|
            0 <= k < rooms@.len() ==> room_placed(#[trigger] rooms@[k], old(grid).spec_width(), old(grid).spec_height()),
    ensures
        final(grid).wf(),
        final(grid).spec_dims() == old(grid).spec_dims(),
        forall|x: int, y: int|
            old(grid).in_bounds(x, y) ==> #[trigger] final(grid).cell(x, y) == if old(grid).cell(x, y) is None
                && exists|k: int| 0 <= k < rooms@.len() && on_edge(#[trigger] rooms@[k], x, y) {
                Some(StuffTag::Door)
            } else {
                old(grid).cell(x, y)
            },
{
    let ghost g0 = *old(grid);
    let n = rooms.len();
    let mut q: usize = 0;
    while q < n
        invariant
            n == rooms@.len(),
            q <= n,
            g0.wf(),
            grid.wf(),
            grid.spec_dims() == g0.spec_dims(),
            forall|k: int|
                0 <= k < rooms@.len() ==> room_placed(#[trigger] rooms@[k], g0.spec_width(), g0.spec_height()),
            forall|x: int, y: int|
                g0.in_bounds(x, y) ==> #[trigger] grid.cell(x, y) == if g0.cell(x, y) is None && exists|k: int|
                    0 <= k < q && on_edge(#[trigger] rooms@[k], x, y) {
                    Some(StuffTag::Door)
                } else {
                    g0.cell(x, y)
                },
        decreases n - q,
    {
        let room = rooms[q];
        proof {
            assert(room_placed(rooms@[q as int], g0.spec_width(), g0.spec_height()));
        }
        let edge = iter_edge(&room);
        let mut e: usize = 0;
        while e < edge.len()
            invariant
                n == rooms@.len(),
                q < n,
                room == rooms@[q as int],
                e <= edge@.len(),
                g0.wf(),
                grid.wf(),
                grid.spec_dims() == g0.spec_dims(),
                room_placed(room, g0.spec_width(), g0.spec_height()),
                forall|i: int| 0 <= i < edge@.len() ==> on_edge(room, (#[trigger] edge@[i]).x as int, edge@[i].y as int),
                forall|x: int, y: int|
                    g0.in_bounds(x, y) ==> #[trigger] grid.cell(x, y) == if g0.cell(x, y) is None && ((exists|k: int|
                        0 <= k < q && on_edge(#[trigger] rooms@[k], x, y)) || (exists|i: int|
                        0 <= i < e && (#[trigger] edge@[i]).x == x && edge@[i].y == y)) {
                        Some(StuffTag::Door)
                    } else {
                        g0.cell(x, y)
                    },
            decreases edge@.len() - e,
        {
            let p = edge[e];
            proof {
                assert(on_edge(room, p.x as int, p.y as int));
            }
            let ghost before = *grid;
            if grid.get(p).is_none() {
                grid.set(p, Some(StuffTag::Door));
            }
            proof {
                assert forall|x: int, y: int| g0.in_bounds(x, y) implies #[trigger] grid.cell(x, y) == if g0.cell(x, y)
                    is None && ((exists|k: int| 0 <= k < q && on_edge(#[trigger] rooms@[k], x, y)) || (exists|i: int|
                    0 <= i < e + 1 && (#[trigger] edge@[i]).x == x && edge@[i].y == y)) {
                    Some(StuffTag::Door)
                } else {
                    g0.cell(x, y)
                } by {
                    if x == p.x && y == p.y {
                        assert(edge@[e as int].x == x && edge@[e as int].y == y);
                    } else {
                        assert(grid.cell(x, y) == before.cell(x, y));
                        if exists|i: int| 0 <= i < e + 1 && (#[trigger] edge@[i]).x == x && edge@[i].y == y {
                            let i = choose|i: int| 0 <= i < e + 1 && (#[trigger] edge@[i]).x == x && edge@[i].y == y;
                            assert(i < e);
                        }
                    }
                }
            }
            e = e + 1;
        }
        proof {
            assert forall|x: int, y: int| g0.in_bounds(x, y) implies #[trigger] grid.cell(x, y) == if g0.cell(x, y)
                is None && exists|k: int| 0 <= k < q + 1 && on_edge(#[trigger] rooms@[k], x, y) {
                Some(StuffTag::Door)
            } else {
                g0.cell(x, y)
            } by {
                if on_edge(room, x, y) {
                    assert(edge@.contains(Vec2 { x: x as i32, y: y as i32 }));
                    let i = choose|i: int| 0 <= i < edge@.len() && edge@[i] == Vec2 { x: x as i32, y: y as i32 };
                    assert(edge@[i].x == x && edge@[i].y == y);
                    assert(rooms@[q as int] == room);
                }
                if exists|k: int| 0 <= k < q + 1 && on_edge(#[trigger] rooms@[k], x, y) {
                    let k = choose|k: int| 0 <= k < q + 1 && on_edge(#[trigger] rooms@[k], x, y);
                    if k == q {
                        assert(on_edge(room, x, y));
                    }
                }
                if exists|i: int| 0 <= i < edge@.len() && (#[trigger] edge@[i]).x == x && edge@[i].y == y {
                    let i = choose|i: int| 0 <= i < edge@.len() && (#[trigger] edge@[i]).x == x && edge@[i].y == y;
                    assert(on_edge(room, edge@[i].x as int, edge@[i].y as int));
                }
            }
        }
        q = q + 1;
    }
}

/// Filling cells with things that are neither the player nor the stairs keeps where those are.
proof fn lemma_placed_keeps(
    before: TagGrid,
    after: TagGrid,
    room: RectRoom,
    kinds: Seq<StuffTag>,
    c0: Vec2,
    rooms: Seq<RectRoom>,
)
    requires
        placed_within(before, after, room, kinds),
        forall|i: int| 0 <= i < kinds.len() ==> is_spawnable(#[trigger] kinds[i]),
    ensures
        rooms_open(before, rooms) ==> rooms_open(after, rooms),
        no_cell_holds(before, StuffTag::Stairs) ==> no_cell_holds(after, StuffTag::Stairs),
        no_cell_holds(before, StuffTag::Player) ==> no_cell_holds(after, StuffTag::Player),
        only_cell_holds(before, StuffTag::Player, c0) ==> only_cell_holds(after, StuffTag::Player, c0),
{
    assert forall|x: int, y: int| before.in_bounds(x, y) && after.cell(x, y) != before.cell(x, y)
        implies after.cell(x, y) is Some && is_spawnable(after.cell(x, y)->0) by {
        let t = after.cell(x, y)->0;
        let i = choose|i: int| 0 <= i < kinds.len() && kinds[i] == t;
        assert(is_spawnable(kinds[i]));
    }
}

/// Setting an in-bounds cell to something else than `t` and the grid's only `t`...
proof fn lemma_set_other(
    before: TagGrid,
    after: TagGrid,
    p: Vec2,
    v: Option<StuffTag>,
    t: StuffTag,
    c: Vec2,
    rooms: Seq<RectRoom>,
)
    requires
        before.wf(),
        before.in_bounds(p.x as int, p.y as int),
        after.spec_dims() == before.spec_dims(),
        forall|x: int, y: int| before.in_bounds(x, y) ==> #[trigger] after.cell(x, y) == if x == p.x && y == p.y {
            v
        } else {
            before.cell(x, y)
        },
        v != Some(t),
    ensures
        v != Some(StuffTag::Wall) && rooms_open(before, rooms) ==> rooms_open(after, rooms),
        no_cell_holds(before, t) ==> no_cell_holds(after, t),
        only_cell_holds(before, t, c) && (p.x != c.x || p.y != c.y) ==> only_cell_holds(after, t, c),
{
}

/// `e` joins `a` and `b`, in either direction.
pub open spec fn is_pair(e: (u32, u32), a: int, b: int) -> bool {
    e.0 == a && e.1 == b || e.0 == b && e.1 == a
}

/// Moving the last pending edge to the dug ones keeps every link.
proof fn lemma_dig_links(dug: Seq<(u32, u32)>, edges: Seq<(u32, u32)>)
    requires
        edges.len() > 0,
    ensures
        forall|a: int, b: int|
            has_link(dug + edges, a, b) ==> #[trigger] has_link(dug.push(edges.last()) + edges.drop_last(), a, b),
{
    let g = dug + edges;
    let g2 = dug.push(edges.last()) + edges.drop_last();
    assert forall|a: int, b: int| has_link(g, a, b) implies #[trigger] has_link(g2, a, b) by {
        let u = choose|u: int| 0 <= u < g.len() && ((#[trigger] g[u]).0 == a && g[u].1 == b || g[u].0 == b && g[u].1 == a);
        if u < dug.len() {
            assert(g2[u] == g[u]);
        } else if u == g.len() - 1 {
            assert(g2[dug.len() as int] == g[u]);
        } else {
            assert(g2[u + 1] == g[u]);
        }
    }
}

/// Replacing the last pending edge by new ones keeps every other link.
proof fn lemma_split_links(dug: Seq<(u32, u32)>, edges: Seq<(u32, u32)>, edges2: Seq<(u32, u32)>)
    requires
        edges.len() > 0,
        edges2.len() >= edges.len() - 1,
        forall|u: int| 0 <= u < edges.len() - 1 ==> edges2[u] == edges[u],
    ensures
        forall|a: int, b: int|
            has_link(dug + edges, a, b) && !is_pair(edges.last(), a, b) ==> #[trigger] has_link(dug + edges2, a, b),
{
    let g = dug + edges;
    let g2 = dug + edges2;
    assert forall|a: int, b: int| has_link(g, a, b) && !is_pair(edges.last(), a, b) implies #[trigger] has_link(g2, a, b) by {
        let u = choose|u: int| 0 <= u < g.len() && ((#[trigger] g[u]).0 == a && g[u].1 == b || g[u].0 == b && g[u].1 == a);
        if u < dug.len() {
            assert(g2[u] == g[u]);
        } else {
            assert(u != g.len() - 1);
            assert(g2[u] == edges2[u - dug.len()]);
            assert(g[u] == edges[u - dug.len()]);
        }
    }
}

/// Each entry `(a, b)` of `adj` (a cell `x = a`, `y = b`) set to 1 is a link of `g`.
pub open spec fn adj_ok(adj: Grid<i8>, g: Seq<(u32, u32)>, n: int) -> bool {
    forall|a: int, b: int|
        0 <= a < n && 0 <= b < n ==> (#[trigger] adj.cell(a, b) == 0 || adj.cell(a, b) == 1) && (adj.cell(a, b) == 1
            ==> has_link(g, a, b))
}

/// The dug tunnels: tunnel `u` runs from the center of room `dug[u].0` to that of room
/// `dug[u].1`, bending at `corners[u]`, and none of its cells is a wall in `g`.
pub open spec fn tunnels_open(rooms: Seq<RectRoom>, dug: Seq<(u32, u32)>, corners: Seq<Vec2>, g: TagGrid) -> bool {
    &&& dug.len() == corners.len()
    &&& forall|u: int|
        #![trigger dug[u]]
        0 <= u < dug.len() ==> {
            let ca = rooms[dug[u].0 as int].spec_center();
            let cb = rooms[dug[u].1 as int].spec_center();
            &&& dug[u].0 < rooms.len()
            &&& dug[u].1 < rooms.len()
            &&& l_corner(ca, cb, corners[u])
            &&& forall|x: int, y: int|
                g.in_bounds(x, y) && tunnel_dug(ca, corners[u], cb, x, y) ==> #[trigger] g.cell(x, y) != Some(
                    StuffTag::Wall,
                )
        }
}

/// The rooms are joined by dug tunnels: every room is reached from the first one through
/// tunnels whose cells are all open.
pub open spec fn tunnels_join(rooms: Seq<RectRoom>, dug: Seq<(u32, u32)>, corners: Seq<Vec2>, g: TagGrid) -> bool {
    &&& tunnels_open(rooms, dug, corners, g)
    &&& forall|r: int| 0 <= r < rooms.len() ==> #[trigger] linked(dug, 0, r)
}

/// No cell that is not a wall in `before` is a wall in `after`.
pub open spec fn no_new_walls(before: TagGrid, after: TagGrid) -> bool {
    &&& after.spec_dims() == before.spec_dims()
    &&& forall|x: int, y: int|
        before.in_bounds(x, y) && before.cell(x, y) != Some(StuffTag::Wall) ==> #[trigger] after.cell(x, y) != Some(
            StuffTag::Wall,
        )
}

/// Tunnels stay open while no new walls go up.
proof fn lemma_tunnels_stay(rooms: Seq<RectRoom>, dug: Seq<(u32, u32)>, corners: Seq<Vec2>, g1: TagGrid, g2: TagGrid)
    requires
        tunnels_open(rooms, dug, corners, g1),
        no_new_walls(g1, g2),
    ensures
        tunnels_open(rooms, dug, corners, g2),
{
    assert forall|u: int| #![trigger dug[u]] 0 <= u < dug.len() implies {
        let ca = rooms[dug[u].0 as int].spec_center();
        let cb = rooms[dug[u].1 as int].spec_center();
        forall|x: int, y: int|
            g2.in_bounds(x, y) && tunnel_dug(ca, corners[u], cb, x, y) ==> #[trigger] g2.cell(x, y) != Some(StuffTag::Wall)
    } by {
        let ca = rooms[dug[u].0 as int].spec_center();
        let cb = rooms[dug[u].1 as int].spec_center();
        assert forall|x: int, y: int| g2.in_bounds(x, y) && tunnel_dug(ca, corners[u], cb, x, y) implies #[trigger] g2.cell(x, y)
            != Some(StuffTag::Wall) by {
            assert(g1.cell(x, y) != Some(StuffTag::Wall));
        }
    }
}

/// `a`-`b` is the pair `p`-`q`, in either order.
pub open spec fn same_pair(p: int, q: int, a: int, b: int) -> bool {
    a == p && b == q || a == q && b == p
}

/// `new` is `old` with the pair `i`-`j` cleared, and the pairs `i`-`k` and `j`-`k` set where
/// `old` did not hold them yet (read at `(i, k)` and `(j, k)`).
pub open spec fn rerouted_adj(old: Grid<i8>, new: Grid<i8>, i: int, j: int, k: int) -> bool {
    &&& new.wf()
    &&& new.spec_dims() == old.spec_dims()
    &&& forall|a: int, b: int|
        old.in_bounds(a, b) ==> #[trigger] new.cell(a, b) == if same_pair(i, j, a, b) {
            0i8
        } else if same_pair(i, k, a, b) && old.cell(i, k) == 0 || same_pair(j, k, a, b) && old.cell(j, k) == 0 {
            1i8
        } else {
            old.cell(a, b)
        }
}

/// The edges after rerouting: `(i, k)` and then `(j, k)` are added where their pair was not
/// tunnelled or pending yet.
pub open spec fn rerouted_edges(old: Seq<(u32, u32)>, adj: Grid<i8>, i: u32, j: u32, k: u32) -> Seq<(u32, u32)> {
    old + (if adj.cell(i as int, k as int) == 0 {
        seq![(i, k)]
    } else {
        Seq::empty()
    }) + (if adj.cell(j as int, k as int) == 0 {
        seq![(j, k)]
    } else {
        Seq::empty()
    })
}

/// What rerouting does to the links: the pair `i`-`j` goes, `i`-`k` and `j`-`k` are joined,
/// and the bookkeeping stays right.
proof fn lemma_reroute_links(
    dug: Seq<(u32, u32)>,
    edges0: Seq<(u32, u32)>,
    edges2: Seq<(u32, u32)>,
    adj0: Grid<i8>,
    adj2: Grid<i8>,
    i: int,
    j: int,
    k: int,
    n: int,
)
    requires
        edges0.len() > 0,
        edges0.last().0 == i && edges0.last().1 == j,
        0 <= i < n && 0 <= j < n && 0 <= k < n,
        n <= 0x8000,
        i != j && k != i && k != j,
        adj0.spec_dims() == (Vec2 { x: n as i32, y: n as i32 }),
        adj_ok(adj0, dug + edges0, n),
        rerouted_adj(adj0, adj2, i, j, k),
        edges2 == rerouted_edges(edges0.drop_last(), adj0, i as u32, j as u32, k as u32),
    ensures
        adj_ok(adj2, dug + edges2, n),
        has_link(dug + edges2, i, k),
        has_link(dug + edges2, j, k),
        forall|a: int, b: int| has_link(dug + edges0, a, b) && !same_pair(i, j, a, b) ==> #[trigger] has_link(dug + edges2, a, b),
{
    let g = dug + edges0;
    let g2 = dug + edges2;
    lemma_split_links(dug, edges0, edges2);
    assert forall|a: int, b: int| has_link(g, a, b) && !same_pair(i, j, a, b) implies #[trigger] has_link(g2, a, b) by {
        assert(!is_pair(edges0.last(), a, b));
    }
    assert(has_link(g2, i, k)) by {
        if adj0.cell(i, k) == 0 {
            assert(g2[dug.len() + edges0.len() - 1] == (i as u32, k as u32));
        } else {
            assert(has_link(g, i, k));
        }
    }
    assert(has_link(g2, j, k)) by {
        if adj0.cell(j, k) == 0 {
            assert(g2[g2.len() - 1] == (j as u32, k as u32));
        } else {
            assert(has_link(g, j, k));
        }
    }
    assert forall|a: int, b: int| 0 <= a < n && 0 <= b < n implies (#[trigger] adj2.cell(a, b) == 0 || adj2.cell(a, b) == 1)
        && (adj2.cell(a, b) == 1 ==> has_link(g2, a, b)) by {
        assert(adj0.cell(a, b) == 0 || adj0.cell(a, b) == 1);
        if adj2.cell(a, b) == 1 {
            if same_pair(i, k, a, b) && adj0.cell(i, k) == 0 || same_pair(j, k, a, b) && adj0.cell(j, k) == 0 {
                lemma_linked_link(g2, i, k);
                lemma_linked_link(g2, j, k);
                if a == k && b == i {
                    let u = choose|u: int| 0 <= u < g2.len() && ((#[trigger] g2[u]).0 == i && g2[u].1 == k || g2[u].0 == k && g2[u].1 == i);
                }
                if a == k && b == j {
                    let u = choose|u: int| 0 <= u < g2.len() && ((#[trigger] g2[u]).0 == j && g2[u].1 == k || g2[u].0 == k && g2[u].1 == j);
                }
            } else {
                assert(adj0.cell(a, b) == 1);
            }
        }
    }
}

/// One step of tunnelling: the tunnel drawn for the pending pair `i`-`j` is dug when no other
/// room lies across it (the result is then the room count); otherwise the first room `k`
/// across it is returned, the pair is dropped, and tunnels `i`-`k` and `j`-`k` are queued
/// where those pairs are not yet tunnelled or pending.
pub fn route_edge(
    grid: &mut TagGrid,
    rooms: &Vec<RectRoom>,
    adjacency: &mut Grid<i8>,
    edges: &mut Vec<(u32, u32)>,
    i: u32,
    j: u32,
    tunnel: TunnelIter,
) -> (r: usize)
    requires
        old(grid).wf(),
        old(adjacency).wf(),
        old(adjacency).spec_dims() == (Vec2 { x: rooms@.len() as i32, y: rooms@.len() as i32 }),
        rooms@.len() <= 0x8000,
        i < rooms@.len() && j < rooms@.len() && i != j,
        forall|q: int| 0 <= q < rooms@.len() ==> (#[trigger] rooms@[q]).is_small(),
        small(tunnel.current),
        small(tunnel.end),
        small(tunnel.corner),
        l_corner(tunnel.current, tunnel.end, tunnel.corner),
        forall|x: int, y: int|
            between(x, tunnel.current.x as int, tunnel.end.x as int) && between(y, tunnel.current.y as int, tunnel.end.y as int)
                ==> old(grid).in_bounds(x, y),
    ensures
        r <= rooms@.len(),
        r == rooms@.len() <==> forall|q: int| 0 <= q < rooms@.len() ==> !#[trigger] blocks_tunnel(rooms@, i as int, j as int, tunnel, q),
        r < rooms@.len() ==> blocks_tunnel(rooms@, i as int, j as int, tunnel, r as int) && forall|q: int|
            0 <= q < r ==> !#[trigger] blocks_tunnel(rooms@, i as int, j as int, tunnel, q),
        final(grid).wf(),
        final(grid).spec_dims() == old(grid).spec_dims(),
        r == rooms@.len() ==> {
            &&& *final(adjacency) == *old(adjacency)
            &&& final(edges)@ == old(edges)@
            &&& forall|x: int, y: int|
                old(grid).in_bounds(x, y) ==> #[trigger] final(grid).cell(x, y) == if tunnel_dug(
                    tunnel.current,
                    tunnel.corner,
                    tunnel.end,
                    x,
                    y,
                ) {
                    None
                } else {
                    old(grid).cell(x, y)
                }
            &&& forall|x: int, y: int|
                old(grid).in_bounds(x, y) && #[trigger] final(grid).cell(x, y) != old(grid).cell(x, y) ==> between(
                    x,
                    tunnel.current.x as int,
                    tunnel.end.x as int,
                ) && between(y, tunnel.current.y as int, tunnel.end.y as int)
        },
        r < rooms@.len() ==> {
            &&& *final(grid) == *old(grid)
            &&& rerouted_adj(*old(adjacency), *final(adjacency), i as int, j as int, r as int)
            &&& final(edges)@ == rerouted_edges(old(edges)@, *old(adjacency), i, j, r as u32)
        },
{
    let n = rooms.len();
    let blocker = tunnel_blocker(rooms, i as usize, j as usize, &tunnel);
    if blocker < n {
        let k = blocker as u32;
        let ghost adj0 = *adjacency;
        let ghost edges0 = edges@;
        proof {
            adj0.lemma_len();
            assert(k != i && k != j);
        }
        // avoid duplicate edges to the same pair of rooms
        adjacency.set(Vec2::new(i as i32, j as i32), 0i8);
        adjacency.set(Vec2::new(j as i32, i as i32), 0i8);
        let ik = *adjacency.get(Vec2::new(i as i32, k as i32));
        proof {
            assert(ik == adj0.cell(i as int, k as int));
        }
        if ik == 0 {
            adjacency.set(Vec2::new(i as i32, k as i32), 1i8);
            adjacency.set(Vec2::new(k as i32, i as i32), 1i8);
            edges.push((i, k));
        }
        let jk = *adjacency.get(Vec2::new(j as i32, k as i32));
        proof {
            assert(jk == adj0.cell(j as int, k as int));
        }
        if jk == 0 {
            adjacency.set(Vec2::new(j as i32, k as i32), 1i8);
            adjacency.set(Vec2::new(k as i32, j as i32), 1i8);
            edges.push((j, k));
        }
        proof {
            assert(edges@ =~= rerouted_edges(edges0, adj0, i, j, k));
            assert forall|a: int, b: int| adj0.in_bounds(a, b) implies #[trigger] adjacency.cell(a, b) == if same_pair(
                i as int,
                j as int,
                a,
                b,
            ) {
                0i8
            } else if same_pair(i as int, k as int, a, b) && adj0.cell(i as int, k as int) == 0 || same_pair(j as int, k as int, a, b)
                && adj0.cell(j as int, k as int) == 0 {
                1i8
            } else {
                adj0.cell(a, b)
            } by {
            }
        }
    } else {
        proof {
            assert forall|q: int| 0 <= q < rooms@.len() implies !#[trigger] blocks_tunnel(rooms@, i as int, j as int, tunnel, q) by {}
        }
        dig_tunnel(grid, tunnel);
    }
    blocker
}

/// Dig tunnels between the rooms along `tree_edges`, which join every room to the first.
/// The corner of each tunnel is drawn; a tunnel that would cut through a third room is
/// replaced by tunnels from its two rooms to that room (each pair of rooms tunnelled at most
/// once). Tunnels only ever empty cells, three or more cells away from the border. On success
/// the dug tunnels join every room to the first; otherwise the reroutes exceeded their cap.
fn join_rooms(rng: &mut ThreadRng, grid: &mut TagGrid, rooms: &Vec<RectRoom>, tree_edges: Vec<(u32, u32)>) -> (r: Result<
    (),
    MapGenError,
>)
    requires
        old(grid).wf(),
        old(grid).spec_width() <= 0x1000_0000,
        old(grid).spec_height() <= 0x1000_0000,
        2 <= rooms@.len() <= 0x8000,
        forall|k: int|
            0 <= k < rooms@.len() ==> room_placed(#[trigger] rooms@[k], old(grid).spec_width(), old(grid).spec_height()),
        forall|u: int|
            0 <= u < tree_edges@.len() ==> (#[trigger] tree_edges@[u]).0 < rooms@.len() && tree_edges@[u].1 < rooms@.len()
                && tree_edges@[u].0 != tree_edges@[u].1,
        forall|x: int| 0 <= x < rooms@.len() ==> #[trigger] linked(tree_edges@, 0, x),
    ensures
        final(grid).wf(),
        final(grid).spec_dims() == old(grid).spec_dims(),
        r is Err ==> r == Err::<(), MapGenError>(MapGenError::TunnelsDidNotSettle),
        forall|x: int, y: int|
            old(grid).in_bounds(x, y) && #[trigger] final(grid).cell(x, y) != old(grid).cell(x, y) ==> final(grid).cell(x, y)
                is None && 3 <= x <= old(grid).spec_width() - 5 && 3 <= y <= old(grid).spec_height() - 5,
        r is Ok ==> exists|dug: Seq<(u32, u32)>, corners: Seq<Vec2>|
            #[trigger] tunnels_join(rooms@, dug, corners, *final(grid)),
{
    let ghost g0 = *old(grid);
    let w = grid.width();
    let h = grid.height();
    let n = rooms.len();
    proof {
        assert(n * n <= 0x4000_0000) by (nonlinear_arith)
            requires
                n <= 0x8000,
        ;
    }
    let mut edges = tree_edges;
    let mut adjacency: Grid<i8> = Grid::new(Vec2::splat(n as i32));
    adjacency.fill(0);
    proof {
        adjacency.lemma_len();
        assert forall|a: int, b: int| 0 <= a < n && 0 <= b < n implies (#[trigger] adjacency.cell(a, b) == 0 || adjacency.cell(a, b)
            == 1) && (adjacency.cell(a, b) == 1 ==> has_link(edges@, a, b)) by {
            crate::grid::lemma_cell_offset(n as int, n as int, a, b);
        }
    }
    let mut e: usize = 0;
    while e < edges.len()
        invariant
            2 <= n <= 0x8000,
            n == rooms@.len(),
            n * n <= 0x4000_0000,
            adjacency.wf(),
            adjacency.spec_dims() == (Vec2 { x: n as i32, y: n as i32 }),
            forall|u: int| 0 <= u < edges@.len() ==> (#[trigger] edges@[u]).0 < n && edges@[u].1 < n,
            adj_ok(adjacency, edges@, n as int),
        decreases edges@.len() - e,
    {
        let (i, j) = edges[e];
        proof {
            assert(has_link(edges@, i as int, j as int) && has_link(edges@, j as int, i as int)) by {
                assert(edges@[e as int] == (i, j));
            }
        }
        adjacency.set(Vec2::new(i as i32, j as i32), 1i8);
        adjacency.set(Vec2::new(j as i32, i as i32), 1i8);
        e = e + 1;
    }
    proof {
        assert(n * n * n <= 0x2000_0000_0000) by (nonlinear_arith)
            requires
                n <= 0x8000,
                n * n <= 0x4000_0000,
        ;
    }
    let ghost mut dug: Seq<(u32, u32)> = Seq::empty();
    let ghost mut corners: Seq<Vec2> = Seq::empty();
    proof {
        assert(dug + edges@ =~= edges@);
    }
    let mut fuel: u64 = (n as u64) * (n as u64) * (n as u64) + 16;
    loop
        invariant
            grid.wf(),
            g0.wf(),
            grid.spec_dims() == g0.spec_dims(),
            w == g0.spec_width(),
            h == g0.spec_height(),
            w <= 0x1000_0000,
            h <= 0x1000_0000,
            n == rooms@.len(),
            2 <= n <= 0x8000,
            forall|k: int| 0 <= k < rooms@.len() ==> room_placed(#[trigger] rooms@[k], w as int, h as int),
            adjacency.wf(),
            adjacency.spec_dims() == (Vec2 { x: n as i32, y: n as i32 }),
            forall|u: int|
                0 <= u < edges@.len() ==> (#[trigger] edges@[u]).0 < n && edges@[u].1 < n && edges@[u].0 != edges@[u].1,
            forall|x: int, y: int|
                g0.in_bounds(x, y) && #[trigger] grid.cell(x, y) != g0.cell(x, y) ==> grid.cell(x, y) is None && 3 <= x <= w - 5
                    && 3 <= y <= h - 5,
            tunnels_open(rooms@, dug, corners, *grid),
            forall|x: int| 0 <= x < n ==> #[trigger] linked(dug + edges@, 0, x),
            adj_ok(adjacency, dug + edges@, n as int),
        ensures
            edges@.len() == 0 ==> tunnels_join(rooms@, dug, corners, *grid),
            edges@.len() != 0 ==> fuel == 0,
        decreases fuel,
    {
        if edges.len() == 0 {
            proof {
                assert(dug + edges@ =~= dug);
            }
            break;
        }
        if fuel == 0 {
            break;
        }
        fuel = fuel - 1;
        let ghost edges0 = edges@;
        let ghost g_links = dug + edges0;
        let (i, j) = match edges.pop() {
            Some(edge) => edge,
            None => {
                break;
            },
        };
        proof {
            assert(edges0.last() == (i, j));
            assert(edges@ =~= edges0.drop_last());
        }
        let r1 = rooms[i as usize];
        let r2 = rooms[j as usize];
        proof {
            assert(room_placed(rooms@[i as int], w as int, h as int));
            assert(room_placed(rooms@[j as int], w as int, h as int));
        }
        let c1 = r1.center();
        let c2 = r2.center();
        // if the tunnel would cut through a room replace it with two tunnels
        let tunnel = tunnel_between(rng, c1, c2);
        proof {
            assert forall|q: int| 0 <= q < rooms@.len() implies (#[trigger] rooms@[q]).is_small() by {
                assert(room_placed(rooms@[q], w as int, h as int));
            }
        }
        let ghost adj0 = adjacency;
        let ghost before = *grid;
        let ghost corner = tunnel.corner;
        proof {
            assert(forall|x: int, y: int|
                between(x, c1.x as int, c2.x as int) && between(y, c1.y as int, c2.y as int) ==> before.in_bounds(x, y));
        }
        let blocker = route_edge(grid, rooms, &mut adjacency, &mut edges, i, j, tunnel);
        if blocker < n {
            proof {
                let k = blocker as int;
                lemma_reroute_links(dug, edges0, edges@, adj0, adjacency, i as int, j as int, k, n as int);
                let g2 = dug + edges@;
                lemma_linked_link(g2, i as int, k);
                lemma_linked_link(g2, j as int, k);
                lemma_linked_trans(g2, i as int, k, j as int);
                assert forall|x: int| 0 <= x < n implies #[trigger] linked(g2, 0, x) by {
                    assert(linked(g_links, 0, x));
                    let p = choose|p: Seq<int>| #[trigger] is_route(g_links, p) && p[0] == 0 && p.last() == x;
                    lemma_route_transfer(g_links, g2, p, i as int, j as int);
                }
            }
        } else {
            proof {
                let g2 = *grid;
                assert(adjacency == adj0);
                lemma_dig_links(dug, edges0);
                let dug2 = dug.push((i, j));
                let corners2 = corners.push(corner);
                assert(dug2 + edges@ =~= dug.push(edges0.last()) + edges0.drop_last());
                let links2 = dug2 + edges@;
                assert(has_link(links2, i as int, j as int)) by {
                    assert(links2[dug.len() as int] == (i, j));
                }
                lemma_linked_link(links2, i as int, j as int);
                assert forall|x: int| 0 <= x < n implies #[trigger] linked(links2, 0, x) by {
                    assert(linked(g_links, 0, x));
                    let p = choose|p: Seq<int>| #[trigger] is_route(g_links, p) && p[0] == 0 && p.last() == x;
                    lemma_route_transfer(g_links, links2, p, i as int, j as int);
                }
                assert forall|x: int, y: int|
                    g0.in_bounds(x, y) && #[trigger] g2.cell(x, y) != g0.cell(x, y) implies g2.cell(x, y) is None && 3 <= x <= w - 5
                        && 3 <= y <= h - 5 by {
                    if g2.cell(x, y) != before.cell(x, y) {
                        assert(between(x, c1.x as int, c2.x as int) && between(y, c1.y as int, c2.y as int));
                    }
                }
                assert(no_new_walls(before, g2)) by {
                    assert forall|x: int, y: int|
                        before.in_bounds(x, y) && before.cell(x, y) != Some(StuffTag::Wall) implies #[trigger] g2.cell(x, y)
                            != Some(StuffTag::Wall) by {}
                }
                lemma_tunnels_stay(rooms@, dug, corners, before, g2);
                assert(tunnels_open(rooms@, dug2, corners2, g2)) by {
                    assert forall|u: int| #![trigger dug2[u]] 0 <= u < dug2.len() implies {
                        let ca = rooms@[dug2[u].0 as int].spec_center();
                        let cb = rooms@[dug2[u].1 as int].spec_center();
                        &&& dug2[u].0 < rooms@.len()
                        &&& dug2[u].1 < rooms@.len()
                        &&& l_corner(ca, cb, corners2[u])
                        &&& forall|x: int, y: int|
                            g2.in_bounds(x, y) && tunnel_dug(ca, corners2[u], cb, x, y) ==> #[trigger] g2.cell(x, y) != Some(
                                StuffTag::Wall,
                            )
                    } by {
                        if u < dug.len() {
                            assert(dug2[u] == dug[u] && corners2[u] == corners[u]);
                        } else {
                            assert(dug2[u] == (i, j) && corners2[u] == corner);
                        }
                    }
                }
                dug = dug2;
                corners = corners2;
            }
        }
    }
    if edges.len() != 0 {
        return Err(MapGenError::TunnelsDidNotSettle);
    }
    Ok(())
}

/// Every ring cell around a room holds something: the gaps that tunnels cut were filled.
pub open spec fn rings_closed(g: TagGrid, rooms: Seq<RectRoom>) -> bool {
    forall|k: int, x: int, y: int|
        0 <= k < rooms.len() && g.in_bounds(x, y) && on_edge(#[trigger] rooms[k], x, y) ==> #[trigger] g.cell(x, y) is Some
}

/// Every cell that holds a monster or an item it did not hold in `before` lies in the
/// interior of one of the rooms.
pub open spec fn contents_in_rooms(before: TagGrid, after: TagGrid, rooms: Seq<RectRoom>) -> bool {
    forall|x: int, y: int|
        before.in_bounds(x, y) && #[trigger] after.cell(x, y) != before.cell(x, y) && after.cell(x, y) is Some
            && is_spawnable(after.cell(x, y)->0) ==> exists|k: int| 0 <= k < rooms.len() && in_interior(#[trigger] rooms[k], x, y)
}

/// Every cell that held something still holds something.
pub open spec fn no_new_gaps(before: TagGrid, after: TagGrid) -> bool {
    forall|x: int, y: int| before.in_bounds(x, y) && before.cell(x, y) is Some ==> #[trigger] after.cell(x, y) is Some
}

/// What furnishing changes: the border stays, no wall goes up, nothing that was there goes
/// away, and what is new is a door, the player, the stairs, or a monster or item in a room.
pub open spec fn furnished(before: TagGrid, after: TagGrid, rooms: Seq<RectRoom>) -> bool {
    &&& after.wf()
    &&& border_kept(before, after)
    &&& no_new_walls(before, after)
    &&& no_new_gaps(before, after)
    &&& contents_in_rooms(before, after, rooms)
}

proof fn lemma_furnished_trans(g0: TagGrid, g1: TagGrid, g2: TagGrid, rooms: Seq<RectRoom>)
    requires
        furnished(g0, g1, rooms),
        furnished(g1, g2, rooms),
    ensures
        furnished(g0, g2, rooms),
{
    lemma_border_trans(g0, g1, g2);
    assert forall|x: int, y: int| g0.in_bounds(x, y) && g0.cell(x, y) != Some(StuffTag::Wall) implies #[trigger] g2.cell(x, y)
        != Some(StuffTag::Wall) by {
        assert(g1.cell(x, y) != Some(StuffTag::Wall));
    }
    assert forall|x: int, y: int| g0.in_bounds(x, y) && g0.cell(x, y) is Some implies #[trigger] g2.cell(x, y) is Some by {
        assert(g1.cell(x, y) is Some);
    }
    assert forall|x: int, y: int|
        g0.in_bounds(x, y) && #[trigger] g2.cell(x, y) != g0.cell(x, y) && g2.cell(x, y) is Some && is_spawnable(g2.cell(x, y)->0)
            implies exists|k: int| 0 <= k < rooms.len() && in_interior(#[trigger] rooms[k], x, y) by {
        if g2.cell(x, y) == g1.cell(x, y) {
            assert(g1.cell(x, y) != g0.cell(x, y));
        }
    }
}

/// Rings stay closed while nothing goes away.
proof fn lemma_rings_kept(g1: TagGrid, g2: TagGrid, rooms: Seq<RectRoom>)
    requires
        rings_closed(g1, rooms),
        no_new_gaps(g1, g2),
        g2.spec_dims() == g1.spec_dims(),
    ensures
        rings_closed(g2, rooms),
{
    assert forall|k: int, x: int, y: int|
        0 <= k < rooms.len() && g2.in_bounds(x, y) && on_edge(#[trigger] rooms[k], x, y) implies #[trigger] g2.cell(x, y)
            is Some by {
        assert(g1.cell(x, y) is Some);
    }
}

/// Setting one cell off the border, to something that is neither empty, a wall nor a monster
/// or item, furnishes the grid.
proof fn lemma_set_furnished(before: TagGrid, after: TagGrid, p: Vec2, v: StuffTag, rooms: Seq<RectRoom>)
    requires
        before.wf(),
        after.wf(),
        before.in_bounds(p.x as int, p.y as int),
        1 <= p.x <= before.spec_width() - 2,
        1 <= p.y <= before.spec_height() - 2,
        after.spec_dims() == before.spec_dims(),
        forall|x: int, y: int| before.in_bounds(x, y) ==> #[trigger] after.cell(x, y) == if x == p.x && y == p.y {
            Some(v)
        } else {
            before.cell(x, y)
        },
        v != StuffTag::Wall,
        !is_spawnable(v),
    ensures
        furnished(before, after, rooms),
{
    lemma_inner_change(before, after, p.x as int, p.x as int, p.y as int, p.y as int);
}

/// Filling empty interior cells of a room with monsters or items furnishes the grid.
proof fn lemma_placed_furnished(before: TagGrid, after: TagGrid, room: RectRoom, kinds: Seq<StuffTag>, rooms: Seq<RectRoom>, q: int)
    requires
        before.wf(),
        placed_within(before, after, room, kinds),
        room_placed(room, before.spec_width(), before.spec_height()),
        forall|i: int| 0 <= i < kinds.len() ==> is_spawnable(#[trigger] kinds[i]),
        0 <= q < rooms.len(),
        rooms[q] == room,
    ensures
        furnished(before, after, rooms),
{
    lemma_placed_border(before, after, room, kinds);
    assert forall|x: int, y: int| before.in_bounds(x, y) && before.cell(x, y) != Some(StuffTag::Wall) implies #[trigger] after.cell(x, y)
        != Some(StuffTag::Wall) by {
        if after.cell(x, y) != before.cell(x, y) {
            let t = after.cell(x, y)->0;
            let i = choose|i: int| 0 <= i < kinds.len() && kinds[i] == t;
            assert(is_spawnable(kinds[i]));
        }
    }
    assert forall|x: int, y: int|
        before.in_bounds(x, y) && #[trigger] after.cell(x, y) != before.cell(x, y) && after.cell(x, y) is Some && is_spawnable(
            after.cell(x, y)->0,
        ) implies exists|k: int| 0 <= k < rooms.len() && in_interior(#[trigger] rooms[k], x, y) by {
        assert(in_interior(rooms[q], x, y));
    }
}

/// Put doors in the gaps of the room walls, the player in the center of the first room (with
/// a starting item on floor 1), monsters and items in the other rooms, and the stairs in a
/// room drawn from the other rooms. Fails with `NoRoomForStairs`, the stairs missing, exactly
/// when the drawn room has no empty interior cell left; otherwise returns the stairs.
fn furnish(rng: &mut ThreadRng, grid: &mut TagGrid, rooms: &Vec<RectRoom>, props: &MapGenProps, floor: u32) -> (r: Result<
    Vec2,
    MapGenError,
>)
    requires
        old(grid).wf(),
        old(grid).spec_width() <= 0x1000_0000,
        old(grid).spec_height() <= 0x1000_0000,
        2 <= rooms@.len() <= 0x8000,
        forall|k: int|
            0 <= k < rooms@.len() ==> room_placed(#[trigger] rooms@[k], old(grid).spec_width(), old(grid).spec_height()),
        no_cell_holds(*old(grid), StuffTag::Player),
        no_cell_holds(*old(grid), StuffTag::Stairs),
        rooms_open(*old(grid), rooms@),
    ensures
        final(grid).spec_dims() == old(grid).spec_dims(),
        furnished(*old(grid), *final(grid), rooms@),
        rings_closed(*final(grid), rooms@),
        rooms_open(*final(grid), rooms@),
        only_cell_holds(*final(grid), StuffTag::Player, rooms@[0].spec_center()),
        r is Err ==> r == Err::<Vec2, MapGenError>(MapGenError::NoRoomForStairs) && no_cell_holds(*final(grid), StuffTag::Stairs)
            && exists|k: int|
            1 <= k < rooms@.len() && forall|x: int, y: int|
                in_interior(#[trigger] rooms@[k], x, y) ==> #[trigger] final(grid).cell(x, y) is Some,
        r matches Ok(p) ==> {
            &&& only_cell_holds(*final(grid), StuffTag::Stairs, p)
            &&& exists|k: int| 1 <= k < rooms@.len() && in_interior(#[trigger] rooms@[k], p.x as int, p.y as int)
        },
{
    let ghost g0 = *old(grid);
    let w = grid.width();
    let h = grid.height();
    let n = rooms.len();
    let ghost before_doors = *grid;
    place_doors(grid, rooms);
    proof {
        let g1 = before_doors;
        let g2 = *grid;
        assert forall|x: int, y: int| g1.in_bounds(x, y) implies #[trigger] g2.cell(x, y) == g1.cell(x, y)
            || g2.cell(x, y) == Some(StuffTag::Door) by {}
        assert(no_cell_holds(g2, StuffTag::Player));
        assert(no_cell_holds(g2, StuffTag::Stairs));
        assert forall|k: int, x: int, y: int|
            0 <= k < rooms@.len() && (#[trigger] rooms@[k]).covers(x, y) && g2.in_bounds(x, y) implies #[trigger] g2.cell(x, y)
                != Some(StuffTag::Wall) by {
            assert(g1.cell(x, y) != Some(StuffTag::Wall));
        }
        assert forall|x: int, y: int|
            g1.in_bounds(x, y) && !(2 <= x <= w - 4 && 2 <= y <= h - 4) implies #[trigger] g2.cell(x, y) == g1.cell(x, y) by {
            if exists|k: int| 0 <= k < rooms@.len() && on_edge(#[trigger] rooms@[k], x, y) {
                let k = choose|k: int| 0 <= k < rooms@.len() && on_edge(#[trigger] rooms@[k], x, y);
                assert(room_placed(rooms@[k], w as int, h as int));
            }
        }
        lemma_inner_change(g1, g2, 2, w - 4, 2, h - 4);
        assert(furnished(g1, g2, rooms@)) by {
            assert forall|x: int, y: int| g1.in_bounds(x, y) && g1.cell(x, y) != Some(StuffTag::Wall) implies #[trigger] g2.cell(x, y)
                != Some(StuffTag::Wall) by {}
            assert forall|x: int, y: int| g1.in_bounds(x, y) && g1.cell(x, y) is Some implies #[trigger] g2.cell(x, y) is Some by {}
        }
        assert(rings_closed(g2, rooms@)) by {
            assert forall|k: int, x: int, y: int|
                0 <= k < rooms@.len() && g2.in_bounds(x, y) && on_edge(#[trigger] rooms@[k], x, y) implies #[trigger] g2.cell(x, y)
                    is Some by {
                if g1.cell(x, y) is None {
                    assert(exists|kk: int| 0 <= kk < rooms@.len() && on_edge(#[trigger] rooms@[kk], x, y));
                }
            }
        }
        assert(g0 == g1);
    }

    let entity_weights = EntityChances::from_level(floor);
    let first = rooms[0];
    proof {
        assert(room_placed(rooms@[0], w as int, h as int));
    }
    let c0 = first.center();
    if floor == 1 {
        // give a starting item on floor 1
        let ghost before = *grid;
        place_items(rng, grid, &first, 1, 1, &entity_weights);
        proof {
            lemma_placed_furnished(before, *grid, first, entity_weights.item_tags@, rooms@, 0);
            lemma_furnished_trans(g0, before, *grid, rooms@);
            lemma_rings_kept(before, *grid, rooms@);
            lemma_placed_border(before, *grid, first, entity_weights.item_tags@);
            lemma_border_trans(g0, before, *grid);
            lemma_placed_keeps(before, *grid, first, entity_weights.item_tags@, c0, rooms@);
        }
    }
    // spawn the player in the first room
    let ghost before = *grid;
    grid.set(c0, Some(StuffTag::Player));
    proof {
        lemma_set_furnished(before, *grid, c0, StuffTag::Player, rooms@);
        lemma_furnished_trans(g0, before, *grid, rooms@);
        assert forall|k: int, x: int, y: int|
            0 <= k < rooms@.len() && grid.in_bounds(x, y) && on_edge(#[trigger] rooms@[k], x, y) implies #[trigger] grid.cell(x, y)
                is Some by {
            assert(before.cell(x, y) is Some);
        }
        lemma_inner_change(before, *grid, c0.x as int, c0.x as int, c0.y as int, c0.y as int);
        lemma_border_trans(g0, before, *grid);
        lemma_set_other(before, *grid, c0, Some(StuffTag::Player), StuffTag::Stairs, c0, rooms@);
    }

    // place stuff
    let mut q: usize = 1;
    while q < n
        invariant
            grid.wf(),
            grid.spec_dims() == g0.spec_dims(),
            w == g0.spec_width(),
            h == g0.spec_height(),
            only_cell_holds(*grid, StuffTag::Player, c0),
            no_cell_holds(*grid, StuffTag::Stairs),
            rooms_open(*grid, rooms@),
            border_kept(g0, *grid),
            furnished(g0, *grid, rooms@),
            rings_closed(*grid, rooms@),
            entity_weights.wf(),
            n == rooms@.len(),
            forall|k: int| 0 <= k < rooms@.len() ==> room_placed(#[trigger] rooms@[k], w as int, h as int),
        decreases n - q,
    {
        let room = rooms[q];
        proof {
            assert(room_placed(rooms@[q as int], w as int, h as int));
        }
        let ghost before = *grid;
        place_entities(rng, grid, &room, props.max_monsters_per_floor, &entity_weights);
        proof {
            lemma_placed_furnished(before, *grid, room, entity_weights.enemy_tags@, rooms@, q as int);
            lemma_furnished_trans(g0, before, *grid, rooms@);
            lemma_rings_kept(before, *grid, rooms@);
            lemma_placed_border(before, *grid, room, entity_weights.enemy_tags@);
            lemma_border_trans(g0, before, *grid);
            lemma_placed_keeps(before, *grid, room, entity_weights.enemy_tags@, c0, rooms@);
        }
        let ghost before = *grid;
        place_items(rng, grid, &room, 0, props.max_items_per_floor, &entity_weights);
        proof {
            lemma_placed_furnished(before, *grid, room, entity_weights.item_tags@, rooms@, q as int);
            lemma_furnished_trans(g0, before, *grid, rooms@);
            lemma_rings_kept(before, *grid, rooms@);
            lemma_placed_border(before, *grid, room, entity_weights.item_tags@);
            lemma_border_trans(g0, before, *grid);
            lemma_placed_keeps(before, *grid, room, entity_weights.item_tags@, c0, rooms@);
        }
        q = q + 1;
    }

    let mut rest: Vec<RectRoom> = Vec::new();
    let mut q: usize = 1;
    while q < n
        invariant
            n == rooms@.len(),
            1 <= q <= n,
            rest@.len() == q - 1,
            forall|m: int| 0 <= m < rest@.len() ==> #[trigger] rest@[m] == rooms@[m + 1],
        decreases n - q,
    {
        rest.push(rooms[q]);
        q = q + 1;
    }
    let end_room = match choose_one(rng, &rest) {
        Some(room) => room,
        None => {
            return Err(MapGenError::TooFewRooms);
        },
    };
    let ghost end_index = choose|m: int| 0 <= m < rest@.len() && rest@[m] == end_room;
    proof {
        assert(rest@[end_index] == rooms@[end_index + 1]);
        assert(room_placed(rooms@[end_index + 1], w as int, h as int));
    }
    let ghost before = *grid;
    match place_stairs(rng, grid, &end_room) {
        None => {
            proof {
                assert(rooms@[end_index + 1] == end_room);
                assert forall|x: int, y: int|
                    in_interior(#[trigger] rooms@[end_index + 1], x, y) implies #[trigger] grid.cell(x, y) is Some by {
                    assert(before.cell(x, y) is Some);
                }
            }
            Err(MapGenError::NoRoomForStairs)
        },
        Some(p) => {
            proof {
                assert(before.cell(c0.x as int, c0.y as int) == Some(StuffTag::Player));
                lemma_set_other(before, *grid, p, Some(StuffTag::Stairs), StuffTag::Player, c0, rooms@);
                lemma_set_furnished(before, *grid, p, StuffTag::Stairs, rooms@);
                lemma_furnished_trans(g0, before, *grid, rooms@);
                assert forall|k: int, x: int, y: int|
                    0 <= k < rooms@.len() && grid.in_bounds(x, y) && on_edge(#[trigger] rooms@[k], x, y) implies #[trigger] grid.cell(x, y)
                        is Some by {
                    assert(before.cell(x, y) is Some);
                }
                assert(in_interior(rooms@[end_index + 1], p.x as int, p.y as int));
            }
            Ok(p)
        },
    }
}


/// What a laid-out dungeon holds: between 2 and `max_rooms` rooms, each placed with room to
/// spare and none touching an earlier one; no room holds a wall; the player alone at the
/// center of the first room and the stairs alone at `stairs`, inside another room; tunnels
/// join every room to the first; no ring cell around a room is empty; and every monster or
/// item new since `before` lies inside a room.
pub open spec fn layout_ok(rooms: Seq<RectRoom>, stairs: Vec2, before: TagGrid, after: TagGrid, max_rooms: u32) -> bool {
    &&& 2 <= rooms.len() <= max_rooms
    &&& forall|k: int|
        0 <= k < rooms.len() ==> room_placed(#[trigger] rooms[k], before.spec_width(), before.spec_height())
    &&& forall|a: int, b: int| 0 <= a < b < rooms.len() ==> !(#[trigger] rooms[b]).spec_touches(#[trigger] rooms[a])
    &&& rooms_open(after, rooms)
    &&& only_cell_holds(after, StuffTag::Player, rooms[0].spec_center())
    &&& only_cell_holds(after, StuffTag::Stairs, stairs)
    &&& exists|k: int| 1 <= k < rooms.len() && in_interior(#[trigger] rooms[k], stairs.x as int, stairs.y as int)
    &&& exists|dug: Seq<(u32, u32)>, corners: Seq<Vec2>| #[trigger] tunnels_join(rooms, dug, corners, after)
    &&& rings_closed(after, rooms)
    &&& contents_in_rooms(before, after, rooms)
}

/// The dungeon was laid out but for the stairs: at least two rooms, none holding a wall,
/// joined by open tunnels, their rings closed, contents inside rooms, no stairs anywhere, and
/// some room other than the first with no empty interior cell left for them.
pub open spec fn stairs_blocked(rooms: Seq<RectRoom>, before: TagGrid, after: TagGrid) -> bool {
    &&& rooms.len() >= 2
    &&& rooms_open(after, rooms)
    &&& exists|dug: Seq<(u32, u32)>, corners: Seq<Vec2>| #[trigger] tunnels_join(rooms, dug, corners, after)
    &&& rings_closed(after, rooms)
    &&& contents_in_rooms(before, after, rooms)
    &&& no_cell_holds(after, StuffTag::Stairs)
    &&& exists|k: int|
        1 <= k < rooms.len() && forall|x: int, y: int| in_interior(#[trigger] rooms[k], x, y) ==> #[trigger] after.cell(x, y) is Some
}

/// Lay out a dungeon on `grid`: carve rooms that keep apart from each other, join them with
/// L shaped tunnels along a spanning tree (a tunnel that would cut through a third room is
/// replaced by tunnels to that room), put doors in the gaps of the room walls, the player in
/// the center of the first room, monsters and items in the others, and the stairs in one of
/// them. The outer ring of the grid is left as it was.
///
/// Which rooms, corners and contents come is chance; what follows each draw is fixed by the
/// functions `room_fits` (kept rooms), `minimum_spanning_tree`, `route_edge` (the drawn tunnel
/// dug or rerouted, with `tunnel_blocker` and `dig_tunnel`), `place_doors`, `fill_empty`
/// (contents) and `place_stairs`. On success the tunnels join every room to the first. It fails with
/// `TooFewRooms` when fewer than two of the drawn rooms fit, with `NoRoomForStairs` when the
/// room drawn for the stairs has no empty interior cell left, and with `TunnelsDidNotSettle`
/// when rerouting exceeds its cap.
#[verifier::spinoff_prover]
#[verifier::rlimit(60)]
pub fn build_rooms(grid: &mut TagGrid, props: &MapGenProps, floor: u32) -> (r: Result<
    DungeonLayout,
    MapGenError,
>)
    requires
        old(grid).wf(),
        props_fit(*props, old(grid).spec_width(), old(grid).spec_height()),
        no_cell_holds(*old(grid), StuffTag::Player),
        no_cell_holds(*old(grid), StuffTag::Stairs),
    ensures
        final(grid).wf(),
        final(grid).spec_dims() == old(grid).spec_dims(),
        props.max_rooms < 2 ==> r == Err::<DungeonLayout, MapGenError>(MapGenError::TooFewRooms),
        border_kept(*old(grid), *final(grid)),
        exists|cands: Seq<RectRoom>|
            #![trigger kept_rooms(cands)]
            cands.len() == props.max_rooms && (forall|k: int|
                0 <= k < cands.len() ==> drawn_room(
                    *props,
                    old(grid).spec_width(),
                    old(grid).spec_height(),
                    #[trigger] cands[k],
                )) && (r == Err::<DungeonLayout, MapGenError>(MapGenError::TooFewRooms) <==> kept_rooms(cands).len()
                < 2) && (r matches Ok(layout) ==> layout.rooms@ == kept_rooms(cands)) && (r
                == Err::<DungeonLayout, MapGenError>(MapGenError::TunnelsDidNotSettle) ==> kept_rooms(cands).len() >= 2
                && rooms_open(*final(grid), kept_rooms(cands))) && (r == Err::<DungeonLayout, MapGenError>(
                MapGenError::NoRoomForStairs,
            ) ==> stairs_blocked(kept_rooms(cands), *old(grid), *final(grid))),
        r matches Ok(layout) ==> layout_ok(layout.rooms@, layout.stairs, *old(grid), *final(grid), props.max_rooms),
{
    let mut rng = thread_rng();
    let w = grid.width();
    let h = grid.height();
    proof {
        grid.lemma_len();
        assert(w <= 0x1000_0000) by (nonlinear_arith)
            requires
                w * h <= i32::MAX,
                h >= 9,
                w >= 0,
        ;
        assert(h <= 0x1000_0000) by (nonlinear_arith)
            requires
                w * h <= i32::MAX,
                w >= 9,
                h >= 0,
        ;
    }
    let ghost g0 = *old(grid);
    let mut rooms: Vec<RectRoom> = Vec::new();
    let mut attempt: u32 = 0;
    let ghost mut cands: Seq<RectRoom> = Seq::empty();
    while attempt < props.max_rooms
        invariant
            grid.wf(),
            grid.spec_dims() == g0.spec_dims(),
            w == g0.spec_width(),
            h == g0.spec_height(),
            w <= 0x1000_0000,
            h <= 0x1000_0000,
            props_fit(*props, w as int, h as int),
            no_cell_holds(*grid, StuffTag::Player),
            no_cell_holds(*grid, StuffTag::Stairs),
            rooms_open(*grid, rooms@),
            rooms@.len() <= attempt <= props.max_rooms,
            border_kept(g0, *grid),
            forall|x: int, y: int| g0.in_bounds(x, y) && #[trigger] grid.cell(x, y) != g0.cell(x, y) ==> grid.cell(x, y) is None,
            cands.len() == attempt,
            rooms@ == kept_rooms(cands),
            forall|k: int| 0 <= k < cands.len() ==> drawn_room(*props, w as int, h as int, #[trigger] cands[k]),
            forall|k: int| 0 <= k < rooms@.len() ==> room_placed(#[trigger] rooms@[k], w as int, h as int),
            forall|a: int, b: int|
                0 <= a < b < rooms@.len() ==> !(#[trigger] rooms@[b]).spec_touches(#[trigger] rooms@[a]),
        decreases props.max_rooms - attempt,
    {
        let width = gen_range(&mut rng, props.room_min_size as i64, props.room_max_size as i64) as i32;
        let height = gen_range(&mut rng, props.room_min_size as i64, props.room_max_size as i64) as i32;

        // -3 so all rooms have walls, even those that touch the end of the map
        let x = gen_range(&mut rng, 3, (w - 1 - 3 - width) as i64) as i32;
        let y = gen_range(&mut rng, 3, (h - 1 - 3 - height) as i64) as i32;

        let room = RectRoom::new(x, y, width, height);
        proof {
            assert forall|q: int| 0 <= q < rooms@.len() implies (#[trigger] rooms@[q]).is_small() by {
                assert(room_placed(rooms@[q], w as int, h as int));
            }
        }
        let fits = room_fits(&rooms, &room);
        proof {
            let c2 = cands.push(room);
            assert(c2.drop_last() =~= cands);
            assert(c2.last() == room);
            assert forall|k: int| 0 <= k < c2.len() implies drawn_room(*props, w as int, h as int, #[trigger] c2[k]) by {
                if k < cands.len() {
                    assert(c2[k] == cands[k]);
                }
            }
            cands = c2;
        }
        if fits {
            let ghost before = *grid;
            room.carve(grid);
            proof {
                lemma_inner_change(before, *grid, room.min.x as int, room.max.x as int, room.min.y as int, room.max.y as int);
                lemma_border_trans(g0, before, *grid);
                assert forall|xx: int, yy: int| before.in_bounds(xx, yy) implies
                    #[trigger] grid.cell(xx, yy) != Some(StuffTag::Player)
                    && grid.cell(xx, yy) != Some(StuffTag::Stairs) by {
                    if room.covers(xx, yy) {
                        assert(call_ensures(Option::<StuffTag>::default, (), grid.cell(xx, yy)));
                    }
                }
                assert forall|x: int, y: int| g0.in_bounds(x, y) && #[trigger] grid.cell(x, y) != g0.cell(x, y) implies grid.cell(x, y)
                    is None by {
                    if room.covers(x, y) {
                        assert(call_ensures(Option::<StuffTag>::default, (), grid.cell(x, y)));
                    } else {
                        assert(grid.cell(x, y) == before.cell(x, y));
                    }
                }
            }
            let ghost old_rooms = rooms@;
            rooms.push(room);
            proof {
                assert forall|a: int, b: int| 0 <= a < b < rooms@.len() implies
                    !(#[trigger] rooms@[b]).spec_touches(#[trigger] rooms@[a]) by {
                    if b == old_rooms.len() {
                        assert(rooms@[b] == room);
                        assert(rooms@[a] == old_rooms[a]);
                    } else {
                        assert(rooms@[b] == old_rooms[b]);
                        assert(rooms@[a] == old_rooms[a]);
                    }
                }
                assert forall|q: int| 0 <= q < rooms@.len() implies room_placed(#[trigger] rooms@[q], w as int, h as int) by {
                    if q < old_rooms.len() {
                        assert(rooms@[q] == old_rooms[q]);
                    }
                }
            }
        }
        attempt = attempt + 1;
    }
    let n = rooms.len();
    if n < 2 {
        return Err(MapGenError::TooFewRooms);
    }
    proof {
        assert(n * n <= 0x4000_0000) by (nonlinear_arith)
            requires
                n <= 0x8000,
        ;
    }
    let tree = minimum_spanning_tree(&rooms);
    proof {
        assert forall|u: int| 0 <= u < tree.edges@.len() implies (#[trigger] tree.edges@[u]).0 < rooms@.len()
            && tree.edges@[u].1 < rooms@.len() && tree.edges@[u].0 != tree.edges@[u].1 by {
            let (a, b) = tree.edges@[u];
            assert(b < a);
        }
    }
    let ghost before_join = *grid;
    match join_rooms(&mut rng, grid, &rooms, tree.edges) {
        Err(e) => {
            proof {
                lemma_inner_change(before_join, *grid, 3, w - 5, 3, h - 5);
                lemma_border_trans(g0, before_join, *grid);
                assert forall|k: int, x: int, y: int|
                    0 <= k < rooms@.len() && (#[trigger] rooms@[k]).covers(x, y) && grid.in_bounds(x, y) implies #[trigger] grid.cell(x, y)
                        != Some(StuffTag::Wall) by {
                    assert(before_join.cell(x, y) != Some(StuffTag::Wall));
                }
            }
            return Err(e);
        },
        Ok(_) => {},
    }
    let ghost g_join = *grid;
    let ghost (dug, corners) = choose|dug: Seq<(u32, u32)>, corners: Seq<Vec2>| #[trigger] tunnels_join(rooms@, dug, corners, g_join);
    proof {
        lemma_inner_change(before_join, g_join, 3, w - 5, 3, h - 5);
        lemma_border_trans(g0, before_join, g_join);
        assert forall|x: int, y: int| g0.in_bounds(x, y) && #[trigger] g_join.cell(x, y) != g0.cell(x, y) implies g_join.cell(x, y)
            is None by {
            if g_join.cell(x, y) == before_join.cell(x, y) {
                assert(before_join.cell(x, y) != g0.cell(x, y));
            }
        }
        assert(no_cell_holds(g_join, StuffTag::Player)) by {
            assert forall|x: int, y: int| g_join.in_bounds(x, y) implies #[trigger] g_join.cell(x, y) != Some(StuffTag::Player) by {
                assert(before_join.cell(x, y) != Some(StuffTag::Player));
            }
        }
        assert(no_cell_holds(g_join, StuffTag::Stairs)) by {
            assert forall|x: int, y: int| g_join.in_bounds(x, y) implies #[trigger] g_join.cell(x, y) != Some(StuffTag::Stairs) by {
                assert(before_join.cell(x, y) != Some(StuffTag::Stairs));
            }
        }
        assert forall|k: int, x: int, y: int|
            0 <= k < rooms@.len() && (#[trigger] rooms@[k]).covers(x, y) && g_join.in_bounds(x, y) implies #[trigger] g_join.cell(x, y)
                != Some(StuffTag::Wall) by {
            assert(before_join.cell(x, y) != Some(StuffTag::Wall));
        }
    }
    match furnish(&mut rng, grid, &rooms, props, floor) {
        Err(e) => {
            proof {
                lemma_border_trans(g0, g_join, *grid);
                let k = choose|k: int|
                    1 <= k < rooms@.len() && forall|x: int, y: int|
                        in_interior(#[trigger] rooms@[k], x, y) ==> #[trigger] grid.cell(x, y) is Some;
                assert(kept_rooms(cands)[k] == rooms@[k]);
                assert(forall|x: int, y: int|
                    in_interior(#[trigger] kept_rooms(cands)[k], x, y) ==> #[trigger] grid.cell(x, y) is Some);
                assert(kept_rooms(cands).len() >= 2);
                lemma_tunnels_stay(rooms@, dug, corners, g_join, *grid);
                assert(tunnels_join(rooms@, dug, corners, *grid));
                assert forall|x: int, y: int|
                    g0.in_bounds(x, y) && #[trigger] grid.cell(x, y) != g0.cell(x, y) && grid.cell(x, y) is Some && is_spawnable(
                        grid.cell(x, y)->0,
                    ) implies exists|kk: int| 0 <= kk < rooms@.len() && in_interior(#[trigger] rooms@[kk], x, y) by {
                    if grid.cell(x, y) == g_join.cell(x, y) {
                        assert(g_join.cell(x, y) != g0.cell(x, y));
                    }
                }
                assert(stairs_blocked(rooms@, g0, *grid));
            }
            Err(e)
        },
        Ok(p) => {
            proof {
                lemma_border_trans(g0, g_join, *grid);
                lemma_tunnels_stay(rooms@, dug, corners, g_join, *grid);
                assert(tunnels_join(rooms@, dug, corners, *grid));
                assert forall|x: int, y: int|
                    g0.in_bounds(x, y) && #[trigger] grid.cell(x, y) != g0.cell(x, y) && grid.cell(x, y) is Some && is_spawnable(
                        grid.cell(x, y)->0,
                    ) implies exists|k: int| 0 <= k < rooms@.len() && in_interior(#[trigger] rooms@[k], x, y) by {
                    if grid.cell(x, y) == g_join.cell(x, y) {
                        assert(g_join.cell(x, y) != g0.cell(x, y));
                    }
                }
                assert(2 <= rooms@.len() <= props.max_rooms);
                assert(forall|k: int| 0 <= k < rooms@.len() ==> room_placed(#[trigger] rooms@[k], w as int, h as int));
                assert(rooms_open(*grid, rooms@));
                assert(only_cell_holds(*grid, StuffTag::Player, rooms@[0].spec_center()));
                assert(only_cell_holds(*grid, StuffTag::Stairs, p));
                assert(rings_closed(*grid, rooms@));
                assert(contents_in_rooms(g0, *grid, rooms@));
            }
            let layout = DungeonLayout { rooms, stairs: p };
            proof {
                let rs = layout.rooms@;
                assert(rs == rooms@);
                assert(rs == kept_rooms(cands));
                assert(tunnels_join(rs, dug, corners, *grid));
                assert(exists|dug: Seq<(u32, u32)>, corners: Seq<Vec2>| #[trigger] tunnels_join(rs, dug, corners, *grid));
                let k = choose|k: int| 1 <= k < rs.len() && in_interior(#[trigger] rs[k], p.x as int, p.y as int);
                assert(forall|a: int, b: int| 0 <= a < b < rs.len() ==> !(#[trigger] rs[b]).spec_touches(#[trigger] rs[a]));
                assert(layout_ok(rs, p, g0, *grid, props.max_rooms));
            }
            Ok(layout)
        },
    }
}


/// Exactly one entry spawns `t`.
pub open spec fn spawns_once(spawns: Seq<(Vec2, StuffTag)>, t: StuffTag) -> bool {
    &&& exists|i: int| 0 <= i < spawns.len() && (#[trigger] spawns[i]).1 == t
    &&& forall|i: int, j: int|
        0 <= i < spawns.len() && 0 <= j < spawns.len() && (#[trigger] spawns[i]).1 == t
            && (#[trigger] spawns[j]).1 == t ==> i == j
}

/// `s` lists what `spawn_list` lists for `g`: every cell to spawn, with its kind, row by row.
pub open spec fn lists_spawns(g: TagGrid, s: Seq<(Vec2, StuffTag)>) -> bool {
    &&& forall|i: int|
        0 <= i < s.len() ==> {
            let (p, t) = #[trigger] s[i];
            &&& g.in_bounds(p.x as int, p.y as int)
            &&& g.cell(p.x as int, p.y as int) == Some(t)
            &&& spawned(g, p.x as int, p.y as int)
        }
    &&& forall|i: int, j: int|
        0 <= i < j < s.len() ==> crate::grid::cell_offset(g.spec_width(), (#[trigger] s[i]).0.x as int, s[i].0.y as int)
            < crate::grid::cell_offset(g.spec_width(), (#[trigger] s[j]).0.x as int, s[j].0.y as int)
    &&& forall|x: int, y: int|
        g.in_bounds(x, y) && #[trigger] spawned(g, x, y) ==> exists|i: int|
            0 <= i < s.len() && (#[trigger] s[i]).0 == (Vec2 { x: x as i32, y: y as i32 })
}

/// `g` is a dungeon of `dims` laid out with `rooms`: its outer ring is rock, no room holds a
/// wall, tunnels join every room to the first, no ring cell around a room is empty, and
/// every monster or item lies inside a room.
pub open spec fn built_dungeon(g: TagGrid, dims: Vec2, rooms: Seq<RectRoom>) -> bool {
    &&& g.wf()
    &&& g.spec_dims() == dims
    &&& forall|x: int, y: int| g.in_bounds(x, y) && on_border(g, x, y) ==> #[trigger] g.cell(x, y) == Some(StuffTag::Wall)
    &&& rooms_open(g, rooms)
    &&& exists|dug: Seq<(u32, u32)>, corners: Seq<Vec2>| #[trigger] tunnels_join(rooms, dug, corners, g)
    &&& rings_closed(g, rooms)
    &&& forall|x: int, y: int|
        g.in_bounds(x, y) && #[trigger] g.cell(x, y) is Some && is_spawnable(g.cell(x, y)->0) ==> exists|k: int|
            0 <= k < rooms.len() && in_interior(#[trigger] rooms[k], x, y)
}

/// `g` is a grid of `dims` that is rock everywhere.
pub open spec fn all_rock(g: TagGrid, dims: Vec2) -> bool {
    &&& g.spec_dims() == dims
    &&& forall|x: int, y: int| g.in_bounds(x, y) ==> #[trigger] g.cell(x, y) == Some(StuffTag::Wall)
}

/// Generate the dungeon of `floor` on a grid of `dims`: everything starts out as rock, rooms,
/// tunnels and their contents are built into it, and the result lists what to spawn where
/// (see `spawn_list`), one thing per cell. Exactly one player and one staircase are among
/// them.
pub fn generate_map(dims: Vec2, props: &MapGenProps, floor: u32) -> (r: Result<
    Vec<(Vec2, StuffTag)>,
    MapGenError,
>)
    requires
        dims.x >= 0,
        dims.y >= 0,
        dims.x * dims.y <= i32::MAX,
        props_fit(*props, dims.x as int, dims.y as int),
    ensures
        props.max_rooms < 2 ==> r == Err::<Vec<(Vec2, StuffTag)>, MapGenError>(MapGenError::TooFewRooms),
        exists|cands: Seq<RectRoom>|
            #![trigger kept_rooms(cands)]
            cands.len() == props.max_rooms && (forall|k: int|
                0 <= k < cands.len() ==> drawn_room(*props, dims.x as int, dims.y as int, #[trigger] cands[k])) && (r
                == Err::<Vec<(Vec2, StuffTag)>, MapGenError>(MapGenError::TooFewRooms) <==> kept_rooms(cands).len() < 2) && (r
                == Err::<Vec<(Vec2, StuffTag)>, MapGenError>(MapGenError::TunnelsDidNotSettle) ==> kept_rooms(cands).len() >= 2)
                && (r == Err::<Vec<(Vec2, StuffTag)>, MapGenError>(MapGenError::NoRoomForStairs) ==> exists|g0: TagGrid, g: TagGrid|
                all_rock(g0, dims) && g.spec_dims() == dims && #[trigger] stairs_blocked(kept_rooms(cands), g0, g)) && (r matches Ok(
                spawns,
            ) ==> exists|g: TagGrid|
                #[trigger] built_dungeon(g, dims, kept_rooms(cands)) && lists_spawns(g, spawns@)),
        r matches Ok(spawns) ==> {
            &&& forall|i: int|
                0 <= i < spawns@.len() ==> 0 <= (#[trigger] spawns@[i]).0.x < dims.x && 0
                    <= spawns@[i].0.y < dims.y
            &&& forall|i: int, j: int|
                0 <= i < j < spawns@.len() ==> (#[trigger] spawns@[i]).0 != (#[trigger] spawns@[j]).0
            &&& spawns_once(spawns@, StuffTag::Player)
            &&& spawns_once(spawns@, StuffTag::Stairs)
            &&& forall|i: int|
                0 <= i < spawns@.len() && ((#[trigger] spawns@[i]).0.x == 0 || spawns@[i].0.y == 0
                    || spawns@[i].0.x == dims.x - 1 || spawns@[i].0.y == dims.y - 1) ==> spawns@[i].1
                    == StuffTag::Wall
        },
{
    let mut working_grid: TagGrid = Grid::new(dims);
    working_grid.fill(Some(StuffTag::Wall));
    proof {
        working_grid.lemma_len();
        assert forall|x: int, y: int| working_grid.in_bounds(x, y) implies #[trigger] working_grid.cell(
            x,
            y,
        ) == Some(StuffTag::Wall) by {
            crate::grid::lemma_cell_offset(working_grid.spec_width(), working_grid.spec_height(), x, y);
        }
    }
    let ghost filled = working_grid;
    let layout = match build_rooms(&mut working_grid, props, floor) {
        Ok(layout) => layout,
        Err(e) => {
            proof {
                assert(all_rock(filled, dims));
                assert(working_grid.spec_dims() == dims);
            }
            return Err(e);
        },
    };
    let spawns = spawn_list(&working_grid);
    proof {
        let g = working_grid;
        let cands = choose|cands: Seq<RectRoom>|
            #![trigger kept_rooms(cands)]
            cands.len() == props.max_rooms && (forall|k: int|
                0 <= k < cands.len() ==> drawn_room(*props, filled.spec_width(), filled.spec_height(), #[trigger] cands[k]))
                && (Ok::<DungeonLayout, MapGenError>(layout) == Err::<DungeonLayout, MapGenError>(MapGenError::TooFewRooms)
                <==> kept_rooms(cands).len() < 2) && layout.rooms@ == kept_rooms(cands);
        assert(built_dungeon(g, dims, kept_rooms(cands))) by {
            assert forall|x: int, y: int| g.in_bounds(x, y) && on_border(g, x, y) implies #[trigger] g.cell(x, y) == Some(StuffTag::Wall) by {
                assert(g.cell(x, y) == filled.cell(x, y));
            }
            assert forall|x: int, y: int|
                g.in_bounds(x, y) && #[trigger] g.cell(x, y) is Some && is_spawnable(g.cell(x, y)->0) implies exists|k: int|
                    0 <= k < kept_rooms(cands).len() && in_interior(#[trigger] kept_rooms(cands)[k], x, y) by {
                assert(filled.cell(x, y) == Some(StuffTag::Wall));
                let k = choose|k: int| 0 <= k < layout.rooms@.len() && in_interior(#[trigger] layout.rooms@[k], x, y);
                assert(kept_rooms(cands)[k] == layout.rooms@[k]);
            }
        }
        assert(lists_spawns(g, spawns@));
    }
    proof {
        let g = working_grid;
        assert forall|i: int|
            0 <= i < spawns@.len() && ((#[trigger] spawns@[i]).0.x == 0 || spawns@[i].0.y == 0
                || spawns@[i].0.x == dims.x - 1 || spawns@[i].0.y == dims.y - 1) implies spawns@[i].1
                == StuffTag::Wall by {
            let p = spawns@[i].0;
            assert(g.cell(p.x as int, p.y as int) == filled.cell(p.x as int, p.y as int));
        }
        let wd = g.spec_width();
        assert forall|i: int, j: int| 0 <= i < j < spawns@.len() implies (#[trigger] spawns@[i]).0
            != (#[trigger] spawns@[j]).0 by {
            assert(crate::grid::cell_offset(wd, spawns@[i].0.x as int, spawns@[i].0.y as int)
                < crate::grid::cell_offset(wd, spawns@[j].0.x as int, spawns@[j].0.y as int));
        }
        let c0 = layout.rooms@[0].spec_center();
        let s = layout.stairs;
        assert(spawned(g, c0.x as int, c0.y as int));
        assert(spawned(g, s.x as int, s.y as int));
        let ip = choose|i: int| 0 <= i < spawns@.len() && (#[trigger] spawns@[i]).0 == (Vec2 { x: c0.x, y: c0.y });
        assert(spawns@[ip].1 == StuffTag::Player);
        let is = choose|i: int| 0 <= i < spawns@.len() && (#[trigger] spawns@[i]).0 == (Vec2 { x: s.x, y: s.y });
        assert(spawns@[is].1 == StuffTag::Stairs);
        assert forall|i: int, j: int|
            0 <= i < spawns@.len() && 0 <= j < spawns@.len() && (#[trigger] spawns@[i]).1 == StuffTag::Player
                && (#[trigger] spawns@[j]).1 == StuffTag::Player implies i == j by {
            if i < j {
                assert(crate::grid::cell_offset(wd, spawns@[i].0.x as int, spawns@[i].0.y as int)
                    < crate::grid::cell_offset(wd, spawns@[j].0.x as int, spawns@[j].0.y as int));
            } else if j < i {
                assert(crate::grid::cell_offset(wd, spawns@[j].0.x as int, spawns@[j].0.y as int)
                    < crate::grid::cell_offset(wd, spawns@[i].0.x as int, spawns@[i].0.y as int));
            }
        }
        assert forall|i: int, j: int|
            0 <= i < spawns@.len() && 0 <= j < spawns@.len() && (#[trigger] spawns@[i]).1 == StuffTag::Stairs
                && (#[trigger] spawns@[j]).1 == StuffTag::Stairs implies i == j by {
            if i < j {
                assert(crate::grid::cell_offset(wd, spawns@[i].0.x as int, spawns@[i].0.y as int)
                    < crate::grid::cell_offset(wd, spawns@[j].0.x as int, spawns@[j].0.y as int));
            } else if j < i {
                assert(crate::grid::cell_offset(wd, spawns@[j].0.x as int, spawns@[j].0.y as int)
                    < crate::grid::cell_offset(wd, spawns@[i].0.x as int, spawns@[i].0.y as int));
            }
        }
    }
    Ok(spawns)
}

/// What a dungeon is generated from: the size of the map and the floor.
#[derive(Clone, Copy, Debug, PartialEq, Eq, Structural)]
pub struct MapGenParams {
    pub dims: Vec2,
    pub level: u32,
}

impl Default for MapGenParams {
    fn default() -> (r: MapGenParams)
        ensures
            r.dims == (Vec2 { x: 64, y: 64 }),
            r.level == 1,
    {
        MapGenParams { dims: Vec2::new(64, 64), level: 1 }
    }
}

} // verus!
