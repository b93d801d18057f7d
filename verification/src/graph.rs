//! Directed graphs over node indices `0..n`: depth-first finishing order,
//! strongly connected components (Kosaraju's two passes) and breadth-first
//! paths towards a goal set.
use vstd::prelude::*;

verus! {

/// An adjacency list whose targets are all nodes of the graph.
pub open spec fn adj_wf(adj: Seq<Seq<usize>>) -> bool {
    &&& adj.len() <= usize::MAX
    &&& forall|u: int, k: int|
        0 <= u < adj.len() && 0 <= k < adj[u].len() ==> #[trigger] adj[u][k] < adj.len()
}

/// An arc from `u` to `v`.
pub open spec fn arc(adj: Seq<Seq<usize>>, u: int, v: int) -> bool {
    &&& 0 <= u < adj.len()
    &&& exists|k: int| 0 <= k < adj[u].len() && #[trigger] adj[u][k] as int == v
}

/// A walk: consecutive nodes joined by arcs.
pub open spec fn is_walk(adj: Seq<Seq<usize>>, p: Seq<int>) -> bool {
    &&& p.len() >= 1
    &&& forall|i: int| 0 <= i < p.len() - 1 ==> #[trigger] arc(adj, p[i], p[i + 1])
}

/// `v` can be reached from `u` (every node reaches itself).
pub open spec fn reach(adj: Seq<Seq<usize>>, u: int, v: int) -> bool {
    exists|p: Seq<int>| #[trigger] is_walk(adj, p) && p[0] == u && p.last() == v
}

/// `u` and `v` lie on a common cycle, or are equal.
pub open spec fn mutual(adj: Seq<Seq<usize>>, u: int, v: int) -> bool {
    reach(adj, u, v) && reach(adj, v, u)
}

/// Every node reaches itself.
pub proof fn lemma_reach_refl(adj: Seq<Seq<usize>>, u: int)
    ensures
        reach(adj, u, u),
{
    let p = seq![u];
    assert(is_walk(adj, p));
}

/// An arc is a walk.
pub proof fn lemma_reach_arc(adj: Seq<Seq<usize>>, u: int, v: int)
    requires
        arc(adj, u, v),
    ensures
        reach(adj, u, v),
{
    let p = seq![u, v];
    assert(is_walk(adj, p));
}

/// Reachability is transitive.
pub proof fn lemma_reach_trans(adj: Seq<Seq<usize>>, u: int, v: int, w: int)
    requires
        reach(adj, u, v),
        reach(adj, v, w),
    ensures
        reach(adj, u, w),
{
    let p = choose|p: Seq<int>| #[trigger] is_walk(adj, p) && p[0] == u && p.last() == v;
    let q = choose|q: Seq<int>| #[trigger] is_walk(adj, q) && q[0] == v && q.last() == w;
    let r = p + q.drop_first();
    assert forall|i: int| 0 <= i < r.len() - 1 implies #[trigger] arc(adj, r[i], r[i + 1]) by {
        if i < p.len() - 1 {
            assert(r[i] == p[i] && r[i + 1] == p[i + 1]);
        } else if i == p.len() - 1 {
            assert(r[i] == v);
            assert(r[i + 1] == q[1]);
            assert(arc(adj, q[0], q[1]));
        } else {
            let j = i - p.len() + 1;
            assert(r[i] == q[j] && r[i + 1] == q[j + 1]);
            assert(arc(adj, q[j], q[j + 1]));
        }
    }
    assert(is_walk(adj, r));
    if q.len() == 1 {
        assert(r.last() == p.last());
    } else {
        assert(r.last() == q.last());
    }
}

/// Along a walk out of a set `inside` that holds its start but not its end,
/// some arc leaves the set.
pub proof fn lemma_walk_exit(adj: Seq<Seq<usize>>, p: Seq<int>, inside: spec_fn(int) -> bool)
    requires
        is_walk(adj, p),
        inside(p[0]),
        !inside(p.last()),
    ensures
        exists|k: int|
            0 <= k < p.len() - 1 && #[trigger] inside(p[k]) && !inside(p[k + 1]) && reach(
                adj,
                p[0],
                p[k],
            ) && reach(adj, p[k + 1], p.last()),
    decreases p.len(),
{
    if inside(p[1]) {
        let q = p.drop_first();
        assert(is_walk(adj, q)) by {
            assert forall|i: int| 0 <= i < q.len() - 1 implies #[trigger] arc(adj, q[i], q[i + 1]) by {
                let j = i + 1;
                assert(arc(adj, p[j], p[j + 1]));
            }
        }
        lemma_walk_exit(adj, q, inside);
        let k = choose|k: int|
            0 <= k < q.len() - 1 && #[trigger] inside(q[k]) && !inside(q[k + 1]) && reach(
                adj,
                q[0],
                q[k],
            ) && reach(adj, q[k + 1], q.last());
        assert(arc(adj, p[0], p[1]));
        lemma_reach_arc(adj, p[0], p[1]);
        lemma_reach_trans(adj, p[0], p[1], q[k]);
        assert(inside(p[k + 1]) && !inside(p[k + 2]));
    } else {
        lemma_reach_refl(adj, p[0]);
        let q = p.drop_first();
        assert(is_walk(adj, q)) by {
            assert forall|i: int| 0 <= i < q.len() - 1 implies #[trigger] arc(adj, q[i], q[i + 1]) by {
                let j = i + 1;
                assert(arc(adj, p[j], p[j + 1]));
            }
        }
        assert(q[0] == p[1] && q.last() == p.last());
        assert(inside(p[0]) && !inside(p[1]));
    }
}

/// The number of `false` entries.
pub open spec fn unseen_count(s: Seq<bool>) -> nat
    decreases s.len(),
{
    if s.len() == 0 {
        0
    } else {
        unseen_count(s.drop_last()) + if s.last() {
            0nat
        } else {
            1nat
        }
    }
}

proof fn lemma_unseen_mono(a: Seq<bool>, b: Seq<bool>)
    requires
        a.len() == b.len(),
        forall|i: int| 0 <= i < a.len() && a[i] ==> b[i],
    ensures
        unseen_count(b) <= unseen_count(a),
        (exists|i: int| 0 <= i < a.len() && !a[i] && b[i]) ==> unseen_count(b) < unseen_count(a),
    decreases a.len(),
{
    if a.len() > 0 {
        lemma_unseen_mono(a.drop_last(), b.drop_last());
        if exists|i: int| 0 <= i < a.len() && !a[i] && b[i] {
            let i = choose|i: int| 0 <= i < a.len() && !a[i] && b[i];
            if i < a.len() - 1 {
                assert(!a.drop_last()[i] && b.drop_last()[i]);
            }
        }
    }
}

/// The first-pass state: `seen` marks exactly the finished nodes (`order`) and
/// the nodes on the active path (`stack`); finished nodes have all successors
/// seen; the active path is a chain of reachability; a finished node that
/// reaches an unfinished node shares a cycle with an active node; and of two
/// finished nodes where the earlier reaches the later but not back, the earlier
/// shares a cycle with a later-finished or active node.
pub open spec fn dfs_inv(adj: Seq<Seq<usize>>, seen: Seq<bool>, order: Seq<usize>, stack: Seq<usize>) -> bool {
    let n = adj.len();
    &&& adj_wf(adj)
    &&& seen.len() == n
    &&& order.no_duplicates()
    &&& stack.no_duplicates()
    &&& forall|i: int| 0 <= i < order.len() ==> #[trigger] order[i] < n
    &&& forall|i: int| 0 <= i < stack.len() ==> #[trigger] stack[i] < n
    &&& forall|v: usize| v < n ==> (#[trigger] seen[v as int] <==> (order.contains(v) || stack.contains(v)))
    &&& forall|v: usize| order.contains(v) ==> !stack.contains(v)
    &&& forall|i: int, k: int|
        0 <= i < order.len() && 0 <= k < adj[order[i] as int].len() ==> #[trigger] seen[adj[order[i] as int][k] as int]
    &&& forall|i: int, j: int|
        0 <= i < j < stack.len() ==> #[trigger] reach(adj, stack[i] as int, stack[j] as int)
    &&& forall|i: int, b: usize|
        0 <= i < order.len() && b < n && reach(adj, order[i] as int, b as int) && !order.contains(b)
            ==> exists|g: int| 0 <= g < stack.len() && #[trigger] mutual(adj, order[i] as int, stack[g] as int)
    &&& forall|i: int, j: int|
        0 <= i < j < order.len() && #[trigger] reach(adj, order[i] as int, order[j] as int) && !reach(
            adj,
            order[j] as int,
            order[i] as int,
        ) ==> later_cycle_mate(adj, order, stack, i, j)
}

/// Some node on a common cycle with `order[i]` finishes after `order[j]` or is still active.
pub open spec fn later_cycle_mate(adj: Seq<Seq<usize>>, order: Seq<usize>, stack: Seq<usize>, i: int, j: int) -> bool {
    ||| exists|k: int| j < k < order.len() && #[trigger] mutual(adj, order[i] as int, order[k] as int)
    ||| exists|g: int| 0 <= g < stack.len() && #[trigger] mutual(adj, order[i] as int, stack[g] as int)
}

/// The adjacency lists as sequences.
pub open spec fn adj_view(adj: &Vec<Vec<usize>>) -> Seq<Seq<usize>> {
    adj@.map_values(|r: Vec<usize>| r@)
}

/// A finishing order that Kosaraju's second pass can use: every node exactly
/// once, and whenever an earlier-finished node reaches a later one but not
/// back, some node on a common cycle with the earlier one finishes later still.
pub open spec fn finish_order(adj: Seq<Seq<usize>>, order: Seq<usize>) -> bool {
    &&& order.no_duplicates()
    &&& forall|i: int| 0 <= i < order.len() ==> #[trigger] order[i] < adj.len()
    &&& forall|v: usize| v < adj.len() ==> #[trigger] order.contains(v)
    &&& forall|i: int, j: int|
        0 <= i < j < order.len() && #[trigger] reach(adj, order[i] as int, order[j] as int) && !reach(
            adj,
            order[j] as int,
            order[i] as int,
        ) ==> exists|k: int| j < k < order.len() && #[trigger] mutual(adj, order[i] as int, order[k] as int)
}

proof fn lemma_mutual_trans(adj: Seq<Seq<usize>>, a: int, b: int, c: int)
    requires
        mutual(adj, a, b),
        mutual(adj, b, c),
    ensures
        mutual(adj, a, c),
{
    lemma_reach_trans(adj, a, b, c);
    lemma_reach_trans(adj, c, b, a);
}

proof fn lemma_arc_target(adj: Seq<Seq<usize>>, u: int, v: int)
    requires
        adj_wf(adj),
        arc(adj, u, v),
    ensures
        v < adj.len(),
{
    let k = choose|k: int| 0 <= k < adj[u].len() && #[trigger] adj[u][k] as int == v;
    assert(adj[u][k] < adj.len());
}

proof fn lemma_dfs_discover(adj: Seq<Seq<usize>>, seen: Seq<bool>, order: Seq<usize>, stack: Seq<usize>, node: usize)
    requires
        dfs_inv(adj, seen, order, stack),
        node < adj.len(),
        !seen[node as int],
        forall|i: int| 0 <= i < stack.len() ==> #[trigger] reach(adj, stack[i] as int, node as int),
    ensures
        dfs_inv(adj, seen.update(node as int, true), order, stack.push(node)),
{
    let n = adj.len();
    let seen2 = seen.update(node as int, true);
    let stack2 = stack.push(node);
    assert(!order.contains(node) && !stack.contains(node));
    assert forall|v: usize| v < n implies (#[trigger] seen2[v as int] <==> (order.contains(v)
        || stack2.contains(v))) by {
        if v != node {
            assert(stack2.contains(v) <==> stack.contains(v)) by {
                if stack2.contains(v) {
                    let g = choose|g: int| 0 <= g < stack2.len() && stack2[g] == v;
                    assert(stack[g] == v);
                }
                if stack.contains(v) {
                    let g = choose|g: int| 0 <= g < stack.len() && stack[g] == v;
                    assert(stack2[g] == v);
                }
            }
        } else {
            assert(stack2[stack.len() as int] == node);
        }
    }
    assert forall|v: usize| order.contains(v) implies !stack2.contains(v) by {
        if stack2.contains(v) {
            let g = choose|g: int| 0 <= g < stack2.len() && stack2[g] == v;
            if g < stack.len() {
                assert(stack.contains(v));
            }
        }
    }
    assert forall|i: int, k: int|
        0 <= i < order.len() && 0 <= k < adj[order[i] as int].len() implies #[trigger] seen2[adj[order[i] as int][k] as int] by {
        assert(seen[adj[order[i] as int][k] as int]);
    }
    assert forall|i: int, j: int| 0 <= i < j < stack2.len() implies #[trigger] reach(adj, stack2[i] as int, stack2[j] as int) by {
        if j < stack.len() {
            assert(reach(adj, stack[i] as int, stack[j] as int));
        } else {
            assert(reach(adj, stack[i] as int, node as int));
        }
    }
    assert forall|i: int, b: usize|
        0 <= i < order.len() && b < n && reach(adj, order[i] as int, b as int) && !order.contains(b)
        implies exists|g: int| 0 <= g < stack2.len() && #[trigger] mutual(adj, order[i] as int, stack2[g] as int) by {
        let g = choose|g: int| 0 <= g < stack.len() && #[trigger] mutual(adj, order[i] as int, stack[g] as int);
        assert(stack2[g] == stack[g]);
    }
    assert forall|i: int, j: int|
        0 <= i < j < order.len() && #[trigger] reach(adj, order[i] as int, order[j] as int) && !reach(
            adj,
            order[j] as int,
            order[i] as int,
        ) implies later_cycle_mate(adj, order, stack2, i, j) by {
        assert(later_cycle_mate(adj, order, stack, i, j));
        if !(exists|k: int| j < k < order.len() && #[trigger] mutual(adj, order[i] as int, order[k] as int)) {
            let g = choose|g: int| 0 <= g < stack.len() && #[trigger] mutual(adj, order[i] as int, stack[g] as int);
            assert(stack2[g] == stack[g]);
        }
    }
}

/// A node that has finished reaches only finished nodes, or shares a cycle
/// with an active node.
proof fn lemma_finished_escape(adj: Seq<Seq<usize>>, seen: Seq<bool>, order: Seq<usize>, stack: Seq<usize>, node: usize, b: usize)
    requires
        adj_wf(adj),
        seen.len() == adj.len(),
        forall|v: usize| v < adj.len() ==> (#[trigger] seen[v as int] <==> (order.contains(v) || stack.contains(v))),
        forall|i: int, k: int|
            0 <= i < order.len() && 0 <= k < adj[order[i] as int].len() ==> #[trigger] seen[adj[order[i] as int][k] as int],
        forall|i: int| 0 <= i < stack.len() ==> #[trigger] reach(adj, stack[i] as int, node as int),
        order.contains(node),
        b < adj.len(),
        reach(adj, node as int, b as int),
        !order.contains(b),
    ensures
        exists|g: int| 0 <= g < stack.len() && #[trigger] mutual(adj, node as int, stack[g] as int),
{
    let p = choose|p: Seq<int>| #[trigger] is_walk(adj, p) && p[0] == node as int && p.last() == b as int;
    let inside = |x: int| 0 <= x && order.contains(x as usize);
    lemma_walk_exit(adj, p, inside);
    let k = choose|k: int|
        0 <= k < p.len() - 1 && #[trigger] inside(p[k]) && !inside(p[k + 1]) && reach(adj, p[0], p[k])
            && reach(adj, p[k + 1], p.last());
    assert(arc(adj, p[k], p[k + 1]));
    lemma_arc_target(adj, p[k], p[k + 1]);
    let y = p[k + 1] as usize;
    let x = p[k] as usize;
    let ix = choose|ix: int| 0 <= ix < order.len() && order[ix] == x;
    let kk = choose|kk: int| 0 <= kk < adj[p[k]].len() && #[trigger] adj[p[k]][kk] as int == p[k + 1];
    assert(order[ix] as int == p[k]);
    assert(seen[adj[order[ix] as int][kk] as int]);
    assert(seen[y as int]);
    assert(!order.contains(y));
    assert(stack.contains(y));
    let g = choose|g: int| 0 <= g < stack.len() && stack[g] == y;
    lemma_reach_arc(adj, p[k], p[k + 1]);
    lemma_reach_trans(adj, node as int, p[k], p[k + 1]);
    assert(reach(adj, stack[g] as int, node as int));
    assert(mutual(adj, node as int, stack[g] as int));
}

proof fn lemma_dfs_finish(adj: Seq<Seq<usize>>, seen: Seq<bool>, order: Seq<usize>, stack: Seq<usize>, node: usize)
    requires
        dfs_inv(adj, seen, order, stack.push(node)),
        node < adj.len(),
        forall|k: int| 0 <= k < adj[node as int].len() ==> #[trigger] seen[adj[node as int][k] as int],
        forall|i: int| 0 <= i < stack.len() ==> #[trigger] reach(adj, stack[i] as int, node as int),
    ensures
        dfs_inv(adj, seen, order.push(node), stack),
{
    let n = adj.len();
    let stack2 = stack.push(node);
    let order2 = order.push(node);
    assert(stack2[stack.len() as int] == node);
    assert(stack2.contains(node));
    assert(!order.contains(node));
    assert(!stack.contains(node)) by {
        if stack.contains(node) {
            let g = choose|g: int| 0 <= g < stack.len() && stack[g] == node;
            assert(stack2[g] == stack2[stack.len() as int]);
        }
    }
    assert(order2[order.len() as int] == node);
    assert forall|v: usize| #[trigger] order2.contains(v) <==> (order.contains(v) || v == node) by {
        if order2.contains(v) {
            let g = choose|g: int| 0 <= g < order2.len() && order2[g] == v;
            if g < order.len() {
                assert(order[g] == v);
            }
        }
        if order.contains(v) {
            let g = choose|g: int| 0 <= g < order.len() && order[g] == v;
            assert(order2[g] == v);
        }
    }
    assert forall|v: usize| #[trigger] stack2.contains(v) <==> (stack.contains(v) || v == node) by {
        if stack2.contains(v) {
            let g = choose|g: int| 0 <= g < stack2.len() && stack2[g] == v;
            if g < stack.len() {
                assert(stack[g] == v);
            }
        }
        if stack.contains(v) {
            let g = choose|g: int| 0 <= g < stack.len() && stack[g] == v;
            assert(stack2[g] == v);
        }
    }
    assert forall|v: usize| v < n implies (#[trigger] seen[v as int] <==> (order2.contains(v)
        || stack.contains(v))) by {
        assert(seen[v as int] <==> (order.contains(v) || stack2.contains(v)));
    }
    assert forall|v: usize| order2.contains(v) implies !stack.contains(v) by {
        if v != node {
            assert(order.contains(v));
            assert(!stack2.contains(v));
        }
    }
    assert forall|i: int, k: int|
        0 <= i < order2.len() && 0 <= k < adj[order2[i] as int].len() implies #[trigger] seen[adj[order2[i] as int][k] as int] by {
        if i < order.len() {
            assert(order2[i] == order[i]);
        }
    }
    assert forall|i: int, j: int| 0 <= i < j < stack.len() implies #[trigger] reach(adj, stack[i] as int, stack[j] as int) by {
        assert(stack2[i] == stack[i] && stack2[j] == stack[j]);
        assert(reach(adj, stack2[i] as int, stack2[j] as int));
    }
    assert(order2.no_duplicates());
    assert forall|i: int, j: int| 0 <= i < stack.len() && 0 <= j < stack.len() && i != j implies stack[i] != stack[j] by {
        assert(stack2[i] == stack[i] && stack2[j] == stack[j]);
    }
    assert(stack.no_duplicates());
    assert forall|i: int| 0 <= i < stack.len() implies #[trigger] stack[i] < n by {
        assert(stack2[i] == stack[i]);
    }
    // A finished node reaching an unfinished node shares a cycle with an active node.
    assert forall|i: int, b: usize|
        0 <= i < order2.len() && b < n && reach(adj, order2[i] as int, b as int) && !order2.contains(b)
        implies exists|g: int| 0 <= g < stack.len() && #[trigger] mutual(adj, order2[i] as int, stack[g] as int) by {
        if i == order.len() {
            lemma_finished_escape(adj, seen, order2, stack, node, b);
        } else {
            assert(order2[i] == order[i]);
            assert(!order.contains(b));
            let g = choose|g: int| 0 <= g < stack2.len() && #[trigger] mutual(adj, order[i] as int, stack2[g] as int);
            if g < stack.len() {
                assert(stack2[g] == stack[g]);
            } else {
                assert(mutual(adj, order[i] as int, node as int));
                lemma_reach_trans(adj, node as int, order[i] as int, b as int);
                lemma_finished_escape(adj, seen, order2, stack, node, b);
                let g2 = choose|g2: int| 0 <= g2 < stack.len() && #[trigger] mutual(adj, node as int, stack[g2] as int);
                lemma_mutual_trans(adj, order[i] as int, node as int, stack[g2] as int);
            }
        }
    }
    assert forall|i: int, j: int|
        0 <= i < j < order2.len() && #[trigger] reach(adj, order2[i] as int, order2[j] as int) && !reach(
            adj,
            order2[j] as int,
            order2[i] as int,
        ) implies later_cycle_mate(adj, order2, stack, i, j) by {
        assert(order2[i] == order[i]);
        if j < order.len() {
            assert(order2[j] == order[j]);
            assert(later_cycle_mate(adj, order, stack2, i, j));
            if exists|k: int| j < k < order.len() && #[trigger] mutual(adj, order[i] as int, order[k] as int) {
                let k = choose|k: int| j < k < order.len() && #[trigger] mutual(adj, order[i] as int, order[k] as int);
                assert(order2[k] == order[k]);
            } else {
                let g = choose|g: int| 0 <= g < stack2.len() && #[trigger] mutual(adj, order[i] as int, stack2[g] as int);
                if g < stack.len() {
                    assert(stack2[g] == stack[g]);
                } else {
                    assert(order2[order.len() as int] == stack2[g]);
                }
            }
        } else {
            assert(order2[j] == node);
            assert(!order.contains(node));
            let g = choose|g: int| 0 <= g < stack2.len() && #[trigger] mutual(adj, order[i] as int, stack2[g] as int);
            if g == stack.len() {
                assert(false);
            }
            assert(stack2[g] == stack[g]);
        }
    }
}

/// The depth-first search from `node` in adjacency order, from the nodes
/// already found `seen` and the finishing order so far `order`: the nodes
/// found and the finishing order after it.
pub open spec fn dfs_visit(g: Seq<Seq<usize>>, node: int, seen: Seq<bool>, order: Seq<usize>) -> (Seq<bool>, Seq<usize>)
    decreases unseen_count(seen), 0int, 0int,
{
    if !(0 <= node < seen.len()) || seen[node] {
        (seen, order)
    } else {
        let s1 = seen.update(node, true);
        proof {
            lemma_unseen_set(seen, node);
        }
        let r = dfs_children(g, node, 0, s1, order, unseen_count(s1));
        (r.0, r.1.push(node as usize))
    }
}

/// The searches from the successors of `node`, from the `k`-th on, that find
/// something new.
pub open spec fn dfs_children(g: Seq<Seq<usize>>, node: int, k: int, seen: Seq<bool>, order: Seq<usize>, bound: nat) -> (
    Seq<bool>,
    Seq<usize>,
)
    decreases bound, 1int, g[node].len() - k,
{
    if k < 0 || k >= g[node].len() || unseen_count(seen) > bound {
        (seen, order)
    } else {
        let t = g[node][k] as int;
        let r = if 0 <= t < seen.len() && !seen[t] {
            dfs_visit(g, t, seen, order)
        } else {
            (seen, order)
        };
        dfs_children(g, node, k + 1, r.0, r.1, bound)
    }
}

/// The searches from the nodes `v`, `v + 1`, ... in turn.
pub open spec fn dfs_all(g: Seq<Seq<usize>>, v: int, seen: Seq<bool>, order: Seq<usize>) -> (Seq<bool>, Seq<usize>)
    decreases g.len() - v,
{
    if v < 0 || v >= g.len() {
        (seen, order)
    } else {
        let r = dfs_visit(g, v, seen, order);
        dfs_all(g, v + 1, r.0, r.1)
    }
}

/// The order in which a depth-first search over the nodes in index order,
/// following arcs in adjacency order, finishes the nodes.
pub open spec fn finish_sequence(g: Seq<Seq<usize>>) -> Seq<usize> {
    dfs_all(g, 0, Seq::new(g.len(), |i: int| false), Seq::empty()).1
}

fn first_pass_visit(node: usize, adj: &Vec<Vec<usize>>, seen: &mut Vec<bool>, order: &mut Vec<usize>, Ghost(stack): Ghost<Seq<usize>>)
    requires
        dfs_inv(adj_view(adj), old(seen)@, old(order)@, stack),
        node < adj.len(),
        forall|i: int| 0 <= i < stack.len() ==> #[trigger] reach(adj_view(adj), stack[i] as int, node as int),
    ensures
        dfs_inv(adj_view(adj), final(seen)@, final(order)@, stack),
        final(seen)@[node as int],
        forall|i: int| 0 <= i < old(seen)@.len() && old(seen)@[i] ==> #[trigger] final(seen)@[i],
        (final(seen)@, final(order)@) == dfs_visit(adj_view(adj), node as int, old(seen)@, old(order)@),
    decreases unseen_count(old(seen)@),
{
    let ghost g = adj_view(adj);
    if seen[node] {
        return;
    }
    let ghost seen0 = seen@;
    let ghost order0 = order@;
    proof {
        lemma_dfs_discover(g, seen@, order@, stack, node);
    }
    seen.set(node, true);
    let ghost seen1 = seen@;
    let ghost bound = unseen_count(seen1);
    proof {
        assert(seen1 == seen0.update(node as int, true));
        assert(dfs_visit(g, node as int, seen0, order0) == (
            dfs_children(g, node as int, 0, seen1, order0, bound).0,
            dfs_children(g, node as int, 0, seen1, order0, bound).1.push(node),
        ));
    }
    let ghost stack2 = stack.push(node);
    proof {
        lemma_unseen_mono(seen0, seen@);
        assert(!seen0[node as int] && seen@[node as int]);
    }
    let children = &adj[node];
    assert(children@ == g[node as int]);
    let mut k: usize = 0;
    while k < children.len()
        invariant
            g == adj_view(adj),
            children@ == g[node as int],
            node < adj.len(),
            dfs_inv(g, seen@, order@, stack2),
            seen@[node as int],
            seen@.len() == seen0.len(),
            forall|i: int| 0 <= i < seen0.len() && seen0[i] ==> #[trigger] seen@[i],
            unseen_count(seen@) < unseen_count(seen0),
            seen0 == old(seen)@,
            forall|i: int| 0 <= i < stack.len() ==> #[trigger] reach(g, stack[i] as int, node as int),
            stack2 == stack.push(node),
            k <= children.len(),
            forall|j: int| 0 <= j < k ==> #[trigger] seen@[children@[j] as int],
            seen1 == seen0.update(node as int, true),
            bound == unseen_count(seen1),
            forall|i: int| 0 <= i < seen1.len() && seen1[i] ==> #[trigger] seen@[i],
            dfs_visit(g, node as int, seen0, order0) == (
                dfs_children(g, node as int, k as int, seen@, order@, bound).0,
                dfs_children(g, node as int, k as int, seen@, order@, bound).1.push(node),
            ),
        decreases children.len() - k,
    {
        let target = children[k];
        let ghost sk = seen@;
        let ghost ok = order@;
        proof {
            lemma_unseen_mono(seen1, seen@);
            assert(g[node as int][k as int] == target);
        }
        assert(children@.contains(target));
        assert(target < adj.len()) by {
            assert(g[node as int][k as int] < g.len());
        }
        if !seen[target] {
            proof {
                assert(g[node as int][k as int] as int == target as int);
                assert(arc(g, node as int, target as int));
                lemma_reach_arc(g, node as int, target as int);
                assert forall|i: int| 0 <= i < stack2.len() implies #[trigger] reach(g, stack2[i] as int, target as int) by {
                    if i < stack.len() {
                        assert(stack2[i] == stack[i]);
                        lemma_reach_trans(g, stack[i] as int, node as int, target as int);
                    } else {
                        assert(stack2[i] == node);
                    }
                }
            }
            let ghost before = seen@;
            first_pass_visit(target, adj, seen, order, Ghost(stack2));
            proof {
                lemma_unseen_mono(before, seen@);
                assert(dfs_children(g, node as int, k as int, sk, ok, bound) == dfs_children(
                    g,
                    node as int,
                    k + 1,
                    seen@,
                    order@,
                    bound,
                ));
            }
        } else {
            assert(dfs_children(g, node as int, k as int, sk, ok, bound) == dfs_children(
                g,
                node as int,
                k + 1,
                seen@,
                order@,
                bound,
            ));
        }
        k = k + 1;
    }
    proof {
        assert(dfs_children(g, node as int, k as int, seen@, order@, bound) == (seen@, order@));
    }
    proof {
        lemma_dfs_finish(g, seen@, order@, stack, node);
    }
    order.push(node);
}

/// The order in which a depth-first search finishes the nodes, starting a
/// search from every node in index order and following successors in list
/// order.
pub fn first_pass_order(adjacency: &Vec<Vec<usize>>) -> (order: Vec<usize>)
    requires
        adj_wf(adj_view(adjacency)),
    ensures
        finish_order(adj_view(adjacency), order@),
        order@ == finish_sequence(adj_view(adjacency)),
{
    let ghost g = adj_view(adjacency);
    let n = adjacency.len();
    let mut seen: Vec<bool> = Vec::new();
    while seen.len() < n
        invariant
            seen.len() <= n,
            forall|i: int| 0 <= i < seen.len() ==> !#[trigger] seen@[i],
        decreases n - seen.len(),
    {
        seen.push(false);
    }
    let mut order: Vec<usize> = Vec::new();
    assert(dfs_inv(g, seen@, order@, Seq::empty()));
    assert(seen@ =~= Seq::new(g.len(), |i: int| false));
    assert(order@ =~= Seq::<usize>::empty());
    let mut node: usize = 0;
    while node < n
        invariant
            g == adj_view(adjacency),
            n == g.len(),
            node <= n,
            dfs_inv(g, seen@, order@, Seq::empty()),
            forall|v: int| 0 <= v < node ==> #[trigger] seen@[v],
            finish_sequence(g) == dfs_all(g, node as int, seen@, order@).1,
        decreases n - node,
    {
        let ghost s0 = seen@;
        let ghost o0 = order@;
        first_pass_visit(node, adjacency, &mut seen, &mut order, Ghost(Seq::empty()));
        assert(dfs_all(g, node as int, s0, o0) == dfs_all(g, node + 1, seen@, order@));
        node = node + 1;
    }
    assert(dfs_all(g, node as int, seen@, order@) == (seen@, order@));
    proof {
        let empty = Seq::<usize>::empty();
        assert forall|v: usize| v < g.len() implies #[trigger] order@.contains(v) by {
            assert(seen@[v as int]);
            assert(!empty.contains(v));
        }
        assert forall|i: int, j: int|
            0 <= i < j < order@.len() && #[trigger] reach(g, order@[i] as int, order@[j] as int) && !reach(
                g,
                order@[j] as int,
                order@[i] as int,
            ) implies exists|k: int| j < k < order@.len() && #[trigger] mutual(g, order@[i] as int, order@[k] as int) by {
            assert(later_cycle_mate(g, order@, empty, i, j));
        }
    }
    order
}

/// An arc of an edge list, with the label bits of the dependency kinds behind it.
#[derive(Clone, Copy, Debug, PartialEq, Eq)]
pub struct Edge {
    pub source: usize,
    pub target: usize,
    pub mask: u16,
}

/// The adjacency lists made from the kept edges, targets in edge order.
pub open spec fn edge_graph(n: nat, edges: Seq<Edge>, keep: Seq<bool>) -> Seq<Seq<usize>>
    decreases edges.len(),
{
    if edges.len() == 0 {
        Seq::new(n, |i: int| Seq::<usize>::empty())
    } else {
        let g = edge_graph(n, edges.drop_last(), keep.drop_last());
        let e = edges.last();
        if keep.last() && e.source < g.len() {
            g.update(e.source as int, g[e.source as int].push(e.target))
        } else {
            g
        }
    }
}

/// The adjacency lists have one list per node.
pub proof fn lemma_edge_graph_len(n: nat, edges: Seq<Edge>, keep: Seq<bool>)
    ensures
        edge_graph(n, edges, keep).len() == n,
    decreases edges.len(),
{
    if edges.len() > 0 {
        lemma_edge_graph_len(n, edges.drop_last(), keep.drop_last());
    }
}

/// The same lists with every kept edge turned around.
pub open spec fn reverse_edge_graph(n: nat, edges: Seq<Edge>, keep: Seq<bool>) -> Seq<Seq<usize>>
    decreases edges.len(),
{
    if edges.len() == 0 {
        Seq::new(n, |i: int| Seq::<usize>::empty())
    } else {
        let g = reverse_edge_graph(n, edges.drop_last(), keep.drop_last());
        let e = edges.last();
        if keep.last() && e.target < g.len() {
            g.update(e.target as int, g[e.target as int].push(e.source))
        } else {
            g
        }
    }
}

/// The number of kept edges.
pub open spec fn kept_count(keep: Seq<bool>) -> nat
    decreases keep.len(),
{
    if keep.len() == 0 {
        0
    } else {
        kept_count(keep.drop_last()) + if keep.last() {
            1nat
        } else {
            0nat
        }
    }
}

/// Every kept edge joins two of the `n` nodes.
pub open spec fn edges_in_range(n: nat, edges: Seq<Edge>, keep: Seq<bool>) -> bool {
    &&& keep.len() == edges.len()
    &&& forall|i: int| 0 <= i < edges.len() && #[trigger] keep[i] ==> edges[i].source < n && edges[i].target < n
}

/// A strictly increasing list.
pub open spec fn strictly_sorted(s: Seq<usize>) -> bool {
    forall|i: int, j: int| 0 <= i < j < s.len() ==> #[trigger] s[i] < #[trigger] s[j]
}

/// The lists partition the nodes into the classes of nodes on common cycles:
/// each is a nonempty increasing list, every node is in exactly one, and a
/// list holds exactly the nodes that share a cycle with any of its members.
pub open spec fn scc_partition(adj: Seq<Seq<usize>>, comps: Seq<Seq<usize>>) -> bool {
    &&& forall|i: int| 0 <= i < comps.len() ==> #[trigger] comps[i].len() > 0 && strictly_sorted(comps[i])
    &&& forall|i: int, k: int| 0 <= i < comps.len() && 0 <= k < comps[i].len() ==> #[trigger] comps[i][k] < adj.len()
    &&& forall|v: usize| v < adj.len() ==> #[trigger] in_some(comps, v)
    &&& forall|i: int, j: int, v: usize|
        0 <= i < j < comps.len() && #[trigger] comps[i].contains(v) ==> !#[trigger] comps[j].contains(v)
    &&& forall|i: int, a: usize, b: usize|
        0 <= i < comps.len() && #[trigger] comps[i].contains(a) && b < adj.len() ==> (#[trigger] comps[i].contains(b)
            <==> mutual(adj, a as int, b as int))
}

/// Some list holds `v`.
pub open spec fn in_some(comps: Seq<Seq<usize>>, v: usize) -> bool {
    exists|i: int| 0 <= i < comps.len() && #[trigger] comps[i].contains(v)
}

proof fn lemma_arc_push(adj: Seq<Seq<usize>>, s: usize, t: usize, u: int, v: int)
    requires
        s < adj.len(),
    ensures
        arc(adj.update(s as int, adj[s as int].push(t)), u, v) <==> (arc(adj, u, v) || (u == s && v == t)),
{
    let adj2 = adj.update(s as int, adj[s as int].push(t));
    if arc(adj2, u, v) {
        let k = choose|k: int| 0 <= k < adj2[u].len() && #[trigger] adj2[u][k] as int == v;
        if u == s && k < adj[u].len() {
            assert(adj[u][k] == adj2[u][k]);
        }
    }
    if arc(adj, u, v) {
        let k = choose|k: int| 0 <= k < adj[u].len() && #[trigger] adj[u][k] as int == v;
        if u == s {
            assert(adj2[u][k] == adj[u][k]);
        } else {
            assert(adj2[u] == adj[u]);
        }
    }
    if u == s && v == t {
        assert(adj2[u][adj[u].len() as int] == t);
    }
}

/// Adjacency and reverse lists of the kept edges, and their count.
fn build_graphs(node_count: usize, edges: &Vec<Edge>, keep: &Vec<bool>) -> (r: (Vec<Vec<usize>>, Vec<Vec<usize>>, usize))
    requires
        edges_in_range(node_count as nat, edges@, keep@),
    ensures
        adj_view(&r.0) == edge_graph(node_count as nat, edges@, keep@),
        adj_view(&r.1) == reverse_edge_graph(node_count as nat, edges@, keep@),
        r.0.len() == node_count,
        r.1.len() == node_count,
        adj_wf(adj_view(&r.0)),
        adj_wf(adj_view(&r.1)),
        forall|u: int, v: int| arc(adj_view(&r.0), u, v) <==> arc(adj_view(&r.1), v, u),
        r.2 == kept_count(keep@),
{
    let mut adjacency: Vec<Vec<usize>> = Vec::new();
    let mut reverse: Vec<Vec<usize>> = Vec::new();
    while adjacency.len() < node_count
        invariant
            adjacency.len() <= node_count,
            reverse.len() == adjacency.len(),
            forall|i: int| 0 <= i < adjacency.len() ==> (#[trigger] adjacency@[i])@ == Seq::<usize>::empty(),
            forall|i: int| 0 <= i < reverse.len() ==> (#[trigger] reverse@[i])@ == Seq::<usize>::empty(),
        decreases node_count - adjacency.len(),
    {
        adjacency.push(Vec::new());
        reverse.push(Vec::new());
    }
    assert(adj_view(&adjacency) =~= edge_graph(node_count as nat, edges@.take(0), keep@.take(0)));
    assert(adj_view(&reverse) =~= reverse_edge_graph(node_count as nat, edges@.take(0), keep@.take(0)));
    let mut kept: usize = 0;
    let mut i: usize = 0;
    while i < edges.len()
        invariant
            edges_in_range(node_count as nat, edges@, keep@),
            i <= edges.len(),
            adjacency.len() == node_count,
            reverse.len() == node_count,
            adj_view(&adjacency) == edge_graph(node_count as nat, edges@.take(i as int), keep@.take(i as int)),
            adj_view(&reverse) == reverse_edge_graph(node_count as nat, edges@.take(i as int), keep@.take(i as int)),
            adj_wf(adj_view(&adjacency)),
            adj_wf(adj_view(&reverse)),
            forall|u: int, v: int| arc(adj_view(&adjacency), u, v) <==> arc(adj_view(&reverse), v, u),
            kept == kept_count(keep@.take(i as int)),
            kept <= i,
        decreases edges.len() - i,
    {
        let edge = edges[i];
        let ghost a0 = adj_view(&adjacency);
        let ghost r0 = adj_view(&reverse);
        assert(edges@.take(i + 1).drop_last() =~= edges@.take(i as int));
        assert(keep@.take(i + 1).drop_last() =~= keep@.take(i as int));
        if keep[i] {
            adjacency[edge.source].push(edge.target);
            reverse[edge.target].push(edge.source);
            kept = kept + 1;
            proof {
                assert(adj_view(&adjacency) =~= a0.update(edge.source as int, a0[edge.source as int].push(edge.target)));
                assert(adj_view(&reverse) =~= r0.update(edge.target as int, r0[edge.target as int].push(edge.source)));
                assert forall|u: int, v: int| arc(adj_view(&adjacency), u, v) <==> arc(adj_view(&reverse), v, u) by {
                    lemma_arc_push(a0, edge.source, edge.target, u, v);
                    lemma_arc_push(r0, edge.target, edge.source, v, u);
                }
            }
        }
        i = i + 1;
    }
    assert(edges@.take(edges.len() as int) =~= edges@);
    assert(keep@.take(edges.len() as int) =~= keep@);
    (adjacency, reverse, kept)
}

/// Inserts `x` into an increasing list that does not hold it.
fn insert_sorted(out: &mut Vec<usize>, x: usize)
    requires
        strictly_sorted(old(out)@),
        !old(out)@.contains(x),
    ensures
        strictly_sorted(final(out)@),
        forall|y: usize| #[trigger] final(out)@.contains(y) <==> (old(out)@.contains(y) || y == x),
        final(out)@.len() == old(out)@.len() + 1,
{
    let mut j: usize = 0;
    while j < out.len() && out[j] < x
        invariant
            j <= out.len(),
            forall|k: int| 0 <= k < j ==> #[trigger] out@[k] < x,
        decreases out.len() - j,
    {
        j = j + 1;
    }
    let ghost o = out@;
    out.insert(j, x);
    assert forall|a: int, b: int| 0 <= a < b < out@.len() implies #[trigger] out@[a] < #[trigger] out@[b] by {
        if j < o.len() {
            assert(o[j as int] >= x);
            assert(o[j as int] != x);
        }
    }
    assert forall|y: usize| #[trigger] out@.contains(y) <==> (o.contains(y) || y == x) by {
        if out@.contains(y) {
            let k = choose|k: int| 0 <= k < out@.len() && out@[k] == y;
            if k < j {
                assert(o[k] == y);
            } else if k > j {
                assert(o[k - 1] == y);
            }
        }
        if o.contains(y) {
            let k = choose|k: int| 0 <= k < o.len() && o[k] == y;
            if k < j {
                assert(out@[k] == y);
            } else {
                assert(out@[k + 1] == y);
            }
        }
        if y == x {
            assert(out@[j as int] == x);
        }
    }
}

/// The state of the reverse search that grows the class of `root`.
pub open spec fn class_search_inv(
    g: Seq<Seq<usize>>,
    seen0: Seq<bool>,
    seen: Seq<bool>,
    comp: Seq<usize>,
    stack: Seq<usize>,
    root: usize,
) -> bool {
    let n = g.len();
    &&& seen.len() == n
    &&& seen0.len() == n
    &&& comp.no_duplicates()
    &&& stack.no_duplicates()
    &&& forall|v: usize| v < n ==> (#[trigger] seen[v as int] <==> (seen0[v as int] || comp.contains(v) || stack.contains(v)))
    &&& forall|v: usize| #[trigger] comp.contains(v) ==> v < n && !seen0[v as int] && !stack.contains(v) && reach(g, v as int, root as int)
    &&& forall|v: usize| #[trigger] stack.contains(v) ==> v < n && !seen0[v as int] && reach(g, v as int, root as int)
    &&& comp.contains(root) || stack.contains(root)
}

/// Every node of the class holds its predecessors as seen.
pub open spec fn class_closed(g: Seq<Seq<usize>>, seen: Seq<bool>, comp: Seq<usize>) -> bool {
    forall|x: usize, y: int| #[trigger] comp.contains(x) && #[trigger] arc(g, y, x as int) ==> 0 <= y && seen[y]
}

/// A set of seen nodes closed under sharing a cycle.
pub open spec fn seen_closed(g: Seq<Seq<usize>>, seen: Seq<bool>) -> bool {
    forall|u: usize, v: usize|
        u < g.len() && v < g.len() && #[trigger] seen[u as int] && #[trigger] mutual(g, u as int, v as int) ==> seen[v as int]
}

/// When the reverse search from an unseen root has closed, it holds exactly
/// the nodes that share a cycle with the root.
proof fn lemma_class_complete(
    g: Seq<Seq<usize>>,
    order: Seq<usize>,
    p: int,
    seen0: Seq<bool>,
    seen: Seq<bool>,
    comp: Seq<usize>,
    root: usize,
)
    requires
        adj_wf(g),
        finish_order(g, order),
        0 <= p < order.len(),
        order[p] == root,
        class_search_inv(g, seen0, seen, comp, Seq::empty(), root),
        class_closed(g, seen, comp),
        seen_closed(g, seen0),
        forall|k: int| p < k < order.len() ==> #[trigger] seen0[order[k] as int],
        !seen0[root as int],
    ensures
        forall|b: usize| b < g.len() ==> (#[trigger] comp.contains(b) <==> mutual(g, root as int, b as int)),
{
    let n = g.len();
    let empty = Seq::<usize>::empty();
    assert(!empty.contains(root));
    assert forall|b: usize| b < n implies (#[trigger] comp.contains(b) <==> mutual(g, root as int, b as int)) by {
        if comp.contains(b) {
            assert(reach(g, b as int, root as int));
            if !reach(g, root as int, b as int) {
                lemma_reach_refl(g, root as int);
                assert(order.contains(b));
                let ib = choose|ib: int| 0 <= ib < order.len() && order[ib] == b;
                assert(ib != p);
                if ib > p {
                    assert(seen0[order[ib] as int]);
                    assert(false);
                }
                assert(reach(g, order[ib] as int, order[p] as int));
                let k = choose|k: int| p < k < order.len() && #[trigger] mutual(g, order[ib] as int, order[k] as int);
                assert(seen0[order[k] as int]);
                lemma_reach_refl(g, order[k] as int);
                assert(mutual(g, order[k] as int, b as int));
                assert(seen0[b as int]);
                assert(false);
            }
        }
        if mutual(g, root as int, b as int) && !comp.contains(b) {
            let w = choose|w: Seq<int>| #[trigger] is_walk(g, w) && w[0] == b as int && w.last() == root as int;
            let outside = |x: int| !(0 <= x && comp.contains(x as usize));
            lemma_walk_exit(g, w, outside);
            let k = choose|k: int|
                0 <= k < w.len() - 1 && #[trigger] outside(w[k]) && !outside(w[k + 1]) && reach(g, w[0], w[k])
                    && reach(g, w[k + 1], w.last());
            let x = w[k + 1] as usize;
            assert(arc(g, w[k], w[k + 1]));
            assert(comp.contains(x));
            assert(arc(g, w[k], x as int));
            assert(0 <= w[k] && seen[w[k]]);
            lemma_arc_target(g, w[k], w[k + 1]);
            let y = w[k] as usize;
            assert(!comp.contains(y));
            assert(seen0[y as int]);
            lemma_reach_trans(g, root as int, b as int, y as int);
            lemma_reach_arc(g, w[k], w[k + 1]);
            lemma_reach_trans(g, y as int, x as int, root as int);
            assert(mutual(g, y as int, root as int));
            assert(seen0[root as int]);
        }
    }
}

/// Every node of the class other than `node` holds its predecessors as seen.
pub open spec fn class_closed_except(g: Seq<Seq<usize>>, seen: Seq<bool>, comp: Seq<usize>, node: usize) -> bool {
    forall|x: usize, y: int|
        #[trigger] comp.contains(x) && #[trigger] arc(g, y, x as int) && x != node ==> 0 <= y && seen[y]
}

/// Finding an unseen node lowers the count of unseen nodes by one.
pub proof fn lemma_unseen_set(s: Seq<bool>, i: int)
    requires
        0 <= i < s.len(),
        !s[i],
    ensures
        unseen_count(s.update(i, true)) + 1 == unseen_count(s),
    decreases s.len(),
{
    let t = s.update(i, true);
    if i < s.len() - 1 {
        lemma_unseen_set(s.drop_last(), i);
        assert(t.drop_last() =~= s.drop_last().update(i, true));
    } else {
        assert(t.drop_last() =~= s.drop_last());
    }
}

proof fn lemma_search_pop(g: Seq<Seq<usize>>, seen0: Seq<bool>, seen: Seq<bool>, comp: Seq<usize>, stack: Seq<usize>, root: usize)
    requires
        class_search_inv(g, seen0, seen, comp, stack, root),
        class_closed(g, seen, comp),
        stack.len() > 0,
    ensures
        class_search_inv(g, seen0, seen, comp.push(stack.last()), stack.drop_last(), root),
        class_closed_except(g, seen, comp.push(stack.last()), stack.last()),
        forall|v: usize| #[trigger] comp.push(stack.last()).contains(v) <==> (comp.contains(v) || v == stack.last()),
{
    let node = stack.last();
    let comp2 = comp.push(node);
    let stack2 = stack.drop_last();
    assert(stack.contains(node));
    assert forall|v: usize| #[trigger] comp2.contains(v) <==> (comp.contains(v) || v == node) by {
        if comp2.contains(v) {
            let k = choose|k: int| 0 <= k < comp2.len() && comp2[k] == v;
            if k < comp.len() {
                assert(comp[k] == v);
            }
        }
        if comp.contains(v) {
            let k = choose|k: int| 0 <= k < comp.len() && comp[k] == v;
            assert(comp2[k] == v);
        }
        if v == node {
            assert(comp2[comp.len() as int] == v);
        }
    }
    assert forall|v: usize| #[trigger] stack.contains(v) <==> (stack2.contains(v) || v == node) by {
        if stack.contains(v) {
            let k = choose|k: int| 0 <= k < stack.len() && stack[k] == v;
            if k < stack2.len() {
                assert(stack2[k] == v);
            }
        }
        if stack2.contains(v) {
            let k = choose|k: int| 0 <= k < stack2.len() && stack2[k] == v;
            assert(stack[k] == v);
        }
    }
    assert(!stack2.contains(node)) by {
        if stack2.contains(node) {
            let k = choose|k: int| 0 <= k < stack2.len() && stack2[k] == node;
            assert(stack[k] == stack[stack.len() - 1]);
        }
    }
    assert(!comp.contains(node));
    assert(comp2.no_duplicates());
    assert forall|v: usize| #[trigger] comp2.contains(v) implies v < g.len() && !seen0[v as int] && !stack2.contains(v) && reach(g, v as int, root as int) by {
        if v != node {
            assert(comp.contains(v));
        }
    }
    assert forall|v: usize| #[trigger] stack2.contains(v) implies v < g.len() && !seen0[v as int] && reach(g, v as int, root as int) by {
        assert(stack.contains(v));
    }
    assert forall|v: usize| v < g.len() implies (#[trigger] seen[v as int] <==> (seen0[v as int] || comp2.contains(v) || stack2.contains(v))) by {
        assert(seen[v as int] <==> (seen0[v as int] || comp.contains(v) || stack.contains(v)));
    }
    assert forall|x: usize, y: int| #[trigger] comp2.contains(x) && #[trigger] arc(g, y, x as int) && x != node implies 0 <= y && seen[y] by {
        assert(comp.contains(x));
    }
    if comp.contains(root) {
        assert(comp2.contains(root));
    } else {
        assert(stack.contains(root));
        assert(stack2.contains(root) || root == node);
        assert(comp2.contains(root) || stack2.contains(root));
    }
}

proof fn lemma_search_push(
    g: Seq<Seq<usize>>,
    seen0: Seq<bool>,
    seen: Seq<bool>,
    comp: Seq<usize>,
    stack: Seq<usize>,
    root: usize,
    node: usize,
    t: usize,
)
    requires
        adj_wf(g),
        class_search_inv(g, seen0, seen, comp, stack, root),
        class_closed_except(g, seen, comp, node),
        comp.contains(node),
        arc(g, t as int, node as int),
        t < g.len(),
        !seen[t as int],
    ensures
        class_search_inv(g, seen0, seen.update(t as int, true), comp, stack.push(t), root),
        class_closed_except(g, seen.update(t as int, true), comp, node),
{
    let seen2 = seen.update(t as int, true);
    let stack2 = stack.push(t);
    assert(!comp.contains(t) && !stack.contains(t) && !seen0[t as int]);
    assert forall|v: usize| #[trigger] stack2.contains(v) <==> (stack.contains(v) || v == t) by {
        if stack2.contains(v) {
            let k = choose|k: int| 0 <= k < stack2.len() && stack2[k] == v;
            if k < stack.len() {
                assert(stack[k] == v);
            }
        }
        if stack.contains(v) {
            let k = choose|k: int| 0 <= k < stack.len() && stack[k] == v;
            assert(stack2[k] == v);
        }
        if v == t {
            assert(stack2[stack.len() as int] == v);
        }
    }
    assert(stack2.no_duplicates());
    assert(reach(g, node as int, root as int));
    lemma_reach_arc(g, t as int, node as int);
    lemma_reach_trans(g, t as int, node as int, root as int);
    assert forall|v: usize| #[trigger] stack2.contains(v) implies v < g.len() && !seen0[v as int] && reach(g, v as int, root as int) by {
        if v != t {
            assert(stack.contains(v));
        }
    }
    assert forall|v: usize| #[trigger] comp.contains(v) implies v < g.len() && !seen0[v as int] && !stack2.contains(v) && reach(g, v as int, root as int) by {
        assert(v != t);
    }
    assert forall|v: usize| v < g.len() implies (#[trigger] seen2[v as int] <==> (seen0[v as int] || comp.contains(v) || stack2.contains(v))) by {
        if v != t {
            assert(seen[v as int] <==> (seen0[v as int] || comp.contains(v) || stack.contains(v)));
        }
    }
    assert forall|x: usize, y: int| #[trigger] comp.contains(x) && #[trigger] arc(g, y, x as int) && x != node implies 0 <= y && seen2[y] by {
        assert(seen[y]);
    }
    if stack.contains(root) {
        assert(stack2.contains(root));
    }
}

/// The sequences of a list of lists.
pub open spec fn lists_view(v: &Vec<Vec<usize>>) -> Seq<Seq<usize>> {
    v@.map_values(|r: Vec<usize>| r@)
}

/// The node at position `p` of a finishing order is the last finished of
/// its cycle class.
pub open spec fn is_class_root(g: Seq<Seq<usize>>, order: Seq<usize>, p: int) -> bool {
    forall|k: int| p < k < order.len() ==> !#[trigger] mutual(g, order[p] as int, order[k] as int)
}

/// The nodes at positions `p` and later of a finishing order that are the
/// last finished of their cycle class, the latest first.
pub open spec fn class_roots_from(g: Seq<Seq<usize>>, order: Seq<usize>, p: int) -> Seq<usize>
    decreases order.len() - p,
{
    if p < 0 || p >= order.len() {
        Seq::empty()
    } else if is_class_root(g, order, p) {
        class_roots_from(g, order, p + 1).push(order[p])
    } else {
        class_roots_from(g, order, p + 1)
    }
}

/// The node each of Kosaraju's components is found from: the last finished
/// node of each cycle class of the depth-first finishing order, the latest
/// first.
pub open spec fn kosaraju_roots(g: Seq<Seq<usize>>) -> Seq<usize> {
    class_roots_from(g, finish_sequence(g), 0)
}

/// No node of a later list reaches a node of an earlier one: the lists come
/// in a topological order of the graph's cycle classes.
pub open spec fn topologically_ordered(g: Seq<Seq<usize>>, comps: Seq<Seq<usize>>) -> bool {
    forall|i: int, j: int, a: usize, b: usize|
        0 <= i < j < comps.len() && #[trigger] comps[j].contains(a) && #[trigger] comps[i].contains(b) ==> !reach(
            g,
            a as int,
            b as int,
        )
}

/// A root whose cycle class is still unfound reaches no found node, when every
/// found node shares a cycle with a node finishing after the root.
proof fn lemma_root_reaches_no_seen(
    g: Seq<Seq<usize>>,
    order: Seq<usize>,
    p: int,
    seen0: Seq<bool>,
    root: usize,
    b: usize,
)
    requires
        adj_wf(g),
        finish_order(g, order),
        0 <= p < order.len(),
        order[p] == root,
        seen0.len() == g.len(),
        seen_closed(g, seen0),
        forall|k: int| p < k < order.len() ==> #[trigger] seen0[order[k] as int],
        !seen0[root as int],
        forall|v: usize|
            v < g.len() && #[trigger] seen0[v as int] ==> exists|k: int|
                p < k < order.len() && #[trigger] mutual(g, v as int, order[k] as int),
        b < g.len(),
        seen0[b as int],
    ensures
        !reach(g, root as int, b as int),
{
    if reach(g, root as int, b as int) {
        let k = choose|k: int| p < k < order.len() && #[trigger] mutual(g, b as int, order[k] as int);
        let r = order[k];
        assert(r < g.len());
        assert(seen0[r as int]);
        lemma_reach_trans(g, root as int, b as int, r as int);
        if reach(g, r as int, root as int) {
            assert(mutual(g, r as int, root as int));
            assert(seen0[root as int]);
        } else {
            assert(reach(g, order[p] as int, order[k] as int));
            let k2 = choose|k2: int| k < k2 < order.len() && #[trigger] mutual(g, order[p] as int, order[k2] as int);
            let r2 = order[k2];
            assert(r2 < g.len());
            assert(seen0[r2 as int]);
            assert(mutual(g, r2 as int, root as int));
            assert(seen0[root as int]);
        }
    }
}

/// The strongly connected components of the graph of the kept edges, found by
/// Kosaraju's two passes (depth-first finishing order, then searches along
/// reversed edges from the latest-finished unassigned node), each listed in
/// increasing order, the components in the order of the nodes they are found
/// from ([`kosaraju_roots`], a topological order: no node of a later
/// component reaches an earlier one); with the number of kept edges.
pub fn components(node_count: usize, edges: &Vec<Edge>, keep: &Vec<bool>) -> (r: (Vec<Vec<usize>>, usize))
    requires
        edges_in_range(node_count as nat, edges@, keep@),
    ensures
        scc_partition(edge_graph(node_count as nat, edges@, keep@), lists_view(&r.0)),
        topologically_ordered(edge_graph(node_count as nat, edges@, keep@), lists_view(&r.0)),
        lists_view(&r.0).len() == kosaraju_roots(edge_graph(node_count as nat, edges@, keep@)).len(),
        forall|i: int|
            0 <= i < lists_view(&r.0).len() ==> #[trigger] lists_view(&r.0)[i].contains(
                kosaraju_roots(edge_graph(node_count as nat, edges@, keep@))[i],
            ),
        r.1 == kept_count(keep@),
{
    let (adjacency, reverse, kept) = build_graphs(node_count, edges, keep);
    let ghost g = adj_view(&adjacency);
    let ghost rg = adj_view(&reverse);
    let order = first_pass_order(&adjacency);
    let mut seen: Vec<bool> = Vec::new();
    while seen.len() < node_count
        invariant
            seen.len() <= node_count,
            forall|i: int| 0 <= i < seen.len() ==> !#[trigger] seen@[i],
        decreases node_count - seen.len(),
    {
        seen.push(false);
    }
    let mut out: Vec<Vec<usize>> = Vec::new();
    let mut p = order.len();
    proof {
        assert forall|u: usize, v: usize|
            u < g.len() && v < g.len() && #[trigger] seen@[u as int] && #[trigger] mutual(g, u as int, v as int) implies seen@[v as int] by {
        }
        assert forall|v: usize| v < g.len() implies (#[trigger] seen@[v as int] <==> in_some(lists_view(&out), v)) by {
            assert(lists_view(&out).len() == 0);
        }
    }
    while p > 0
        invariant
            g == adj_view(&adjacency),
            rg == adj_view(&reverse),
            g == edge_graph(node_count as nat, edges@, keep@),
            adj_wf(g),
            adj_wf(rg),
            g.len() == node_count,
            rg.len() == node_count,
            forall|u: int, v: int| arc(g, u, v) <==> arc(rg, v, u),
            finish_order(g, order@),
            p <= order.len(),
            seen.len() == node_count,
            seen_closed(g, seen@),
            forall|k: int| p <= k < order.len() ==> #[trigger] seen@[order@[k] as int],
            forall|i: int| 0 <= i < out.len() ==> #[trigger] lists_view(&out)[i].len() > 0 && strictly_sorted(lists_view(&out)[i]),
            forall|i: int, k: int| 0 <= i < out.len() && 0 <= k < lists_view(&out)[i].len() ==> #[trigger] lists_view(&out)[i][k] < node_count,
            forall|v: usize| v < node_count ==> (#[trigger] seen@[v as int] <==> in_some(lists_view(&out), v)),
            forall|i: int, j: int, v: usize|
                0 <= i < j < out.len() && #[trigger] lists_view(&out)[i].contains(v) ==> !#[trigger] lists_view(&out)[j].contains(v),
            forall|i: int, a: usize, b: usize|
                0 <= i < out.len() && #[trigger] lists_view(&out)[i].contains(a) && b < node_count ==> (#[trigger] lists_view(&out)[i].contains(b)
                    <==> mutual(g, a as int, b as int)),
            forall|v: usize|
                v < node_count && #[trigger] seen@[v as int] ==> exists|k: int|
                    p <= k < order@.len() && #[trigger] mutual(g, v as int, order@[k] as int),
            topologically_ordered(g, lists_view(&out)),
            order@ == finish_sequence(g),
            lists_view(&out).len() == class_roots_from(g, order@, p as int).len(),
            forall|i: int|
                0 <= i < lists_view(&out).len() ==> #[trigger] lists_view(&out)[i].contains(
                    class_roots_from(g, order@, p as int)[i],
                ),
        decreases p,
    {
        p = p - 1;
        let root = order[p];
        if seen[root] {
            proof {
                assert(root < node_count);
                let k = choose|k: int| p + 1 <= k < order@.len() && #[trigger] mutual(g, root as int, order@[k] as int);
                assert(!is_class_root(g, order@, p as int));
                assert(class_roots_from(g, order@, p as int) == class_roots_from(g, order@, p + 1));
            }
            continue;
        }
        let ghost seen0 = seen@;
        proof {
            assert(root < node_count);
            assert forall|k: int| p < k < order@.len() implies !#[trigger] mutual(g, order@[p as int] as int, order@[k] as int) by {
                if mutual(g, order@[p as int] as int, order@[k] as int) {
                    assert(seen@[order@[k] as int]);
                    assert(order@[k] < node_count);
                    assert(mutual(g, order@[k] as int, root as int));
                }
            }
            assert(is_class_root(g, order@, p as int));
            assert(class_roots_from(g, order@, p as int) == class_roots_from(g, order@, p + 1).push(root));
        }
        let mut component: Vec<usize> = Vec::new();
        let mut stack: Vec<usize> = Vec::new();
        stack.push(root);
        proof {
            lemma_unseen_set(seen@, root as int);
            assert(stack@.contains(root)) by {
                assert(stack@[0] == root);
            }
        }
        seen.set(root, true);
        proof {
            assert forall|v: usize| #[trigger] stack@.contains(v) implies v == root by {
                let k = choose|k: int| 0 <= k < stack@.len() && stack@[k] == v;
            }
            lemma_reach_refl(g, root as int);
            assert forall|v: usize| v < g.len() implies (#[trigger] seen@[v as int] <==> (seen0[v as int]
                || component@.contains(v) || stack@.contains(v))) by {
                if v == root {
                    assert(stack@.contains(root));
                }
            }
            assert(class_search_inv(g, seen0, seen@, component@, stack@, root));
        }
        while stack.len() > 0
            invariant
                reverse.len() == node_count,
                g == adj_view(&adjacency),
                rg == adj_view(&reverse),
                adj_wf(g),
                adj_wf(rg),
                g.len() == node_count,
                rg.len() == node_count,
                forall|u: int, v: int| arc(g, u, v) <==> arc(rg, v, u),
                class_search_inv(g, seen0, seen@, component@, stack@, root),
                class_closed(g, seen@, component@),
            decreases unseen_count(seen@) + stack.len(),
        {
            let ghost s_before = seen@;
            let ghost st_before = stack@;
            let ghost c_before = component@;
            proof {
                lemma_search_pop(g, seen0, seen@, component@, stack@, root);
            }
            assert(st_before.contains(st_before.last()));
            let node = stack.pop().unwrap();
            component.push(node);
            assert(stack@ == st_before.drop_last());
            assert(node < node_count);
            let preds = &reverse[node];
            assert(preds@ == rg[node as int]);
            let mut k: usize = 0;
            while k < preds.len()
                invariant
                    g == adj_view(&adjacency),
                    rg == adj_view(&reverse),
                    adj_wf(g),
                    adj_wf(rg),
                    g.len() == node_count,
                    rg.len() == node_count,
                    node < node_count,
                    preds@ == rg[node as int],
                    forall|u: int, v: int| arc(g, u, v) <==> arc(rg, v, u),
                    class_search_inv(g, seen0, seen@, component@, stack@, root),
                    class_closed_except(g, seen@, component@, node),
                    component@.contains(node),
                    k <= preds.len(),
                    forall|j: int| 0 <= j < k ==> #[trigger] seen@[preds@[j] as int],
                    unseen_count(seen@) + stack.len() < unseen_count(s_before) + st_before.len(),
                decreases preds.len() - k,
            {
                let t = preds[k];
                proof {
                    assert(rg[node as int][k as int] < rg.len());
                    assert(arc(rg, node as int, t as int));
                    assert(arc(g, t as int, node as int));
                }
                if !seen[t] {
                    proof {
                        lemma_search_push(g, seen0, seen@, component@, stack@, root, node, t);
                        lemma_unseen_set(seen@, t as int);
                    }
                    seen.set(t, true);
                    stack.push(t);
                }
                k = k + 1;
            }
            proof {
                assert forall|x: usize, y: int| #[trigger] component@.contains(x) && #[trigger] arc(g, y, x as int) implies 0 <= y && seen@[y] by {
                    if x == node {
                        assert(arc(rg, node as int, y));
                        let j = choose|j: int| 0 <= j < rg[node as int].len() && #[trigger] rg[node as int][j] as int == y;
                        assert(seen@[preds@[j] as int]);
                    }
                }
            }
        }
        proof {
            assert forall|k: int| p < k < order.len() implies #[trigger] seen0[order@[k] as int] by {}
            lemma_class_complete(g, order@, p as int, seen0, seen@, component@, root);
        }
        let mut sorted: Vec<usize> = Vec::new();
        let mut i: usize = 0;
        while i < component.len()
            invariant
                i <= component.len(),
                component@.no_duplicates(),
                strictly_sorted(sorted@),
                forall|y: usize| #[trigger] sorted@.contains(y) <==> component@.take(i as int).contains(y),
            decreases component.len() - i,
        {
            let x = component[i];
            assert(!sorted@.contains(x)) by {
                if component@.take(i as int).contains(x) {
                    let j = choose|j: int| 0 <= j < i && #[trigger] component@.take(i as int)[j] == x;
                    assert(component@[j] == component@[i as int]);
                }
            }
            insert_sorted(&mut sorted, x);
            assert forall|y: usize| #[trigger] sorted@.contains(y) <==> component@.take(i + 1).contains(y) by {
                assert(component@.take(i + 1) =~= component@.take(i as int).push(x));
                assert(component@.take(i + 1)[i as int] == x);
                if component@.take(i as int).contains(y) {
                    let j = choose|j: int| 0 <= j < i && #[trigger] component@.take(i as int)[j] == y;
                    assert(component@.take(i + 1)[j] == y);
                }
                if component@.take(i + 1).contains(y) {
                    let j = choose|j: int| 0 <= j < i + 1 && #[trigger] component@.take(i + 1)[j] == y;
                    if j < i {
                        assert(component@.take(i as int)[j] == y);
                    }
                }
            }
            i = i + 1;
        }
        assert(component@.take(component.len() as int) =~= component@);
        let ghost old_out = lists_view(&out);
        out.push(sorted);
        proof {
            let lv = lists_view(&out);
            let c = sorted@;
            assert(lv =~= old_out.push(c));
            assert(lv[old_out.len() as int] == c);
            assert forall|v: usize| v < node_count implies #[trigger] c.contains(v) <==> mutual(g, root as int, v as int) by {
            }
            assert(c.contains(root)) by {
                lemma_reach_refl(g, root as int);
            }
            assert(c.len() > 0);
            assert forall|k: int| 0 <= k < c.len() implies #[trigger] c[k] < node_count by {
                assert(c.contains(c[k]));
                assert(component@.contains(c[k]));
            }
            assert forall|v: usize| v < node_count implies (#[trigger] seen@[v as int] <==> in_some(lv, v)) by {
                if seen@[v as int] {
                    if seen0[v as int] {
                        assert(in_some(old_out, v));
                        let i = choose|i: int| 0 <= i < old_out.len() && #[trigger] old_out[i].contains(v);
                        assert(lv[i] == old_out[i]);
                    } else {
                        assert(component@.contains(v));
                        assert(lv[old_out.len() as int].contains(v));
                    }
                }
                if in_some(lv, v) {
                    let i = choose|i: int| 0 <= i < lv.len() && #[trigger] lv[i].contains(v);
                    if i < old_out.len() {
                        assert(old_out[i] == lv[i]);
                        assert(in_some(old_out, v));
                        assert(seen0[v as int]);
                    } else {
                        assert(component@.contains(v));
                    }
                }
            }
            assert forall|i: int, j: int, v: usize|
                0 <= i < j < lv.len() && #[trigger] lv[i].contains(v) implies !#[trigger] lv[j].contains(v) by {
                if j < old_out.len() {
                    assert(lv[i] == old_out[i] && lv[j] == old_out[j]);
                } else {
                    assert(lv[i] == old_out[i]);
                    assert(in_some(old_out, v));
                    assert(seen0[v as int]);
                    if lv[j].contains(v) {
                        assert(component@.contains(v));
                    }
                }
            }
            assert forall|i: int, a: usize, b: usize|
                0 <= i < lv.len() && #[trigger] lv[i].contains(a) && b < node_count implies (#[trigger] lv[i].contains(b)
                    <==> mutual(g, a as int, b as int)) by {
                if i < old_out.len() {
                    assert(lv[i] == old_out[i]);
                } else {
                    assert(mutual(g, root as int, a as int));
                    if mutual(g, root as int, b as int) {
                        lemma_mutual_trans(g, a as int, root as int, b as int);
                    }
                    if mutual(g, a as int, b as int) {
                        lemma_mutual_trans(g, root as int, a as int, b as int);
                    }
                }
            }
            assert forall|u: usize, v: usize|
                u < g.len() && v < g.len() && #[trigger] seen@[u as int] && #[trigger] mutual(g, u as int, v as int) implies seen@[v as int] by {
                if seen0[u as int] {
                    assert(seen0[v as int]);
                } else {
                    assert(component@.contains(u));
                    assert(mutual(g, root as int, u as int));
                    lemma_mutual_trans(g, root as int, u as int, v as int);
                    assert(component@.contains(v));
                }
            }
            assert(seen@[root as int]);
            assert forall|v: usize| v < node_count && #[trigger] seen@[v as int] implies exists|k: int|
                p <= k < order@.len() && #[trigger] mutual(g, v as int, order@[k] as int) by {
                if !seen0[v as int] {
                    assert(component@.contains(v));
                    assert(mutual(g, root as int, v as int));
                    assert(mutual(g, v as int, order@[p as int] as int));
                }
            }
            assert forall|i: int, j: int, a: usize, b: usize|
                0 <= i < j < lv.len() && #[trigger] lv[j].contains(a) && #[trigger] lv[i].contains(b) implies !reach(
                g,
                a as int,
                b as int,
            ) by {
                assert(lv[i] == old_out[i]);
                if j < old_out.len() {
                    assert(lv[j] == old_out[j]);
                } else {
                    assert(in_some(old_out, b));
                    assert(seen0[b as int]);
                    assert(b < node_count);
                    assert(component@.contains(a));
                    assert(mutual(g, root as int, a as int));
                    lemma_root_reaches_no_seen(g, order@, p as int, seen0, root, b);
                    if reach(g, a as int, b as int) {
                        lemma_reach_trans(g, root as int, a as int, b as int);
                    }
                }
            }
            let cr = class_roots_from(g, order@, p as int);
            assert(cr == class_roots_from(g, order@, p + 1).push(root));
            assert forall|i: int| 0 <= i < lv.len() implies #[trigger] lv[i].contains(cr[i]) by {
                if i < old_out.len() {
                    assert(lv[i] == old_out[i]);
                    assert(cr[i] == class_roots_from(g, order@, p + 1)[i]);
                } else {
                    assert(cr[i] == root);
                }
            }
        }
    }
    proof {
        let lv = lists_view(&out);
        assert forall|v: usize| v < g.len() implies #[trigger] in_some(lv, v) by {
            assert(order@.contains(v));
            let k = choose|k: int| 0 <= k < order@.len() && order@[k] == v;
            assert(seen@[order@[k] as int]);
        }
    }
    (out, kept)
}

/// Every edge is kept.
pub open spec fn all_kept(edges: Seq<Edge>) -> Seq<bool> {
    Seq::new(edges.len(), |i: int| true)
}

/// Every edge joins two of the `n` nodes.
pub open spec fn all_edges_in_range(n: nat, edges: Seq<Edge>) -> bool {
    forall|i: int| 0 <= i < edges.len() ==> #[trigger] edges[i].source < n && edges[i].target < n
}

/// Some goal node other than `start` can be reached from `start`.
pub open spec fn goal_reachable(g: Seq<Seq<usize>>, start: usize, goal: Seq<bool>) -> bool {
    exists|v: usize| v < g.len() && v != start && #[trigger] goal[v as int] && reach(g, start as int, v as int)
}

/// The breadth-first search state.
pub open spec fn bfs_inv(
    g: Seq<Seq<usize>>,
    start: usize,
    goal: Seq<bool>,
    seen: Seq<bool>,
    parent: Seq<Option<usize>>,
    dist: Seq<nat>,
    queue: Seq<usize>,
    head: int,
) -> bool {
    let n = g.len();
    &&& seen.len() == n
    &&& parent.len() == n
    &&& dist.len() == n
    &&& goal.len() == n
    &&& start < n
    &&& 0 <= head <= queue.len()
    &&& queue.len() > 0 && queue[0] == start
    &&& queue.no_duplicates()
    &&& forall|i: int| 0 <= i < queue.len() ==> #[trigger] queue[i] < n
    &&& forall|v: usize| v < n ==> (#[trigger] seen[v as int] <==> queue.contains(v))
    &&& forall|j: int, k: int|
        0 <= j < head && 0 <= k < g[queue[j] as int].len() ==> #[trigger] seen[g[queue[j] as int][k] as int]
    &&& forall|j: int| 0 <= j < head ==> (#[trigger] queue[j] == start || !goal[queue[j] as int])
    &&& parent[start as int] is None
    &&& dist[start as int] == 0
    &&& forall|v: usize|
        v < n && #[trigger] seen[v as int] ==> reach(g, start as int, v as int) && (v != start ==> (parent[v as int] matches Some(u)
            && u < n && seen[u as int] && arc(g, u as int, v as int) && dist[u as int] + 1 == dist[v as int]))
}

proof fn lemma_bfs_closed(g: Seq<Seq<usize>>, start: usize, goal: Seq<bool>, seen: Seq<bool>, parent: Seq<Option<usize>>, dist: Seq<nat>, queue: Seq<usize>)
    requires
        adj_wf(g),
        bfs_inv(g, start, goal, seen, parent, dist, queue, queue.len() as int),
    ensures
        !goal_reachable(g, start, goal),
{
    if goal_reachable(g, start, goal) {
        let v = choose|v: usize| v < g.len() && v != start && #[trigger] goal[v as int] && reach(g, start as int, v as int);
        if !seen[v as int] {
            let w = choose|w: Seq<int>| #[trigger] is_walk(g, w) && w[0] == start as int && w.last() == v as int;
            let inside = |x: int| 0 <= x < g.len() && seen[x];
            assert(queue.contains(start));
            lemma_walk_exit(g, w, inside);
            let k = choose|k: int|
                0 <= k < w.len() - 1 && #[trigger] inside(w[k]) && !inside(w[k + 1]) && reach(g, w[0], w[k])
                    && reach(g, w[k + 1], w.last());
            assert(arc(g, w[k], w[k + 1]));
            lemma_arc_target(g, w[k], w[k + 1]);
            let x = w[k] as usize;
            assert(queue.contains(x));
            let j = choose|j: int| 0 <= j < queue.len() && queue[j] == x;
            let kk = choose|kk: int| 0 <= kk < g[w[k]].len() && #[trigger] g[w[k]][kk] as int == w[k + 1];
            assert(seen[g[queue[j] as int][kk] as int]);
            assert(false);
        }
        assert(queue.contains(v));
        let j = choose|j: int| 0 <= j < queue.len() && queue[j] == v;
        assert(queue[j] == start || !goal[queue[j] as int]);
    }
}

/// The queue is in order of distance.
pub open spec fn dist_sorted(dist: Seq<nat>, queue: Seq<usize>) -> bool {
    forall|i: int, j: int|
        #![trigger dist[queue[i] as int], dist[queue[j] as int]]
        0 <= i <= j < queue.len() ==> dist[queue[i] as int] <= dist[queue[j] as int]
}

/// Nothing queued is more than one step beyond `node`.
pub open spec fn dist_spread(dist: Seq<nat>, queue: Seq<usize>, node: usize) -> bool {
    forall|j: int| 0 <= j < queue.len() ==> #[trigger] dist[queue[j] as int] <= dist[node as int] + 1
}

/// Every successor of the first `h` queued nodes is at most one step beyond it.
pub open spec fn succ_bounded(g: Seq<Seq<usize>>, dist: Seq<nat>, queue: Seq<usize>, h: int) -> bool {
    forall|j: int, k: int|
        0 <= j < h && 0 <= k < g[queue[j] as int].len() ==> #[trigger] dist[g[queue[j] as int][k] as int] <= dist[queue[j] as int] + 1
}

/// The layering of a breadth-first search: the queue is in order of
/// distance, nothing queued is more than one step beyond the node last
/// taken, and every successor of a taken node is at most one step beyond it.
pub open spec fn bfs_layers(g: Seq<Seq<usize>>, dist: Seq<nat>, queue: Seq<usize>, head: int) -> bool {
    &&& head == 0 ==> queue.len() == 1
    &&& dist_sorted(dist, queue)
    &&& head >= 1 ==> dist_spread(dist, queue, queue[head - 1])
    &&& succ_bounded(g, dist, queue, head)
}

/// Queueing a newly found successor `t` of `node` one step beyond it keeps
/// the layering.
proof fn lemma_bfs_push_layers(
    g: Seq<Seq<usize>>,
    d0: Seq<nat>,
    q0: Seq<usize>,
    seen0: Seq<bool>,
    h: int,
    node: usize,
    t: usize,
    succ: Seq<usize>,
    k: int,
)
    requires
        adj_wf(g),
        d0.len() == g.len(),
        seen0.len() == g.len(),
        node < g.len(),
        t < g.len(),
        forall|i: int| 0 <= i < q0.len() ==> #[trigger] q0[i] < g.len(),
        forall|v: usize| v < g.len() ==> (#[trigger] seen0[v as int] <==> q0.contains(v)),
        !seen0[t as int],
        seen0[node as int],
        0 <= h <= q0.len(),
        forall|j: int, kk: int| 0 <= j < h && 0 <= kk < g[q0[j] as int].len() ==> #[trigger] seen0[g[q0[j] as int][kk] as int],
        dist_sorted(d0, q0),
        dist_spread(d0, q0, node),
        succ_bounded(g, d0, q0, h),
        succ == g[node as int],
        0 <= k < succ.len(),
        succ[k] == t,
        forall|j: int| 0 <= j < k ==> #[trigger] seen0[succ[j] as int],
        forall|j: int| 0 <= j < k ==> #[trigger] d0[succ[j] as int] <= d0[node as int] + 1,
    ensures
        ({
            let d1 = d0.update(t as int, d0[node as int] + 1);
            let q1 = q0.push(t);
            &&& dist_sorted(d1, q1)
            &&& dist_spread(d1, q1, node)
            &&& succ_bounded(g, d1, q1, h)
            &&& forall|j: int| 0 <= j < k + 1 ==> #[trigger] d1[succ[j] as int] <= d1[node as int] + 1
        }),
{
    let d1 = d0.update(t as int, d0[node as int] + 1);
    let q1 = q0.push(t);
    assert(node != t);
    assert forall|i: int| 0 <= i < q0.len() implies q0[i] != t by {
        assert(q0.contains(q0[i]));
    }
    assert forall|i: int, j: int|
        #![trigger d1[q1[i] as int], d1[q1[j] as int]]
        0 <= i <= j < q1.len() implies d1[q1[i] as int] <= d1[q1[j] as int] by {
        assert(q1[i] == q0[i] || i == q0.len());
        if j < q0.len() {
            assert(q1[i] == q0[i] && q1[j] == q0[j]);
            assert(d0[q0[i] as int] <= d0[q0[j] as int]);
        } else if i < q0.len() {
            assert(q1[i] == q0[i]);
            assert(d0[q0[i] as int] <= d0[node as int] + 1);
        }
    }
    assert forall|j: int| 0 <= j < q1.len() implies #[trigger] d1[q1[j] as int] <= d1[node as int] + 1 by {
        if j < q0.len() {
            assert(q1[j] == q0[j]);
            assert(d0[q0[j] as int] <= d0[node as int] + 1);
        }
    }
    assert forall|j: int, kk: int|
        0 <= j < h && 0 <= kk < g[q1[j] as int].len() implies #[trigger] d1[g[q1[j] as int][kk] as int] <= d1[q1[j] as int] + 1 by {
        assert(q1[j] == q0[j]);
        assert(seen0[g[q0[j] as int][kk] as int]);
        assert(d0[g[q0[j] as int][kk] as int] <= d0[q0[j] as int] + 1);
    }
    assert forall|j: int| 0 <= j < k + 1 implies #[trigger] d1[succ[j] as int] <= d1[node as int] + 1 by {
        if j < k {
            assert(succ[j] < g.len());
            assert(seen0[succ[j] as int]);
            assert(succ[j] != t);
        }
    }
}

/// Every walk from `start` either ends at a found node no closer than the
/// walk's length, or at an unfound one at least one step beyond the head of
/// the queue.
#[verifier::spinoff_prover]
#[verifier::rlimit(30)]
proof fn lemma_bfs_walk_bound(
    g: Seq<Seq<usize>>,
    start: usize,
    goal: Seq<bool>,
    seen: Seq<bool>,
    parent: Seq<Option<usize>>,
    dist: Seq<nat>,
    queue: Seq<usize>,
    head: int,
    w: Seq<int>,
)
    requires
        adj_wf(g),
        bfs_inv(g, start, goal, seen, parent, dist, queue, head),
        bfs_layers(g, dist, queue, head),
        head < queue.len(),
        is_walk(g, w),
        w[0] == start as int,
    ensures
        0 <= w.last() < g.len(),
        seen[w.last()] ==> dist[w.last()] <= w.len() - 1,
        !seen[w.last()] ==> w.len() - 1 >= dist[queue[head] as int] + 1,
    decreases w.len(),
{
    let v = w.last();
    if w.len() == 1 {
        assert(v == start as int);
    } else {
        let p = w.drop_last();
        assert(is_walk(g, p)) by {
            assert forall|i: int| 0 <= i < p.len() - 1 implies #[trigger] arc(g, p[i], p[i + 1]) by {
                assert(arc(g, w[i], w[i + 1]));
            }
        }
        lemma_bfs_walk_bound(g, start, goal, seen, parent, dist, queue, head, p);
        let u = p.last();
        let i = w.len() - 2;
        assert(u == w[i]);
        assert(arc(g, w[i], w[i + 1]));
        assert(w[i + 1] == v);
        lemma_arc_target(g, u, v);
        let kk = choose|kk: int| 0 <= kk < g[u].len() && #[trigger] g[u][kk] as int == v;
        let d = dist[queue[head] as int];
        // every found node is at most one step beyond the head
        assert(forall|x: usize| x < g.len() && #[trigger] seen[x as int] ==> dist[x as int] <= d + 1) by {
            assert forall|x: usize| x < g.len() && #[trigger] seen[x as int] implies dist[x as int] <= d + 1 by {
                assert(queue.contains(x));
                let j = choose|j: int| 0 <= j < queue.len() && queue[j] == x;
                if head == 0 {
                    assert(j == 0);
                } else {
                    assert(dist[queue[j] as int] <= dist[queue[head - 1] as int] + 1);
                    assert(dist[queue[head - 1] as int] <= dist[queue[head] as int]);
                }
            }
        }
        if seen[u] {
            let uu = u as usize;
            assert(queue.contains(uu));
            let j = choose|j: int| 0 <= j < queue.len() && queue[j] == uu;
            if j < head {
                assert(seen[g[queue[j] as int][kk] as int]);
                assert(dist[g[queue[j] as int][kk] as int] <= dist[queue[j] as int] + 1);
            } else {
                assert(dist[queue[head] as int] <= dist[queue[j] as int]);
                if seen[v] {
                    assert(dist[(v as usize) as int] <= d + 1);
                }
            }
        } else {
            if seen[v] {
                assert(dist[(v as usize) as int] <= d + 1);
            }
        }
    }
}

/// A shortest-first search from `start` along the edges: the first node other
/// than `start` in the goal set that it dequeues, and the tree path to it,
/// which no walk from `start` to a goal node other than `start` is shorter
/// than; `None` when no such node can be reached.
#[verifier::spinoff_prover]
#[verifier::rlimit(40)]
pub fn path_between(node_count: usize, edges: &Vec<Edge>, start: usize, goal: &Vec<bool>) -> (r: Option<Vec<usize>>)
    requires
        all_edges_in_range(node_count as nat, edges@),
        start < node_count,
        goal.len() == node_count,
    ensures
        r is None <==> !goal_reachable(edge_graph(node_count as nat, edges@, all_kept(edges@)), start, goal@),
        r matches Some(path) ==> {
            &&& path.len() >= 2
            &&& path@[0] == start
            &&& path@.last() != start
            &&& goal@[path@.last() as int]
            &&& is_walk(edge_graph(node_count as nat, edges@, all_kept(edges@)), path@.map_values(|x: usize| x as int))
            &&& forall|j: int| 0 <= j < path@.len() ==> #[trigger] path@[j] < node_count
            &&& forall|w: Seq<int>|
                #[trigger] is_walk(edge_graph(node_count as nat, edges@, all_kept(edges@)), w) && w[0] == start
                    && w.last() != start && 0 <= w.last() < node_count && goal@[w.last()] ==> path.len() <= w.len()
        },
{
    let mut keep: Vec<bool> = Vec::new();
    while keep.len() < edges.len()
        invariant
            keep.len() <= edges.len(),
            forall|i: int| 0 <= i < keep.len() ==> #[trigger] keep@[i],
        decreases edges.len() - keep.len(),
    {
        keep.push(true);
    }
    assert(keep@ =~= all_kept(edges@));
    let (adjacency, _reverse, _kept) = build_graphs(node_count, edges, &keep);
    let ghost g = adj_view(&adjacency);
    let mut seen: Vec<bool> = Vec::new();
    let mut parent: Vec<Option<usize>> = Vec::new();
    let ghost mut dist: Seq<nat> = Seq::empty();
    while seen.len() < node_count
        invariant
            seen.len() <= node_count,
            parent.len() == seen.len(),
            dist.len() == seen.len(),
            forall|i: int| 0 <= i < seen.len() ==> !#[trigger] seen@[i] && parent@[i] is None && dist[i] == 0,
        decreases node_count - seen.len(),
    {
        seen.push(false);
        parent.push(None);
        proof {
            dist = dist.push(0);
        }
    }
    assert(!seen@[start as int]);
    assert(parent@[start as int] is None && dist[start as int] == 0);
    seen.set(start, true);
    let mut queue: Vec<usize> = Vec::new();
    queue.push(start);
    let mut head: usize = 0;
    proof {
        lemma_reach_refl(g, start as int);
        assert forall|v: usize| v < node_count implies (#[trigger] seen@[v as int] <==> queue@.contains(v)) by {
            if v == start {
                assert(queue@[0] == v);
            }
            if queue@.contains(v) {
                let k = choose|k: int| 0 <= k < queue@.len() && queue@[k] == v;
            }
        }
        assert forall|v: usize|
            v < node_count && #[trigger] seen@[v as int] implies reach(g, start as int, v as int) && (v != start ==> (parent@[v as int] matches Some(u)
                && u < node_count && seen@[u as int] && arc(g, u as int, v as int) && dist[u as int] + 1 == dist[v as int])) by {
            assert(v == start);
        }
        assert(bfs_inv(g, start, goal@, seen@, parent@, dist, queue@, 0));
        assert(bfs_layers(g, dist, queue@, 0));
    }
    let mut end: Option<usize> = None;
    while head < queue.len()
        invariant_except_break
            end is None,
        invariant
            g == adj_view(&adjacency),
            adj_wf(g),
            g.len() == node_count,
            bfs_inv(g, start, goal@, seen@, parent@, dist, queue@, head as int),
            bfs_layers(g, dist, queue@, head as int),
        ensures
            end is None ==> head == queue.len(),
            end matches Some(e) ==> e < node_count && e != start && goal@[e as int] && seen@[e as int] && head
                < queue.len() && queue@[head as int] == e,
            bfs_inv(g, start, goal@, seen@, parent@, dist, queue@, head as int),
            bfs_layers(g, dist, queue@, head as int),
        decreases unseen_count(seen@) + queue.len() - head,
    {
        let node = queue[head];
        if node != start && goal[node] {
            proof {
                assert(queue@.contains(node));
            }
            end = Some(node);
            break;
        }
        proof {
            assert forall|j: int| 0 <= j < queue@.len() implies #[trigger] dist[queue@[j] as int] <= dist[node as int]
                + 1 by {
                if head == 0 {
                    assert(j == 0);
                } else {
                    assert(dist[queue@[j] as int] <= dist[queue@[head - 1] as int] + 1);
                    assert(dist[queue@[head - 1] as int] <= dist[queue@[head as int] as int]);
                }
            }
        }
        head = head + 1;
        let ghost measure = unseen_count(seen@) + queue.len() - head;
        let succ = &adjacency[node];
        let mut k: usize = 0;
        while k < succ.len()
            invariant
                g == adj_view(&adjacency),
                adj_wf(g),
                g.len() == node_count,
                succ@ == g[node as int],
                node < node_count,
                head >= 1,
                head <= queue.len(),
                queue@[head - 1] == node,
                bfs_inv(g, start, goal@, seen@, parent@, dist, queue@, head - 1),
                unseen_count(seen@) + queue.len() - head == measure,
                node == start || !goal@[node as int],
                k <= succ.len(),
                forall|j: int| 0 <= j < k ==> #[trigger] seen@[succ@[j] as int],
                dist_sorted(dist, queue@),
                dist_spread(dist, queue@, node),
                succ_bounded(g, dist, queue@, head - 1),
                forall|j: int| 0 <= j < k ==> #[trigger] dist[succ@[j] as int] <= dist[node as int] + 1,
            decreases succ.len() - k,
        {
            let t = succ[k];
            proof {
                assert(g[node as int][k as int] < g.len());
                assert(g[node as int][k as int] as int == t as int);
                assert(arc(g, node as int, t as int));
                if seen@[t as int] {
                    assert(queue@.contains(t));
                    let j = choose|j: int| 0 <= j < queue@.len() && queue@[j] == t;
                    assert(dist[queue@[j] as int] <= dist[node as int] + 1);
                }
            }
            if !seen[t] {
                let ghost q0 = queue@;
                let ghost s0 = seen@;
                proof {
                    lemma_unseen_set(seen@, t as int);
                    assert(q0[head - 1] == node);
                    assert(q0.contains(node));
                    assert(s0[node as int]);
                    lemma_bfs_push_layers(g, dist, q0, s0, head - 1, node, t, succ@, k as int);
                }
                seen.set(t, true);
                parent.set(t, Some(node));
                proof {
                    dist = dist.update(t as int, dist[node as int] + 1);
                }
                queue.push(t);
                proof {
                    assert(!q0.contains(t));
                    assert forall|v: usize| v < node_count implies (#[trigger] seen@[v as int] <==> queue@.contains(v)) by {
                        if queue@.contains(v) {
                            let kk = choose|kk: int| 0 <= kk < queue@.len() && queue@[kk] == v;
                            if kk < q0.len() {
                                assert(q0.contains(v));
                            }
                        }
                        if q0.contains(v) {
                            let kk = choose|kk: int| 0 <= kk < q0.len() && q0[kk] == v;
                            assert(queue@[kk] == v);
                        }
                        if v == t {
                            assert(queue@[q0.len() as int] == t);
                        }
                    }
                    assert(queue@.no_duplicates());
                    assert(seen@[node as int]);
                    assert(reach(g, start as int, node as int));
                    lemma_reach_arc(g, node as int, t as int);
                    lemma_reach_trans(g, start as int, node as int, t as int);
                    assert forall|v: usize|
                        v < node_count && #[trigger] seen@[v as int] implies reach(g, start as int, v as int) && (v != start ==> (parent@[v as int] matches Some(u)
                            && u < node_count && seen@[u as int] && arc(g, u as int, v as int) && dist[u as int] + 1 == dist[v as int])) by {
                        if v != t {
                            assert(s0[v as int]);
                            if v != start {
                                let u = parent@[v as int]->0;
                                assert(u != t);
                            }
                        }
                    }
                    assert forall|j: int, kk: int|
                        0 <= j < head - 1 && 0 <= kk < g[queue@[j] as int].len() implies #[trigger] seen@[g[queue@[j] as int][kk] as int] by {
                        assert(queue@[j] == q0[j]);
                        assert(s0[g[q0[j] as int][kk] as int]);
                    }
                    assert forall|j: int| 0 <= j < head - 1 implies (#[trigger] queue@[j] == start || !goal@[queue@[j] as int]) by {
                        assert(queue@[j] == q0[j]);
                    }
                    assert forall|j: int| 0 <= j < k implies #[trigger] seen@[succ@[j] as int] by {
                        assert(s0[succ@[j] as int]);
                    }
                }
            }
            k = k + 1;
        }
        proof {
            assert forall|j: int, kk: int|
                0 <= j < head && 0 <= kk < g[queue@[j] as int].len() implies #[trigger] seen@[g[queue@[j] as int][kk] as int] by {
                if j == head - 1 {
                    assert(seen@[succ@[kk] as int]);
                }
            }
        }
    }
    match end {
        None => {
            proof {
                lemma_bfs_closed(g, start, goal@, seen@, parent@, dist, queue@);
            }
            None
        },
        Some(e) => {
            let mut back: Vec<usize> = Vec::new();
            back.push(e);
            let mut node = e;
            while parent[node].is_some()
                invariant
                    g == adj_view(&adjacency),
                    g.len() == node_count,
                    bfs_inv(g, start, goal@, seen@, parent@, dist, queue@, head as int),
                    node < node_count,
                    seen@[node as int],
                    back.len() >= 1,
                    back@[0] == e,
                    back@.last() == node,
                    forall|i: int| 0 <= i < back.len() - 1 ==> #[trigger] arc(g, back@[i + 1] as int, back@[i] as int),
                    back.len() == 1 ==> node == e,
                    e != start,
                    forall|i: int| 0 <= i < back.len() ==> #[trigger] back@[i] < node_count,
                    back.len() + dist[node as int] == dist[e as int] + 1,
                decreases dist[node as int],
            {
                let prev = parent[node].unwrap();
                proof {
                    if node == start {
                        assert(parent@[start as int] is None);
                    }
                }
                back.push(prev);
                node = prev;
            }
            assert(node == start);
            let mut path: Vec<usize> = Vec::new();
            let mut i = back.len();
            while i > 0
                invariant
                    i <= back.len(),
                    path.len() == back.len() - i,
                    forall|j: int| 0 <= j < path.len() ==> #[trigger] path@[j] == back@[back.len() - 1 - j],
                    forall|j: int| 0 <= j < back.len() ==> #[trigger] back@[j] < node_count,
                decreases i,
            {
                i = i - 1;
                path.push(back[i]);
            }
            proof {
                let pv = path@.map_values(|x: usize| x as int);
                assert(path@[0] == start);
                assert(path@.last() == e);
                assert(back.len() >= 2);
                assert forall|j: int| 0 <= j < path@.len() implies #[trigger] path@[j] < node_count by {
                    assert(path@[j] == back@[back.len() - 1 - j]);
                }
                assert forall|j: int| 0 <= j < pv.len() - 1 implies #[trigger] arc(g, pv[j], pv[j + 1]) by {
                    let bj = back.len() - 2 - j;
                    assert(arc(g, back@[bj + 1] as int, back@[bj] as int));
                }
                assert(path.len() == dist[e as int] + 1);
                assert forall|w: Seq<int>|
                    #[trigger] is_walk(g, w) && w[0] == start && w.last() != start && 0 <= w.last() < node_count
                        && goal@[w.last()] implies path.len() <= w.len() by {
                    lemma_bfs_walk_bound(g, start, goal@, seen@, parent@, dist, queue@, head as int, w);
                    let v = w.last() as usize;
                    if seen@[v as int] {
                        assert(queue@.contains(v));
                        let j = choose|j: int| 0 <= j < queue@.len() && queue@[j] == v;
                        if j < head {
                            assert(queue@[j] == start || !goal@[queue@[j] as int]);
                        }
                        assert(dist[queue@[head as int] as int] <= dist[queue@[j] as int]);
                    }
                }
            }
            Some(path)
        },
    }
}
} // verus!
