//! Cycles among formula cells: the strongly connected components of a cell
//! graph that contain a cycle, each listed in cell order and the list ordered
//! by first cell.
use vstd::prelude::*;
use crate::address::{CellId, CellView, cell_lt, cells_sorted, cells_view, find_cell, lemma_cell_lt_irrefl};
use crate::graph::{Edge, all_kept, components, edge_graph, lists_view, mutual, scc_partition, in_some, strictly_sorted, lemma_edge_graph_len};

verus! {

/// The position of `c` among distinct cells.
pub open spec fn cell_index(nodes: Seq<CellView>, c: CellView) -> int {
    choose|i: int| 0 <= i < nodes.len() && nodes[i] == c
}

/// The values of a list of cell pairs.
pub open spec fn pairs_view(v: Seq<(CellId, CellId)>) -> Seq<(CellView, CellView)> {
    v.map_values(|e: (CellId, CellId)| (e.0@, e.1@))
}

/// The cell arcs as arcs between positions.
pub open spec fn index_edges(nodes: Seq<CellView>, edges: Seq<(CellView, CellView)>) -> Seq<Edge> {
    edges.map_values(
        |e: (CellView, CellView)|
            Edge { source: cell_index(nodes, e.0) as usize, target: cell_index(nodes, e.1) as usize, mask: 0 },
    )
}

/// The graph on the positions of `nodes` with an arc for each pair of `edges`.
pub open spec fn cell_graph(nodes: Seq<CellView>, edges: Seq<(CellView, CellView)>) -> Seq<Seq<usize>> {
    edge_graph(nodes.len(), index_edges(nodes, edges), all_kept(index_edges(nodes, edges)))
}

/// Two cells lie on a common cycle of the cell graph (or are equal).
pub open spec fn cell_mutual(nodes: Seq<CellView>, edges: Seq<(CellView, CellView)>, a: CellView, b: CellView) -> bool {
    mutual(cell_graph(nodes, edges), cell_index(nodes, a), cell_index(nodes, b))
}

/// A cell lies on a cycle: it shares one with another cell, or reads itself.
pub open spec fn cell_on_cycle(nodes: Seq<CellView>, edges: Seq<(CellView, CellView)>, a: CellView) -> bool {
    ||| exists|b: CellView| #[trigger] nodes.contains(b) && b != a && cell_mutual(nodes, edges, a, b)
    ||| edges.contains((a, a))
}

/// Every arc joins two of the nodes.
pub open spec fn edges_within(nodes: Seq<CellView>, edges: Seq<(CellView, CellView)>) -> bool {
    forall|k: int| 0 <= k < edges.len() ==> nodes.contains(#[trigger] edges[k].0) && nodes.contains(edges[k].1)
}

/// The lists of cells of a result.
pub open spec fn cell_lists_view(v: Seq<Vec<CellId>>) -> Seq<Seq<CellView>> {
    v.map_values(|c: Vec<CellId>| cells_view(c@))
}

/// The cyclic components: each a nonempty list in cell order of nodes, holding
/// exactly the nodes that share a cycle with its members, with more than one
/// member or a self-arc; every node on a cycle is in one; ordered by first cell.
pub open spec fn cyclic_components_of(
    nodes: Seq<CellView>,
    edges: Seq<(CellView, CellView)>,
    r: Seq<Seq<CellView>>,
) -> bool {
    &&& forall|i: int| 0 <= i < r.len() ==> #[trigger] r[i].len() > 0 && cells_sorted(r[i])
    &&& forall|i: int, k: int| 0 <= i < r.len() && 0 <= k < r[i].len() ==> nodes.contains(#[trigger] r[i][k])
    &&& forall|i: int, a: CellView, b: CellView|
        0 <= i < r.len() && #[trigger] r[i].contains(a) && nodes.contains(b) ==> (#[trigger] r[i].contains(b)
            <==> cell_mutual(nodes, edges, a, b))
    &&& forall|i: int| 0 <= i < r.len() ==> #[trigger] r[i].len() > 1 || edges.contains((r[i][0], r[i][0]))
    &&& forall|a: CellView|
        #[trigger] nodes.contains(a) && cell_on_cycle(nodes, edges, a) ==> exists|i: int| 0 <= i < r.len() && #[trigger] r[i].contains(a)
    &&& forall|i: int, j: int| 0 <= i < j < r.len() ==> cell_lt(#[trigger] r[i][0], #[trigger] r[j][0])
}

proof fn lemma_sorted_distinct(nodes: Seq<CellView>, i: int, j: int)
    requires
        cells_sorted(nodes),
        0 <= i < nodes.len(),
        0 <= j < nodes.len(),
        nodes[i] == nodes[j],
    ensures
        i == j,
{
    if i < j {
        lemma_cell_lt_irrefl(nodes[i]);
    } else if j < i {
        lemma_cell_lt_irrefl(nodes[i]);
    }
}

proof fn lemma_cell_index(nodes: Seq<CellView>, i: int)
    requires
        cells_sorted(nodes),
        0 <= i < nodes.len(),
    ensures
        cell_index(nodes, nodes[i]) == i,
{
    let k = cell_index(nodes, nodes[i]);
    lemma_sorted_distinct(nodes, i, k);
}

/// The cyclic strongly connected components of the graph with the given nodes
/// (distinct, in cell order) and arcs (between nodes), found with Kosaraju's
/// passes; each listed in cell order, the lists ordered by first cell.
#[verifier::spinoff_prover]
pub fn cycle_components(nodes: &Vec<CellId>, edges: &Vec<(CellId, CellId)>) -> (r: Vec<Vec<CellId>>)
    requires
        cells_sorted(cells_view(nodes@)),
        edges_within(cells_view(nodes@), pairs_view(edges@)),
    ensures
        cyclic_components_of(cells_view(nodes@), pairs_view(edges@), cell_lists_view(r@)),
{
    let ghost nv = cells_view(nodes@);
    let ghost ev = pairs_view(edges@);
    let ghost ie = index_edges(nv, ev);
    let n = nodes.len();
    let mut self_loop: Vec<bool> = Vec::new();
    while self_loop.len() < n
        invariant
            self_loop.len() <= n,
            forall|i: int| 0 <= i < self_loop.len() ==> !#[trigger] self_loop@[i],
        decreases n - self_loop.len(),
    {
        self_loop.push(false);
    }
    let mut iedges: Vec<Edge> = Vec::new();
    let mut keep: Vec<bool> = Vec::new();
    let mut k: usize = 0;
    while k < edges.len()
        invariant
            nv == cells_view(nodes@),
            ev == pairs_view(edges@),
            ie == index_edges(nv, ev),
            cells_sorted(nv),
            edges_within(nv, ev),
            n == nodes.len(),
            k <= edges.len(),
            iedges@ == ie.take(k as int),
            keep@ == all_kept(ie).take(k as int),
            self_loop.len() == n,
            forall|i: int| 0 <= i < k ==> (#[trigger] ie[i]).source < n && ie[i].target < n,
            forall|x: int| 0 <= x < n ==> (#[trigger] self_loop@[x] <==> exists|j: int| 0 <= j < k && ie[j].source == x && ie[j].target == x),
        decreases edges.len() - k,
    {
        let e = &edges[k];
        assert(ev[k as int] == (e.0@, e.1@));
        assert(edges_within(nv, ev));
        let ghost ek = ev[k as int];
        assert(nv.contains(ek.0));
        assert(nv.contains(ek.1));
        let s = find_cell(nodes, &e.0).unwrap();
        let t = find_cell(nodes, &e.1).unwrap();
        proof {
            assert(nv[s as int] == e.0@);
            assert(nv[t as int] == e.1@);
            lemma_cell_index(nv, s as int);
            lemma_cell_index(nv, t as int);
            assert(ie[k as int] == Edge { source: s, target: t, mask: 0 });
        }
        iedges.push(Edge { source: s, target: t, mask: 0 });
        keep.push(true);
        if s == t {
            self_loop.set(s, true);
        }
        proof {
            assert(iedges@ =~= ie.take(k + 1));
            assert(keep@ =~= all_kept(ie).take(k + 1));
            assert forall|x: int| 0 <= x < n implies (#[trigger] self_loop@[x] <==> exists|j: int| 0 <= j < k + 1 && ie[j].source == x && ie[j].target == x) by {
                if x == s && s == t {
                    assert(ie[k as int].source == x && ie[k as int].target == x);
                }
            }
        }
        k = k + 1;
    }
    assert(iedges@ =~= ie);
    assert(keep@ =~= all_kept(ie));
    let (comps, _kept) = components(n, &iedges, &keep);
    let ghost g = cell_graph(nv, ev);
    let ghost cv = lists_view(&comps);
    proof {
        lemma_edge_graph_len(n as nat, ie, all_kept(ie));
    }
    assert(scc_partition(g, cv));
    // Place each cyclic component at the position of its first node.
    let mut first_of: Vec<Option<usize>> = Vec::new();
    while first_of.len() < n
        invariant
            first_of.len() <= n,
            forall|i: int| 0 <= i < first_of.len() ==> #[trigger] first_of@[i] is None,
        decreases n - first_of.len(),
    {
        first_of.push(None);
    }
    let mut ci: usize = 0;
    while ci < comps.len()
        invariant
            cv == lists_view(&comps),
            scc_partition(g, cv),
            g.len() == n,
            first_of.len() == n,
            self_loop.len() == n,
            ci <= comps.len(),
            forall|x: int| 0 <= x < n ==> (#[trigger] self_loop@[x] <==> exists|j: int| 0 <= j < ie.len() && ie[j].source == x && ie[j].target == x),
            forall|x: int| 0 <= x < n ==> (#[trigger] first_of@[x] matches Some(c) ==> c < ci && cv[c as int][0] == x && (cv[c as int].len() > 1 || self_loop@[x])),
            forall|c: int| 0 <= c < ci ==> (#[trigger] cv[c].len() > 1 || self_loop@[cv[c][0] as int]) ==> first_of@[cv[c][0] as int] == Some(c as usize),
        decreases comps.len() - ci,
    {
        let comp = &comps[ci];
        assert(comp@ == cv[ci as int]);
        assert(cv[ci as int].len() > 0);
        let head = comp[0];
        assert(head < n);
        if comp.len() > 1 || self_loop[head] {
            proof {
                assert forall|c: int| 0 <= c < ci && (#[trigger] cv[c].len() > 1 || self_loop@[cv[c][0] as int]) implies cv[c][0] != head by {
                    if cv[c][0] == head {
                        assert(cv[c].contains(head));
                        assert(cv[ci as int].contains(head));
                    }
                }
            }
            first_of.set(head, Some(ci));
        }
        ci = ci + 1;
    }
    // Emit the cyclic components in order of their first node.
    let mut out: Vec<Vec<CellId>> = Vec::new();
    let ghost mut firsts: Seq<int> = Seq::empty();
    let mut x: usize = 0;
    while x < n
        invariant
            nv == cells_view(nodes@),
            cells_sorted(nv),
            cv == lists_view(&comps),
            scc_partition(g, cv),
            g.len() == n,
            n == nodes.len(),
            first_of.len() == n,
            self_loop.len() == n,
            x <= n,
            forall|y: int| 0 <= y < n ==> (#[trigger] first_of@[y] matches Some(c) ==> c < comps.len() && cv[c as int][0] == y && (cv[c as int].len() > 1 || self_loop@[y])),
            forall|c: int| 0 <= c < comps.len() ==> (#[trigger] cv[c].len() > 1 || self_loop@[cv[c][0] as int]) ==> first_of@[cv[c][0] as int] == Some(c as usize),
            firsts.len() == out.len(),
            forall|i: int, j: int| 0 <= i < j < out.len() ==> #[trigger] firsts[i] < #[trigger] firsts[j],
            forall|i: int| 0 <= i < out.len() ==> 0 <= #[trigger] firsts[i] < x,
            forall|i: int| 0 <= i < out.len() ==> ((#[trigger] first_of@[firsts[i]]) matches Some(c) && cells_view(out@[i]@) == cv[c as int].map_values(|p: usize| nv[p as int])),
            forall|y: int| 0 <= y < x && (#[trigger] first_of@[y]) is Some ==> exists|i: int| 0 <= i < out.len() && firsts[i] == y,
        decreases n - x,
    {
        match first_of[x] {
            Some(c) => {
                let comp = &comps[c];
                assert(comp@ == cv[c as int]);
                let mut cells: Vec<CellId> = Vec::new();
                let mut m: usize = 0;
                while m < comp.len()
                    invariant
                        nv == cells_view(nodes@),
                        comp@ == cv[c as int],
                        forall|k: int| 0 <= k < comp.len() ==> #[trigger] comp@[k] < nodes.len(),
                        m <= comp.len(),
                        cells_view(cells@) == comp@.take(m as int).map_values(|p: usize| nv[p as int]),
                    decreases comp.len() - m,
                {
                    assert(comp@[m as int] < nodes.len());
                    let ghost c0 = cells@;
                    cells.push(nodes[comp[m]].duplicate());
                    assert(comp@.take(m + 1) =~= comp@.take(m as int).push(comp@[m as int]));
                    assert(nv[comp@[m as int] as int] == nodes@[comp@[m as int] as int]@);
                    assert(cells_view(cells@) =~= cells_view(c0).push(nodes@[comp@[m as int] as int]@));
                    assert(cells_view(cells@) =~= comp@.take(m + 1).map_values(|p: usize| nv[p as int]));
                    m = m + 1;
                }
                assert(comp@.take(comp.len() as int) =~= comp@);
                let ghost o0 = out@;
                let ghost f0 = firsts;
                out.push(cells);
                proof {
                    firsts = firsts.push(x as int);
                    assert forall|i: int| 0 <= i < out.len() implies ((#[trigger] first_of@[firsts[i]]) matches Some(c) && cells_view(out@[i]@) == cv[c as int].map_values(|p: usize| nv[p as int])) by {
                        if i < o0.len() {
                            assert(out@[i] == o0[i]);
                        }
                    }
                    assert forall|y: int| 0 <= y < x + 1 && (#[trigger] first_of@[y]) is Some implies exists|i: int| 0 <= i < out.len() && firsts[i] == y by {
                        if y == x {
                            assert(firsts[out.len() - 1] == y);
                        } else {
                            let i = choose|i: int| 0 <= i < o0.len() && f0[i] == y;
                            assert(firsts[i] == y);
                        }
                    }
                }
            },
            None => {},
        }
        x = x + 1;
    }
    proof {
        let rv = cell_lists_view(out@);
        assert forall|i: int| 0 <= i < rv.len() implies rv[i] == cv[first_of@[firsts[i]]->0 as int].map_values(|p: usize| nv[p as int]) by {
            assert(rv[i] == cells_view(out@[i]@));
        }
        assert(cyclic_components_of(nv, ev, rv)) by {
            lemma_result_components(nv, ev, g, ie, cv, self_loop@, first_of@, firsts, rv);
        }
    }
    out
}

proof fn lemma_list_member(nv: Seq<CellView>, cvc: Seq<usize>, rvi: Seq<CellView>, a: CellView)
    requires
        cells_sorted(nv),
        nv.len() <= usize::MAX,
        rvi == cvc.map_values(|p: usize| nv[p as int]),
        forall|k: int| 0 <= k < cvc.len() ==> #[trigger] cvc[k] < nv.len(),
    ensures
        rvi.contains(a) <==> (nv.contains(a) && cvc.contains(cell_index(nv, a) as usize)),
{
    if rvi.contains(a) {
        let k = choose|k: int| 0 <= k < rvi.len() && rvi[k] == a;
        assert(rvi[k] == nv[cvc[k] as int]);
        assert(cvc[k] < nv.len());
        assert(nv.contains(a));
        lemma_cell_index(nv, cvc[k] as int);
        assert(cell_index(nv, a) == cvc[k] as int);
        assert(cvc.contains(cvc[k]));
    }
    if nv.contains(a) && cvc.contains(cell_index(nv, a) as usize) {
        let ci = cell_index(nv, a);
        assert(0 <= ci < nv.len() && nv[ci] == a);
        let k = choose|k: int| 0 <= k < cvc.len() && cvc[k] == ci as usize;
        assert(rvi[k] == nv[cvc[k] as int]);
        assert(rvi[k] == a);
        assert(rvi.contains(a));
    }
}

proof fn lemma_result_components(
    nv: Seq<CellView>,
    ev: Seq<(CellView, CellView)>,
    g: Seq<Seq<usize>>,
    ie: Seq<Edge>,
    cv: Seq<Seq<usize>>,
    self_loop: Seq<bool>,
    first_of: Seq<Option<usize>>,
    firsts: Seq<int>,
    rv: Seq<Seq<CellView>>,
)
    requires
        cells_sorted(nv),
        nv.len() <= usize::MAX,
        edges_within(nv, ev),
        ie == index_edges(nv, ev),
        g == cell_graph(nv, ev),
        g.len() == nv.len(),
        scc_partition(g, cv),
        cv.len() <= usize::MAX,
        self_loop.len() == nv.len(),
        first_of.len() == nv.len(),
        forall|x: int| 0 <= x < nv.len() ==> (#[trigger] self_loop[x] <==> exists|j: int| 0 <= j < ie.len() && ie[j].source == x && ie[j].target == x),
        forall|y: int| 0 <= y < nv.len() ==> (#[trigger] first_of[y] matches Some(c) ==> c < cv.len() && cv[c as int][0] == y && (cv[c as int].len() > 1 || self_loop[y])),
        forall|c: int| 0 <= c < cv.len() ==> (#[trigger] cv[c].len() > 1 || self_loop[cv[c][0] as int]) ==> first_of[cv[c][0] as int] == Some(c as usize),
        firsts.len() == rv.len(),
        forall|i: int, j: int| 0 <= i < j < rv.len() ==> #[trigger] firsts[i] < #[trigger] firsts[j],
        forall|i: int| 0 <= i < rv.len() ==> 0 <= #[trigger] firsts[i] < nv.len(),
        forall|i: int| 0 <= i < rv.len() ==> (#[trigger] first_of[firsts[i]]) is Some,
        forall|i: int| 0 <= i < rv.len() ==> #[trigger] rv[i] == cv[first_of[firsts[i]]->0 as int].map_values(|p: usize| nv[p as int]),
        forall|y: int| 0 <= y < nv.len() && (#[trigger] first_of[y]) is Some ==> exists|i: int| 0 <= i < rv.len() && firsts[i] == y,
    ensures
        cyclic_components_of(nv, ev, rv),
{
    let n = nv.len();
    // Facts about one result list.
    assert forall|i: int| 0 <= i < rv.len() implies {
        let c = first_of[firsts[i]]->0 as int;
        &&& 0 <= c < cv.len()
        &&& cv[c][0] == firsts[i]
        &&& (cv[c].len() > 1 || self_loop[firsts[i]])
        &&& #[trigger] rv[i].len() == cv[c].len()
        &&& forall|k: int| 0 <= k < rv[i].len() ==> rv[i][k] == nv[cv[c][k] as int]
    } by {
        let c = first_of[firsts[i]]->0 as int;
        assert(first_of[firsts[i]] matches Some(cc) ==> cc < cv.len() && cv[cc as int][0] == firsts[i]);
    }
    // Cells of a result list are nodes, in order.
    assert forall|i: int| 0 <= i < rv.len() implies #[trigger] rv[i].len() > 0 && cells_sorted(rv[i]) by {
        let c = first_of[firsts[i]]->0 as int;
        assert(cv[c].len() > 0 && strictly_sorted(cv[c]));
        assert forall|a: int, b: int| 0 <= a < b < rv[i].len() implies cell_lt(#[trigger] rv[i][a], #[trigger] rv[i][b]) by {
            assert(cv[c][a] < cv[c][b]);
            assert(cv[c][b] < n);
        }
    }
    assert forall|i: int, k: int| 0 <= i < rv.len() && 0 <= k < rv[i].len() implies nv.contains(#[trigger] rv[i][k]) by {
        let c = first_of[firsts[i]]->0 as int;
        assert(cv[c][k] < n);
    }
    // Membership in a result list is membership of the position in the component.
    assert forall|i: int, a: CellView| 0 <= i < rv.len() implies (#[trigger] rv[i].contains(a) <==> (nv.contains(a)
        && cv[first_of[firsts[i]]->0 as int].contains(cell_index(nv, a) as usize))) by {
        let c = first_of[firsts[i]]->0 as int;
        assert(rv[i] == cv[c].map_values(|p: usize| nv[p as int]));
        assert forall|k: int| 0 <= k < cv[c].len() implies #[trigger] cv[c][k] < n by {}
        lemma_list_member(nv, cv[c], rv[i], a);
    }
    assert forall|i: int, a: CellView, b: CellView|
        0 <= i < rv.len() && #[trigger] rv[i].contains(a) && nv.contains(b) implies (#[trigger] rv[i].contains(b)
            <==> cell_mutual(nv, ev, a, b)) by {
        let c = first_of[firsts[i]]->0 as int;
        let ia = cell_index(nv, a);
        let ib = cell_index(nv, b);
        assert(cv[c].contains(ia as usize));
        assert(nv.contains(a));
        assert(0 <= ia < n && nv[ia] == a);
        assert(0 <= ib < n && nv[ib] == b);
        assert(cv[c].contains(ib as usize) <==> mutual(g, ia as usize as int, ib as usize as int));
        assert(rv[i].contains(b) <==> cv[c].contains(ib as usize));
    }
    assert forall|i: int| 0 <= i < rv.len() implies #[trigger] rv[i].len() > 1 || ev.contains((rv[i][0], rv[i][0])) by {
        let c = first_of[firsts[i]]->0 as int;
        let x = firsts[i];
        if rv[i].len() <= 1 {
            assert(self_loop[x]);
            let j = choose|j: int| 0 <= j < ie.len() && ie[j].source == x && ie[j].target == x;
            assert(ie[j] == Edge { source: cell_index(nv, ev[j].0) as usize, target: cell_index(nv, ev[j].1) as usize, mask: 0 });
            assert(nv.contains(ev[j].0) && nv.contains(ev[j].1));
            let a = cell_index(nv, ev[j].0);
            let b = cell_index(nv, ev[j].1);
            assert(nv[a] == ev[j].0);
            assert(nv[b] == ev[j].1);
            assert(rv[i][0] == nv[x]);
            assert(ev[j] == (rv[i][0], rv[i][0]));
        }
    }
    assert forall|a: CellView| #[trigger] nv.contains(a) && cell_on_cycle(nv, ev, a) implies exists|i: int| 0 <= i < rv.len() && #[trigger] rv[i].contains(a) by {
        let x = cell_index(nv, a);
        assert(nv[x] == a);
        assert(in_some(cv, x as usize));
        let c = choose|c: int| 0 <= c < cv.len() && #[trigger] cv[c].contains(x as usize);
        let head = cv[c][0];
        assert(cv[c].contains(head));
        assert(head < n);
        if !(cv[c].len() > 1 || self_loop[head as int]) {
            assert(cv[c].len() == 1);
            assert(head == x as usize);
            if exists|b: CellView| #[trigger] nv.contains(b) && b != a && cell_mutual(nv, ev, a, b) {
                let b = choose|b: CellView| #[trigger] nv.contains(b) && b != a && cell_mutual(nv, ev, a, b);
                let y = cell_index(nv, b);
                assert(nv[y] == b);
                assert(cv[c].contains(y as usize));
                assert(y == x);
            } else {
                assert(ev.contains((a, a)));
                let j = choose|j: int| 0 <= j < ev.len() && ev[j] == (a, a);
                lemma_cell_index(nv, x);
                assert(ie[j] == Edge { source: cell_index(nv, ev[j].0) as usize, target: cell_index(nv, ev[j].1) as usize, mask: 0 });
                assert(ie[j].source == x && ie[j].target == x);
                assert(self_loop[x]);
            }
        }
        assert(first_of[head as int] == Some(c as usize));
        assert(first_of[head as int] is Some);
        let i = choose|i: int| 0 <= i < rv.len() && firsts[i] == head;
        assert(first_of[firsts[i]]->0 as int == c);
        assert(cv[first_of[firsts[i]]->0 as int].contains(cell_index(nv, a) as usize));
        assert(rv[i].contains(a));
    }
    assert forall|i: int, j: int| 0 <= i < j < rv.len() implies cell_lt(#[trigger] rv[i][0], #[trigger] rv[j][0]) by {
        assert(firsts[i] < firsts[j]);
        assert(rv[i][0] == nv[firsts[i]]);
        assert(rv[j][0] == nv[firsts[j]]);
    }
}

} // verus!
