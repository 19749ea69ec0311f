//! The path search: a depth-first traversal over the grid's connection list.
//!
//! The specification mirrors the implementation's discipline exactly: the
//! frontier is a stack, neighbours are queued in connection-list order, and a
//! record's heuristic never reorders anything, so the result is the first
//! depth-first path, not a cheapest one.
use vstd::prelude::*;

use crate::grid::Grid;
use crate::node::NodeConnection;
use crate::pos::Pos;

verus! {

/// The neighbour id contributed by connection `e` to node `c`: the other
/// endpoint, provided it denotes one of the `n` nodes and is not `c` itself.
pub open spec fn edge_neighbour(e: NodeConnection, n: int, c: int) -> Option<int> {
    if e.0 as int == c && e.1 as int == c {
        None
    } else if e.0 as int == c {
        if (e.1 as int) < n {
            Some(e.1 as int)
        } else {
            None
        }
    } else if e.1 as int == c {
        if (e.0 as int) < n {
            Some(e.0 as int)
        } else {
            None
        }
    } else {
        None
    }
}

/// The neighbours of node `c` contributed by the connections from `j` on, in
/// connection-list order.
pub open spec fn neighbours_from(g: Grid, c: int, j: int) -> Seq<int>
    decreases g.connections@.len() - j,
    when j >= 0
{
    if j >= g.connections@.len() {
        Seq::empty()
    } else {
        match edge_neighbour(g.connections@[j], g.nodes@.len() as int, c) {
            Some(x) => seq![x] + neighbours_from(g, c, j + 1),
            None => neighbours_from(g, c, j + 1),
        }
    }
}

/// Every neighbour id denotes one of the grid's nodes.
pub proof fn lemma_neighbours_bounds(g: Grid, c: int, j: int)
    requires
        j >= 0,
    ensures
        forall|k: int|
            0 <= k < neighbours_from(g, c, j).len() ==> 0 <= #[trigger] neighbours_from(g, c, j)[k]
                < g.nodes@.len(),
    decreases g.connections@.len() - j,
{
    if j < g.connections@.len() {
        lemma_neighbours_bounds(g, c, j + 1);
        if edge_neighbour(g.connections@[j], g.nodes@.len() as int, c) is Some {
            assert forall|k: int| 0 <= k < neighbours_from(g, c, j).len() implies 0 <= #[trigger]
            neighbours_from(g, c, j)[k] < g.nodes@.len() by {
                if k > 0 {
                    assert(neighbours_from(g, c, j)[k] == neighbours_from(g, c, j + 1)[k - 1]);
                }
            }
        }
    }
}

/// The visited map sends each discovered node id to the id that discovered it
/// and its discovery depth. The root is self-parented at depth 0; every other
/// entry points at an entry of strictly smaller depth, and all depths stay
/// below the number of entries.
pub open spec fn chain_wf(v: Map<int, (int, nat)>, n: int) -> bool {
    &&& v.dom().finite()
    &&& forall|k: int| #[trigger] v.dom().contains(k) ==> 0 <= k < n
    &&& forall|k: int| #[trigger] v.dom().contains(k) ==> v.dom().contains(v[k].0)
    &&& forall|k: int| #[trigger] v.dom().contains(k) && v[k].0 != k ==> v[v[k].0].1 < v[k].1
    &&& forall|k: int| #[trigger] v.dom().contains(k) ==> v[k].1 < v.dom().len()
}

/// Every frontier record `(node, parent)` is visited, with exactly that
/// parent recorded.
pub open spec fn frontier_wf(v: Map<int, (int, nat)>, f: Seq<(int, int)>) -> bool {
    forall|i: int|
        0 <= i < f.len() ==> v.dom().contains((#[trigger] f[i]).0) && v[f[i].0].0 == f[i].1
}

/// A well-formed intermediate search state.
pub open spec fn state_wf(g: Grid, f: Seq<(int, int)>, v: Map<int, (int, nat)>) -> bool {
    chain_wf(v, g.nodes@.len() as int) && frontier_wf(v, f)
}

/// The positions along the discovery chain of `id`: from the child of the
/// root down to `id` itself, in walk order; empty when `id` is the root.
pub open spec fn trace(g: Grid, v: Map<int, (int, nat)>, id: int) -> Seq<Pos>
    decreases v[id].1,
    when chain_wf(v, g.nodes@.len() as int) && v.dom().contains(id)
{
    if v[id].0 == id {
        Seq::empty()
    } else {
        trace(g, v, v[id].0) + seq![g.nodes@[id].position]
    }
}

/// One expansion step: every id of `ns[j..]` not yet visited is marked as
/// discovered by `c` at depth `d + 1` and queued, in neighbour order.
pub open spec fn expand(v: Map<int, (int, nat)>, ns: Seq<int>, c: int, d: nat, j: int) -> (Map<
    int,
    (int, nat),
>, Seq<(int, int)>)
    decreases ns.len() - j,
    when j >= 0
{
    if j >= ns.len() {
        (v, Seq::empty())
    } else if v.dom().contains(ns[j]) {
        expand(v, ns, c, d, j + 1)
    } else {
        let r = expand(v.insert(ns[j], (c, (d + 1) as nat)), ns, c, d, j + 1);
        (r.0, seq![(ns[j], c)] + r.1)
    }
}

/// Expansion preserves the visited-map discipline: the map grows by exactly
/// the queued records, old entries are untouched, and each queued record is
/// recorded with parent `c` at depth `d + 1`.
pub proof fn lemma_expand_props(v: Map<int, (int, nat)>, ns: Seq<int>, c: int, d: nat, j: int, n: int)
    requires
        j >= 0,
        chain_wf(v, n),
        forall|k: int| 0 <= k < ns.len() ==> 0 <= #[trigger] ns[k] < n,
        v.dom().contains(c),
        v[c].1 == d,
    ensures
        chain_wf(expand(v, ns, c, d, j).0, n),
        forall|k: int|
            #[trigger] v.dom().contains(k) ==> expand(v, ns, c, d, j).0.dom().contains(k) && expand(
                v,
                ns,
                c,
                d,
                j,
            ).0[k] == v[k],
        expand(v, ns, c, d, j).0.dom().len() == v.dom().len() + expand(v, ns, c, d, j).1.len(),
        forall|i: int|
            0 <= i < expand(v, ns, c, d, j).1.len() ==> expand(v, ns, c, d, j).0.dom().contains((
            #[trigger] expand(v, ns, c, d, j).1[i]).0) && expand(v, ns, c, d, j).0[expand(
                v,
                ns,
                c,
                d,
                j,
            ).1[i].0] == (expand(v, ns, c, d, j).1[i].1, (d + 1) as nat),
        forall|k: int|
            #[trigger] expand(v, ns, c, d, j).0.dom().contains(k) ==> v.dom().contains(k)
                || exists|i: int|
                0 <= i < expand(v, ns, c, d, j).1.len() && (#[trigger] expand(v, ns, c, d, j).1[i]).0
                    == k,
    decreases ns.len() - j,
{
    if j >= ns.len() {
    } else if v.dom().contains(ns[j]) {
        lemma_expand_props(v, ns, c, d, j + 1, n);
    } else {
        let x = ns[j];
        let v2 = v.insert(x, (c, (d + 1) as nat));
        vstd::set::axiom_set_insert_len(v.dom(), x);
        assert(v2.dom() =~= v.dom().insert(x));
        assert(chain_wf(v2, n)) by {
            assert forall|k: int| #[trigger] v2.dom().contains(k) && v2[k].0 != k implies v2[v2[k].0].1
                < v2[k].1 by {
                if k != x {
                    assert(v.dom().contains(k));
                }
            }
            assert forall|k: int| #[trigger] v2.dom().contains(k) implies v2[k].1
                < v2.dom().len() by {
                if k != x {
                    assert(v.dom().contains(k));
                }
            }
        }
        lemma_expand_props(v2, ns, c, d, j + 1, n);
        let rf = expand(v2, ns, c, d, j + 1).1;
        let rv = expand(v2, ns, c, d, j + 1).0;
        assert(expand(v, ns, c, d, j).1 == seq![(x, c)] + rf);
        assert forall|k: int| #[trigger] v.dom().contains(k) implies rv.dom().contains(k) && rv[k]
            == v[k] by {
            assert(v2.dom().contains(k));
            assert(v2[k] == v[k]);
        }
        assert forall|i: int| 0 <= i < expand(v, ns, c, d, j).1.len() implies rv.dom().contains((
        #[trigger] expand(v, ns, c, d, j).1[i]).0) && rv[expand(v, ns, c, d, j).1[i].0] == (expand(
            v,
            ns,
            c,
            d,
            j,
        ).1[i].1, (d + 1) as nat) by {
            if i == 0 {
                assert(v2.dom().contains(x) && v2[x] == (c, (d + 1) as nat));
            } else {
                assert(expand(v, ns, c, d, j).1[i] == rf[i - 1]);
            }
        }
        assert forall|k: int| #[trigger] rv.dom().contains(k) implies v.dom().contains(k) || exists|
            i: int,
        | 0 <= i < expand(v, ns, c, d, j).1.len() && (#[trigger] expand(v, ns, c, d, j).1[i]).0
            == k by {
            if k == x {
                assert((expand(v, ns, c, d, j).1[0]).0 == k);
            } else if !v.dom().contains(k) {
                assert(!v2.dom().contains(k));
                let i = choose|i: int| 0 <= i < rf.len() && (#[trigger] rf[i]).0 == k;
                assert((expand(v, ns, c, d, j).1[i + 1]).0 == k);
            }
        }
    }
}

/// In a well-formed chain the visited map holds at most one entry per node.
pub proof fn lemma_dom_bound(v: Map<int, (int, nat)>, n: int)
    requires
        chain_wf(v, n),
        n >= 0,
    ensures
        v.dom().len() <= n,
{
    assert(v.dom().subset_of(vstd::set_lib::set_int_range(0, n)));
    vstd::set_lib::lemma_int_range(0, n);
    vstd::set_lib::lemma_len_subset(v.dom(), vstd::set_lib::set_int_range(0, n));
}

/// The depth-first search: pop the most recently queued record; if it sits on
/// the target position, reconstruct the path from the visited chain of its
/// parent and append the target; otherwise queue its unvisited neighbours and
/// continue. `None` when the frontier runs dry.
pub open spec fn dfs(g: Grid, tpos: Pos, f: Seq<(int, int)>, v: Map<int, (int, nat)>) -> Option<
    Seq<Pos>,
>
    decreases g.nodes@.len() - v.dom().len(), f.len(),
    when state_wf(g, f, v)
    via dfs_decreases
{
    if f.len() == 0 {
        None
    } else {
        let rec = f.last();
        if g.nodes@[rec.0].position == tpos {
            Some(trace(g, v, rec.1) + seq![tpos])
        } else {
            let pr = expand(v, neighbours_from(g, rec.0, 0), rec.0, v[rec.0].1, 0);
            dfs(g, tpos, f.drop_last() + pr.1, pr.0)
        }
    }
}

#[via_fn]
proof fn dfs_decreases(g: Grid, tpos: Pos, f: Seq<(int, int)>, v: Map<int, (int, nat)>) {
    let n = g.nodes@.len() as int;
    if f.len() != 0 {
        let rec = f.last();
        if g.nodes@[rec.0].position != tpos {
            let ns = neighbours_from(g, rec.0, 0);
            lemma_neighbours_bounds(g, rec.0, 0);
            lemma_expand_props(v, ns, rec.0, v[rec.0].1, 0, n);
            lemma_dom_bound(expand(v, ns, rec.0, v[rec.0].1, 0).0, n);
        }
    }
}

/// An optional path, seen as an optional sequence of positions.
pub open spec fn opt_path_view(r: Option<Vec<Pos>>) -> Option<Seq<Pos>> {
    match r {
        Some(p) => Some(p@),
        None => None,
    }
}

/// The search state a query starts from: the start node is visited as its own
/// parent at depth 0 and queued once.
pub open spec fn spec_find_path(g: Grid, start: Pos, target: Pos) -> Option<Seq<Pos>> {
    let s = g.spec_node_idx(start);
    dfs(g, target, seq![(s, s)], Map::empty().insert(s, (s, 0nat)))
}

/// The seeded search state is well formed.
pub proof fn lemma_initial_state_wf(g: Grid, start: Pos)
    requires
        g.wf(),
        g.spec_in_bounds(start),
    ensures
        state_wf(
            g,
            seq![(g.spec_node_idx(start), g.spec_node_idx(start))],
            Map::empty().insert(g.spec_node_idx(start), (g.spec_node_idx(start), 0nat)),
        ),
{
    let s = g.spec_node_idx(start);
    let v = Map::<int, (int, nat)>::empty().insert(s, (s, 0nat));
    g.lemma_node_idx(start);
    vstd::set::axiom_set_insert_len(Map::<int, (int, nat)>::empty().dom(), s);
    assert(v.dom() =~= Set::empty().insert(s));
    assert(v.dom().len() == 1);
}

/// On a grid without any connection, a search between two distinct in-bounds
/// positions finds no path.
pub proof fn lemma_no_connections_no_path(g: Grid, start: Pos, target: Pos)
    requires
        g.wf(),
        g.connections@.len() == 0,
        g.spec_in_bounds(start),
        g.spec_in_bounds(target),
        start != target,
    ensures
        spec_find_path(g, start, target) is None,
{
    let s = g.spec_node_idx(start);
    let v = Map::<int, (int, nat)>::empty().insert(s, (s, 0nat));
    let f0: Seq<(int, int)> = seq![(s, s)];
    lemma_initial_state_wf(g, start);
    g.lemma_node_idx(start);
    assert(g.nodes@[s].position == start);
    assert(neighbours_from(g, s, 0) =~= Seq::<int>::empty());
    assert(expand(v, neighbours_from(g, s, 0), s, v[s].1, 0) == (v, Seq::<(int, int)>::empty()));
    assert(f0.drop_last() + Seq::<(int, int)>::empty() =~= Seq::<(int, int)>::empty());
    assert(state_wf(g, Seq::empty(), v));
    assert(dfs(g, target, Seq::empty(), v) is None);
    assert(spec_find_path(g, start, target) is None);
}

/// Ids `a` and `b` are linked by some connection of the grid.
pub open spec fn linked(g: Grid, a: int, b: int) -> bool {
    exists|k: int|
        0 <= k < g.connections@.len() && (((#[trigger] g.connections@[k]).0 as int == a
            && g.connections@[k].1 as int == b) || (g.connections@[k].0 as int == b
            && g.connections@[k].1 as int == a))
}

/// The positions `p` and `q` belong to linked cells.
pub open spec fn linked_pos(g: Grid, p: Pos, q: Pos) -> bool {
    linked(g, g.spec_node_idx(p), g.spec_node_idx(q))
}

/// Every visited node other than the root was discovered along a connection.
pub open spec fn chain_linked(g: Grid, v: Map<int, (int, nat)>) -> bool {
    forall|k: int| #[trigger] v.dom().contains(k) && v[k].0 != k ==> linked(g, v[k].0, k)
}

/// `s` is the one self-parented entry of the visited map.
pub open spec fn chain_rooted(v: Map<int, (int, nat)>, s: int) -> bool {
    &&& v.dom().contains(s)
    &&& v[s].0 == s
    &&& forall|k: int| #[trigger] v.dom().contains(k) && v[k].0 == k ==> k == s
}

/// Every neighbour the connection list yields for `c` is linked to `c`.
proof fn lemma_neighbours_linked(g: Grid, c: int, j: int)
    requires
        j >= 0,
    ensures
        forall|m: int|
            0 <= m < neighbours_from(g, c, j).len() ==> linked(
                g,
                c,
                #[trigger] neighbours_from(g, c, j)[m],
            ),
    decreases g.connections@.len() - j,
{
    if j < g.connections@.len() {
        lemma_neighbours_linked(g, c, j + 1);
        assert forall|m: int| 0 <= m < neighbours_from(g, c, j).len() implies linked(
            g,
            c,
            #[trigger] neighbours_from(g, c, j)[m],
        ) by {
            match edge_neighbour(g.connections@[j], g.nodes@.len() as int, c) {
                Some(x) => {
                    if m == 0 {
                        assert(neighbours_from(g, c, j)[0] == x);
                        assert(((g.connections@[j].0 as int == c && g.connections@[j].1 as int
                            == x) || (g.connections@[j].0 as int == x && g.connections@[j].1 as int
                            == c)));
                    } else {
                        assert(neighbours_from(g, c, j)[m] == neighbours_from(g, c, j + 1)[m - 1]);
                    }
                },
                None => {
                    assert(neighbours_from(g, c, j)[m] == neighbours_from(g, c, j + 1)[m]);
                },
            }
        }
    }
}

/// Expansion discovers every fresh node along a connection and never creates
/// a second root.
proof fn lemma_expand_linked(
    g: Grid,
    v: Map<int, (int, nat)>,
    ns: Seq<int>,
    c: int,
    d: nat,
    j: int,
    s: int,
)
    requires
        0 <= j,
        chain_linked(g, v),
        chain_rooted(v, s),
        v.dom().contains(c),
        forall|m: int| 0 <= m < ns.len() ==> linked(g, c, #[trigger] ns[m]),
    ensures
        chain_linked(g, expand(v, ns, c, d, j).0),
        chain_rooted(expand(v, ns, c, d, j).0, s),
    decreases ns.len() - j,
{
    if j < ns.len() {
        if v.dom().contains(ns[j]) {
            lemma_expand_linked(g, v, ns, c, d, j + 1, s);
        } else {
            let x = ns[j];
            let v2 = v.insert(x, (c, (d + 1) as nat));
            assert(chain_linked(g, v2)) by {
                assert forall|k: int| #[trigger] v2.dom().contains(k) && v2[k].0 != k implies linked(
                    g,
                    v2[k].0,
                    k,
                ) by {
                    if k != x {
                        assert(v.dom().contains(k));
                    }
                }
            }
            assert(chain_rooted(v2, s)) by {
                assert forall|k: int| #[trigger] v2.dom().contains(k) && v2[k].0 == k implies k
                    == s by {
                    if k != x {
                        assert(v.dom().contains(k));
                    }
                }
            }
            lemma_expand_linked(g, v2, ns, c, d, j + 1, s);
        }
    }
}

/// The discovery chain of a visited node reads as a walk: it leaves the root
/// along a connection, every step follows a connection, and it ends at the
/// node itself. It is empty exactly for the root.
proof fn lemma_trace_valid(g: Grid, v: Map<int, (int, nat)>, id: int, s: int)
    requires
        g.wf(),
        chain_wf(v, g.nodes@.len() as int),
        chain_linked(g, v),
        chain_rooted(v, s),
        v.dom().contains(id),
    ensures
        ({
            let ts = trace(g, v, id);
            &&& (ts.len() == 0 <==> id == s)
            &&& ts.len() > 0 ==> ts.last() == g.nodes@[id].position
            &&& ts.len() > 0 ==> linked_pos(g, g.nodes@[s].position, ts[0])
            &&& forall|i: int| 0 <= i < ts.len() - 1 ==> linked_pos(g, #[trigger] ts[i], ts[i + 1])
        }),
    decreases v[id].1,
{
    let n = g.nodes@.len() as int;
    let w = g.size.0;
    let h = g.size.1;
    let ts = trace(g, v, id);
    if v[id].0 == id {
        assert(id == s);
    } else {
        let parent = v[id].0;
        lemma_trace_valid(g, v, parent, s);
        let pts = trace(g, v, parent);
        assert(ts == pts + seq![g.nodes@[id].position]);
        crate::grid::lemma_pos_roundtrip(w, h, id);
        crate::grid::lemma_pos_roundtrip(w, h, parent);
        assert(g.spec_node_idx(g.nodes@[id].position) == id);
        assert(g.spec_node_idx(g.nodes@[parent].position) == parent);
        assert(linked_pos(g, g.nodes@[parent].position, g.nodes@[id].position));
        if pts.len() == 0 {
            // `id` was discovered directly from the root
            assert(ts[0] == g.nodes@[id].position);
        } else {
            assert(ts[0] == pts[0]);
            assert forall|i: int| 0 <= i < ts.len() - 1 implies linked_pos(
                g,
                #[trigger] ts[i],
                ts[i + 1],
            ) by {
                if i < pts.len() - 1 {
                    assert(ts[i] == pts[i] && ts[i + 1] == pts[i + 1]);
                } else {
                    assert(ts[i] == pts.last() && ts[i + 1] == g.nodes@[id].position);
                }
            }
        }
    }
}

/// From any well-formed, singly rooted search state, a successful search
/// returns a walk from the root to the target.
#[verifier::rlimit(60)]
proof fn lemma_dfs_walk(g: Grid, tpos: Pos, f: Seq<(int, int)>, v: Map<int, (int, nat)>, s: int)
    requires
        g.wf(),
        state_wf(g, f, v),
        chain_linked(g, v),
        chain_rooted(v, s),
    ensures
        dfs(g, tpos, f, v) matches Some(p) ==> {
            &&& p.len() >= 1
            &&& p.last() == tpos
            &&& forall|i: int| 0 <= i < p.len() - 1 ==> linked_pos(g, #[trigger] p[i], p[i + 1])
            &&& p.len() > 1 ==> linked_pos(g, g.nodes@[s].position, p[0])
            &&& p.len() == 1 ==> (g.nodes@[s].position == tpos || linked_pos(
                g,
                g.nodes@[s].position,
                tpos,
            ))
        },
    decreases g.nodes@.len() - v.dom().len(), f.len(),
{
    let n = g.nodes@.len() as int;
    if f.len() != 0 {
        let rec = f.last();
        let node = rec.0;
        let parent = rec.1;
        if g.nodes@[node].position == tpos {
            assert(v.dom().contains(node) && v[node].0 == parent);
            assert(v.dom().contains(parent));
            lemma_trace_valid(g, v, parent, s);
            let pts = trace(g, v, parent);
            let p = pts + seq![tpos];
            assert(dfs(g, tpos, f, v) == Some(p));
            if pts.len() == 0 {
                // the found record's parent is the root
                assert(parent == s);
                if node == s {
                    assert(g.nodes@[s].position == tpos);
                } else {
                    assert(linked(g, s, node));
                    crate::grid::lemma_pos_roundtrip(g.size.0, g.size.1, node);
                    crate::grid::lemma_pos_roundtrip(g.size.0, g.size.1, s);
                    assert(linked_pos(g, g.nodes@[s].position, tpos));
                }
            } else {
                assert(pts.last() == g.nodes@[parent].position);
                assert(node != parent) by {
                    if node == parent {
                        assert(v[node].0 == node);
                    }
                }
                assert(linked(g, parent, node));
                crate::grid::lemma_pos_roundtrip(g.size.0, g.size.1, node);
                crate::grid::lemma_pos_roundtrip(g.size.0, g.size.1, parent);
                assert forall|i: int| 0 <= i < p.len() - 1 implies linked_pos(
                    g,
                    #[trigger] p[i],
                    p[i + 1],
                ) by {
                    if i < pts.len() - 1 {
                        assert(p[i] == pts[i] && p[i + 1] == pts[i + 1]);
                    } else {
                        assert(p[i] == pts.last() && p[i + 1] == tpos);
                        assert(linked_pos(g, g.nodes@[parent].position, tpos));
                    }
                }
                assert(p[0] == pts[0]);
            }
        } else {
            let ns = neighbours_from(g, node, 0);
            let pr = expand(v, ns, node, v[node].1, 0);
            lemma_neighbours_bounds(g, node, 0);
            lemma_neighbours_linked(g, node, 0);
            lemma_expand_props(v, ns, node, v[node].1, 0, n);
            lemma_expand_linked(g, v, ns, node, v[node].1, 0, s);
            lemma_dom_bound(pr.0, n);
            let f2 = f.drop_last() + pr.1;
            assert forall|i: int| 0 <= i < f2.len() implies pr.0.dom().contains((
            #[trigger] f2[i]).0) && pr.0[f2[i].0].0 == f2[i].1 by {
                if i < f.len() - 1 {
                    assert(f.drop_last()[i] == f[i]);
                    assert(v.dom().contains(f[i].0));
                } else {
                    assert(f2[i] == pr.1[i - (f.len() - 1)]);
                }
            }
            lemma_dfs_walk(g, tpos, f2, pr.0, s);
        }
    }
}

/// A successful search returns a genuine walk: the path is non-empty, ends at
/// the target position, every consecutive pair of its positions is linked by
/// a connection, and its first position is linked to the start (except that a
/// search from the target to itself returns just the target).
pub proof fn lemma_find_path_is_connected_walk(g: Grid, start: Pos, target: Pos)
    requires
        g.wf(),
        g.spec_in_bounds(start),
        g.spec_in_bounds(target),
    ensures
        spec_find_path(g, start, target) matches Some(p) ==> {
            &&& p.len() >= 1
            &&& p.last() == target
            &&& forall|i: int| 0 <= i < p.len() - 1 ==> linked_pos(g, #[trigger] p[i], p[i + 1])
            &&& p.len() > 1 ==> linked_pos(g, start, p[0])
            &&& p.len() == 1 ==> (start == target || linked_pos(g, start, target))
        },
{
    let s = g.spec_node_idx(start);
    g.lemma_node_idx(start);
    lemma_initial_state_wf(g, start);
    lemma_dfs_walk(g, target, seq![(s, s)], Map::empty().insert(s, (s, 0nat)), s);
}

/// `ids` reads as a walk along connections: non-empty, every id on the board,
/// every consecutive pair linked.
pub open spec fn id_walk(g: Grid, ids: Seq<int>) -> bool {
    &&& ids.len() >= 1
    &&& forall|i: int| 0 <= i < ids.len() ==> 0 <= #[trigger] ids[i] < g.nodes@.len()
    &&& forall|i: int| 0 <= i < ids.len() - 1 ==> linked(g, #[trigger] ids[i], ids[i + 1])
}

/// A walk that starts in a set closed under connections stays in it.
proof fn lemma_walk_stays_closed(g: Grid, vs: Set<int>, ids: Seq<int>)
    requires
        id_walk(g, ids),
        vs.contains(ids[0]),
        forall|k: int, x: int|
            #[trigger] vs.contains(k) && #[trigger] linked(g, k, x) && 0 <= x < g.nodes@.len()
                ==> vs.contains(x),
    ensures
        vs.contains(ids.last()),
    decreases ids.len(),
{
    if ids.len() > 1 {
        assert(linked(g, ids[0], ids[1]));
        assert(vs.contains(ids[1]));
        let rest = ids.drop_first();
        assert(id_walk(g, rest)) by {
            assert forall|i: int| 0 <= i < rest.len() - 1 implies linked(
                g,
                #[trigger] rest[i],
                rest[i + 1],
            ) by {
                assert(rest[i] == ids[i + 1] && rest[i + 1] == ids[i + 2]);
            }
        }
        lemma_walk_stays_closed(g, vs, rest);
        assert(rest.last() == ids.last());
    }
}

/// Every on-board node an incident connection leads to appears in the
/// neighbour enumeration.
proof fn lemma_neighbours_cover(g: Grid, c: int, j: int)
    requires
        j >= 0,
    ensures
        forall|m: int|
            j <= m < g.connections@.len() ==> match edge_neighbour(
                #[trigger] g.connections@[m],
                g.nodes@.len() as int,
                c,
            ) {
                Some(x) => neighbours_from(g, c, j).contains(x),
                None => true,
            },
    decreases g.connections@.len() - j,
{
    if j < g.connections@.len() {
        lemma_neighbours_cover(g, c, j + 1);
        let r = neighbours_from(g, c, j);
        let rest = neighbours_from(g, c, j + 1);
        assert forall|m: int| j <= m < g.connections@.len() implies match edge_neighbour(
            #[trigger] g.connections@[m],
            g.nodes@.len() as int,
            c,
        ) {
            Some(x) => r.contains(x),
            None => true,
        } by {
            match edge_neighbour(g.connections@[m], g.nodes@.len() as int, c) {
                Some(x) => {
                    if m == j {
                        assert(r[0] == x);
                    } else {
                        assert(rest.contains(x));
                        let k = choose|k: int| 0 <= k < rest.len() && rest[k] == x;
                        match edge_neighbour(g.connections@[j], g.nodes@.len() as int, c) {
                            Some(y) => {
                                assert(r[k + 1] == x);
                            },
                            None => {
                                assert(r == rest);
                            },
                        }
                    }
                },
                None => {
                },
            }
        }
    }
}

/// Expansion visits every enumerated neighbour.
proof fn lemma_expand_covers(v: Map<int, (int, nat)>, ns: Seq<int>, c: int, d: nat, j: int)
    requires
        0 <= j,
    ensures
        forall|m: int|
            j <= m < ns.len() ==> expand(v, ns, c, d, j).0.dom().contains(#[trigger] ns[m]),
        forall|k: int| #[trigger] v.dom().contains(k) ==> expand(v, ns, c, d, j).0.dom().contains(k),
    decreases ns.len() - j,
{
    if j < ns.len() {
        if v.dom().contains(ns[j]) {
            lemma_expand_covers(v, ns, c, d, j + 1);
        } else {
            let v2 = v.insert(ns[j], (c, (d + 1) as nat));
            lemma_expand_covers(v2, ns, c, d, j + 1);
            assert forall|k: int| #[trigger] v.dom().contains(k) implies expand(
                v,
                ns,
                c,
                d,
                j,
            ).0.dom().contains(k) by {
                assert(v2.dom().contains(k));
            }
            assert forall|m: int| j <= m < ns.len() implies expand(v, ns, c, d, j).0.dom().contains(
                #[trigger] ns[m],
            ) by {
                if m == j {
                    assert(v2.dom().contains(ns[j]));
                }
            }
        }
    }
}

/// The search state is accounted for by the set `e` of expanded nodes: every
/// visited node is expanded or still pending on the frontier, no expanded
/// node sits on the target, and every connection out of an expanded node
/// leads to a visited node.
spec fn accounted(g: Grid, tpos: Pos, f: Seq<(int, int)>, v: Map<int, (int, nat)>, e: Set<
    int,
>) -> bool {
    &&& forall|k: int| #[trigger] e.contains(k) ==> v.dom().contains(k)
    &&& forall|k: int|
        #[trigger] v.dom().contains(k) ==> e.contains(k) || exists|i: int|
            0 <= i < f.len() && (#[trigger] f[i]).0 == k
    &&& forall|k: int| #[trigger] e.contains(k) ==> g.nodes@[k].position != tpos
    &&& forall|k: int, x: int|
        #[trigger] e.contains(k) && #[trigger] linked(g, k, x) && 0 <= x < g.nodes@.len()
            ==> v.dom().contains(x)
}

/// When the search exhausts its frontier, no walk from a visited node reaches
/// the target position.
proof fn lemma_dfs_none_no_walk(
    g: Grid,
    tpos: Pos,
    f: Seq<(int, int)>,
    v: Map<int, (int, nat)>,
    e: Set<int>,
)
    requires
        state_wf(g, f, v),
        accounted(g, tpos, f, v, e),
    ensures
        dfs(g, tpos, f, v) is None ==> forall|ids: Seq<int>|
            #[trigger] id_walk(g, ids) && v.dom().contains(ids[0]) ==> g.nodes@[ids.last()].position
                != tpos,
    decreases g.nodes@.len() - v.dom().len(), f.len(),
{
    let n = g.nodes@.len() as int;
    if f.len() == 0 {
        if dfs(g, tpos, f, v) is None {
            assert forall|ids: Seq<int>|
                #[trigger] id_walk(g, ids) && v.dom().contains(ids[0]) implies g.nodes@[ids.last()].position
                != tpos by {
                assert forall|k: int, x: int|
                    #[trigger] v.dom().contains(k) && #[trigger] linked(g, k, x) && 0 <= x
                        < n implies v.dom().contains(x) by {
                    assert(e.contains(k));
                }
                lemma_walk_stays_closed(g, v.dom(), ids);
                assert(e.contains(ids.last()));
            }
        }
    } else {
        let rec = f.last();
        let node = rec.0;
        if g.nodes@[node].position != tpos {
            let ns = neighbours_from(g, node, 0);
            let pr = expand(v, ns, node, v[node].1, 0);
            lemma_neighbours_bounds(g, node, 0);
            lemma_neighbours_cover(g, node, 0);
            lemma_expand_props(v, ns, node, v[node].1, 0, n);
            lemma_expand_covers(v, ns, node, v[node].1, 0);
            lemma_dom_bound(pr.0, n);
            let f2 = f.drop_last() + pr.1;
            let e2 = e.insert(node);
            assert forall|i: int| 0 <= i < f2.len() implies pr.0.dom().contains((
            #[trigger] f2[i]).0) && pr.0[f2[i].0].0 == f2[i].1 by {
                if i < f.len() - 1 {
                    assert(f.drop_last()[i] == f[i]);
                    assert(v.dom().contains(f[i].0));
                } else {
                    assert(f2[i] == pr.1[i - (f.len() - 1)]);
                }
            }
            assert(accounted(g, tpos, f2, pr.0, e2)) by {
                assert forall|k: int| #[trigger] pr.0.dom().contains(k) implies e2.contains(k)
                    || exists|i: int| 0 <= i < f2.len() && (#[trigger] f2[i]).0 == k by {
                    if v.dom().contains(k) {
                        if !e.contains(k) && k != node {
                            let i = choose|i: int| 0 <= i < f.len() && (#[trigger] f[i]).0 == k;
                            assert(i < f.len() - 1) by {
                                if i == f.len() - 1 {
                                    assert(f[i].0 == node);
                                }
                            }
                            assert(f2[i] == f.drop_last()[i]);
                            assert(f2[i].0 == k);
                        }
                    } else {
                        // freshly queued by this expansion
                        let i = choose|i: int| 0 <= i < pr.1.len() && (#[trigger] pr.1[i]).0 == k;
                        assert(f2[f.len() - 1 + i] == pr.1[i]);
                    }
                }
                assert forall|k: int, x: int|
                    #[trigger] e2.contains(k) && #[trigger] linked(g, k, x) && 0 <= x
                        < n implies pr.0.dom().contains(x) by {
                    if k != node {
                        assert(v.dom().contains(x));
                    } else {
                        if x == node {
                            assert(v.dom().contains(x));
                        } else {
                            let m = choose|m: int|
                                0 <= m < g.connections@.len() && (((#[trigger] g.connections@[m]).0
                                    as int == k && g.connections@[m].1 as int == x) || (
                                g.connections@[m].0 as int == x && g.connections@[m].1 as int
                                    == k));
                            assert(edge_neighbour(g.connections@[m], n, node) == Some(x));
                            assert(ns.contains(x));
                            let mi = choose|mi: int| 0 <= mi < ns.len() && ns[mi] == x;
                            assert(pr.0.dom().contains(ns[mi]));
                        }
                    }
                }
            }
            lemma_dfs_none_no_walk(g, tpos, f2, pr.0, e2);
            if dfs(g, tpos, f, v) is None {
                assert forall|ids: Seq<int>|
                    #[trigger] id_walk(g, ids) && v.dom().contains(ids[0]) implies g.nodes@[ids.last()].position
                    != tpos by {
                    assert(pr.0.dom().contains(ids[0]));
                }
            }
        }
    }
}

/// When the search reports no path, the target is truly unreachable: no walk
/// along connections leads from the start position to a node that sits on the
/// target position.
pub proof fn lemma_find_path_none_means_unreachable(g: Grid, start: Pos, target: Pos)
    requires
        g.wf(),
        g.spec_in_bounds(start),
        g.spec_in_bounds(target),
    ensures
        spec_find_path(g, start, target) is None ==> forall|ids: Seq<int>|
            #[trigger] id_walk(g, ids) && ids[0] == g.spec_node_idx(start)
                ==> g.nodes@[ids.last()].position != target,
{
    let s = g.spec_node_idx(start);
    let v = Map::<int, (int, nat)>::empty().insert(s, (s, 0nat));
    let f0: Seq<(int, int)> = seq![(s, s)];
    g.lemma_node_idx(start);
    lemma_initial_state_wf(g, start);
    assert(accounted(g, target, f0, v, Set::empty())) by {
        assert forall|k: int| #[trigger] v.dom().contains(k) implies Set::<int>::empty().contains(
            k,
        ) || exists|i: int| 0 <= i < f0.len() && (#[trigger] f0[i]).0 == k by {
            assert(f0[0].0 == k);
        }
    }
    lemma_dfs_none_no_walk(g, target, f0, v, Set::empty());
}

/// The executable frontier, seen as a sequence of id pairs.
pub open spec fn fview(s: Seq<(u32, u32)>) -> Seq<(int, int)> {
    s.map_values(|r: (u32, u32)| (r.0 as int, r.1 as int))
}

impl Grid {
    /// The ids connected to node `id`, in connection-list order.
    fn connected_neighbour_ids(&self, id: u32) -> (r: Vec<u32>)
        ensures
            r@.map_values(|x: u32| x as int) == neighbours_from(*self, id as int, 0),
    {
        let n_nodes = self.nodes.len();
        let mut r: Vec<u32> = Vec::new();
        let mut j: usize = 0;
        while j < self.connections.len()
            invariant
                0 <= j <= self.connections@.len(),
                n_nodes == self.nodes@.len(),
                r@.map_values(|x: u32| x as int) + neighbours_from(*self, id as int, j as int)
                    == neighbours_from(*self, id as int, 0),
            decreases self.connections@.len() - j,
        {
            let ghost prev = r@.map_values(|x: u32| x as int);
            let e = self.connections[j];
            if e.0 == id && e.1 == id {
                // a self-loop contributes no neighbour
            } else if e.0 == id {
                if (e.1 as usize) < n_nodes {
                    r.push(e.1);
                    proof {
                        assert(r@.map_values(|x: u32| x as int) =~= prev.push(e.1 as int));
                        assert(prev.push(e.1 as int) + neighbours_from(*self, id as int, j + 1)
                            =~= prev + (seq![e.1 as int] + neighbours_from(
                            *self,
                            id as int,
                            j + 1,
                        )));
                    }
                }
            } else if e.1 == id {
                if (e.0 as usize) < n_nodes {
                    r.push(e.0);
                    proof {
                        assert(r@.map_values(|x: u32| x as int) =~= prev.push(e.0 as int));
                        assert(prev.push(e.0 as int) + neighbours_from(*self, id as int, j + 1)
                            =~= prev + (seq![e.0 as int] + neighbours_from(
                            *self,
                            id as int,
                            j + 1,
                        )));
                    }
                }
            }
            j = j + 1;
        }
        proof {
            assert(r@.map_values(|x: u32| x as int) + Seq::<int>::empty() =~= r@.map_values(
                |x: u32| x as int,
            ));
        }
        r
    }

    /// Search for a path from `start` to `target` by depth-first traversal in
    /// connection-list order: the returned sequence excludes the start
    /// position and ends with the target position, or is `None` when the
    /// target is unreachable.
    pub fn find_path(&self, start: Pos, target: Pos) -> (r: Option<Vec<Pos>>)
        requires
            self.wf(),
            self.spec_in_bounds(start),
            self.spec_in_bounds(target),
        ensures
            opt_path_view(r) == spec_find_path(*self, start, target),
    {
        let n = self.nodes.len();
        let s_idx = self.get_node_idx(start.0, start.1);
        let ghost s = self.spec_node_idx(start);
        let mut parent_vec: Vec<Option<u32>> = Vec::new();
        let mut t: usize = 0;
        while t < n
            invariant
                0 <= t <= n,
                parent_vec@.len() == t,
                forall|k: int| 0 <= k < t ==> (#[trigger] parent_vec@[k]) is None,
            decreases n - t,
        {
            parent_vec.push(None);
            t = t + 1;
        }
        let s32 = s_idx as u32;
        parent_vec.set(s_idx, Some(s32));
        let mut open: Vec<(u32, u32)> = Vec::new();
        open.push((s32, s32));
        let ghost mut v: Map<int, (int, nat)> = Map::empty().insert(s, (s, 0nat));
        proof {
            lemma_initial_state_wf(*self, start);
            assert(fview(open@) =~= seq![(s, s)]);
            lemma_dom_bound(v, n as int);
        }
        while open.len() > 0
            invariant
                self.wf(),
                self.spec_in_bounds(start),
                self.spec_in_bounds(target),
                n == self.nodes@.len(),
                s == self.spec_node_idx(start),
                parent_vec@.len() == n,
                state_wf(*self, fview(open@), v),
                v.dom().len() <= n,
                forall|k: int|
                    0 <= k < n ==> ((#[trigger] parent_vec@[k]) is Some <==> v.dom().contains(k)),
                forall|k: int|
                    0 <= k < n && v.dom().contains(k) ==> parent_vec@[k] == Some((v[k].0) as u32),
                dfs(*self, target, fview(open@), v) == spec_find_path(*self, start, target),
            decreases n - v.dom().len(), open@.len(),
        {
            let ghost f_old = fview(open@);
            let ghost v_old = v;
            let rec = open.pop().unwrap();
            let node = rec.0;
            let par = rec.1;
            proof {
                assert(f_old[f_old.len() - 1] == (node as int, par as int));
                assert(fview(open@) =~= f_old.drop_last());
                assert(v.dom().contains(node as int));
                assert(0 <= (node as int) && (node as int) < n);
            }
            let node_us = node as usize;
            if self.nodes[node_us].position == target {
                // reconstruct: walk the discovery chain upward from the
                // record's parent, collecting positions until the root
                proof {
                    assert(v.dom().contains(par as int) && (v[node as int].0) == par as int);
                    assert(v.dom().contains(v[node as int].0));
                }
                let mut path: Vec<Pos> = Vec::new();
                let mut cur: u32 = par;
                let po0 = parent_vec[cur as usize];
                proof {
                    assert(po0 is Some);
                }
                let mut p: u32 = po0.unwrap();
                proof {
                    assert(p as int == v[cur as int].0);
                }
                while p != cur
                    invariant
                        self.wf(),
                        n == self.nodes@.len(),
                        parent_vec@.len() == n,
                        chain_wf(v, n as int),
                        forall|k: int|
                            0 <= k < n ==> ((#[trigger] parent_vec@[k]) is Some <==> v.dom().contains(
                                k,
                            )),
                        forall|k: int|
                            0 <= k < n && v.dom().contains(k) ==> parent_vec@[k] == Some(
                                (v[k].0) as u32,
                            ),
                        v.dom().contains(cur as int),
                        0 <= (cur as int) && (cur as int) < n,
                        p as int == v[cur as int].0,
                        v.dom().contains(par as int),
                        trace(*self, v, cur as int) + path@.reverse() == trace(
                            *self,
                            v,
                            par as int,
                        ),
                    decreases v[cur as int].1,
                {
                    let ghost path_prev = path@;
                    let ghost cur_prev = cur as int;
                    path.push(self.nodes[cur as usize].position);
                    proof {
                        assert(trace(*self, v, cur as int) == trace(*self, v, p as int) + seq![
                            self.nodes@[cur as int].position,
                        ]);
                        assert(path@.reverse() =~= seq![self.nodes@[cur as int].position]
                            + path_prev.reverse());
                        assert(trace(*self, v, p as int) + path@.reverse() =~= trace(
                            *self,
                            v,
                            cur_prev,
                        ) + path_prev.reverse());
                    }
                    cur = p;
                    let po = parent_vec[cur as usize];
                    proof {
                        assert(po is Some);
                        assert(v[cur as int].1 < v[cur_prev].1);
                    }
                    p = po.unwrap();
                }
                proof {
                    assert(trace(*self, v, cur as int) =~= Seq::<Pos>::empty());
                    assert(path@.reverse() =~= trace(*self, v, par as int));
                }
                let mut result: Vec<Pos> = Vec::new();
                let mut k2: usize = path.len();
                while k2 > 0
                    invariant
                        0 <= k2 <= path@.len(),
                        result@.len() == path@.len() - k2,
                        forall|m: int|
                            0 <= m < result@.len() ==> #[trigger] result@[m] == path@[path@.len()
                                - 1 - m],
                    decreases k2,
                {
                    k2 = k2 - 1;
                    result.push(path[k2]);
                }
                proof {
                    assert(result@ =~= path@.reverse());
                }
                result.push(target);
                proof {
                    assert(dfs(*self, target, f_old, v) == Some(
                        trace(*self, v, par as int) + seq![target],
                    ));
                    assert(result@ =~= trace(*self, v, par as int) + seq![target]);
                }
                return Some(result);
            }
            let ns = self.connected_neighbour_ids(node);
            let ghost ns_seq = ns@.map_values(|x: u32| x as int);
            let ghost d = v[node as int].1;
            let ghost base = fview(open@);
            proof {
                lemma_neighbours_bounds(*self, node as int, 0);
            }
            let mut j: usize = 0;
            while j < ns.len()
                invariant
                    self.wf(),
                    n == self.nodes@.len(),
                    parent_vec@.len() == n,
                    0 <= j <= ns@.len(),
                    ns_seq == ns@.map_values(|x: u32| x as int),
                    ns_seq == neighbours_from(*self, node as int, 0),
                    forall|k: int| 0 <= k < ns_seq.len() ==> 0 <= #[trigger] ns_seq[k] < n,
                    forall|k: int|
                        0 <= k < n ==> ((#[trigger] parent_vec@[k]) is Some <==> v.dom().contains(
                            k,
                        )),
                    forall|k: int|
                        0 <= k < n && v.dom().contains(k) ==> parent_vec@[k] == Some(
                            (v[k].0) as u32,
                        ),
                    expand(v, ns_seq, node as int, d, j as int).0 == expand(
                        v_old,
                        ns_seq,
                        node as int,
                        d,
                        0,
                    ).0,
                    fview(open@) + expand(v, ns_seq, node as int, d, j as int).1 == base + expand(
                        v_old,
                        ns_seq,
                        node as int,
                        d,
                        0,
                    ).1,
                decreases ns@.len() - j,
            {
                let nid = ns[j];
                let nu = nid as usize;
                proof {
                    assert(ns_seq[j as int] == nid as int);
                    assert(0 <= (nid as int) && (nid as int) < n);
                }
                let is_new = parent_vec[nu].is_none();
                if is_new {
                    let ghost open_prev = fview(open@);
                    parent_vec.set(nu, Some(node));
                    open.push((nid, node));
                    proof {
                        assert(!v.dom().contains(nid as int));
                        let v_next = v.insert(nid as int, (node as int, (d + 1) as nat));
                        assert(expand(v, ns_seq, node as int, d, j as int).1 == seq![
                            (nid as int, node as int),
                        ] + expand(v_next, ns_seq, node as int, d, j + 1).1);
                        v = v_next;
                        assert(fview(open@) =~= open_prev.push((nid as int, node as int)));
                        assert(fview(open@) + expand(v, ns_seq, node as int, d, j + 1).1
                            =~= open_prev + (seq![(nid as int, node as int)] + expand(
                            v,
                            ns_seq,
                            node as int,
                            d,
                            j + 1,
                        ).1));
                    }
                } else {
                    proof {
                        assert(v.dom().contains(nid as int));
                    }
                }
                j = j + 1;
            }
            proof {
                assert(expand(v, ns_seq, node as int, d, ns_seq.len() as int) == (
                    v,
                    Seq::<(int, int)>::empty(),
                ));
                assert(fview(open@) + Seq::<(int, int)>::empty() =~= fview(open@));
                lemma_expand_props(v_old, ns_seq, node as int, d, 0, n as int);
                lemma_dom_bound(v, n as int);
                // the new state is exactly the one the specification steps to
                assert(v == expand(v_old, ns_seq, node as int, d, 0).0);
                assert(fview(open@) == f_old.drop_last() + expand(
                    v_old,
                    ns_seq,
                    node as int,
                    d,
                    0,
                ).1);
                assert(dfs(*self, target, f_old, v_old) == dfs(*self, target, fview(open@), v));
                // the old frontier records stay valid, the queued ones are valid
                assert forall|i: int| 0 <= i < fview(open@).len() implies v.dom().contains((
                #[trigger] fview(open@)[i]).0) && v[fview(open@)[i].0].0 == fview(open@)[i].1 by {
                    if i < f_old.len() - 1 {
                        assert(f_old.drop_last()[i] == f_old[i]);
                        assert(v_old.dom().contains(f_old[i].0));
                    } else {
                        let q = expand(v_old, ns_seq, node as int, d, 0).1;
                        assert(fview(open@)[i] == q[i - (f_old.len() - 1)]);
                    }
                }
            }
        }
        proof {
            assert(fview(open@) =~= Seq::<(int, int)>::empty());
            assert(dfs(*self, target, fview(open@), v) is None);
        }
        None
    }
}

} // verus!
