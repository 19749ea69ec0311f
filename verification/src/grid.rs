//! The dense rectangular grid of nodes, its flat connection list, and the
//! bounded path cache that sits in front of it.
use vstd::prelude::*;

use std::collections::VecDeque;

use crate::node::{conn_eq, Node, NodeConnection};
use crate::pos::Pos;
use crate::search::{opt_path_view, spec_find_path};

verus! {

/// A memoized search result: the row-major indices of its start and target
/// and the path that was returned for them. Immutable once created.
#[derive(Debug)]
pub struct CachedPath {
    pub start_idx: usize,
    pub target_idx: usize,
    pub path: Vec<Pos>,
}

/// A cache entry, seen as plain values: start index, target index, path.
pub open spec fn cp_model(cp: CachedPath) -> (int, int, Seq<Pos>) {
    (cp.start_idx as int, cp.target_idx as int, cp.path@)
}

/// The whole cache, seen as a sequence of entry models, oldest first.
pub open spec fn cache_model(c: Seq<CachedPath>) -> Seq<(int, int, Seq<Pos>)> {
    c.map_values(|cp: CachedPath| cp_model(cp))
}

/// The path of the first entry of `c[j..]` whose key is `(s, t)`, if any.
pub open spec fn cache_lookup(c: Seq<(int, int, Seq<Pos>)>, j: int, s: int, t: int) -> Option<
    Seq<Pos>,
>
    decreases c.len() - j,
    when j >= 0
{
    if j >= c.len() {
        None
    } else if c[j].0 == s && c[j].1 == t {
        Some(c[j].2)
    } else {
        cache_lookup(c, j + 1, s, t)
    }
}

/// The cache after inserting `e`: with capacity 0 nothing is ever retained;
/// otherwise the oldest entry is evicted first when the cache is full, so the
/// length never exceeds the capacity.
pub open spec fn cache_put(c: Seq<(int, int, Seq<Pos>)>, cap: int, e: (int, int, Seq<Pos>)) -> Seq<
    (int, int, Seq<Pos>),
> {
    if cap <= 0 {
        c
    } else if c.len() < cap {
        c.push(e)
    } else {
        c.drop_first().push(e)
    }
}

/// `true` iff `p` occurs in `path`.
pub open spec fn path_contains(path: Seq<Pos>, p: Pos) -> bool {
    exists|i: int| 0 <= i < path.len() && path[i] == p
}

/// The entries of `c[j..]` whose stored paths do not pass through `p`, in
/// their original order.
pub open spec fn cache_invalidate(c: Seq<(int, int, Seq<Pos>)>, p: Pos, j: int) -> Seq<
    (int, int, Seq<Pos>),
>
    decreases c.len() - j,
    when j >= 0
{
    if j >= c.len() {
        Seq::empty()
    } else if path_contains(c[j].2, p) {
        cache_invalidate(c, p, j + 1)
    } else {
        seq![c[j]] + cache_invalidate(c, p, j + 1)
    }
}

/// The result a cache-fronted search returns: the memoized path on a hit,
/// the grid's own search result otherwise.
pub open spec fn cached_find_result(
    g: Grid,
    c: Seq<(int, int, Seq<Pos>)>,
    start: Pos,
    target: Pos,
) -> Option<Seq<Pos>> {
    match cache_lookup(c, 0, g.spec_node_idx(start), g.spec_node_idx(target)) {
        Some(p) => Some(p),
        None => spec_find_path(g, start, target),
    }
}

/// The cache contents after a search: unchanged on a hit or a failed search,
/// extended by the freshly solved entry otherwise.
pub open spec fn cached_find_next(
    g: Grid,
    c: Seq<(int, int, Seq<Pos>)>,
    cap: int,
    start: Pos,
    target: Pos,
) -> Seq<(int, int, Seq<Pos>)> {
    let s = g.spec_node_idx(start);
    let t = g.spec_node_idx(target);
    match cache_lookup(c, 0, s, t) {
        Some(_) => c,
        None => match spec_find_path(g, start, target) {
            Some(p) => cache_put(c, cap, (s, t, p)),
            None => c,
        },
    }
}

/// A missed key is found at the back after it is pushed.
proof fn lemma_lookup_none_push(
    c: Seq<(int, int, Seq<Pos>)>,
    j: int,
    s: int,
    t: int,
    e: (int, int, Seq<Pos>),
)
    requires
        0 <= j <= c.len(),
        cache_lookup(c, j, s, t) is None,
        e.0 == s,
        e.1 == t,
    ensures
        cache_lookup(c.push(e), j, s, t) == Some(e.2),
    decreases c.len() - j,
{
    if j < c.len() {
        assert(c.push(e)[j] == c[j]);
        lemma_lookup_none_push(c, j + 1, s, t, e);
    } else {
        assert(c.push(e)[j] == e);
    }
}

/// Looking a key up after the oldest entry left scans the remaining entries.
proof fn lemma_lookup_shift(c: Seq<(int, int, Seq<Pos>)>, j: int, s: int, t: int)
    requires
        0 <= j,
        c.len() > 0,
    ensures
        cache_lookup(c.drop_first(), j, s, t) == cache_lookup(c, j + 1, s, t),
    decreases c.len() - j,
{
    if j < c.len() - 1 {
        assert(c.drop_first()[j] == c[j + 1]);
        lemma_lookup_shift(c, j + 1, s, t);
    }
}

/// Issuing the identical search twice through a cache returns the same
/// result both times, and the second pass leaves the cache exactly as the
/// first pass left it: the cache never grows a second entry for the key.
pub proof fn lemma_cached_search_idempotent(
    g: Grid,
    c: Seq<(int, int, Seq<Pos>)>,
    cap: int,
    start: Pos,
    target: Pos,
)
    ensures
        cached_find_result(g, cached_find_next(g, c, cap, start, target), start, target)
            == cached_find_result(g, c, start, target),
        cached_find_next(g, cached_find_next(g, c, cap, start, target), cap, start, target)
            == cached_find_next(g, c, cap, start, target),
{
    let s = g.spec_node_idx(start);
    let t = g.spec_node_idx(target);
    if cache_lookup(c, 0, s, t) is None {
        match spec_find_path(g, start, target) {
            Some(p) => {
                if cap > 0 {
                    let e = (s, t, p);
                    if c.len() < cap {
                        lemma_lookup_none_push(c, 0, s, t, e);
                    } else {
                        lemma_lookup_shift(c, 0, s, t);
                        lemma_lookup_none_push(c.drop_first(), 0, s, t, e);
                    }
                    assert(cache_lookup(cache_put(c, cap, e), 0, s, t) == Some(p));
                }
            },
            None => {
            },
        }
    }
}

/// Invalidation never grows the cache.
pub proof fn lemma_invalidate_len(c: Seq<(int, int, Seq<Pos>)>, p: Pos, j: int)
    requires
        0 <= j <= c.len(),
    ensures
        cache_invalidate(c, p, j).len() <= c.len() - j,
    decreases c.len() - j,
{
    if j < c.len() {
        lemma_invalidate_len(c, p, j + 1);
    }
}

/// Invalidation removes exactly the entries whose stored path passes through
/// the given position: no surviving entry passes through it, and every entry
/// that avoids it survives.
pub proof fn lemma_invalidate_removes_hit_paths(c: Seq<(int, int, Seq<Pos>)>, p: Pos, j: int)
    requires
        j >= 0,
    ensures
        forall|i: int|
            0 <= i < cache_invalidate(c, p, j).len() ==> !path_contains(
                (#[trigger] cache_invalidate(c, p, j)[i]).2,
                p,
            ),
        forall|i: int|
            j <= i < c.len() && !path_contains((#[trigger] c[i]).2, p) ==> cache_invalidate(
                c,
                p,
                j,
            ).contains(c[i]),
    decreases c.len() - j,
{
    if j < c.len() {
        lemma_invalidate_removes_hit_paths(c, p, j + 1);
        let rest = cache_invalidate(c, p, j + 1);
        if !path_contains(c[j].2, p) {
            let whole = cache_invalidate(c, p, j);
            assert(whole == seq![c[j]] + rest);
            assert forall|i: int| 0 <= i < whole.len() implies !path_contains(
                (#[trigger] whole[i]).2,
                p,
            ) by {
                if i > 0 {
                    assert(whole[i] == rest[i - 1]);
                }
            }
            assert forall|i: int|
                j <= i < c.len() && !path_contains((#[trigger] c[i]).2, p) implies whole.contains(
                c[i],
            ) by {
                if i == j {
                    assert(whole[0] == c[j]);
                } else {
                    let w = choose|w: int| 0 <= w < rest.len() && rest[w] == c[i];
                    assert(whole[w + 1] == c[i]);
                }
            }
        } else {
            assert forall|i: int|
                j <= i < c.len() && !path_contains((#[trigger] c[i]).2, p) implies cache_invalidate(
                c,
                p,
                j,
            ).contains(c[i]) by {
                assert(i != j);
            }
        }
    }
}

/// A rectangular tile map: `size == (width, height)`, a dense row-major array
/// of nodes, and a flat list of undirected connections between node ids.
#[derive(Debug)]
pub struct Grid {
    pub size: (u32, u32),
    pub nodes: Vec<Node>,
    pub connections: Vec<NodeConnection>,
}

/// `true` iff some connection of `s[j..]` equals `c` (as an unordered pair).
pub open spec fn contains_conn(s: Seq<NodeConnection>, c: NodeConnection) -> bool {
    exists|k: int| 0 <= k < s.len() && conn_eq(s[k], c)
}

/// The connection list after adding, for each id of `cands[j..]` in turn, the
/// connection `(id, cand)` unless an equal one (as an unordered pair) is
/// already present.
pub open spec fn add_conns(acc: Seq<NodeConnection>, id: u32, cands: Seq<u32>, j: int) -> Seq<
    NodeConnection,
>
    decreases cands.len() - j,
    when j >= 0
{
    if j >= cands.len() {
        acc
    } else {
        let c = NodeConnection(id, cands[j]);
        if contains_conn(acc, c) {
            add_conns(acc, id, cands, j + 1)
        } else {
            add_conns(acc.push(c), id, cands, j + 1)
        }
    }
}

/// The connection list `s[j..]` with every connection referencing `id`
/// removed.
pub open spec fn conns_without(s: Seq<NodeConnection>, id: u32, j: int) -> Seq<NodeConnection>
    decreases s.len() - j,
    when j >= 0
{
    if j >= s.len() {
        Seq::empty()
    } else if s[j].0 == id || s[j].1 == id {
        conns_without(s, id, j + 1)
    } else {
        seq![s[j]] + conns_without(s, id, j + 1)
    }
}

/// The connections of `s[j..]` that reference `id`.
pub open spec fn incident_conns(s: Seq<NodeConnection>, id: u32, j: int) -> Seq<NodeConnection>
    decreases s.len() - j,
    when j >= 0
{
    if j >= s.len() {
        Seq::empty()
    } else if s[j].0 == id || s[j].1 == id {
        seq![s[j]] + incident_conns(s, id, j + 1)
    } else {
        incident_conns(s, id, j + 1)
    }
}

/// The index of the first node of `nodes[j..]` whose position is `p`.
pub open spec fn node_scan(nodes: Seq<Node>, p: Pos, j: int) -> Option<int>
    decreases nodes.len() - j,
    when j >= 0
{
    if j >= nodes.len() {
        None
    } else if nodes[j].position == p {
        Some(j)
    } else {
        node_scan(nodes, p, j + 1)
    }
}

/// The row-major position of index `i` in a grid of width `w`.
pub open spec fn row_major_pos(w: u32, i: int) -> Pos {
    Pos((i % (w as int)) as u32, (i / (w as int)) as u32)
}

/// The ids of the in-bounds non-diagonal neighbours of `pos` (from the `j`-th
/// neighbour candidate on), in enumeration order, for a `w` by `h` grid.
pub open spec fn inb_neighbour_ids(w: u32, h: u32, pos: Pos, j: int) -> Seq<u32>
    decreases pos.spec_neighbours(false).len() - j,
    when j >= 0
{
    let ps = pos.spec_neighbours(false);
    if j >= ps.len() {
        Seq::empty()
    } else if ps[j].0 < w && ps[j].1 < h {
        seq![((ps[j].1 as int) * (w as int) + (ps[j].0 as int)) as u32] + inb_neighbour_ids(
            w,
            h,
            pos,
            j + 1,
        )
    } else {
        inb_neighbour_ids(w, h, pos, j + 1)
    }
}

/// The connection list of a fully connected `w` by `h` grid, built by linking
/// every node from `i` upward to each of its in-bounds non-diagonal
/// neighbours, skipping connections already present as unordered pairs.
pub open spec fn full_conns(w: u32, h: u32, i: int, acc: Seq<NodeConnection>) -> Seq<
    NodeConnection,
>
    decreases (w as int) * (h as int) - i,
    when i >= 0
{
    if i >= (w as int) * (h as int) {
        acc
    } else {
        full_conns(w, h, i + 1, add_conns(acc, i as u32, inb_neighbour_ids(w, h, row_major_pos(w, i), 0), 0))
    }
}

/// Ids `a` and `b` denote two in-bounds cells of a `w` by `h` grid that are
/// orthogonal neighbours of one another.
pub open spec fn adjacent_ids(w: u32, h: u32, a: int, b: int) -> bool {
    let pa = row_major_pos(w, a);
    let pb = row_major_pos(w, b);
    &&& 0 <= a < (w as int) * (h as int)
    &&& 0 <= b < (w as int) * (h as int)
    &&& ((pa.0 == pb.0 && (pa.1 as int - pb.1 as int == 1 || pb.1 as int - pa.1 as int == 1)) || (
    pa.1 == pb.1 && (pa.0 as int - pb.0 as int == 1 || pb.0 as int - pa.0 as int == 1)))
}

/// No two connections of `s` denote the same unordered pair.
pub open spec fn no_dup_conns(s: Seq<NodeConnection>) -> bool {
    forall|k: int, m: int| 0 <= k < m < s.len() ==> !conn_eq(s[k], s[m])
}

/// Row-major index and position are inverse on an in-bounds rectangle.
pub proof fn lemma_rm_roundtrip(w: u32, h: u32, p: Pos)
    requires
        p.0 < w,
        p.1 < h,
    ensures
        ({
            let i = (p.1 as int) * (w as int) + (p.0 as int);
            0 <= i < (w as int) * (h as int) && row_major_pos(w, i) == p
        }),
{
    let i = (p.1 as int) * (w as int) + (p.0 as int);
    assert(0 <= i && i < (w as int) * (h as int)) by (nonlinear_arith)
        requires
            0 <= p.0 as int && (p.0 as int) < w as int,
            0 <= p.1 as int && (p.1 as int) < h as int,
            i == (p.1 as int) * (w as int) + (p.0 as int),
    ;
    assert(i % (w as int) == p.0 as int && i / (w as int) == p.1 as int) by (nonlinear_arith)
        requires
            0 <= p.0 as int && (p.0 as int) < w as int,
            0 <= p.1 as int,
            i == (p.1 as int) * (w as int) + (p.0 as int),
    ;
}

/// An in-bounds index decodes to an in-bounds position that encodes back.
pub proof fn lemma_pos_roundtrip(w: u32, h: u32, i: int)
    requires
        0 <= i < (w as int) * (h as int),
    ensures
        ({
            let p = row_major_pos(w, i);
            &&& (p.0 as int) < w as int
            &&& (p.1 as int) < h as int
            &&& (p.1 as int) * (w as int) + (p.0 as int) == i
        }),
{
    assert(1 <= w as int && 1 <= h as int) by (nonlinear_arith)
        requires
            0 <= i < (w as int) * (h as int),
    ;
    assert(0 <= i % (w as int) < w as int && 0 <= i / (w as int) < h as int && (i / (w as int)) * (
    w as int) + i % (w as int) == i) by (nonlinear_arith)
        requires
            0 <= i < (w as int) * (h as int),
            1 <= w as int,
    ;
}

/// `add_conns` appends only fresh `(id, candidate)` connections: the old list
/// stays a prefix, no unordered pair is duplicated, and afterwards every
/// candidate pair is present.
pub proof fn lemma_add_conns_props(acc: Seq<NodeConnection>, id: u32, cands: Seq<u32>, j: int)
    requires
        0 <= j <= cands.len(),
    ensures
        ({
            let r = add_conns(acc, id, cands, j);
            &&& acc.len() <= r.len()
            &&& forall|k: int| 0 <= k < acc.len() ==> r[k] == acc[k]
            &&& forall|k: int|
                acc.len() <= k < r.len() ==> (#[trigger] r[k]).0 == id && exists|m: int|
                    j <= m < cands.len() && r[k].1 == cands[m]
            &&& (no_dup_conns(acc) ==> no_dup_conns(r))
            &&& forall|c: NodeConnection| contains_conn(acc, c) ==> contains_conn(r, c)
            &&& forall|m: int|
                j <= m < cands.len() ==> contains_conn(r, NodeConnection(id, #[trigger] cands[m]))
        }),
    decreases cands.len() - j,
{
    if j < cands.len() {
        let c = NodeConnection(id, cands[j]);
        let r = add_conns(acc, id, cands, j);
        if contains_conn(acc, c) {
            lemma_add_conns_props(acc, id, cands, j + 1);
        } else {
            let acc2 = acc.push(c);
            assert(no_dup_conns(acc) ==> no_dup_conns(acc2)) by {
                if no_dup_conns(acc) {
                    assert forall|k: int, m: int| 0 <= k < m < acc2.len() implies !conn_eq(
                        acc2[k],
                        acc2[m],
                    ) by {
                        if m == acc.len() {
                            assert(acc2[k] == acc[k]);
                        }
                    }
                }
            }
            lemma_add_conns_props(acc2, id, cands, j + 1);
            assert(contains_conn(acc2, c)) by {
                assert(conn_eq(acc2[acc.len() as int], c));
            }
            assert forall|cc: NodeConnection| contains_conn(acc, cc) implies contains_conn(
                acc2,
                cc,
            ) by {
                let k = choose|k: int| 0 <= k < acc.len() && conn_eq(acc[k], cc);
                assert(conn_eq(acc2[k], cc));
            }
            assert forall|k: int| acc.len() <= k < r.len() implies (#[trigger] r[k]).0 == id
                && exists|m: int| j <= m < cands.len() && r[k].1 == cands[m] by {
                if k == acc.len() {
                    assert(r[k] == acc2[k]);
                    assert(r[k].1 == cands[j]);
                } else {
                    assert(acc2.len() <= k < r.len());
                    let m = choose|m: int|
                        j + 1 <= m < cands.len() && #[trigger] r[k].1 == cands[m];
                    assert(j <= m < cands.len() && r[k].1 == cands[m]);
                }
            }
        }
    }
}

/// Every non-diagonal neighbour candidate of `pos` differs from it by one
/// orthogonal step.
pub proof fn lemma_neighbours_are_adjacent(pos: Pos, q: Pos)
    requires
        (pos.0 as int) < u32::MAX as int,
        (pos.1 as int) < u32::MAX as int,
        pos.spec_neighbours(false).contains(q),
    ensures
        (q.0 == pos.0 && (q.1 as int - pos.1 as int == 1 || pos.1 as int - q.1 as int == 1)) || (
        q.1 == pos.1 && (q.0 as int - pos.0 as int == 1 || pos.0 as int - q.0 as int == 1)),
{
    let ps = pos.spec_neighbours(false);
    let m = choose|m: int| 0 <= m < ps.len() && ps[m] == q;
    assert(ps.len() <= 4);
    if m == 0 {
        assert(q == Pos((pos.0 + 1) as u32, pos.1));
    } else if m == 1 {
        assert(q == Pos(pos.0, (pos.1 + 1) as u32));
    } else if m == 2 {
        if pos.0 >= 1 {
            assert(q == Pos((pos.0 - 1) as u32, pos.1));
        } else {
            assert(q == Pos(pos.0, (pos.1 - 1) as u32));
        }
    } else {
        assert(q == Pos(pos.0, (pos.1 - 1) as u32));
    }
}

/// Every orthogonal step away from `pos` appears among its non-diagonal
/// neighbour candidates.
pub proof fn lemma_neighbours_complete(pos: Pos, q: Pos)
    requires
        (pos.0 as int) < u32::MAX as int,
        (pos.1 as int) < u32::MAX as int,
        (q.0 == pos.0 && (q.1 as int - pos.1 as int == 1 || pos.1 as int - q.1 as int == 1)) || (
        q.1 == pos.1 && (q.0 as int - pos.0 as int == 1 || pos.0 as int - q.0 as int == 1)),
    ensures
        pos.spec_neighbours(false).contains(q),
{
    let ps = pos.spec_neighbours(false);
    if q.1 == pos.1 && q.0 as int == pos.0 as int + 1 {
        assert(ps[0] == q);
    } else if q.0 == pos.0 && q.1 as int == pos.1 as int + 1 {
        assert(ps[1] == q);
    } else if q.1 == pos.1 && q.0 as int == pos.0 as int - 1 {
        assert(ps[2] == q);
    } else {
        // q is the upward neighbour; its index depends on whether a leftward
        // neighbour exists
        if pos.0 >= 1 {
            assert(ps[3] == q);
        } else {
            assert(ps[2] == q);
        }
    }
}

/// Every id the bounded neighbour enumeration produces is adjacent to the id
/// that `pos` encodes.
pub proof fn lemma_inb_ids_sound(w: u32, h: u32, pos: Pos, j: int)
    requires
        0 <= j,
        pos.0 < w,
        pos.1 < h,
        (w as int) * (h as int) <= u32::MAX as int,
    ensures
        forall|m: int|
            0 <= m < inb_neighbour_ids(w, h, pos, j).len() ==> adjacent_ids(
                w,
                h,
                (pos.1 as int) * (w as int) + (pos.0 as int),
                (#[trigger] inb_neighbour_ids(w, h, pos, j)[m]) as int,
            ),
    decreases pos.spec_neighbours(false).len() - j,
{
    let ps = pos.spec_neighbours(false);
    let a = (pos.1 as int) * (w as int) + (pos.0 as int);
    lemma_rm_roundtrip(w, h, pos);
    if j < ps.len() {
        lemma_inb_ids_sound(w, h, pos, j + 1);
        if ps[j].0 < w && ps[j].1 < h {
            let q = ps[j];
            let b = (q.1 as int) * (w as int) + (q.0 as int);
            lemma_rm_roundtrip(w, h, q);
            assert(ps.contains(q));
            lemma_neighbours_are_adjacent(pos, q);
            assert(adjacent_ids(w, h, a, b));
            assert((b as u32) as int == b);
            assert forall|m: int| 0 <= m < inb_neighbour_ids(w, h, pos, j).len() implies adjacent_ids(
                w,
                h,
                a,
                (#[trigger] inb_neighbour_ids(w, h, pos, j)[m]) as int,
            ) by {
                if m == 0 {
                    assert(inb_neighbour_ids(w, h, pos, j)[0] == b as u32);
                } else {
                    assert(inb_neighbour_ids(w, h, pos, j)[m] == inb_neighbour_ids(
                        w,
                        h,
                        pos,
                        j + 1,
                    )[m - 1]);
                }
            }
        } else {
            assert(inb_neighbour_ids(w, h, pos, j) == inb_neighbour_ids(w, h, pos, j + 1));
            assert forall|m: int| 0 <= m < inb_neighbour_ids(w, h, pos, j).len() implies adjacent_ids(
                w,
                h,
                a,
                (#[trigger] inb_neighbour_ids(w, h, pos, j)[m]) as int,
            ) by {
                assert(inb_neighbour_ids(w, h, pos, j)[m] == inb_neighbour_ids(w, h, pos, j + 1)[m]);
            }
        }
    }
}

/// Every in-bounds neighbour candidate's id appears in the enumeration.
pub proof fn lemma_inb_ids_complete(w: u32, h: u32, pos: Pos, j: int)
    requires
        0 <= j,
    ensures
        forall|m: int|
            j <= m < pos.spec_neighbours(false).len() && (#[trigger] pos.spec_neighbours(
                false,
            )[m]).0 < w && pos.spec_neighbours(false)[m].1 < h ==> inb_neighbour_ids(
                w,
                h,
                pos,
                j,
            ).contains(
                ((pos.spec_neighbours(false)[m].1 as int) * (w as int) + (pos.spec_neighbours(
                    false,
                )[m].0 as int)) as u32,
            ),
    decreases pos.spec_neighbours(false).len() - j,
{
    let ps = pos.spec_neighbours(false);
    if j < ps.len() {
        lemma_inb_ids_complete(w, h, pos, j + 1);
        let r = inb_neighbour_ids(w, h, pos, j);
        let rest = inb_neighbour_ids(w, h, pos, j + 1);
        assert forall|m: int|
            j <= m < ps.len() && (#[trigger] ps[m]).0 < w && ps[m].1 < h implies r.contains(
            ((ps[m].1 as int) * (w as int) + (ps[m].0 as int)) as u32,
        ) by {
            let b32 = ((ps[m].1 as int) * (w as int) + (ps[m].0 as int)) as u32;
            if m == j {
                assert(r[0] == b32);
            } else {
                assert(rest.contains(b32));
                let k = choose|k: int| 0 <= k < rest.len() && rest[k] == b32;
                if ps[j].0 < w && ps[j].1 < h {
                    assert(r[k + 1] == b32);
                } else {
                    assert(r == rest);
                }
            }
        }
    }
}

/// The induction behind `lemma_fully_connected_edges`: linking the nodes from
/// `i` upward keeps the list sound, duplicate-free, and complete for every
/// pair one of whose ends is already processed.
proof fn lemma_full_conns_inv(w: u32, h: u32, i: int, acc: Seq<NodeConnection>)
    requires
        0 <= i <= (w as int) * (h as int),
        (w as int) * (h as int) <= u32::MAX as int,
        forall|k: int|
            0 <= k < acc.len() ==> adjacent_ids(
                w,
                h,
                (#[trigger] acc[k]).0 as int,
                acc[k].1 as int,
            ),
        no_dup_conns(acc),
        forall|a: int, b: int|
            #[trigger] adjacent_ids(w, h, a, b) && (a < i || b < i) ==> contains_conn(
                acc,
                NodeConnection(a as u32, b as u32),
            ),
    ensures
        ({
            let es = full_conns(w, h, i, acc);
            &&& forall|k: int|
                0 <= k < es.len() ==> adjacent_ids(w, h, (#[trigger] es[k]).0 as int, es[k].1 as int)
            &&& no_dup_conns(es)
            &&& forall|a: int, b: int|
                #[trigger] adjacent_ids(w, h, a, b) ==> contains_conn(
                    es,
                    NodeConnection(a as u32, b as u32),
                )
        }),
    decreases (w as int) * (h as int) - i,
{
    let n = (w as int) * (h as int);
    if i < n {
        let pos = row_major_pos(w, i);
        lemma_pos_roundtrip(w, h, i);
        let cands = inb_neighbour_ids(w, h, pos, 0);
        let acc2 = add_conns(acc, i as u32, cands, 0);
        lemma_add_conns_props(acc, i as u32, cands, 0);
        lemma_inb_ids_sound(w, h, pos, 0);
        lemma_inb_ids_complete(w, h, pos, 0);
        assert forall|k: int| 0 <= k < acc2.len() implies adjacent_ids(
            w,
            h,
            (#[trigger] acc2[k]).0 as int,
            acc2[k].1 as int,
        ) by {
            if k >= acc.len() {
                let m = choose|m: int| 0 <= m < cands.len() && #[trigger] acc2[k].1 == cands[m];
                assert(adjacent_ids(w, h, i, cands[m] as int));
            }
        }
        assert forall|a: int, b: int|
            #[trigger] adjacent_ids(w, h, a, b) && (a < i + 1 || b < i + 1) implies contains_conn(
            acc2,
            NodeConnection(a as u32, b as u32),
        ) by {
            if a < i || b < i {
                assert(contains_conn(acc, NodeConnection(a as u32, b as u32)));
            } else if a == i {
                let q = row_major_pos(w, b);
                lemma_pos_roundtrip(w, h, b);
                lemma_neighbours_complete(pos, q);
                let m = choose|m: int|
                    0 <= m < pos.spec_neighbours(false).len() && pos.spec_neighbours(false)[m] == q;
                assert(cands.contains(b as u32));
                let mc = choose|mc: int| 0 <= mc < cands.len() && cands[mc] == b as u32;
                assert(contains_conn(acc2, NodeConnection(i as u32, cands[mc])));
            } else {
                let q = row_major_pos(w, a);
                lemma_pos_roundtrip(w, h, a);
                lemma_neighbours_complete(pos, q);
                let m = choose|m: int|
                    0 <= m < pos.spec_neighbours(false).len() && pos.spec_neighbours(false)[m] == q;
                assert(cands.contains(a as u32));
                let mc = choose|mc: int| 0 <= mc < cands.len() && cands[mc] == a as u32;
                assert(contains_conn(acc2, NodeConnection(i as u32, cands[mc])));
                let kc = choose|kc: int|
                    0 <= kc < acc2.len() && conn_eq(acc2[kc], NodeConnection(i as u32, a as u32));
                assert(conn_eq(acc2[kc], NodeConnection(a as u32, b as u32)));
            }
        }
        lemma_full_conns_inv(w, h, i + 1, acc2);
    }
}

/// The connection list of a fully connected grid holds exactly the undirected
/// axis-aligned adjacencies of the grid: every connection links two in-bounds
/// orthogonally adjacent cells (so there are no self-edges), no unordered
/// pair occurs twice, and every adjacent pair occurs.
pub proof fn lemma_fully_connected_edges(w: u32, h: u32)
    requires
        (w as int) * (h as int) <= u32::MAX as int,
    ensures
        ({
            let es = full_conns(w, h, 0, Seq::empty());
            &&& forall|k: int|
                0 <= k < es.len() ==> adjacent_ids(w, h, (#[trigger] es[k]).0 as int, es[k].1 as int)
            &&& no_dup_conns(es)
            &&& forall|a: int, b: int|
                #[trigger] adjacent_ids(w, h, a, b) ==> contains_conn(
                    es,
                    NodeConnection(a as u32, b as u32),
                )
        }),
{
    assert(0 <= (w as int) * (h as int)) by (nonlinear_arith);
    lemma_full_conns_inv(w, h, 0, Seq::empty());
}

/// No connection of `conns_without(s, id, j)` references `id`.
pub proof fn lemma_conns_without_clean(s: Seq<NodeConnection>, id: u32, j: int)
    requires
        j >= 0,
    ensures
        forall|k: int|
            0 <= k < conns_without(s, id, j).len() ==> (#[trigger] conns_without(s, id, j)[k]).0
                != id && conns_without(s, id, j)[k].1 != id,
    decreases s.len() - j,
{
    if j < s.len() {
        lemma_conns_without_clean(s, id, j + 1);
        assert forall|k: int| 0 <= k < conns_without(s, id, j).len() implies (
        #[trigger] conns_without(s, id, j)[k]).0 != id && conns_without(s, id, j)[k].1 != id by {
            if s[j].0 == id || s[j].1 == id {
                assert(conns_without(s, id, j) == conns_without(s, id, j + 1));
            } else if k == 0 {
                assert(conns_without(s, id, j)[0] == s[j]);
            } else {
                assert(conns_without(s, id, j)[k] == conns_without(s, id, j + 1)[k - 1]);
            }
        }
    }
}

impl Grid {
    /// The nodes form a dense row-major arrangement matching the declared
    /// size: node `i` has id `i` and position `(i % width, i / width)`.
    pub open spec fn wf(self) -> bool {
        &&& self.nodes@.len() == (self.size.0 as int) * (self.size.1 as int)
        &&& (self.size.0 as int) * (self.size.1 as int) <= u32::MAX as int
        &&& forall|i: int|
            0 <= i < self.nodes@.len() ==> (#[trigger] self.nodes@[i]).id == i
        &&& forall|i: int|
            0 <= i < self.nodes@.len() ==> (#[trigger] self.nodes@[i]).position == Pos(
                (i % (self.size.0 as int)) as u32,
                (i / (self.size.0 as int)) as u32,
            )
    }

    /// `p` lies strictly inside the declared width and height.
    pub open spec fn spec_in_bounds(self, p: Pos) -> bool {
        p.0 < self.size.0 && p.1 < self.size.1
    }

    /// The row-major index of `p` under this grid's width.
    pub open spec fn spec_node_idx(self, p: Pos) -> int {
        (p.1 as int) * (self.size.0 as int) + (p.0 as int)
    }

    /// For an in-bounds position the row-major index lands on the node that
    /// carries exactly that position.
    pub proof fn lemma_node_idx(self, p: Pos)
        requires
            self.wf(),
            self.spec_in_bounds(p),
        ensures
            0 <= self.spec_node_idx(p) < self.nodes@.len(),
            self.nodes@[self.spec_node_idx(p)].position == p,
            self.nodes@[self.spec_node_idx(p)].id == self.spec_node_idx(p),
    {
        let w = self.size.0 as int;
        let h = self.size.1 as int;
        let x = p.0 as int;
        let y = p.1 as int;
        let i = y * w + x;
        assert(0 <= i && i < w * h) by (nonlinear_arith)
            requires
                0 <= x < w,
                0 <= y < h,
                i == y * w + x,
        ;
        assert(i % w == x && i / w == y) by (nonlinear_arith)
            requires
                0 <= x < w,
                0 <= y,
                i == y * w + x,
        ;
    }

    /// Scanning the nodes of a well-formed grid for a position finds the
    /// row-major node when the position is in bounds, and nothing otherwise.
    pub proof fn lemma_node_scan(self, p: Pos, j: int)
        requires
            self.wf(),
            0 <= j <= self.nodes@.len(),
            forall|k: int| 0 <= k < j ==> (#[trigger] self.nodes@[k]).position != p,
        ensures
            node_scan(self.nodes@, p, j) == if self.spec_in_bounds(p) && self.spec_node_idx(p)
                >= j {
                Some(self.spec_node_idx(p))
            } else {
                Option::<int>::None
            },
        decreases self.nodes@.len() - j,
    {
        let w = self.size.0 as int;
        let h = self.size.1 as int;
        if self.spec_in_bounds(p) {
            self.lemma_node_idx(p);
        }
        if j < self.nodes@.len() {
            if self.nodes@[j].position == p {
                // the scan stops here; row-major indices are injective on
                // positions, so j is the row-major index of p
                assert(self.nodes@[j].position == Pos((j % w) as u32, (j / w) as u32));
                assert(0 <= j % w < w && 0 <= j / w < h) by (nonlinear_arith)
                    requires
                        0 <= j < w * h,
                        0 < w,
                ;
                assert(j == (j / w) * w + (j % w)) by (nonlinear_arith)
                    requires
                        0 < w,
                ;
            } else {
                self.lemma_node_scan(p, j + 1);
            }
        }
    }

    /// A grid of `size.0 * size.1` nodes in row-major order, each with its
    /// derived id and position, empty connections and zero cost.
    pub fn new(size: (u32, u32)) -> (r: Grid)
        requires
            (size.0 as int) * (size.1 as int) <= u32::MAX as int,
        ensures
            r.wf(),
            r.size == size,
            r.connections@.len() == 0,
            r.nodes@.len() == (size.0 as int) * (size.1 as int),
            forall|i: int|
                0 <= i < r.nodes@.len() ==> (#[trigger] r.nodes@[i]).connections@.len() == 0
                    && r.nodes@[i].cost == 0,
    {
        let w = size.0;
        let h = size.1;
        let mut nodes: Vec<Node> = Vec::new();
        let mut y: u32 = 0;
        while y < h
            invariant
                y <= h,
                (w as int) * (h as int) <= u32::MAX as int,
                nodes@.len() == (y as int) * (w as int),
                forall|i: int|
                    0 <= i < nodes@.len() ==> (#[trigger] nodes@[i]).id == i && nodes@[i].position
                        == Pos((i % (w as int)) as u32, (i / (w as int)) as u32)
                        && nodes@[i].connections@.len() == 0 && nodes@[i].cost == 0,
            decreases h - y,
        {
            let mut x: u32 = 0;
            while x < w
                invariant
                    x <= w,
                    y < h,
                    (w as int) * (h as int) <= u32::MAX as int,
                    nodes@.len() == (y as int) * (w as int) + (x as int),
                    forall|i: int|
                        0 <= i < nodes@.len() ==> (#[trigger] nodes@[i]).id == i
                            && nodes@[i].position == Pos(
                            (i % (w as int)) as u32,
                            (i / (w as int)) as u32,
                        ) && nodes@[i].connections@.len() == 0 && nodes@[i].cost == 0,
                decreases w - x,
            {
                proof {
                    assert((y as int) * (w as int) + (x as int) < (w as int) * (h as int) && (y
                        as int) * (w as int) + (x as int) <= u32::MAX as int && ((y as int) * (
                    w as int) + (x as int)) % (w as int) == x as int && ((y as int) * (w as int) + (
                    x as int)) / (w as int) == y as int) by (nonlinear_arith)
                        requires
                            0 <= x < w as int,
                            0 <= y < h as int,
                            (w as int) * (h as int) <= u32::MAX as int,
                    ;
                }
                let node_id = y * w + x;
                nodes.push(Node::new(node_id, Pos(x, y)));
                x = x + 1;
            }
            proof {
                assert((y as int + 1) * (w as int) == (y as int) * (w as int) + (w as int))
                    by (nonlinear_arith);
            }
            y = y + 1;
        }
        proof {
            assert((size.1 as int) * (size.0 as int) == (size.0 as int) * (size.1 as int))
                by (nonlinear_arith);
        }
        Grid { size, nodes, connections: Vec::new() }
    }

    /// A grid of the given size in which every node is linked to each of its
    /// in-bounds non-diagonal neighbours, yielding an undirected planar grid
    /// graph with every edge recorded once.
    pub fn fully_connected(size: (u32, u32)) -> (r: Grid)
        requires
            (size.0 as int) * (size.1 as int) <= u32::MAX as int,
        ensures
            r.wf(),
            r.size == size,
            r.connections@ == full_conns(size.0, size.1, 0, Seq::empty()),
            forall|i: int|
                0 <= i < r.nodes@.len() ==> (#[trigger] r.nodes@[i]).connections@.len() == 0
                    && r.nodes@[i].cost == 0,
    {
        let w = size.0;
        let h = size.1;
        let mut grid = Grid::new(size);
        proof {
            assert(grid.connections@ =~= Seq::<NodeConnection>::empty());
        }
        let n = grid.nodes.len();
        let mut i: usize = 0;
        while i < n
            invariant
                grid.wf(),
                grid.size == size,
                w == size.0,
                h == size.1,
                n == grid.nodes@.len(),
                0 <= i <= n,
                forall|k: int|
                    0 <= k < grid.nodes@.len() ==> (#[trigger] grid.nodes@[k]).connections@.len()
                        == 0 && grid.nodes@[k].cost == 0,
                full_conns(w, h, i as int, grid.connections@) == full_conns(w, h, 0, Seq::empty()),
            decreases n - i,
        {
            let node_pos = grid.nodes[i].position;
            let node_id = grid.nodes[i].id;
            let node = Node::new(node_id, node_pos);
            proof {
                assert(1 <= w as int && 1 <= h as int) by (nonlinear_arith)
                    requires
                        0 <= i < (w as int) * (h as int),
                ;
                assert(w as int <= (w as int) * (h as int) && h as int <= (w as int) * (h as int))
                    by (nonlinear_arith)
                    requires
                        1 <= w as int,
                        1 <= h as int,
                ;
                assert(0 <= (i as int) % (w as int) < w as int && 0 <= (i as int) / (w as int) < h
                    as int) by (nonlinear_arith)
                    requires
                        0 <= i < (w as int) * (h as int),
                        1 <= w as int,
                ;
            }
            let nps = node_pos.neighbour_positions(false);
            let mut cands: Vec<Node> = Vec::new();
            let mut k: usize = 0;
            while k < nps.len()
                invariant
                    grid.wf(),
                    grid.size == size,
                    w == size.0,
                    h == size.1,
                    0 <= k <= nps@.len(),
                    nps@ == node_pos.spec_neighbours(false),
                    cands@.map_values(|nd: Node| nd.id) + inb_neighbour_ids(
                        w,
                        h,
                        node_pos,
                        k as int,
                    ) == inb_neighbour_ids(w, h, node_pos, 0),
                decreases nps@.len() - k,
            {
                let ghost prev = cands@.map_values(|nd: Node| nd.id);
                let np = nps[k];
                proof {
                    grid.lemma_node_scan(np, 0);
                }
                match grid.get_node(&np) {
                    Some(nd) => {
                        let c = Node::new(nd.id, nd.position);
                        cands.push(c);
                        proof {
                            assert(grid.spec_in_bounds(np));
                            grid.lemma_node_idx(np);
                            assert(nd.id as int == (np.1 as int) * (w as int) + (np.0 as int));
                            assert(cands@.map_values(|nd: Node| nd.id) =~= prev.push(nd.id));
                            assert(cands@.map_values(|nd: Node| nd.id) + inb_neighbour_ids(
                                w,
                                h,
                                node_pos,
                                k + 1,
                            ) =~= prev + (seq![
                                ((np.1 as int) * (w as int) + (np.0 as int)) as u32,
                            ] + inb_neighbour_ids(w, h, node_pos, k + 1)));
                        }
                    },
                    None => {
                    },
                }
                k = k + 1;
            }
            proof {
                assert(cands@.map_values(|nd: Node| nd.id) + inb_neighbour_ids(
                    w,
                    h,
                    node_pos,
                    nps@.len() as int,
                ) =~= cands@.map_values(|nd: Node| nd.id));
                assert(node_pos == row_major_pos(w, i as int));
            }
            grid.set_connections(&node, cands);
            i = i + 1;
        }
        grid
    }

    /// Component-wise bounds test: `true` iff both coordinates are strictly
    /// below the declared width and height.
    pub fn not_out_of_bounds(&self, pos: &Pos) -> (r: bool)
        ensures
            r == self.spec_in_bounds(*pos),
    {
        pos.0 < self.size.0 && pos.1 < self.size.1
    }

    /// Scan for a node holding exactly this position; `None` if absent.
    pub fn get_node(&self, pos: &Pos) -> (r: Option<&Node>)
        ensures
            match r {
                Some(node) => {
                    &&& node_scan(self.nodes@, *pos, 0) matches Some(i)
                    &&& *node == self.nodes@[node_scan(self.nodes@, *pos, 0)->Some_0]
                },
                None => node_scan(self.nodes@, *pos, 0) is None,
            },
    {
        let mut j: usize = 0;
        while j < self.nodes.len()
            invariant
                0 <= j <= self.nodes@.len(),
                node_scan(self.nodes@, *pos, 0) == node_scan(self.nodes@, *pos, j as int),
            decreases self.nodes@.len() - j,
        {
            if self.nodes[j].position == *pos {
                return Some(&self.nodes[j]);
            }
            j = j + 1;
        }
        None
    }

    /// The row-major index of `(x, y)` under this grid's width.
    pub(crate) fn get_node_idx(&self, x: u32, y: u32) -> (r: usize)
        requires
            self.wf(),
            self.spec_in_bounds(Pos(x, y)),
        ensures
            r as int == self.spec_node_idx(Pos(x, y)),
            r < self.nodes@.len(),
    {
        proof {
            self.lemma_node_idx(Pos(x, y));
            assert((y as int) * (self.size.0 as int) <= (y as int) * (self.size.0 as int) + (x
                as int));
        }
        ((y * self.size.0) + x) as usize
    }

    /// The node at an in-bounds position; its position is exactly `pos` and
    /// its id is the row-major index.
    pub fn node_at(&self, pos: &Pos) -> (r: &Node)
        requires
            self.wf(),
            self.spec_in_bounds(*pos),
        ensures
            *r == self.nodes@[self.spec_node_idx(*pos)],
            r.position == *pos,
            r.id as int == self.spec_node_idx(*pos),
    {
        proof {
            self.lemma_node_idx(*pos);
        }
        let idx = self.get_node_idx(pos.0, pos.1);
        &self.nodes[idx]
    }

    /// `true` iff a connection equal (as an unordered pair) to `c` is present.
    fn contains_connection(&self, c: &NodeConnection) -> (r: bool)
        ensures
            r == contains_conn(self.connections@, *c),
    {
        let mut k: usize = 0;
        while k < self.connections.len()
            invariant
                0 <= k <= self.connections@.len(),
                forall|m: int| 0 <= m < k ==> !conn_eq(self.connections@[m], *c),
            decreases self.connections@.len() - k,
        {
            if self.connections[k] == *c {
                return true;
            }
            k = k + 1;
        }
        false
    }

    /// Add a connection from `node` to each of `connected_nodes`, skipping
    /// any connection already present as an unordered pair (including ones
    /// added earlier in the same call).
    pub fn set_connections(&mut self, node: &Node, connected_nodes: Vec<Node>)
        ensures
            final(self).size == old(self).size,
            final(self).nodes == old(self).nodes,
            final(self).connections@ == add_conns(
                old(self).connections@,
                node.id,
                connected_nodes@.map_values(|n: Node| n.id),
                0,
            ),
    {
        let ghost cands = connected_nodes@.map_values(|n: Node| n.id);
        let mut j: usize = 0;
        while j < connected_nodes.len()
            invariant
                0 <= j <= connected_nodes@.len(),
                cands == connected_nodes@.map_values(|n: Node| n.id),
                self.size == old(self).size,
                self.nodes == old(self).nodes,
                add_conns(self.connections@, node.id, cands, j as int) == add_conns(
                    old(self).connections@,
                    node.id,
                    cands,
                    0,
                ),
            decreases connected_nodes@.len() - j,
        {
            let c = NodeConnection(node.id, connected_nodes[j].id);
            proof {
                assert(cands[j as int] == connected_nodes@[j as int].id);
            }
            if !self.contains_connection(&c) {
                self.connections.push(c);
            }
            j = j + 1;
        }
    }

    /// Remove every connection that references `node`'s id.
    pub fn remove_connections_for_node(&mut self, node: &Node)
        ensures
            final(self).size == old(self).size,
            final(self).nodes == old(self).nodes,
            final(self).connections@ == conns_without(old(self).connections@, node.id, 0),
            forall|k: int|
                0 <= k < final(self).connections@.len() ==> (#[trigger] final(self).connections@[k]).0
                    != node.id && final(self).connections@[k].1 != node.id,
    {
        let mut kept: Vec<NodeConnection> = Vec::new();
        let mut j: usize = 0;
        while j < self.connections.len()
            invariant
                0 <= j <= self.connections@.len(),
                kept@ + conns_without(self.connections@, node.id, j as int) == conns_without(
                    self.connections@,
                    node.id,
                    0,
                ),
            decreases self.connections@.len() - j,
        {
            let ghost prev = kept@;
            let c = self.connections[j];
            if !(c.0 == node.id || c.1 == node.id) {
                kept.push(c);
                proof {
                    assert(kept@ + conns_without(self.connections@, node.id, j + 1) =~= prev + (
                    seq![self.connections@[j as int]] + conns_without(
                        self.connections@,
                        node.id,
                        j + 1,
                    )));
                }
            }
            j = j + 1;
        }
        proof {
            assert(kept@ + conns_without(self.connections@, node.id, self.connections@.len()
                as int) =~= kept@);
            lemma_conns_without_clean(self.connections@, node.id, 0);
        }
        self.connections = kept;
    }

    /// The connections that reference `node`'s id, in list order.
    pub fn get_connections(&self, node: &Node) -> (r: Vec<NodeConnection>)
        ensures
            r@ == incident_conns(self.connections@, node.id, 0),
    {
        let mut r: Vec<NodeConnection> = Vec::new();
        let mut j: usize = 0;
        while j < self.connections.len()
            invariant
                0 <= j <= self.connections@.len(),
                r@ + incident_conns(self.connections@, node.id, j as int) == incident_conns(
                    self.connections@,
                    node.id,
                    0,
                ),
            decreases self.connections@.len() - j,
        {
            let ghost prev = r@;
            let c = self.connections[j];
            if c.0 == node.id || c.1 == node.id {
                r.push(c);
                proof {
                    assert(r@ + incident_conns(self.connections@, node.id, j + 1) =~= prev + (
                    seq![self.connections@[j as int]] + incident_conns(
                        self.connections@,
                        node.id,
                        j + 1,
                    )));
                }
            }
            j = j + 1;
        }
        proof {
            assert(r@ + incident_conns(self.connections@, node.id, self.connections@.len() as int)
                =~= r@);
        }
        r
    }

    /// Overwrite the node slot addressed by `node.id` with a copy of `node`.
    pub fn update_node(&mut self, node: &Node)
        requires
            (node.id as int) < old(self).nodes@.len(),
        ensures
            final(self).size == old(self).size,
            final(self).connections == old(self).connections,
            final(self).nodes@.len() == old(self).nodes@.len(),
            final(self).nodes@[node.id as int].id == node.id,
            final(self).nodes@[node.id as int].position == node.position,
            final(self).nodes@[node.id as int].cost == node.cost,
            final(self).nodes@[node.id as int].connections@ == node.connections@,
            forall|i: int|
                0 <= i < old(self).nodes@.len() && i != node.id as int ==> final(self).nodes@[i]
                    == old(self).nodes@[i],
    {
        let copy = Node {
            id: node.id,
            position: node.position,
            connections: copy_u32_vec(&node.connections),
            cost: node.cost,
        };
        let idx = node.id as usize;
        self.nodes.set(idx, copy);
    }

    /// The full node array, in row-major order.
    pub fn iter(&self) -> (r: &Vec<Node>)
        ensures
            r@ == self.nodes@,
    {
        &self.nodes
    }
}

/// A grid with a bounded, insertion-ordered memo of solved searches in front
/// of it. The memo is first-in-first-out, not least-recently-used: hits do
/// not promote an entry, and its length never exceeds `cache_size`.
#[derive(Debug)]
pub struct CachedGrid {
    pub grid: Grid,
    pub cache_size: usize,
    pub cache: VecDeque<CachedPath>,
}

impl CachedGrid {
    /// The grid is well formed and the cache respects its capacity bound.
    pub open spec fn wf(self) -> bool {
        self.grid.wf() && self.cache@.len() <= self.cache_size
    }

    /// A cache of the given capacity in front of `grid`, initially empty.
    pub fn new(grid: Grid, cache_size: usize) -> (r: CachedGrid)
        ensures
            r.grid == grid,
            r.cache_size == cache_size,
            r.cache@.len() == 0,
    {
        CachedGrid { grid, cache_size, cache: VecDeque::new() }
    }

    /// Answer `start -> target` from the memo when an entry with that key
    /// exists; otherwise search the grid, memoizing a successful result.
    pub fn find_path(&mut self, start: Pos, target: Pos) -> (r: Option<Vec<Pos>>)
        requires
            old(self).grid.wf(),
            old(self).grid.spec_in_bounds(start),
            old(self).grid.spec_in_bounds(target),
        ensures
            final(self).grid == old(self).grid,
            final(self).cache_size == old(self).cache_size,
            old(self).wf() ==> final(self).wf(),
            opt_path_view(r) == cached_find_result(
                old(self).grid,
                cache_model(old(self).cache@),
                start,
                target,
            ),
            cache_model(final(self).cache@) == cached_find_next(
                old(self).grid,
                cache_model(old(self).cache@),
                old(self).cache_size as int,
                start,
                target,
            ),
    {
        let s_idx = self.grid.get_node_idx(start.0, start.1);
        let t_idx = self.grid.get_node_idx(target.0, target.1);
        let ghost cm = cache_model(self.cache@);
        let mut j: usize = 0;
        while j < self.cache.len()
            invariant
                0 <= j <= self.cache@.len(),
                cm == cache_model(self.cache@),
                s_idx as int == self.grid.spec_node_idx(start),
                t_idx as int == self.grid.spec_node_idx(target),
                cache_lookup(cm, j as int, s_idx as int, t_idx as int) == cache_lookup(
                    cm,
                    0,
                    s_idx as int,
                    t_idx as int,
                ),
            decreases self.cache@.len() - j,
        {
            if self.cache[j].start_idx == s_idx && self.cache[j].target_idx == t_idx {
                let path_copy = copy_pos_vec(&self.cache[j].path);
                proof {
                    assert(cm[j as int] == cp_model(self.cache@[j as int]));
                }
                return Some(path_copy);
            }
            proof {
                assert(cm[j as int] == cp_model(self.cache@[j as int]));
            }
            j = j + 1;
        }
        proof {
            assert(cache_lookup(cm, 0, s_idx as int, t_idx as int) is None);
        }
        match self.grid.find_path(start, target) {
            Some(path) => {
                let path_copy = copy_pos_vec(&path);
                let key = (s_idx, t_idx);
                self.put_cache(&key, path_copy);
                Some(path)
            },
            None => None,
        }
    }

    /// Remove the node's connectivity from the grid, then drop every memo
    /// entry whose stored path passes through the node's position.
    pub fn remove_connections_for_node(&mut self, node: &Node)
        ensures
            final(self).cache_size == old(self).cache_size,
            old(self).wf() ==> final(self).wf(),
            final(self).grid.size == old(self).grid.size,
            final(self).grid.nodes == old(self).grid.nodes,
            final(self).grid.connections@ == conns_without(
                old(self).grid.connections@,
                node.id,
                0,
            ),
            cache_model(final(self).cache@) == cache_invalidate(
                cache_model(old(self).cache@),
                node.position,
                0,
            ),
    {
        self.grid.remove_connections_for_node(node);
        let ghost cm = cache_model(self.cache@);
        let mut kept: VecDeque<CachedPath> = VecDeque::new();
        let mut j: usize = 0;
        while j < self.cache.len()
            invariant
                0 <= j <= self.cache@.len(),
                cm == cache_model(self.cache@),
                cache_model(kept@) + cache_invalidate(cm, node.position, j as int)
                    == cache_invalidate(cm, node.position, 0),
            decreases self.cache@.len() - j,
        {
            let ghost prev = cache_model(kept@);
            proof {
                assert(cm[j as int] == cp_model(self.cache@[j as int]));
            }
            if !contains_pos(&self.cache[j].path, &node.position) {
                let cp = CachedPath {
                    start_idx: self.cache[j].start_idx,
                    target_idx: self.cache[j].target_idx,
                    path: copy_pos_vec(&self.cache[j].path),
                };
                kept.push_back(cp);
                proof {
                    assert(cache_model(kept@) =~= prev.push(cm[j as int]));
                    assert(prev.push(cm[j as int]) + cache_invalidate(cm, node.position, j + 1)
                        =~= prev + (seq![cm[j as int]] + cache_invalidate(
                        cm,
                        node.position,
                        j + 1,
                    )));
                }
            }
            j = j + 1;
        }
        proof {
            assert(cache_model(kept@) + cache_invalidate(cm, node.position, cm.len() as int)
                =~= cache_model(kept@));
            lemma_invalidate_len(cm, node.position, 0);
            assert(kept@.len() == cache_model(kept@).len());
        }
        self.cache = kept;
    }

    /// Memoize `value` under `key`, evicting the oldest entry first when the
    /// cache is full; with capacity 0 nothing is retained.
    pub fn put_cache(&mut self, key: &(usize, usize), value: Vec<Pos>)
        ensures
            final(self).grid == old(self).grid,
            final(self).cache_size == old(self).cache_size,
            old(self).cache@.len() <= old(self).cache_size ==> final(self).cache@.len()
                <= final(self).cache_size,
            cache_model(final(self).cache@) == cache_put(
                cache_model(old(self).cache@),
                old(self).cache_size as int,
                (key.0 as int, key.1 as int, value@),
            ),
    {
        if self.cache_size == 0 {
            return ;
        }
        let ghost cm = cache_model(self.cache@);
        if self.cache.len() >= self.cache_size {
            let popped = self.cache.pop_front();
            proof {
                assert(cache_model(self.cache@) =~= cm.drop_first());
            }
        }
        let entry = CachedPath { start_idx: key.0, target_idx: key.1, path: value };
        let ghost before = cache_model(self.cache@);
        self.cache.push_back(entry);
        proof {
            assert(cache_model(self.cache@) =~= before.push(
                (key.0 as int, key.1 as int, value@),
            ));
        }
    }
}

/// `true` iff the path passes through `p`.
fn contains_pos(path: &Vec<Pos>, p: &Pos) -> (r: bool)
    ensures
        r == path_contains(path@, *p),
{
    let mut j: usize = 0;
    while j < path.len()
        invariant
            0 <= j <= path@.len(),
            forall|m: int| 0 <= m < j ==> path@[m] != *p,
        decreases path@.len() - j,
    {
        if path[j].0 == p.0 && path[j].1 == p.1 {
            return true;
        }
        j = j + 1;
    }
    false
}

/// An element-wise copy of a path.
fn copy_pos_vec(v: &Vec<Pos>) -> (r: Vec<Pos>)
    ensures
        r@ == v@,
{
    let mut r: Vec<Pos> = Vec::new();
    let mut j: usize = 0;
    while j < v.len()
        invariant
            0 <= j <= v@.len(),
            r@ == v@.subrange(0, j as int),
        decreases v@.len() - j,
    {
        r.push(v[j]);
        proof {
            assert(r@ =~= v@.subrange(0, j + 1));
        }
        j = j + 1;
    }
    proof {
        assert(r@ =~= v@);
    }
    r
}

/// An element-wise copy of a vector of ids.
fn copy_u32_vec(v: &Vec<u32>) -> (r: Vec<u32>)
    ensures
        r@ == v@,
{
    let mut r: Vec<u32> = Vec::new();
    let mut j: usize = 0;
    while j < v.len()
        invariant
            0 <= j <= v@.len(),
            r@ == v@.subrange(0, j as int),
        decreases v@.len() - j,
    {
        r.push(v[j]);
        proof {
            assert(r@ =~= v@.subrange(0, j + 1));
        }
        j = j + 1;
    }
    proof {
        assert(r@ =~= v@);
    }
    r
}

} // verus!
