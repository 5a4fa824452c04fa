use vstd::multiset::Multiset;
use vstd::prelude::*;

use std::collections::{HashMap, HashSet};

use crate::bot::wall_at;
use crate::geometry::{cheb, cheb_wide, pt};
use crate::open_list::{Entry, OpenList};
use crate::protocol::Wall;

verus! {

broadcast use vstd::std_specs::hash::group_hash_axioms;

/// A move of the search: three cells along a row, a column or a diagonal.
pub open spec fn step_dir(d: (int, int)) -> bool {
    &&& (d.0 == -3 || d.0 == 0 || d.0 == 3)
    &&& (d.1 == -3 || d.1 == 0 || d.1 == 3)
    &&& !(d.0 == 0 && d.1 == 0)
}

/// A cell the search may enter: inside `0..=width` x `0..=height` and not a wall.
pub open spec fn walkable(p: (int, int), walls: Seq<Wall>, width: int, height: int) -> bool {
    &&& 0 <= p.0 <= width
    &&& 0 <= p.1 <= height
    &&& !wall_at(p, walls)
}

/// One move of the search from `p` to `q`.
pub open spec fn is_step(p: (int, int), q: (int, int), walls: Seq<Wall>, width: int, height: int) -> bool {
    step_dir((q.0 - p.0, q.1 - p.1)) && walkable(q, walls, width, height)
}

/// A sequence of cells in which each cell is one move from the one before.
pub open spec fn is_path(path: Seq<(int, int)>, walls: Seq<Wall>, width: int, height: int) -> bool {
    &&& path.len() >= 1
    &&& forall|i: int|
        0 <= i < path.len() - 1 ==> #[trigger] is_step(path[i], path[i + 1], walls, width, height)
}

/// A path from `from` to `to`.
pub open spec fn path_between(
    path: Seq<(int, int)>,
    from: (int, int),
    to: (int, int),
    walls: Seq<Wall>,
    width: int,
    height: int,
) -> bool {
    &&& is_path(path, walls, width, height)
    &&& path[0] == from
    &&& path.last() == to
}

/// A path from `from` to `to` with no more cells than any other such path.
pub open spec fn shortest_path(
    path: Seq<(int, int)>,
    from: (int, int),
    to: (int, int),
    walls: Seq<Wall>,
    width: int,
    height: int,
) -> bool {
    &&& path_between(path, from, to, walls, width, height)
    &&& forall|other: Seq<(int, int)>|
        #[trigger] path_between(other, from, to, walls, width, height) ==> path.len() <= other.len()
}

/// `d` is the first move of a shortest path from `start` to `goal`, and no
/// shortest path starts with a move that comes earlier in `step_dirs()`.
pub open spec fn is_first_step(
    start: (int, int),
    goal: (int, int),
    walls: Seq<Wall>,
    width: int,
    height: int,
    d: (int, int),
) -> bool {
    &&& start != goal
    &&& exists|path: Seq<(int, int)>|
        #[trigger] shortest_path(path, start, goal, walls, width, height) && path.len() >= 2
            && path[1] == (start.0 + d.0, start.1 + d.1)
    &&& forall|path: Seq<(int, int)>|
        #[trigger] shortest_path(path, start, goal, walls, width, height) && path.len() >= 2
            ==> dir_rank(d) <= first_rank(path)
}

/// The next step towards `goal`: the first move, in the order of `step_dirs()`,
/// that starts a shortest path; `None` when there is none, that is when `start`
/// is the goal or the goal cannot be reached (see `lemma_next_step_none`).
pub open spec fn next_step(
    start: (int, int),
    goal: (int, int),
    walls: Seq<Wall>,
    width: int,
    height: int,
) -> Option<(int, int)> {
    if exists|d: (int, int)| #[trigger] is_first_step(start, goal, walls, width, height, d) {
        Some(choose|d: (int, int)| #[trigger] is_first_step(start, goal, walls, width, height, d))
    } else {
        None
    }
}

pub open spec fn opt_pt(r: Option<(i32, i32)>) -> Option<(int, int)> {
    match r {
        Some(p) => Some(pt(p)),
        None => None,
    }
}

/// The search's estimate of the remaining moves: a third of the Chebyshev distance.
pub open spec fn heuristic_spec(p: (int, int), goal: (int, int)) -> int {
    cheb(p, goal) / 3
}

/// Estimate of the moves from `from` to `to`.
fn heuristic(from: (i32, i32), to: (i32, i32)) -> (h: i32)
    ensures
        h == heuristic_spec(pt(from), pt(to)),
        h >= 0,
{
    let d = cheb_wide(from, to);
    (d / 3) as i32
}

/// The estimate never drops by more than one per move.
proof fn lemma_heuristic_consistent(p: (int, int), q: (int, int), goal: (int, int))
    requires
        step_dir((q.0 - p.0, q.1 - p.1)),
    ensures
        heuristic_spec(p, goal) <= 1 + heuristic_spec(q, goal),
        heuristic_spec(p, goal) >= 0,
{
    assert(cheb(p, goal) <= cheb(q, goal) + 3);
}

pub open spec fn in_i32(p: (int, int)) -> bool {
    &&& i32::MIN <= p.0 <= i32::MAX
    &&& i32::MIN <= p.1 <= i32::MAX
}

/// The hash key of a cell.
pub open spec fn cell_key(p: (int, int)) -> u64 {
    ((p.0 + 0x8000_0000) * 0x1_0000_0000 + (p.1 + 0x8000_0000)) as u64
}

proof fn lemma_key_injective(p: (int, int), q: (int, int))
    requires
        in_i32(p),
        in_i32(q),
        cell_key(p) == cell_key(q),
    ensures
        p == q,
{
    let a = p.0 + 0x8000_0000;
    let b = p.1 + 0x8000_0000;
    let c = q.0 + 0x8000_0000;
    let d = q.1 + 0x8000_0000;
    assert(0 <= a * 0x1_0000_0000 + b <= 0xffff_ffff_ffff_ffff) by (nonlinear_arith)
        requires
            0 <= a < 0x1_0000_0000,
            0 <= b < 0x1_0000_0000,
    ;
    assert(0 <= c * 0x1_0000_0000 + d <= 0xffff_ffff_ffff_ffff) by (nonlinear_arith)
        requires
            0 <= c < 0x1_0000_0000,
            0 <= d < 0x1_0000_0000,
    ;
    assert(a * 0x1_0000_0000 + b == c * 0x1_0000_0000 + d);
    assert(a == c && b == d) by (nonlinear_arith)
        requires
            a * 0x1_0000_0000 + b == c * 0x1_0000_0000 + d,
            0 <= b < 0x1_0000_0000,
            0 <= d < 0x1_0000_0000,
    ;
}

fn key_of(p: (i32, i32)) -> (k: u64)
    ensures
        k == cell_key(pt(p)),
{
    let a = (p.0 as i64 + 0x8000_0000) as u64;
    let b = (p.1 as i64 + 0x8000_0000) as u64;
    assert(a * 0x1_0000_0000 + b <= 0xffff_ffff_ffff_ffff) by (nonlinear_arith)
        requires
            a < 0x1_0000_0000,
            b < 0x1_0000_0000,
    ;
    a * 0x1_0000_0000 + b
}

/// The hash keys of the wall cells.
fn wall_keys(walls: &[Wall]) -> (set: HashSet<u64>)
    ensures
        forall|p: (int, int)| in_i32(p) ==> (set@.contains(#[trigger] cell_key(p)) <==> wall_at(p, walls@)),
{
    let mut set: HashSet<u64> = HashSet::new();
    let n = walls.len();
    let mut i: usize = 0;
    while i < n
        invariant
            n == walls@.len(),
            0 <= i <= n,
            forall|p: (int, int)|
                in_i32(p) ==> (set@.contains(#[trigger] cell_key(p)) <==> wall_at(p, walls@.take(i as int))),
        decreases n - i,
    {
        let w = walls[i];
        let k = key_of((w.x, w.y));
        set.insert(k);
        assert forall|p: (int, int)|
            in_i32(p) implies (set@.contains(#[trigger] cell_key(p)) <==> wall_at(p, walls@.take(i + 1))) by {
            let t0 = walls@.take(i as int);
            let t1 = walls@.take(i + 1);
            if set@.contains(cell_key(p)) {
                if cell_key(p) == k {
                    lemma_key_injective(p, (w.x as int, w.y as int));
                    assert(t1[i as int] == w);
                } else {
                    let j = choose|j: int| 0 <= j < t0.len() && (#[trigger] t0[j]).x == p.0 && t0[j].y == p.1;
                    assert(t1[j] == t0[j]);
                }
            }
            if wall_at(p, t1) {
                let j = choose|j: int| 0 <= j < t1.len() && (#[trigger] t1[j]).x == p.0 && t1[j].y == p.1;
                if j < i {
                    assert(t0[j] == t1[j]);
                }
            }
        }
        i += 1;
    }
    assert(walls@.take(n as int) =~= walls@);
    set
}

spec fn has_g(gm: Map<u64, (usize, usize)>, p: (int, int)) -> bool {
    in_i32(p) && gm.contains_key(cell_key(p))
}

/// The recorded number of moves to `p`.
spec fn g_of(gm: Map<u64, (usize, usize)>, p: (int, int)) -> int {
    gm[cell_key(p)].0 as int
}

/// The recorded rank of the first move on the way to `p`.
spec fn rk_of(gm: Map<u64, (usize, usize)>, p: (int, int)) -> int {
    gm[cell_key(p)].1 as int
}

/// The label the search orders cells by: fewer moves first, and among equally
/// many moves, a first move tried earlier.
spec fn label(gm: Map<u64, (usize, usize)>, p: (int, int)) -> int {
    8 * g_of(gm, p) + rk_of(gm, p)
}

/// The rank of the first move of a path (0 for a path without moves).
pub open spec fn first_rank(path: Seq<(int, int)>) -> int {
    if path.len() >= 2 {
        dir_rank((path[1].0 - path[0].0, path[1].1 - path[0].1))
    } else {
        0
    }
}

/// The label of a path: its number of moves, then the rank of its first move.
spec fn path_label(path: Seq<(int, int)>) -> int {
    8 * (path.len() - 1) + first_rank(path)
}

/// The label `q` gets when reached in one move from `c`.
spec fn succ_label(s: (int, int), gm: Map<u64, (usize, usize)>, c: (int, int), q: (int, int)) -> int {
    8 * (g_of(gm, c) + 1) + if c == s {
        dir_rank((q.0 - c.0, q.1 - c.1))
    } else {
        rk_of(gm, c)
    }
}

spec fn is_closed(cs: Set<u64>, p: (int, int)) -> bool {
    in_i32(p) && cs.contains(cell_key(p))
}

spec fn has_parent(cm: Map<u64, (i32, i32)>, p: (int, int)) -> bool {
    in_i32(p) && cm.contains_key(cell_key(p))
}

spec fn parent_of(cm: Map<u64, (i32, i32)>, p: (int, int)) -> (int, int) {
    pt(cm[cell_key(p)])
}

/// The recorded parent of `p` is a closed cell one move before it, and the label
/// of `p` is the one it gets from there.
spec fn parent_ok(
    s: (int, int),
    walls: Seq<Wall>,
    w: int,
    h: int,
    gm: Map<u64, (usize, usize)>,
    cm: Map<u64, (i32, i32)>,
    cs: Set<u64>,
    p: (int, int),
) -> bool {
    &&& has_parent(cm, p)
    &&& is_closed(cs, parent_of(cm, p))
    &&& is_step(parent_of(cm, p), p, walls, w, h)
    &&& g_of(gm, parent_of(cm, p)) + 1 == g_of(gm, p)
    &&& rk_of(gm, p) == if parent_of(cm, p) == s {
        dir_rank((p.0 - s.0, p.1 - s.1))
    } else {
        rk_of(gm, parent_of(cm, p))
    }
}

/// The facts about the label table, the parent table and the closed set that every
/// round of the search keeps.
#[verifier::opaque]
spec fn inv_core(
    s: (int, int),
    walls: Seq<Wall>,
    w: int,
    h: int,
    gm: Map<u64, (usize, usize)>,
    cm: Map<u64, (i32, i32)>,
    cs: Set<u64>,
) -> bool {
    &&& in_i32(s)
    &&& w <= i32::MAX
    &&& h <= i32::MAX
    &&& has_g(gm, s)
    &&& g_of(gm, s) == 0
    &&& rk_of(gm, s) == 0
    &&& cs.finite()
    &&& (!is_closed(cs, s) ==> cs == Set::<u64>::empty())
    &&& forall|p: (int, int)| #[trigger]
        has_g(gm, p) ==> (p == s || walkable(p, walls, w, h)) && 0 <= g_of(gm, p) <= cs.len() && 0 <= rk_of(gm, p) < 8
    &&& forall|p: (int, int)| #[trigger] is_closed(cs, p) ==> has_g(gm, p)
    &&& forall|p: (int, int)| #[trigger] has_g(gm, p) && p != s ==> parent_ok(s, walls, w, h, gm, cm, cs, p)
    &&& forall|c: (int, int), path: Seq<(int, int)>|
        #[trigger] is_closed(cs, c) && #[trigger] path_between(path, s, c, walls, w, h) ==> path_label(path) >= label(gm, c)
}

/// Every cell one move from the closed cell `c` is closed, or has a label no
/// greater than the one it gets from `c`.
spec fn frontier_ok(
    s: (int, int),
    walls: Seq<Wall>,
    w: int,
    h: int,
    gm: Map<u64, (usize, usize)>,
    cs: Set<u64>,
    c: (int, int),
) -> bool {
    forall|q: (int, int)| #[trigger]
        is_step(c, q, walls, w, h) && !is_closed(cs, q) ==> has_g(gm, q) && label(gm, q) <= succ_label(s, gm, c, q)
}

#[verifier::opaque]
spec fn inv_frontier(s: (int, int), walls: Seq<Wall>, w: int, h: int, gm: Map<u64, (usize, usize)>, cs: Set<u64>) -> bool {
    forall|c: (int, int)| #[trigger] is_closed(cs, c) ==> frontier_ok(s, walls, w, h, gm, cs, c)
}

#[verifier::opaque]
spec fn inv_frontier_but(
    s: (int, int),
    walls: Seq<Wall>,
    w: int,
    h: int,
    gm: Map<u64, (usize, usize)>,
    cs: Set<u64>,
    u: (int, int),
) -> bool {
    forall|c: (int, int)| #[trigger] is_closed(cs, c) && c != u ==> frontier_ok(s, walls, w, h, gm, cs, c)
}

/// The key the open list orders a reached cell by: its label with the estimate
/// of the remaining moves added to the move count.
spec fn open_key(gm: Map<u64, (usize, usize)>, q: (int, int), goal: (int, int)) -> int {
    label(gm, q) + 8 * heuristic_spec(q, goal)
}

/// The open list holds the entry `e`, which carries cell `q` with its current key.
spec fn entry_in(om: Multiset<Entry>, e: Entry, q: (int, int), gm: Map<u64, (usize, usize)>, goal: (int, int)) -> bool {
    &&& om.contains(e)
    &&& pt(e.1) == q
    &&& e.0 == open_key(gm, q, goal)
}

/// Every open cell has an entry with its current key, and no entry has a key
/// below that of its cell.
#[verifier::opaque]
spec fn inv_open(goal: (int, int), gm: Map<u64, (usize, usize)>, cs: Set<u64>, om: Multiset<Entry>) -> bool {
    &&& forall|q: (int, int)| #[trigger]
        has_g(gm, q) && !is_closed(cs, q) ==> exists|e: Entry| #[trigger] entry_in(om, e, q, gm, goal)
    &&& forall|e: Entry| #[trigger]
        om.contains(e) ==> has_g(gm, pt(e.1)) && e.0 >= open_key(gm, pt(e.1), goal)
}

/// The rank of a path's first move is one of the eight ranks.
proof fn lemma_first_rank_bounds(path: Seq<(int, int)>, walls: Seq<Wall>, w: int, h: int)
    requires
        is_path(path, walls, w, h),
    ensures
        0 <= first_rank(path) < 8,
{
    if path.len() >= 2 {
        let i = 0int;
        assert(is_step(path[i], path[i + 1], walls, w, h));
        lemma_dir_rank((path[1].0 - path[0].0, path[1].1 - path[0].1));
    }
}

proof fn lemma_first_open(path: Seq<(int, int)>, cs: Set<u64>) -> (i: int)
    requires
        path.len() >= 1,
        is_closed(cs, path[0]),
        !is_closed(cs, path.last()),
    ensures
        1 <= i < path.len(),
        is_closed(cs, path[i - 1]),
        !is_closed(cs, path[i]),
    decreases path.len(),
{
    let n = path.len() as int;
    if n == 1 {
        assert(false);
        0
    } else if is_closed(cs, path[n - 2]) {
        n - 1
    } else {
        let sub = path.drop_last();
        assert(sub.last() == path[n - 2]);
        let i = lemma_first_open(sub, cs);
        assert(sub[i] == path[i] && sub[i - 1] == path[i - 1]);
        i
    }
}

proof fn lemma_h_along(path: Seq<(int, int)>, i: int, walls: Seq<Wall>, w: int, h: int, goal: (int, int))
    requires
        is_path(path, walls, w, h),
        0 <= i < path.len(),
    ensures
        heuristic_spec(path[i], goal) <= (path.len() - 1 - i) + heuristic_spec(path.last(), goal),
    decreases path.len() - i,
{
    if i < path.len() - 1 {
        lemma_h_along(path, i + 1, walls, w, h, goal);
        assert(is_step(path[i], path[i + 1], walls, w, h));
        lemma_heuristic_consistent(path[i], path[i + 1], goal);
    }
}

proof fn lemma_prefix_path(path: Seq<(int, int)>, i: int, walls: Seq<Wall>, w: int, h: int)
    requires
        is_path(path, walls, w, h),
        1 <= i <= path.len(),
    ensures
        path_between(path.subrange(0, i), path[0], path[i - 1], walls, w, h),
        path.subrange(0, i).len() == i,
{
    let sub = path.subrange(0, i);
    assert forall|k: int| 0 <= k < sub.len() - 1 implies #[trigger] is_step(sub[k], sub[k + 1], walls, w, h) by {
        assert(sub[k] == path[k] && sub[k + 1] == path[k + 1]);
        assert(is_step(path[k], path[k + 1], walls, w, h));
    }
}

/// A cell taken from the open list with the smallest key has a label no greater
/// than that of the path `path` to it.
#[verifier::rlimit(40)]
proof fn lemma_close_below_path(
    s: (int, int),
    goal: (int, int),
    walls: Seq<Wall>,
    w: int,
    h: int,
    gm: Map<u64, (usize, usize)>,
    cm: Map<u64, (i32, i32)>,
    cs: Set<u64>,
    om: Multiset<Entry>,
    e: Entry,
    path: Seq<(int, int)>,
)
    requires
        inv_core(s, walls, w, h, gm, cm, cs),
        inv_frontier(s, walls, w, h, gm, cs),
        inv_open(goal, gm, cs, om),
        om.contains(e),
        forall|x: Entry| #[trigger] om.contains(x) ==> e.0 <= x.0,
        !is_closed(cs, pt(e.1)),
        path_between(path, s, pt(e.1), walls, w, h),
    ensures
        has_g(gm, pt(e.1)),
        path_label(path) >= label(gm, pt(e.1)),
{
    reveal(inv_core);
    reveal(inv_open);
    let u = pt(e.1);
    assert(has_g(gm, u) && e.0 >= open_key(gm, u, goal));
    lemma_first_rank_bounds(path, walls, w, h);
    if u != s && path_label(path) < label(gm, u) {
        assert(parent_ok(s, walls, w, h, gm, cm, cs, u));
        assert(cs.contains(cell_key(parent_of(cm, u))));
        assert(is_closed(cs, s));
        let i = lemma_first_open(path, cs);
        let c = path[i - 1];
        let q = path[i];
        lemma_prefix_path(path, i, walls, w, h);
        let pre = path.subrange(0, i);
        assert(path_between(pre, s, c, walls, w, h));
        assert(path_label(pre) >= label(gm, c));
        let k = i - 1;
        assert(is_step(path[k], path[k + 1], walls, w, h));
        assert(frontier_ok(s, walls, w, h, gm, cs, c)) by {
            reveal(inv_frontier);
        }
        assert(has_g(gm, q) && label(gm, q) <= succ_label(s, gm, c, q));
        lemma_dir_rank((q.0 - c.0, q.1 - c.1));
        if c != s {
            assert(i >= 2);
            assert(pre[0] == path[0] && pre[1] == path[1]);
            assert(first_rank(pre) == first_rank(path));
        }
        assert(succ_label(s, gm, c, q) <= 8 * i + first_rank(path));
        let x = choose|x: Entry| #[trigger] entry_in(om, x, q, gm, goal);
        lemma_h_along(path, i, walls, w, h, goal);
        assert(e.0 <= x.0);
    }
}

/// A cell taken from the open list with the smallest key has the least label of
/// any path to it.
proof fn lemma_close_optimal(
    s: (int, int),
    goal: (int, int),
    walls: Seq<Wall>,
    w: int,
    h: int,
    gm: Map<u64, (usize, usize)>,
    cm: Map<u64, (i32, i32)>,
    cs: Set<u64>,
    om: Multiset<Entry>,
    e: Entry,
)
    requires
        inv_core(s, walls, w, h, gm, cm, cs),
        inv_frontier(s, walls, w, h, gm, cs),
        inv_open(goal, gm, cs, om),
        om.contains(e),
        forall|x: Entry| #[trigger] om.contains(x) ==> e.0 <= x.0,
        !is_closed(cs, pt(e.1)),
    ensures
        has_g(gm, pt(e.1)),
        forall|path: Seq<(int, int)>|
            #[trigger] path_between(path, s, pt(e.1), walls, w, h) ==> path_label(path) >= label(gm, pt(e.1)),
{
    reveal(inv_open);
    let u = pt(e.1);
    assert forall|path: Seq<(int, int)>| #[trigger]
        path_between(path, s, u, walls, w, h) implies path_label(path) >= label(gm, u) by {
        lemma_close_below_path(s, goal, walls, w, h, gm, cm, cs, om, e, path);
    }
}

proof fn lemma_closed_insert(cs: Set<u64>, u: (int, int), p: (int, int))
    requires
        in_i32(u),
    ensures
        is_closed(cs.insert(cell_key(u)), p) <==> (is_closed(cs, p) || p == u),
{
    if in_i32(p) && cell_key(p) == cell_key(u) {
        lemma_key_injective(p, u);
    }
}

/// Taking a cell off the open list and closing it keeps the invariants, except the
/// frontier property of that cell, which its expansion restores.
proof fn lemma_after_close(
    s: (int, int),
    goal: (int, int),
    walls: Seq<Wall>,
    w: int,
    h: int,
    gm: Map<u64, (usize, usize)>,
    cm: Map<u64, (i32, i32)>,
    cs: Set<u64>,
    om: Multiset<Entry>,
    e: Entry,
)
    requires
        inv_core(s, walls, w, h, gm, cm, cs),
        inv_frontier(s, walls, w, h, gm, cs),
        inv_open(goal, gm, cs, om),
        om.contains(e),
        forall|x: Entry| #[trigger] om.contains(x) ==> e.0 <= x.0,
        !is_closed(cs, pt(e.1)),
    ensures
        ({
            let u = pt(e.1);
            let cs2 = cs.insert(cell_key(u));
            &&& inv_core(s, walls, w, h, gm, cm, cs2)
            &&& inv_frontier_but(s, walls, w, h, gm, cs2, u)
            &&& inv_open(goal, gm, cs2, om.remove(e))
            &&& cs2.len() == cs.len() + 1
            &&& has_g(gm, u)
            &&& g_of(gm, u) < cs2.len()
            &&& is_closed(cs2, u)
        }),
{
    reveal(inv_core);
    reveal(inv_frontier);
    reveal(inv_frontier_but);
    reveal(inv_open);
    let u = pt(e.1);
    let cs2 = cs.insert(cell_key(u));
    let om2 = om.remove(e);
    lemma_close_optimal(s, goal, walls, w, h, gm, cm, cs, om, e);
    assert(!cs.contains(cell_key(u)));
    assert(cs2.len() == cs.len() + 1);
    lemma_closed_insert(cs, u, u);
    assert forall|p: (int, int)| #[trigger] is_closed(cs2, p) implies has_g(gm, p) by {
        lemma_closed_insert(cs, u, p);
    }
    assert forall|p: (int, int)| #[trigger] has_g(gm, p) && p != s implies parent_ok(s, walls, w, h, gm, cm, cs2, p) by {
        assert(parent_ok(s, walls, w, h, gm, cm, cs, p));
        lemma_closed_insert(cs, u, parent_of(cm, p));
    }
    assert(!is_closed(cs2, s) ==> cs2 == Set::<u64>::empty()) by {
        lemma_closed_insert(cs, u, s);
        if u != s {
            assert(parent_ok(s, walls, w, h, gm, cm, cs, u));
            assert(cs.contains(cell_key(parent_of(cm, u))));
            assert(is_closed(cs, s));
        }
    }
    assert forall|c: (int, int), path: Seq<(int, int)>|
        #[trigger] is_closed(cs2, c) && #[trigger] path_between(path, s, c, walls, w, h) implies path_label(path)
        >= label(gm, c) by {
        lemma_closed_insert(cs, u, c);
    }
    assert forall|c: (int, int)| #[trigger] is_closed(cs2, c) && c != u implies frontier_ok(s, walls, w, h, gm, cs2, c) by {
        lemma_closed_insert(cs, u, c);
        assert(frontier_ok(s, walls, w, h, gm, cs, c));
        assert forall|q: (int, int)| #[trigger]
            is_step(c, q, walls, w, h) && !is_closed(cs2, q) implies has_g(gm, q) && label(gm, q) <= succ_label(s, gm, c, q) by {
            lemma_closed_insert(cs, u, q);
        }
    }
    assert forall|q: (int, int)| #[trigger] has_g(gm, q) && !is_closed(cs2, q) implies exists|x: Entry| #[trigger]
        entry_in(om2, x, q, gm, goal) by {
        lemma_closed_insert(cs, u, q);
        let x = choose|x: Entry| #[trigger] entry_in(om, x, q, gm, goal);
        assert(x != e);
        assert(entry_in(om2, x, q, gm, goal));
    }
    assert forall|x: Entry| #[trigger] om2.contains(x) implies has_g(gm, pt(x.1)) && x.0 >= open_key(gm, pt(x.1), goal) by {
        assert(om.contains(x));
    }
}

/// Taking an already closed cell off the open list keeps the invariants.
proof fn lemma_after_stale(
    goal: (int, int),
    gm: Map<u64, (usize, usize)>,
    cs: Set<u64>,
    om: Multiset<Entry>,
    e: Entry,
)
    requires
        inv_open(goal, gm, cs, om),
        is_closed(cs, pt(e.1)),
    ensures
        inv_open(goal, gm, cs, om.remove(e)),
{
    reveal(inv_core);
    reveal(inv_frontier);
    reveal(inv_frontier_but);
    reveal(inv_open);
    let om2 = om.remove(e);
    assert forall|q: (int, int)| #[trigger] has_g(gm, q) && !is_closed(cs, q) implies exists|x: Entry| #[trigger]
        entry_in(om2, x, q, gm, goal) by {
        let x = choose|x: Entry| #[trigger] entry_in(om, x, q, gm, goal);
        assert(x != e);
        assert(entry_in(om2, x, q, gm, goal));
    }
    assert forall|x: Entry| #[trigger] om2.contains(x) implies has_g(gm, pt(x.1)) && x.0 >= open_key(gm, pt(x.1), goal) by {
        assert(om.contains(x));
    }
}

proof fn lemma_g_insert(gm: Map<u64, (usize, usize)>, n: (int, int), t: (usize, usize), p: (int, int))
    requires
        in_i32(n),
    ensures
        has_g(gm.insert(cell_key(n), t), p) <==> (has_g(gm, p) || p == n),
        in_i32(p) ==> gm.insert(cell_key(n), t)[cell_key(p)] == if p == n {
            t
        } else {
            gm[cell_key(p)]
        },
{
    if in_i32(p) && cell_key(p) == cell_key(n) {
        lemma_key_injective(p, n);
    }
}

proof fn lemma_parent_insert(cm: Map<u64, (i32, i32)>, n: (int, int), u: (i32, i32), p: (int, int))
    requires
        in_i32(n),
    ensures
        has_parent(cm.insert(cell_key(n), u), p) <==> (has_parent(cm, p) || p == n),
        in_i32(p) ==> parent_of(cm.insert(cell_key(n), u), p) == if p == n {
            pt(u)
        } else {
            parent_of(cm, p)
        },
{
    if in_i32(p) && cell_key(p) == cell_key(n) {
        lemma_key_injective(p, n);
    }
}

/// Recording a better way into `n` through the closed cell `u` keeps the invariants.
proof fn lemma_relax(
    s: (int, int),
    goal: (int, int),
    walls: Seq<Wall>,
    w: int,
    h: int,
    gm: Map<u64, (usize, usize)>,
    cm: Map<u64, (i32, i32)>,
    cs: Set<u64>,
    om: Multiset<Entry>,
    u: (i32, i32),
    n: (i32, i32),
    t: (usize, usize),
    f: u128,
)
    requires
        inv_core(s, walls, w, h, gm, cm, cs),
        inv_frontier_but(s, walls, w, h, gm, cs, pt(u)),
        inv_open(goal, gm, cs, om),
        is_closed(cs, pt(u)),
        t.0 == g_of(gm, pt(u)) + 1,
        t.1 == if pt(u) == s {
            dir_rank((n.0 - u.0, n.1 - u.1))
        } else {
            rk_of(gm, pt(u))
        },
        t.0 <= cs.len(),
        is_step(pt(u), pt(n), walls, w, h),
        !is_closed(cs, pt(n)),
        !has_g(gm, pt(n)) || 8 * t.0 + t.1 < label(gm, pt(n)),
        f == 8 * t.0 + t.1 + 8 * heuristic_spec(pt(n), goal),
    ensures
        ({
            let gm2 = gm.insert(cell_key(pt(n)), t);
            let cm2 = cm.insert(cell_key(pt(n)), u);
            &&& inv_core(s, walls, w, h, gm2, cm2, cs)
            &&& inv_frontier_but(s, walls, w, h, gm2, cs, pt(u))
            &&& inv_open(goal, gm2, cs, om.insert((f, n)))
            &&& has_g(gm2, pt(n))
            &&& label(gm2, pt(n)) == succ_label(s, gm, pt(u), pt(n))
            &&& forall|q: (int, int)| #[trigger] has_g(gm, q) ==> has_g(gm2, q) && label(gm2, q) <= label(gm, q)
            &&& gm2[cell_key(pt(u))] == gm[cell_key(pt(u))]
        }),
{
    reveal(inv_core);
    reveal(inv_frontier);
    reveal(inv_frontier_but);
    reveal(inv_open);
    let gm2 = gm.insert(cell_key(pt(n)), t);
    let cm2 = cm.insert(cell_key(pt(n)), u);
    let om2 = om.insert((f, n));
    let nn = pt(n);
    let uu = pt(u);
    assert(in_i32(nn));
    lemma_g_insert(gm, nn, t, uu);
    lemma_g_insert(gm, nn, t, s);
    lemma_g_insert(gm, nn, t, nn);
    lemma_dir_rank((nn.0 - uu.0, nn.1 - uu.1));
    assert(is_closed(cs, s));
    assert forall|p: (int, int)| #[trigger] has_g(gm2, p) implies (p == s || walkable(p, walls, w, h)) && 0 <= g_of(gm2, p)
        <= cs.len() && 0 <= rk_of(gm2, p) < 8 by {
        lemma_g_insert(gm, nn, t, p);
    }
    assert forall|p: (int, int)| #[trigger] is_closed(cs, p) implies has_g(gm2, p) by {
        lemma_g_insert(gm, nn, t, p);
    }
    assert forall|p: (int, int)| #[trigger] has_g(gm2, p) && p != s implies parent_ok(s, walls, w, h, gm2, cm2, cs, p) by {
        lemma_g_insert(gm, nn, t, p);
        lemma_parent_insert(cm, nn, u, p);
        if p != nn {
            assert(parent_ok(s, walls, w, h, gm, cm, cs, p));
            lemma_g_insert(gm, nn, t, parent_of(cm, p));
        }
    }
    assert forall|c: (int, int), path: Seq<(int, int)>|
        #[trigger] is_closed(cs, c) && #[trigger] path_between(path, s, c, walls, w, h) implies path_label(path)
        >= label(gm2, c) by {
        lemma_g_insert(gm, nn, t, c);
    }
    assert forall|c: (int, int)| #[trigger] is_closed(cs, c) && c != uu implies frontier_ok(s, walls, w, h, gm2, cs, c) by {
        assert(frontier_ok(s, walls, w, h, gm, cs, c));
        lemma_g_insert(gm, nn, t, c);
        assert forall|q: (int, int)| #[trigger]
            is_step(c, q, walls, w, h) && !is_closed(cs, q) implies has_g(gm2, q) && label(gm2, q) <= succ_label(
            s,
            gm2,
            c,
            q,
        ) by {
            lemma_g_insert(gm, nn, t, q);
        }
    }
    assert forall|q: (int, int)| #[trigger] has_g(gm2, q) && !is_closed(cs, q) implies exists|x: Entry| #[trigger]
        entry_in(om2, x, q, gm2, goal) by {
        lemma_g_insert(gm, nn, t, q);
        if q == nn {
            assert(entry_in(om2, (f, n), q, gm2, goal));
        } else {
            let x = choose|x: Entry| #[trigger] entry_in(om, x, q, gm, goal);
            assert(entry_in(om2, x, q, gm2, goal));
        }
    }
    assert forall|x: Entry| #[trigger] om2.contains(x) implies has_g(gm2, pt(x.1)) && x.0 >= open_key(gm2, pt(x.1), goal) by {
        if x != (f, n) {
            assert(om.contains(x));
            lemma_g_insert(gm, nn, t, pt(x.1));
        }
    }
    assert forall|q: (int, int)| #[trigger] has_g(gm, q) implies has_g(gm2, q) && label(gm2, q) <= label(gm, q) by {
        lemma_g_insert(gm, nn, t, q);
    }
}

proof fn lemma_init(s: (i32, i32), goal: (int, int), walls: Seq<Wall>, w: int, h: int, f: u128)
    requires
        f == 8 * heuristic_spec(pt(s), goal),
        w <= i32::MAX,
        h <= i32::MAX,
    ensures
        ({
            let gm = Map::<u64, (usize, usize)>::empty().insert(cell_key(pt(s)), (0usize, 0usize));
            let cm = Map::<u64, (i32, i32)>::empty();
            let cs = Set::<u64>::empty();
            &&& inv_core(pt(s), walls, w, h, gm, cm, cs)
            &&& inv_frontier(pt(s), walls, w, h, gm, cs)
            &&& inv_open(goal, gm, cs, Multiset::<Entry>::empty().insert((f, s)))
        }),
{
    reveal(inv_core);
    reveal(inv_frontier);
    reveal(inv_frontier_but);
    reveal(inv_open);
    let gm = Map::<u64, (usize, usize)>::empty().insert(cell_key(pt(s)), (0usize, 0usize));
    let cs = Set::<u64>::empty();
    let om = Multiset::<Entry>::empty().insert((f, s));
    assert forall|p: (int, int)| #[trigger] has_g(gm, p) implies p == pt(s) by {
        lemma_key_injective(p, pt(s));
    }
    assert forall|q: (int, int)| #[trigger] has_g(gm, q) && !is_closed(cs, q) implies exists|x: Entry| #[trigger]
        entry_in(om, x, q, gm, goal) by {
        assert(entry_in(om, (f, s), q, gm, goal));
    }
}

/// When the open list runs dry before the goal is closed, the goal cannot be reached.
proof fn lemma_exhausted(
    s: (int, int),
    goal: (int, int),
    walls: Seq<Wall>,
    w: int,
    h: int,
    gm: Map<u64, (usize, usize)>,
    cm: Map<u64, (i32, i32)>,
    cs: Set<u64>,
    om: Multiset<Entry>,
)
    requires
        inv_core(s, walls, w, h, gm, cm, cs),
        inv_frontier(s, walls, w, h, gm, cs),
        inv_open(goal, gm, cs, om),
        om.len() == 0,
        !is_closed(cs, goal),
    ensures
        !exists|path: Seq<(int, int)>| #[trigger] path_between(path, s, goal, walls, w, h),
{
    reveal(inv_core);
    reveal(inv_frontier);
    reveal(inv_frontier_but);
    reveal(inv_open);
    assert forall|q: (int, int)| #[trigger] has_g(gm, q) implies is_closed(cs, q) by {
        if !is_closed(cs, q) {
            let x = choose|x: Entry| #[trigger] entry_in(om, x, q, gm, goal);
        }
    }
    assert forall|path: Seq<(int, int)>| !#[trigger] path_between(path, s, goal, walls, w, h) by {
        if path_between(path, s, goal, walls, w, h) {
            lemma_path_closed(s, goal, walls, w, h, gm, cm, cs, path, path.len() - 1);
        }
    }
}

proof fn lemma_path_closed(
    s: (int, int),
    goal: (int, int),
    walls: Seq<Wall>,
    w: int,
    h: int,
    gm: Map<u64, (usize, usize)>,
    cm: Map<u64, (i32, i32)>,
    cs: Set<u64>,
    path: Seq<(int, int)>,
    k: int,
)
    requires
        inv_core(s, walls, w, h, gm, cm, cs),
        inv_frontier(s, walls, w, h, gm, cs),
        forall|q: (int, int)| #[trigger] has_g(gm, q) ==> is_closed(cs, q),
        is_path(path, walls, w, h),
        path[0] == s,
        0 <= k < path.len(),
    ensures
        is_closed(cs, path[k]),
    decreases k,
{
    reveal(inv_core);
    reveal(inv_frontier);
    reveal(inv_frontier_but);
    reveal(inv_open);
    if k > 0 {
        lemma_path_closed(s, goal, walls, w, h, gm, cm, cs, path, k - 1);
        let c = path[k - 1];
        let i = k - 1;
        assert(is_step(path[i], path[i + 1], walls, w, h));
        assert(frontier_ok(s, walls, w, h, gm, cs, c));
        if !is_closed(cs, path[k]) {
            assert(has_g(gm, path[k]));
        }
    } else {
        assert(has_g(gm, s));
    }
}

proof fn lemma_core_facts(
    s: (int, int),
    walls: Seq<Wall>,
    w: int,
    h: int,
    gm: Map<u64, (usize, usize)>,
    cm: Map<u64, (i32, i32)>,
    cs: Set<u64>,
    p: (int, int),
)
    requires
        inv_core(s, walls, w, h, gm, cm, cs),
    ensures
        has_g(gm, s),
        g_of(gm, s) == 0,
        rk_of(gm, s) == 0,
        has_g(gm, p) ==> 0 <= g_of(gm, p) <= cs.len() && 0 <= rk_of(gm, p) < 8 && (p == s || walkable(p, walls, w, h)),
        has_g(gm, p) && p != s ==> parent_ok(s, walls, w, h, gm, cm, cs, p),
        is_closed(cs, p) ==> has_g(gm, p),
        is_closed(cs, p) ==> forall|path: Seq<(int, int)>|
            #[trigger] path_between(path, s, p, walls, w, h) ==> path_label(path) >= label(gm, p),
{
    reveal(inv_core);
}

proof fn lemma_frontier_complete(
    s: (int, int),
    walls: Seq<Wall>,
    w: int,
    h: int,
    gm: Map<u64, (usize, usize)>,
    cs: Set<u64>,
    u: (int, int),
)
    requires
        inv_frontier_but(s, walls, w, h, gm, cs, u),
        frontier_ok(s, walls, w, h, gm, cs, u),
    ensures
        inv_frontier(s, walls, w, h, gm, cs),
{
    reveal(inv_frontier);
    reveal(inv_frontier_but);
}

/// The eight moves in the order the search tries them.
pub open spec fn step_dirs() -> Seq<(int, int)> {
    seq![(3, 3), (-3, -3), (3, -3), (-3, 3), (3, 0), (0, 3), (0, -3), (-3, 0)]
}

/// The position of a move in `step_dirs()`; 8 for any other offset.
pub open spec fn dir_rank(d: (int, int)) -> int {
    if d == (3int, 3int) {
        0
    } else if d == (-3int, -3int) {
        1
    } else if d == (3int, -3int) {
        2
    } else if d == (-3int, 3int) {
        3
    } else if d == (3int, 0int) {
        4
    } else if d == (0int, 3int) {
        5
    } else if d == (0int, -3int) {
        6
    } else if d == (-3int, 0int) {
        7
    } else {
        8
    }
}

proof fn lemma_dir_rank(d: (int, int))
    ensures
        step_dir(d) ==> 0 <= dir_rank(d) < 8 && step_dirs()[dir_rank(d)] == d,
        forall|j: int| 0 <= j < 8 ==> dir_rank(#[trigger] step_dirs()[j]) == j && step_dir(step_dirs()[j]),
{
    assert(step_dirs()[0] == (3int, 3int));
    assert(step_dirs()[1] == (-3int, -3int));
    assert(step_dirs()[2] == (3int, -3int));
    assert(step_dirs()[3] == (-3int, 3int));
    assert(step_dirs()[4] == (3int, 0int));
    assert(step_dirs()[5] == (0int, 3int));
    assert(step_dirs()[6] == (0int, -3int));
    assert(step_dirs()[7] == (-3int, 0int));
}

fn step_delta(j: usize) -> (d: (i64, i64))
    requires
        j < 8,
    ensures
        (d.0 as int, d.1 as int) == step_dirs()[j as int],
{
    match j {
        0 => (3, 3),
        1 => (-3, -3),
        2 => (3, -3),
        3 => (-3, 3),
        4 => (3, 0),
        5 => (0, 3),
        6 => (0, -3),
        _ => (-3, 0),
    }
}

/// Tries every move from the closed cell `current`, recording each better label found.
fn expand(
    current: (i32, i32),
    current_label: (usize, usize),
    start: (i32, i32),
    goal: (i32, i32),
    walls: &[Wall],
    wall_set: &HashSet<u64>,
    width: i32,
    height: i32,
    closed: &HashSet<u64>,
    g_score: &mut HashMap<u64, (usize, usize)>,
    came_from: &mut HashMap<u64, (i32, i32)>,
    open: &mut OpenList,
)
    requires
        inv_core(pt(start), walls@, width as int, height as int, old(g_score)@, old(came_from)@, closed@),
        inv_frontier_but(pt(start), walls@, width as int, height as int, old(g_score)@, closed@, pt(current)),
        inv_open(pt(goal), old(g_score)@, closed@, old(open)@),
        old(open).wf(),
        is_closed(closed@, pt(current)),
        current_label == old(g_score)@[cell_key(pt(current))],
        current_label.0 < closed@.len(),
        closed@.len() <= usize::MAX,
        forall|p: (int, int)| in_i32(p) ==> (wall_set@.contains(#[trigger] cell_key(p)) <==> wall_at(p, walls@)),
    ensures
        inv_core(pt(start), walls@, width as int, height as int, final(g_score)@, final(came_from)@, closed@),
        inv_frontier(pt(start), walls@, width as int, height as int, final(g_score)@, closed@),
        inv_open(pt(goal), final(g_score)@, closed@, final(open)@),
        final(open).wf(),
{
    let ghost s = pt(start);
    let ghost u = pt(current);
    let ghost w = width as int;
    let ghost h = height as int;
    let ghost gl = pt(goal);
    proof {
        lemma_dir_rank((0, 0));
        lemma_core_facts(s, walls@, w, h, g_score@, came_from@, closed@, u);
    }
    let from_start = current.0 == start.0 && current.1 == start.1;
    let mut j: usize = 0;
    while j < 8
        invariant
            0 <= j <= 8,
            s == pt(start),
            u == pt(current),
            w == width as int,
            h == height as int,
            gl == pt(goal),
            from_start == (u == s),
            inv_core(s, walls@, w, h, g_score@, came_from@, closed@),
            inv_frontier_but(s, walls@, w, h, g_score@, closed@, u),
            inv_open(gl, g_score@, closed@, open@),
            open.wf(),
            is_closed(closed@, u),
            current_label == g_score@[cell_key(u)],
            0 <= current_label.1 < 8,
            current_label.0 < closed@.len(),
            closed@.len() <= usize::MAX,
            forall|p: (int, int)| in_i32(p) ==> (wall_set@.contains(#[trigger] cell_key(p)) <==> wall_at(p, walls@)),
            forall|j: int| 0 <= j < 8 ==> dir_rank(#[trigger] step_dirs()[j]) == j && step_dir(step_dirs()[j]),
            forall|q: (int, int)| #[trigger]
                is_step(u, q, walls@, w, h) && !is_closed(closed@, q) && dir_rank((q.0 - u.0, q.1 - u.1)) < j
                    ==> has_g(g_score@, q) && label(g_score@, q) <= succ_label(s, g_score@, u, q),
        decreases 8 - j,
    {
        let d = step_delta(j);
        let nx = current.0 as i64 + d.0;
        let ny = current.1 as i64 + d.1;
        let ghost nq = (nx as int, ny as int);
        assert(step_dirs()[j as int] == (nq.0 - u.0, nq.1 - u.1));
        assert(forall|q: (int, int)| dir_rank((q.0 - u.0, q.1 - u.1)) == j ==> q == nq);
        if nx < 0 || nx > width as i64 || ny < 0 || ny > height as i64 {
            assert(!walkable(nq, walls@, w, h));
        } else {
            let neighbor = (nx as i32, ny as i32);
            let nk = key_of(neighbor);
            assert(pt(neighbor) == nq);
            if closed.contains(&nk) {
                assert(is_closed(closed@, nq));
            } else if wall_set.contains(&nk) {
                assert(wall_at(nq, walls@));
            } else {
                assert(is_step(u, nq, walls@, w, h));
                assert(!is_closed(closed@, nq));
                let tentative = current_label.0 + 1;
                let rank = if from_start {
                    j
                } else {
                    current_label.1
                };
                proof {
                    lemma_core_facts(s, walls@, w, h, g_score@, came_from@, closed@, nq);
                }
                let better = match g_score.get(&nk) {
                    Some(v) => tentative < v.0 || (tentative == v.0 && rank < v.1),
                    None => true,
                };
                if better {
                    let ghost gm0 = g_score@;
                    let ghost cm0 = came_from@;
                    let ghost op0 = open@;
                    came_from.insert(nk, current);
                    g_score.insert(nk, (tentative, rank));
                    let hn = heuristic(neighbor, goal);
                    let f = 8 * tentative as u128 + rank as u128 + 8 * hn as u128;
                    open.push((f, neighbor));
                    proof {
                        lemma_relax(s, gl, walls@, w, h, gm0, cm0, closed@, op0, current, neighbor, (tentative, rank), f);
                    }
                }
            }
        }
        j += 1;
    }
    proof {
        assert forall|q: (int, int)| #[trigger]
            is_step(u, q, walls@, w, h) && !is_closed(closed@, q) implies has_g(g_score@, q) && label(g_score@, q)
            <= succ_label(s, g_score@, u, q) by {
            lemma_dir_rank((q.0 - u.0, q.1 - u.1));
        }
        assert(frontier_ok(s, walls@, w, h, g_score@, closed@, u));
        lemma_frontier_complete(s, walls@, w, h, g_score@, closed@, u);
    }
}

/// Two moves that both pass `is_first_step` are the same move.
proof fn lemma_first_step_unique(
    start: (int, int),
    goal: (int, int),
    walls: Seq<Wall>,
    width: int,
    height: int,
    d1: (int, int),
    d2: (int, int),
)
    requires
        is_first_step(start, goal, walls, width, height, d1),
        is_first_step(start, goal, walls, width, height, d2),
    ensures
        d1 == d2,
{
    let p1 = choose|path: Seq<(int, int)>|
        #[trigger] shortest_path(path, start, goal, walls, width, height) && path.len() >= 2
            && path[1] == (start.0 + d1.0, start.1 + d1.1);
    let p2 = choose|path: Seq<(int, int)>|
        #[trigger] shortest_path(path, start, goal, walls, width, height) && path.len() >= 2
            && path[1] == (start.0 + d2.0, start.1 + d2.1);
    let i = 0int;
    assert(is_step(p1[i], p1[i + 1], walls, width, height));
    assert(is_step(p2[i], p2[i + 1], walls, width, height));
    assert((p1[1].0 - p1[0].0, p1[1].1 - p1[0].1) == d1);
    assert((p2[1].0 - p2[0].0, p2[1].1 - p2[0].1) == d2);
    lemma_dir_rank(d1);
    lemma_dir_rank(d2);
}

/// `d` is the next step when it passes `is_first_step`.
proof fn lemma_next_step_is(
    start: (int, int),
    goal: (int, int),
    walls: Seq<Wall>,
    width: int,
    height: int,
    d: (int, int),
)
    requires
        is_first_step(start, goal, walls, width, height, d),
    ensures
        next_step(start, goal, walls, width, height) == Some(d),
{
    let e = choose|e: (int, int)| #[trigger] is_first_step(start, goal, walls, width, height, e);
    lemma_first_step_unique(start, goal, walls, width, height, d, e);
}

/// With no path from `start` to `goal`, or with `start` the goal, there is no next step.
proof fn lemma_no_next_step(start: (int, int), goal: (int, int), walls: Seq<Wall>, width: int, height: int)
    requires
        start == goal || !exists|path: Seq<(int, int)>| #[trigger] path_between(path, start, goal, walls, width, height),
    ensures
        next_step(start, goal, walls, width, height) is None,
{
    assert forall|d: (int, int)| !#[trigger] is_first_step(start, goal, walls, width, height, d) by {
        if is_first_step(start, goal, walls, width, height, d) {
            let p = choose|path: Seq<(int, int)>|
                #[trigger] shortest_path(path, start, goal, walls, width, height) && path.len() >= 2
                    && path[1] == (start.0 + d.0, start.1 + d.1);
            assert(path_between(p, start, goal, walls, width, height));
        }
    }
}

/// From any path between two different cells, some move passes `is_first_step`.
proof fn lemma_first_step_exists(
    start: (int, int),
    goal: (int, int),
    walls: Seq<Wall>,
    width: int,
    height: int,
    p: Seq<(int, int)>,
)
    requires
        start != goal,
        path_between(p, start, goal, walls, width, height),
    ensures
        exists|d: (int, int)| #[trigger] is_first_step(start, goal, walls, width, height, d),
    decreases p.len(), first_rank(p),
{
    lemma_first_rank_bounds(p, walls, width, height);
    if !shortest_path(p, start, goal, walls, width, height) {
        let q = choose|q: Seq<(int, int)>|
            #[trigger] path_between(q, start, goal, walls, width, height) && q.len() < p.len();
        lemma_first_step_exists(start, goal, walls, width, height, q);
    } else if exists|q: Seq<(int, int)>|
        #[trigger] shortest_path(q, start, goal, walls, width, height) && q.len() >= 2 && first_rank(q) < first_rank(p) {
        let q = choose|q: Seq<(int, int)>|
            #[trigger] shortest_path(q, start, goal, walls, width, height) && q.len() >= 2 && first_rank(q) < first_rank(
                p,
            );
        assert(q.len() == p.len());
        lemma_first_rank_bounds(q, walls, width, height);
        lemma_first_step_exists(start, goal, walls, width, height, q);
    } else {
        assert(p.len() >= 2);
        let d = (p[1].0 - start.0, p[1].1 - start.1);
        assert(p[1] == (start.0 + d.0, start.1 + d.1));
        assert(dir_rank(d) == first_rank(p));
        assert(is_first_step(start, goal, walls, width, height, d));
    }
}

/// There is no next step exactly when `start` is the goal or no path leads from
/// `start` to `goal`.
pub proof fn lemma_next_step_none(start: (int, int), goal: (int, int), walls: Seq<Wall>, width: int, height: int)
    ensures
        next_step(start, goal, walls, width, height) is None <==> (start == goal || !exists|path: Seq<(int, int)>|
            #[trigger] path_between(path, start, goal, walls, width, height)),
{
    if start == goal || !exists|path: Seq<(int, int)>| #[trigger] path_between(path, start, goal, walls, width, height) {
        lemma_no_next_step(start, goal, walls, width, height);
    } else {
        let p = choose|path: Seq<(int, int)>| #[trigger] path_between(path, start, goal, walls, width, height);
        lemma_first_step_exists(start, goal, walls, width, height, p);
    }
}

/// The first move of a shortest path of three-cell moves from `start` to `goal`
/// that stays on walkable cells, as an offset from `start`; of several such moves,
/// the one that comes first in `step_dirs()`. `None` when `start` is the goal or
/// the goal cannot be reached.
pub fn find_next_step(
    start: (i32, i32),
    goal: (i32, i32),
    walls: &[Wall],
    width: i32,
    height: i32,
) -> (r: Option<(i32, i32)>)
    ensures
        opt_pt(r) == next_step(pt(start), pt(goal), walls@, width as int, height as int),
{
    if start.0 == goal.0 && start.1 == goal.1 {
        proof {
            lemma_no_next_step(pt(start), pt(goal), walls@, width as int, height as int);
        }
        return None;
    }
    let ghost s = pt(start);
    let ghost gl = pt(goal);
    let ghost w = width as int;
    let ghost h = height as int;
    let wall_set = wall_keys(walls);
    let mut open = OpenList::new();
    let mut g_score: HashMap<u64, (usize, usize)> = HashMap::new();
    let mut came_from: HashMap<u64, (i32, i32)> = HashMap::new();
    let mut closed: HashSet<u64> = HashSet::new();
    g_score.insert(key_of(start), (0, 0));
    let h0 = heuristic(start, goal);
    let k0: u128 = 8 * h0 as u128;
    open.push((k0, start));
    proof {
        lemma_init(start, gl, walls@, w, h, k0);
        assert(g_score@ =~= Map::<u64, (usize, usize)>::empty().insert(cell_key(s), (0usize, 0usize)));
        assert(came_from@ =~= Map::<u64, (i32, i32)>::empty());
        assert(closed@ =~= Set::<u64>::empty());
    }
    loop
        invariant
            s == pt(start),
            gl == pt(goal),
            w == width as int,
            h == height as int,
            s != gl,
            inv_core(s, walls@, w, h, g_score@, came_from@, closed@),
            inv_frontier(s, walls@, w, h, g_score@, closed@),
            inv_open(gl, g_score@, closed@, open@),
            open.wf(),
            !is_closed(closed@, gl),
            closed@.len() <= usize::MAX,
            forall|p: (int, int)| in_i32(p) ==> (wall_set@.contains(#[trigger] cell_key(p)) <==> wall_at(p, walls@)),
        decreases usize::MAX - closed@.len(), open@.len(),
    {
        if open.len() == 0 {
            proof {
                lemma_exhausted(s, gl, walls@, w, h, g_score@, came_from@, closed@, open@);
                lemma_no_next_step(s, gl, walls@, w, h);
            }
            return None;
        }
        let ghost op0 = open@;
        let ghost cs0 = closed@;
        let entry = open.pop_min();
        let current = entry.1;
        let ck = key_of(current);
        let fresh = closed.insert(ck);
        if !fresh {
            proof {
                assert(closed@ =~= cs0);
                lemma_after_stale(gl, g_score@, closed@, op0, entry);
            }
            continue;
        }
        let explored = closed.len();
        assert(explored == closed@.len());
        proof {
            lemma_after_close(s, gl, walls@, w, h, g_score@, came_from@, cs0, op0, entry);
            lemma_closed_insert(cs0, pt(current), gl);
        }
        if current.0 == goal.0 && current.1 == goal.1 {
            let ghost gm = g_score@;
            let ghost cm = came_from@;
            let ghost cs = closed@;
            let mut step = current;
            let ghost mut tail: Seq<(int, int)> = seq![gl];
            loop
                invariant
                    s == pt(start),
                    gl == pt(goal),
                    w == width as int,
                    h == height as int,
                    s != gl,
                    g_score@ == gm,
                    came_from@ == cm,
                    closed@ == cs,
                    inv_core(s, walls@, w, h, gm, cm, cs),
                    is_closed(cs, gl),
                    has_g(gm, pt(step)),
                    pt(step) != s,
                    path_between(tail, pt(step), gl, walls@, w, h),
                    tail.len() - 1 == g_of(gm, gl) - g_of(gm, pt(step)),
                    rk_of(gm, pt(step)) == rk_of(gm, gl),
                decreases g_of(gm, pt(step)),
            {
                match came_from.get(&key_of(step)) {
                    Some(p) => {
                        let parent = *p;
                        proof {
                            lemma_core_facts(s, walls@, w, h, gm, cm, cs, pt(step));
                            lemma_core_facts(s, walls@, w, h, gm, cm, cs, pt(parent));
                            assert(parent_ok(s, walls@, w, h, gm, cm, cs, pt(step)));
                            assert(has_g(gm, pt(parent)));
                        }
                        if parent.0 == start.0 && parent.1 == start.1 {
                            let d = (step.0 - start.0, step.1 - start.1);
                            proof {
                                let path = seq![s] + tail;
                                assert forall|i: int| 0 <= i < path.len() - 1 implies #[trigger] is_step(
                                    path[i],
                                    path[i + 1],
                                    walls@,
                                    w,
                                    h,
                                ) by {
                                    if i == 0 {
                                        assert(path[1] == tail[0]);
                                    } else {
                                        let k = i - 1;
                                        assert(path[i] == tail[k] && path[i + 1] == tail[k + 1]);
                                        assert(is_step(tail[k], tail[k + 1], walls@, w, h));
                                    }
                                }
                                assert(path.last() == tail.last());
                                assert(path_between(path, s, gl, walls@, w, h));
                                assert(path[1] == pt(step));
                                assert(path_label(path) == label(gm, gl));
                                lemma_first_rank_bounds(path, walls@, w, h);
                                lemma_core_facts(s, walls@, w, h, gm, cm, cs, gl);
                                assert forall|other: Seq<(int, int)>| #[trigger]
                                    path_between(other, s, gl, walls@, w, h) implies path.len() <= other.len() by {
                                    lemma_first_rank_bounds(other, walls@, w, h);
                                }
                                assert(shortest_path(path, s, gl, walls@, w, h));
                                assert forall|other: Seq<(int, int)>| #[trigger]
                                    shortest_path(other, s, gl, walls@, w, h) && other.len() >= 2 implies dir_rank(
                                    pt(d),
                                ) <= first_rank(other) by {
                                    assert(path_between(other, s, gl, walls@, w, h));
                                    assert(other.len() == path.len());
                                }
                                assert(is_first_step(s, gl, walls@, w, h, pt(d)));
                                lemma_next_step_is(s, gl, walls@, w, h, pt(d));
                            }
                            return Some(d);
                        }
                        proof {
                            let t2 = seq![pt(parent)] + tail;
                            assert forall|i: int| 0 <= i < t2.len() - 1 implies #[trigger] is_step(
                                t2[i],
                                t2[i + 1],
                                walls@,
                                w,
                                h,
                            ) by {
                                if i == 0 {
                                    assert(t2[1] == tail[0]);
                                } else {
                                    let k = i - 1;
                                    assert(t2[i] == tail[k] && t2[i + 1] == tail[k + 1]);
                                    assert(is_step(tail[k], tail[k + 1], walls@, w, h));
                                }
                            }
                            assert(t2.last() == tail.last());
                            tail = t2;
                        }
                        step = parent;
                    },
                    None => {
                        proof {
                            lemma_core_facts(s, walls@, w, h, gm, cm, cs, pt(step));
                        }
                        return None;
                    },
                }
            }
        }
        let current_label: (usize, usize) = match g_score.get(&ck) {
            Some(v) => *v,
            None => (0, 0),
        };
        proof {
            lemma_core_facts(s, walls@, w, h, g_score@, came_from@, closed@, pt(current));
        }
        expand(
            current,
            current_label,
            start,
            goal,
            walls,
            &wall_set,
            width,
            height,
            &closed,
            &mut g_score,
            &mut came_from,
            &mut open,
        );
    }
}

/// The search's estimate never exceeds the true number of moves: any path from `p`
/// to `goal` takes at least `heuristic_spec(p, goal)` moves.
pub proof fn lemma_heuristic_admissible(
    p: (int, int),
    goal: (int, int),
    path: Seq<(int, int)>,
    walls: Seq<Wall>,
    width: int,
    height: int,
)
    requires
        path_between(path, p, goal, walls, width, height),
    ensures
        heuristic_spec(p, goal) <= path.len() - 1,
{
    lemma_h_along(path, 0, walls, width, height, goal);
    assert(cheb(goal, goal) == 0);
}

/// A next step is one move of three cells onto a walkable cell, and from there the
/// goal is one move closer than from the start.
pub proof fn lemma_next_step_is_move(
    start: (int, int),
    goal: (int, int),
    walls: Seq<Wall>,
    width: int,
    height: int,
    d: (int, int),
)
    requires
        next_step(start, goal, walls, width, height) == Some(d),
    ensures
        step_dir(d),
        walkable((start.0 + d.0, start.1 + d.1), walls, width, height),
        exists|rest: Seq<(int, int)>|
            #[trigger] path_between(rest, (start.0 + d.0, start.1 + d.1), goal, walls, width, height) && forall|
                other: Seq<(int, int)>,
            | #[trigger] path_between(other, start, goal, walls, width, height) ==> rest.len() < other.len(),
{
    assert(is_first_step(start, goal, walls, width, height, d));
    let path = choose|path: Seq<(int, int)>|
        #[trigger] shortest_path(path, start, goal, walls, width, height) && path.len() >= 2 && path[1] == (
        start.0 + d.0,
        start.1 + d.1,
    );
    let i = 0int;
    assert(is_step(path[i], path[i + 1], walls, width, height));
    let rest = path.skip(1);
    assert forall|k: int| 0 <= k < rest.len() - 1 implies #[trigger] is_step(rest[k], rest[k + 1], walls, width, height) by {
        assert(rest[k] == path[k + 1] && rest[k + 1] == path[k + 2]);
        assert(is_step(path[k + 1], path[(k + 1) + 1], walls, width, height));
    }
    assert(path_between(rest, (start.0 + d.0, start.1 + d.1), goal, walls, width, height));
}

} // verus!
