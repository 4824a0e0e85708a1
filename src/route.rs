use vstd::prelude::*;

use crate::auto::{AutoNdx, in_rect};
use crate::dir::{Dir, IVec2, spec_step, spec_invert};
use crate::kind::Kind;
use crate::world::{Grid, World, auto_ok};

verus! {


/// Whether an actor of kind `kind` may step into cell `p` of `parent`: its
/// traction beats the terrain's there (nothing outside the parent's grid).
pub open spec fn enterable(w: Grid, parent: AutoNdx, kind: Kind, p: IVec2) -> bool {
    w.traction_valid(parent, kind, p)
}

/// Whether moving one step from `from` in direction `d` enters a cell from
/// which `to` can be reached in `k` further steps.
pub open spec fn via(w: Grid, parent: AutoNdx, kind: Kind, from: IVec2, to: IVec2, k: nat, d: Dir) -> bool {
    match spec_step(from, d) {
        Some(n) => enterable(w, parent, kind, n) && reach(w, parent, kind, n, to, k),
        None => false,
    }
}

/// Whether `to` can be reached from `from` in exactly `k` steps, each into
/// an enterable cell.
pub open spec fn reach(w: Grid, parent: AutoNdx, kind: Kind, from: IVec2, to: IVec2, k: nat) -> bool
    decreases k,
{
    if k == 0 {
        from == to
    } else {
        let k1 = (k - 1) as nat;
        ||| (match spec_step(from, Dir::North) {
            Some(n) => enterable(w, parent, kind, n) && reach(w, parent, kind, n, to, k1),
            None => false,
        })
        ||| (match spec_step(from, Dir::East) {
            Some(n) => enterable(w, parent, kind, n) && reach(w, parent, kind, n, to, k1),
            None => false,
        })
        ||| (match spec_step(from, Dir::South) {
            Some(n) => enterable(w, parent, kind, n) && reach(w, parent, kind, n, to, k1),
            None => false,
        })
        ||| (match spec_step(from, Dir::West) {
            Some(n) => enterable(w, parent, kind, n) && reach(w, parent, kind, n, to, k1),
            None => false,
        })
    }
}

/// Whether `k` is the least number of steps from `from` to `to`.
pub open spec fn shortest(w: Grid, parent: AutoNdx, kind: Kind, from: IVec2, to: IVec2, k: nat) -> bool {
    reach(w, parent, kind, from, to, k) && forall|j: nat| j < k ==> !#[trigger] reach(w, parent, kind, from, to, j)
}

/// Whether `p` lies in region `rg` and an actor of kind `kind` may step
/// into it.
pub open spec fn enterable_in(w: Grid, rg: Region, parent: AutoNdx, kind: Kind, p: IVec2) -> bool {
    in_region(rg, p) && w.traction_valid(parent, kind, p)
}

/// `via` with every cell entered inside region `rg`.
pub open spec fn via_in(w: Grid, rg: Region, parent: AutoNdx, kind: Kind, from: IVec2, to: IVec2, k: nat, d: Dir) -> bool {
    match spec_step(from, d) {
        Some(n) => enterable_in(w, rg, parent, kind, n) && reach_in(w, rg, parent, kind, n, to, k),
        None => false,
    }
}

/// `reach` with every cell entered inside region `rg`.
pub open spec fn reach_in(w: Grid, rg: Region, parent: AutoNdx, kind: Kind, from: IVec2, to: IVec2, k: nat) -> bool
    decreases k,
{
    if k == 0 {
        from == to
    } else {
        let k1 = (k - 1) as nat;
        ||| (match spec_step(from, Dir::North) {
            Some(n) => enterable_in(w, rg, parent, kind, n) && reach_in(w, rg, parent, kind, n, to, k1),
            None => false,
        })
        ||| (match spec_step(from, Dir::East) {
            Some(n) => enterable_in(w, rg, parent, kind, n) && reach_in(w, rg, parent, kind, n, to, k1),
            None => false,
        })
        ||| (match spec_step(from, Dir::South) {
            Some(n) => enterable_in(w, rg, parent, kind, n) && reach_in(w, rg, parent, kind, n, to, k1),
            None => false,
        })
        ||| (match spec_step(from, Dir::West) {
            Some(n) => enterable_in(w, rg, parent, kind, n) && reach_in(w, rg, parent, kind, n, to, k1),
            None => false,
        })
    }
}

/// `shortest` with every cell entered inside region `rg`.
pub open spec fn shortest_in(w: Grid, rg: Region, parent: AutoNdx, kind: Kind, from: IVec2, to: IVec2, k: nat) -> bool {
    reach_in(w, rg, parent, kind, from, to, k) && forall|j: nat| j < k ==> !#[trigger] reach_in(w, rg, parent, kind, from, to, j)
}

/// The rank of a direction among equally good first steps: east, north,
/// south, west.
pub open spec fn rank(d: Dir) -> int {
    match d {
        Dir::East => 0,
        Dir::North => 1,
        Dir::South => 2,
        Dir::West => 3,
        Dir::Stay => 4,
    }
}

/// Whether `d` is the first step of a shortest route of `k` steps from
/// `from` to `to`, preferred over every other such step.
pub open spec fn is_route_step(w: Grid, parent: AutoNdx, kind: Kind, from: IVec2, to: IVec2, k: nat, d: Dir) -> bool {
    &&& k >= 1
    &&& shortest(w, parent, kind, from, to, k)
    &&& rank(d) < 4
    &&& via(w, parent, kind, from, to, (k - 1) as nat, d)
    &&& forall|e: Dir| rank(e) < rank(d) ==> !#[trigger] via(w, parent, kind, from, to, (k - 1) as nat, e)
}

/// `is_route_step` with every cell entered inside region `rg`.
pub open spec fn is_route_step_in(w: Grid, rg: Region, parent: AutoNdx, kind: Kind, from: IVec2, to: IVec2, k: nat, d: Dir) -> bool {
    &&& k >= 1
    &&& shortest_in(w, rg, parent, kind, from, to, k)
    &&& rank(d) < 4
    &&& via_in(w, rg, parent, kind, from, to, (k - 1) as nat, d)
    &&& forall|e: Dir| rank(e) < rank(d) ==> !#[trigger] via_in(w, rg, parent, kind, from, to, (k - 1) as nat, e)
}

/// Whether `d` is the preferred first step of some shortest route.
pub open spec fn is_route_dir(w: Grid, parent: AutoNdx, kind: Kind, start: IVec2, dest: IVec2, d: Dir) -> bool {
    exists|k: nat| #[trigger] is_route_step(w, parent, kind, start, dest, k, d)
}

/// The step the router takes from `start` toward `dest`, if any: none at
/// the destination, without a route, or when the search area does not fit
/// in memory.
pub open spec fn route_choice(w: Grid, parent: AutoNdx, kind: Kind, start: IVec2, dest: IVec2) -> Option<Dir> {
    if start != dest && size(search_area(w.autos[parent.0 as int].dim, start, dest)) <= usize::MAX && exists|k: nat, d: Dir| #[trigger] is_route_step(w, parent, kind, start, dest, k, d) {
        Some(choose|d: Dir| #[trigger] is_route_dir(w, parent, kind, start, dest, d))
    } else {
        None
    }
}

/// At most one direction is a preferred first step of a shortest route.
pub proof fn lemma_route_step_unique(
    w: Grid,
    parent: AutoNdx,
    kind: Kind,
    start: IVec2,
    dest: IVec2,
    k1: nat,
    d1: Dir,
    k2: nat,
    d2: Dir,
)
    requires
        is_route_step(w, parent, kind, start, dest, k1, d1),
        is_route_step(w, parent, kind, start, dest, k2, d2),
    ensures
        d1 == d2,
{
    lemma_shortest_unique(w, parent, kind, start, dest, k1, k2);
    if rank(d1) < rank(d2) {
        assert(!via(w, parent, kind, start, dest, (k2 - 1) as nat, d1));
    } else if rank(d2) < rank(d1) {
        assert(!via(w, parent, kind, start, dest, (k1 - 1) as nat, d2));
    }
}

/// A route of at least one step starts with a step in one of the four directions.
pub proof fn lemma_reach_unfold(w: Grid, parent: AutoNdx, kind: Kind, from: IVec2, to: IVec2, k: nat)
    requires
        k >= 1,
    ensures
        reach(w, parent, kind, from, to, k) == (
            via(w, parent, kind, from, to, (k - 1) as nat, Dir::East)
            || via(w, parent, kind, from, to, (k - 1) as nat, Dir::North)
            || via(w, parent, kind, from, to, (k - 1) as nat, Dir::South)
            || via(w, parent, kind, from, to, (k - 1) as nat, Dir::West)),
{
}


/// `lemma_reach_unfold` inside region `rg`.
pub proof fn lemma_reach_unfold_in(w: Grid, rg: Region, parent: AutoNdx, kind: Kind, from: IVec2, to: IVec2, k: nat)
    requires
        k >= 1,
    ensures
        reach_in(w, rg, parent, kind, from, to, k) == (
            via_in(w, rg, parent, kind, from, to, (k - 1) as nat, Dir::East)
            || via_in(w, rg, parent, kind, from, to, (k - 1) as nat, Dir::North)
            || via_in(w, rg, parent, kind, from, to, (k - 1) as nat, Dir::South)
            || via_in(w, rg, parent, kind, from, to, (k - 1) as nat, Dir::West)),
{
}


/// Stepping back from where a step led returns to where it started.
pub proof fn lemma_step_back(p: IVec2, d: Dir)
    requires
        spec_step(p, d).is_some(),
        d != Dir::Stay,
    ensures
        spec_step(spec_step(p, d).unwrap(), spec_invert(d)) == Some(p),
{
}

/// A rectangle of `w` by `h` cells whose lowest corner is (`x0`, `y0`).
#[derive(Clone, Copy, Debug)]
pub struct Region {
    pub x0: i64,
    pub y0: i64,
    pub w: i64,
    pub h: i64,
}

/// Whether `p` lies in region `rg`.
pub open spec fn in_region(rg: Region, p: IVec2) -> bool {
    rg.x0 <= p.x < rg.x0 + rg.w && rg.y0 <= p.y < rg.y0 + rg.h
}

/// The number of cells of a region.
pub open spec fn size(rg: Region) -> int {
    rg.w * rg.h
}

/// A region that is not empty, lies within the range of coordinates, and
/// whose cells can be indexed in memory.
pub open spec fn region_ok(rg: Region) -> bool {
    &&& rg.w > 0
    &&& rg.h > 0
    &&& size(rg) <= usize::MAX
    &&& i32::MIN <= rg.x0 && rg.x0 + rg.w - 1 <= i32::MAX
    &&& i32::MIN <= rg.y0 && rg.y0 + rg.h - 1 <= i32::MAX
}

/// The row-major index of cell `p` of region `rg`.
pub open spec fn rcell(rg: Region, p: IVec2) -> int {
    (p.x - rg.x0) + (p.y - rg.y0) * rg.w
}

/// A cell of a region has an index inside the region.
pub proof fn lemma_cell_bounds(rg: Region, p: IVec2)
    requires
        in_region(rg, p),
    ensures
        0 <= rcell(rg, p) < size(rg),
{
    let x = p.x - rg.x0;
    let y = p.y - rg.y0;
    assert(0 <= x + y * rg.w < rg.w * rg.h) by (nonlinear_arith)
        requires
            0 <= x < rg.w,
            0 <= y < rg.h,
    ;
}

/// Distinct cells of a region have distinct indexes.
pub proof fn lemma_cell_injective(rg: Region, p: IVec2, q: IVec2)
    requires
        in_region(rg, p),
        in_region(rg, q),
        rcell(rg, p) == rcell(rg, q),
    ensures
        p == q,
{
    let px = p.x - rg.x0;
    let py = p.y - rg.y0;
    let qx = q.x - rg.x0;
    let qy = q.y - rg.y0;
    assert(py == qy) by (nonlinear_arith)
        requires
            0 <= px < rg.w,
            0 <= qx < rg.w,
            px + py * rg.w == qx + qy * rg.w,
    {
        if py < qy {
            assert((qy - py) * rg.w >= rg.w) by (nonlinear_arith)
                requires
                    qy - py >= 1,
                    rg.w > 0,
            ;
        } else if py > qy {
            assert((py - qy) * rg.w >= rg.w) by (nonlinear_arith)
                requires
                    py - qy >= 1,
                    rg.w > 0,
            ;
        }
    }
}

/// The number of cells not reached yet.
pub open spec fn count_none(s: Seq<Option<usize>>) -> nat
    decreases s.len(),
{
    if s.len() == 0 {
        0
    } else {
        count_none(s.drop_last()) + if s.last().is_none() { 1nat } else { 0nat }
    }
}

/// Recording a distance for an unreached cell leaves one cell fewer unreached.
pub proof fn lemma_count_set(s: Seq<Option<usize>>, i: int, v: usize)
    requires
        0 <= i < s.len(),
        s[i].is_none(),
    ensures
        count_none(s.update(i, Some(v))) + 1 == count_none(s),
    decreases s.len(),
{
    let t = s.update(i, Some(v));
    if i == s.len() - 1 {
        assert(t.drop_last() =~= s.drop_last());
    } else {
        assert(t.drop_last() =~= s.drop_last().update(i, Some(v)));
        lemma_count_set(s.drop_last(), i, v);
    }
}

/// The distance that the search has recorded for cell `p`.
pub open spec fn dist(rg: Region, d: Seq<Option<usize>>, p: IVec2) -> Option<usize> {
    d[rcell(rg, p)]
}

/// After cell `u` is expanded, its neighbour in direction `e`, if in the
/// grid, has a recorded distance at most one more than `u`'s.
pub open spec fn nbr_ok(rg: Region, d: Seq<Option<usize>>, u: IVec2, e: Dir) -> bool {
    match spec_step(u, e) {
        Some(v) => in_region(rg, v) ==> dist(rg, d, v).is_some() && dist(rg, d, v).unwrap() <= dist(rg, d, u).unwrap() + 1,
        None => true,
    }
}

/// Cell `u` has been expanded, where it is enterable.
pub open spec fn expanded(w: Grid, rg: Region, parent: AutoNdx, kind: Kind, d: Seq<Option<usize>>, u: IVec2) -> bool {
    enterable_in(w, rg, parent, kind, u) ==> {
        &&& nbr_ok(rg, d, u, Dir::North)
        &&& nbr_ok(rg, d, u, Dir::East)
        &&& nbr_ok(rg, d, u, Dir::South)
        &&& nbr_ok(rg, d, u, Dir::West)
    }
}

/// The state of the breadth-first search from `dest`: the recorded
/// distances `d`, the queue `q` and its head `h`.
pub open spec fn bfs_inv(w: Grid, rg: Region,
    parent: AutoNdx,
    kind: Kind,
    dest: IVec2,
    d: Seq<Option<usize>>,
    q: Seq<IVec2>,
    h: int,
) -> bool {
    &&& region_ok(rg)
    &&& d.len() == size(rg)
    &&& in_region(rg, dest)
    &&& 0 <= h <= q.len()
    &&& forall|i: int| 0 <= i < q.len() ==> {
        &&& in_region(rg, #[trigger] q[i])
        &&& dist(rg, d, q[i]).is_some()
        &&& dist(rg, d, q[i]).unwrap() <= i
    }
    &&& forall|i: int, j: int| 0 <= i <= j < q.len() ==> dist(rg, d, #[trigger] q[i]).unwrap() <= dist(rg, d, #[trigger] q[j]).unwrap()
    &&& h < q.len() ==> forall|p: IVec2| in_region(rg, p) && (#[trigger] dist(rg, d, p)).is_some()
        ==> dist(rg, d, p).unwrap() <= dist(rg, d, q[h]).unwrap() + 1
    &&& forall|p: IVec2| in_region(rg, p) && (#[trigger] dist(rg, d, p)).is_some() ==> exists|i: int| 0 <= i < q.len() && q[i] == p
    &&& forall|p: IVec2| in_region(rg, p) && (#[trigger] dist(rg, d, p)).is_some() ==> reach_in(w, rg, parent, kind, p, dest, dist(rg, d, p).unwrap() as nat)
    &&& forall|i: int| 0 <= i < h ==> expanded(w, rg, parent, kind, d, #[trigger] q[i])
}


fn in_region_exec(rg: Region, p: IVec2) -> (r: bool)
    requires
        region_ok(rg),
    ensures
        r == in_region(rg, p),
{
    rg.x0 <= p.x as i64 && (p.x as i64) < rg.x0 + rg.w && rg.y0 <= p.y as i64 && (p.y as i64) < rg.y0 + rg.h
}

fn cell_of(rg: Region, p: IVec2) -> (r: usize)
    requires
        in_region(rg, p),
        region_ok(rg),
    ensures
        r == rcell(rg, p),
        r < size(rg),
{
    proof {
        lemma_cell_bounds(rg, p);
    }
    let x = (p.x as i64 - rg.x0) as usize;
    let y = (p.y as i64 - rg.y0) as usize;
    assert(x == p.x - rg.x0 && y == p.y - rg.y0);
    assert(rg.w <= rg.w * rg.h) by (nonlinear_arith)
        requires
            rg.w > 0,
            rg.h > 0,
    ;
    assert(0 <= y as int * rg.w) by (nonlinear_arith)
        requires
            y >= 0,
            rg.w > 0,
    ;
    assert(y as int * rg.w <= x as int + y as int * rg.w);
    x + y * (rg.w as usize)
}

/// Expands cell `q[h]` toward direction `e`: a neighbour in the grid that
/// has no distance yet gets one more than the cell's, and joins the queue.
fn relax(
    w: &World,
    parent: AutoNdx,
    kind: Kind,
    dest: IVec2,
    rg: Region,
    d: &mut Vec<Option<usize>>,
    q: &mut Vec<IVec2>,
    h: usize,
    e: Dir,
)
    requires
        region_ok(rg),
        bfs_inv(w.grid(), rg, parent, kind, dest, old(d)@, old(q)@, h as int),
        h < old(q)@.len(),
        enterable_in(w.grid(), rg, parent, kind, old(q)@[h as int]),
        e != Dir::Stay,
    ensures
        bfs_inv(w.grid(), rg, parent, kind, dest, final(d)@, final(q)@, h as int),
        final(q)@.len() >= old(q)@.len(),
        final(q)@[h as int] == old(q)@[h as int],
        forall|c: int| 0 <= c < old(d)@.len() && old(d)@[c].is_some() ==> final(d)@[c] == old(d)@[c],
        final(d)@.len() == old(d)@.len(),
        nbr_ok(rg, final(d)@, old(q)@[h as int], e),
        2 * count_none(final(d)@) + final(q)@.len() <= 2 * count_none(old(d)@) + old(q)@.len(),
{
    let ghost d0 = d@;
    let ghost q0 = q@;
    let u = q[h];
    let uc = cell_of(rg, u);
    let lu = d[uc].unwrap();
    assert(lu <= h);
    assert(h < q.len());
    if let Some(v) = e.step_from(u) {
        if in_region_exec(rg, v) {
            let vc = cell_of(rg, v);
            if d[vc].is_none() {
                d.set(vc, Some(lu + 1));
                q.push(v);
                proof {
                    let d1 = d@;
                    let q1 = q@;
                    let nv = (lu + 1) as usize;
                    assert(d1 == d0.update(vc as int, Some(nv)));
                    lemma_count_set(d0, vc as int, nv);
                    assert(q1 == q0.push(v));
                    // Cells other than v keep their distance.
                    assert forall|p: IVec2| in_region(rg, p) && p != v implies #[trigger] dist(rg, d1, p) == dist(rg, d0, p) by {
                        lemma_cell_bounds(rg, p);
                        if rcell(rg, p) == rcell(rg, v) {
                            lemma_cell_injective(rg, p, v);
                        }
                    }
                    // v is reached through u.
                    lemma_step_back(u, e);
                    assert(spec_step(v, spec_invert(e)) == Some(u));
                    assert(reach_in(w.grid(), rg, parent, kind, u, dest, lu as nat));
                    assert(via_in(w.grid(), rg, parent, kind, v, dest, lu as nat, spec_invert(e)));
                    lemma_reach_unfold_in(w.grid(), rg, parent, kind, v, dest, (lu + 1) as nat);
                    assert(dist(rg, d1, v) == Some(nv));
                    // The invariant, part by part.
                    assert forall|i: int| 0 <= i < q1.len() implies {
                        &&& in_region(rg, #[trigger] q1[i])
                        &&& dist(rg, d1, q1[i]).is_some()
                        &&& dist(rg, d1, q1[i]).unwrap() <= i
                    } by {
                        if i < q0.len() {
                            assert(q1[i] == q0[i]);
                            if q0[i] == v {
                                assert(dist(rg, d0, q0[i]).is_some());
                            }
                        }
                    }
                    assert(dist(rg, d1, u) == dist(rg, d0, u));
                    assert forall|i: int, j: int| 0 <= i <= j < q1.len() implies dist(rg, d1, #[trigger] q1[i]).unwrap()
                        <= dist(rg, d1, #[trigger] q1[j]).unwrap() by {
                        if j < q0.len() {
                            assert(q1[i] == q0[i]);
                            assert(q1[j] == q0[j]);
                            assert(q0[i] != v) by {
                                assert(dist(rg, d0, q0[i]).is_some());
                            }
                            assert(q0[j] != v) by {
                                assert(dist(rg, d0, q0[j]).is_some());
                            }
                            assert(dist(rg, d0, q0[i]).unwrap() <= dist(rg, d0, q0[j]).unwrap());
                        } else if i < q0.len() {
                            assert(q1[i] == q0[i]);
                            assert(q0[i] != v) by {
                                assert(dist(rg, d0, q0[i]).is_some());
                            }
                            assert(dist(rg, d0, q0[i]).is_some());
                        }
                    }
                    assert(q1[h as int] == u);
                    assert forall|p: IVec2| in_region(rg, p) && (#[trigger] dist(rg, d1, p)).is_some() implies dist(rg, d1, p).unwrap()
                        <= dist(rg, d1, q1[h as int]).unwrap() + 1 by {
                        if p != v {
                            assert(dist(rg, d0, p).is_some());
                        }
                    }
                    assert forall|p: IVec2| in_region(rg, p) && (#[trigger] dist(rg, d1, p)).is_some() implies exists|i: int|
                        0 <= i < q1.len() && q1[i] == p by {
                        if p == v {
                            assert(q1[q0.len() as int] == v);
                        } else {
                            assert(dist(rg, d0, p).is_some());
                            let i = choose|i: int| 0 <= i < q0.len() && q0[i] == p;
                            assert(q1[i] == p);
                        }
                    }
                    assert forall|p: IVec2| in_region(rg, p) && (#[trigger] dist(rg, d1, p)).is_some() implies reach_in(
                        w.grid(),
                        rg,
                        parent,
                        kind,
                        p,
                        dest,
                        dist(rg, d1, p).unwrap() as nat,
                    ) by {
                        if p != v {
                            assert(dist(rg, d0, p).is_some());
                        }
                    }
                    assert forall|i: int| 0 <= i < h implies expanded(w.grid(), rg, parent, kind, d1, #[trigger] q1[i]) by {
                        assert(q1[i] == q0[i]);
                        let x = q0[i];
                        assert(expanded(w.grid(), rg, parent, kind, d0, x));
                        assert(dist(rg, d0, x).is_some());
                        assert(x != v);
                        if enterable_in(w.grid(), rg, parent, kind, x) {
                            assert(nbr_ok(rg, d1, x, Dir::North) == nbr_ok(rg, d0, x, Dir::North));
                            assert(nbr_ok(rg, d1, x, Dir::East) == nbr_ok(rg, d0, x, Dir::East));
                            assert(nbr_ok(rg, d1, x, Dir::South) == nbr_ok(rg, d0, x, Dir::South));
                            assert(nbr_ok(rg, d1, x, Dir::West) == nbr_ok(rg, d0, x, Dir::West));
                        }
                    }
                    assert forall|c: int| 0 <= c < d0.len() && d0[c].is_some() implies d1[c] == d0[c] by {
                        assert(c != vc);
                    }
                }
            } else {
                proof {
                    assert(dist(rg, d0, v).is_some());
                    assert(dist(rg, d0, v).unwrap() <= dist(rg, d0, q0[h as int]).unwrap() + 1);
                }
            }
        }
    }
}

/// At the end of the search every cell that can reach `dest` has a recorded
/// distance no longer than any route from it.
pub proof fn lemma_bfs_complete(w: Grid, rg: Region,
    parent: AutoNdx,
    kind: Kind,
    dest: IVec2,
    d: Seq<Option<usize>>,
    q: Seq<IVec2>,
    p: IVec2,
    k: nat,
)
    requires
        bfs_inv(w, rg, parent, kind, dest, d, q, q.len() as int),
        dist(rg, d, dest) == Some(0usize),
        in_region(rg, p),
        reach_in(w, rg, parent, kind, p, dest, k),
    ensures
        dist(rg, d, p).is_some(),
        dist(rg, d, p).unwrap() <= k,
    decreases k,
{
    if k > 0 {
        let k1 = (k - 1) as nat;
        lemma_reach_unfold_in(w, rg, parent, kind, p, dest, k);
        let e = if via_in(w, rg, parent, kind, p, dest, k1, Dir::East) {
            Dir::East
        } else if via_in(w, rg, parent, kind, p, dest, k1, Dir::North) {
            Dir::North
        } else if via_in(w, rg, parent, kind, p, dest, k1, Dir::South) {
            Dir::South
        } else {
            Dir::West
        };
        let n = spec_step(p, e).unwrap();
        lemma_bfs_complete(w, rg, parent, kind, dest, d, q, n, k1);
        assert(dist(rg, d, n).is_some());
        let i = choose|i: int| 0 <= i < q.len() && q[i] == n;
        assert(expanded(w, rg, parent, kind, d, q[i]));
        lemma_step_back(p, e);
        let b = spec_invert(e);
        assert(spec_step(n, b) == Some(p));
        assert(nbr_ok(rg, d, n, b));
    }
}


/// A neighbour keeps its recorded distance as the search goes on.
proof fn lemma_nbr_ok_kept(rg: Region, d1: Seq<Option<usize>>, d2: Seq<Option<usize>>, u: IVec2, e: Dir)
    requires
        nbr_ok(rg, d1, u, e),
        in_region(rg, u),
        dist(rg, d1, u).is_some(),
        d1.len() == d2.len(),
        d1.len() == size(rg),
        forall|c: int| 0 <= c < d1.len() && d1[c].is_some() ==> d2[c] == d1[c],
    ensures
        nbr_ok(rg, d2, u, e),
{
    lemma_cell_bounds(rg, u);
    if let Some(v) = spec_step(u, e) {
        if in_region(rg, v) {
            lemma_cell_bounds(rg, v);
        }
    }
}

/// The distance recorded for the neighbour of `start` in direction `e`,
/// where that neighbour is enterable.
pub open spec fn cand(w: Grid, rg: Region, parent: AutoNdx, kind: Kind, d: Seq<Option<usize>>, start: IVec2, e: Dir) -> Option<usize> {
    match spec_step(start, e) {
        Some(n) => if enterable_in(w, rg, parent, kind, n) {
            dist(rg, d, n)
        } else {
            None
        },
        None => None,
    }
}

fn candidate(
    w: &World,
    rg: Region,
    parent: AutoNdx,
    kind: Kind,
    dest: IVec2,
    d: &Vec<Option<usize>>,
    q: Ghost<Seq<IVec2>>,
    start: IVec2,
    e: Dir,
) -> (r: Option<usize>)
    requires
        w.wf(),
        w.has(parent),
        w.kinds.valid(kind),
        bfs_inv(w.grid(), rg, parent, kind, dest, d@, q@, q@.len() as int),
    ensures
        r == cand(w.grid(), rg, parent, kind, d@, start, e),
{
    match e.step_from(start) {
        Some(n) => {
            if in_region_exec(rg, n) && w.traction_valid(parent, kind, n) {
                let c = cell_of(rg, n);
                d[c]
            } else {
                None
            }
        },
        None => None,
    }
}

/// The value of `c_e`, `c_n`, `c_s` or `c_w` that belongs to direction `e`.
pub open spec fn c_of(e: Dir, ce: Option<usize>, cn: Option<usize>, cs: Option<usize>, cw: Option<usize>) -> Option<usize> {
    match e {
        Dir::East => ce,
        Dir::North => cn,
        Dir::South => cs,
        Dir::West => cw,
        Dir::Stay => None,
    }
}

/// The better of the best choice so far and direction `e` with candidate `c`.
pub open spec fn spec_better(best: Option<(Dir, usize)>, e: Dir, c: Option<usize>) -> Option<(Dir, usize)> {
    match c {
        Some(v) => match best {
            Some(b) => if v < b.1 { Some((e, v)) } else { best },
            None => Some((e, v)),
        },
        None => best,
    }
}

fn better(best: Option<(Dir, usize)>, e: Dir, c: Option<usize>) -> (r: Option<(Dir, usize)>)
    ensures
        r == spec_better(best, e, c),
{
    match c {
        Some(v) => match best {
            Some(b) => if v < b.1 {
                Some((e, v))
            } else {
                best
            },
            None => Some((e, v)),
        },
        None => best,
    }
}



/// Expands the head `q[h]` of the search queue toward its four neighbours.
#[verifier::rlimit(100)]
fn expand(
    world: &World,
    parent: AutoNdx,
    kind: Kind,
    dest: IVec2,
    rg: Region,
    d: &mut Vec<Option<usize>>,
    q: &mut Vec<IVec2>,
    h: usize,
)
    requires
        world.wf(),
        world.has(parent),
        world.kinds.valid(kind),
        region_ok(rg),
        bfs_inv(world.grid(), rg, parent, kind, dest, old(d)@, old(q)@, h as int),
        dist(rg, old(d)@, dest) == Some(0usize),
        h < old(q)@.len(),
    ensures
        bfs_inv(world.grid(), rg, parent, kind, dest, final(d)@, final(q)@, h + 1),
        dist(rg, final(d)@, dest) == Some(0usize),
        2 * count_none(final(d)@) + final(q)@.len() <= 2 * count_none(old(d)@) + old(q)@.len(),
{
        let u = q[h];
        let ghost d0 = d@;
        let ghost q0 = q@;
        proof {
            assert(in_region(rg, q0[h as int]));
        }
        if world.traction_valid(parent, kind, u) {
            proof {
                assert(enterable_in(world.grid(), rg, parent, kind, q0[h as int]));
            }
            relax(world, parent, kind, dest, rg, d, q, h, Dir::North);
            let ghost d1 = d@;
            relax(world, parent, kind, dest, rg, d, q, h, Dir::East);
            let ghost d2 = d@;
            relax(world, parent, kind, dest, rg, d, q, h, Dir::South);
            let ghost d3 = d@;
            relax(world, parent, kind, dest, rg, d, q, h, Dir::West);
            proof {
                let d4 = d@;
                assert(dist(rg, d0, u).is_some());
                lemma_cell_bounds(rg, u);
                lemma_nbr_ok_kept(rg, d1, d2, u, Dir::North);
                lemma_nbr_ok_kept(rg, d2, d3, u, Dir::North);
                lemma_nbr_ok_kept(rg, d3, d4, u, Dir::North);
                lemma_nbr_ok_kept(rg, d2, d3, u, Dir::East);
                lemma_nbr_ok_kept(rg, d3, d4, u, Dir::East);
                lemma_nbr_ok_kept(rg, d3, d4, u, Dir::South);
                assert(expanded(world.grid(), rg, parent, kind, d4, q@[h as int]));
                assert(dist(rg, d4, dest) == Some(0usize)) by {
                    lemma_cell_bounds(rg, dest);
                }
            }
        }
        proof {
            lemma_advance(world.grid(), rg, parent, kind, dest, d@, q@, h as int);
        }
}

/// Once the head of the queue is expanded, the search may move past it.
proof fn lemma_advance(g: Grid, rg: Region, parent: AutoNdx, kind: Kind, dest: IVec2, d: Seq<Option<usize>>, q: Seq<IVec2>, h: int)
    requires
        bfs_inv(g, rg, parent, kind, dest, d, q, h),
        0 <= h < q.len(),
        expanded(g, rg, parent, kind, d, q[h]),
    ensures
        bfs_inv(g, rg, parent, kind, dest, d, q, h + 1),
{
    if h + 1 < q.len() {
        assert(dist(rg, d, q[h]).unwrap() <= dist(rg, d, q[h + 1]).unwrap());
    }
}

/// Breadth-first search from `dest` over the grid of `parent`: the distance
/// recorded for each cell, and the final queue.
fn search(world: &World, parent: AutoNdx, kind: Kind, dest: IVec2, rg: Region, n: usize) -> (r: (
    Vec<Option<usize>>,
    Ghost<Seq<IVec2>>,
))
    requires
        world.wf(),
        world.has(parent),
        world.kinds.valid(kind),
        region_ok(rg),
        in_region(rg, dest),
        n == size(rg),
        n > 0,
    ensures
        bfs_inv(world.grid(), rg, parent, kind, dest, r.0@, r.1@, r.1@.len() as int),
        dist(rg, r.0@, dest) == Some(0usize),
{
    let mut d: Vec<Option<usize>> = Vec::new();
    while d.len() < n
        invariant
            d@.len() <= n,
            forall|c: int| 0 <= c < d@.len() ==> (#[trigger] d@[c]).is_none(),
        decreases n - d.len(),
    {
        d.push(None);
    }
    let dc = cell_of(rg, dest);
    d.set(dc, Some(0));
    let mut q: Vec<IVec2> = Vec::new();
    q.push(dest);
    let mut h: usize = 0;
    proof {
        let d0 = d@;
        let q0 = q@;
        assert(q0[0] == dest);
        assert(dist(rg, d0, dest) == Some(0usize));
        assert forall|p: IVec2| in_region(rg, p) && (#[trigger] dist(rg, d0, p)).is_some() implies p == dest by {
            lemma_cell_bounds(rg, p);
            if rcell(rg, p) == rcell(rg, dest) {
                lemma_cell_injective(rg, p, dest);
            }
        }
        assert(bfs_inv(world.grid(), rg, parent, kind, dest, d0, q0, 0));
    }
    while h < q.len()
        invariant
            world.wf(),
            world.has(parent),
            world.kinds.valid(kind),
            region_ok(rg),
            bfs_inv(world.grid(), rg, parent, kind, dest, d@, q@, h as int),
            dist(rg, d@, dest) == Some(0usize),
        decreases 2 * count_none(d@) + q@.len() - h,
    {
        expand(world, parent, kind, dest, rg, &mut d, &mut q, h);
        h = h + 1;
    }
    (d, Ghost(q@))
}

/// What the choice among the four candidates means for routes from `start`.
proof fn lemma_pick(w: Grid, rg: Region,
    parent: AutoNdx,
    kind: Kind,
    dest: IVec2,
    df: Seq<Option<usize>>,
    qf: Seq<IVec2>,
    start: IVec2,
    ce: Option<usize>,
    cn: Option<usize>,
    cs: Option<usize>,
    cw: Option<usize>,
    best: Option<(Dir, usize)>,
)
    requires
        bfs_inv(w, rg, parent, kind, dest, df, qf, qf.len() as int),
        dist(rg, df, dest) == Some(0usize),
        start != dest,
        ce == cand(w, rg, parent, kind, df, start, Dir::East),
        cn == cand(w, rg, parent, kind, df, start, Dir::North),
        cs == cand(w, rg, parent, kind, df, start, Dir::South),
        cw == cand(w, rg, parent, kind, df, start, Dir::West),
        best == spec_better(spec_better(spec_better(spec_better(None, Dir::East, ce), Dir::North, cn), Dir::South, cs), Dir::West, cw),
    ensures
        match best {
            Some(b) => exists|k: nat| is_route_step_in(w, rg, parent, kind, start, dest, k, b.0),
            None => forall|k: nat| !#[trigger] reach_in(w, rg, parent, kind, start, dest, k),
        },
{
        assert forall|e: Dir| rank(e) < 4 implies #[trigger] c_of(e, ce, cn, cs, cw) == cand(w, rg, parent, kind, df, start, e) by {
        }
        // A neighbour that can reach the destination in j steps has a
        // candidate of at most j.
        assert forall|e: Dir, j: nat| rank(e) < 4 && #[trigger] via_in(w, rg, parent, kind, start, dest, j, e) implies {
            &&& cand(w, rg, parent, kind, df, start, e).is_some()
            &&& cand(w, rg, parent, kind, df, start, e).unwrap() <= j
        } by {
            let nb = spec_step(start, e).unwrap();
            lemma_bfs_complete(w, rg, parent, kind, dest, df, qf, nb, j);
        }
        // A candidate of v means the neighbour reaches the destination in v steps.
        assert forall|e: Dir| rank(e) < 4 && (#[trigger] cand(w, rg, parent, kind, df, start, e)).is_some() implies via_in(
            w,
            rg,
            parent,
            kind,
            start,
            dest,
            cand(w, rg, parent, kind, df, start, e).unwrap() as nat,
            e,
        ) by {
        }
        match best {
            Some(b) => {
                let dd = b.0;
                let k = b.1;
                assert(rank(dd) < 4);
                assert(c_of(dd, ce, cn, cs, cw) == Some(k));
                assert(forall|e: Dir| rank(e) < 4 && (#[trigger] c_of(e, ce, cn, cs, cw)).is_some() ==> c_of(e, ce, cn, cs, cw).unwrap() >= k);
                assert(forall|e: Dir| rank(e) < rank(dd) && (#[trigger] c_of(e, ce, cn, cs, cw)).is_some() ==> c_of(e, ce, cn, cs, cw).unwrap() > k);
                let kk = (k + 1) as nat;
                assert(via_in(w, rg, parent, kind, start, dest, k as nat, dd));
                lemma_reach_unfold_in(w, rg, parent, kind, start, dest, kk);
                assert(reach_in(w, rg, parent, kind, start, dest, kk));
                assert forall|j: nat| j < kk implies !#[trigger] reach_in(w, rg, parent, kind, start, dest, j) by {
                    if j > 0 && reach_in(w, rg, parent, kind, start, dest, j) {
                        lemma_reach_unfold_in(w, rg, parent, kind, start, dest, j);
                        let j1 = (j - 1) as nat;
                        if via_in(w, rg, parent, kind, start, dest, j1, Dir::East) {
                            assert(c_of(Dir::East, ce, cn, cs, cw).is_some());
                        } else if via_in(w, rg, parent, kind, start, dest, j1, Dir::North) {
                            assert(c_of(Dir::North, ce, cn, cs, cw).is_some());
                        } else if via_in(w, rg, parent, kind, start, dest, j1, Dir::South) {
                            assert(c_of(Dir::South, ce, cn, cs, cw).is_some());
                        } else {
                            assert(via_in(w, rg, parent, kind, start, dest, j1, Dir::West));
                            assert(c_of(Dir::West, ce, cn, cs, cw).is_some());
                        }
                    }
                }
                assert forall|e: Dir| rank(e) < rank(dd) implies !#[trigger] via_in(w, rg, parent, kind, start, dest, k as nat, e) by {
                    if via_in(w, rg, parent, kind, start, dest, k as nat, e) {
                        assert(c_of(e, ce, cn, cs, cw).is_some());
                    }
                }
                assert(is_route_step_in(w, rg, parent, kind, start, dest, kk, dd));
            },
            None => {
                assert forall|j: nat| !#[trigger] reach_in(w, rg, parent, kind, start, dest, j) by {
                    if j > 0 && reach_in(w, rg, parent, kind, start, dest, j) {
                        lemma_reach_unfold_in(w, rg, parent, kind, start, dest, j);
                        let j1 = (j - 1) as nat;
                        if via_in(w, rg, parent, kind, start, dest, j1, Dir::East) {
                            assert(c_of(Dir::East, ce, cn, cs, cw).is_some());
                        } else if via_in(w, rg, parent, kind, start, dest, j1, Dir::North) {
                            assert(c_of(Dir::North, ce, cn, cs, cw).is_some());
                        } else if via_in(w, rg, parent, kind, start, dest, j1, Dir::South) {
                            assert(c_of(Dir::South, ce, cn, cs, cw).is_some());
                        } else {
                            assert(c_of(Dir::West, ce, cn, cs, cw).is_some());
                        }
                    }
                }
            },
        }
}


/// The smaller of two integers.
pub open spec fn min2(a: int, b: int) -> int {
    if a <= b { a } else { b }
}

/// The larger of two integers.
pub open spec fn max2(a: int, b: int) -> int {
    if a >= b { a } else { b }
}

/// The region the router searches: the parent's grid of size `dim`, the
/// start and the destination, widened by one cell on every side, and cut
/// to the range of coordinates.
pub open spec fn search_area(dim: IVec2, start: IVec2, dest: IVec2) -> Region {
    let x0 = max2(i32::MIN as int, min2(0, min2(start.x as int, dest.x as int)) - 1);
    let x1 = min2(i32::MAX as int, max2(dim.x - 1, max2(start.x as int, dest.x as int)) + 1);
    let y0 = max2(i32::MIN as int, min2(0, min2(start.y as int, dest.y as int)) - 1);
    let y1 = min2(i32::MAX as int, max2(dim.y - 1, max2(start.y as int, dest.y as int)) + 1);
    Region { x0: x0 as i64, y0: y0 as i64, w: (x1 - x0 + 1) as i64, h: (y1 - y0 + 1) as i64 }
}

/// Every cell outside region `rg` lies beyond a border of the region that
/// is itself outside the grid of size `dim`.
pub open spec fn borders_outside(rg: Region, dim: IVec2) -> bool {
    &&& (rg.x0 == i32::MIN || rg.x0 < 0)
    &&& (rg.x0 + rg.w - 1 == i32::MAX || rg.x0 + rg.w - 1 >= dim.x)
    &&& (rg.y0 == i32::MIN || rg.y0 < 0)
    &&& (rg.y0 + rg.h - 1 == i32::MAX || rg.y0 + rg.h - 1 >= dim.y)
}

/// Region `rg` holds `p` and each neighbour of `p` that has coordinates.
pub open spec fn holds_around(rg: Region, p: IVec2) -> bool {
    &&& (rg.x0 < p.x || p.x == i32::MIN)
    &&& (rg.x0 + rg.w - 1 > p.x || p.x == i32::MAX)
    &&& (rg.y0 < p.y || p.y == i32::MIN)
    &&& (rg.y0 + rg.h - 1 > p.y || p.y == i32::MAX)
}

/// Region `rg` is a search area for a route from `start` to `dest` over a
/// grid of size `dim`.
pub open spec fn covers(rg: Region, dim: IVec2, start: IVec2, dest: IVec2) -> bool {
    &&& region_ok(rg)
    &&& in_region(rg, start)
    &&& in_region(rg, dest)
    &&& holds_around(rg, start)
    &&& borders_outside(rg, dim)
}

/// The search area covers the route it is made for, when it fits in memory.
pub proof fn lemma_search_area(dim: IVec2, start: IVec2, dest: IVec2)
    requires
        size(search_area(dim, start, dest)) <= usize::MAX,
    ensures
        covers(search_area(dim, start, dest), dim, start, dest),
{
    let rg = search_area(dim, start, dest);
    assert(rg.w > 0 && rg.h > 0);
}

/// The cell of region `rg` nearest to `p`.
pub open spec fn clamp(rg: Region, p: IVec2) -> IVec2 {
    IVec2 {
        x: max2(rg.x0 as int, min2(p.x as int, rg.x0 + rg.w - 1)) as i32,
        y: max2(rg.y0 as int, min2(p.y as int, rg.y0 + rg.h - 1)) as i32,
    }
}

/// Moving a cell into the region keeps its terrain: a cell outside the
/// region and its nearest cell of the region both lie outside the grid.
pub proof fn lemma_clamp_tile(g: Grid, rg: Region, parent: AutoNdx, p: IVec2)
    requires
        region_ok(rg),
        borders_outside(rg, g.autos[parent.0 as int].dim),
    ensures
        in_region(rg, clamp(rg, p)),
        in_region(rg, p) ==> clamp(rg, p) == p,
        g.tile(parent, clamp(rg, p)) == g.tile(parent, p),
{
    let dim = g.autos[parent.0 as int].dim;
    let c = clamp(rg, p);
    if !in_region(rg, p) {
        assert(!in_rect(dim, p));
        assert(!in_rect(dim, c));
    }
}

/// A route within a region is a route.
pub proof fn lemma_reach_in_reach(g: Grid, rg: Region, parent: AutoNdx, kind: Kind, p: IVec2, to: IVec2, k: nat)
    requires
        reach_in(g, rg, parent, kind, p, to, k),
    ensures
        reach(g, parent, kind, p, to, k),
    decreases k,
{
    if k > 0 {
        let k1 = (k - 1) as nat;
        lemma_reach_unfold_in(g, rg, parent, kind, p, to, k);
        lemma_reach_unfold(g, parent, kind, p, to, k);
        if via_in(g, rg, parent, kind, p, to, k1, Dir::East) {
            lemma_reach_in_reach(g, rg, parent, kind, spec_step(p, Dir::East).unwrap(), to, k1);
        } else if via_in(g, rg, parent, kind, p, to, k1, Dir::North) {
            lemma_reach_in_reach(g, rg, parent, kind, spec_step(p, Dir::North).unwrap(), to, k1);
        } else if via_in(g, rg, parent, kind, p, to, k1, Dir::South) {
            lemma_reach_in_reach(g, rg, parent, kind, spec_step(p, Dir::South).unwrap(), to, k1);
        } else {
            lemma_reach_in_reach(g, rg, parent, kind, spec_step(p, Dir::West).unwrap(), to, k1);
        }
    }
}

/// A route of `k` steps to a cell of the region can be moved into the
/// region, from the nearest cell of the region to its start, without
/// getting longer.
pub proof fn lemma_clamp_reach(g: Grid, rg: Region, parent: AutoNdx, kind: Kind, p: IVec2, to: IVec2, k: nat) -> (j: nat)
    requires
        region_ok(rg),
        borders_outside(rg, g.autos[parent.0 as int].dim),
        in_region(rg, to),
        reach(g, parent, kind, p, to, k),
    ensures
        j <= k,
        reach_in(g, rg, parent, kind, clamp(rg, p), to, j),
    decreases k,
{
    lemma_clamp_tile(g, rg, parent, p);
    if k == 0 {
        0
    } else {
        let k1 = (k - 1) as nat;
        lemma_reach_unfold(g, parent, kind, p, to, k);
        let d = if via(g, parent, kind, p, to, k1, Dir::East) {
            Dir::East
        } else if via(g, parent, kind, p, to, k1, Dir::North) {
            Dir::North
        } else if via(g, parent, kind, p, to, k1, Dir::South) {
            Dir::South
        } else {
            Dir::West
        };
        let n = spec_step(p, d).unwrap();
        let j1 = lemma_clamp_reach(g, rg, parent, kind, n, to, k1);
        lemma_clamp_tile(g, rg, parent, n);
        let cp = clamp(rg, p);
        let cn = clamp(rg, n);
        if cn == cp {
            j1
        } else {
            assert(spec_step(cp, d) == Some(cn));
            assert(enterable_in(g, rg, parent, kind, cn));
            assert(via_in(g, rg, parent, kind, cp, to, j1, d));
            lemma_reach_unfold_in(g, rg, parent, kind, cp, to, j1 + 1);
            j1 + 1
        }
    }
}

/// A preferred first step of a shortest route within a covering region is
/// one of any route.
pub proof fn lemma_lift_step(g: Grid, rg: Region, parent: AutoNdx, kind: Kind, start: IVec2, dest: IVec2, k: nat, d: Dir)
    requires
        covers(rg, g.autos[parent.0 as int].dim, start, dest),
        is_route_step_in(g, rg, parent, kind, start, dest, k, d),
    ensures
        is_route_step(g, parent, kind, start, dest, k, d),
{
    let k1 = (k - 1) as nat;
    lemma_clamp_tile(g, rg, parent, start);
    lemma_reach_in_reach(g, rg, parent, kind, start, dest, k);
    assert forall|j: nat| j < k implies !#[trigger] reach(g, parent, kind, start, dest, j) by {
        if reach(g, parent, kind, start, dest, j) {
            let j2 = lemma_clamp_reach(g, rg, parent, kind, start, dest, j);
            assert(!reach_in(g, rg, parent, kind, start, dest, j2));
        }
    }
    let n = spec_step(start, d).unwrap();
    lemma_reach_in_reach(g, rg, parent, kind, n, dest, k1);
    assert forall|e: Dir| rank(e) < rank(d) implies !#[trigger] via(g, parent, kind, start, dest, k1, e) by {
        if via(g, parent, kind, start, dest, k1, e) {
            let m = spec_step(start, e).unwrap();
            assert(in_region(rg, m));
            lemma_clamp_tile(g, rg, parent, m);
            let j2 = lemma_clamp_reach(g, rg, parent, kind, m, dest, k1);
            assert(via_in(g, rg, parent, kind, start, dest, j2, e));
            lemma_reach_unfold_in(g, rg, parent, kind, start, dest, j2 + 1);
            assert(reach_in(g, rg, parent, kind, start, dest, j2 + 1));
            assert(j2 == k1);
        }
    }
}

/// No route within a covering region means no route at all.
pub proof fn lemma_lift_none(g: Grid, rg: Region, parent: AutoNdx, kind: Kind, start: IVec2, dest: IVec2, k: nat)
    requires
        covers(rg, g.autos[parent.0 as int].dim, start, dest),
        forall|j: nat| !#[trigger] reach_in(g, rg, parent, kind, start, dest, j),
    ensures
        !reach(g, parent, kind, start, dest, k),
{
    lemma_clamp_tile(g, rg, parent, start);
    if reach(g, parent, kind, start, dest, k) {
        let j = lemma_clamp_reach(g, rg, parent, kind, start, dest, k);
        assert(reach_in(g, rg, parent, kind, start, dest, j));
    }
}

/// The router's answer is the route choice.
proof fn lemma_choice_of(g: Grid, rg: Region, parent: AutoNdx, kind: Kind, start: IVec2, dest: IVec2, best: Option<(Dir, usize)>)
    requires
        start != dest,
        rg == search_area(g.autos[parent.0 as int].dim, start, dest),
        covers(rg, g.autos[parent.0 as int].dim, start, dest),
        match best {
            Some(b) => exists|k: nat| is_route_step_in(g, rg, parent, kind, start, dest, k, b.0),
            None => forall|k: nat| !#[trigger] reach_in(g, rg, parent, kind, start, dest, k),
        },
    ensures
        match best {
            Some(b) => Some(b.0),
            None => None,
        } == route_choice(g, parent, kind, start, dest),
        match best {
            Some(b) => exists|k: nat| is_route_step(g, parent, kind, start, dest, k, b.0),
            None => forall|k: nat| !#[trigger] reach(g, parent, kind, start, dest, k),
        },
{
    match best {
        Some(b) => {
            let k = choose|k: nat| is_route_step_in(g, rg, parent, kind, start, dest, k, b.0);
            lemma_lift_step(g, rg, parent, kind, start, dest, k, b.0);
            assert(exists|k: nat, d: Dir| #[trigger] is_route_step(g, parent, kind, start, dest, k, d));
            assert(is_route_dir(g, parent, kind, start, dest, b.0));
            let c = choose|d: Dir| #[trigger] is_route_dir(g, parent, kind, start, dest, d);
            let kc = choose|kc: nat| is_route_step(g, parent, kind, start, dest, kc, c);
            lemma_route_step_unique(g, parent, kind, start, dest, k, b.0, kc, c);
        },
        None => {
            assert forall|k: nat| !#[trigger] reach(g, parent, kind, start, dest, k) by {
                lemma_lift_none(g, rg, parent, kind, start, dest, k);
            }
            assert forall|k: nat, d: Dir| !#[trigger] is_route_step(g, parent, kind, start, dest, k, d) by {
                if is_route_step(g, parent, kind, start, dest, k, d) {
                    assert(reach(g, parent, kind, start, dest, k));
                }
            }
        },
    }
}

/// The first step from the position of `auto_ndx` along a shortest route
/// to `dest`, where every cell entered, the destination included, must
/// have terrain the auto has the traction for (outside the parent's grid
/// the terrain is nothing). Among equally short routes east is preferred,
/// then north, south and west. There is none when the auto is already
/// there, when no route exists, or when the search area (see
/// `search_area`) has more cells than memory can index.
#[verifier::rlimit(40)]
pub fn route(world: &World, auto_ndx: AutoNdx, dest: IVec2) -> (r: Option<Dir>)
    requires
        world.wf(),
        world.has(auto_ndx),
    ensures
        ({
            let a = world@[auto_ndx.0 as int];
            let rg = search_area(world@[a.parent.0 as int].dim, a.loc, dest);
            match r {
                Some(d) => a.loc != dest && exists|k: nat| is_route_step(world.grid(), a.parent, a.kind, a.loc, dest, k, d),
                None => a.loc == dest || size(rg) > usize::MAX
                    || forall|k: nat| !#[trigger] reach(world.grid(), a.parent, a.kind, a.loc, dest, k),
            }
        }),
        r == route_choice(world.grid(), world@[auto_ndx.0 as int].parent, world@[auto_ndx.0 as int].kind, world@[auto_ndx.0 as int].loc, dest),
{
    let auto = world.get_auto(auto_ndx);
    let start = auto.loc;
    let kind = auto.kind;
    let parent = auto.parent;
    proof {
        assert(auto_ok(world@[auto_ndx.0 as int], world.kinds, world@.len()));
    }
    if start == dest {
        return None;
    }
    let dim = world.get_auto(parent).dim;
    let (sx, sy, tx, ty) = (start.x as i64, start.y as i64, dest.x as i64, dest.y as i64);
    let lo_x = if sx <= tx { sx } else { tx };
    let lo_x = if 0 <= lo_x { 0 } else { lo_x } - 1;
    let x0 = if lo_x < i32::MIN as i64 { i32::MIN as i64 } else { lo_x };
    let hi_x = if sx >= tx { sx } else { tx };
    let hi_x = if dim.x as i64 - 1 >= hi_x { dim.x as i64 - 1 } else { hi_x } + 1;
    let x1 = if hi_x > i32::MAX as i64 { i32::MAX as i64 } else { hi_x };
    let lo_y = if sy <= ty { sy } else { ty };
    let lo_y = if 0 <= lo_y { 0 } else { lo_y } - 1;
    let y0 = if lo_y < i32::MIN as i64 { i32::MIN as i64 } else { lo_y };
    let hi_y = if sy >= ty { sy } else { ty };
    let hi_y = if dim.y as i64 - 1 >= hi_y { dim.y as i64 - 1 } else { hi_y } + 1;
    let y1 = if hi_y > i32::MAX as i64 { i32::MAX as i64 } else { hi_y };
    let rg = Region { x0, y0, w: x1 - x0 + 1, h: y1 - y0 + 1 };
    assert(rg == search_area(dim, start, dest));
    assert(0 < rg.w <= 0x1_0000_0001 && 0 < rg.h <= 0x1_0000_0001);
    assert(rg.w as int * rg.h as int <= 0x1_0000_0001 * 0x1_0000_0001) by (nonlinear_arith)
        requires
            0 < rg.w <= 0x1_0000_0001,
            0 < rg.h <= 0x1_0000_0001,
    ;
    let cells: u128 = (rg.w as u128) * (rg.h as u128);
    if cells > usize::MAX as u128 {
        return None;
    }
    let n = cells as usize;
    proof {
        lemma_search_area(dim, start, dest);
        assert(rg.w as int * rg.h as int > 0) by (nonlinear_arith)
            requires
                0 < rg.w,
                0 < rg.h,
        ;
    }
    let (d, Ghost(qf)) = search(world, parent, kind, dest, rg, n);
    let ce = candidate(world, rg, parent, kind, dest, &d, Ghost(qf), start, Dir::East);
    let cn = candidate(world, rg, parent, kind, dest, &d, Ghost(qf), start, Dir::North);
    let cs = candidate(world, rg, parent, kind, dest, &d, Ghost(qf), start, Dir::South);
    let cw = candidate(world, rg, parent, kind, dest, &d, Ghost(qf), start, Dir::West);
    let best = better(None, Dir::East, ce);
    let best = better(best, Dir::North, cn);
    let best = better(best, Dir::South, cs);
    let best = better(best, Dir::West, cw);
    proof {
        let g = world.grid();
        lemma_pick(g, rg, parent, kind, dest, d@, qf, start, ce, cn, cs, cw, best);
        lemma_choice_of(g, rg, parent, kind, start, dest, best);
    }
    match best {
        Some(b) => Some(b.0),
        None => None,
    }
}


/// The least number of steps is unique.
pub proof fn lemma_shortest_unique(w: Grid, parent: AutoNdx, kind: Kind, from: IVec2, to: IVec2, a: nat, b: nat)
    requires
        shortest(w, parent, kind, from, to, a),
        shortest(w, parent, kind, from, to, b),
    ensures
        a == b,
{
    if a < b {
        assert(!reach(w, parent, kind, from, to, a));
    } else if b < a {
        assert(!reach(w, parent, kind, from, to, b));
    }
}

/// Taking a route step from a cell `k` steps from the destination leads to
/// a cell `k - 1` steps from it.
pub proof fn lemma_route_step_closer(w: Grid, parent: AutoNdx, kind: Kind, p: IVec2, dest: IVec2, k: nat, d: Dir)
    requires
        is_route_step(w, parent, kind, p, dest, k, d),
    ensures
        spec_step(p, d).is_some(),
        shortest(w, parent, kind, spec_step(p, d).unwrap(), dest, (k - 1) as nat),
{
    let n = spec_step(p, d).unwrap();
    let k1 = (k - 1) as nat;
    assert forall|j: nat| j < k1 implies !#[trigger] reach(w, parent, kind, n, dest, j) by {
        if reach(w, parent, kind, n, dest, j) {
            assert(via(w, parent, kind, p, dest, j, d));
            lemma_reach_unfold(w, parent, kind, p, dest, j + 1);
            assert(reach(w, parent, kind, p, dest, j + 1));
        }
    }
}

/// Following the router from a position whose shortest route to `dest`
/// takes `k` steps, one returned step at a time over an unchanging grid,
/// reaches `dest` after exactly `k` steps, and not before.
pub proof fn lemma_route_walk(
    w: Grid,
    parent: AutoNdx,
    kind: Kind,
    walk: Seq<IVec2>,
    dirs: Seq<Dir>,
    dest: IVec2,
    k: nat,
)
    requires
        walk.len() == k + 1,
        dirs.len() == k,
        shortest(w, parent, kind, walk[0], dest, k),
        forall|i: int|
            0 <= i < k ==> walk[i] == dest || ((exists|m: nat| is_route_step(w, parent, kind, #[trigger] walk[i], dest, m, dirs[i]))
                && spec_step(walk[i], dirs[i]) == Some(walk[i + 1])),
    ensures
        walk[k as int] == dest,
        forall|i: int| 0 <= i < k ==> #[trigger] walk[i] != dest,
{
    lemma_route_walk_from(w, parent, kind, walk, dirs, dest, k, 0);
}

proof fn lemma_route_walk_from(
    w: Grid,
    parent: AutoNdx,
    kind: Kind,
    walk: Seq<IVec2>,
    dirs: Seq<Dir>,
    dest: IVec2,
    k: nat,
    i: int,
)
    requires
        0 <= i <= k,
        walk.len() == k + 1,
        dirs.len() == k,
        shortest(w, parent, kind, walk[i], dest, (k - i) as nat),
        forall|j: int|
            0 <= j < k ==> walk[j] == dest || ((exists|m: nat| is_route_step(w, parent, kind, #[trigger] walk[j], dest, m, dirs[j]))
                && spec_step(walk[j], dirs[j]) == Some(walk[j + 1])),
    ensures
        walk[k as int] == dest,
        forall|j: int| i <= j < k ==> #[trigger] walk[j] != dest,
    decreases k - i,
{
    if i == k {
        assert(reach(w, parent, kind, walk[i], dest, 0));
    } else {
        assert(!reach(w, parent, kind, walk[i], dest, 0));
        assert(walk[i] != dest);
        let m = choose|m: nat| is_route_step(w, parent, kind, walk[i], dest, m, dirs[i]);
        lemma_shortest_unique(w, parent, kind, walk[i], dest, m, (k - i) as nat);
        lemma_route_step_closer(w, parent, kind, walk[i], dest, m, dirs[i]);
        lemma_route_walk_from(w, parent, kind, walk, dirs, dest, k, i + 1);
    }
}


/// Whether following `dirs` from `pos` enters only cells the actor may
/// enter, and ends at `dest`.
pub open spec fn path_valid(w: Grid, parent: AutoNdx, kind: Kind, pos: IVec2, dirs: Seq<Dir>, dest: IVec2) -> bool
    decreases dirs.len(),
{
    if dirs.len() == 0 {
        pos == dest
    } else {
        match spec_step(pos, dirs[0]) {
            Some(n) => w.traction_valid(parent, kind, n) && path_valid(w, parent, kind, n, dirs.drop_first(), dest),
            None => false,
        }
    }
}

/// Whether the route `dirs`, followed from the position of `auto`, crosses
/// only terrain it has the traction for and ends at `dest`.
pub fn route_valid(world: &World, auto: AutoNdx, dirs: &Vec<Dir>, dest: IVec2) -> (r: bool)
    requires
        world.wf(),
        world.has(auto),
    ensures
        r == path_valid(world.grid(), world@[auto.0 as int].parent, world@[auto.0 as int].kind, world@[auto.0 as int].loc, dirs@, dest),
{
    let a = world.get_auto(auto);
    let parent = a.parent;
    let kind = a.kind;
    let mut pos = a.loc;
    proof {
        assert(auto_ok(world@[auto.0 as int], world.kinds, world@.len()));
        assert(dirs@.subrange(0, dirs@.len() as int) =~= dirs@);
    }
    let mut i: usize = 0;
    while i < dirs.len()
        invariant
            world.wf(),
            world.has(parent),
            world.kinds.valid(kind),
            parent == world@[auto.0 as int].parent,
            kind == world@[auto.0 as int].kind,
            i <= dirs.len(),
            path_valid(world.grid(), parent, kind, world@[auto.0 as int].loc, dirs@, dest)
                == path_valid(world.grid(), parent, kind, pos, dirs@.subrange(i as int, dirs@.len() as int), dest),
        decreases dirs.len() - i,
    {
        let ghost rest = dirs@.subrange(i as int, dirs@.len() as int);
        assert(rest[0] == dirs@[i as int]);
        assert(rest.drop_first() =~= dirs@.subrange(i + 1, dirs@.len() as int));
        match dirs[i].step_from(pos) {
            Some(n) => {
                if !world.traction_valid(parent, kind, n) {
                    return false;
                }
                pos = n;
            },
            None => {
                return false;
            },
        }
        i = i + 1;
    }
    pos == dest
}

} // verus!
