//! The search across a square field of three by three cells that all cost
//! the same: from one corner to the next it finds the straight way, of three
//! waypoints, whatever the cost.

use vstd::prelude::*;
use crate::coord::{dist_squared, estimate, is_floor_sqrt, lemma_floor_sqrt_unique, step_factor, Coord, ESTIMATE_SQUARE};
use crate::path_finding::{
    begun, expanded, follows_links, found_path, goal_refused, lemma_is_links_path, lemma_lowest_is_picked, links_path,
    passable, relax, relax_upto, run, search, spread, step_cost, taken, waits, MoveCost, Search, SEARCH_BUDGET,
};

verus! {

/// The cell at `x` and `z` on the ground level.
pub open spec fn ground(x: i32, z: i32) -> Coord {
    Coord { x, y: 0, z }
}

/// `w` is the field: its cells are the nine with `x` and `z` from 0 to 2 on
/// the ground level, and each costs `k`.
pub open spec fn is_square_field(w: Map<Coord, MoveCost>, k: u16) -> bool {
    &&& forall|c: Coord| #[trigger] w.contains_key(c) <==> (c.y == 0 && 0 <= c.x <= 2 && 0 <= c.z <= 2)
    &&& forall|c: Coord| #[trigger] w.contains_key(c) ==> w[c] == MoveCost(k)
}

/// The square of the distance between two cells of one level.
proof fn lemma_level_distance(a: Coord, b: Coord, dx: int, dz: int)
    requires
        a.y == b.y,
        a.x - b.x == dx,
        a.z - b.z == dz,
    ensures
        dist_squared(a, b) == dx * dx + dz * dz,
{
    assert((a.x - b.x) * (a.x - b.x) == dx * dx) by (nonlinear_arith)
        requires
            a.x - b.x == dx,
    ;
    assert((a.z - b.z) * (a.z - b.z) == dz * dz) by (nonlinear_arith)
        requires
            a.z - b.z == dz,
    ;
    assert((a.y - b.y) * (a.y - b.y) == 0) by (nonlinear_arith)
        requires
            a.y - b.y == 0,
    ;
    assert(dx * dx + dz * dz >= 0) by (nonlinear_arith);
}

/// The estimates from the cells of the field to the cell at 2 and 0.
proof fn lemma_estimates()
    ensures
        estimate(ground(1, 0), ground(2, 0)) == 846,
        estimate(ground(2, 1), ground(2, 0)) == 846,
        estimate(ground(1, 1), ground(2, 0)) == 1196,
        estimate(ground(0, 0), ground(2, 0)) == 1692,
        estimate(ground(2, 2), ground(2, 0)) == 1692,
        estimate(ground(0, 1), ground(2, 0)) == 1891,
        estimate(ground(1, 2), ground(2, 0)) == 1891,
        estimate(ground(0, 2), ground(2, 0)) == 2392,
        estimate(ground(2, 0), ground(2, 0)) == 0,
{
    assert(ESTIMATE_SQUARE == 715716);
    lemma_level_distance(ground(1, 0), ground(2, 0), -1, 0);
    lemma_level_distance(ground(2, 1), ground(2, 0), 0, 1);
    lemma_level_distance(ground(1, 1), ground(2, 0), -1, 1);
    lemma_level_distance(ground(0, 0), ground(2, 0), -2, 0);
    lemma_level_distance(ground(2, 2), ground(2, 0), 0, 2);
    lemma_level_distance(ground(0, 1), ground(2, 0), -2, 1);
    lemma_level_distance(ground(1, 2), ground(2, 0), -1, 2);
    lemma_level_distance(ground(0, 2), ground(2, 0), -2, 2);
    lemma_level_distance(ground(2, 0), ground(2, 0), 0, 0);
    assert(is_floor_sqrt(715716, 846)) by (nonlinear_arith);
    assert(is_floor_sqrt(1431432, 1196)) by (nonlinear_arith);
    assert(is_floor_sqrt(2862864, 1692)) by (nonlinear_arith);
    assert(is_floor_sqrt(3578580, 1891)) by (nonlinear_arith);
    assert(is_floor_sqrt(5725728, 2392)) by (nonlinear_arith);
    assert(is_floor_sqrt(0, 0)) by (nonlinear_arith);
    lemma_floor_sqrt_unique(715716, 846);
    lemma_floor_sqrt_unique(1431432, 1196);
    lemma_floor_sqrt_unique(2862864, 1692);
    lemma_floor_sqrt_unique(3578580, 1891);
    lemma_floor_sqrt_unique(5725728, 2392);
    lemma_floor_sqrt_unique(0, 0);
}

/// What the steps of the field cost.
proof fn lemma_step_costs(k: u16)
    ensures
        step_cost(MoveCost(k), MoveCost(k), false) == 282 * k,
        step_cost(MoveCost(k), MoveCost(k), true) == 400 * k,
{
    assert(step_factor(false) == 141);
    assert(step_factor(true) == 200);
    assert((k + k) * 141 == 282 * k) by (nonlinear_arith);
    assert((k + k) * 200 == 400 * k) by (nonlinear_arith);
}

/// What a step in direction `d` costs in the field.
pub open spec fn field_step(k: u16, d: int) -> int {
    if d >= 4 {
        400 * k
    } else {
        282 * k
    }
}

/// A cell that joins the waiting cells waits with them.
proof fn lemma_joined(open: Seq<Coord>, cells: Set<Coord>, n: Coord)
    requires
        waits(open, cells),
    ensures
        waits(
            if open.contains(n) {
                open
            } else {
                open.push(n)
            },
            cells.insert(n),
        ),
{
    if !open.contains(n) {
        let t = open.push(n);
        assert forall|x: Coord| t.contains(x) <==> cells.insert(n).contains(x) by {
            if t.contains(x) {
                let i = choose|i: int| 0 <= i < t.len() && t[i] == x;
                if i < open.len() {
                    assert(open[i] == x);
                }
            }
            if open.contains(x) {
                let i = choose|i: int| 0 <= i < open.len() && open[i] == x;
                assert(t[i] == x);
            }
            if x == n {
                assert(t[open.len() as int] == x);
            }
        }
        assert forall|i: int, j: int| 0 <= i < t.len() && 0 <= j < t.len() && i != j implies t[i] != t[j] by {
            if i < open.len() {
                assert(open.contains(t[i]));
            }
            if j < open.len() {
                assert(open.contains(t[j]));
            }
        }
    } else {
        assert(cells.insert(n) =~= cells);
    }
}

/// Whether looking from `c` in direction `d` reaches a cell more cheaply
/// than before, or for the first time.
pub open spec fn reaches(w: Map<Coord, MoveCost>, k: u16, s: Search, c: Coord, d: int) -> bool {
    match c.spec_neighbor(d) {
        Some(n) => w.contains_key(n) && (!s.g.contains_key(n) || s.g[c] + field_step(k, d) < s.g[n]),
        None => false,
    }
}

/// What looking in one direction does in the field.
proof fn lemma_look(w: Map<Coord, MoveCost>, k: u16, s: Search, c: Coord, d: int, cells: Set<Coord>)
    requires
        is_square_field(w, k),
        1 <= k < 65535,
        w.contains_key(c),
        0 <= d < 8,
        waits(s.open, cells),
    ensures
        reaches(w, k, s, c, d) ==> {
            let n = c.spec_neighbor(d).unwrap();
            let r = relax(w, ground(2, 0), s, c, d);
            &&& r.g == s.g.insert(n, (s.g[c] + field_step(k, d)) as u64)
            &&& r.f == s.f.insert(n, (s.g[c] + field_step(k, d) + estimate(n, ground(2, 0))) as u64)
            &&& r.from == s.from.insert(n, c)
            &&& r.checked == s.checked
            &&& waits(r.open, cells.insert(n))
        },
        !reaches(w, k, s, c, d) ==> relax(w, ground(2, 0), s, c, d) == s,
{
    lemma_step_costs(k);
    match c.spec_neighbor(d) {
        Some(n) => {
            assert(w[c] == MoveCost(k));
            if w.contains_key(n) {
                assert(w[n] == MoveCost(k));
                assert(passable(w, n));
            }
            lemma_joined(s.open, cells, n);
        },
        None => {},
    }
}

/// What it costs to reach each cell that the search has found when it has
/// expanded `n` cells.
pub open spec fn costs_after(n: int, k: u16) -> Map<Coord, u64>
    decreases n,
{
    if n <= 0 {
        Map::empty().insert(ground(0, 0), 0u64)
    } else if n == 1 {
        costs_after(0, k).insert(ground(0, 1), (282 * k) as u64).insert(ground(1, 0), (282 * k) as u64).insert(
            ground(1, 1),
            (400 * k) as u64,
        )
    } else if n == 2 {
        costs_after(1, k).insert(ground(2, 0), (564 * k) as u64).insert(ground(2, 1), (682 * k) as u64)
    } else if n == 3 {
        costs_after(2, k).insert(ground(0, 2), (564 * k) as u64).insert(ground(1, 2), (682 * k) as u64)
    } else {
        costs_after(3, k).insert(ground(2, 2), (800 * k) as u64)
    }
}

/// The score of each cell that the search has found when it has expanded
/// `n` cells.
pub open spec fn scores_after(n: int, k: u16) -> Map<Coord, u64>
    decreases n,
{
    if n <= 0 {
        Map::empty().insert(ground(0, 0), 0u64)
    } else if n == 1 {
        scores_after(0, k).insert(ground(0, 1), (282 * k + 1891) as u64).insert(
            ground(1, 0),
            (282 * k + 846) as u64,
        ).insert(ground(1, 1), (400 * k + 1196) as u64)
    } else if n == 2 {
        scores_after(1, k).insert(ground(2, 0), (564 * k) as u64).insert(ground(2, 1), (682 * k + 846) as u64)
    } else if n == 3 {
        scores_after(2, k).insert(ground(0, 2), (564 * k + 2392) as u64).insert(
            ground(1, 2),
            (682 * k + 1891) as u64,
        )
    } else {
        scores_after(3, k).insert(ground(2, 2), (800 * k + 1692) as u64)
    }
}

/// The links of the search when it has expanded `n` cells.
pub open spec fn links_after(n: int) -> Map<Coord, Coord>
    decreases n,
{
    if n <= 0 {
        Map::empty()
    } else if n == 1 {
        links_after(0).insert(ground(0, 1), ground(0, 0)).insert(ground(1, 0), ground(0, 0)).insert(
            ground(1, 1),
            ground(0, 0),
        )
    } else if n == 2 {
        links_after(1).insert(ground(2, 0), ground(1, 0)).insert(ground(2, 1), ground(1, 0))
    } else if n == 3 {
        links_after(2).insert(ground(0, 2), ground(0, 1)).insert(ground(1, 2), ground(0, 1))
    } else {
        links_after(3).insert(ground(2, 2), ground(1, 1))
    }
}

/// What the search knows when it has looked around from the cell that it
/// expands as number 1.
proof fn lemma_expand_1(w: Map<Coord, MoveCost>, k: u16, t: Search)
    requires
        is_square_field(w, k),
        1 <= k < 65535,
        t.g == costs_after(0, k),
        t.f == scores_after(0, k),
        t.from == links_after(0),
        waits(t.open, Set::<Coord>::empty()),
    ensures
        spread(w, ground(2, 0), t, ground(0, 0)).g == costs_after(1, k),
        spread(w, ground(2, 0), t, ground(0, 0)).f == scores_after(1, k),
        spread(w, ground(2, 0), t, ground(0, 0)).from == links_after(1),
        spread(w, ground(2, 0), t, ground(0, 0)).checked == t.checked,
        waits(spread(w, ground(2, 0), t, ground(0, 0)).open, Set::<Coord>::empty().insert(ground(0, 1)).insert(ground(1, 0)).insert(ground(1, 1))),
{
    reveal_with_fuel(relax_upto, 9);
    reveal_with_fuel(costs_after, 5);
    reveal_with_fuel(scores_after, 5);
    reveal_with_fuel(links_after, 5);
    lemma_estimates();
    let goal = ground(2, 0);
    let c = ground(0, 0);
    assert(c.y == 0);
    assert(w.contains_key(c));
    assert(passable(w, c));
    let e0 = t;
    let c0 = Set::<Coord>::empty();
    lemma_look(w, k, e0, c, 0, c0);
    let e1 = relax(w, goal, e0, c, 0);
    let c1 = if reaches(w, k, e0, c, 0) {
        c0.insert(c.spec_neighbor(0).unwrap())
    } else {
        c0
    };
    lemma_look(w, k, e1, c, 1, c1);
    let e2 = relax(w, goal, e1, c, 1);
    let c2 = if reaches(w, k, e1, c, 1) {
        c1.insert(c.spec_neighbor(1).unwrap())
    } else {
        c1
    };
    lemma_look(w, k, e2, c, 2, c2);
    let e3 = relax(w, goal, e2, c, 2);
    let c3 = if reaches(w, k, e2, c, 2) {
        c2.insert(c.spec_neighbor(2).unwrap())
    } else {
        c2
    };
    lemma_look(w, k, e3, c, 3, c3);
    let e4 = relax(w, goal, e3, c, 3);
    let c4 = if reaches(w, k, e3, c, 3) {
        c3.insert(c.spec_neighbor(3).unwrap())
    } else {
        c3
    };
    lemma_look(w, k, e4, c, 4, c4);
    let e5 = relax(w, goal, e4, c, 4);
    let c5 = if reaches(w, k, e4, c, 4) {
        c4.insert(c.spec_neighbor(4).unwrap())
    } else {
        c4
    };
    lemma_look(w, k, e5, c, 5, c5);
    let e6 = relax(w, goal, e5, c, 5);
    let c6 = if reaches(w, k, e5, c, 5) {
        c5.insert(c.spec_neighbor(5).unwrap())
    } else {
        c5
    };
    lemma_look(w, k, e6, c, 6, c6);
    let e7 = relax(w, goal, e6, c, 6);
    let c7 = if reaches(w, k, e6, c, 6) {
        c6.insert(c.spec_neighbor(6).unwrap())
    } else {
        c6
    };
    lemma_look(w, k, e7, c, 7, c7);
    let e8 = relax(w, goal, e7, c, 7);
    let c8 = if reaches(w, k, e7, c, 7) {
        c7.insert(c.spec_neighbor(7).unwrap())
    } else {
        c7
    };
    let e = spread(w, goal, t, c);
    assert(e == e8);
    assert(e.g =~= costs_after(1, k));
    assert(e.f =~= scores_after(1, k));
    assert(e.from =~= links_after(1));
    assert(c8 =~= Set::<Coord>::empty().insert(ground(0, 1)).insert(ground(1, 0)).insert(ground(1, 1)));
}

/// What the search knows when it has looked around from the cell that it
/// expands as number 2.
proof fn lemma_expand_2(w: Map<Coord, MoveCost>, k: u16, t: Search)
    requires
        is_square_field(w, k),
        1 <= k < 65535,
        t.g == costs_after(1, k),
        t.f == scores_after(1, k),
        t.from == links_after(1),
        waits(t.open, Set::<Coord>::empty().insert(ground(0, 1)).insert(ground(1, 1))),
    ensures
        spread(w, ground(2, 0), t, ground(1, 0)).g == costs_after(2, k),
        spread(w, ground(2, 0), t, ground(1, 0)).f == scores_after(2, k),
        spread(w, ground(2, 0), t, ground(1, 0)).from == links_after(2),
        spread(w, ground(2, 0), t, ground(1, 0)).checked == t.checked,
        waits(spread(w, ground(2, 0), t, ground(1, 0)).open, Set::<Coord>::empty().insert(ground(0, 1)).insert(ground(1, 1)).insert(ground(2, 0)).insert(ground(2, 1))),
{
    reveal_with_fuel(relax_upto, 9);
    reveal_with_fuel(costs_after, 5);
    reveal_with_fuel(scores_after, 5);
    reveal_with_fuel(links_after, 5);
    lemma_estimates();
    let goal = ground(2, 0);
    let c = ground(1, 0);
    assert(c.y == 0);
    assert(w.contains_key(c));
    assert(passable(w, c));
    let e0 = t;
    let c0 = Set::<Coord>::empty().insert(ground(0, 1)).insert(ground(1, 1));
    lemma_look(w, k, e0, c, 0, c0);
    let e1 = relax(w, goal, e0, c, 0);
    let c1 = if reaches(w, k, e0, c, 0) {
        c0.insert(c.spec_neighbor(0).unwrap())
    } else {
        c0
    };
    lemma_look(w, k, e1, c, 1, c1);
    let e2 = relax(w, goal, e1, c, 1);
    let c2 = if reaches(w, k, e1, c, 1) {
        c1.insert(c.spec_neighbor(1).unwrap())
    } else {
        c1
    };
    lemma_look(w, k, e2, c, 2, c2);
    let e3 = relax(w, goal, e2, c, 2);
    let c3 = if reaches(w, k, e2, c, 2) {
        c2.insert(c.spec_neighbor(2).unwrap())
    } else {
        c2
    };
    lemma_look(w, k, e3, c, 3, c3);
    let e4 = relax(w, goal, e3, c, 3);
    let c4 = if reaches(w, k, e3, c, 3) {
        c3.insert(c.spec_neighbor(3).unwrap())
    } else {
        c3
    };
    lemma_look(w, k, e4, c, 4, c4);
    let e5 = relax(w, goal, e4, c, 4);
    let c5 = if reaches(w, k, e4, c, 4) {
        c4.insert(c.spec_neighbor(4).unwrap())
    } else {
        c4
    };
    lemma_look(w, k, e5, c, 5, c5);
    let e6 = relax(w, goal, e5, c, 5);
    let c6 = if reaches(w, k, e5, c, 5) {
        c5.insert(c.spec_neighbor(5).unwrap())
    } else {
        c5
    };
    lemma_look(w, k, e6, c, 6, c6);
    let e7 = relax(w, goal, e6, c, 6);
    let c7 = if reaches(w, k, e6, c, 6) {
        c6.insert(c.spec_neighbor(6).unwrap())
    } else {
        c6
    };
    lemma_look(w, k, e7, c, 7, c7);
    let e8 = relax(w, goal, e7, c, 7);
    let c8 = if reaches(w, k, e7, c, 7) {
        c7.insert(c.spec_neighbor(7).unwrap())
    } else {
        c7
    };
    let e = spread(w, goal, t, c);
    assert(e == e8);
    assert(e.g =~= costs_after(2, k));
    assert(e.f =~= scores_after(2, k));
    assert(e.from =~= links_after(2));
    assert(c8 =~= Set::<Coord>::empty().insert(ground(0, 1)).insert(ground(1, 1)).insert(ground(2, 0)).insert(ground(2, 1)));
}

/// What the search knows when it has looked around from the cell that it
/// expands as number 3.
proof fn lemma_expand_3(w: Map<Coord, MoveCost>, k: u16, t: Search)
    requires
        is_square_field(w, k),
        1 <= k < 65535,
        t.g == costs_after(2, k),
        t.f == scores_after(2, k),
        t.from == links_after(2),
        waits(t.open, Set::<Coord>::empty().insert(ground(1, 1)).insert(ground(2, 0)).insert(ground(2, 1))),
    ensures
        spread(w, ground(2, 0), t, ground(0, 1)).g == costs_after(3, k),
        spread(w, ground(2, 0), t, ground(0, 1)).f == scores_after(3, k),
        spread(w, ground(2, 0), t, ground(0, 1)).from == links_after(3),
        spread(w, ground(2, 0), t, ground(0, 1)).checked == t.checked,
        waits(spread(w, ground(2, 0), t, ground(0, 1)).open, Set::<Coord>::empty().insert(ground(1, 1)).insert(ground(2, 0)).insert(ground(2, 1)).insert(ground(0, 2)).insert(ground(1, 2))),
{
    reveal_with_fuel(relax_upto, 9);
    reveal_with_fuel(costs_after, 5);
    reveal_with_fuel(scores_after, 5);
    reveal_with_fuel(links_after, 5);
    lemma_estimates();
    let goal = ground(2, 0);
    let c = ground(0, 1);
    assert(c.y == 0);
    assert(w.contains_key(c));
    assert(passable(w, c));
    let e0 = t;
    let c0 = Set::<Coord>::empty().insert(ground(1, 1)).insert(ground(2, 0)).insert(ground(2, 1));
    lemma_look(w, k, e0, c, 0, c0);
    let e1 = relax(w, goal, e0, c, 0);
    let c1 = if reaches(w, k, e0, c, 0) {
        c0.insert(c.spec_neighbor(0).unwrap())
    } else {
        c0
    };
    lemma_look(w, k, e1, c, 1, c1);
    let e2 = relax(w, goal, e1, c, 1);
    let c2 = if reaches(w, k, e1, c, 1) {
        c1.insert(c.spec_neighbor(1).unwrap())
    } else {
        c1
    };
    lemma_look(w, k, e2, c, 2, c2);
    let e3 = relax(w, goal, e2, c, 2);
    let c3 = if reaches(w, k, e2, c, 2) {
        c2.insert(c.spec_neighbor(2).unwrap())
    } else {
        c2
    };
    lemma_look(w, k, e3, c, 3, c3);
    let e4 = relax(w, goal, e3, c, 3);
    let c4 = if reaches(w, k, e3, c, 3) {
        c3.insert(c.spec_neighbor(3).unwrap())
    } else {
        c3
    };
    lemma_look(w, k, e4, c, 4, c4);
    let e5 = relax(w, goal, e4, c, 4);
    let c5 = if reaches(w, k, e4, c, 4) {
        c4.insert(c.spec_neighbor(4).unwrap())
    } else {
        c4
    };
    lemma_look(w, k, e5, c, 5, c5);
    let e6 = relax(w, goal, e5, c, 5);
    let c6 = if reaches(w, k, e5, c, 5) {
        c5.insert(c.spec_neighbor(5).unwrap())
    } else {
        c5
    };
    lemma_look(w, k, e6, c, 6, c6);
    let e7 = relax(w, goal, e6, c, 6);
    let c7 = if reaches(w, k, e6, c, 6) {
        c6.insert(c.spec_neighbor(6).unwrap())
    } else {
        c6
    };
    lemma_look(w, k, e7, c, 7, c7);
    let e8 = relax(w, goal, e7, c, 7);
    let c8 = if reaches(w, k, e7, c, 7) {
        c7.insert(c.spec_neighbor(7).unwrap())
    } else {
        c7
    };
    let e = spread(w, goal, t, c);
    assert(e == e8);
    assert(e.g =~= costs_after(3, k));
    assert(e.f =~= scores_after(3, k));
    assert(e.from =~= links_after(3));
    assert(c8 =~= Set::<Coord>::empty().insert(ground(1, 1)).insert(ground(2, 0)).insert(ground(2, 1)).insert(ground(0, 2)).insert(ground(1, 2)));
}

/// What the search knows when it has looked around from the cell that it
/// expands as number 4.
proof fn lemma_expand_4(w: Map<Coord, MoveCost>, k: u16, t: Search)
    requires
        is_square_field(w, k),
        1 <= k < 65535,
        t.g == costs_after(3, k),
        t.f == scores_after(3, k),
        t.from == links_after(3),
        waits(t.open, Set::<Coord>::empty().insert(ground(2, 0)).insert(ground(2, 1)).insert(ground(0, 2)).insert(ground(1, 2))),
    ensures
        spread(w, ground(2, 0), t, ground(1, 1)).g == costs_after(4, k),
        spread(w, ground(2, 0), t, ground(1, 1)).f == scores_after(4, k),
        spread(w, ground(2, 0), t, ground(1, 1)).from == links_after(4),
        spread(w, ground(2, 0), t, ground(1, 1)).checked == t.checked,
        waits(spread(w, ground(2, 0), t, ground(1, 1)).open, Set::<Coord>::empty().insert(ground(2, 0)).insert(ground(2, 1)).insert(ground(0, 2)).insert(ground(1, 2)).insert(ground(2, 2))),
{
    reveal_with_fuel(relax_upto, 9);
    reveal_with_fuel(costs_after, 5);
    reveal_with_fuel(scores_after, 5);
    reveal_with_fuel(links_after, 5);
    lemma_estimates();
    let goal = ground(2, 0);
    let c = ground(1, 1);
    assert(c.y == 0);
    assert(w.contains_key(c));
    assert(passable(w, c));
    let e0 = t;
    let c0 = Set::<Coord>::empty().insert(ground(2, 0)).insert(ground(2, 1)).insert(ground(0, 2)).insert(ground(1, 2));
    lemma_look(w, k, e0, c, 0, c0);
    let e1 = relax(w, goal, e0, c, 0);
    let c1 = if reaches(w, k, e0, c, 0) {
        c0.insert(c.spec_neighbor(0).unwrap())
    } else {
        c0
    };
    lemma_look(w, k, e1, c, 1, c1);
    let e2 = relax(w, goal, e1, c, 1);
    let c2 = if reaches(w, k, e1, c, 1) {
        c1.insert(c.spec_neighbor(1).unwrap())
    } else {
        c1
    };
    lemma_look(w, k, e2, c, 2, c2);
    let e3 = relax(w, goal, e2, c, 2);
    let c3 = if reaches(w, k, e2, c, 2) {
        c2.insert(c.spec_neighbor(2).unwrap())
    } else {
        c2
    };
    lemma_look(w, k, e3, c, 3, c3);
    let e4 = relax(w, goal, e3, c, 3);
    let c4 = if reaches(w, k, e3, c, 3) {
        c3.insert(c.spec_neighbor(3).unwrap())
    } else {
        c3
    };
    lemma_look(w, k, e4, c, 4, c4);
    let e5 = relax(w, goal, e4, c, 4);
    let c5 = if reaches(w, k, e4, c, 4) {
        c4.insert(c.spec_neighbor(4).unwrap())
    } else {
        c4
    };
    lemma_look(w, k, e5, c, 5, c5);
    let e6 = relax(w, goal, e5, c, 5);
    let c6 = if reaches(w, k, e5, c, 5) {
        c5.insert(c.spec_neighbor(5).unwrap())
    } else {
        c5
    };
    lemma_look(w, k, e6, c, 6, c6);
    let e7 = relax(w, goal, e6, c, 6);
    let c7 = if reaches(w, k, e6, c, 6) {
        c6.insert(c.spec_neighbor(6).unwrap())
    } else {
        c6
    };
    lemma_look(w, k, e7, c, 7, c7);
    let e8 = relax(w, goal, e7, c, 7);
    let c8 = if reaches(w, k, e7, c, 7) {
        c7.insert(c.spec_neighbor(7).unwrap())
    } else {
        c7
    };
    let e = spread(w, goal, t, c);
    assert(e == e8);
    assert(e.g =~= costs_after(4, k));
    assert(e.f =~= scores_after(4, k));
    assert(e.from =~= links_after(4));
    assert(c8 =~= Set::<Coord>::empty().insert(ground(2, 0)).insert(ground(2, 1)).insert(ground(0, 2)).insert(ground(1, 2)).insert(ground(2, 2)));
}

/// The straight way from the corner to the next corner.
pub open spec fn straight_way() -> Seq<Coord> {
    seq![ground(0, 0), ground(1, 0), ground(2, 0)]
}

/// Once the search has expanded two cells, its links give the straight way
/// for the goal.
proof fn lemma_links_give_the_straight_way(n: int)
    requires
        2 <= n <= 4,
    ensures
        links_path(links_after(n), ground(2, 0)) == straight_way(),
{
    reveal_with_fuel(links_after, 5);
    let p = straight_way();
    let from = links_after(n);
    assert(p[0] == ground(0, 0) && p[1] == ground(1, 0) && p[2] == ground(2, 0));
    assert(!from.contains_key(ground(0, 0)));
    assert(from.contains_key(ground(1, 0)) && from[ground(1, 0)] == ground(0, 0));
    assert(from.contains_key(ground(2, 0)) && from[ground(2, 0)] == ground(1, 0));
    assert(follows_links(from, p));
    lemma_is_links_path(from, p);
}

/// Across a square field of three by three cells that all cost the same,
/// whatever that is, the search from one corner to the next finds the
/// straight way: three waypoints, all of them cells of the field.
pub proof fn lemma_three_waypoints_across_square_field(w: Map<Coord, MoveCost>, k: u16)
    requires
        is_square_field(w, k),
        1 <= k < 65535,
    ensures
        found_path(search(w, ground(0, 0), ground(2, 0), SEARCH_BUDGET)) == Some(straight_way()),
        straight_way().len() == 3,
        forall|i: int| 0 <= i < 3 ==> w.contains_key(#[trigger] straight_way()[i]),
{
    reveal_with_fuel(costs_after, 5);
    reveal_with_fuel(scores_after, 5);
    reveal_with_fuel(links_after, 5);
    let start = ground(0, 0);
    let goal = ground(2, 0);
    assert(goal.y == 0 && start.y == 0 && ground(1, 0).y == 0);
    assert(w.contains_key(goal) && w.contains_key(start) && w.contains_key(ground(1, 0)));
    assert(w[goal] == MoveCost(k));
    assert(!goal_refused(w, goal));
    let left: nat = SEARCH_BUDGET as nat;
    let total = run(w, goal, begun(start), left);
    assert(search(w, start, goal, SEARCH_BUDGET) == total);

    let s0 = begun(start);
    let cells0 = Set::<Coord>::empty().insert(ground(0, 0));
    assert(s0.open[0] == start);
    assert(waits(s0.open, cells0));
    lemma_lowest_is_picked(s0, cells0, start);
    assert(cells0.remove(start) =~= Set::<Coord>::empty());
    lemma_expand_1(w, k, taken(s0));
    let s1 = expanded(w, goal, s0);
    assert(s0.open.len() > 0);
    assert(total == run(w, goal, s1, (left - 1) as nat));

    let cells1 = Set::<Coord>::empty().insert(ground(0, 1)).insert(ground(1, 0)).insert(ground(1, 1));
    lemma_lowest_is_picked(s1, cells1, ground(1, 0));
    assert(cells1.remove(ground(1, 0)) =~= Set::<Coord>::empty().insert(ground(0, 1)).insert(ground(1, 1)));
    lemma_expand_2(w, k, taken(s1));
    let s2 = expanded(w, goal, s1);
    assert(s1.open.contains(ground(1, 0)));
    assert(s1.open.len() > 0);
    assert(total == run(w, goal, s2, (left - 2) as nat));

    let cells2 = Set::<Coord>::empty().insert(ground(0, 1)).insert(ground(1, 1)).insert(ground(2, 0)).insert(ground(2, 1));
    assert(s2.open.contains(goal));
    assert(s2.open.len() > 0);
    if k <= 6 {
        lemma_lowest_is_picked(s2, cells2, goal);
        lemma_links_give_the_straight_way(2);
    } else {
        lemma_lowest_is_picked(s2, cells2, ground(0, 1));
        assert(cells2.remove(ground(0, 1)) =~= Set::<Coord>::empty().insert(ground(1, 1)).insert(ground(2, 0)).insert(ground(2, 1)));
        lemma_expand_3(w, k, taken(s2));
        let s3 = expanded(w, goal, s2);
        assert(total == run(w, goal, s3, (left - 3) as nat));
        let cells3 = Set::<Coord>::empty().insert(ground(1, 1)).insert(ground(2, 0)).insert(ground(2, 1)).insert(ground(0, 2)).insert(ground(1, 2));
        assert(s3.open.contains(goal));
        assert(s3.open.len() > 0);
        if k == 7 {
            lemma_lowest_is_picked(s3, cells3, goal);
            lemma_links_give_the_straight_way(3);
        } else {
            lemma_lowest_is_picked(s3, cells3, ground(1, 1));
            assert(cells3.remove(ground(1, 1)) =~= Set::<Coord>::empty().insert(ground(2, 0)).insert(ground(2, 1)).insert(ground(0, 2)).insert(ground(1, 2)));
            lemma_expand_4(w, k, taken(s3));
            let s4 = expanded(w, goal, s3);
            assert(total == run(w, goal, s4, (left - 4) as nat));
            let cells4 = Set::<Coord>::empty().insert(ground(2, 0)).insert(ground(2, 1)).insert(ground(0, 2)).insert(ground(1, 2)).insert(ground(2, 2));
            assert(s4.open.contains(goal));
            assert(s4.open.len() > 0);
            lemma_lowest_is_picked(s4, cells4, goal);
            lemma_links_give_the_straight_way(4);
        }
    }
}

} // verus!
