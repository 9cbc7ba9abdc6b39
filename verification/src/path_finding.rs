//! The search for a path over the grid.
//!
//! The search is a best-first search over the eight neighbours of each cell.
//! A step costs the summed costs of the two cells it joins, halved for a
//! straight step and divided by 1.41 for a diagonal one. Cells are expanded
//! in the order of what it cost to reach them plus three times the straight
//! line distance that remains. That estimate overshoots, so the search is
//! quick and the path it finds need not be the cheapest.
//!
//! [`search`] says how a search ends, as a function of the grid, the start,
//! the goal and the budget. Of several waiting cells of the same lowest
//! score the one is taken that stands last after a stable sort of the
//! waiting cells, so the same search always ends the same way.

use vstd::prelude::*;
use crate::coord::{
    dir_diagonal, estimate, is_diagonal_step, is_step, lemma_neighbor_is_step, lemma_step_has_direction, step_factor,
    Coord,
};
use crate::grid_index::{CellIdToEntity, CostField};
use crate::open_set::{
    is_sorted_waiting, lemma_last_has_lowest_score, lemma_sort_exists, lemma_sorted_holds_the_same,
    lemma_sorted_is_the_sort, lemma_without_last, open_insert, open_is_empty, open_last, open_new, open_set_order,
    open_shift_remove, open_sort_by_score, other_than, score_of, sorted_waiting, without,
};
use crate::tables::{lookup, CoordMap, CoordSet, LinkMap};

verus! {

/// What it costs to cross a cell. The largest value stands for a cell that
/// cannot be crossed at all.
#[derive(Clone, Copy, Debug, PartialEq, Eq, Structural)]
pub struct MoveCost(pub u16);

/// The cost that stands for "cannot be crossed".
pub const INFINITE_COST: u16 = 0xffff;

impl MoveCost {
    /// The cost of a cell that cannot be crossed.
    pub fn infinite() -> (c: MoveCost)
        ensures
            c == MoveCost(INFINITE_COST),
            c.spec_is_infinite(),
    {
        MoveCost(INFINITE_COST)
    }

    pub open spec fn spec_is_infinite(self) -> bool {
        self.0 == INFINITE_COST
    }

    /// Whether the cell cannot be crossed.
    pub fn is_infinite(self) -> (b: bool)
        ensures
            b == self.spec_is_infinite(),
    {
        self.0 == INFINITE_COST
    }
}

impl Default for MoveCost {
    fn default() -> (c: MoveCost)
        ensures
            c == MoveCost(10),
    {
        MoveCost(10)
    }
}

/// The cost of each cell of the grid by its coordinate: the cells are those
/// that the index knows, and a cell without a recorded cost cannot be
/// crossed.
pub open spec fn cost_map(ids: Map<Coord, u64>, costs: Map<u64, MoveCost>) -> Map<Coord, MoveCost> {
    Map::new(
        |c: Coord| ids.contains_key(c),
        |c: Coord|
            if costs.contains_key(ids[c]) {
                costs[ids[c]]
            } else {
                MoveCost(INFINITE_COST)
            },
    )
}

/// `c` is a cell of the grid that can be crossed.
pub open spec fn passable(w: Map<Coord, MoveCost>, c: Coord) -> bool {
    w.contains_key(c) && !w[c].spec_is_infinite()
}

/// `goal` is a cell of the grid that cannot be crossed: no search is made
/// for such a goal.
pub open spec fn goal_refused(w: Map<Coord, MoveCost>, goal: Coord) -> bool {
    w.contains_key(goal) && w[goal].spec_is_infinite()
}

/// One can step from `a` to `b`: they are neighbours and both can be
/// crossed.
pub open spec fn crossing(w: Map<Coord, MoveCost>, a: Coord, b: Coord) -> bool {
    is_step(a, b) && passable(w, a) && passable(w, b)
}

/// What a step between cells of costs `a` and `b` costs, in score units.
pub open spec fn step_cost(a: MoveCost, b: MoveCost, diagonal: bool) -> int {
    (a.0 + b.0) * step_factor(diagonal)
}

/// `p` leads from `start` to `goal`, each step a crossing.
pub open spec fn is_path(w: Map<Coord, MoveCost>, p: Seq<Coord>, start: Coord, goal: Coord) -> bool {
    &&& p.len() > 0
    &&& p[0] == start
    &&& p.last() == goal
    &&& forall|i: int| 0 <= i < p.len() - 1 ==> crossing(w, #[trigger] p[i], p[i + 1])
}

/// Some path leads from `start` to `goal`.
pub open spec fn reachable(w: Map<Coord, MoveCost>, start: Coord, goal: Coord) -> bool {
    exists|p: Seq<Coord>| is_path(w, p, start, goal)
}

/// What the steps of `p` cost together, in score units.
pub open spec fn path_cost(w: Map<Coord, MoveCost>, p: Seq<Coord>) -> int
    decreases p.len(),
{
    if p.len() <= 1 {
        0
    } else {
        path_cost(w, p.drop_last()) + step_cost(
            w[p[p.len() - 2]],
            w[p.last()],
            is_diagonal_step(p[p.len() - 2], p.last()),
        )
    }
}

/// The cost of the cell at `c`, if the grid has a cell there.
pub fn cost_of(cells: &CostField, index: &CellIdToEntity, c: Coord) -> (cost: Option<MoveCost>)
    ensures
        cost == lookup(cost_map(index.ids(), cells@), c),
{
    match index.get_by_id(&c) {
        None => None,
        Some(id) => match cells.get(id) {
            Some(k) => Some(k),
            None => Some(MoveCost::infinite()),
        },
    }
}

/// No step costs more than this: a diagonal step between two cells of the
/// highest cost.
pub const MAX_EDGE: u64 = 26_214_000;

/// What a step between cells of costs `a` and `b` costs, in score units.
pub fn edge(a: MoveCost, b: MoveCost, diagonal: bool) -> (e: u64)
    ensures
        e == step_cost(a, b, diagonal),
        e <= MAX_EDGE,
{
    let sum: u64 = a.0 as u64 + b.0 as u64;
    if diagonal {
        sum * 200
    } else {
        sum * 141
    }
}

/// What a search has found out at one moment.
pub struct Search {
    /// The cells that wait to be expanded, as they stand.
    pub open: Seq<Coord>,
    /// What it costs to reach each cell found so far, in score units.
    pub g: Map<Coord, u64>,
    /// The score by which each cell found so far waits: what it costs to
    /// reach it plus the estimate of what remains.
    pub f: Map<Coord, u64>,
    /// The cell from which each cell was reached.
    pub from: Map<Coord, Coord>,
    /// The cells taken from the waiting ones so far.
    pub checked: Set<Coord>,
}

/// A search from `start` before any cell is expanded: `start` waits, at no
/// cost and with the score zero.
pub open spec fn begun(start: Coord) -> Search {
    Search {
        open: seq![start],
        g: Map::empty().insert(start, 0u64),
        f: Map::empty().insert(start, 0u64),
        from: Map::empty(),
        checked: Set::empty(),
    }
}

/// What a search knows after it has looked from `c` in direction `d`. A
/// neighbour there that can be crossed, and that is reached through `c`
/// more cheaply than before or for the first time, is linked to `c`, gets
/// the new cost, and as score the cost plus the estimate of what remains
/// to `goal`, and waits: at the end, unless it waits already.
pub open spec fn relax(w: Map<Coord, MoveCost>, goal: Coord, s: Search, c: Coord, d: int) -> Search {
    match c.spec_neighbor(d) {
        Some(n) => {
            let tentative = s.g[c] + step_cost(w[c], w[n], dir_diagonal(d));
            if passable(w, n) && (!s.g.contains_key(n) || tentative < s.g[n]) {
                Search {
                    open: if s.open.contains(n) {
                        s.open
                    } else {
                        s.open.push(n)
                    },
                    g: s.g.insert(n, tentative as u64),
                    f: s.f.insert(n, (tentative + estimate(n, goal)) as u64),
                    from: s.from.insert(n, c),
                    checked: s.checked,
                }
            } else {
                s
            }
        },
        None => s,
    }
}

/// What a search knows after it has looked from `c` in the first `d`
/// directions, one after the other.
pub open spec fn relax_upto(w: Map<Coord, MoveCost>, goal: Coord, s: Search, c: Coord, d: int) -> Search
    decreases d,
{
    if d <= 0 {
        s
    } else {
        relax(w, goal, relax_upto(w, goal, s, c, d - 1), c, d - 1)
    }
}

/// What a search knows after it has looked around from `c`: in all eight
/// directions if `c` can be crossed, and not at all if it cannot.
pub open spec fn spread(w: Map<Coord, MoveCost>, goal: Coord, s: Search, c: Coord) -> Search {
    if passable(w, c) {
        relax_upto(w, goal, s, c, 8)
    } else {
        s
    }
}

/// The cell that the search takes next: the one that stands last when the
/// waiting cells are sorted, which is one of the lowest score.
pub open spec fn picked(s: Search) -> Coord {
    sorted_waiting(s.open, s.f).last()
}

/// The cell that the search takes next waits, and no waiting cell has a
/// lower score.
pub proof fn lemma_picked_has_lowest_score(s: Search)
    requires
        s.open.no_duplicates(),
        s.open.len() > 0,
    ensures
        s.open.contains(picked(s)),
        forall|o: Coord| #[trigger] s.open.contains(o) ==> score_of(s.f, picked(s)) <= score_of(s.f, o),
{
    lemma_sort_exists(s.open, s.f);
    lemma_last_has_lowest_score(s.open, s.f, sorted_waiting(s.open, s.f));
}

/// What a search knows when it has taken the next cell: the waiting cells
/// stand sorted without it, and it is among the cells taken.
pub open spec fn taken(s: Search) -> Search {
    Search { open: without(sorted_waiting(s.open, s.f), picked(s)), checked: s.checked.insert(picked(s)), ..s }
}

/// The cells of `cells` wait in `open`, each once, and no others.
pub open spec fn waits(open: Seq<Coord>, cells: Set<Coord>) -> bool {
    &&& open.no_duplicates()
    &&& forall|x: Coord| #![trigger open.contains(x)] #![trigger cells.contains(x)]
        open.contains(x) <==> cells.contains(x)
}

/// Where one waiting cell has a lower score than every other, the search
/// takes that cell, and the others go on waiting.
pub proof fn lemma_lowest_is_picked(s: Search, cells: Set<Coord>, m: Coord)
    requires
        waits(s.open, cells),
        cells.contains(m),
        forall|o: Coord| #[trigger] cells.contains(o) && o != m ==> score_of(s.f, m) < score_of(s.f, o),
    ensures
        picked(s) == m,
        waits(taken(s).open, cells.remove(m)),
        taken(s).g == s.g,
        taken(s).f == s.f,
        taken(s).from == s.from,
        taken(s).checked == s.checked.insert(m),
{
    let sorted = sorted_waiting(s.open, s.f);
    assert(s.open.len() > 0) by {
        let i = choose|i: int| 0 <= i < s.open.len() && s.open[i] == m;
    }
    lemma_sort_exists(s.open, s.f);
    lemma_last_has_lowest_score(s.open, s.f, sorted);
    lemma_sorted_holds_the_same(s.open, s.f, sorted);
    assert(cells.contains(sorted.last()));
    assert(sorted.last() == m);
    lemma_without_last(sorted);
    let rest = sorted.drop_last();
    assert forall|x: Coord| rest.contains(x) <==> cells.remove(m).contains(x) by {
        if rest.contains(x) {
            let i = choose|i: int| 0 <= i < rest.len() && rest[i] == x;
            assert(sorted[i] == x);
            assert(sorted[i] != sorted[sorted.len() - 1]);
            assert(sorted.contains(x));
        }
        if cells.remove(m).contains(x) {
            assert(sorted.contains(x));
            let i = choose|i: int| 0 <= i < sorted.len() && sorted[i] == x;
            assert(rest[i] == x);
        }
    }
}

/// What a search knows after it has expanded the next cell: it has taken
/// the cell and looked around from it.
pub open spec fn expanded(w: Map<Coord, MoveCost>, goal: Coord, s: Search) -> Search {
    spread(w, goal, taken(s), picked(s))
}

/// `path` is what the links give: it begins at a cell without a link, and
/// each of its cells was reached from the one before it.
pub open spec fn follows_links(from: Map<Coord, Coord>, path: Seq<Coord>) -> bool {
    &&& path.len() > 0
    &&& !from.contains_key(path[0])
    &&& forall|i: int| 0 < i < path.len() ==> from.contains_key(#[trigger] path[i]) && from[path[i]] == path[i - 1]
}

/// The path that the links give for `goal`. There is only one: see
/// [`lemma_links_give_one_path`].
pub open spec fn links_path(from: Map<Coord, Coord>, goal: Coord) -> Seq<Coord> {
    choose|p: Seq<Coord>| follows_links(from, p) && p.last() == goal
}

/// How a search ends.
pub enum Outcome {
    /// The goal cannot be crossed; nothing was explored.
    Refused,
    /// The goal was the next cell to take: the path is what the links give
    /// for it, and the cells explored are those taken, the goal among them.
    Found { path: Seq<Coord>, explored: Set<Coord> },
    /// No cell waits any more.
    Dry,
    /// The budget is spent, and the next cell to take is not the goal.
    Spent,
}

/// How a search that knows `s` ends when it may expand `left` cells more.
/// Time after time it takes the waiting cell that stands last after the
/// sort, until that cell is the goal, no cell waits, or nothing is left of
/// the budget.
pub open spec fn run(w: Map<Coord, MoveCost>, goal: Coord, s: Search, left: nat) -> Outcome
    decreases left,
{
    if s.open.len() == 0 {
        Outcome::Dry
    } else if picked(s) == goal {
        Outcome::Found { path: links_path(s.from, goal), explored: s.checked.insert(goal) }
    } else if left == 0 {
        Outcome::Spent
    } else {
        run(w, goal, expanded(w, goal, s), (left - 1) as nat)
    }
}

/// How the search from `start` for `goal` ends when it may expand `budget`
/// cells.
pub open spec fn search(w: Map<Coord, MoveCost>, start: Coord, goal: Coord, budget: u32) -> Outcome {
    if goal_refused(w, goal) {
        Outcome::Refused
    } else {
        run(w, goal, begun(start), budget as nat)
    }
}

/// The path of a search that found one.
pub open spec fn found_path(o: Outcome) -> Option<Seq<Coord>> {
    match o {
        Outcome::Found { path, explored } => Some(path),
        _ => None,
    }
}

/// The links give the same cell at the same distance from the end of any
/// two paths that they give for one goal.
proof fn lemma_links_agree(from: Map<Coord, Coord>, p: Seq<Coord>, q: Seq<Coord>, i: int)
    requires
        follows_links(from, p),
        follows_links(from, q),
        p.last() == q.last(),
        0 <= i < p.len(),
        i < q.len(),
    ensures
        p[p.len() - 1 - i] == q[q.len() - 1 - i],
    decreases i,
{
    if i > 0 {
        lemma_links_agree(from, p, q, i - 1);
        let a = p.len() - i;
        let b = q.len() - i;
        assert(from.contains_key(p[a]) && from[p[a]] == p[a - 1]);
        assert(from.contains_key(q[b]) && from[q[b]] == q[b - 1]);
    }
}

/// The links give one path only for a goal.
pub proof fn lemma_links_give_one_path(from: Map<Coord, Coord>, p: Seq<Coord>, q: Seq<Coord>)
    requires
        follows_links(from, p),
        follows_links(from, q),
        p.last() == q.last(),
    ensures
        p == q,
{
    if p.len() < q.len() {
        lemma_links_agree(from, p, q, p.len() - 1);
        assert(from.contains_key(q[q.len() - p.len()]));
    } else if q.len() < p.len() {
        lemma_links_agree(from, p, q, q.len() - 1);
        assert(from.contains_key(p[p.len() - q.len()]));
    } else {
        assert forall|k: int| 0 <= k < p.len() implies p[k] == q[k] by {
            lemma_links_agree(from, p, q, p.len() - 1 - k);
        }
        assert(p =~= q);
    }
}

/// A path that the links give for a goal is the path of the links.
pub proof fn lemma_is_links_path(from: Map<Coord, Coord>, p: Seq<Coord>)
    requires
        follows_links(from, p),
    ensures
        p == links_path(from, p.last()),
{
    lemma_links_give_one_path(from, p, links_path(from, p.last()));
}

/// What the search knows at one moment, with what the proof of it needs.
struct Frontier {
    /// The cells that wait to be expanded, as they stand.
    pub open: Seq<Coord>,
    /// What it costs to reach each cell found so far.
    pub g: Map<Coord, u64>,
    /// The score by which each cell found so far waits.
    pub f: Map<Coord, u64>,
    /// The cell from which each cell was reached.
    pub from: Map<Coord, Coord>,
    /// The cells taken from the waiting ones so far.
    pub checked: Set<Coord>,
    /// When the cost of each cell was last set.
    pub stamp: Map<Coord, nat>,
    /// A time later than every stamp.
    pub clock: nat,
    /// How many cells have been expanded.
    pub steps: nat,
}

/// What the search has found out in state `s`.
spec fn known(s: Frontier) -> Search {
    Search { open: s.open, g: s.g, f: s.f, from: s.from, checked: s.checked }
}

/// `a` was settled before `b`: at a lower cost, or at the same cost and
/// earlier.
spec fn settled_before(s: Frontier, a: Coord, b: Coord) -> bool {
    s.g[a] < s.g[b] || (s.g[a] == s.g[b] && s.stamp[a] < s.stamp[b])
}

/// Every cell that can be stepped to from `n` has been found.
pub open spec fn closed_at(w: Map<Coord, MoveCost>, g: Map<Coord, u64>, n: Coord) -> bool {
    forall|m: Coord| #[trigger] crossing(w, n, m) ==> g.contains_key(m)
}

/// The links lead every found cell back to `start`, crossing by crossing.
spec fn links_sound(w: Map<Coord, MoveCost>, start: Coord, s: Frontier) -> bool {
    &&& s.g.contains_key(start)
    &&& s.g[start] == 0
    &&& !s.from.contains_key(start)
    &&& forall|n: Coord| #[trigger] s.g.contains_key(n) ==> n == start || s.from.contains_key(n)
    &&& forall|n: Coord| #[trigger]
        s.g.contains_key(n) ==> s.stamp.contains_key(n) && s.stamp[n] < s.clock
    &&& forall|n: Coord| #[trigger]
        s.from.contains_key(n) ==> {
            &&& s.g.contains_key(n)
            &&& s.g.contains_key(s.from[n])
            &&& crossing(w, s.from[n], n)
            &&& settled_before(s, s.from[n], n)
            &&& s.checked.contains(s.from[n])
        }
    &&& forall|n: Coord| #[trigger] s.g.contains_key(n) ==> reachable(w, start, n)
    &&& forall|c: Coord| #[trigger] s.checked.contains(c) ==> s.g.contains_key(c)
}

/// What holds of the search between two expansions, and, with `busy` set,
/// while that cell is expanded.
#[verifier::opaque]
spec fn frontier_sound(
    w: Map<Coord, MoveCost>,
    start: Coord,
    goal: Coord,
    s: Frontier,
    busy: Option<Coord>,
) -> bool {
    &&& links_sound(w, start, s)
    &&& forall|n: Coord| #[trigger] s.g.contains_key(n) ==> s.g[n] <= s.steps * MAX_EDGE
    &&& forall|n: Coord| #[trigger] s.open.contains(n) ==> s.g.contains_key(n)
    &&& forall|n: Coord| #[trigger]
        s.g.contains_key(n) && !s.open.contains(n) && Some(n) != busy ==> closed_at(w, s.g, n)
    &&& s.g.contains_key(goal) ==> s.open.contains(goal)
}

/// A path that stays among cells of which each has all its crossings in
/// `g` never leaves `g`.
proof fn lemma_path_stays(w: Map<Coord, MoveCost>, g: Map<Coord, u64>, p: Seq<Coord>, i: int)
    requires
        0 <= i < p.len(),
        g.contains_key(p[0]),
        forall|k: int| 0 <= k < p.len() - 1 ==> crossing(w, #[trigger] p[k], p[k + 1]),
        forall|n: Coord| #[trigger] g.contains_key(n) ==> closed_at(w, g, n),
    ensures
        g.contains_key(p[i]),
    decreases i,
{
    if i > 0 {
        lemma_path_stays(w, g, p, i - 1);
        assert(crossing(w, p[i - 1], p[i - 1 + 1]));
    }
}

/// Where every found cell has all its crossings among the found cells, a
/// cell that was not found cannot be reached.
pub proof fn lemma_closed_means_unreachable(
    w: Map<Coord, MoveCost>,
    g: Map<Coord, u64>,
    start: Coord,
    goal: Coord,
)
    requires
        g.contains_key(start),
        !g.contains_key(goal),
        forall|n: Coord| #[trigger] g.contains_key(n) ==> closed_at(w, g, n),
    ensures
        !reachable(w, start, goal),
{
    if reachable(w, start, goal) {
        let p = choose|p: Seq<Coord>| is_path(w, p, start, goal);
        lemma_path_stays(w, g, p, p.len() - 1);
    }
}

/// A path can be lengthened by one crossing.
pub proof fn lemma_reach_step(w: Map<Coord, MoveCost>, start: Coord, a: Coord, b: Coord)
    requires
        reachable(w, start, a),
        crossing(w, a, b),
    ensures
        reachable(w, start, b),
{
    let p = choose|p: Seq<Coord>| is_path(w, p, start, a);
    let q = p.push(b);
    assert(is_path(w, q, start, b));
}

/// Every cell reaches itself, by the path that holds it alone, at no cost.
pub proof fn lemma_reach_self(w: Map<Coord, MoveCost>, c: Coord)
    ensures
        is_path(w, seq![c], c, c),
        reachable(w, c, c),
        path_cost(w, seq![c]) == 0,
{
}

/// One pair of numbers falls below another: its first number is lower, or
/// the same and its second number is lower.
pub open spec fn falls_below(a: (nat, nat), b: (nat, nat)) -> bool {
    a.0 < b.0 || (a.0 == b.0 && a.1 < b.1)
}

/// Follows the links from `current` back to a cell that has none and
/// returns the cells passed, that cell first. The links must not lead round
/// in a circle: `rank` falls along each of them.
fn reconstruct_path(current: Coord, path: &LinkMap, Ghost(rank): Ghost<spec_fn(Coord) -> (nat, nat)>) -> (out: Vec<
    Coord,
>)
    requires
        forall|n: Coord| #[trigger] path@.contains_key(n) ==> falls_below(rank(path@[n]), rank(n)),
    ensures
        follows_links(path@, out@),
        out@.last() == current,
        out@ == links_path(path@, current),
{
    let mut back: Vec<Coord> = Vec::new();
    back.push(current);
    let mut cur = current;
    loop
        invariant
            forall|n: Coord| #[trigger] path@.contains_key(n) ==> falls_below(rank(path@[n]), rank(n)),
            back.len() >= 1,
            back[0] == current,
            back[back.len() - 1] == cur,
            forall|i: int|
                0 <= i < back.len() - 1 ==> path@.contains_key(#[trigger] back[i]) && path@[back[i]] == back[i
                    + 1],
        ensures
            !path@.contains_key(cur),
        decreases rank(cur).0, rank(cur).1,
    {
        match path.get(cur) {
            None => {
                break ;
            },
            Some(prev) => {
                assert(path@.contains_key(cur));
                assert(path@[cur] == prev);
                assert(falls_below(rank(path@[cur]), rank(cur)));
                back.push(prev);
                cur = prev;
            },
        }
    }
    let mut out: Vec<Coord> = Vec::new();
    let mut i: usize = back.len();
    while i > 0
        invariant
            0 <= i <= back.len(),
            out.len() == back.len() - i,
            forall|k: int| 0 <= k < out.len() ==> #[trigger] out[k] == back[back.len() - 1 - k],
        decreases i,
    {
        i = i - 1;
        out.push(back[i]);
    }
    proof {
        assert forall|k: int| 0 < k < out.len() implies path@.contains_key(#[trigger] out[k]) && path@[out[k]]
            == out[k - 1] by {
            let j = back.len() - 1 - k;
            assert(path@.contains_key(back[j]) && path@[back[j]] == back[j + 1]);
        }
        lemma_is_links_path(path@, out@);
    }
    out
}

/// Every cell of a path that the links of a search give has been found.
proof fn lemma_links_stay_found(w: Map<Coord, MoveCost>, start: Coord, s: Frontier, p: Seq<Coord>, i: int)
    requires
        links_sound(w, start, s),
        follows_links(s.from, p),
        s.g.contains_key(p.last()),
        0 <= i < p.len(),
    ensures
        s.g.contains_key(p[i]),
    decreases p.len() - i,
{
    if i < p.len() - 1 {
        lemma_links_stay_found(w, start, s, p, i + 1);
        assert(s.from.contains_key(p[i + 1]) && s.from[p[i + 1]] == p[i]);
    }
}

/// The path that the links of a search give for a cell that was taken leads
/// from the start to that cell, crossing by crossing, over cells that were
/// taken.
proof fn lemma_links_path_is_sound(w: Map<Coord, MoveCost>, start: Coord, s: Frontier, p: Seq<Coord>)
    requires
        links_sound(w, start, s),
        follows_links(s.from, p),
        s.checked.contains(p.last()),
    ensures
        is_path(w, p, start, p.last()),
        forall|i: int| 0 <= i < p.len() ==> s.checked.contains(#[trigger] p[i]),
        p.last() == start ==> p == seq![start],
{
    lemma_links_stay_found(w, start, s, p, 0);
    assert forall|i: int| 0 <= i < p.len() - 1 implies crossing(w, #[trigger] p[i], p[i + 1]) by {
        assert(s.from.contains_key(p[i + 1]) && s.from[p[i + 1]] == p[i]);
    }
    assert forall|i: int| 0 <= i < p.len() implies s.checked.contains(#[trigger] p[i]) by {
        if i < p.len() - 1 {
            assert(s.from.contains_key(p[i + 1]) && s.from[p[i + 1]] == p[i]);
        }
    }
    if p.last() == start {
        if p.len() > 1 {
            assert(s.from.contains_key(p[p.len() - 1]));
        }
        assert(p =~= seq![start]);
    }
}

/// The rank of each cell of a search: what it costs to reach it, and when
/// that cost was set.
spec fn rank_of(s: Frontier) -> spec_fn(Coord) -> (nat, nat) {
    |c: Coord| (s.g[c] as nat, s.stamp[c])
}

/// `s` is the state of a search whose waiting cells, costs, scores and
/// links are the given ones.
spec fn mirrors(
    s: Frontier,
    open: Seq<Coord>,
    g: Map<Coord, u64>,
    f: Map<Coord, u64>,
    from: Map<Coord, Coord>,
) -> bool {
    s.open == open && s.g == g && s.f == f && s.from == from
}

/// The neighbour of `current` in direction `k` has been found, if one can
/// step to it.
spec fn direction_done(w: Map<Coord, MoveCost>, g: Map<Coord, u64>, current: Coord, k: int) -> bool {
    match current.spec_neighbor(k) {
        Some(m) => crossing(w, current, m) ==> g.contains_key(m),
        None => true,
    }
}

/// Two sequences that hold the same cells as often hold the same cells.
proof fn lemma_same_cells(a: Seq<Coord>, b: Seq<Coord>)
    requires
        a.to_multiset() == b.to_multiset(),
    ensures
        forall|x: Coord| #![trigger a.contains(x)] #![trigger b.contains(x)] a.contains(x) <==> b.contains(x),
        a.len() == b.len(),
{
    assert forall|x: Coord| a.contains(x) <==> b.contains(x) by {
        vstd::seq_lib::to_multiset_contains(a, x);
        vstd::seq_lib::to_multiset_contains(b, x);
    }
    vstd::seq_lib::to_multiset_len(a);
    vstd::seq_lib::to_multiset_len(b);
}

/// What is left of a sequence from which one cell was taken.
proof fn lemma_without_cells(s: Seq<Coord>, c: Coord)
    ensures
        forall|x: Coord| #[trigger] without(s, c).contains(x) <==> (s.contains(x) && x != c),
{
    let pred = other_than(c);
    assert forall|x: Coord| without(s, c).contains(x) <==> (s.contains(x) && x != c) by {
        if without(s, c).contains(x) {
            s.lemma_filter_contains_rev(pred, x);
            let i = choose|i: int| 0 <= i < s.filter(pred).len() && s.filter(pred)[i] == x;
            s.lemma_filter_pred(pred, i);
        }
        if s.contains(x) && x != c {
            let i = choose|i: int| 0 <= i < s.len() && s[i] == x;
            s.lemma_filter_contains(pred, i);
        }
    }
}

/// The cells of a sequence to which one cell was added.
proof fn lemma_push_cells(s: Seq<Coord>, c: Coord)
    ensures
        forall|x: Coord| #[trigger] s.push(c).contains(x) <==> (s.contains(x) || x == c),
{
    let t = s.push(c);
    assert forall|x: Coord| t.contains(x) <==> (s.contains(x) || x == c) by {
        if t.contains(x) {
            let i = choose|i: int| 0 <= i < t.len() && t[i] == x;
            if i < s.len() {
                assert(s[i] == x);
            }
        }
        if s.contains(x) {
            let i = choose|i: int| 0 <= i < s.len() && s[i] == x;
            assert(t[i] == x);
        }
        if x == c {
            assert(t[s.len() as int] == x);
        }
    }
}

/// The state of the search when the waiting cells have been sorted: they
/// stand as the sort leaves them, and the search knows what it knew.
proof fn lemma_reordered(w: Map<Coord, MoveCost>, start: Coord, goal: Coord, before: Frontier, now: Frontier)
    requires
        frontier_sound(w, start, goal, before, None),
        now == (Frontier { open: now.open, ..before }),
        is_sorted_waiting(before.open, now.open, before.f),
        before.open.len() > 0,
    ensures
        frontier_sound(w, start, goal, now, None),
        now.open == sorted_waiting(before.open, before.f),
        now.open.len() > 0,
        now.open.last() == picked(known(before)),
        now.open.contains(now.open.last()),
        start == goal && before.open =~= seq![start] ==> now.open.last() == start,
{
    reveal(frontier_sound);
    lemma_same_cells(before.open, now.open);
    lemma_sorted_is_the_sort(before.open, before.f, now.open);
    lemma_last_has_lowest_score(before.open, before.f, now.open);
    assert(now.open.contains(now.open[now.open.len() - 1]));
    if start == goal && before.open =~= seq![start] {
        assert(before.open.contains(now.open.last()));
    }
}

/// Noting that a waiting cell was taken changes nothing else that the
/// search knows.
proof fn lemma_noted(w: Map<Coord, MoveCost>, start: Coord, goal: Coord, before: Frontier, now: Frontier, c: Coord)
    requires
        frontier_sound(w, start, goal, before, None),
        before.open.contains(c),
        now == (Frontier { checked: before.checked.insert(c), ..before }),
    ensures
        frontier_sound(w, start, goal, now, None),
        links_sound(w, start, now),
        now.g.contains_key(c),
        forall|x: Coord| #[trigger] now.checked.contains(x) ==> reachable(w, start, x),
        forall|n: Coord| #[trigger] now.from.contains_key(n) ==> falls_below(rank_of(now)(now.from[n]), rank_of(now)(n)),
{
    reveal(frontier_sound);
    assert forall|n: Coord| #[trigger] now.from.contains_key(n) implies falls_below(
        rank_of(now)(now.from[n]),
        rank_of(now)(n),
    ) by {
        assert(settled_before(before, before.from[n], n));
    }
}

/// The state of the search when a cell other than the goal has been taken
/// from the waiting ones to be expanded.
proof fn lemma_taken(w: Map<Coord, MoveCost>, start: Coord, goal: Coord, before: Frontier, now: Frontier, c: Coord)
    requires
        frontier_sound(w, start, goal, before, None),
        before.open.contains(c),
        c != goal,
        now == (Frontier { open: without(before.open, c), steps: before.steps + 1, ..before }),
    ensures
        frontier_sound(w, start, goal, now, Some(c)),
        now.g.contains_key(c),
        now.g[c] <= (now.steps - 1) * MAX_EDGE,
{
    reveal(frontier_sound);
    lemma_without_cells(before.open, c);
    assert(before.steps * MAX_EDGE <= now.steps * MAX_EDGE) by (nonlinear_arith)
        requires
            before.steps <= now.steps,
    ;
}

/// Where no cell waits, the goal cannot be reached.
proof fn lemma_dry(w: Map<Coord, MoveCost>, start: Coord, goal: Coord, s: Frontier)
    requires
        frontier_sound(w, start, goal, s, None),
        s.open.len() == 0,
    ensures
        !reachable(w, start, goal),
{
    reveal(frontier_sound);
    lemma_closed_means_unreachable(w, s.g, start, goal);
}

/// The state of a search that has just begun.
proof fn lemma_begun(w: Map<Coord, MoveCost>, start: Coord, goal: Coord, s: Frontier)
    requires
        s.open =~= seq![start],
        s.g =~= Map::empty().insert(start, 0u64),
        s.f =~= Map::empty().insert(start, 0u64),
        s.from =~= Map::empty(),
        s.checked =~= Set::empty(),
        s.stamp == Map::<Coord, nat>::empty().insert(start, 0nat),
        s.clock == 1,
        s.steps == 0,
    ensures
        frontier_sound(w, start, goal, s, None),
        known(s) == begun(start),
{
    reveal(frontier_sound);
    lemma_reach_self(w, start);
    assert(s.open[0] == start);
}

/// The state of the search when a neighbour of the cell that is expanded
/// has been reached more cheaply than before, or for the first time.
proof fn lemma_relaxed(
    w: Map<Coord, MoveCost>,
    start: Coord,
    goal: Coord,
    before: Frontier,
    now: Frontier,
    current: Coord,
    n: Coord,
    d: int,
    tentative: u64,
)
    requires
        frontier_sound(w, start, goal, before, Some(current)),
        before.g.contains_key(current),
        before.checked.contains(current),
        1 <= before.steps,
        before.g[current] <= (before.steps - 1) * MAX_EDGE,
        current.spec_neighbor(d) == Some(n),
        crossing(w, current, n),
        tentative == before.g[current] + step_cost(w[current], w[n], dir_diagonal(d)),
        tentative + estimate(n, goal) <= u64::MAX,
        step_cost(w[current], w[n], dir_diagonal(d)) <= MAX_EDGE,
        !before.g.contains_key(n) || tentative < before.g[n],
        before.open.contains(n) ==> now.open == before.open,
        !before.open.contains(n) ==> now.open == before.open.push(n),
        now.g == before.g.insert(n, tentative),
        now.f == before.f.insert(n, (tentative + estimate(n, goal)) as u64),
        now.from == before.from.insert(n, current),
        now.checked == before.checked,
        now.stamp == before.stamp.insert(n, before.clock),
        now.clock == before.clock + 1,
        now.steps == before.steps,
    ensures
        frontier_sound(w, start, goal, now, Some(current)),
        known(now) == relax(w, goal, known(before), current, d),
        now.g[current] == before.g[current],
{
    reveal(frontier_sound);
    lemma_push_cells(before.open, n);
    lemma_reach_step(w, start, current, n);
    assert forall|k: Coord| #[trigger] now.from.contains_key(k) implies {
        &&& now.g.contains_key(k)
        &&& now.g.contains_key(now.from[k])
        &&& crossing(w, now.from[k], k)
        &&& settled_before(now, now.from[k], k)
        &&& now.checked.contains(now.from[k])
    } by {
        if k != n {
            assert(before.from.contains_key(k));
            assert(settled_before(before, before.from[k], k));
        }
    }
    assert forall|m: Coord| #[trigger]
        now.g.contains_key(m) && !now.open.contains(m) && Some(m) != Some(current) implies closed_at(w, now.g, m) by {
        assert(before.g.contains_key(m));
        assert(!before.open.contains(m));
        assert(closed_at(w, before.g, m));
    }
    assert(tentative <= now.steps * MAX_EDGE) by (nonlinear_arith)
        requires
            tentative <= before.g[current] + MAX_EDGE,
            before.g[current] <= (now.steps - 1) * MAX_EDGE,
    ;
}

/// Once the search has looked from a cell in all eight directions, every
/// cell that can be stepped to from it has been found.
proof fn lemma_looked_around(w: Map<Coord, MoveCost>, start: Coord, goal: Coord, s: Frontier, current: Coord)
    requires
        frontier_sound(w, start, goal, s, Some(current)),
        forall|k: int| 0 <= k < 8 ==> direction_done(w, s.g, current, k),
    ensures
        frontier_sound(w, start, goal, s, None),
{
    reveal(frontier_sound);
    assert forall|m: Coord| #[trigger] crossing(w, current, m) implies s.g.contains_key(m) by {
        let k = lemma_step_has_direction(current, m);
        assert(direction_done(w, s.g, current, k));
    }
}

/// From a cell that cannot be crossed there is nothing to look at.
proof fn lemma_nothing_around(w: Map<Coord, MoveCost>, start: Coord, goal: Coord, s: Frontier, current: Coord)
    requires
        frontier_sound(w, start, goal, s, Some(current)),
        !passable(w, current),
    ensures
        frontier_sound(w, start, goal, s, None),
{
    reveal(frontier_sound);
}

/// Expands `current`: each neighbour that can be stepped to and is reached
/// more cheaply through `current` than before is linked to it, gets its new
/// scores and joins the waiting cells. Returns the state of the search as it
/// is afterwards.
fn expand(
    current: Coord,
    end: Coord,
    cells: &CostField,
    index: &CellIdToEntity,
    open: &mut indexmap::IndexSet<(i32, i32, i32)>,
    from: &mut LinkMap,
    g_score: &mut CoordMap,
    f_score: &mut CoordMap,
    Ghost(start): Ghost<Coord>,
    Ghost(s0): Ghost<Frontier>,
) -> (r: Ghost<Frontier>)
    requires
        mirrors(s0, open_set_order(*old(open)), old(g_score)@, old(f_score)@, old(from)@),
        frontier_sound(cost_map(index.ids(), cells@), start, end, s0, Some(current)),
        s0.g.contains_key(current),
        s0.g[current] <= (s0.steps - 1) * MAX_EDGE,
        s0.checked.contains(current),
        1 <= s0.steps <= u32::MAX,
    ensures
        mirrors(r@, open_set_order(*final(open)), final(g_score)@, final(f_score)@, final(from)@),
        frontier_sound(cost_map(index.ids(), cells@), start, end, r@, None),
        r@.steps == s0.steps,
        r@.checked == s0.checked,
        known(r@) == spread(cost_map(index.ids(), cells@), end, known(s0), current),
{
    let ghost w = cost_map(index.ids(), cells@);
    let ghost mut s = s0;
    let gc: u64 = match g_score.get(current) {
        Some(v) => v,
        None => 0,
    };
    let c_cost = match cost_of(cells, index, current) {
        Some(c) => c,
        None => MoveCost::infinite(),
    };
    if c_cost.is_infinite() {
        proof {
            lemma_nothing_around(w, start, end, s, current);
        }
        return Ghost(s);
    }
    let mut d: usize = 0;
    while d < 8
        invariant
            d <= 8,
            w == cost_map(index.ids(), cells@),
            passable(w, current),
            w[current] == c_cost,
            s.g.contains_key(current),
            s.g[current] == gc,
            gc <= (s.steps - 1) * MAX_EDGE,
            s.checked.contains(current),
            s.checked == s0.checked,
            s.steps == s0.steps,
            1 <= s.steps <= u32::MAX,
            mirrors(s, open_set_order(*open), g_score@, f_score@, from@),
            frontier_sound(w, start, end, s, Some(current)),
            forall|k: int| 0 <= k < d ==> direction_done(w, s.g, current, k),
            known(s) == relax_upto(w, end, known(s0), current, d as int),
        decreases 8 - d,
    {
        let ghost before = s;
        assert(relax_upto(w, end, known(s0), current, d + 1) == relax(w, end, known(before), current, d as int));
        if let Some(n) = current.neighbor(d) {
            proof {
                lemma_neighbor_is_step(current, d as int);
            }
            if let Some(n_cost) = cost_of(cells, index, n) {
                if !n_cost.is_infinite() {
                    let tentative: u64 = gc + edge(c_cost, n_cost, d >= 4);
                    let known_cost: u64 = match g_score.get(n) {
                        Some(v) => v,
                        None => u64::MAX,
                    };
                    if tentative < known_cost {
                        let h: u64 = n.estimate_to(end);
                        from.insert(n, current);
                        g_score.insert(n, tentative);
                        f_score.insert(n, tentative + h);
                        open_insert(open, n);
                        proof {
                            s = Frontier {
                                open: open_set_order(*open),
                                g: g_score@,
                                f: f_score@,
                                from: from@,
                                checked: before.checked,
                                stamp: before.stamp.insert(n, before.clock),
                                clock: before.clock + 1,
                                steps: before.steps,
                            };
                            lemma_relaxed(w, start, end, before, s, current, n, d as int, tentative);
                        }
                    }
                }
            }
        }
        proof {
            assert forall|k: int| 0 <= k < d + 1 implies direction_done(w, s.g, current, k) by {
                if k < d {
                    assert(direction_done(w, before.g, current, k));
                }
            }
        }
        d = d + 1;
    }
    proof {
        lemma_looked_around(w, start, end, s, current);
    }
    Ghost(s)
}

/// Why a search found no path.
#[derive(Clone, Copy, Debug, PartialEq, Eq, Structural)]
pub enum PathError {
    /// The goal is a cell that cannot be crossed; nothing was explored.
    GoalImpassable,
    /// No path leads from the start to the goal.
    Unreachable,
    /// The search gave up after as many expansions as it was allowed.
    BudgetSpent,
}

/// How a search ended that failed for this reason.
pub open spec fn failure(e: PathError) -> Outcome {
    match e {
        PathError::GoalImpassable => Outcome::Refused,
        PathError::Unreachable => Outcome::Dry,
        PathError::BudgetSpent => Outcome::Spent,
    }
}

/// How many cells [`a_star`] and [`a_star_debug`] expand before they give up.
pub const SEARCH_BUDGET: u32 = 1_000_000;

/// Searches a path from `start` to `goal` and expands no more than `budget`
/// cells for it. Returns the path, start first and goal last, with the cells
/// that were taken from the waiting ones on the way.
///
/// The search ends as [`search`] says. Of several waiting cells of the same
/// lowest score it takes the one that stands last after the stable sort.
pub fn find_path(start: Coord, goal: Coord, cells: &CostField, index: &CellIdToEntity, budget: u32) -> (res: Result<
    (Vec<Coord>, CoordSet),
    PathError,
>)
    ensures
        match res {
            Ok(found) => search(cost_map(index.ids(), cells@), start, goal, budget) == (Outcome::Found {
                path: found.0@,
                explored: found.1@,
            }),
            Err(e) => search(cost_map(index.ids(), cells@), start, goal, budget) == failure(e),
        },
        start == goal && !goal_refused(cost_map(index.ids(), cells@), goal) ==> res.is_ok() && res.unwrap().0@
            == seq![start] && path_cost(cost_map(index.ids(), cells@), res.unwrap().0@) == 0,
        res.is_ok() ==> {
            &&& is_path(cost_map(index.ids(), cells@), res.unwrap().0@, start, goal)
            &&& forall|i: int|
                0 <= i < res.unwrap().0.len() ==> res.unwrap().1@.contains(#[trigger] res.unwrap().0[i])
            &&& forall|c: Coord| #[trigger]
                res.unwrap().1@.contains(c) ==> reachable(cost_map(index.ids(), cells@), start, c)
        },
        search(cost_map(index.ids(), cells@), start, goal, budget) == Outcome::Dry ==> !reachable(
            cost_map(index.ids(), cells@),
            start,
            goal,
        ),
        res == Err::<(Vec<Coord>, CoordSet), PathError>(PathError::BudgetSpent) ==> start != goal,
{
    let ghost w = cost_map(index.ids(), cells@);
    if let Some(cost) = cost_of(cells, index, goal) {
        if cost.is_infinite() {
            return Err(PathError::GoalImpassable);
        }
    }
    let mut open = open_new();
    open_insert(&mut open, start);
    let mut from = LinkMap::new();
    let mut g_score = CoordMap::new();
    g_score.insert(start, 0);
    let mut f_score = CoordMap::new();
    f_score.insert(start, 0);
    let mut checked = CoordSet::new();
    let mut steps: u32 = 0;
    let ghost total = run(w, goal, begun(start), budget as nat);
    let ghost mut s = Frontier {
        open: open_set_order(open),
        g: g_score@,
        f: f_score@,
        from: from@,
        checked: checked@,
        stamp: Map::empty().insert(start, 0nat),
        clock: 1,
        steps: 0,
    };
    proof {
        lemma_begun(w, start, goal, s);
    }
    while !open_is_empty(&open)
        invariant
            w == cost_map(index.ids(), cells@),
            !goal_refused(w, goal),
            mirrors(s, open_set_order(open), g_score@, f_score@, from@),
            s.checked == checked@,
            s.steps == steps,
            frontier_sound(w, start, goal, s, None),
            start == goal ==> s.open =~= seq![start],
            steps <= budget,
            total == run(w, goal, begun(start), budget as nat),
            run(w, goal, known(s), (budget - steps) as nat) == total,
        decreases u32::MAX - steps,
    {
        let ghost before = s;
        open_sort_by_score(&mut open, &f_score);
        proof {
            s = Frontier { open: open_set_order(open), ..before };
            lemma_reordered(w, start, goal, before, s);
        }
        let current = match open_last(&open) {
            Some(c) => c,
            None => {
                return Err(PathError::Unreachable);
            },
        };
        let ghost sorted = s;
        checked.insert(current);
        proof {
            s = Frontier { checked: checked@, ..sorted };
            lemma_noted(w, start, goal, sorted, s, current);
        }
        if current == goal {
            let path = reconstruct_path(current, &from, Ghost(rank_of(s)));
            proof {
                lemma_links_path_is_sound(w, start, s, path@);
                assert(before.open.len() > 0 && picked(known(before)) == goal);
                assert(total == (Outcome::Found { path: path@, explored: checked@ }));
            }
            return Ok((path, checked));
        }
        if steps >= budget {
            proof {
                assert(before.open.len() > 0 && picked(known(before)) != goal);
                assert(total == Outcome::Spent);
            }
            return Err(PathError::BudgetSpent);
        }
        steps = steps + 1;
        let ghost noted = s;
        open_shift_remove(&mut open, current);
        proof {
            s = Frontier { open: open_set_order(open), steps: steps as nat, ..noted };
            lemma_taken(w, start, goal, noted, s, current);
            assert(known(s) == taken(known(before)));
        }
        let r = expand(
            current,
            goal,
            cells,
            index,
            &mut open,
            &mut from,
            &mut g_score,
            &mut f_score,
            Ghost(start),
            Ghost(s),
        );
        proof {
            s = r@;
            assert(known(s) == expanded(w, goal, known(before)));
        }
    }
    proof {
        lemma_dry(w, start, goal, s);
    }
    Err(PathError::Unreachable)
}

/// Searches a path from `start` to `end`, as [`find_path`] does with a
/// budget of [`SEARCH_BUDGET`]: the path is the one that [`search`] finds,
/// and there is none where that search finds none. A search that runs dry
/// shows that no path leads to `end`.
pub fn a_star(start: Coord, end: Coord, cells: &CostField, id_to_cell: &CellIdToEntity) -> (path: Option<Vec<Coord>>)
    ensures
        match path {
            Some(p) => found_path(search(cost_map(id_to_cell.ids(), cells@), start, end, SEARCH_BUDGET)) == Some(p@),
            None => found_path(search(cost_map(id_to_cell.ids(), cells@), start, end, SEARCH_BUDGET)).is_none(),
        },
        path.is_some() ==> is_path(cost_map(id_to_cell.ids(), cells@), path.unwrap()@, start, end),
        search(cost_map(id_to_cell.ids(), cells@), start, end, SEARCH_BUDGET) == Outcome::Dry ==> path.is_none()
            && !reachable(cost_map(id_to_cell.ids(), cells@), start, end),
        goal_refused(cost_map(id_to_cell.ids(), cells@), end) ==> path.is_none(),
        start == end && !goal_refused(cost_map(id_to_cell.ids(), cells@), end) ==> path.is_some()
            && path.unwrap()@ == seq![start] && path_cost(cost_map(id_to_cell.ids(), cells@), path.unwrap()@) == 0,
{
    match find_path(start, end, cells, id_to_cell, SEARCH_BUDGET) {
        Ok(found) => Some(found.0),
        Err(PathError::GoalImpassable) => None,
        Err(PathError::Unreachable) => None,
        Err(PathError::BudgetSpent) => None,
    }
}

/// As [`a_star`], and returns with the path the cells that the search took
/// from the waiting ones: every cell of the path is among them, and each of
/// them can be reached from `start`.
pub fn a_star_debug(start: Coord, end: Coord, cells: &CostField, id_to_cell: &CellIdToEntity) -> (found: Option<
    (Vec<Coord>, CoordSet),
>)
    ensures
        match found {
            Some(f) => search(cost_map(id_to_cell.ids(), cells@), start, end, SEARCH_BUDGET) == (Outcome::Found {
                path: f.0@,
                explored: f.1@,
            }),
            None => found_path(search(cost_map(id_to_cell.ids(), cells@), start, end, SEARCH_BUDGET)).is_none(),
        },
        found.is_some() ==> {
            &&& is_path(cost_map(id_to_cell.ids(), cells@), found.unwrap().0@, start, end)
            &&& forall|i: int|
                0 <= i < found.unwrap().0.len() ==> found.unwrap().1@.contains(#[trigger] found.unwrap().0[i])
            &&& forall|c: Coord| #[trigger]
                found.unwrap().1@.contains(c) ==> reachable(cost_map(id_to_cell.ids(), cells@), start, c)
        },
        search(cost_map(id_to_cell.ids(), cells@), start, end, SEARCH_BUDGET) == Outcome::Dry ==> found.is_none()
            && !reachable(cost_map(id_to_cell.ids(), cells@), start, end),
        goal_refused(cost_map(id_to_cell.ids(), cells@), end) ==> found.is_none(),
        start == end && !goal_refused(cost_map(id_to_cell.ids(), cells@), end) ==> found.is_some()
            && found.unwrap().0@ == seq![start] && path_cost(cost_map(id_to_cell.ids(), cells@), found.unwrap().0@)
            == 0,
{
    match find_path(start, end, cells, id_to_cell, SEARCH_BUDGET) {
        Ok(found) => Some(found),
        Err(PathError::GoalImpassable) => None,
        Err(PathError::Unreachable) => None,
        Err(PathError::BudgetSpent) => None,
    }
}

/// A call of [`a_star_debug`] returns the path that a call of [`a_star`]
/// on the same start, goal and grid returns, and none where that returns
/// none: both are the path that [`search`] finds.
pub proof fn lemma_debug_search_finds_the_same_path(
    w: Map<Coord, MoveCost>,
    start: Coord,
    goal: Coord,
    plain: Option<Seq<Coord>>,
    debug: Option<(Seq<Coord>, Set<Coord>)>,
)
    requires
        plain == found_path(search(w, start, goal, SEARCH_BUDGET)),
        match debug {
            Some(f) => search(w, start, goal, SEARCH_BUDGET) == (Outcome::Found { path: f.0, explored: f.1 }),
            None => found_path(search(w, start, goal, SEARCH_BUDGET)).is_none(),
        },
    ensures
        match debug {
            Some(f) => plain == Some(f.0),
            None => plain.is_none(),
        },
{
}

} // verus!
