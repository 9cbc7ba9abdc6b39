//! An agent that walks a path: where it stands from tick to tick, which
//! waypoint it pursues, and how a new path is set for it.
//!
//! Places are kept in thousandths of a world unit and times in milliseconds.

use std::collections::HashMap;
use std::collections::VecDeque;
use vstd::prelude::*;
use crate::coord::Coord;
use crate::grid_index::{CellIdToEntity, CostField};
use crate::path_finding::{
    a_star_debug, cost_map, cost_of, found_path, goal_refused, is_path, reachable, search, SEARCH_BUDGET,
};
use crate::tables::lookup;

verus! {

broadcast use vstd::std_specs::hash::group_hash_axioms;

/// A place in the world, in thousandths of a world unit.
#[derive(Clone, Copy, Debug, PartialEq, Eq, Structural)]
pub struct Position {
    pub x: i64,
    pub y: i64,
    pub z: i64,
}

/// A waypoint counts as reached from where the squared distance to it is
/// below this: a thousandth of a square world unit.
pub const REACH_SQUARED: u64 = 1000;

/// How much of the way between two waypoints an agent covers in a
/// millisecond, in thousandths of the way: ten times the way in a second.
pub const SPEED: u64 = 10;

/// The largest part of the way that is ever taken, in thousandths: an agent
/// never quite arrives by gliding, so that it cannot overshoot.
pub const ALMOST_THERE: u64 = 999;

/// The place of each cell, by the cell's identifier.
pub struct PlaceField {
    places: HashMap<u64, Position>,
}

impl View for PlaceField {
    type V = Map<u64, Position>;

    closed spec fn view(&self) -> Map<u64, Position> {
        self.places@
    }
}

impl PlaceField {
    /// A field without cells.
    pub fn new() -> (f: PlaceField)
        ensures
            f@ == Map::<u64, Position>::empty(),
    {
        PlaceField { places: HashMap::new() }
    }

    /// Records that cell `id` lies at `place`; returns the place that was
    /// recorded for it before, if one was.
    pub fn insert(&mut self, id: u64, place: Position) -> (prev: Option<Position>)
        ensures
            final(self)@ == old(self)@.insert(id, place),
            prev == lookup(old(self)@, id),
    {
        self.places.insert(id, place)
    }

    /// Forgets the place of cell `id`; returns it, if one was recorded.
    pub fn remove(&mut self, id: u64) -> (prev: Option<Position>)
        ensures
            final(self)@ == old(self)@.remove(id),
            prev == lookup(old(self)@, id),
    {
        self.places.remove(&id)
    }

    /// The place recorded for cell `id`, if one is.
    pub fn get(&self, id: u64) -> (place: Option<Position>)
        ensures
            place == lookup(self@, id),
    {
        match self.places.get(&id) {
            Some(p) => Some(*p),
            None => None,
        }
    }
}

/// The place of each cell of the grid by its coordinate: of the cells that
/// the index knows and that have a place.
pub open spec fn place_map(ids: Map<Coord, u64>, places: Map<u64, Position>) -> Map<Coord, Position> {
    Map::new(|c: Coord| ids.contains_key(c) && places.contains_key(ids[c]), |c: Coord| places[ids[c]])
}

/// The place of the cell at `c`, if the grid has a cell there and the cell
/// has a place.
pub fn place_of(places: &PlaceField, map: &CellIdToEntity, c: Coord) -> (place: Option<Position>)
    ensures
        place == lookup(place_map(map.ids(), places@), c),
{
    match map.get_by_id(&c) {
        None => None,
        Some(id) => places.get(id),
    }
}

/// The whole number of world units nearest to `v` thousandths. A half is
/// rounded away from zero.
pub open spec fn nearest_unit(v: int) -> int {
    if v >= 0 {
        (v + 500) / 1000
    } else {
        -((500 - v) / 1000)
    }
}

/// `v` where it is a coordinate, and else the end of the range of the
/// coordinates on its side.
pub open spec fn within_range(v: int) -> int {
    if v < i32::MIN {
        i32::MIN as int
    } else if v > i32::MAX {
        i32::MAX as int
    } else {
        v
    }
}

/// The cell on the ground level whose coordinates are nearest to `p`.
pub open spec fn cell_under(p: Position) -> Coord {
    Coord { x: within_range(nearest_unit(p.x as int)) as i32, y: 0, z: within_range(nearest_unit(p.z as int)) as i32 }
}

/// The coordinate nearest to `v` thousandths of a world unit.
pub fn nearest_coordinate(v: i64) -> (c: i32)
    ensures
        c == within_range(nearest_unit(v as int)),
{
    let wide: i128 = v as i128;
    let unit: i128 = if wide >= 0 {
        (wide + 500) / 1000
    } else {
        -((500 - wide) / 1000)
    };
    if unit < -2147483648 {
        i32::MIN
    } else if unit > 2147483647 {
        i32::MAX
    } else {
        unit as i32
    }
}

/// The cell on the ground level whose coordinates are nearest to `p`.
pub fn cell_at(p: Position) -> (c: Coord)
    ensures
        c == cell_under(p),
{
    Coord { x: nearest_coordinate(p.x), y: 0, z: nearest_coordinate(p.z) }
}

/// The last waypoint that was reached, and when.
#[derive(Clone, Copy, Debug, PartialEq, Eq, Structural)]
pub struct PastCell {
    pub cell: Coord,
    pub start_time: u64,
}

/// The waypoint that is pursued, if any.
#[derive(Clone, Copy, Debug, PartialEq, Eq, Structural)]
pub struct NextCell(pub Option<Coord>);

/// The waypoints that wait, the nearest first.
pub struct Path(pub VecDeque<Coord>);

/// An agent on its way.
pub struct Walker {
    pub position: Position,
    pub next: NextCell,
    pub past: PastCell,
    pub path: Path,
}

/// What an agent is, as plain values.
pub struct WalkerView {
    pub position: Position,
    pub next: Option<Coord>,
    pub past: PastCell,
    pub path: Seq<Coord>,
}

impl View for Walker {
    type V = WalkerView;

    open spec fn view(&self) -> WalkerView {
        WalkerView { position: self.position, next: self.next.0, past: self.past, path: self.path.0@ }
    }
}

/// What a tick did to an agent.
#[derive(Clone, Copy, Debug, PartialEq, Eq, Structural)]
pub enum Step {
    /// It pursues nothing and nothing waits: it stays.
    Rest,
    /// The cell named has no place, so the agent could not be moved.
    Lost(Coord),
    /// It has reached its last waypoint and goes idle.
    Arrived,
    /// It was moved and faces `toward`. With `advanced` it has reached a
    /// waypoint in this tick and walks on to the next.
    Moved { toward: Position, advanced: bool },
}

/// The square of the distance between two places.
pub open spec fn gap_squared(a: Position, b: Position) -> int {
    (a.x - b.x) * (a.x - b.x) + (a.y - b.y) * (a.y - b.y) + (a.z - b.z) * (a.z - b.z)
}

/// From `a`, `b` counts as reached.
pub open spec fn within_reach(a: Position, b: Position) -> bool {
    gap_squared(a, b) < REACH_SQUARED
}

/// How much of the way is covered at time `now` when the way began at
/// `start`, in thousandths of the way.
pub open spec fn progress(start: u64, now: u64) -> int {
    if now <= start {
        0
    } else if (now - start) * SPEED >= ALMOST_THERE {
        ALMOST_THERE as int
    } else {
        (now - start) * SPEED
    }
}

/// The point `t` thousandths of the way from `a` to `b` along one axis,
/// rounded toward `a`.
pub open spec fn blend(a: i64, b: i64, t: int) -> int {
    if b >= a {
        a + (b - a) * t / 1000
    } else {
        a - (a - b) * t / 1000
    }
}

/// The place `t` thousandths of the way from `a` to `b`.
pub open spec fn lerp(a: Position, b: Position, t: int) -> Position {
    Position { x: blend(a.x, b.x, t) as i64, y: blend(a.y, b.y, t) as i64, z: blend(a.z, b.z, t) as i64 }
}

/// The agent glides from its last waypoint toward `target`.
pub open spec fn glide(
    w: WalkerView,
    target: Coord,
    advanced: bool,
    now: u64,
    places: Map<Coord, Position>,
) -> (WalkerView, Step) {
    if !places.contains_key(w.past.cell) {
        (w, Step::Lost(w.past.cell))
    } else {
        (
            WalkerView {
                position: lerp(places[w.past.cell], places[target], progress(w.past.start_time, now)),
                ..w
            },
            Step::Moved { toward: places[target], advanced },
        )
    }
}

/// The agent has reached `target`: that is its last waypoint from now, and
/// it takes the next one that waits, or goes idle where none does.
pub open spec fn reached(w: WalkerView, target: Coord, now: u64, places: Map<Coord, Position>) -> (
    WalkerView,
    Step,
) {
    let past = PastCell { cell: target, start_time: now };
    if w.path.len() > 0 {
        let next = w.path[0];
        let onward = WalkerView { past, next: Some(next), path: w.path.drop_first(), ..w };
        if !places.contains_key(next) {
            (onward, Step::Lost(next))
        } else {
            glide(onward, next, true, now, places)
        }
    } else {
        (WalkerView { past, next: None, ..w }, Step::Arrived)
    }
}

/// What a tick at time `now` makes of an agent, and what it reports.
pub open spec fn advance(w: WalkerView, now: u64, places: Map<Coord, Position>) -> (WalkerView, Step) {
    let ready = if w.next.is_none() && w.path.len() > 0 {
        WalkerView { next: Some(w.path[0]), path: w.path.drop_first(), ..w }
    } else {
        w
    };
    match ready.next {
        None => (ready, Step::Rest),
        Some(target) => if !places.contains_key(target) {
            (ready, Step::Lost(target))
        } else if within_reach(ready.position, places[target]) {
            reached(ready, target, now, places)
        } else {
            glide(ready, target, false, now, places)
        },
    }
}

/// How far apart two places are along one axis.
pub fn axis_distance(a: i64, b: i64) -> (d: u128)
    ensures
        d == if a >= b { a - b } else { b - a },
        d <= 0xffff_ffff_ffff_ffff,
{
    let wa: i128 = a as i128;
    let wb: i128 = b as i128;
    if wa >= wb {
        (wa - wb) as u128
    } else {
        (wb - wa) as u128
    }
}

/// Whether `b` counts as reached from `a`.
pub fn is_within_reach(a: Position, b: Position) -> (near: bool)
    ensures
        near == within_reach(a, b),
{
    let dx: u128 = axis_distance(a.x, b.x);
    let dy: u128 = axis_distance(a.y, b.y);
    let dz: u128 = axis_distance(a.z, b.z);
    proof {
        assert(dx * dx == (a.x - b.x) * (a.x - b.x)) by (nonlinear_arith)
            requires
                dx == a.x - b.x || dx == b.x - a.x,
        ;
        assert(dy * dy == (a.y - b.y) * (a.y - b.y)) by (nonlinear_arith)
            requires
                dy == a.y - b.y || dy == b.y - a.y,
        ;
        assert(dz * dz == (a.z - b.z) * (a.z - b.z)) by (nonlinear_arith)
            requires
                dz == a.z - b.z || dz == b.z - a.z,
        ;
        assert(dx >= 32 ==> dx * dx >= 1000) by (nonlinear_arith);
        assert(dy >= 32 ==> dy * dy >= 1000) by (nonlinear_arith);
        assert(dz >= 32 ==> dz * dz >= 1000) by (nonlinear_arith);
    }
    if dx >= 32 || dy >= 32 || dz >= 32 {
        return false;
    }
    assert(dx * dx <= 961 && dy * dy <= 961 && dz * dz <= 961) by (nonlinear_arith)
        requires
            dx < 32,
            dy < 32,
            dz < 32,
    ;
    dx * dx + dy * dy + dz * dz < 1000
}

/// How much of the way is covered at time `now` when the way began at
/// `start`, in thousandths of the way.
pub fn progress_at(start: u64, now: u64) -> (t: u64)
    ensures
        t == progress(start, now),
        t <= ALMOST_THERE,
{
    if now <= start {
        0
    } else {
        let elapsed: u64 = now - start;
        if elapsed >= 100 {
            ALMOST_THERE
        } else {
            elapsed * SPEED
        }
    }
}

/// The point `t` thousandths of the way from `a` to `b` along one axis,
/// rounded toward `a`.
pub fn blend_axis(a: i64, b: i64, t: u64) -> (p: i64)
    requires
        t <= 1000,
    ensures
        p == blend(a, b, t as int),
        a <= b ==> a <= p <= b,
        b <= a ==> b <= p <= a,
{
    let gap: u128 = axis_distance(a, b);
    assert(gap * t <= gap * 1000) by (nonlinear_arith)
        requires
            t <= 1000,
            gap >= 0,
    ;
    let part: u128 = gap * (t as u128) / 1000;
    if b >= a {
        (a as i128 + part as i128) as i64
    } else {
        (a as i128 - part as i128) as i64
    }
}

/// The place `t` thousandths of the way from `a` to `b`.
pub fn lerp_places(a: Position, b: Position, t: u64) -> (p: Position)
    requires
        t <= 1000,
    ensures
        p == lerp(a, b, t as int),
{
    Position { x: blend_axis(a.x, b.x, t), y: blend_axis(a.y, b.y, t), z: blend_axis(a.z, b.z, t) }
}

/// Moves an agent at the tick of time `now`: takes up the next waypoint if
/// it pursues none, notes a waypoint that it has reached and turns to the
/// one after it, and sets the agent on its way between the last waypoint
/// and the pursued one.
pub fn move_entity(walker: &mut Walker, now: u64, places: &PlaceField, map: &CellIdToEntity) -> (step: Step)
    ensures
        (final(walker)@, step) == advance(old(walker)@, now, place_map(map.ids(), places@)),
{
    if walker.next.0.is_none() {
        match walker.path.0.pop_front() {
            Some(first) => {
                walker.next = NextCell(Some(first));
            },
            None => {},
        }
    }
    let target_cell = match walker.next.0 {
        Some(c) => c,
        None => {
            return Step::Rest;
        },
    };
    let mut target_pos = match place_of(places, map, target_cell) {
        Some(p) => p,
        None => {
            return Step::Lost(target_cell);
        },
    };
    let mut advanced = false;
    if is_within_reach(walker.position, target_pos) {
        walker.past = PastCell { cell: target_cell, start_time: now };
        match walker.path.0.pop_front() {
            Some(next) => {
                walker.next = NextCell(Some(next));
                match place_of(places, map, next) {
                    Some(p) => {
                        target_pos = p;
                    },
                    None => {
                        return Step::Lost(next);
                    },
                }
                advanced = true;
            },
            None => {
                walker.next = NextCell(None);
                return Step::Arrived;
            },
        }
    }
    let past_pos = match place_of(places, map, walker.past.cell) {
        Some(p) => p,
        None => {
            return Step::Lost(walker.past.cell);
        },
    };
    walker.position = lerp_places(past_pos, target_pos, progress_at(walker.past.start_time, now));
    Step::Moved { toward: target_pos, advanced }
}

/// What came of setting a new goal for an agent.
#[derive(Clone, Copy, Debug, PartialEq, Eq, Structural)]
pub enum Plan {
    /// The grid has no cell at the goal. The path stays; the goal stands.
    NoCell,
    /// The goal cannot be crossed. The path stays; the goal stands.
    Blocked,
    /// No path was found. The path stays; the goal is given up.
    NoPath,
    /// The path is the one that was found; the goal is taken care of.
    Routed,
}

/// Sets the path of an agent to one that leads to `target`, from the
/// waypoint that it pursues or, if it pursues none, from the last one that
/// it reached.
pub fn build_path(
    path: &mut Path,
    target: Coord,
    next: &NextCell,
    past: &PastCell,
    cells: &CostField,
    map: &CellIdToEntity,
) -> (plan: Plan)
    ensures
        plan == Plan::NoCell <==> !map.ids().contains_key(target),
        plan == Plan::Blocked <==> goal_refused(cost_map(map.ids(), cells@), target),
        plan != Plan::Routed ==> final(path).0@ == old(path).0@,
        plan == Plan::Routed ==> {
            &&& found_path(search(cost_map(map.ids(), cells@), plan_start(*next, *past), target, SEARCH_BUDGET))
                == Some(final(path).0@)
            &&& is_path(cost_map(map.ids(), cells@), final(path).0@, plan_start(*next, *past), target)
        },
        plan == Plan::NoPath ==> {
            &&& found_path(
                search(cost_map(map.ids(), cells@), plan_start(*next, *past), target, SEARCH_BUDGET),
            ).is_none()
            &&& plan_start(*next, *past) != target
        },
        !reachable(cost_map(map.ids(), cells@), plan_start(*next, *past), target) ==> plan != Plan::Routed,
{
    match cost_of(cells, map, target) {
        None => {
            return Plan::NoCell;
        },
        Some(cost) => {
            if cost.is_infinite() {
                return Plan::Blocked;
            }
        },
    }
    let start = match next.0 {
        Some(n) => n,
        None => past.cell,
    };
    match a_star_debug(start, target, cells, map) {
        None => Plan::NoPath,
        Some(found) => {
            let new_path = found.0;
            path.0.clear();
            let mut i: usize = 0;
            while i < new_path.len()
                invariant
                    i <= new_path.len(),
                    path.0@ == new_path@.take(i as int),
                decreases new_path.len() - i,
            {
                path.0.push_back(new_path[i]);
                i = i + 1;
            }
            assert(path.0@ == new_path@);
            Plan::Routed
        },
    }
}

/// The cell from which a new path starts: the waypoint that is pursued, or
/// the last one that was reached.
pub open spec fn plan_start(next: NextCell, past: PastCell) -> Coord {
    match next.0 {
        Some(n) => n,
        None => past.cell,
    }
}

} // verus!
