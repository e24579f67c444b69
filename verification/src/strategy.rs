//! Movement strategies.

use vstd::prelude::*;
use std::collections::HashSet;
use std::collections::VecDeque;
use crate::paths::{direction, is_best_path, is_path, reaches_resource, step, walk};
use crate::search::{
    expand_inv, lemma_exhausted, lemma_expand_done, lemma_expand_push, lemma_expand_skip,
    lemma_front_is_least, lemma_pop, lemma_start_done, lemma_start_empty, lemma_start_push,
    lemma_start_skip, search_inv, start_inv, visited_cell,
};
use crate::state::{Cell, GameState};

verus! {

/// A movement strategy: looks at the game state and proposes a step.
pub trait Strategy: Send {
    /// The states on which this strategy can be asked for a move.
    spec fn accepts(&self, state: &GameState) -> bool;

    /// Decides the next move: `Some((dx, dy))` with `dx, dy` in `{-1, 0, 1}`,
    /// or `None` to stay in place.
    fn next_move(&self, state: &GameState) -> (m: Option<(i8, i8)>)
        requires
            self.accepts(state),
        ensures
            m matches Some((dx, dy)) ==> -1 <= dx <= 1 && -1 <= dy <= 1,
    ;
}

} // verus!

verus! {

pub open spec fn abs(v: int) -> int {
    if v < 0 {
        -v
    } else {
        v
    }
}

pub open spec fn sign(v: int) -> int {
    if v > 0 {
        1
    } else if v < 0 {
        -1
    } else {
        0
    }
}

/// Horizontal offset from the bot to resource `i`.
pub open spec fn offset_x(state: &GameState, i: int) -> int {
    state.resources@[i].x - state.position.0
}

/// Vertical offset from the bot to resource `i`.
pub open spec fn offset_y(state: &GameState, i: int) -> int {
    state.resources@[i].y - state.position.1
}

/// Manhattan distance from the bot to resource `i`.
pub open spec fn manhattan(state: &GameState, i: int) -> int {
    abs(offset_x(state, i)) + abs(offset_y(state, i))
}

/// Resource `i` is at the smallest distance, and no resource before it is.
pub open spec fn is_first_nearest(state: &GameState, i: int) -> bool {
    &&& 0 <= i < state.resources@.len()
    &&& forall|j: int|
        0 <= j < state.resources@.len() ==> manhattan(state, i) <= #[trigger] manhattan(state, j)
    &&& forall|j: int| 0 <= j < i ==> manhattan(state, i) < #[trigger] manhattan(state, j)
}

/// The unit step from the bot towards resource `i`.
pub open spec fn step_towards(state: &GameState, i: int) -> (int, int) {
    (sign(offset_x(state, i)), sign(offset_y(state, i)))
}

/// The resource the nearest-resource strategy heads for is nearest in
/// Manhattan distance: no resource has a smaller sum of its horizontal and
/// vertical distances to the bot, and every resource listed before it has a
/// larger one.
pub proof fn lemma_first_nearest_is_manhattan_nearest(state: &GameState, i: int, j: int)
    requires
        is_first_nearest(state, i),
        0 <= j < state.resources@.len(),
    ensures
        vstd::math::abs(state.resources@[i].x - state.position.0) + vstd::math::abs(
            state.resources@[i].y - state.position.1,
        ) <= vstd::math::abs(state.resources@[j].x - state.position.0) + vstd::math::abs(
            state.resources@[j].y - state.position.1,
        ),
        j < i ==> vstd::math::abs(state.resources@[i].x - state.position.0) + vstd::math::abs(
            state.resources@[i].y - state.position.1,
        ) < vstd::math::abs(state.resources@[j].x - state.position.0) + vstd::math::abs(
            state.resources@[j].y - state.position.1,
        ),
{
    assert(manhattan(state, i) <= manhattan(state, j));
    if j < i {
        assert(manhattan(state, i) < manhattan(state, j));
    }
}

/// The step towards resource `i` closes the gap on each axis: it is 0 where
/// the bot is level with the resource, and otherwise one cell towards it
/// (the step times the offset is the offset's absolute value).
pub proof fn lemma_step_towards_closes_gap(state: &GameState, i: int)
    requires
        0 <= i < state.resources@.len(),
    ensures
        -1 <= step_towards(state, i).0 <= 1,
        -1 <= step_towards(state, i).1 <= 1,
        step_towards(state, i).0 * (state.resources@[i].x - state.position.0) == vstd::math::abs(
            state.resources@[i].x - state.position.0,
        ),
        step_towards(state, i).1 * (state.resources@[i].y - state.position.1) == vstd::math::abs(
            state.resources@[i].y - state.position.1,
        ),
        (step_towards(state, i).0 == 0) == (state.resources@[i].x == state.position.0),
        (step_towards(state, i).1 == 0) == (state.resources@[i].y == state.position.1),
{
    let ox = state.resources@[i].x - state.position.0;
    let oy = state.resources@[i].y - state.position.1;
    if ox > 0 {
        assert(1 * ox == ox);
    } else if ox < 0 {
        assert(-1 * ox == -ox);
    } else {
        assert(0 * ox == 0);
    }
    if oy > 0 {
        assert(1 * oy == oy);
    } else if oy < 0 {
        assert(-1 * oy == -oy);
    } else {
        assert(0 * oy == 0);
    }
}

/// At most one resource is the first nearest one.
pub proof fn lemma_first_nearest_unique(state: &GameState, i: int, j: int)
    requires
        is_first_nearest(state, i),
        is_first_nearest(state, j),
    ensures
        i == j,
{
    if i < j {
        assert(manhattan(state, j) < manhattan(state, i));
    } else if j < i {
        assert(manhattan(state, i) < manhattan(state, j));
    }
}

fn abs_i32(v: i32) -> (r: i32)
    requires
        v > i32::MIN,
    ensures
        r == abs(v as int),
{
    if v < 0 {
        -v
    } else {
        v
    }
}

fn sign_i32(v: i32) -> (r: i8)
    ensures
        r == sign(v as int),
{
    if v > 0 {
        1
    } else if v < 0 {
        -1
    } else {
        0
    }
}

/// Offsets from the bot to resource `i`.
fn resource_offsets(state: &GameState, i: usize) -> (o: (i32, i32))
    requires
        i < state.resources@.len(),
    ensures
        o.0 == offset_x(state, i as int),
        o.1 == offset_y(state, i as int),
{
    let r = &state.resources[i];
    let dx = r.x as i32 - state.position.0 as i32;
    let dy = r.y as i32 - state.position.1 as i32;
    (dx, dy)
}

/// Heads for the resource at the smallest Manhattan distance.
pub struct NearestResourceStrategy;

impl NearestResourceStrategy {
    /// Distance from the bot to resource `i`.
    fn distance_to(state: &GameState, i: usize) -> (d: i32)
        requires
            i < state.resources@.len(),
        ensures
            d == manhattan(state, i as int),
    {
        let (dx, dy) = resource_offsets(state, i);
        let ax = abs_i32(dx);
        let ay = abs_i32(dy);
        ax + ay
    }
}

impl Strategy for NearestResourceStrategy {
    open spec fn accepts(&self, state: &GameState) -> bool {
        true
    }

    /// Steps towards the first of the resources at the smallest Manhattan
    /// distance: the step on each axis is the sign of the offset. `None` when
    /// there is no resource.
    fn next_move(&self, state: &GameState) -> (m: Option<(i8, i8)>)
        ensures
            m is None <==> state.resources@.len() == 0,
            m matches Some((dx, dy)) ==> exists|i: int|
                is_first_nearest(state, i) && step_towards(state, i) == (dx as int, dy as int),
    {
        let n = state.resources.len();
        if n == 0 {
            return None;
        }
        let mut best: usize = 0;
        let mut best_d = Self::distance_to(state, 0);
        let mut i: usize = 1;
        while i < n
            invariant
                n == state.resources@.len(),
                1 <= i <= n,
                best < i,
                best_d == manhattan(state, best as int),
                forall|j: int| 0 <= j < i ==> manhattan(state, best as int) <= #[trigger] manhattan(state, j),
                forall|j: int| 0 <= j < best ==> manhattan(state, best as int) < #[trigger] manhattan(state, j),
            decreases n - i,
        {
            let d = Self::distance_to(state, i);
            if d < best_d {
                best = i;
                best_d = d;
            }
            i = i + 1;
        }
        let (dx, dy) = resource_offsets(state, best);
        let m = (sign_i32(dx), sign_i32(dy));
        assert(is_first_nearest(state, best as int));
        Some(m)
    }
}

} // verus!

verus! {

broadcast use vstd::std_specs::hash::group_hash_axioms;

/// The number that stands for cell `(x, y)` in the hash sets of the search.
pub open spec fn cell_key(x: u16, y: u16) -> u32 {
    (x as int * 0x10000 + y as int) as u32
}

pub proof fn lemma_cell_key_injective(x1: u16, y1: u16, x2: u16, y2: u16)
    ensures
        cell_key(x1, y1) == cell_key(x2, y2) ==> x1 == x2 && y1 == y2,
{
}

fn make_cell_key(x: u16, y: u16) -> (k: u32)
    ensures
        k == cell_key(x, y),
{
    (x as u32) * 0x10000 + (y as u32)
}

pub open spec fn cell_of(p: (u16, u16)) -> Cell {
    (p.0 as int, p.1 as int)
}

/// The cell one move `d` away from `p`.
pub open spec fn neighbor(p: (u16, u16), d: int) -> Cell {
    step(cell_of(p), d)
}

pub open spec fn neighbor_pos(p: (u16, u16), d: int) -> (u16, u16) {
    (neighbor(p, d).0 as u16, neighbor(p, d).1 as u16)
}

pub open spec fn neighbor_key(p: (u16, u16), d: int) -> u32 {
    cell_key(neighbor_pos(p, d).0, neighbor_pos(p, d).1)
}

/// `s` holds exactly the keys of the obstacle cells.
pub open spec fn obstacles_match(state: &GameState, s: Set<u32>) -> bool {
    forall|x: u16, y: u16|
        #![trigger cell_key(x, y)]
        s.contains(cell_key(x, y)) <==> state.is_obstacle((x as int, y as int))
}

/// `s` holds exactly the keys of the resource cells.
pub open spec fn resources_match(state: &GameState, s: Set<u32>) -> bool {
    forall|x: u16, y: u16|
        #![trigger cell_key(x, y)]
        s.contains(cell_key(x, y)) <==> state.is_resource((x as int, y as int))
}

/// `s` holds exactly the keys of the cells the search has met.
pub open spec fn visited_match(
    state: &GameState,
    s: Set<u32>,
    paths: Seq<Seq<int>>,
    expanded: Set<Cell>,
) -> bool {
    forall|x: u16, y: u16|
        #![trigger cell_key(x, y)]
        s.contains(cell_key(x, y)) <==> visited_cell(state, paths, expanded, (x as int, y as int))
}

/// Entry `i` of the queue holds the end cell of path `i` and its first move.
pub open spec fn queue_match(
    state: &GameState,
    queue: Seq<((u16, u16), (i8, i8))>,
    paths: Seq<Seq<int>>,
) -> bool {
    &&& queue.len() == paths.len()
    &&& forall|i: int|
        0 <= i < queue.len() ==> {
            &&& cell_of((#[trigger] queue[i]).0) == walk(state.start(), paths[i])
            &&& (queue[i].1.0 as int, queue[i].1.1 as int) == direction(paths[i][0])
        }
}

fn obstacle_set(state: &GameState) -> (s: HashSet<u32>)
    ensures
        obstacles_match(state, s@),
{
    let mut s: HashSet<u32> = HashSet::new();
    let n = state.obstacles.len();
    let mut i: usize = 0;
    while i < n
        invariant
            n == state.obstacles@.len(),
            i <= n,
            forall|x: u16, y: u16|
                #![trigger cell_key(x, y)]
                s@.contains(cell_key(x, y)) <==> exists|j: int|
                    0 <= j < i && (x as int, y as int) == (
                        #[trigger] state.obstacles@[j].0 as int,
                        state.obstacles@[j].1 as int,
                    ),
        decreases n - i,
    {
        let (ox, oy) = state.obstacles[i];
        let k = make_cell_key(ox, oy);
        s.insert(k);
        proof {
            assert forall|x: u16, y: u16|
                #![trigger cell_key(x, y)]
                s@.contains(cell_key(x, y)) <==> exists|j: int|
                    0 <= j < i + 1 && (x as int, y as int) == (
                        #[trigger] state.obstacles@[j].0 as int,
                        state.obstacles@[j].1 as int,
                    ) by {
                lemma_cell_key_injective(x, y, ox, oy);
                if x == ox && y == oy {
                    assert(state.obstacles@[i as int] == (ox, oy));
                }
            }
        }
        i = i + 1;
    }
    s
}

fn resource_set(state: &GameState) -> (s: HashSet<u32>)
    ensures
        resources_match(state, s@),
{
    let mut s: HashSet<u32> = HashSet::new();
    let n = state.resources.len();
    let mut i: usize = 0;
    while i < n
        invariant
            n == state.resources@.len(),
            i <= n,
            forall|x: u16, y: u16|
                #![trigger cell_key(x, y)]
                s@.contains(cell_key(x, y)) <==> exists|j: int|
                    0 <= j < i && (x as int, y as int) == (
                        #[trigger] state.resources@[j].x as int,
                        state.resources@[j].y as int,
                    ),
        decreases n - i,
    {
        let rx = state.resources[i].x;
        let ry = state.resources[i].y;
        let k = make_cell_key(rx, ry);
        s.insert(k);
        proof {
            assert forall|x: u16, y: u16|
                #![trigger cell_key(x, y)]
                s@.contains(cell_key(x, y)) <==> exists|j: int|
                    0 <= j < i + 1 && (x as int, y as int) == (
                        #[trigger] state.resources@[j].x as int,
                        state.resources@[j].y as int,
                    ) by {
                lemma_cell_key_injective(x, y, rx, ry);
                if x == rx && y == ry {
                    assert(state.resources@[i as int].x == rx);
                }
            }
        }
        i = i + 1;
    }
    s
}

/// The move with index `d`, as `(dx, dy)`.
fn direction_of(d: usize) -> (r: (i8, i8))
    requires
        d < 4,
    ensures
        (r.0 as int, r.1 as int) == direction(d as int),
{
    if d == 0 {
        (0, 1)
    } else if d == 1 {
        (0, -1)
    } else if d == 2 {
        (1, 0)
    } else {
        (-1, 0)
    }
}

/// Tries move `d` out of `from`: when it lands on an open cell not met yet,
/// marks that cell as met and queues it with the first move `first`.
fn visit_neighbor(
    state: &GameState,
    obstacles: &HashSet<u32>,
    visited: &mut HashSet<u32>,
    queue: &mut VecDeque<((u16, u16), (i8, i8))>,
    from: (u16, u16),
    d: usize,
    first: (i8, i8),
) -> (pushed: bool)
    requires
        d < 4,
        obstacles_match(state, obstacles@),
    ensures
        pushed ==> state.is_open(neighbor(from, d as int)),
        pushed ==> !old(visited)@.contains(neighbor_key(from, d as int)),
        pushed ==> final(visited)@ == old(visited)@.insert(neighbor_key(from, d as int)),
        pushed ==> final(queue)@ == old(queue)@.push((neighbor_pos(from, d as int), first)),
        !pushed ==> !state.is_open(neighbor(from, d as int)) || old(visited)@.contains(
            neighbor_key(from, d as int),
        ),
        !pushed ==> final(visited)@ == old(visited)@,
        !pushed ==> final(queue)@ == old(queue)@,
{
    let (dx, dy) = direction_of(d);
    let nx = from.0 as i32 + dx as i32;
    let ny = from.1 as i32 + dy as i32;
    if nx >= 0 && nx < state.map_size.0 as i32 && ny >= 0 && ny < state.map_size.1 as i32 {
        let next_pos = (nx as u16, ny as u16);
        let k = make_cell_key(next_pos.0, next_pos.1);
        assert(next_pos == neighbor_pos(from, d as int));
        if !visited.contains(&k) && !obstacles.contains(&k) {
            visited.insert(k);
            queue.push_back((next_pos, first));
            return true;
        }
    }
    false
}


/// Marking a new cell as met and queueing it with the path `child` that
/// reached it keeps the hash set and the queue in step with the search.
proof fn lemma_push_keeps_match(
    state: &GameState,
    visited: Set<u32>,
    queue: Seq<((u16, u16), (i8, i8))>,
    paths: Seq<Seq<int>>,
    expanded: Set<Cell>,
    child: Seq<int>,
    pos: (u16, u16),
    first: (i8, i8),
)
    requires
        visited_match(state, visited, paths, expanded),
        queue_match(state, queue, paths),
        cell_of(pos) == walk(state.start(), child),
        (first.0 as int, first.1 as int) == direction(child[0]),
        forall|c: Cell|
            visited_cell(state, paths.push(child), expanded, c) <==> (visited_cell(
                state,
                paths,
                expanded,
                c,
            ) || c == cell_of(pos)),
    ensures
        visited_match(state, visited.insert(cell_key(pos.0, pos.1)), paths.push(child), expanded),
        queue_match(state, queue.push((pos, first)), paths.push(child)),
{
    let np = paths.push(child);
    let nq = queue.push((pos, first));
    assert forall|x: u16, y: u16|
        #![trigger cell_key(x, y)]
        visited.insert(cell_key(pos.0, pos.1)).contains(cell_key(x, y)) <==> visited_cell(
            state,
            np,
            expanded,
            (x as int, y as int),
        ) by {
        lemma_cell_key_injective(x, y, pos.0, pos.1);
    }
    assert forall|i: int| 0 <= i < nq.len() implies {
        &&& cell_of((#[trigger] nq[i]).0) == walk(state.start(), np[i])
        &&& (nq[i].1.0 as int, nq[i].1.1 as int) == direction(np[i][0])
    } by {
        if i < queue.len() {
            assert(nq[i] == queue[i]);
        }
    }
}

/// Every set of `u32` keys is finite and no larger than the set of all keys.
proof fn lemma_key_set_bounded(s: Set<u32>)
    ensures
        s.finite(),
        s.len() <= Set::<u32>::full().len(),
{
    broadcast use vstd::set_lib::full_set_properties;

    assert(Set::<u32>::full().finite());
    vstd::set_lib::lemma_len_subset(s, Set::<u32>::full());
}

/// Heads for the nearest reachable resource, found by a breadth-first search
/// over the open cells of the map.
pub struct BFSStrategy;

impl Strategy for BFSStrategy {
    open spec fn accepts(&self, state: &GameState) -> bool {
        true
    }

    /// Returns the first move of the best path to a resource: the shortest
    /// paths come first, and among them the one whose moves come first in the
    /// order up the y axis, down the y axis, up the x axis, down the x axis.
    /// `None` when no resource can be reached in one or more moves.
    fn next_move(&self, state: &GameState) -> (m: Option<(i8, i8)>)
        ensures
            m is None <==> !exists|ds: Seq<int>| reaches_resource(state, ds),
            m matches Some((dx, dy)) ==> exists|ds: Seq<int>|
                is_best_path(state, ds) && direction(ds[0]) == (dx as int, dy as int),
    {
        let start = state.position;
        let obstacles = obstacle_set(state);
        let resource_coords = resource_set(state);

        // queue entries: (cell, first move of the path that reached it)
        let mut queue: VecDeque<((u16, u16), (i8, i8))> = VecDeque::new();
        let mut visited: HashSet<u32> = HashSet::new();
        visited.insert(make_cell_key(start.0, start.1));
        let ghost mut paths: Seq<Seq<int>> = Seq::empty();
        proof {
            lemma_start_empty(state);
            assert forall|x: u16, y: u16|
                #![trigger cell_key(x, y)]
                visited@.contains(cell_key(x, y)) <==> visited_cell(
                    state,
                    paths,
                    Set::empty(),
                    (x as int, y as int),
                ) by {
                lemma_cell_key_injective(x, y, start.0, start.1);
            }
        }

        // the four first moves
        for d in 0..4
            invariant
                start == state.position,
                obstacles_match(state, obstacles@),
                start_inv(state, d as int, paths),
                queue_match(state, queue@, paths),
                visited_match(state, visited@, paths, Set::empty()),
        {
            let first = direction_of(d);
            let ghost old_visited = visited@;
            let ghost old_queue = queue@;
            let pushed = visit_neighbor(state, &obstacles, &mut visited, &mut queue, start, d, first);
            proof {
                let c = neighbor(start, d as int);
                let pos = neighbor_pos(start, d as int);
                if pushed {
                    lemma_start_push(state, d as int, paths);
                    let np = paths.push(seq![d as int]);
                    lemma_push_keeps_match(
                        state,
                        old_visited,
                        old_queue,
                        paths,
                        Set::empty(),
                        seq![d as int],
                        pos,
                        first,
                    );
                    paths = np;
                } else {
                    if state.is_open(c) {
                        assert(old_visited.contains(cell_key(pos.0, pos.1)));
                    }
                    lemma_start_skip(state, d as int, paths);
                }
            }
        }
        proof {
            lemma_start_done(state, paths);
            lemma_key_set_bounded(visited@);
        }
        let ghost mut expanded: Set<Cell> = Set::empty();

        loop
            invariant
                start == state.position,
                obstacles_match(state, obstacles@),
                resources_match(state, resource_coords@),
                search_inv(state, paths, expanded),
                queue_match(state, queue@, paths),
                visited_match(state, visited@, paths, expanded),
                visited@.finite(),
                visited@.len() <= Set::<u32>::full().len(),
            decreases Set::<u32>::full().len() - visited@.len() + queue@.len(),
        {
            let ghost old_queue = queue@;
            match queue.pop_front() {
                None => {
                    proof {
                        assert forall|ds: Seq<int>| !reaches_resource(state, ds) by {
                            if is_path(state, ds) {
                                lemma_exhausted(state, paths, expanded, ds);
                            }
                        }
                    }
                    return None;
                },
                Some(entry) => {
                    let (cur, first_step) = entry;
                    let ghost pu = paths[0];
                    let ghost u = walk(state.start(), pu);
                    assert(cell_of(old_queue[0].0) == u);
                    let k = make_cell_key(cur.0, cur.1);
                    if resource_coords.contains(&k) {
                        proof {
                            assert(reaches_resource(state, pu));
                            assert forall|ds: Seq<int>|
                                #![trigger reaches_resource(state, ds)]
                                reaches_resource(state, ds) implies crate::paths::path_le(pu, ds) by {
                                lemma_front_is_least(state, paths, expanded, ds);
                            }
                            assert(is_best_path(state, pu));
                        }
                        return Some(first_step);
                    }
                    proof {
                        lemma_pop(state, paths, expanded);
                        let rest = paths.drop_first();
                        assert forall|i: int| 0 <= i < queue@.len() implies {
                            &&& cell_of((#[trigger] queue@[i]).0) == walk(state.start(), rest[i])
                            &&& (queue@[i].1.0 as int, queue@[i].1.1 as int) == direction(
                                rest[i][0],
                            )
                        } by {
                            assert(queue@[i] == old_queue[i + 1]);
                        }
                        expanded = expanded.insert(u);
                        paths = rest;
                    }
                    let ghost diff = visited@.len() - queue@.len();
                    for d in 0..4
                        invariant
                            start == state.position,
                            obstacles_match(state, obstacles@),
                            resources_match(state, resource_coords@),
                            expand_inv(state, pu, d as int, paths, expanded),
                            queue_match(state, queue@, paths),
                            visited_match(state, visited@, paths, expanded),
                            cell_of(cur) == walk(state.start(), pu),
                            (first_step.0 as int, first_step.1 as int) == direction(pu[0]),
                            visited@.finite(),
                            visited@.len() <= Set::<u32>::full().len(),
                            visited@.len() - queue@.len() == diff,
                    {
                        let ghost old_visited = visited@;
                        let ghost old_queue2 = queue@;
                        let pushed = visit_neighbor(
                            state,
                            &obstacles,
                            &mut visited,
                            &mut queue,
                            cur,
                            d,
                            first_step,
                        );
                        proof {
                            let c = neighbor(cur, d as int);
                            let pos = neighbor_pos(cur, d as int);
                            if pushed {
                                lemma_expand_push(state, pu, d as int, paths, expanded);
                                let np = paths.push(pu.push(d as int));
                                lemma_push_keeps_match(
                                    state,
                                    old_visited,
                                    old_queue2,
                                    paths,
                                    expanded,
                                    pu.push(d as int),
                                    pos,
                                    first_step,
                                );
                                lemma_key_set_bounded(visited@);
                                paths = np;
                            } else {
                                if state.is_open(c) {
                                    assert(old_visited.contains(cell_key(pos.0, pos.1)));
                                }
                                lemma_expand_skip(state, pu, d as int, paths, expanded);
                            }
                        }
                    }
                    proof {
                        lemma_expand_done(state, pu, paths, expanded);
                    }
                },
            }
        }
    }
}

} // verus!
