//! Paths on the map, described by the sequence of direction indices they take,
//! and the order in which a breadth-first search meets them.

use vstd::prelude::*;
use crate::state::{Cell, GameState};

verus! {

/// The four moves, in the order the search tries them: up the y axis, down the
/// y axis, up the x axis, down the x axis.
pub open spec fn direction(d: int) -> (int, int) {
    if d == 0 {
        (0, 1)
    } else if d == 1 {
        (0, -1)
    } else if d == 2 {
        (1, 0)
    } else {
        (-1, 0)
    }
}

pub open spec fn step(c: Cell, d: int) -> Cell {
    (c.0 + direction(d).0, c.1 + direction(d).1)
}

/// The cell reached from `from` by taking the moves `ds` in turn.
pub open spec fn walk(from: Cell, ds: Seq<int>) -> Cell
    decreases ds.len(),
{
    if ds.len() == 0 {
        from
    } else {
        step(walk(from, ds.drop_last()), ds.last())
    }
}

/// `ds` is a non-empty path from the bot's cell: each move is one of the four,
/// and every cell it enters is an open cell of the map other than the start.
pub open spec fn is_path(state: &GameState, ds: Seq<int>) -> bool
    decreases ds.len(),
{
    &&& ds.len() >= 1
    &&& 0 <= ds.last() < 4
    &&& state.is_open(walk(state.start(), ds))
    &&& walk(state.start(), ds) != state.start()
    &&& (ds.len() == 1 || is_path(state, ds.drop_last()))
}

/// `a` and `b` take the same moves before position `i`.
pub open spec fn agree_before(a: Seq<int>, b: Seq<int>, i: int) -> bool {
    forall|j: int| 0 <= j < i ==> a[j] == b[j]
}

/// Lexicographic order on move sequences.
pub open spec fn lex_lt(a: Seq<int>, b: Seq<int>) -> bool {
    exists|i: int|
        0 <= i < a.len() && i < b.len() && #[trigger] agree_before(a, b, i) && a[i] < b[i]
}

/// Shorter paths first; among paths of one length, the lexicographic order of
/// their moves.
pub open spec fn path_lt(a: Seq<int>, b: Seq<int>) -> bool {
    a.len() < b.len() || (a.len() == b.len() && lex_lt(a, b))
}

pub open spec fn path_le(a: Seq<int>, b: Seq<int>) -> bool {
    a == b || path_lt(a, b)
}

/// `ds` comes first, in the order `path_lt`, among the paths to its end cell.
pub open spec fn is_canonical(state: &GameState, ds: Seq<int>) -> bool {
    forall|other: Seq<int>|
        #![trigger is_path(state, other), walk(state.start(), other)]
        is_path(state, other) && walk(state.start(), other) == walk(state.start(), ds)
            ==> path_le(ds, other)
}

/// `ds` is a path that ends on a resource.
pub open spec fn reaches_resource(state: &GameState, ds: Seq<int>) -> bool {
    is_path(state, ds) && state.is_resource(walk(state.start(), ds))
}

/// `ds` comes first, in the order `path_lt`, among the paths that end on a
/// resource: it is a shortest such path, and the lexicographically least of
/// the shortest ones.
pub open spec fn is_best_path(state: &GameState, ds: Seq<int>) -> bool {
    &&& reaches_resource(state, ds)
    &&& forall|other: Seq<int>|
        #![trigger reaches_resource(state, other)]
        reaches_resource(state, other) ==> path_le(ds, other)
}

pub proof fn lemma_path_lt_transitive(a: Seq<int>, b: Seq<int>, c: Seq<int>)
    requires
        path_lt(a, b),
        path_lt(b, c),
    ensures
        path_lt(a, c),
{
    if a.len() == b.len() && b.len() == c.len() {
        let i = choose|i: int|
            0 <= i < a.len() && i < b.len() && #[trigger] agree_before(a, b, i) && a[i] < b[i];
        let j = choose|j: int|
            0 <= j < b.len() && j < c.len() && #[trigger] agree_before(b, c, j) && b[j] < c[j];
        let k = if i < j { i } else { j };
        assert(agree_before(a, c, k));
        assert(a[k] < c[k]);
    }
}

pub proof fn lemma_path_le_lt(a: Seq<int>, b: Seq<int>, c: Seq<int>)
    requires
        path_le(a, b),
        path_lt(b, c),
    ensures
        path_lt(a, c),
{
    if a != b {
        lemma_path_lt_transitive(a, b, c);
    }
}

pub proof fn lemma_path_lt_le(a: Seq<int>, b: Seq<int>, c: Seq<int>)
    requires
        path_lt(a, b),
        path_le(b, c),
    ensures
        path_lt(a, c),
{
    if b != c {
        lemma_path_lt_transitive(a, b, c);
    }
}

pub proof fn lemma_path_le_antisymmetric(a: Seq<int>, b: Seq<int>)
    requires
        path_le(a, b),
        path_le(b, a),
    ensures
        a == b,
{
    if a != b {
        lemma_path_lt_transitive(a, b, a);
    }
}

/// Extending two paths by one move each keeps their order.
pub proof fn lemma_push_keeps_order(a: Seq<int>, b: Seq<int>, x: int, y: int)
    requires
        path_lt(a, b),
    ensures
        path_lt(a.push(x), b.push(y)),
{
    if a.len() == b.len() {
        let i = choose|i: int|
            0 <= i < a.len() && i < b.len() && #[trigger] agree_before(a, b, i) && a[i] < b[i];
        assert(agree_before(a.push(x), b.push(y), i));
    }
}

/// Two extensions of one path are ordered by their last moves.
pub proof fn lemma_push_last_move(a: Seq<int>, x: int, y: int)
    requires
        x < y,
    ensures
        path_lt(a.push(x), a.push(y)),
{
    assert(agree_before(a.push(x), a.push(y), a.len() as int));
}

pub proof fn lemma_walk_push(from: Cell, ds: Seq<int>, d: int)
    ensures
        walk(from, ds.push(d)) == step(walk(from, ds), d),
{
    assert(ds.push(d).drop_last() =~= ds);
}

pub proof fn lemma_is_path_push(state: &GameState, ds: Seq<int>, d: int)
    requires
        is_path(state, ds),
        0 <= d < 4,
        state.is_open(step(walk(state.start(), ds), d)),
        step(walk(state.start(), ds), d) != state.start(),
    ensures
        is_path(state, ds.push(d)),
        walk(state.start(), ds.push(d)) == step(walk(state.start(), ds), d),
{
    lemma_walk_push(state.start(), ds, d);
    assert(ds.push(d).drop_last() =~= ds);
}

pub proof fn lemma_single_move_path(state: &GameState, d: int)
    requires
        0 <= d < 4,
        state.is_open(step(state.start(), d)),
    ensures
        is_path(state, seq![d]),
        walk(state.start(), seq![d]) == step(state.start(), d),
{
    reveal_with_fuel(walk, 2);
    assert(seq![d].drop_last() =~= Seq::<int>::empty());
}

/// A path is its prefix extended by its last move.
pub proof fn lemma_split_last(state: &GameState, ds: Seq<int>)
    requires
        is_path(state, ds),
        ds.len() >= 2,
    ensures
        is_path(state, ds.drop_last()),
        ds == ds.drop_last().push(ds.last()),
        walk(state.start(), ds) == step(walk(state.start(), ds.drop_last()), ds.last()),
        0 <= ds.last() < 4,
{
    assert(ds =~= ds.drop_last().push(ds.last()));
}

/// A one-move path.
pub proof fn lemma_single_split(state: &GameState, ds: Seq<int>)
    requires
        is_path(state, ds),
        ds.len() == 1,
    ensures
        ds == seq![ds[0]],
        walk(state.start(), ds) == step(state.start(), ds[0]),
        0 <= ds[0] < 4,
{
    reveal_with_fuel(walk, 2);
    assert(ds =~= seq![ds[0]]);
    assert(ds.drop_last() =~= Seq::<int>::empty());
}

/// Only the first of the best paths exists: two best paths are equal.
pub proof fn lemma_best_path_unique(state: &GameState, a: Seq<int>, b: Seq<int>)
    requires
        is_best_path(state, a),
        is_best_path(state, b),
    ensures
        a == b,
{
    assert(reaches_resource(state, a));
    assert(reaches_resource(state, b));
    lemma_path_le_antisymmetric(a, b);
}


/// The cell reached after the first `i` moves of `ds`.
pub open spec fn cell_at(from: Cell, ds: Seq<int>, i: int) -> Cell {
    walk(from, ds.take(i))
}

/// Every move of `ds` is one of the four and every cell it enters is open; it
/// may come back to `from`.
pub open spec fn open_walk(state: &GameState, from: Cell, ds: Seq<int>) -> bool {
    &&& forall|i: int| 0 <= i < ds.len() ==> 0 <= #[trigger] ds[i] < 4
    &&& forall|i: int| 1 <= i <= ds.len() ==> state.is_open(#[trigger] cell_at(from, ds, i))
}

proof fn lemma_walk_concat(from: Cell, x: Seq<int>, y: Seq<int>)
    ensures
        walk(from, x + y) == walk(walk(from, x), y),
    decreases y.len(),
{
    if y.len() == 0 {
        assert(x + y =~= x);
    } else {
        assert((x + y).drop_last() =~= x + y.drop_last());
        lemma_walk_concat(from, x, y.drop_last());
    }
}

/// A walk that starts with move `d` is, after that move, a walk from the
/// neighbour.
proof fn lemma_cell_after_first(from: Cell, d: int, w: Seq<int>, k: int)
    requires
        0 <= k <= w.len(),
    ensures
        cell_at(from, seq![d] + w, k + 1) == cell_at(step(from, d), w, k),
{
    reveal_with_fuel(walk, 2);
    assert((seq![d] + w).take(k + 1) =~= seq![d] + w.take(k));
    lemma_walk_concat(from, seq![d], w.take(k));
    assert(seq![d].drop_last() =~= Seq::<int>::empty());
}

/// The part of a walk after a return to its start is a walk from the start.
proof fn lemma_cell_after_return(from: Cell, w: Seq<int>, i: int, k: int)
    requires
        0 <= i <= w.len(),
        0 <= k <= w.len() - i,
        cell_at(from, w, i) == from,
    ensures
        cell_at(from, w.skip(i), k) == cell_at(from, w, i + k),
{
    assert(w.take(i + k) =~= w.take(i) + w.skip(i).take(k));
    lemma_walk_concat(from, w.take(i), w.skip(i).take(k));
}

proof fn lemma_path_is_open_walk(state: &GameState, ds: Seq<int>)
    requires
        is_path(state, ds),
    ensures
        open_walk(state, state.start(), ds),
        forall|i: int| 1 <= i <= ds.len() ==> #[trigger] cell_at(state.start(), ds, i) != state.start(),
    decreases ds.len(),
{
    let s = state.start();
    assert(ds.take(ds.len() as int) =~= ds);
    if ds.len() >= 2 {
        let pre = ds.drop_last();
        lemma_split_last(state, ds);
        lemma_path_is_open_walk(state, pre);
        assert forall|i: int| 1 <= i < ds.len() implies #[trigger] cell_at(s, ds, i) == cell_at(
            s,
            pre,
            i,
        ) by {
            assert(ds.take(i) =~= pre.take(i));
        }
        assert forall|i: int| 0 <= i < ds.len() implies 0 <= #[trigger] ds[i] < 4 by {
            if i < pre.len() {
                assert(ds[i] == pre[i]);
            }
        }
    }
}

proof fn lemma_open_walk_is_path(state: &GameState, ds: Seq<int>)
    requires
        ds.len() >= 1,
        open_walk(state, state.start(), ds),
        forall|i: int| 1 <= i <= ds.len() ==> #[trigger] cell_at(state.start(), ds, i) != state.start(),
    ensures
        is_path(state, ds),
    decreases ds.len(),
{
    let s = state.start();
    assert(ds.take(ds.len() as int) =~= ds);
    assert(cell_at(s, ds, ds.len() as int) == walk(s, ds));
    assert(0 <= ds[ds.len() - 1] < 4);
    if ds.len() >= 2 {
        let pre = ds.drop_last();
        assert forall|i: int| 1 <= i <= pre.len() implies #[trigger] cell_at(s, pre, i) == cell_at(
            s,
            ds,
            i,
        ) by {
            assert(ds.take(i) =~= pre.take(i));
        }
        assert forall|i: int| 0 <= i < pre.len() implies 0 <= #[trigger] pre[i] < 4 by {
            assert(pre[i] == ds[i]);
        }
        lemma_open_walk_is_path(state, pre);
    }
}

/// An open walk from the start to a resource, when the start holds no
/// resource, can be cut down to a path to a resource that is no longer.
proof fn lemma_walk_to_path(state: &GameState, w: Seq<int>)
    requires
        w.len() >= 1,
        open_walk(state, state.start(), w),
        state.is_resource(walk(state.start(), w)),
        !state.is_resource(state.start()),
    ensures
        exists|p: Seq<int>| reaches_resource(state, p) && p.len() <= w.len(),
    decreases w.len(),
{
    let s = state.start();
    assert(w.take(w.len() as int) =~= w);
    if forall|i: int| 1 <= i <= w.len() ==> #[trigger] cell_at(s, w, i) != s {
        lemma_open_walk_is_path(state, w);
        assert(reaches_resource(state, w));
    } else {
        let i = choose|i: int| 1 <= i <= w.len() && #[trigger] cell_at(s, w, i) == s;
        assert(i < w.len());
        let rest = w.skip(i);
        assert forall|k: int| 1 <= k <= rest.len() implies state.is_open(
            #[trigger] cell_at(s, rest, k),
        ) by {
            lemma_cell_after_return(s, w, i, k);
        }
        assert forall|k: int| 0 <= k < rest.len() implies 0 <= #[trigger] rest[k] < 4 by {
            assert(rest[k] == w[i + k]);
        }
        lemma_cell_after_return(s, w, i, rest.len() as int);
        assert(rest.take(rest.len() as int) =~= rest);
        lemma_walk_to_path(state, rest);
    }
}

/// Following the best path makes progress. Let `t` be the state `s` with the
/// bot moved by the first move of the best path `ds` from `s`, where the bot's
/// cell in `s` holds no resource. If `ds` has one move, the bot now stands on
/// a resource. Otherwise the bot's new cell holds no resource, and the
/// shortest paths from `t` to a resource have exactly one move fewer than
/// `ds`. So a bot that keeps taking the first move of the best path reaches a
/// nearest resource after exactly as many moves as that path has, and meets
/// no resource before.
pub proof fn lemma_best_move_progresses(s: &GameState, t: &GameState, ds: Seq<int>)
    requires
        is_best_path(s, ds),
        !s.is_resource(s.start()),
        t.map_size == s.map_size,
        t.obstacles == s.obstacles,
        t.resources == s.resources,
        t.start() == step(s.start(), ds[0]),
    ensures
        ds.len() == 1 ==> t.is_resource(t.start()),
        ds.len() > 1 ==> !t.is_resource(t.start()),
        ds.len() > 1 ==> exists|p: Seq<int>| reaches_resource(t, p) && p.len() == ds.len() - 1,
        forall|other: Seq<int>| #[trigger] reaches_resource(t, other) ==> other.len() >= ds.len() - 1,
{
    let s0 = s.start();
    let c1 = t.start();
    let d0 = ds[0];
    assert(reaches_resource(s, ds));
    lemma_path_is_open_walk(s, ds);
    assert(ds.take(1) =~= seq![d0]);
    reveal_with_fuel(walk, 2);
    assert(seq![d0].drop_last() =~= Seq::<int>::empty());
    assert(cell_at(s0, ds, 1) == c1);
    assert(s.is_open(c1));
    assert(ds =~= seq![d0] + ds.drop_first());
    // no path from t reaches a resource in fewer moves
    assert forall|other: Seq<int>| #[trigger] reaches_resource(t, other) implies other.len()
        >= ds.len() - 1 by {
        lemma_path_is_open_walk(t, other);
        let w = seq![d0] + other;
        assert forall|k: int| 1 <= k <= w.len() implies s.is_open(#[trigger] cell_at(s0, w, k)) by {
            lemma_cell_after_first(s0, d0, other, k - 1);
            assert(t.is_open(cell_at(c1, other, k - 1)));
        }
        assert forall|k: int| 0 <= k < w.len() implies 0 <= #[trigger] w[k] < 4 by {
            if k > 0 {
                assert(w[k] == other[k - 1]);
            }
        }
        lemma_cell_after_first(s0, d0, other, other.len() as int);
        assert(w.take(w.len() as int) =~= w);
        assert(other.take(other.len() as int) =~= other);
        lemma_walk_to_path(s, w);
        let p = choose|p: Seq<int>| reaches_resource(s, p) && p.len() <= w.len();
        assert(path_le(ds, p));
    }
    if ds.len() == 1 {
        lemma_single_split(s, ds);
    } else {
        // the first cell of the best path holds no resource
        if t.is_resource(c1) {
            lemma_single_move_path(s, d0);
            assert(reaches_resource(s, seq![d0]));
            assert(path_le(ds, seq![d0]));
        }
        // the rest of the best path is an open walk from t to a resource
        let w = ds.drop_first();
        assert forall|k: int| 1 <= k <= w.len() implies t.is_open(#[trigger] cell_at(c1, w, k)) by {
            lemma_cell_after_first(s0, d0, w, k);
            assert(s.is_open(cell_at(s0, ds, k + 1)));
        }
        assert forall|k: int| 0 <= k < w.len() implies 0 <= #[trigger] w[k] < 4 by {
            assert(w[k] == ds[k + 1]);
        }
        lemma_cell_after_first(s0, d0, w, w.len() as int);
        assert(w.take(w.len() as int) =~= w);
        assert(ds.take(ds.len() as int) =~= ds);
        lemma_walk_to_path(t, w);
    }
}

/// The four moves, in the order the search tries them: one cell up the y
/// axis, one down the y axis, one up the x axis, one down the x axis.
pub proof fn lemma_move_order(c: Cell)
    ensures
        step(c, 0) == (c.0, c.1 + 1),
        step(c, 1) == (c.0, c.1 - 1),
        step(c, 2) == (c.0 + 1, c.1),
        step(c, 3) == (c.0 - 1, c.1),
{
}

/// No path reaches a cell in fewer moves than the Manhattan distance from the
/// bot's cell to it.
pub proof fn lemma_path_at_least_manhattan(state: &GameState, ds: Seq<int>)
    requires
        is_path(state, ds),
    ensures
        ds.len() >= vstd::math::abs(walk(state.start(), ds).0 - state.position.0)
            + vstd::math::abs(walk(state.start(), ds).1 - state.position.1),
    decreases ds.len(),
{
    if ds.len() == 1 {
        lemma_single_split(state, ds);
    } else {
        lemma_split_last(state, ds);
        lemma_path_at_least_manhattan(state, ds.drop_last());
    }
}

/// On a map without obstacles, a straight-line path of Manhattan length leads
/// from the bot's cell to any other cell of the map, when the bot is on the map.
proof fn lemma_open_map_path(state: &GameState, r: Cell)
    requires
        state.obstacles@.len() == 0,
        state.in_bounds(state.start()),
        state.in_bounds(r),
        r != state.start(),
    ensures
        exists|ds: Seq<int>|
            is_path(state, ds) && walk(state.start(), ds) == r && ds.len()
                == vstd::math::abs(r.0 - state.start().0) + vstd::math::abs(r.1 - state.start().1),
    decreases vstd::math::abs(r.0 - state.start().0) + vstd::math::abs(r.1 - state.start().1),
{
    let s = state.start();
    let (q, d): (Cell, int) = if r.0 > s.0 {
        ((r.0 - 1, r.1), 2)
    } else if r.0 < s.0 {
        ((r.0 + 1, r.1), 3)
    } else if r.1 > s.1 {
        ((r.0, r.1 - 1), 0)
    } else {
        ((r.0, r.1 + 1), 1)
    };
    assert(step(q, d) == r);
    assert(state.is_open(r));
    if q == s {
        lemma_single_move_path(state, d);
        assert(is_path(state, seq![d]) && walk(s, seq![d]) == r && seq![d].len()
            == vstd::math::abs(r.0 - s.0) + vstd::math::abs(r.1 - s.1));
    } else {
        lemma_open_map_path(state, q);
        let dq = choose|dq: Seq<int>|
            is_path(state, dq) && walk(s, dq) == q && dq.len() == vstd::math::abs(q.0 - s.0)
                + vstd::math::abs(q.1 - s.1);
        lemma_is_path_push(state, dq, d);
        assert(is_path(state, dq.push(d)) && walk(s, dq.push(d)) == r && dq.push(d).len()
            == vstd::math::abs(r.0 - s.0) + vstd::math::abs(r.1 - s.1));
    }
}

/// On a map without obstacles, with the bot on the map, every resource on the
/// map other than one under the bot is reached by a path whose length is its
/// Manhattan distance from the bot; so the breadth-first strategy moves, and
/// its best path is no longer than that distance.
pub proof fn lemma_open_map_reachable(state: &GameState, j: int)
    requires
        state.obstacles@.len() == 0,
        0 <= state.position.0 < state.map_size.0,
        0 <= state.position.1 < state.map_size.1,
        0 <= j < state.resources@.len(),
        0 <= state.resources@[j].x < state.map_size.0,
        0 <= state.resources@[j].y < state.map_size.1,
        !(state.resources@[j].x == state.position.0 && state.resources@[j].y
            == state.position.1),
    ensures
        exists|ds: Seq<int>|
            reaches_resource(state, ds) && ds.len() == vstd::math::abs(
                state.resources@[j].x - state.position.0,
            ) + vstd::math::abs(state.resources@[j].y - state.position.1),
        forall|ds: Seq<int>|
            is_best_path(state, ds) ==> ds.len() <= vstd::math::abs(
                state.resources@[j].x - state.position.0,
            ) + vstd::math::abs(state.resources@[j].y - state.position.1),
{
    let r = (state.resources@[j].x as int, state.resources@[j].y as int);
    lemma_open_map_path(state, r);
    let p = choose|ds: Seq<int>|
        is_path(state, ds) && walk(state.start(), ds) == r && ds.len() == vstd::math::abs(
            r.0 - state.start().0,
        ) + vstd::math::abs(r.1 - state.start().1);
    assert(state.is_resource(r));
    assert(reaches_resource(state, p));
    assert forall|ds: Seq<int>| is_best_path(state, ds) implies ds.len() <= vstd::math::abs(
        state.resources@[j].x - state.position.0,
    ) + vstd::math::abs(state.resources@[j].y - state.position.1) by {
        assert(path_le(ds, p));
    }
}

/// Every cell a path enters, after each of its moves, is an open cell of the
/// map other than the bot's cell, and every move is one of the four.
pub proof fn lemma_path_cells(state: &GameState, ds: Seq<int>, i: int)
    requires
        is_path(state, ds),
        1 <= i <= ds.len(),
    ensures
        state.is_open(walk(state.start(), ds.take(i))),
        walk(state.start(), ds.take(i)) != state.start(),
        0 <= ds[i - 1] < 4,
{
    lemma_path_is_open_walk(state, ds);
    assert(cell_at(state.start(), ds, i) == walk(state.start(), ds.take(i)));
}

/// The order on paths: a shorter path comes first; of two paths of one
/// length, the one with the smaller move at the first place where they differ.
pub proof fn lemma_path_order(a: Seq<int>, b: Seq<int>)
    ensures
        path_lt(a, b) <==> (a.len() < b.len() || (a.len() == b.len() && exists|i: int|
            0 <= i < a.len() && a[i] < b[i] && forall|j: int| 0 <= j < i ==> a[j] == b[j])),
{
    if a.len() == b.len() {
        if exists|i: int|
            0 <= i < a.len() && a[i] < b[i] && forall|j: int| 0 <= j < i ==> a[j] == b[j] {
            let i = choose|i: int|
                0 <= i < a.len() && a[i] < b[i] && forall|j: int| 0 <= j < i ==> a[j] == b[j];
            assert(agree_before(a, b, i));
        }
    }
}

/// The best path is as short as any path to a resource, and of the paths to a
/// resource of its length it has the smaller move at the first place where
/// they differ.
pub proof fn lemma_best_path_is_first(state: &GameState, ds: Seq<int>, other: Seq<int>)
    requires
        is_best_path(state, ds),
        is_path(state, other),
        state.is_resource(walk(state.start(), other)),
    ensures
        ds.len() <= other.len(),
        ds.len() == other.len() && ds != other ==> exists|i: int|
            0 <= i < ds.len() && ds[i] < other[i] && forall|j: int| 0 <= j < i ==> ds[j] == other[j],
{
    assert(reaches_resource(state, other));
    assert(path_le(ds, other));
    if ds.len() == other.len() && ds != other {
        let i = choose|i: int|
            0 <= i < ds.len() && i < other.len() && #[trigger] agree_before(ds, other, i)
                && ds[i] < other[i];
        assert(forall|j: int| 0 <= j < i ==> ds[j] == other[j]);
    }
}

} // verus!
