//! The invariants of the breadth-first search over the map, and the lemmas
//! that carry them from one step of the search to the next.

use vstd::prelude::*;
use crate::paths::{
    agree_before, is_canonical, is_path, lemma_is_path_push, lemma_path_le_lt,
    lemma_path_lt_le, lemma_path_lt_transitive, lemma_push_keeps_order,
    lemma_push_last_move, lemma_single_move_path, lemma_single_split, lemma_split_last, lex_lt,
    path_le, path_lt, step, walk,
};
use crate::state::{Cell, GameState};

verus! {

/// `c` is the end cell of one of the queued paths.
pub open spec fn in_queue(state: &GameState, paths: Seq<Seq<int>>, c: Cell) -> bool {
    exists|i: int| 0 <= i < paths.len() && #[trigger] walk(state.start(), paths[i]) == c
}

/// `c` has been met by the search: it is the start, a cell already expanded,
/// or a cell waiting in the queue.
pub open spec fn visited_cell(
    state: &GameState,
    paths: Seq<Seq<int>>,
    expanded: Set<Cell>,
    c: Cell,
) -> bool {
    c == state.start() || expanded.contains(c) || in_queue(state, paths, c)
}

/// Every open neighbour of `c` has been met.
pub open spec fn closed(
    state: &GameState,
    paths: Seq<Seq<int>>,
    expanded: Set<Cell>,
    c: Cell,
) -> bool {
    forall|d: int|
        0 <= d < 4 && state.is_open(#[trigger] step(c, d)) ==> visited_cell(
            state,
            paths,
            expanded,
            step(c, d),
        )
}

/// The queued paths are strictly increasing in the order `path_lt`.
pub open spec fn sorted(paths: Seq<Seq<int>>) -> bool {
    forall|i: int, j: int| 0 <= i < j < paths.len() ==> path_lt(#[trigger] paths[i], #[trigger] paths[j])
}

/// Every queued path is a path and the first path to its end cell.
pub open spec fn all_canonical(state: &GameState, paths: Seq<Seq<int>>) -> bool {
    forall|i: int|
        0 <= i < paths.len() ==> is_path(state, #[trigger] paths[i]) && is_canonical(state, paths[i])
}

/// Every queued path comes before `bound`.
pub open spec fn all_below(paths: Seq<Seq<int>>, bound: Seq<int>) -> bool {
    forall|i: int| 0 <= i < paths.len() ==> path_lt(#[trigger] paths[i], bound)
}

/// An expanded cell is open, is not the start and holds no resource.
pub open spec fn settled(state: &GameState, c: Cell) -> bool {
    state.is_open(c) && c != state.start() && !state.is_resource(c)
}

/// The state of the search between two expansions: `paths` are the queued
/// paths, `expanded` the cells already taken out of the queue.
pub open spec fn search_inv(state: &GameState, paths: Seq<Seq<int>>, expanded: Set<Cell>) -> bool {
    &&& all_canonical(state, paths)
    &&& sorted(paths)
    &&& paths.len() > 0 ==> all_below(paths, paths[0].push(0))
    &&& forall|c: Cell| #[trigger]
        expanded.contains(c) ==> settled(state, c) && closed(state, paths, expanded, c)
    &&& closed(state, paths, expanded, state.start())
}

/// No path avoiding the expanded cells comes before `least`.
pub open spec fn bounded_below(state: &GameState, expanded: Set<Cell>, least: Seq<int>) -> bool {
    forall|ds: Seq<int>|
        #![trigger is_path(state, ds)]
        is_path(state, ds) && !expanded.contains(walk(state.start(), ds)) ==> path_le(least, ds)
}

/// The state of the search while the cell at the end of `pu` is being expanded,
/// once the moves before `d` have been tried.
pub open spec fn expand_inv(
    state: &GameState,
    pu: Seq<int>,
    d: int,
    paths: Seq<Seq<int>>,
    expanded: Set<Cell>,
) -> bool {
    let u = walk(state.start(), pu);
    &&& is_path(state, pu)
    &&& is_canonical(state, pu)
    &&& expanded.contains(u)
    &&& all_canonical(state, paths)
    &&& sorted(paths)
    &&& all_below(paths, pu.push(d))
    &&& forall|i: int| 0 <= i < paths.len() ==> path_lt(pu, #[trigger] paths[i])
    &&& forall|c: Cell| #[trigger] expanded.contains(c) ==> settled(state, c)
    &&& forall|c: Cell|
        #[trigger] expanded.contains(c) && c != u ==> closed(state, paths, expanded, c)
    &&& forall|d2: int|
        0 <= d2 < d && state.is_open(#[trigger] step(u, d2)) ==> visited_cell(
            state,
            paths,
            expanded,
            step(u, d2),
        )
    &&& closed(state, paths, expanded, state.start())
    &&& bounded_below(state, expanded, pu)
}

/// The state of the search while the moves out of the start are being tried.
pub open spec fn start_inv(state: &GameState, d: int, paths: Seq<Seq<int>>) -> bool {
    &&& all_canonical(state, paths)
    &&& sorted(paths)
    &&& forall|i: int| 0 <= i < paths.len() ==> (#[trigger] paths[i]).len() == 1 && paths[i][0] < d
    &&& forall|d2: int|
        0 <= d2 < d && state.is_open(#[trigger] step(state.start(), d2)) ==> in_queue(
            state,
            paths,
            step(state.start(), d2),
        )
}

pub proof fn lemma_start_empty(state: &GameState)
    ensures
        start_inv(state, 0, Seq::empty()),
{
}

/// A move out of the start that is skipped.
pub proof fn lemma_start_skip(state: &GameState, d: int, paths: Seq<Seq<int>>)
    requires
        start_inv(state, d, paths),
        0 <= d < 4,
        !state.is_open(step(state.start(), d)) || visited_cell(
            state,
            paths,
            Set::empty(),
            step(state.start(), d),
        ),
    ensures
        start_inv(state, d + 1, paths),
{
    let s = state.start();
    assert forall|d2: int|
        0 <= d2 < d + 1 && state.is_open(#[trigger] step(s, d2)) implies in_queue(
        state,
        paths,
        step(s, d2),
    ) by {
        if d2 == d {
            assert(step(s, d) != s);
        }
    }
}

/// A move out of the start that is queued.
pub proof fn lemma_start_push(state: &GameState, d: int, paths: Seq<Seq<int>>)
    requires
        start_inv(state, d, paths),
        0 <= d < 4,
        state.is_open(step(state.start(), d)),
    ensures
        start_inv(state, d + 1, paths.push(seq![d])),
        is_path(state, seq![d]),
        walk(state.start(), seq![d]) == step(state.start(), d),
        forall|c: Cell|
            visited_cell(state, paths.push(seq![d]), Set::empty(), c) <==> (visited_cell(
                state,
                paths,
                Set::empty(),
                c,
            ) || c == step(state.start(), d)),
{
    let s = state.start();
    let child = seq![d];
    let np = paths.push(child);
    lemma_single_move_path(state, d);
    assert forall|other: Seq<int>|
        #![trigger is_path(state, other), walk(s, other)]
        is_path(state, other) && walk(s, other) == walk(s, child) implies path_le(child, other) by {
        if other.len() == 1 {
            lemma_single_split(state, other);
            assert(other =~= child);
        }
    }
    assert(is_canonical(state, child));
    assert forall|i: int, j: int| 0 <= i < j < np.len() implies path_lt(
        #[trigger] np[i],
        #[trigger] np[j],
    ) by {
        if j == paths.len() {
            assert(np[i].len() == 1 && np[i][0] < d);
            assert(agree_before(np[i], child, 0));
            assert(lex_lt(np[i], child));
        } else {
            assert(np[i] == paths[i] && np[j] == paths[j]);
        }
    }
    assert forall|d2: int|
        0 <= d2 < d + 1 && state.is_open(#[trigger] step(s, d2)) implies in_queue(
        state,
        np,
        step(s, d2),
    ) by {
        if d2 == d {
            assert(walk(s, np[paths.len() as int]) == step(s, d));
        } else {
            let i = choose|i: int| 0 <= i < paths.len() && #[trigger] walk(s, paths[i]) == step(s, d2);
            assert(walk(s, np[i]) == step(s, d2));
        }
    }
    assert forall|c: Cell|
        visited_cell(state, np, Set::empty(), c) <==> (visited_cell(state, paths, Set::empty(), c)
            || c == step(s, d)) by {
        if in_queue(state, np, c) {
            let i = choose|i: int| 0 <= i < np.len() && #[trigger] walk(s, np[i]) == c;
            if i < paths.len() {
                assert(walk(s, paths[i]) == c);
            }
        }
        if in_queue(state, paths, c) {
            let i = choose|i: int| 0 <= i < paths.len() && #[trigger] walk(s, paths[i]) == c;
            assert(walk(s, np[i]) == c);
        }
        if c == step(s, d) {
            assert(walk(s, np[paths.len() as int]) == c);
        }
    }
}

/// All moves out of the start have been tried.
pub proof fn lemma_start_done(state: &GameState, paths: Seq<Seq<int>>)
    requires
        start_inv(state, 4, paths),
    ensures
        search_inv(state, paths, Set::empty()),
{
    let s = state.start();
    if paths.len() > 0 {
        assert forall|i: int| 0 <= i < paths.len() implies path_lt(
            #[trigger] paths[i],
            paths[0].push(0),
        ) by {
            assert(paths[i].len() == 1);
        }
    }
    assert forall|d: int|
        0 <= d < 4 && state.is_open(#[trigger] step(s, d)) implies visited_cell(
        state,
        paths,
        Set::empty(),
        step(s, d),
    ) by {
        assert(in_queue(state, paths, step(s, d)));
    }
}

/// A path whose end cell is queued comes no earlier than the front of the queue.
proof fn lemma_queued_path(state: &GameState, paths: Seq<Seq<int>>, ds: Seq<int>)
    requires
        all_canonical(state, paths),
        sorted(paths),
        is_path(state, ds),
        in_queue(state, paths, walk(state.start(), ds)),
    ensures
        path_le(paths[0], ds),
{
    let s = state.start();
    let i = choose|i: int| 0 <= i < paths.len() && #[trigger] walk(s, paths[i]) == walk(s, ds);
    assert(is_canonical(state, paths[i]));
    assert(path_le(paths[i], ds));
    if i > 0 {
        assert(path_lt(paths[0], paths[i]));
        lemma_path_lt_le(paths[0], paths[i], ds);
    }
}

/// The front of the queue comes first among all paths to cells not expanded yet.
pub proof fn lemma_front_is_least(
    state: &GameState,
    paths: Seq<Seq<int>>,
    expanded: Set<Cell>,
    ds: Seq<int>,
)
    requires
        search_inv(state, paths, expanded),
        paths.len() > 0,
        is_path(state, ds),
        !expanded.contains(walk(state.start(), ds)),
    ensures
        path_le(paths[0], ds),
    decreases ds.len(),
{
    let s = state.start();
    let c = walk(s, ds);
    if ds.len() == 1 {
        lemma_single_split(state, ds);
        assert(closed(state, paths, expanded, s));
        assert(state.is_open(step(s, ds[0])));
        assert(visited_cell(state, paths, expanded, step(s, ds[0])));
        lemma_queued_path(state, paths, ds);
    } else {
        lemma_split_last(state, ds);
        let pre = ds.drop_last();
        let p = walk(s, pre);
        if expanded.contains(p) {
            assert(closed(state, paths, expanded, p));
            assert(state.is_open(step(p, ds.last())));
            assert(visited_cell(state, paths, expanded, step(p, ds.last())));
            lemma_queued_path(state, paths, ds);
        } else {
            lemma_front_is_least(state, paths, expanded, pre);
            lemma_path_le_lt(paths[0], pre, ds);
        }
    }
}

/// With the queue empty, every path ends on an expanded cell.
pub proof fn lemma_exhausted(
    state: &GameState,
    paths: Seq<Seq<int>>,
    expanded: Set<Cell>,
    ds: Seq<int>,
)
    requires
        search_inv(state, paths, expanded),
        paths.len() == 0,
        is_path(state, ds),
    ensures
        expanded.contains(walk(state.start(), ds)),
    decreases ds.len(),
{
    let s = state.start();
    if ds.len() == 1 {
        lemma_single_split(state, ds);
        assert(closed(state, paths, expanded, s));
        assert(state.is_open(step(s, ds[0])));
    } else {
        lemma_split_last(state, ds);
        let pre = ds.drop_last();
        let p = walk(s, pre);
        lemma_exhausted(state, paths, expanded, pre);
        assert(closed(state, paths, expanded, p));
        assert(state.is_open(step(p, ds.last())));
    }
}

/// Taking the front path out of the queue and starting to expand its end cell.
pub proof fn lemma_pop(state: &GameState, paths: Seq<Seq<int>>, expanded: Set<Cell>)
    requires
        search_inv(state, paths, expanded),
        paths.len() > 0,
        !state.is_resource(walk(state.start(), paths[0])),
    ensures
        expand_inv(
            state,
            paths[0],
            0,
            paths.drop_first(),
            expanded.insert(walk(state.start(), paths[0])),
        ),
        forall|c: Cell|
            visited_cell(state, paths, expanded, c) <==> visited_cell(
                state,
                paths.drop_first(),
                expanded.insert(walk(state.start(), paths[0])),
                c,
            ),
{
    let s = state.start();
    let pu = paths[0];
    let u = walk(s, pu);
    let rest = paths.drop_first();
    let ex = expanded.insert(u);
    assert(is_path(state, pu) && is_canonical(state, pu));
    assert forall|c: Cell|
        visited_cell(state, paths, expanded, c) <==> visited_cell(state, rest, ex, c) by {
        if in_queue(state, paths, c) {
            let i = choose|i: int| 0 <= i < paths.len() && #[trigger] walk(s, paths[i]) == c;
            if i > 0 {
                assert(walk(s, rest[i - 1]) == c);
            }
        }
        if in_queue(state, rest, c) {
            let i = choose|i: int| 0 <= i < rest.len() && #[trigger] walk(s, rest[i]) == c;
            assert(walk(s, paths[i + 1]) == c);
        }
        if ex.contains(c) && !expanded.contains(c) {
            assert(walk(s, paths[0]) == c);
        }
    }
    assert forall|ds: Seq<int>|
        #![trigger is_path(state, ds)]
        is_path(state, ds) && !ex.contains(walk(s, ds)) implies path_le(pu, ds) by {
        lemma_front_is_least(state, paths, expanded, ds);
    }
    assert forall|i: int| 0 <= i < rest.len() implies is_path(state, #[trigger] rest[i])
        && is_canonical(state, rest[i]) by {
        assert(rest[i] == paths[i + 1]);
    }
    assert forall|i: int, j: int| 0 <= i < j < rest.len() implies path_lt(
        #[trigger] rest[i],
        #[trigger] rest[j],
    ) by {
        assert(rest[i] == paths[i + 1] && rest[j] == paths[j + 1]);
    }
    assert forall|i: int| 0 <= i < rest.len() implies path_lt(#[trigger] rest[i], pu.push(0)) by {
        assert(rest[i] == paths[i + 1]);
    }
    assert forall|i: int| 0 <= i < rest.len() implies path_lt(pu, #[trigger] rest[i]) by {
        assert(rest[i] == paths[i + 1]);
    }
    assert forall|c: Cell| #[trigger] ex.contains(c) implies settled(state, c) by {
        if c == u {
            assert(walk(s, pu) != s);
        }
    }
    assert forall|c: Cell| #[trigger] ex.contains(c) && c != u implies closed(state, rest, ex, c) by {
        assert(closed(state, paths, expanded, c));
        assert forall|d: int|
            0 <= d < 4 && state.is_open(#[trigger] step(c, d)) implies visited_cell(
            state,
            rest,
            ex,
            step(c, d),
        ) by {
            assert(visited_cell(state, paths, expanded, step(c, d)));
        }
    }
    assert forall|d: int|
        0 <= d < 4 && state.is_open(#[trigger] step(s, d)) implies visited_cell(
        state,
        rest,
        ex,
        step(s, d),
    ) by {
        assert(visited_cell(state, paths, expanded, step(s, d)));
    }
}


/// A move out of the expanded cell that is skipped: it leaves the map, hits an
/// obstacle, or reaches a cell already met.
pub proof fn lemma_expand_skip(
    state: &GameState,
    pu: Seq<int>,
    d: int,
    paths: Seq<Seq<int>>,
    expanded: Set<Cell>,
)
    requires
        expand_inv(state, pu, d, paths, expanded),
        0 <= d < 4,
        !state.is_open(step(walk(state.start(), pu), d)) || visited_cell(
            state,
            paths,
            expanded,
            step(walk(state.start(), pu), d),
        ),
    ensures
        expand_inv(state, pu, d + 1, paths, expanded),
{
    lemma_push_last_move(pu, d, d + 1);
    assert forall|i: int| 0 <= i < paths.len() implies path_lt(#[trigger] paths[i], pu.push(d + 1)) by {
        lemma_path_lt_transitive(paths[i], pu.push(d), pu.push(d + 1));
    }
}

/// A move out of the expanded cell that reaches a new open cell: the extended
/// path joins the queue.
pub proof fn lemma_expand_push(
    state: &GameState,
    pu: Seq<int>,
    d: int,
    paths: Seq<Seq<int>>,
    expanded: Set<Cell>,
)
    requires
        expand_inv(state, pu, d, paths, expanded),
        0 <= d < 4,
        state.is_open(step(walk(state.start(), pu), d)),
        !visited_cell(state, paths, expanded, step(walk(state.start(), pu), d)),
    ensures
        expand_inv(state, pu, d + 1, paths.push(pu.push(d)), expanded),
        is_path(state, pu.push(d)),
        walk(state.start(), pu.push(d)) == step(walk(state.start(), pu), d),
        pu.push(d)[0] == pu[0],
        forall|c: Cell|
            visited_cell(state, paths.push(pu.push(d)), expanded, c) <==> (visited_cell(
                state,
                paths,
                expanded,
                c,
            ) || c == step(walk(state.start(), pu), d)),
{
    let s = state.start();
    let u = walk(s, pu);
    let child = pu.push(d);
    let c = step(u, d);
    let np = paths.push(child);
    lemma_is_path_push(state, pu, d);
    assert(closed(state, paths, expanded, s));
    // the new path is the first path to its end cell
    assert forall|other: Seq<int>|
        #![trigger is_path(state, other), walk(s, other)]
        is_path(state, other) && walk(s, other) == walk(s, child) implies path_le(child, other) by {
        if other.len() == 1 {
            lemma_single_split(state, other);
            assert(state.is_open(step(s, other[0])));
            assert(visited_cell(state, paths, expanded, step(s, other[0])));
        } else {
            lemma_split_last(state, other);
            let pre = other.drop_last();
            let p = walk(s, pre);
            let last = other.last();
            if p == u {
                assert(path_le(pu, pre));
                if pre == pu {
                    assert(last == d);
                } else {
                    lemma_push_keeps_order(pu, pre, d, last);
                }
            } else if expanded.contains(p) {
                assert(closed(state, paths, expanded, p));
                assert(state.is_open(step(p, last)));
                assert(visited_cell(state, paths, expanded, step(p, last)));
            } else {
                assert(path_le(pu, pre));
                lemma_push_keeps_order(pu, pre, d, last);
            }
        }
    }
    assert(is_canonical(state, child));
    lemma_push_last_move(pu, d, d + 1);
    assert forall|i: int| 0 <= i < np.len() implies is_path(state, #[trigger] np[i])
        && is_canonical(state, np[i]) by {
        if i < paths.len() {
            assert(np[i] == paths[i]);
        }
    }
    assert forall|i: int, j: int| 0 <= i < j < np.len() implies path_lt(
        #[trigger] np[i],
        #[trigger] np[j],
    ) by {
        assert(np[i] == paths[i]);
        if j < paths.len() {
            assert(np[j] == paths[j]);
        }
    }
    assert forall|i: int| 0 <= i < np.len() implies path_lt(#[trigger] np[i], pu.push(d + 1)) by {
        if i < paths.len() {
            assert(np[i] == paths[i]);
            lemma_path_lt_transitive(paths[i], pu.push(d), pu.push(d + 1));
        }
    }
    assert forall|i: int| 0 <= i < np.len() implies path_lt(pu, #[trigger] np[i]) by {
        if i < paths.len() {
            assert(np[i] == paths[i]);
        }
    }
    assert forall|x: Cell|
        visited_cell(state, np, expanded, x) <==> (visited_cell(state, paths, expanded, x) || x
            == c) by {
        if in_queue(state, np, x) {
            let i = choose|i: int| 0 <= i < np.len() && #[trigger] walk(s, np[i]) == x;
            if i < paths.len() {
                assert(walk(s, paths[i]) == x);
            }
        }
        if in_queue(state, paths, x) {
            let i = choose|i: int| 0 <= i < paths.len() && #[trigger] walk(s, paths[i]) == x;
            assert(walk(s, np[i]) == x);
        }
        if x == c {
            assert(walk(s, np[paths.len() as int]) == x);
        }
    }
    assert forall|x: Cell| #[trigger] expanded.contains(x) && x != u implies closed(
        state,
        np,
        expanded,
        x,
    ) by {
        assert(closed(state, paths, expanded, x));
        assert forall|d2: int|
            0 <= d2 < 4 && state.is_open(#[trigger] step(x, d2)) implies visited_cell(
            state,
            np,
            expanded,
            step(x, d2),
        ) by {
            assert(visited_cell(state, paths, expanded, step(x, d2)));
        }
    }
    assert forall|d2: int|
        0 <= d2 < d + 1 && state.is_open(#[trigger] step(u, d2)) implies visited_cell(
        state,
        np,
        expanded,
        step(u, d2),
    ) by {
        if d2 < d {
            assert(visited_cell(state, paths, expanded, step(u, d2)));
        }
    }
    assert forall|d2: int|
        0 <= d2 < 4 && state.is_open(#[trigger] step(s, d2)) implies visited_cell(
        state,
        np,
        expanded,
        step(s, d2),
    ) by {
        assert(visited_cell(state, paths, expanded, step(s, d2)));
    }
}

/// All four moves out of the expanded cell have been tried.
pub proof fn lemma_expand_done(
    state: &GameState,
    pu: Seq<int>,
    paths: Seq<Seq<int>>,
    expanded: Set<Cell>,
)
    requires
        expand_inv(state, pu, 4, paths, expanded),
    ensures
        search_inv(state, paths, expanded),
{
    let u = walk(state.start(), pu);
    if paths.len() > 0 {
        let f = paths[0];
        assert(path_lt(pu, f));
        lemma_push_keeps_order(pu, f, 4, 0);
        assert forall|i: int| 0 <= i < paths.len() implies path_lt(#[trigger] paths[i], f.push(0)) by {
            lemma_path_lt_transitive(paths[i], pu.push(4), f.push(0));
        }
    }
    assert forall|c: Cell| #[trigger] expanded.contains(c) implies settled(state, c) && closed(
        state,
        paths,
        expanded,
        c,
    ) by {
        if c == u {
            assert forall|d: int|
                0 <= d < 4 && state.is_open(#[trigger] step(c, d)) implies visited_cell(
                state,
                paths,
                expanded,
                step(c, d),
            ) by {
                assert(state.is_open(step(u, d)));
            }
        }
    }
}

} // verus!
