use goat_bot::state::{GameState, Resource};
use goat_bot::strategy::{BFSStrategy, NearestResourceStrategy, Strategy};

fn state(
    position: (u16, u16),
    map_size: (u16, u16),
    obstacles: Vec<(u16, u16)>,
    resources: Vec<(u16, u16)>,
) -> GameState {
    GameState {
        position,
        map_size,
        obstacles,
        resources: resources.into_iter().map(|(x, y)| Resource { x, y }).collect(),
    }
}

#[test]
fn nearest_goes_to_closest_resource() {
    let s = state((5, 5), (20, 20), vec![], vec![(9, 9), (5, 2), (8, 6)]);
    // distances 8, 3, 4
    assert_eq!(NearestResourceStrategy.next_move(&s), Some((0, -1)));
}

#[test]
fn nearest_breaks_ties_by_first_resource() {
    let s = state((5, 5), (20, 20), vec![], vec![(9, 9), (7, 5), (5, 3)]);
    assert_eq!(NearestResourceStrategy.next_move(&s), Some((1, 0)));
    let s = state((5, 5), (20, 20), vec![], vec![(5, 3), (7, 5)]);
    assert_eq!(NearestResourceStrategy.next_move(&s), Some((0, -1)));
}

#[test]
fn nearest_moves_diagonally() {
    let s = state((5, 5), (20, 20), vec![], vec![(2, 9)]);
    assert_eq!(NearestResourceStrategy.next_move(&s), Some((-1, 1)));
}

#[test]
fn nearest_without_resources_stays() {
    let s = state((5, 5), (20, 20), vec![], vec![]);
    assert_eq!(NearestResourceStrategy.next_move(&s), None);
}

#[test]
fn nearest_on_resource_cell_returns_zero_step() {
    let s = state((4, 4), (20, 20), vec![], vec![(4, 4)]);
    assert_eq!(NearestResourceStrategy.next_move(&s), Some((0, 0)));
}

#[test]
fn nearest_ignores_obstacles() {
    let s = state((0, 0), (3, 3), vec![(1, 0), (0, 1)], vec![(2, 0)]);
    assert_eq!(NearestResourceStrategy.next_move(&s), Some((1, 0)));
}

#[test]
fn nearest_handles_large_coordinates() {
    let s = state((0, 0), (u16::MAX, u16::MAX), vec![], vec![(40000, 0)]);
    assert_eq!(NearestResourceStrategy.next_move(&s), Some((1, 0)));
    let s = state((0, 0), (u16::MAX, u16::MAX), vec![], vec![(60000, 60000), (40000, 1)]);
    assert_eq!(NearestResourceStrategy.next_move(&s), Some((1, 1)));
    let s = state((65535, 65535), (u16::MAX, u16::MAX), vec![], vec![(0, 65535)]);
    assert_eq!(NearestResourceStrategy.next_move(&s), Some((-1, 0)));
}

#[test]
fn bfs_straight_line() {
    let s = state((2, 2), (5, 5), vec![], vec![(2, 4)]);
    assert_eq!(BFSStrategy.next_move(&s), Some((0, 1)));
    let s = state((2, 2), (5, 5), vec![], vec![(4, 2)]);
    assert_eq!(BFSStrategy.next_move(&s), Some((1, 0)));
    let s = state((2, 2), (5, 5), vec![], vec![(0, 2)]);
    assert_eq!(BFSStrategy.next_move(&s), Some((-1, 0)));
    let s = state((2, 2), (5, 5), vec![], vec![(2, 0)]);
    assert_eq!(BFSStrategy.next_move(&s), Some((0, -1)));
}

#[test]
fn bfs_prefers_nearest_resource() {
    let s = state((2, 2), (10, 10), vec![], vec![(2, 7), (0, 2)]);
    assert_eq!(BFSStrategy.next_move(&s), Some((-1, 0)));
}

#[test]
fn bfs_breaks_ties_in_move_order() {
    // Two resources at distance 2, one up and one down the y axis.
    let s = state((2, 2), (5, 5), vec![], vec![(2, 0), (2, 4)]);
    assert_eq!(BFSStrategy.next_move(&s), Some((0, 1)));
    // A diagonal resource: up the y axis first, then along x.
    let s = state((2, 2), (5, 5), vec![], vec![(3, 3)]);
    assert_eq!(BFSStrategy.next_move(&s), Some((0, 1)));
    let s = state((2, 2), (5, 5), vec![], vec![(1, 1)]);
    assert_eq!(BFSStrategy.next_move(&s), Some((0, -1)));
    let s = state((2, 2), (5, 5), vec![], vec![(3, 1), (1, 1)]);
    assert_eq!(BFSStrategy.next_move(&s), Some((0, -1)));
}

#[test]
fn bfs_goes_around_obstacles() {
    // 3x3 map, start in a corner, wall at (0,1) and (1,1).
    let s = state((0, 0), (3, 3), vec![(0, 1), (1, 1)], vec![(0, 2)]);
    assert_eq!(BFSStrategy.next_move(&s), Some((1, 0)));
}

#[test]
fn bfs_unreachable_resource() {
    let s = state((0, 0), (3, 3), vec![(0, 1), (1, 1), (2, 1)], vec![(0, 2)]);
    assert_eq!(BFSStrategy.next_move(&s), None);
}

#[test]
fn bfs_resource_on_obstacle_is_unreachable() {
    let s = state((0, 0), (3, 3), vec![(2, 2)], vec![(2, 2)]);
    assert_eq!(BFSStrategy.next_move(&s), None);
}

#[test]
fn bfs_ignores_resource_under_the_bot() {
    let s = state((1, 1), (3, 3), vec![], vec![(1, 1)]);
    assert_eq!(BFSStrategy.next_move(&s), None);
}

#[test]
fn bfs_ignores_resource_outside_map() {
    let s = state((1, 1), (3, 3), vec![], vec![(3, 1)]);
    assert_eq!(BFSStrategy.next_move(&s), None);
}

#[test]
fn bfs_without_resources() {
    let s = state((1, 1), (3, 3), vec![], vec![]);
    assert_eq!(BFSStrategy.next_move(&s), None);
}

#[test]
fn bfs_start_outside_map() {
    // The bot stands just outside the map; its first move must enter it.
    let s = state((3, 0), (3, 3), vec![], vec![(2, 2)]);
    assert_eq!(BFSStrategy.next_move(&s), Some((-1, 0)));
}

#[test]
fn bfs_long_maze() {
    // Serpentine corridor on a 5x5 map.
    let obstacles = vec![(1, 0), (1, 1), (1, 2), (1, 3), (3, 1), (3, 2), (3, 3), (3, 4)];
    let s = state((0, 0), (5, 5), obstacles, vec![(4, 0)]);
    assert_eq!(BFSStrategy.next_move(&s), Some((0, 1)));
}

#[test]
fn strategies_behind_trait_objects() {
    let s = state((2, 2), (5, 5), vec![(3, 2)], vec![(4, 2)]);
    let strategies: Vec<Box<dyn Strategy>> =
        vec![Box::new(NearestResourceStrategy), Box::new(BFSStrategy)];
    let moves: Vec<Option<(i8, i8)>> = strategies.iter().map(|st| st.next_move(&s)).collect();
    assert_eq!(moves, vec![Some((1, 0)), Some((0, 1))]);
}

fn follow_bfs(mut s: GameState, limit: usize) -> Option<usize> {
    let on_resource =
        |s: &GameState| s.resources.iter().any(|r| (r.x, r.y) == s.position);
    for moves in 0..limit {
        if moves > 0 && on_resource(&s) {
            return Some(moves);
        }
        let (dx, dy) = BFSStrategy.next_move(&s)?;
        s.position = (
            (s.position.0 as i32 + dx as i32) as u16,
            (s.position.1 as i32 + dy as i32) as u16,
        );
    }
    None
}

#[test]
fn following_bfs_reaches_nearest_resource_in_distance_moves() {
    let s = state((0, 0), (5, 5), vec![], vec![(4, 4), (3, 0)]);
    assert_eq!(follow_bfs(s, 20), Some(3));
    let s = state((0, 0), (3, 3), vec![(0, 1), (1, 1)], vec![(0, 2)]);
    assert_eq!(follow_bfs(s, 20), Some(6));
    let obstacles = vec![(1, 0), (1, 1), (1, 2), (1, 3), (3, 1), (3, 2), (3, 3), (3, 4)];
    let s = state((0, 0), (5, 5), obstacles, vec![(4, 0)]);
    assert_eq!(follow_bfs(s, 40), Some(12));
}
