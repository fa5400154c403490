use shelter_nav::intent::{MoveIntendHorizontal, MoveIntendVertical};
use shelter_nav::links::NO_NODE;
use shelter_nav::path_find::{Layer, PathFind};
use shelter_nav::path_finder::PathFinder;
use shelter_nav::tile::Tile;

fn t(x: i32, y: i32) -> Tile {
    Tile::new(x, y)
}

/// Two one-row platforms at rows 0 and 10, joined by a stair from (5, 0) to (5, 10).
fn two_floors() -> PathFinder {
    PathFinder::new(
        t(0, 0),
        t(20, 20),
        vec![(t(0, 0), t(10, 1)), (t(0, 10), t(10, 1))],
        vec![(t(5, 0), t(5, 10))],
    )
}

#[test]
fn tile_distance_is_euclidean_in_fixed_point() {
    assert_eq!(t(0, 0).distance(&t(3, 4)), 5 * 256);
    assert_eq!(t(3, 4).distance(&t(0, 0)), 5 * 256);
    // 256 * sqrt(2) = 362.03...
    assert_eq!(t(0, 0).distance(&t(1, 1)), 362);
    assert_eq!(t(7, 7).distance(&t(7, 7)), 0);
    assert_eq!(t(-2, 0).distance_squared(&t(1, 4)), 25);
}

#[test]
fn stair_scenario_first_tick_walks_right() {
    let pf = two_floors();
    assert_eq!(
        pf.resolve_intent(t(2, 0), t(8, 10)),
        (MoveIntendHorizontal::Right, MoveIntendVertical::Stay)
    );
}

#[test]
fn stair_scenario_climbs_at_the_stair() {
    let pf = two_floors();
    assert_eq!(
        pf.resolve_intent(t(5, 0), t(8, 10)),
        (MoveIntendHorizontal::Stay, MoveIntendVertical::Up)
    );
}

#[test]
fn stair_scenario_keeps_climbing_on_the_stair() {
    let pf = two_floors();
    // Tiles between the floors belong to no platform, so to platform 0.
    assert_eq!(
        pf.resolve_intent(t(5, 5), t(8, 10)),
        (MoveIntendHorizontal::Stay, MoveIntendVertical::Up)
    );
}

#[test]
fn stair_scenario_walks_right_on_the_upper_floor() {
    let pf = two_floors();
    assert_eq!(
        pf.resolve_intent(t(5, 10), t(8, 10)),
        (MoveIntendHorizontal::Right, MoveIntendVertical::Stay)
    );
}

#[test]
fn stair_scenario_arrives() {
    let pf = two_floors();
    assert_eq!(
        pf.resolve_intent(t(8, 10), t(8, 10)),
        (MoveIntendHorizontal::Stay, MoveIntendVertical::Stay)
    );
}

#[test]
fn stair_scenario_goes_down_too() {
    let pf = two_floors();
    assert_eq!(
        pf.resolve_intent(t(5, 10), t(1, 0)),
        (MoveIntendHorizontal::Stay, MoveIntendVertical::Down)
    );
    assert_eq!(
        pf.resolve_intent(t(9, 10), t(1, 0)),
        (MoveIntendHorizontal::Left, MoveIntendVertical::Stay)
    );
}

#[test]
fn already_at_goal_gives_no_intent() {
    let pf = two_floors();
    assert_eq!(
        pf.resolve_intent(t(3, 0), t(3, 0)),
        (MoveIntendHorizontal::Stay, MoveIntendVertical::Stay)
    );
    assert_eq!(
        pf.resolve_intent(t(5, 10), t(5, 10)),
        (MoveIntendHorizontal::Stay, MoveIntendVertical::Stay)
    );
}

#[test]
fn unreachable_goal_gives_no_intent() {
    // Two floors with a stair on the lower floor only: nothing reaches the upper floor.
    let pf = PathFinder::new(
        t(0, 0),
        t(20, 20),
        vec![(t(0, 0), t(10, 1)), (t(0, 10), t(10, 1))],
        vec![],
    );
    assert_eq!(
        pf.resolve_intent(t(2, 0), t(8, 10)),
        (MoveIntendHorizontal::Stay, MoveIntendVertical::Stay)
    );
    let pf = PathFinder::new(
        t(0, 0),
        t(20, 20),
        vec![(t(0, 0), t(10, 1)), (t(0, 10), t(10, 1)), (t(0, 15), t(10, 1))],
        vec![(t(5, 0), t(5, 10))],
    );
    assert_eq!(
        pf.resolve_intent(t(2, 0), t(8, 15)),
        (MoveIntendHorizontal::Stay, MoveIntendVertical::Stay)
    );
}

#[test]
fn resolve_intent_is_repeatable() {
    let pf = two_floors();
    let first = pf.resolve_intent(t(2, 0), t(8, 10));
    for _ in 0..5 {
        assert_eq!(pf.resolve_intent(t(2, 0), t(8, 10)), first);
    }
}

#[test]
fn same_platform_walks_toward_target_column() {
    let pf = two_floors();
    assert_eq!(
        pf.resolve_intent(t(7, 0), t(1, 0)),
        (MoveIntendHorizontal::Left, MoveIntendVertical::Stay)
    );
    assert_eq!(
        pf.resolve_intent(t(1, 0), t(7, 0)),
        (MoveIntendHorizontal::Right, MoveIntendVertical::Stay)
    );
}

#[test]
fn tiles_outside_the_grid_are_clamped() {
    let pf = two_floors();
    assert_eq!(pf.relative_position(t(-5, -5)), t(0, 0));
    assert_eq!(pf.relative_position(t(100, 3)), t(19, 3));
    assert_eq!(pf.relative_position(t(4, 100)), t(4, 19));
    // An entity left of the grid on the lower floor walks right toward the goal column.
    assert_eq!(
        pf.resolve_intent(t(-5, 0), t(3, 0)),
        (MoveIntendHorizontal::Right, MoveIntendVertical::Stay)
    );
}

#[test]
fn platforms_own_their_tiles_and_later_ones_win() {
    let pf = PathFinder::new(
        t(10, 10),
        t(8, 8),
        vec![(t(10, 10), t(8, 2)), (t(12, 10), t(2, 2))],
        vec![],
    );
    // Tiles are relative to the grid's first tile (10, 10).
    assert_eq!(pf.get_platform(t(0, 0)).id, 0);
    assert_eq!(pf.get_platform(t(7, 1)).id, 0);
    assert_eq!(pf.get_platform(t(2, 0)).id, 1);
    assert_eq!(pf.get_platform(t(3, 1)).id, 1);
    assert_eq!(pf.get_platform(t(4, 1)).id, 0);
    // No platform holds row 5: platform 0 owns it.
    assert_eq!(pf.get_platform(t(4, 5)).id, 0);
    // Tiles off the grid count as the nearest tile on it.
    assert_eq!(pf.get_platform(t(3, -4)).id, 1);
    assert_eq!(pf.get_platform(t(-3, 0)).id, 0);
    assert_eq!(pf.get_platform(t(50, 50)).id, 0);
    let p1 = pf.get_platform(t(2, 0));
    assert_eq!((p1.left, p1.right), (2, 4));
    assert_eq!((p1.span_left, p1.span_right), (8, 10));
}

#[test]
fn platform_rectangles_are_clamped_and_negative_sizes_are_empty() {
    let pf = PathFinder::new(
        t(0, 0),
        t(10, 4),
        vec![(t(-5, 0), t(8, 1)), (t(5, 2), t(-3, 1))],
        vec![],
    );
    let p0 = pf.get_platform(t(0, 0));
    assert_eq!((p0.left, p0.right), (0, 3));
    assert_eq!(pf.platforms[1].left, pf.platforms[1].right);
    assert_eq!(pf.get_platform(t(5, 2)).id, 0);
    assert_eq!(pf.platform_to_nodes.len(), 3);
}

#[test]
fn stair_ends_are_shared_nodes() {
    let pf = PathFinder::new(
        t(0, 0),
        t(20, 20),
        vec![(t(0, 0), t(20, 1)), (t(0, 5), t(20, 1)), (t(0, 10), t(20, 1))],
        vec![(t(2, 0), t(4, 5)), (t(4, 5), t(6, 10)), (t(2, 0), t(4, 5))],
    );
    assert_eq!(pf.node_position, vec![t(2, 0), t(4, 5), t(6, 10)]);
    assert_eq!(pf.shortest_distance[0][2], Some(2 * t(2, 0).distance(&t(4, 5))));
}

#[test]
fn distances_are_symmetric_and_zero_on_the_diagonal() {
    let pf = PathFinder::new(
        t(0, 0),
        t(30, 30),
        vec![(t(0, 0), t(30, 1)), (t(0, 10), t(30, 1)), (t(0, 20), t(30, 1))],
        vec![(t(2, 0), t(2, 10)), (t(20, 10), t(25, 20)), (t(28, 0), t(28, 10))],
    );
    let n = pf.node_position.len();
    assert_eq!(n, 6);
    for s in 0..n {
        assert_eq!(pf.shortest_distance[s][s], Some(0));
        assert_eq!(pf.next_step[s][s], Some(s));
        for d in 0..n {
            assert_eq!(pf.shortest_distance[s][d], pf.shortest_distance[d][s]);
            assert!(pf.shortest_distance[s][d].is_some());
        }
    }
    // (2, 0) -> (2, 10) -> (20, 10) -> (25, 20): a stair of 10, a walk of 18, a stair of sqrt(125).
    let expected = 10 * 256 + 18 * 256 + t(20, 10).distance(&t(25, 20));
    assert_eq!(pf.shortest_distance[0][3], Some(expected));
    // (2, 0) to (28, 10): 36 tiles either way round.
    assert_eq!(pf.shortest_distance[0][5], Some(36 * 256));
}

#[test]
fn next_hops_reach_the_destination() {
    let pf = PathFinder::new(
        t(0, 0),
        t(30, 30),
        vec![(t(0, 0), t(30, 1)), (t(0, 10), t(30, 1)), (t(0, 20), t(30, 1))],
        vec![(t(2, 0), t(2, 10)), (t(20, 10), t(25, 20)), (t(28, 0), t(28, 10))],
    );
    let n = pf.node_position.len();
    for s in 0..n {
        for d in 0..n {
            let bound = pf.shortest_distance[s][d].unwrap() / 256 + 1;
            let mut at = s;
            let mut hops = 0;
            while at != d {
                let next = pf.next_step[at][d].unwrap();
                assert_ne!(next, at);
                assert!(pf.shortest_distance[next][d].unwrap() < pf.shortest_distance[at][d].unwrap());
                at = next;
                hops += 1;
                assert!(hops <= bound);
            }
        }
    }
}

#[test]
fn disconnected_nodes_have_no_distance_or_hop() {
    let pf = PathFinder::new(
        t(0, 0),
        t(20, 20),
        vec![(t(0, 0), t(20, 1)), (t(0, 10), t(20, 1))],
        vec![(t(1, 0), t(2, 0)), (t(1, 10), t(2, 10))],
    );
    assert_eq!(pf.shortest_distance[0][2], None);
    assert_eq!(pf.next_step[0][2], None);
    assert_eq!(pf.shortest_distance[0][1], Some(256));
    assert_eq!(pf.next_step[0][1], Some(1));
}

#[test]
fn neighbor_nodes_bracket_a_column() {
    let pf = PathFinder::new(
        t(0, 0),
        t(20, 20),
        vec![(t(0, 0), t(20, 1)), (t(0, 10), t(20, 1))],
        vec![(t(4, 0), t(4, 10)), (t(12, 0), t(12, 10))],
    );
    // Lower floor: nodes 0 at x = 4 and 2 at x = 12.
    assert_eq!(pf.get_neighbor_nodes(t(1, 0)), (None, Some((0, 3 * 256))));
    assert_eq!(pf.get_neighbor_nodes(t(4, 0)), (Some((0, 0)), Some((0, 0))));
    assert_eq!(pf.get_neighbor_nodes(t(8, 0)), (Some((0, 4 * 256)), Some((2, 4 * 256))));
    assert_eq!(pf.get_neighbor_nodes(t(15, 0)), (Some((2, 3 * 256)), None));
    assert_eq!(pf.platform_to_nodes[0], (NO_NODE, 0));
    // Walking along the lower floor between the stairs is an edge of 8 tiles.
    assert_eq!(pf.shortest_distance[0][2], Some(8 * 256));
    // From the middle of the lower floor to the far right of the upper floor:
    // through (12, 0) and (12, 10) is shorter than back through (4, 0).
    assert_eq!(
        pf.resolve_intent(t(9, 0), t(19, 10)),
        (MoveIntendHorizontal::Right, MoveIntendVertical::Stay)
    );
    assert_eq!(
        pf.resolve_intent(t(7, 0), t(0, 10)),
        (MoveIntendHorizontal::Left, MoveIntendVertical::Stay)
    );
}

#[test]
fn route_walks_along_a_platform_between_stairs() {
    // Up at x = 2, then along the middle floor to x = 15, then up again.
    let pf = PathFinder::new(
        t(0, 0),
        t(20, 30),
        vec![(t(0, 0), t(20, 1)), (t(0, 10), t(20, 1)), (t(0, 20), t(20, 1))],
        vec![(t(2, 0), t(2, 10)), (t(15, 10), t(15, 20))],
    );
    assert_eq!(
        pf.resolve_intent(t(2, 0), t(15, 20)),
        (MoveIntendHorizontal::Stay, MoveIntendVertical::Up)
    );
    assert_eq!(
        pf.resolve_intent(t(2, 10), t(15, 20)),
        (MoveIntendHorizontal::Right, MoveIntendVertical::Stay)
    );
    assert_eq!(
        pf.resolve_intent(t(15, 10), t(15, 20)),
        (MoveIntendHorizontal::Stay, MoveIntendVertical::Up)
    );
}

#[test]
fn no_platforms_means_one_platform_everywhere() {
    let pf = PathFinder::new(t(0, 0), t(5, 5), vec![], vec![(t(1, 1), t(3, 3))]);
    assert_eq!(
        pf.resolve_intent(t(0, 0), t(4, 4)),
        (MoveIntendHorizontal::Right, MoveIntendVertical::Stay)
    );
    assert_eq!(pf.node_position.len(), 2);
}

#[test]
fn path_find_layers_paint_in_order() {
    let mut pf = PathFind::from(t(0, 0), t(4, 3));
    assert!(pf.layers_index.iter().all(|&i| i == 0));
    pf.add_layer(t(0, 0), t(4, 3), 0, 4);
    pf.add_layer(t(1, 1), t(3, 2), 1, 3);
    assert_eq!(*pf.get_layer(t(0, 0)), Layer { id: 0, x_left: 0, x_right: 4 });
    assert_eq!(pf.get_layer(t(1, 1)).id, 1);
    assert_eq!(pf.get_layer(t(2, 1)).id, 1);
    assert_eq!(pf.get_layer(t(3, 1)).id, 0);
    assert_eq!(pf.get_layer(t(2, 2)).id, 0);
    assert_eq!(pf.layers.len(), 2);
    assert_eq!(pf.relative_position(t(9, -1)), t(3, 0));
}

#[test]
fn path_find_walks_on_one_layer_only() {
    let mut pf = PathFind::from(t(0, 0), t(10, 10));
    pf.add_layer(t(0, 0), t(10, 2), 0, 10);
    pf.add_layer(t(0, 5), t(10, 7), 0, 10);
    assert_eq!(pf.move_intent(t(1, 0), t(6, 1)), MoveIntendHorizontal::Right);
    assert_eq!(pf.move_intent(t(6, 0), t(1, 0)), MoveIntendHorizontal::Left);
    assert_eq!(pf.move_intent(t(6, 0), t(6, 1)), MoveIntendHorizontal::Stay);
    assert_eq!(pf.move_intent(t(1, 0), t(6, 6)), MoveIntendHorizontal::Stay);
}

#[test]
fn platform_walk_edges_join_column_neighbours() {
    // Stairs on the lower floor are listed right to left, so its nodes are
    // created out of column order: x = 12, 4, 8.
    let pf = PathFinder::new(
        t(0, 0),
        t(20, 20),
        vec![(t(0, 0), t(20, 1)), (t(0, 10), t(20, 1))],
        vec![(t(12, 0), t(12, 10)), (t(4, 0), t(4, 10)), (t(8, 0), t(8, 10))],
    );
    assert_eq!(pf.node_position[0], t(12, 0));
    assert_eq!(pf.node_position[2], t(4, 0));
    assert_eq!(pf.node_position[4], t(8, 0));
    // 12 -> 8 is one walk of 4 tiles, not 12 -> 4 -> 8.
    assert_eq!(pf.shortest_distance[0][4], Some(4 * 256));
    assert_eq!(pf.next_step[0][4], Some(4));
    assert_eq!(pf.shortest_distance[2][0], Some(8 * 256));
    assert_eq!(pf.next_step[2][0], Some(4));
    assert_eq!(pf.get_neighbor_nodes(t(10, 0)), (Some((4, 2 * 256)), Some((0, 2 * 256))));
}

#[test]
fn a_stair_from_a_tile_to_itself_does_not_stall_routing() {
    let pf = PathFinder::new(
        t(0, 0),
        t(20, 20),
        vec![(t(0, 0), t(20, 1)), (t(0, 10), t(20, 1))],
        vec![(t(3, 0), t(3, 0)), (t(3, 0), t(3, 10))],
    );
    assert_eq!(pf.node_position.len(), 2);
    assert_eq!(pf.next_step[0][1], Some(1));
    assert_eq!(
        pf.resolve_intent(t(3, 0), t(6, 10)),
        (MoveIntendHorizontal::Stay, MoveIntendVertical::Up)
    );
}

#[test]
fn columns_off_the_grid_are_compared_as_given() {
    let pf = two_floors();
    // Both tiles clamp to column 0, but the goal still lies to the right.
    assert_eq!(
        pf.resolve_intent(t(-5, 0), t(-3, 0)),
        (MoveIntendHorizontal::Right, MoveIntendVertical::Stay)
    );
    assert_eq!(
        pf.resolve_intent(t(-3, 0), t(-5, 0)),
        (MoveIntendHorizontal::Left, MoveIntendVertical::Stay)
    );
    assert_eq!(
        pf.resolve_intent(t(-4, 0), t(-4, 0)),
        (MoveIntendHorizontal::Stay, MoveIntendVertical::Stay)
    );
    // Left of the grid, level with a stair at column 0: walk to the stair first.
    let pf = PathFinder::new(
        t(0, 0),
        t(20, 20),
        vec![(t(0, 0), t(10, 1)), (t(0, 10), t(10, 1))],
        vec![(t(0, 0), t(0, 10))],
    );
    assert_eq!(
        pf.resolve_intent(t(-3, 0), t(8, 10)),
        (MoveIntendHorizontal::Right, MoveIntendVertical::Stay)
    );
    assert_eq!(
        pf.resolve_intent(t(0, 0), t(8, 10)),
        (MoveIntendHorizontal::Stay, MoveIntendVertical::Up)
    );
}

#[test]
fn tiles_outside_their_platforms_columns_still_route() {
    let pf = two_floors();
    // (15, 5) belongs to no rectangle, so to platform 0, whose columns end at 10.
    assert_eq!(pf.get_platform(t(15, 5)).id, 0);
    assert_eq!(pf.get_neighbor_nodes(t(15, 5)), (Some((0, t(15, 5).distance(&t(5, 0)))), None));
    assert_eq!(
        pf.resolve_intent(t(15, 5), t(8, 10)),
        (MoveIntendHorizontal::Left, MoveIntendVertical::Stay)
    );
}

#[test]
fn stair_scenario_walk_reaches_the_goal() {
    let pf = two_floors();
    let mut at = t(2, 0);
    let goal = t(8, 10);
    let mut visited = vec![at];
    let mut calls = 0;
    loop {
        calls += 1;
        assert!(calls <= 17);
        let (h, v) = pf.resolve_intent(at, goal);
        match (h, v) {
            (MoveIntendHorizontal::Stay, MoveIntendVertical::Stay) => break,
            (MoveIntendHorizontal::Right, MoveIntendVertical::Stay) => at = t(at.x + 1, at.y),
            (MoveIntendHorizontal::Left, MoveIntendVertical::Stay) => at = t(at.x - 1, at.y),
            (MoveIntendHorizontal::Stay, MoveIntendVertical::Up) => at = t(at.x, at.y + 1),
            (MoveIntendHorizontal::Stay, MoveIntendVertical::Down) => at = t(at.x, at.y - 1),
            other => panic!("two axes at once: {:?}", other),
        }
        visited.push(at);
    }
    assert_eq!(calls, 17);
    assert_eq!(at, goal);
    let mut expected = vec![t(2, 0), t(3, 0), t(4, 0)];
    for y in 0..11 {
        expected.push(t(5, y));
    }
    expected.extend([t(6, 10), t(7, 10), t(8, 10)]);
    assert_eq!(visited, expected);
}

#[test]
fn layers_are_clamped_onto_the_grid() {
    let mut pf = PathFind::from(t(0, 0), t(4, 3));
    pf.add_layer(t(0, 0), t(4, 3), 0, 4);
    pf.add_layer(t(-2, -2), t(10, 1), 0, 4);
    pf.add_layer(t(3, 2), t(1, 0), 0, 4);
    assert_eq!(pf.layers.len(), 3);
    assert_eq!(pf.get_layer(t(0, 0)).id, 1);
    assert_eq!(pf.get_layer(t(3, 0)).id, 1);
    assert_eq!(pf.get_layer(t(3, 1)).id, 0);
    assert_eq!(pf.get_layer(t(3, 2)).id, 0);
}

#[test]
fn nodes_are_numbered_by_first_occurrence() {
    let pf = PathFinder::new(
        t(0, 0),
        t(20, 20),
        vec![(t(0, 0), t(20, 1)), (t(0, 10), t(20, 1))],
        vec![(t(9, 10), t(9, 0)), (t(3, 0), t(9, 10)), (t(3, 0), t(-4, 10))],
    );
    assert_eq!(pf.node_position, vec![t(9, 10), t(9, 0), t(3, 0), t(0, 10)]);
}
