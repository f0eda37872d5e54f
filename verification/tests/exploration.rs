use maze_bot::graph::VisitedGraph;
use maze_bot::search::{explore_space_to_goal, possible_way_to_goal};
use maze_bot::Position;

fn pos(x: u32, y: u32) -> Position {
    Position { x, y }
}

#[test]
fn finds_shortest_way_on_empty_grid() {
    // A 10x10 playground, only the corner (0, 0) explored.
    let mut visited = VisitedGraph::new();
    visited.insert_new(pos(0, 0), None);
    let (way, space) = explore_space_to_goal(&pos(1, 0), &pos(9, 9), &visited, &pos(9, 9));
    assert_eq!(way, Some(17));
    assert_eq!(space, 99);
    let (way2, space2) = explore_space_to_goal(&pos(0, 1), &pos(9, 9), &visited, &pos(9, 9));
    assert_eq!(way2, Some(17));
    assert_eq!(space2, 99);
}

#[test]
fn start_equal_goal_is_distance_zero() {
    let visited = VisitedGraph::new();
    let (way, space) = explore_space_to_goal(&pos(3, 3), &pos(9, 9), &visited, &pos(3, 3));
    assert_eq!(way, Some(0));
    assert_eq!(space, 100);
}

#[test]
fn single_cell_playground_is_a_dead_end() {
    let visited = VisitedGraph::new();
    let (way, space) = explore_space_to_goal(&pos(0, 0), &pos(0, 0), &visited, &pos(5, 5));
    assert_eq!(way, None);
    assert_eq!(space, 1);
}

#[test]
fn visited_cells_are_barriers() {
    // A wall of visited cells at x == 1 cuts (0, y) off from the goal side.
    let mut visited = VisitedGraph::new();
    visited.insert_new(pos(1, 0), None);
    visited.insert_new(pos(1, 1), Some(pos(1, 0)));
    visited.insert_new(pos(1, 2), Some(pos(1, 1)));
    let (way, space) = explore_space_to_goal(&pos(0, 0), &pos(2, 2), &visited, &pos(2, 2));
    assert_eq!(way, None);
    assert_eq!(space, 3); // (0,0), (0,1), (0,2)
}

#[test]
fn frontier_counts_the_whole_region_even_when_the_goal_is_near() {
    // Goal right next to the start: the shortest way is found at once, but
    // the frontier still counts everything reachable.
    let visited = VisitedGraph::new();
    let (way, space) = explore_space_to_goal(&pos(0, 0), &pos(2, 2), &visited, &pos(0, 1));
    assert_eq!(way, Some(1));
    assert_eq!(space, 9);
}

#[test]
fn depth_first_way_agrees_on_reachability() {
    let mut visited = VisitedGraph::new();
    visited.insert_new(pos(0, 0), None);
    let way = possible_way_to_goal(&pos(1, 0), &pos(9, 9), &visited, &pos(9, 9));
    assert!(way.is_some());
    // Depth-first search reports some walk, never shorter than the true
    // distance.
    assert!(way.unwrap() >= 17);

    let blocked = {
        let mut g = VisitedGraph::new();
        g.insert_new(pos(1, 0), None);
        g.insert_new(pos(1, 1), Some(pos(1, 0)));
        g.insert_new(pos(1, 2), Some(pos(1, 1)));
        g
    };
    assert_eq!(possible_way_to_goal(&pos(0, 0), &pos(2, 2), &blocked, &pos(2, 2)), None);
    assert_eq!(possible_way_to_goal(&pos(4, 4), &pos(9, 9), &VisitedGraph::new(), &pos(4, 4)), Some(0));
}
