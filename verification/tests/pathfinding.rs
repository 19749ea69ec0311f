use tilemap_astar::grid::{CachedGrid, Grid};
use tilemap_astar::node::{Node, NodeConnection};
use tilemap_astar::pos::Pos;

/// Builds a 3x3 grid from a row-major tile description ("." passable,
/// anything else blocked), linking every passable cell to its passable
/// orthogonal neighbours.
fn grid_from_map(value: Vec<&str>) -> Grid {
    let mut grid = Grid::new((3, 3));
    for id in 0..9u32 {
        let (x, y) = (id % 3, id / 3);
        let idx = ((y * 3) + x) as usize;
        if value.get(idx) != Some(&".") {
            continue;
        }
        let node = Node::new(id, Pos(x, y));
        let nps = Pos(x, y).neighbour_positions(false);
        let mut conns: Vec<Node> = Vec::new();
        for np in nps {
            let nidx = ((np.1 * 3) + np.0) as usize;
            if value.get(nidx) == Some(&".") {
                if let Some(nd) = grid.get_node(&np) {
                    conns.push(Node::new(nd.id, nd.position));
                }
            }
        }
        grid.set_connections(&node, conns);
    }
    grid
}

#[test]
fn it_works_fully_connected() {
    let grid: Grid = Grid::fully_connected((3, 3));
    assert_eq!(
        grid.connections,
        vec![
            NodeConnection(0, 1),
            NodeConnection(0, 3),
            NodeConnection(1, 2),
            NodeConnection(1, 4),
            NodeConnection(2, 5),
            NodeConnection(3, 4),
            NodeConnection(3, 6),
            NodeConnection(4, 5),
            NodeConnection(4, 7),
            NodeConnection(5, 8),
            NodeConnection(6, 7),
            NodeConnection(7, 8)
        ]
    )
}

#[test]
fn it_works_without_cache() {
    let map = vec![".", ".", ".", "#", "#", ".", ".", ".", "."];
    let grid: Grid = grid_from_map(map);
    let p = grid.find_path(Pos(0, 0), Pos(0, 2));
    assert!(p.is_some());
    assert_eq!(p.unwrap(), vec![Pos(1, 0), Pos(2, 0), Pos(2, 1), Pos(2, 2), Pos(1, 2), Pos(0, 2)]);
}

#[test]
fn it_works_with_cache() {
    let map = vec![".", ".", ".", "#", "#", ".", ".", ".", "."];
    let grid: Grid = grid_from_map(map);
    let mut cached_grid = CachedGrid::new(grid, 10);
    let p = cached_grid.find_path(Pos(0, 0), Pos(0, 2));
    assert!(p.is_some());
    let target_path = vec![Pos(1, 0), Pos(2, 0), Pos(2, 1), Pos(2, 2), Pos(1, 2), Pos(0, 2)];
    assert_eq!(p.unwrap(), target_path);
    assert_eq!(cached_grid.cache.get(0).map(|d| d.path.to_owned()), Some(target_path))
}

#[test]
fn cache_limit_is_handled() {
    let map = vec![".", ".", ".", "#", "#", ".", ".", ".", "."];
    let grid: Grid = grid_from_map(map);
    let mut cached_grid = CachedGrid::new(grid, 1);
    let p1 = cached_grid.find_path(Pos(0, 0), Pos(0, 2));
    assert!(p1.is_some());
    let first_target_path = vec![Pos(1, 0), Pos(2, 0), Pos(2, 1), Pos(2, 2), Pos(1, 2), Pos(0, 2)];
    assert_eq!(p1.unwrap(), first_target_path);
    assert_eq!(cached_grid.cache.get(0).map(|d| d.path.to_owned()), Some(first_target_path));

    let p2 = cached_grid.find_path(Pos(1, 0), Pos(2, 1));
    assert!(p2.is_some());
    let second_target_path = vec![Pos(2, 0), Pos(2, 1)];
    assert_eq!(p2.unwrap(), second_target_path);
    assert_eq!(cached_grid.cache.len(), 1);
    assert_eq!(cached_grid.cache.get(0).map(|d| d.path.to_owned()), Some(second_target_path));
}

#[test]
fn get_neighbours_non_diagonal() {
    let pos = Pos(0, 0);
    assert_eq!(pos.neighbour_positions(false), vec![Pos(1, 0), Pos(0, 1)]);

    let pos = Pos(1, 1);
    assert_eq!(pos.neighbour_positions(false), vec![Pos(2, 1), Pos(1, 2), Pos(0, 1), Pos(1, 0)]);
}

#[test]
fn get_neighbours_diagonal() {
    let pos = Pos(1, 1);
    assert_eq!(
        pos.neighbour_positions(true),
        vec![
            Pos(2, 1),
            Pos(1, 2),
            Pos(0, 1),
            Pos(1, 0),
            Pos(0, 0),
            Pos(2, 2),
            Pos(0, 2),
            Pos(2, 0)
        ]
    );
    let pos = Pos(0, 0);
    assert_eq!(pos.neighbour_positions(true), vec![Pos(1, 0), Pos(0, 1), Pos(1, 1)]);
}

#[test]
fn pos_score_is_floor_of_euclidean_distance_plus_one() {
    assert_eq!(Pos::score(&Pos(0, 0), &Pos(0, 0)), 1);
    assert_eq!(Pos::score(&Pos(0, 0), &Pos(1, 0)), 2);
    assert_eq!(Pos::score(&Pos(0, 0), &Pos(1, 1)), 2);
    assert_eq!(Pos::score(&Pos(0, 0), &Pos(3, 4)), 6);
    assert_eq!(Pos::score(&Pos(2, 7), &Pos(2, 7)), 1);
    assert_eq!(Pos::score(&Pos(0, 0), &Pos(2, 2)), 3);
}

#[test]
fn node_score_adds_both_costs() {
    let mut a = Node::new(0, Pos(0, 0));
    let mut b = Node::new(1, Pos(3, 4));
    a.cost = 2;
    b.cost = 3;
    assert_eq!(Node::score(&a, &b), 6 + 2 + 3);
}

#[test]
fn node_at_returns_node_with_matching_position() {
    let grid = Grid::new((3, 3));
    for y in 0..3u32 {
        for x in 0..3u32 {
            let node = grid.node_at(&Pos(x, y));
            assert_eq!(node.position, Pos(x, y));
            assert_eq!(node.id, y * 3 + x);
        }
    }
}

#[test]
fn bounds_are_checked_per_component() {
    let grid = Grid::new((3, 3));
    assert!(grid.not_out_of_bounds(&Pos(0, 0)));
    assert!(grid.not_out_of_bounds(&Pos(2, 2)));
    assert!(!grid.not_out_of_bounds(&Pos(3, 0)));
    assert!(!grid.not_out_of_bounds(&Pos(0, 3)));
    assert!(!grid.not_out_of_bounds(&Pos(0, 5)));
}

#[test]
fn get_node_finds_present_and_misses_absent() {
    let grid = Grid::new((2, 2));
    let n = grid.get_node(&Pos(1, 1));
    assert!(n.is_some());
    assert_eq!(n.unwrap().id, 3);
    assert!(grid.get_node(&Pos(2, 0)).is_none());
}

#[test]
fn new_grid_is_dense_and_unconnected() {
    let grid = Grid::new((4, 2));
    assert_eq!(grid.iter().len(), 8);
    assert_eq!(grid.connections.len(), 0);
    for (i, node) in grid.iter().iter().enumerate() {
        assert_eq!(node.id as usize, i);
        assert_eq!(node.position, Pos(i as u32 % 4, i as u32 / 4));
        assert_eq!(node.cost, 0);
    }
}

#[test]
fn search_on_unconnected_grid_finds_nothing() {
    let grid = Grid::new((3, 3));
    assert!(grid.find_path(Pos(0, 0), Pos(2, 2)).is_none());
    assert!(grid.find_path(Pos(1, 1), Pos(1, 2)).is_none());
}

#[test]
fn search_start_equals_target() {
    let grid = Grid::new((3, 3));
    let p = grid.find_path(Pos(1, 1), Pos(1, 1));
    assert_eq!(p, Some(vec![Pos(1, 1)]));
}

#[test]
fn repeated_search_is_idempotent_and_caches_once() {
    let map = vec![".", ".", ".", "#", "#", ".", ".", ".", "."];
    let grid: Grid = grid_from_map(map);
    let mut cached_grid = CachedGrid::new(grid, 10);
    let p1 = cached_grid.find_path(Pos(0, 0), Pos(0, 2));
    let p2 = cached_grid.find_path(Pos(0, 0), Pos(0, 2));
    assert_eq!(p1, p2);
    assert_eq!(cached_grid.cache.len(), 1);
}

#[test]
fn zero_capacity_cache_retains_nothing() {
    let map = vec![".", ".", ".", "#", "#", ".", ".", ".", "."];
    let grid: Grid = grid_from_map(map);
    let mut cached_grid = CachedGrid::new(grid, 0);
    let p1 = cached_grid.find_path(Pos(0, 0), Pos(0, 2));
    assert!(p1.is_some());
    assert_eq!(cached_grid.cache.len(), 0);
    let p2 = cached_grid.find_path(Pos(0, 0), Pos(0, 2));
    assert_eq!(p1, p2);
    assert_eq!(cached_grid.cache.len(), 0);
}

#[test]
fn disconnecting_a_node_invalidates_paths_through_it() {
    let map = vec![".", ".", ".", "#", "#", ".", ".", ".", "."];
    let grid: Grid = grid_from_map(map);
    let mut cached_grid = CachedGrid::new(grid, 10);
    // first entry: its path passes through (2, 1)
    let p1 = cached_grid.find_path(Pos(0, 0), Pos(0, 2));
    assert!(p1.is_some());
    // second entry: its path is [(1, 0)], which avoids (2, 1)
    let p2 = cached_grid.find_path(Pos(0, 0), Pos(1, 0));
    assert_eq!(p2, Some(vec![Pos(1, 0)]));
    assert_eq!(cached_grid.cache.len(), 2);

    let node = Node::new(5, Pos(2, 1));
    cached_grid.remove_connections_for_node(&node);

    // the entry through (2, 1) is gone, the unrelated entry is intact
    assert_eq!(cached_grid.cache.len(), 1);
    assert_eq!(cached_grid.cache.get(0).map(|d| d.path.to_owned()), Some(vec![Pos(1, 0)]));
    // and the target is no longer reachable
    assert!(cached_grid.find_path(Pos(0, 0), Pos(0, 2)).is_none());
}

#[test]
fn removing_connections_strips_every_reference() {
    let mut grid = Grid::fully_connected((3, 3));
    let node = Node::new(4, Pos(1, 1));
    grid.remove_connections_for_node(&node);
    assert_eq!(grid.connections.len(), 8);
    for c in &grid.connections {
        assert!(c.0 != 4 && c.1 != 4);
    }
}

#[test]
fn get_connections_lists_incident_edges_in_order() {
    let grid = Grid::fully_connected((3, 3));
    let node = Node::new(4, Pos(1, 1));
    let conns = grid.get_connections(&node);
    assert_eq!(
        conns,
        vec![NodeConnection(1, 4), NodeConnection(3, 4), NodeConnection(4, 5), NodeConnection(4, 7)]
    );
}

#[test]
fn pos_from_pair() {
    assert_eq!(Pos::from((2, 3)), Pos(2, 3));
}

#[test]
fn node_connection_equality_is_unordered() {
    assert_eq!(NodeConnection(0, 1), NodeConnection(1, 0));
    assert_eq!(NodeConnection(0, 1), NodeConnection(0, 1));
    assert_ne!(NodeConnection(0, 1), NodeConnection(0, 2));
}

#[test]
fn set_connections_deduplicates() {
    let mut grid = Grid::new((2, 2));
    let a = Node::new(0, Pos(0, 0));
    let b = Node::new(1, Pos(1, 0));
    grid.set_connections(&a, vec![Node::new(1, Pos(1, 0)), Node::new(1, Pos(1, 0))]);
    assert_eq!(grid.connections, vec![NodeConnection(0, 1)]);
    // the mirrored connection counts as the same unordered pair
    grid.set_connections(&b, vec![Node::new(0, Pos(0, 0))]);
    assert_eq!(grid.connections, vec![NodeConnection(0, 1)]);
}

#[test]
fn update_node_replaces_the_slot() {
    let mut grid = Grid::new((2, 2));
    let mut node = Node::new(3, Pos(1, 1));
    node.cost = 42;
    grid.update_node(&node);
    assert_eq!(grid.node_at(&Pos(1, 1)).cost, 42);
    assert_eq!(grid.node_at(&Pos(0, 0)).cost, 0);
}

#[test]
fn fully_connected_grid_is_navigable() {
    let grid = Grid::fully_connected((10, 10));
    let p = grid.find_path(Pos(0, 0), Pos(9, 9));
    assert!(p.is_some());
    let path = p.unwrap();
    assert!(!path.is_empty());
    assert_eq!(path.last(), Some(&Pos(9, 9)));
}

#[test]
fn fully_connected_small_grids() {
    let g1 = Grid::fully_connected((1, 1));
    assert_eq!(g1.connections.len(), 0);
    let g2 = Grid::fully_connected((2, 1));
    assert_eq!(g2.connections, vec![NodeConnection(0, 1)]);
}
