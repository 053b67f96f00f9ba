use citybuilder::grid::make_map;
use citybuilder::grid::Coord;
use citybuilder::grid::Tile;
use citybuilder::grid::TileGrid;
use citybuilder::path::find_route;
use citybuilder::path::reconstruct_path;
use citybuilder::path::PQItem;
use citybuilder::path::SearchEntry;
use citybuilder::path::SearchTable;

fn open_grid(w: i32, h: i32) -> TileGrid {
    TileGrid::new(w, h)
}

#[test]
fn open_grid_route_has_manhattan_edges() {
    // Scenario: 5x5 open grid, corner to corner -> 8 edges, 9 tiles.
    let g = open_grid(5, 5);
    let route = find_route(&g, Coord::new(0, 0), Coord::new(4, 4)).expect("route");
    assert_eq!(route.len(), 9);
    assert_eq!(route[0], Coord::new(4, 4));
    assert_eq!(route[route.len() - 1], Coord::new(0, 0));
}

#[test]
fn route_is_goal_first_start_last_and_steps_are_adjacent() {
    let g = open_grid(4, 3);
    let route = find_route(&g, Coord::new(0, 2), Coord::new(3, 0)).expect("route");
    assert_eq!(route[0], Coord::new(3, 0));
    assert_eq!(route[route.len() - 1], Coord::new(0, 2));
    for w in route.windows(2) {
        let d = (w[0].x - w[1].x).abs() + (w[0].y - w[1].y).abs();
        assert_eq!(d, 1);
    }
}

#[test]
fn wall_with_single_gap_route_passes_the_gap() {
    // Scenario: a solid wall along column x=2 except one open tile at (2,3).
    let mut g = open_grid(5, 5);
    for y in 0..5 {
        if y != 3 {
            g.set(Coord::new(2, y), Tile::wall());
        }
    }
    let route = find_route(&g, Coord::new(0, 0), Coord::new(4, 4)).expect("route");
    assert!(route.contains(&Coord::new(2, 3)));
}

#[test]
fn fully_enclosed_goal_has_no_route() {
    // The goal's only neighbours are blocked, non-road tiles.
    let mut g = open_grid(5, 5);
    g.set(Coord::new(3, 4), Tile::wall());
    g.set(Coord::new(4, 3), Tile::wall());
    assert!(find_route(&g, Coord::new(0, 0), Coord::new(4, 4)).is_none());
}

#[test]
fn road_tile_is_traversable_despite_blocked_flag() {
    // A wall along column x=2; the tile at (2,3) is a road: blocked yet passable.
    let mut g = open_grid(5, 5);
    for y in 0..5 {
        g.set(Coord::new(2, y), Tile::wall());
    }
    assert!(find_route(&g, Coord::new(0, 0), Coord::new(4, 4)).is_none());
    g.set(Coord::new(2, 3), Tile::road());
    let route = find_route(&g, Coord::new(0, 0), Coord::new(4, 4)).expect("route");
    assert!(route.contains(&Coord::new(2, 3)));
}

#[test]
fn detour_route_has_optimal_cost() {
    // A wall on column x=2 open only at (2,4) forces a detour: the shortest
    // route from (0,0) to (4,0) runs down to y=4 and back up: 12 edges.
    let mut g = open_grid(5, 5);
    for y in 0..4 {
        g.set(Coord::new(2, y), Tile::wall());
    }
    let route = find_route(&g, Coord::new(0, 0), Coord::new(4, 0)).expect("route");
    assert_eq!(route.len(), 13);
}

#[test]
fn repeated_calls_return_identical_cost() {
    let mut g = open_grid(6, 6);
    g.set(Coord::new(3, 3), Tile::wall());
    g.set(Coord::new(2, 3), Tile::wall());
    let a = find_route(&g, Coord::new(0, 0), Coord::new(5, 5)).expect("route");
    let b = find_route(&g, Coord::new(0, 0), Coord::new(5, 5)).expect("route");
    assert_eq!(a.len(), b.len());
}

#[test]
fn start_equals_goal_gives_single_tile_route() {
    let g = open_grid(3, 3);
    let route = find_route(&g, Coord::new(1, 1), Coord::new(1, 1)).expect("route");
    assert_eq!(route, vec![Coord::new(1, 1)]);
}

#[test]
fn route_never_crosses_walls() {
    let mut g = open_grid(5, 5);
    for y in 0..4 {
        g.set(Coord::new(2, y), Tile::wall());
    }
    let route = find_route(&g, Coord::new(0, 0), Coord::new(4, 0)).expect("route");
    for c in route.iter() {
        let t = g.get(*c).expect("in grid");
        assert!(!t.blocked || t.road);
    }
}

#[test]
fn neighbours_come_in_scan_order_without_duplicates() {
    let g = open_grid(3, 3);
    let r = g.neighbours(Coord::new(1, 1));
    assert_eq!(
        r,
        vec![Coord::new(2, 1), Coord::new(0, 1), Coord::new(1, 2), Coord::new(1, 0)]
    );
    // A corner keeps only the in-grid candidates, still in scan order.
    let corner = g.neighbours(Coord::new(0, 0));
    assert_eq!(corner, vec![Coord::new(1, 0), Coord::new(0, 1)]);
}

#[test]
fn make_map_walls_the_right_third() {
    let g = make_map(Coord::new(9, 3));
    // threshold is 2*9/3 = 6: columns 7 and 8 are walls.
    assert!(g.get(Coord::new(7, 0)).unwrap().blocked);
    assert!(g.get(Coord::new(8, 2)).unwrap().blocked);
    assert!(!g.get(Coord::new(6, 1)).unwrap().blocked);
    assert!(g.get(Coord::new(9, 0)).is_none());
}

#[test]
fn reconstruct_path_walks_recorded_predecessors() {
    let mut table = SearchTable::new();
    table.put(SearchEntry { coord: Coord::new(0, 0), g: 0, f: 2, parent: None });
    table.put(SearchEntry {
        coord: Coord::new(1, 0),
        g: 1,
        f: 2,
        parent: Some(Coord::new(0, 0)),
    });
    table.put(SearchEntry {
        coord: Coord::new(1, 1),
        g: 2,
        f: 2,
        parent: Some(Coord::new(1, 0)),
    });
    let p = reconstruct_path(&table, Coord::new(1, 1));
    assert_eq!(p, vec![Coord::new(1, 1), Coord::new(1, 0), Coord::new(0, 0)]);
}

#[test]
fn pq_item_keeps_node_and_score() {
    let item = PQItem::new(Coord::new(2, 5), 7);
    assert_eq!(item.fscore, 7);
    assert_eq!(item.node, Coord::new(2, 5));
}
