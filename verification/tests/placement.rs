use citybuilder::building::Building;
use citybuilder::building::UpdateRule;
use citybuilder::errors::GameError;
use citybuilder::game::Game;
use citybuilder::grid::Coord;
use citybuilder::grid::TileGrid;
use citybuilder::resources::Resources;

const HOUSE: usize = 0;
const CHURCH: usize = 1;

fn catalog() -> Vec<Building> {
    vec![
        Building::new_type(
            HOUSE,
            Coord::new(2, 2),
            Resources(vec![10, 3]),
            UpdateRule::Produce { period: 100, kind: 0, amount: 1 },
        ),
        Building::new_type(CHURCH, Coord::new(1, 2), Resources(vec![100, 5]), UpdateRule::Idle),
    ]
}

fn fresh_game(width: i32, height: i32) -> Game {
    let mut game = Game::new(
        catalog(),
        2,
        TileGrid::new(width, height),
        2,
        Resources(vec![2, 0]),
    )
    .expect("valid catalog");
    game.resources.set(0, 1000).unwrap();
    game.resources.set(1, 50).unwrap();
    game
}

#[test]
fn catalog_mismatch_is_fatal_at_construction() {
    let r = Game::new(
        catalog(),
        3,
        TileGrid::new(4, 4),
        2,
        Resources(vec![0, 0]),
    );
    assert!(matches!(r, Err(GameError::CatalogMismatch)));
}

#[test]
fn placement_walls_footprint_and_pays_cost() {
    let mut game = fresh_game(8, 8);
    let placed = game.place_building(HOUSE, Coord::new(2, 2)).expect("placeable");
    assert_eq!(placed.topleft, Coord::new(2, 2));
    for x in 2..4 {
        for y in 2..4 {
            let t = game.tile(Coord::new(x, y)).unwrap();
            assert!(t.blocked);
            assert!(!t.road);
        }
    }
    assert!(!game.tile(Coord::new(4, 4)).unwrap().blocked);
    assert_eq!(game.resource(0), Ok(990));
    assert_eq!(game.resource(1), Ok(47));
}

#[test]
fn overlapping_placement_is_rejected_and_changes_nothing() {
    // Scenario: a building occupies (2,2)-(3,3); placing a 2x2 at (2,2) fails.
    let mut game = fresh_game(8, 8);
    game.place_building(HOUSE, Coord::new(2, 2)).expect("first placement");
    let money = game.resource(0).unwrap();
    let wood = game.resource(1).unwrap();
    let r = game.place_building(HOUSE, Coord::new(2, 2));
    assert!(matches!(r, Err(GameError::TileBlocked)));
    assert_eq!(game.resource(0), Ok(money));
    assert_eq!(game.resource(1), Ok(wood));
    assert!(!game.tile(Coord::new(4, 4)).unwrap().blocked);
    assert!(!game.tile(Coord::new(1, 1)).unwrap().blocked);
}

#[test]
fn placement_out_of_bounds_is_rejected() {
    let mut game = fresh_game(8, 8);
    let r = game.place_building(HOUSE, Coord::new(7, 7));
    assert!(matches!(r, Err(GameError::OutOfBounds)));
    let r2 = game.place_building(HOUSE, Coord::new(-1, 0));
    assert!(matches!(r2, Err(GameError::OutOfBounds)));
}

#[test]
fn unaffordable_placement_is_rejected_and_ledger_unchanged() {
    // Scenario: ledger {Money:10}; cost {Money:10} passes, cost {Money:11} fails.
    let archetypes = vec![
        Building::new_type(0, Coord::new(1, 1), Resources(vec![10]), UpdateRule::Idle),
        Building::new_type(1, Coord::new(1, 1), Resources(vec![11]), UpdateRule::Idle),
    ];
    let mut game = Game::new(archetypes, 2, TileGrid::new(4, 4), 1, Resources(vec![0]))
        .expect("valid catalog");
    game.resources.set(0, 10).unwrap();
    let r = game.place_building(1, Coord::new(0, 0));
    assert!(matches!(r, Err(GameError::InsufficientResources)));
    assert_eq!(game.resource(0), Ok(10));
    assert!(!game.tile(Coord::new(0, 0)).unwrap().blocked);
    game.place_building(0, Coord::new(0, 0)).expect("exactly affordable");
    assert_eq!(game.resource(0), Ok(0));
}

#[test]
fn build_road_marks_tiles_and_charges_per_tile() {
    let mut game = fresh_game(8, 8);
    let added = game.build_road(Coord::new(0, 0), Coord::new(3, 0)).expect("route");
    assert_eq!(added.len(), 4);
    for c in added.iter() {
        let t = game.tile(*c).unwrap();
        assert!(t.road);
        assert!(t.blocked);
    }
    // 4 tiles at 2 money each
    assert_eq!(game.resource(0), Ok(992));
}

#[test]
fn build_road_lays_one_route_in_route_order() {
    // On a fresh grid no cell is road yet, so the added cells are exactly
    // one minimum-length route, reported goal-first down to the start.
    let mut game = fresh_game(8, 8);
    let added = game.build_road(Coord::new(0, 0), Coord::new(2, 1)).expect("route");
    assert_eq!(added.len(), 4);
    assert_eq!(added[0], Coord::new(2, 1));
    assert_eq!(added[added.len() - 1], Coord::new(0, 0));
    for w in added.windows(2) {
        let d = (w[0].x - w[1].x).abs() + (w[0].y - w[1].y).abs();
        assert_eq!(d, 1);
    }
}

#[test]
fn build_road_skips_existing_road_tiles() {
    let mut game = fresh_game(8, 8);
    game.build_road(Coord::new(0, 0), Coord::new(3, 0)).expect("route");
    let money = game.resource(0).unwrap();
    let added = game.build_road(Coord::new(0, 0), Coord::new(3, 0)).expect("route still exists");
    assert_eq!(added.len(), 0);
    assert_eq!(game.resource(0), Ok(money));
}

#[test]
fn build_road_to_enclosed_goal_reports_no_route() {
    // The corner goal (7,7) has neighbours (6,7) and (7,6) only; two 1x2
    // churches wall both off, so no route can reach it.
    let mut game = fresh_game(8, 8);
    game.place_building(CHURCH, Coord::new(6, 6)).expect("covers (6,6) and (6,7)");
    game.place_building(CHURCH, Coord::new(7, 5)).expect("covers (7,5) and (7,6)");
    let money = game.resource(0).unwrap();
    let r = game.build_road(Coord::new(0, 0), Coord::new(7, 7));
    assert!(matches!(r, Err(GameError::NoRouteFound)));
    assert_eq!(game.resource(0), Ok(money));
}

#[test]
fn cannot_build_over_a_road() {
    let mut game = fresh_game(8, 8);
    game.build_road(Coord::new(0, 0), Coord::new(0, 3)).expect("route");
    let r = game.place_building(HOUSE, Coord::new(0, 0));
    assert!(matches!(r, Err(GameError::TileBlocked)));
}

#[test]
fn update_buildings_produces_on_matching_ticks() {
    let mut game = fresh_game(8, 8);
    game.place_building(HOUSE, Coord::new(1, 1)).expect("placeable");
    let money = game.resource(0).unwrap();
    game.update_buildings(0);
    assert_eq!(game.resource(0), Ok(money + 1));
    game.update_buildings(1);
    assert_eq!(game.resource(0), Ok(money + 1));
    game.update_buildings(100);
    assert_eq!(game.resource(0), Ok(money + 2));
}

#[test]
fn idle_buildings_produce_nothing() {
    let mut game = fresh_game(8, 8);
    game.place_building(CHURCH, Coord::new(1, 1)).expect("placeable");
    let money = game.resource(0).unwrap();
    game.update_buildings(0);
    assert_eq!(game.resource(0), Ok(money));
}

#[test]
fn tile_query_outside_grid_is_absent() {
    let game = fresh_game(4, 4);
    assert!(game.tile(Coord::new(4, 0)).is_none());
    assert!(game.tile(Coord::new(-1, 0)).is_none());
    assert!(game.tile(Coord::new(0, 0)).is_some());
}
