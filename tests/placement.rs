use colony_sim::game::{CharacterMobility, Game, GameError, Node};
use colony_sim::geometry::Point;
use colony_sim::kinds::BuildingId;
use colony_sim::placement::is_site_taken;

fn node(x: i64, y: i64) -> Node {
    Node { coor: Point::new(x, y), population: 100, buildings: Vec::new() }
}

fn two_cities() -> Game {
    Game::new(vec![node(50_000, 50_000), node(150_000, 150_000)], 2100)
}

#[test]
fn node_search_by_distance() {
    let g = two_cities();
    assert_eq!(g.search_node_by_coor(Point::new(50_000, 50_000)), Some(0));
    assert_eq!(g.search_node_by_coor(Point::new(55_000, 58_000)), Some(0));
    // exactly one city radius away is outside
    assert_eq!(g.search_node_by_coor(Point::new(60_000, 50_000)), None);
    assert_eq!(g.search_node_by_coor(Point::new(145_000, 150_000)), Some(1));
    assert_eq!(g.search_node_by_coor(Point::new(0, 0)), None);
}

#[test]
fn tiles_of_one_node() {
    let g = two_cities();
    assert!(g.are_tiles_in_same_node([50, 50], 0, 2, 2));
    assert!(g.are_tiles_in_same_node([55, 50], 0, 4, 1));
    // tile (60, 50) lies a full city radius from the center
    assert!(!g.are_tiles_in_same_node([58, 50], 0, 3, 1));
    assert!(!g.are_tiles_in_same_node([50, 50], 1, 1, 1));
    assert!(g.can_build_at([50, 50], 2, 2));
    assert!(!g.can_build_at([0, 0], 2, 2));
    assert!(!g.can_build_at([59, 50], 2, 2));
}

#[test]
fn farms_and_warehouses_take_their_tiles() {
    let mut g = two_cities();
    assert_eq!(g.create_farm([50, 50]), Some(BuildingId::Farm(0)));
    assert_eq!(g.building_grid.len(), 4);
    assert_eq!(g.building_grid.get(&((51u64 << 32) + 51)), Some(&BuildingId::Farm(0)));
    assert_eq!(g.create_farm([50, 50]), None);
    assert_eq!(g.create_farm([51, 51]), None);
    assert_eq!(g.create_warehouse([52, 50]), Some(BuildingId::Warehouse(0)));
    assert_eq!(g.create_farm([52, 52]), Some(BuildingId::Farm(1)));
    assert_eq!(g.create_farm([0, 0]), None);
    assert_eq!(g.create_farm([59, 50]), None);
    assert_eq!(g.nodes[0].buildings, vec![BuildingId::Farm(0), BuildingId::Warehouse(0), BuildingId::Farm(1)]);
    assert!(g.nodes[1].buildings.is_empty());
    assert_eq!(g.entities.buildings.farms.len(), 2);
    assert_eq!(g.entities.buildings.warehouses.len(), 1);
    assert!(g.is_colonized(0));
    assert!(!g.is_colonized(1));
}

#[test]
fn grid_insertion_covers_the_block() {
    let mut g = two_cities();
    g.bulk_insert_building_grid([7, 9], BuildingId::House(3), 3, 2);
    assert_eq!(g.building_grid.len(), 6);
    for x in 7u64..10 {
        for y in 9u64..11 {
            assert_eq!(g.building_grid.get(&((x << 32) + y)), Some(&BuildingId::House(3)));
        }
    }
    assert_eq!(g.building_grid.get(&((10u64 << 32) + 9)), None);
}

#[test]
fn colonize_lands_a_ship_and_colonists() {
    let mut g = two_cities();
    assert_eq!(g.uncolonized_nodes(), vec![0, 1]);
    assert_eq!(g.colonize(1), Ok(BuildingId::ColonyShipLanding(0)));
    assert_eq!(g.uncolonized_nodes(), vec![0]);
    assert_eq!(g.nations.len(), 1);
    assert_eq!(g.entities.characters.len(), 10);
    for c in &g.entities.characters {
        assert!(matches!(c.mobility, CharacterMobility::Parked { node_idx: 1 }));
        assert_eq!(c.speed, 10_000);
    }
    // the landing covers tiles 149..152 on each axis
    assert_eq!(g.building_grid.len(), 9);
    assert!(g.building_grid.contains_key(&((149u64 << 32) + 151)));
    assert_eq!(g.create_farm([149, 149]), None);
    assert_eq!(g.colonize(1), Err(GameError::AlreadyColonized));
    assert_eq!(g.colonize(7), Err(GameError::UnknownNode));
    assert_eq!(g.place_colony_ship_landing(0), Some(BuildingId::ColonyShipLanding(1)));
}

#[test]
fn colonize_needs_room() {
    // a node too close to the edge of its own reach: its center tile is
    // (0, 0), and with a city radius of 10 tiles the landing fits; a farm
    // on the landing's corner leaves no room
    let mut g = Game::new(vec![node(500, 500)], 2100);
    g.bulk_insert_building_grid([1, 1], BuildingId::Farm(9), 1, 1);
    assert_eq!(g.colonize(0), Err(GameError::NoRoom));
    assert!(g.entities.characters.is_empty());
    assert!(g.nations.is_empty());
}

#[test]
fn sites_closer_than_a_city_radius_overlap() {
    let sites = vec![Point::new(20_000, 20_000), Point::new(80_000, 40_000)];
    assert!(is_site_taken(&sites, Point::new(25_000, 25_000)));
    // exactly a city radius away does not overlap
    assert!(!is_site_taken(&sites, Point::new(30_000, 20_000)));
    assert!(!is_site_taken(&sites, Point::new(50_000, 50_000)));
    assert!(!is_site_taken(&Vec::new(), Point::new(0, 0)));
}
