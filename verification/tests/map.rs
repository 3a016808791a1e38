use rts_core::data::EntityType;
use rts_core::entities::{EntityId, Team};
use rts_core::grid::Grid;
use rts_core::map::{create_tile_grid, MapType, TileId, WorldInitData};
use rts_core::data::create_entity;
use rts_core::map::{map_file_contents, map_text_is_ok, water_cells};

#[test]
fn map_text_is_read_into_water_and_entities() {
    let text = String::from("XXXXXX\nX W1 X\nXR  2X\nXXXXXX\n");
    let data = WorldInitData::load_from_file_contents(text);
    assert_eq!(data.dimensions, [4, 2]);
    assert_eq!(data.water_grid.dimensions(), [4, 2]);
    assert_eq!(data.water_grid.get(&[1, 0]), Some(true));
    assert_eq!(data.water_grid.get(&[0, 0]), Some(false));
    assert_eq!(data.water_grid.get(&[3, 1]), Some(false));
    assert_eq!(data.entities.len(), 3);
    assert_eq!(data.entities[0].entity_type, EntityType::FuelRift);
    assert_eq!(data.entities[0].position, [0, 1]);
    assert_eq!(data.entities[0].team, Team::Neutral);
    assert_eq!(data.entities[0].id, EntityId(1));
    assert_eq!(data.entities[1].entity_type, EntityType::TechLab);
    assert_eq!(data.entities[1].position, [2, 0]);
    assert_eq!(data.entities[1].team, Team::Player);
    assert_eq!(data.entities[1].id, EntityId(2));
    assert_eq!(data.entities[2].position, [3, 1]);
    assert_eq!(data.entities[2].team, Team::Enemy1);
    assert_eq!(data.tile_grid.dimensions(), [8, 4]);
}

#[test]
fn map_text_with_carriage_returns_and_no_final_newline() {
    let text = String::from("XXX\r\nXWX\r\nXXX");
    let data = WorldInitData::load_from_file_contents(text);
    assert_eq!(data.dimensions, [1, 1]);
    assert_eq!(data.water_grid.get(&[0, 0]), Some(true));
    assert!(data.entities.is_empty());
    assert_eq!(data.tile_grid.get(&[0, 0]), Some(TileId::WaterCenter));
}

#[test]
fn lone_water_cell_gets_four_corners() {
    let mut water = Grid::new([3, 3]);
    water.set([1, 1], true);
    let tiles = create_tile_grid(&water);
    assert_eq!(tiles.dimensions(), [6, 6]);
    assert_eq!(tiles.get(&[2, 2]), Some(TileId::WaterCornerNW));
    assert_eq!(tiles.get(&[3, 2]), Some(TileId::WaterCornerNE));
    assert_eq!(tiles.get(&[3, 3]), Some(TileId::WaterCornerSE));
    assert_eq!(tiles.get(&[2, 3]), Some(TileId::WaterCornerSW));
    assert_eq!(tiles.get(&[0, 0]), Some(TileId::Ground));
    assert_eq!(tiles.get(&[5, 5]), Some(TileId::Ground));
}

#[test]
fn water_row_has_edges_and_centers() {
    let mut water = Grid::new([3, 3]);
    for x in 0..3 {
        water.set([x, 1], true);
    }
    let tiles = create_tile_grid(&water);
    assert_eq!(tiles.get(&[2, 2]), Some(TileId::WaterEdgeNorth));
    assert_eq!(tiles.get(&[3, 3]), Some(TileId::WaterEdgeSouth));
    assert_eq!(tiles.get(&[0, 2]), Some(TileId::WaterEdgeNorth));
    assert_eq!(tiles.get(&[1, 2]), Some(TileId::WaterEdgeNorth));
}

#[test]
fn water_corner_next_to_diagonal_land_is_concave() {
    let mut water = Grid::new([2, 2]);
    water.set([0, 0], true);
    water.set([1, 0], true);
    water.set([0, 1], true);
    let tiles = create_tile_grid(&water);
    assert_eq!(tiles.get(&[1, 1]), Some(TileId::WaterConcaveSE));
    assert_eq!(tiles.get(&[0, 0]), Some(TileId::WaterCenter));
    assert_eq!(tiles.get(&[3, 3]), Some(TileId::Ground));
}

#[test]
fn created_maps_have_their_size_and_dry_entities() {
    for map_type in [
        MapType::Empty,
        MapType::Small,
        MapType::Medium,
        MapType::Spectator,
        MapType::LoadTest,
    ] {
        let data = WorldInitData::create_from_type(map_type);
        let expected = if map_type == MapType::LoadTest {
            [100, 100]
        } else {
            [30, 20]
        };
        assert_eq!(data.dimensions, expected);
        assert_eq!(data.tile_grid.dimensions(), [expected[0] * 2, expected[1] * 2]);
        for x in 0..expected[0] {
            for y in 0..expected[1] {
                if data.water_grid.get(&[x, y]).unwrap() {
                    assert!(x % 4 == 0 && y % 3 < 2);
                }
            }
        }
        for entity in &data.entities {
            let r = entity.cell_rect();
            for x in r.position[0]..r.position[0] + r.size[0] {
                for y in r.position[1]..r.position[1] + r.size[1] {
                    assert_ne!(data.water_grid.get(&[x, y]), Some(true));
                }
            }
        }
        for pair in data.entities.windows(2) {
            assert!(pair[0].id.0 < pair[1].id.0);
        }
    }
}

#[test]
fn spectator_map_has_no_player_entities() {
    let data = WorldInitData::create_from_type(MapType::Spectator);
    assert!(data.entities.iter().all(|e| e.team != Team::Player));
}

#[test]
fn medium_map_keeps_entities_off_water_columns() {
    let data = WorldInitData::create_from_type(MapType::Medium);
    let rift = data
        .entities
        .iter()
        .find(|e| e.entity_type == EntityType::FuelRift)
        .unwrap();
    assert_eq!(rift.position, [6, 4]);
    assert_eq!(rift.team, Team::Neutral);
}

#[test]
fn saved_map_text_reads_back_as_the_same_map() {
    let mut water = Grid::new([5, 3]);
    water.set([0, 0], true);
    water.set([4, 2], true);
    let entities = vec![
        create_entity(EntityId(1), EntityType::TechLab, [1, 1], Team::Player),
        create_entity(EntityId(2), EntityType::FuelRift, [3, 0], Team::Neutral),
        create_entity(EntityId(3), EntityType::TechLab, [2, 2], Team::Enemy1),
    ];
    let bytes = map_file_contents(&water, &entities);
    let text = String::from_utf8(bytes).unwrap();
    assert_eq!(text, "XXXXXXX\nXW  R X\nX 1   X\nX  2 WX\nXXXXXXX\n");
    let data = WorldInitData::load_from_file_contents(text);
    assert_eq!(data.dimensions, [5, 3]);
    for x in 0..5 {
        for y in 0..3 {
            assert_eq!(data.water_grid.get(&[x, y]), water.get(&[x, y]));
        }
    }
    let placed: Vec<(EntityType, [u32; 2], Team)> = data
        .entities
        .iter()
        .map(|e| (e.entity_type, e.position, e.team))
        .collect();
    assert_eq!(
        placed,
        vec![
            (EntityType::TechLab, [1, 1], Team::Player),
            (EntityType::TechLab, [2, 2], Team::Enemy1),
            (EntityType::FuelRift, [3, 0], Team::Neutral),
        ]
    );
}

#[test]
fn water_cells_are_listed_column_by_column() {
    let mut water = Grid::new([3, 3]);
    water.set([2, 0], true);
    water.set([0, 2], true);
    water.set([0, 1], true);
    assert_eq!(water_cells(&water), vec![[0, 1], [0, 2], [2, 0]]);
}

#[test]
fn a_map_is_put_together_from_its_water_and_extra_units() {
    let mut water = Grid::new([30, 20]);
    water.set([6, 2], true);
    water.set([20, 10], true);
    let extra = vec![
        (EntityType::Enforcer, [20, 10], Team::Player),
        (EntityType::Engineer, [21, 10], Team::Enemy1),
    ];
    let data = WorldInitData::from_layout(MapType::Small, water, extra);
    assert_eq!(data.dimensions, [30, 20]);
    assert_eq!(data.water_grid.get(&[6, 2]), Some(true));
    assert_eq!(data.tile_grid.dimensions(), [60, 40]);
    assert_eq!(data.tile_grid.get(&[12, 4]), Some(TileId::WaterCornerNW));
    assert_eq!(data.tile_grid.get(&[13, 5]), Some(TileId::WaterCornerSE));
    // The engineer at [6, 2] (id 1) and the extra enforcer (id 7) stand on water.
    let ids: Vec<usize> = data.entities.iter().map(|e| e.id.0).collect();
    assert_eq!(ids, vec![2, 3, 4, 5, 6, 8]);
    let last = &data.entities[5];
    assert_eq!(last.entity_type, EntityType::Engineer);
    assert_eq!(last.position, [21, 10]);
    assert_eq!(last.team, Team::Enemy1);
}

#[test]
fn map_texts_are_checked_before_reading() {
    assert!(map_text_is_ok(&String::from("XXXXXX\nX W1 X\nXR  2X\nXXXXXX\n")));
    assert!(map_text_is_ok(&String::from("XXX\r\nXWX\r\nXXX")));
    assert!(!map_text_is_ok(&String::from("XXXX\nXX\nXXXX\n")));
    assert!(!map_text_is_ok(&String::from("XXXX\n")));
    assert!(!map_text_is_ok(&String::from("X\nX\n")));
    assert!(!map_text_is_ok(&String::new()));
}
