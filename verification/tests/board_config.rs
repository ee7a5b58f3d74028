use fastcore::board::Board;
use fastcore::board_config::{board_from_config, parse_resource, port_type_from_resource, BoardConfigError};
use fastcore::types::{PortType, Resource, NODE_COUNT, TILE_COUNT};

fn resource_name(resource: Resource) -> &'static str {
    match resource {
        Resource::Brick => "brick",
        Resource::Lumber => "wood",
        Resource::Ore => "ore",
        Resource::Grain => "wheat",
        Resource::Wool => "sheep",
    }
}

fn standard_config() -> (Vec<Option<String>>, Vec<Option<String>>, Vec<u8>) {
    let board = Board::standard();
    let tiles: Vec<Option<String>> = board.tile_resources.iter().map(|r| r.map(|r| resource_name(r).to_string())).collect();
    let numbers: Vec<u8> = board.tile_numbers.iter().filter_map(|n| *n).collect();
    let ports = vec![
        None,
        Some("Wool".to_string()),
        None,
        None,
        Some(" BRICK ".to_string()),
        Some("lumber".to_string()),
        None,
        Some("grain".to_string()),
        Some("Ore".to_string()),
    ];
    (tiles, ports, numbers)
}

#[test]
fn resource_names_are_trimmed_and_case_blind() {
    assert_eq!(parse_resource("  wood\t"), Ok(Resource::Lumber));
    assert_eq!(parse_resource("Lumber"), Ok(Resource::Lumber));
    assert_eq!(parse_resource("BRICK"), Ok(Resource::Brick));
    assert_eq!(parse_resource("sheep"), Ok(Resource::Wool));
    assert_eq!(parse_resource("wool"), Ok(Resource::Wool));
    assert_eq!(parse_resource("Wheat"), Ok(Resource::Grain));
    assert_eq!(parse_resource("grain"), Ok(Resource::Grain));
    assert_eq!(parse_resource(" ore "), Ok(Resource::Ore));
}

#[test]
fn unknown_resource_is_named_in_upper_case() {
    let err = parse_resource("  Stone ").unwrap_err();
    assert_eq!(err, BoardConfigError::UnknownResource("STONE".to_string()));
    assert_eq!(err.message(), "unknown resource: STONE");
}

#[test]
fn harbours_match_their_resource() {
    assert_eq!(port_type_from_resource(Resource::Brick), PortType::Brick);
    assert_eq!(port_type_from_resource(Resource::Lumber), PortType::Lumber);
    assert_eq!(port_type_from_resource(Resource::Ore), PortType::Ore);
    assert_eq!(port_type_from_resource(Resource::Grain), PortType::Grain);
    assert_eq!(port_type_from_resource(Resource::Wool), PortType::Wool);
}

#[test]
fn standard_layout_round_trips_through_the_configuration() {
    let (tiles, ports, numbers) = standard_config();
    let board = board_from_config(&tiles, &ports, &numbers).expect("standard layout is valid");
    let standard = Board::standard();
    assert_eq!(board.tile_resources, standard.tile_resources);
    assert_eq!(board.tile_numbers, standard.tile_numbers);
    assert_eq!(board.desert_tile, standard.desert_tile);
    for node in 0..NODE_COUNT {
        assert_eq!(board.node_ports[node], standard.node_ports[node], "node {node}");
    }
    assert_eq!(board.node_edges, standard.node_edges);
    assert_eq!(board.edge_nodes, standard.edge_nodes);
}

#[test]
fn configuration_errors_come_in_order() {
    let (tiles, ports, numbers) = standard_config();

    let short_tiles = tiles[..TILE_COUNT - 1].to_vec();
    let err = board_from_config(&short_tiles, &ports, &numbers).unwrap_err();
    assert_eq!(err, BoardConfigError::TileCount(18));
    assert_eq!(err.message(), "tile_resources expected 19, got 18");

    let err = board_from_config(&tiles, &ports[..5].to_vec(), &numbers).unwrap_err();
    assert_eq!(err.message(), "port_resources expected 9, got 5");

    let mut bad_tiles = tiles.clone();
    bad_tiles[3] = Some("gold".to_string());
    bad_tiles[5] = Some("silver".to_string());
    let err = board_from_config(&bad_tiles, &ports, &numbers).unwrap_err();
    assert_eq!(err, BoardConfigError::UnknownResource("GOLD".to_string()));

    let err = board_from_config(&tiles, &ports, &numbers[..numbers.len() - 1].to_vec()).unwrap_err();
    assert_eq!(err, BoardConfigError::NumbersTooShort);
    assert_eq!(err.message(), "numbers list too short");

    let mut long = numbers.clone();
    long.push(6);
    let err = board_from_config(&tiles, &ports, &long).unwrap_err();
    assert_eq!(err, BoardConfigError::NumbersTooLong);
    assert_eq!(err.message(), "numbers list too long");

    let mut bad_ports = ports.clone();
    bad_ports[2] = Some("clay".to_string());
    let err = board_from_config(&tiles, &bad_ports, &numbers).unwrap_err();
    assert_eq!(err, BoardConfigError::UnknownResource("CLAY".to_string()));
}

#[test]
fn the_last_tile_without_a_resource_is_the_desert() {
    let (mut tiles, ports, mut numbers) = standard_config();
    tiles[0] = Some("ore".to_string());
    tiles[7] = None;
    tiles[12] = None;
    numbers.truncate(numbers.len() - 2);
    numbers.insert(0, 9);
    assert_eq!(numbers.len(), 17);
    let board = board_from_config(&tiles, &ports, &numbers);
    match board {
        Ok(board) => {
            assert_eq!(board.desert_tile, 12);
            assert_eq!(board.tile_numbers[7], None);
            assert_eq!(board.tile_numbers[12], None);
            assert_eq!(board.tile_numbers[0], Some(9));
        }
        Err(err) => panic!("unexpected refusal: {}", err.message()),
    }
}
