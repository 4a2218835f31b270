use tile_pathfinder::PathFindResultType;
use tile_pathfinder::Point;
use tile_pathfinder::WasmGameMap;
use tile_pathfinder::COST_SCALE;

fn open_grid(width: usize, height: usize) -> WasmGameMap {
    let tiles: Vec<u32> = (0..(width * height) as u32).collect();
    WasmGameMap::new(width, height, Vec::new(), tiles)
}

#[test]
fn ref_tile_is_row_times_width_plus_column() {
    let grid = open_grid(7, 4);
    assert_eq!(grid.ref_tile(0, 0), 0);
    assert_eq!(grid.ref_tile(6, 0), 6);
    assert_eq!(grid.ref_tile(0, 1), 7);
    assert_eq!(grid.ref_tile(3, 2), 17);
    assert_eq!(grid.ref_tile(6, 3), 27);
}

#[test]
fn x_and_y_decode_a_tile() {
    let grid = open_grid(7, 4);
    assert_eq!(grid.x(17), 3);
    assert_eq!(grid.y(17), 2);
    assert_eq!(grid.x(27), 6);
    assert_eq!(grid.y(27), 3);
    assert_eq!(grid.x(0), 0);
    assert_eq!(grid.y(0), 0);
}

#[test]
fn coordinates_round_trip_on_every_tile() {
    let grid = open_grid(6, 5);
    for tile in 0..30u32 {
        assert_eq!(grid.ref_tile(grid.x(tile), grid.y(tile)), tile);
    }
    for y in 0..5 {
        for x in 0..6 {
            let tile = grid.ref_tile(x, y);
            assert_eq!(grid.x(tile), x);
            assert_eq!(grid.y(tile), y);
        }
    }
}

#[test]
fn cost_comes_from_the_table() {
    let grid = WasmGameMap::new(3, 2, vec![1000, 2500, 0, 7], Vec::new());
    assert_eq!(grid.cost(0), 1000);
    assert_eq!(grid.cost(1), 2500);
    assert_eq!(grid.cost(2), 0);
    assert_eq!(grid.cost(3), 7);
}

#[test]
fn cost_is_one_unit_beyond_the_table() {
    let grid = WasmGameMap::new(3, 2, vec![1000, 2500, 0, 7], Vec::new());
    assert_eq!(COST_SCALE, 1000);
    assert_eq!(grid.cost(4), COST_SCALE);
    assert_eq!(grid.cost(5), COST_SCALE);
    assert_eq!(grid.cost(4_000_000_000), COST_SCALE);
}

#[test]
fn is_water_tells_the_listed_tiles() {
    let grid = WasmGameMap::new(3, 3, Vec::new(), vec![4, 1, 4, 8]);
    assert!(grid.is_water(1));
    assert!(grid.is_water(4));
    assert!(grid.is_water(8));
    assert!(!grid.is_water(0));
    assert!(!grid.is_water(7));
    assert!(!grid.is_water(100));
}

#[test]
fn neighbors_of_an_inner_tile_go_up_right_down_left() {
    let grid = open_grid(5, 5);
    assert_eq!(grid.neighbors(12), vec![7, 13, 17, 11]);
}

#[test]
fn neighbors_of_corners_and_edges_stay_on_the_grid() {
    let grid = open_grid(5, 5);
    assert_eq!(grid.neighbors(0), vec![1, 5]);
    assert_eq!(grid.neighbors(4), vec![9, 3]);
    assert_eq!(grid.neighbors(20), vec![15, 21]);
    assert_eq!(grid.neighbors(24), vec![19, 23]);
    assert_eq!(grid.neighbors(2), vec![3, 7, 1]);
    assert_eq!(grid.neighbors(10), vec![5, 11, 15]);
    assert_eq!(grid.neighbors(14), vec![9, 19, 13]);
    assert_eq!(grid.neighbors(22), vec![17, 23, 21]);
}

#[test]
fn neighbors_on_narrow_grids() {
    let single = open_grid(1, 1);
    assert_eq!(single.neighbors(0), Vec::<u32>::new());
    let row = open_grid(4, 1);
    assert_eq!(row.neighbors(0), vec![1]);
    assert_eq!(row.neighbors(2), vec![3, 1]);
    let column = open_grid(1, 4);
    assert_eq!(column.neighbors(0), vec![1]);
    assert_eq!(column.neighbors(2), vec![1, 3]);
}

#[test]
fn neighbors_are_few_distinct_and_one_step_away() {
    let grid = open_grid(6, 4);
    for tile in 0..24u32 {
        let found = grid.neighbors(tile);
        assert!(found.len() <= 4);
        for (i, a) in found.iter().enumerate() {
            assert!(*a < 24);
            let dx = (grid.x(*a) - grid.x(tile)).abs();
            let dy = (grid.y(*a) - grid.y(tile)).abs();
            assert_eq!(dx + dy, 1);
            for b in found.iter().skip(i + 1) {
                assert_ne!(a, b);
            }
        }
    }
}

#[test]
fn result_codes_are_zero_to_three() {
    assert_eq!(PathFindResultType::NextTile.code(), 0);
    assert_eq!(PathFindResultType::Pending.code(), 1);
    assert_eq!(PathFindResultType::Completed.code(), 2);
    assert_eq!(PathFindResultType::PathNotFound.code(), 3);
}

#[test]
fn result_codes_read_back() {
    assert_eq!(PathFindResultType::from_code(0), Some(PathFindResultType::NextTile));
    assert_eq!(PathFindResultType::from_code(1), Some(PathFindResultType::Pending));
    assert_eq!(PathFindResultType::from_code(2), Some(PathFindResultType::Completed));
    assert_eq!(PathFindResultType::from_code(3), Some(PathFindResultType::PathNotFound));
    assert_eq!(PathFindResultType::from_code(4), None);
    assert_eq!(PathFindResultType::from_code(255), None);
}

#[test]
fn points_compare_by_column_and_row() {
    let a = Point { x: 3, y: -2 };
    let b = a;
    assert_eq!(a, b);
    assert_ne!(a, Point { x: 3, y: 2 });
}

#[test]
fn rows_past_the_last_row_round_trip_too() {
    let grid = open_grid(7, 4);
    for y in 4..40 {
        for x in 0..7 {
            let tile = grid.ref_tile(x, y);
            assert_eq!(tile, (y * 7 + x) as u32);
            assert_eq!(grid.x(tile), x);
            assert_eq!(grid.y(tile), y);
        }
    }
    let wide = open_grid(1000, 2);
    let tile = wide.ref_tile(999, 2_147_482);
    assert_eq!(tile, 2_147_482_999);
    assert_eq!(wide.x(tile), 999);
    assert_eq!(wide.y(tile), 2_147_482);
}
