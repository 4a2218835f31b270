use tile_pathfinder::AirPathFinderWasm;
use tile_pathfinder::WasmGameMap;

fn finder(width: usize, height: usize) -> AirPathFinderWasm {
    AirPathFinderWasm::new(WasmGameMap::new(width, height, Vec::new(), Vec::new()))
}

fn distance(width: u32, a: u32, b: u32) -> (i64, i64) {
    let dx = ((a % width) as i64 - (b % width) as i64).abs();
    let dy = ((a / width) as i64 - (b / width) as i64).abs();
    (dx + dy, dx.max(dy))
}

#[test]
fn next_tile_on_the_destination_reports_arrival() {
    let air = finder(5, 5);
    for tile in 0..25u32 {
        for seed in [0u32, 1, 49, 50, 99, 100, 12_345, u32::MAX] {
            assert_eq!(air.next_tile(tile, tile, seed), None);
        }
    }
}

#[test]
fn low_seed_steps_along_the_row() {
    let air = finder(5, 5);
    // Four columns and four rows to go: the ratio is 1, seeds below 50 pick
    // the row.
    assert_eq!(air.next_tile(0, 24, 0), Some(1));
    assert_eq!(air.next_tile(0, 24, 49), Some(1));
    assert_eq!(air.next_tile(0, 24, 149), Some(1));
    assert_eq!(air.next_tile(24, 0, 7), Some(23));
}

#[test]
fn high_seed_steps_along_the_column() {
    let air = finder(5, 5);
    assert_eq!(air.next_tile(0, 24, 50), Some(5));
    assert_eq!(air.next_tile(0, 24, 99), Some(5));
    assert_eq!(air.next_tile(0, 24, 250), Some(5));
    assert_eq!(air.next_tile(24, 0, 77), Some(19));
}

#[test]
fn ratio_grows_with_the_rows_to_go() {
    // From (4, 0) to (3, 9) on a 5x10 grid: one column and nine rows to go,
    // the ratio is 1 + 9 / 2 = 5, and seeds below 100 * 5 / 6 = 83.3 pick
    // the row.
    let air = finder(5, 10);
    assert_eq!(air.next_tile(4, 48, 83), Some(3));
    assert_eq!(air.next_tile(4, 48, 84), Some(9));
    // From (0, 0) to (0, 9): the ratio is 10, seeds below 90.9 pick the row,
    // where there is nothing to do: the step goes along the column all the
    // same.
    assert_eq!(air.next_tile(0, 45, 90), Some(5));
    assert_eq!(air.next_tile(0, 45, 91), Some(5));
}

#[test]
fn same_column_steps_along_the_column_whatever_the_seed() {
    let air = finder(5, 5);
    for seed in 0..200u32 {
        assert_eq!(air.next_tile(2, 22, seed), Some(7));
        assert_eq!(air.next_tile(22, 2, seed), Some(17));
    }
}

#[test]
fn same_row_with_a_high_seed_reports_arrival_early() {
    let air = finder(5, 5);
    // Nothing to do along the column, and the seed does not pick the row.
    assert_eq!(air.next_tile(0, 4, 50), None);
    assert_eq!(air.next_tile(0, 4, 99), None);
    assert_eq!(air.next_tile(0, 4, 49), Some(1));
    assert_eq!(air.next_tile(4, 0, 0), Some(3));
}

#[test]
fn every_step_is_one_tile_closer() {
    let air = finder(6, 7);
    for tile in 0..42u32 {
        for dst in 0..42u32 {
            for seed in [0u32, 33, 49, 50, 66, 99] {
                if let Some(next) = air.next_tile(tile, dst, seed) {
                    assert_eq!(distance(6, tile, next).0, 1);
                    assert_eq!(distance(6, next, dst).0, distance(6, tile, dst).0 - 1);
                    assert!(distance(6, next, dst).1 <= distance(6, tile, dst).1);
                }
            }
        }
    }
}

#[test]
fn varying_seeds_bring_the_unit_closer_on_average() {
    let air = finder(20, 20);
    let (tile, dst) = (0u32, 399u32);
    let before = distance(20, tile, dst).1;
    let mut total = 0i64;
    let mut steps = 0i64;
    for seed in 0..1_000u32 {
        if let Some(next) = air.next_tile(tile, dst, seed.wrapping_mul(2_654_435_761)) {
            total += distance(20, next, dst).1;
            steps += 1;
        }
    }
    assert_eq!(steps, 1_000);
    assert!(total <= before * steps);
}

#[test]
fn a_walk_with_varying_seeds_arrives() {
    let air = finder(9, 9);
    let dst = 80u32;
    let mut tile = 0u32;
    let mut seed = 12_345u32;
    let mut moves = 0;
    while tile != dst && moves < 1_000 {
        seed = seed.wrapping_mul(1_103_515_245).wrapping_add(12_345);
        if let Some(next) = air.next_tile(tile, dst, seed >> 8) {
            assert_eq!(distance(9, next, dst).0, distance(9, tile, dst).0 - 1);
            tile = next;
        }
        moves += 1;
    }
    assert_eq!(tile, dst);
}

#[test]
fn next_tile_ignores_cost_and_navigability() {
    let plain = finder(5, 5);
    let costly = AirPathFinderWasm::new(WasmGameMap::new(
        5,
        5,
        vec![900_000; 25],
        vec![0, 6, 12, 18, 24],
    ));
    for seed in 0..100u32 {
        assert_eq!(plain.next_tile(3, 21, seed), costly.next_tile(3, 21, seed));
    }
}
