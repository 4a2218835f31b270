use tile_pathfinder::PathFindResultType;
use tile_pathfinder::SerialAStarWasm;
use tile_pathfinder::WasmGameMap;

fn open_grid(width: usize, height: usize) -> WasmGameMap {
    let tiles: Vec<u32> = (0..(width * height) as u32).collect();
    WasmGameMap::new(width, height, Vec::new(), tiles)
}

fn run(search: &mut SerialAStarWasm, most_calls: usize) -> (PathFindResultType, usize) {
    let mut calls = 0;
    loop {
        let result = search.compute();
        calls += 1;
        if result != PathFindResultType::Pending || calls >= most_calls {
            return (result, calls);
        }
    }
}

fn assert_steps_are_adjacent(width: u32, path: &[u32]) {
    for pair in path.windows(2) {
        let (ax, ay) = ((pair[0] % width) as i64, (pair[0] / width) as i64);
        let (bx, by) = ((pair[1] % width) as i64, (pair[1] / width) as i64);
        assert_eq!((ax - bx).abs() + (ay - by).abs(), 1, "{} -> {}", pair[0], pair[1]);
    }
}

#[test]
fn five_by_five_corner_to_corner() {
    let mut search = SerialAStarWasm::new(vec![0], 24, 10_000, 10, open_grid(5, 5));
    let (result, _) = run(&mut search, 100);
    assert_eq!(result, PathFindResultType::Completed);
    let path = search.reconstruct_path();
    assert_eq!(path.len(), 9);
    assert_eq!(path[0], 0);
    assert_eq!(path[8], 24);
    assert_steps_are_adjacent(5, &path);
}

#[test]
fn open_grid_search_completes_within_a_bounded_number_of_calls() {
    // Twenty steps apart, five rounds to a call.
    let mut search = SerialAStarWasm::new(vec![0], 120, 5, 1_000, open_grid(11, 11));
    let (result, calls) = run(&mut search, 1_000);
    assert_eq!(result, PathFindResultType::Completed);
    // Five calls may do 25 rounds, more than the 20 steps.
    assert!(calls <= 5, "{} calls", calls);
    let path = search.reconstruct_path();
    assert_eq!(path[0], 0);
    assert_eq!(*path.last().unwrap(), 120);
    assert_steps_are_adjacent(11, &path);
}

#[test]
fn path_starts_on_one_of_several_sources() {
    let sources = vec![0, 4, 20];
    let mut search = SerialAStarWasm::new(sources.clone(), 24, 10_000, 10, open_grid(5, 5));
    let (result, _) = run(&mut search, 100);
    assert_eq!(result, PathFindResultType::Completed);
    let path = search.reconstruct_path();
    assert!(sources.contains(&path[0]));
    assert_eq!(*path.last().unwrap(), 24);
    assert_steps_are_adjacent(5, &path);
}

#[test]
fn source_equal_to_destination_gives_a_path_of_one_tile() {
    let mut search = SerialAStarWasm::new(vec![12], 12, 100, 10, open_grid(5, 5));
    assert_eq!(search.compute(), PathFindResultType::Completed);
    assert_eq!(search.reconstruct_path(), vec![12]);
}

#[test]
fn neighbouring_source_and_destination() {
    let mut search = SerialAStarWasm::new(vec![12], 13, 100, 10, open_grid(5, 5));
    let (result, _) = run(&mut search, 100);
    assert_eq!(result, PathFindResultType::Completed);
    assert_eq!(search.reconstruct_path(), vec![12, 13]);
}

#[test]
fn path_keeps_to_navigable_tiles() {
    // A corridor: row 0, column 4, row 4 back to column 0.
    //   S . . . .
    //   # # # # .
    //   # # # # .
    //   # # # # .
    //   D . . . .
    let water = vec![1, 2, 3, 4, 9, 14, 19, 24, 23, 22, 21];
    let grid = WasmGameMap::new(5, 5, Vec::new(), water.clone());
    let mut search = SerialAStarWasm::new(vec![0], 20, 10_000, 10, grid);
    let (result, _) = run(&mut search, 100);
    assert_eq!(result, PathFindResultType::Completed);
    let path = search.reconstruct_path();
    assert_eq!(path, vec![0, 1, 2, 3, 4, 9, 14, 19, 24, 23, 22, 21, 20]);
}

#[test]
fn path_avoids_a_costly_tile() {
    // One row of five tiles below one costly shortcut would not help; take a
    // 3x3 grid on which the middle tile costs 50 units.
    let tiles: Vec<u32> = (0..9).collect();
    let grid = WasmGameMap::new(3, 3, vec![1000, 1000, 1000, 1000, 50_000], tiles);
    let mut search = SerialAStarWasm::new(vec![3], 5, 10_000, 10, grid);
    let (result, _) = run(&mut search, 100);
    assert_eq!(result, PathFindResultType::Completed);
    let path = search.reconstruct_path();
    assert_eq!(path[0], 3);
    assert_eq!(*path.last().unwrap(), 5);
    assert!(!path.contains(&4));
    assert_eq!(path.len(), 5);
    assert_steps_are_adjacent(3, &path);
}

#[test]
fn isolated_destination_is_not_found() {
    // Only row 0 is navigable; the destination in the far corner touches no
    // navigable tile.
    let grid = WasmGameMap::new(5, 5, Vec::new(), vec![0, 1, 2, 3, 4]);
    let mut search = SerialAStarWasm::new(vec![0], 24, 1_000, 50, grid);
    let (result, calls) = run(&mut search, 50);
    assert_eq!(result, PathFindResultType::PathNotFound);
    assert!(calls <= 50);
    assert_eq!(search.reconstruct_path(), Vec::<u32>::new());
}

#[test]
fn walled_off_destination_is_not_found() {
    // Column 2 is not navigable and cuts the grid in two.
    let water: Vec<u32> = (0..25).filter(|t| t % 5 != 2).collect();
    let grid = WasmGameMap::new(5, 5, Vec::new(), water);
    let mut search = SerialAStarWasm::new(vec![0], 24, 1_000, 50, grid);
    let (result, _) = run(&mut search, 50);
    assert_eq!(result, PathFindResultType::PathNotFound);
    assert_eq!(search.reconstruct_path(), Vec::<u32>::new());
}

#[test]
fn destination_off_the_navigable_set_is_still_reached() {
    // Nothing is navigable: the destination is stepped on all the same when
    // it lies next to the source.
    let grid = WasmGameMap::new(5, 5, Vec::new(), Vec::new());
    let mut search = SerialAStarWasm::new(vec![12], 13, 100, 10, grid);
    let (result, _) = run(&mut search, 100);
    assert_eq!(result, PathFindResultType::Completed);
    assert_eq!(search.reconstruct_path(), vec![12, 13]);
}

#[test]
fn compute_after_completed_stays_completed() {
    let mut search = SerialAStarWasm::new(vec![0], 24, 10_000, 10, open_grid(5, 5));
    let (result, _) = run(&mut search, 100);
    assert_eq!(result, PathFindResultType::Completed);
    let path = search.reconstruct_path();
    for _ in 0..20 {
        assert_eq!(search.compute(), PathFindResultType::Completed);
        assert_eq!(search.reconstruct_path(), path);
    }
}

#[test]
fn pending_while_rounds_run_out_and_calls_are_left() {
    // Two rounds to a call are not enough for eight steps.
    let mut search = SerialAStarWasm::new(vec![0], 24, 2, 100, open_grid(5, 5));
    assert_eq!(search.compute(), PathFindResultType::Pending);
    assert_eq!(search.reconstruct_path(), Vec::<u32>::new());
    let (result, calls) = run(&mut search, 100);
    assert_eq!(result, PathFindResultType::Completed);
    assert!(calls > 1);
}

#[test]
fn a_budget_of_one_round_does_one_round() {
    // The one round takes the source, which the backward frontier has
    // reached: the frontiers meet in the first call.
    let mut search = SerialAStarWasm::new(vec![4], 4, 1, 5, open_grid(3, 3));
    assert_eq!(search.compute(), PathFindResultType::Completed);
    assert_eq!(search.reconstruct_path(), vec![4]);
}

#[test]
fn a_budget_of_one_round_takes_one_call_for_each_round() {
    // Two steps apart: the first round expands both ends, the second meets
    // on the tile between them.
    let mut search = SerialAStarWasm::new(vec![12], 14, 1, 5, open_grid(5, 5));
    assert_eq!(search.compute(), PathFindResultType::Pending);
    assert_eq!(search.reconstruct_path(), Vec::<u32>::new());
    assert_eq!(search.compute(), PathFindResultType::Completed);
    assert_eq!(search.reconstruct_path(), vec![12, 13, 14]);
}

#[test]
fn a_budget_of_two_rounds_does_both_in_one_call() {
    let mut search = SerialAStarWasm::new(vec![12], 14, 2, 5, open_grid(5, 5));
    assert_eq!(search.compute(), PathFindResultType::Completed);
    assert_eq!(search.reconstruct_path(), vec![12, 13, 14]);
}

#[test]
fn one_round_a_call_runs_out_of_calls() {
    let mut search = SerialAStarWasm::new(vec![0], 120, 1, 3, open_grid(11, 11));
    assert_eq!(search.compute(), PathFindResultType::Pending);
    assert_eq!(search.compute(), PathFindResultType::Pending);
    assert_eq!(search.compute(), PathFindResultType::PathNotFound);
    assert_eq!(search.compute(), PathFindResultType::PathNotFound);
    assert_eq!(search.reconstruct_path(), Vec::<u32>::new());
}

#[test]
fn call_budget_spent_gives_path_not_found() {
    let mut search = SerialAStarWasm::new(vec![0], 120, 2, 4, open_grid(11, 11));
    assert_eq!(search.compute(), PathFindResultType::Pending);
    assert_eq!(search.compute(), PathFindResultType::Pending);
    assert_eq!(search.compute(), PathFindResultType::Pending);
    assert_eq!(search.compute(), PathFindResultType::PathNotFound);
}

#[test]
fn no_call_budget_at_all() {
    let mut search = SerialAStarWasm::new(vec![0], 24, 2, 0, open_grid(5, 5));
    assert_eq!(search.compute(), PathFindResultType::PathNotFound);
    let mut other = SerialAStarWasm::new(vec![0], 24, 2, -5, open_grid(5, 5));
    assert_eq!(other.compute(), PathFindResultType::PathNotFound);
}

#[test]
fn no_round_budget_at_all() {
    let mut search = SerialAStarWasm::new(vec![0], 24, 0, 2, open_grid(5, 5));
    assert_eq!(search.compute(), PathFindResultType::Pending);
    assert_eq!(search.compute(), PathFindResultType::PathNotFound);
    let mut other = SerialAStarWasm::new(vec![0], 24, i32::MIN, 2, open_grid(5, 5));
    assert_eq!(other.compute(), PathFindResultType::Pending);
}

#[test]
fn call_budget_stops_at_the_smallest_i32() {
    let mut search = SerialAStarWasm::new(vec![0], 120, 1, i32::MIN, open_grid(11, 11));
    assert_eq!(search.compute(), PathFindResultType::PathNotFound);
    assert_eq!(search.compute(), PathFindResultType::PathNotFound);
}

#[test]
fn reconstruct_before_any_call_is_empty() {
    let search = SerialAStarWasm::new(vec![0], 24, 10, 10, open_grid(5, 5));
    assert_eq!(search.reconstruct_path(), Vec::<u32>::new());
}

#[test]
fn search_heuristic_matches_the_grid() {
    let search = SerialAStarWasm::new(vec![0], 24, 10, 10, open_grid(5, 5));
    assert_eq!(search.heuristic(0, 24), 8800);
    assert_eq!(search.heuristic(6, 8), 2200);
    assert_eq!(search.game_map().ref_tile(4, 4), 24);
}

#[test]
fn take_next_and_visit_drive_a_search_by_hand() {
    let mut search = SerialAStarWasm::new(vec![12], 13, 10, 10, open_grid(5, 5));
    assert!(search.has_work());
    assert_eq!(search.take_next(true), Some(12));
    assert!(!search.has_work());
    assert!(!search.visit(12, true));
    assert!(search.has_work());
    // The destination itself now waits in the forward queue at the lowest
    // priority; the backward frontier has reached it.
    assert_eq!(search.take_next(true), Some(13));
    assert!(search.visit(13, true));
    assert_eq!(search.compute(), PathFindResultType::Completed);
    assert_eq!(search.reconstruct_path(), vec![12, 13]);
}

#[test]
fn expand_tile_ref_on_the_backward_side() {
    let mut search = SerialAStarWasm::new(vec![12], 14, 10, 10, open_grid(5, 5));
    assert_eq!(search.take_next(false), Some(14));
    search.expand_tile_ref(14, false);
    // 13 lies between: one step from the backward frontier's target 12.
    assert_eq!(search.take_next(false), Some(13));
    assert!(!search.visit(13, false));
    assert_eq!(search.take_next(false), Some(12));
    assert!(search.visit(12, false));
    assert_eq!(search.reconstruct_path(), vec![12, 13, 14]);
}

#[test]
fn backward_frontier_heads_for_the_first_of_the_closest_sources() {
    // Nothing is navigable, and both sources touch the destination: the
    // backward frontier steps on the one that comes first and on no other.
    let grid = WasmGameMap::new(5, 5, Vec::new(), Vec::new());
    let mut search = SerialAStarWasm::new(vec![11, 13], 12, 10, 10, grid);
    assert_eq!(search.take_next(false), Some(12));
    search.expand_tile_ref(12, false);
    assert_eq!(search.take_next(false), Some(11));
    assert_eq!(search.take_next(false), None);

    let grid = WasmGameMap::new(5, 5, Vec::new(), Vec::new());
    let mut search = SerialAStarWasm::new(vec![13, 11], 12, 10, 10, grid);
    assert_eq!(search.take_next(false), Some(12));
    search.expand_tile_ref(12, false);
    assert_eq!(search.take_next(false), Some(13));
    assert_eq!(search.take_next(false), None);
}

#[test]
fn backward_frontier_heads_for_the_closest_source() {
    let grid = WasmGameMap::new(5, 5, Vec::new(), Vec::new());
    let mut search = SerialAStarWasm::new(vec![0, 7, 24], 12, 10, 10, grid);
    assert_eq!(search.take_next(false), Some(12));
    search.expand_tile_ref(12, false);
    assert_eq!(search.take_next(false), Some(7));
    assert_eq!(search.take_next(false), None);
}

#[test]
fn forward_frontier_starts_with_every_source() {
    let mut search = SerialAStarWasm::new(vec![0, 7, 24, 7], 12, 10, 10, open_grid(5, 5));
    // 7 is one step from the destination, 0 and 24 are four steps away.
    assert_eq!(search.take_next(true), Some(7));
    let second = search.take_next(true);
    let third = search.take_next(true);
    assert!(second == Some(0) && third == Some(24) || second == Some(24) && third == Some(0));
    assert_eq!(search.take_next(true), None);
    assert!(!search.has_work());
}

fn assert_no_tile_twice(path: &[u32]) {
    for (i, a) in path.iter().enumerate() {
        for b in path.iter().skip(i + 1) {
            assert_ne!(a, b);
        }
    }
}

#[test]
fn path_holds_no_tile_twice() {
    for (sources, dst) in [(vec![0u32], 24u32), (vec![4, 20], 12), (vec![24], 0), (vec![2], 22)] {
        let mut search = SerialAStarWasm::new(sources, dst, 10_000, 10, open_grid(5, 5));
        let (result, _) = run(&mut search, 100);
        assert_eq!(result, PathFindResultType::Completed);
        assert_no_tile_twice(&search.reconstruct_path());
    }
    // Costs that make the cheapest way wind.
    let tiles: Vec<u32> = (0..25).collect();
    let costs = vec![
        1000, 9000, 1000, 1000, 1000, 1000, 9000, 1000, 9000, 1000, 1000, 9000, 1000, 9000, 1000,
        1000, 9000, 1000, 9000, 1000, 1000, 1000, 1000, 9000, 1000,
    ];
    let mut search =
        SerialAStarWasm::new(vec![0], 24, 10_000, 10, WasmGameMap::new(5, 5, costs, tiles));
    let (result, _) = run(&mut search, 100);
    assert_eq!(result, PathFindResultType::Completed);
    let path = search.reconstruct_path();
    assert_eq!(path[0], 0);
    assert_eq!(*path.last().unwrap(), 24);
    assert_steps_are_adjacent(5, &path);
    assert_no_tile_twice(&path);
}

#[test]
fn open_grid_search_needs_no_more_rounds_than_steps_and_one() {
    // Eight steps apart, one round to a call: nine calls at most.
    let mut search = SerialAStarWasm::new(vec![0], 24, 1, 100, open_grid(5, 5));
    let (result, calls) = run(&mut search, 100);
    assert_eq!(result, PathFindResultType::Completed);
    assert!(calls <= 9, "{} calls", calls);
    // From the middle of a border to the far corner of a larger grid.
    let mut search = SerialAStarWasm::new(vec![15], 899, 4, 100, open_grid(30, 30));
    let (result, calls) = run(&mut search, 100);
    assert_eq!(result, PathFindResultType::Completed);
    // 14 columns and 29 rows apart: 44 rounds, 11 calls at most.
    assert!(calls <= 11, "{} calls", calls);
    let path = search.reconstruct_path();
    assert_eq!(path[0], 15);
    assert_eq!(*path.last().unwrap(), 899);
    assert_steps_are_adjacent(30, &path);
}
