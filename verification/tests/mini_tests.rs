use tile_pathfinder::MiniAStarWasm;
use tile_pathfinder::PathFindResultType;
use tile_pathfinder::Point;
use tile_pathfinder::WasmGameMap;

fn open_grid(width: usize, height: usize) -> WasmGameMap {
    let tiles: Vec<u32> = (0..(width * height) as u32).collect();
    WasmGameMap::new(width, height, Vec::new(), tiles)
}

fn finder(sources: Vec<u32>, dst: u32) -> MiniAStarWasm {
    MiniAStarWasm::new(open_grid(10, 10), open_grid(5, 5), sources, dst, 10_000, 10)
}

fn run(search: &mut MiniAStarWasm) -> PathFindResultType {
    for _ in 0..100 {
        let result = search.compute();
        if result != PathFindResultType::Pending {
            return result;
        }
    }
    PathFindResultType::Pending
}

fn points(list: &[(i32, i32)]) -> Vec<Point> {
    list.iter().map(|&(x, y)| Point { x, y }).collect()
}

#[test]
fn upscale_of_nothing_is_nothing() {
    let search = finder(vec![0], 99);
    assert_eq!(search.upscale_path(Vec::new()), Vec::<Point>::new());
}

#[test]
fn upscale_of_one_point_doubles_it() {
    let search = finder(vec![0], 99);
    assert_eq!(search.upscale_path(points(&[(3, 4)])), points(&[(6, 8)]));
}

#[test]
fn upscale_fills_in_between_neighbouring_points() {
    let search = finder(vec![0], 99);
    assert_eq!(
        search.upscale_path(points(&[(0, 0), (1, 0), (1, 1)])),
        points(&[(0, 0), (1, 0), (2, 0), (2, 1), (2, 2)])
    );
}

#[test]
fn upscale_follows_a_slanted_line() {
    let search = finder(vec![0], 99);
    assert_eq!(
        search.upscale_path(points(&[(0, 0), (2, 1)])),
        points(&[(0, 0), (1, 0), (2, 1), (3, 1), (4, 2)])
    );
}

#[test]
fn upscale_rounds_towards_the_point_it_comes_from() {
    let search = finder(vec![0], 99);
    assert_eq!(
        search.upscale_path(points(&[(2, 1), (0, 0)])),
        points(&[(4, 2), (3, 2), (2, 1), (1, 1), (0, 0)])
    );
}

#[test]
fn upscale_keeps_a_repeated_point() {
    let search = finder(vec![0], 99);
    assert_eq!(
        search.upscale_path(points(&[(1, 1), (1, 1), (2, 1)])),
        points(&[(2, 2), (2, 2), (3, 2), (4, 2)])
    );
}

#[test]
fn upscale_of_negative_points() {
    let search = finder(vec![0], 99);
    assert_eq!(
        search.upscale_path(points(&[(-1, 0), (0, -1)])),
        points(&[(-2, 0), (-1, -1), (0, -2)])
    );
}

#[test]
fn hierarchical_path_ends_on_the_exact_destination() {
    for dst in [99u32, 98, 89, 88, 55, 47, 9, 90] {
        let mut search = finder(vec![0], dst);
        assert_eq!(run(&mut search), PathFindResultType::Completed);
        let path = search.reconstruct_path();
        assert_eq!(*path.last().unwrap(), dst);
    }
}

#[test]
fn hierarchical_path_has_no_gaps() {
    let mut search = finder(vec![0], 99);
    assert_eq!(run(&mut search), PathFindResultType::Completed);
    let path = search.reconstruct_path();
    assert_eq!(path[0], 0);
    assert_eq!(*path.last().unwrap(), 99);
    for pair in path.windows(2) {
        let dx = ((pair[0] % 10) as i32 - (pair[1] % 10) as i32).abs();
        let dy = ((pair[0] / 10) as i32 - (pair[1] / 10) as i32).abs();
        assert!(dx.max(dy) <= 1, "{} -> {}", pair[0], pair[1]);
    }
    // The coarse path has 9 tiles; scaled and smoothed that makes 17, and
    // the destination follows.
    assert_eq!(path.len(), 18);
}

#[test]
fn hierarchical_path_of_a_short_way() {
    // Source and destination share a coarse tile.
    let mut search = finder(vec![0], 11);
    assert_eq!(run(&mut search), PathFindResultType::Completed);
    assert_eq!(search.reconstruct_path(), vec![0, 11]);
}

#[test]
fn hierarchical_path_before_completion_is_empty() {
    let mut search = MiniAStarWasm::new(open_grid(10, 10), open_grid(5, 5), vec![0], 99, 1, 10);
    assert_eq!(search.reconstruct_path(), Vec::<u32>::new());
    assert_eq!(search.compute(), PathFindResultType::Pending);
    assert_eq!(search.reconstruct_path(), Vec::<u32>::new());
}

#[test]
fn hierarchical_search_reports_as_the_coarse_search_does() {
    let mut search =
        MiniAStarWasm::new(open_grid(10, 10), open_grid(5, 5), vec![0], 99, 1, 2);
    assert_eq!(search.compute(), PathFindResultType::Pending);
    assert_eq!(search.compute(), PathFindResultType::PathNotFound);
}

#[test]
fn hierarchical_search_on_an_odd_sized_grid() {
    // 7x5 full grid, 4x3 coarse grid.
    let mut search =
        MiniAStarWasm::new(open_grid(7, 5), open_grid(4, 3), vec![0], 34, 10_000, 10);
    assert_eq!(run(&mut search), PathFindResultType::Completed);
    let path = search.reconstruct_path();
    assert_eq!(*path.last().unwrap(), 34);
    for tile in &path {
        assert!(*tile < 35);
    }
}

#[test]
fn hierarchical_search_fails_where_the_coarse_grid_is_blocked() {
    let coarse = WasmGameMap::new(5, 5, Vec::new(), vec![0, 1, 2, 3, 4]);
    let mut search = MiniAStarWasm::new(open_grid(10, 10), coarse, vec![0], 99, 1_000, 20);
    assert_eq!(run(&mut search), PathFindResultType::PathNotFound);
    assert_eq!(search.reconstruct_path(), Vec::<u32>::new());
}
