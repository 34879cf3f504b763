use r_path_finder::algorithm::bfs::Bfs;
use r_path_finder::algorithm::{get_statistics, Measurable, ONE_ITERATION_TIME_MICROS};
use r_path_finder::map::grid::Grid;
use r_path_finder::map::TitleCoords;

#[test]
fn statistics_text_is_exact() {
    let expected = format!(
        " {}\n\n Statistics:\n - Path length: {}\n - Steps taken: {}\n - Visited nodes: {}\n - Time per iteration: {:.2} sec\n - Total time: {:.2} sec",
        "A*",
        9,
        12,
        20,
        0.01,
        12 as f64 * 0.01
    );
    assert_eq!(get_statistics("A*", 9, 12, 20), expected);
}

#[test]
fn statistics_text_carries_fractional_seconds() {
    let expected = format!(
        " {}\n\n Statistics:\n - Path length: {}\n - Steps taken: {}\n - Visited nodes: {}\n - Time per iteration: {:.2} sec\n - Total time: {:.2} sec",
        "Dijkstra",
        21,
        305,
        148,
        0.01,
        305 as f64 * 0.01
    );
    assert_eq!(get_statistics("Dijkstra", 21, 305, 148), expected);
}

#[test]
fn statistics_text_for_unreachable_goal() {
    assert_eq!(get_statistics("Breadth First Search", 0, 7, 3), "Goal is unreachable !");
}

#[test]
fn finished_search_reports_its_numbers() {
    let mut grid = Grid::new(0, 0, 3, 3, 1);
    grid.start_title = Some(TitleCoords { x: 0, y: 0 });
    grid.goal_title = Some(TitleCoords { x: 2, y: 0 });
    let mut bfs = Bfs::default();
    assert!(bfs.start(&mut grid).is_ok());
    let mut safety: u32 = 0;
    while !bfs.has_completed() && safety < 1000 {
        bfs.execute_step(&mut grid, ONE_ITERATION_TIME_MICROS);
        safety += 1;
    }
    let text = bfs.output_statistics();
    assert!(text.starts_with(" Breadth First Search\n"));
    assert!(text.contains("- Path length: 3\n"));
    assert!(text.contains("- Time per iteration: 0.01 sec"));
}
