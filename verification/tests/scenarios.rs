use r_path_finder::algorithm::a_star::AStar;
use r_path_finder::algorithm::bfs::Bfs;
use r_path_finder::algorithm::dijkstra::Dijkstra;
use r_path_finder::algorithm::greedy_bfs::GreedyBfs;
use r_path_finder::algorithm::{Algorithm, Measurable, ONE_ITERATION_TIME_MICROS};
use r_path_finder::map::grid::Grid;
use r_path_finder::map::{Title, TitleCoords};

fn run_to_completion(algorithm: &mut Algorithm, grid: &mut Grid) {
    let mut safety: u32 = 0;
    while !algorithm.has_completed() && safety < 10_000 {
        algorithm.execute_step(grid, ONE_ITERATION_TIME_MICROS);
        safety += 1;
    }
    assert!(algorithm.has_completed());
}

#[test]
fn bfs_one_step_toward_unreachable_goal() {
    // 10x10 grid with cell size 1; the goal (10, 10) lies out of range, so
    // it can never be reached; one step expands only the start cell
    let mut bfs = Bfs::default();
    let mut grid = Grid::new(0, 0, 10, 10, 1);
    grid.start_title = Some(TitleCoords { x: 3, y: 3 });
    grid.goal_title = Some(TitleCoords { x: 10, y: 10 });

    assert!(bfs.start(&mut grid).is_ok());
    bfs.execute_step(&mut grid, ONE_ITERATION_TIME_MICROS);

    let frontier: Vec<TitleCoords> = bfs.title_processing_queue.iter().copied().collect();
    assert_eq!(
        frontier,
        vec![
            TitleCoords { x: 3, y: 2 },
            TitleCoords { x: 3, y: 4 },
            TitleCoords { x: 2, y: 3 },
            TitleCoords { x: 4, y: 3 },
        ]
    );
    assert_eq!(bfs.sim_coordinator.steps, 1);
}

#[test]
fn astar_on_open_grid_beats_manhattan_floor() {
    // 5x5 grid, Start (0,0), Goal (4,4), no obstacles: A* terminates with a
    // 9-cell path (8 edges plus the start), visiting no more than BFS does
    let mut grid_a = Grid::new(0, 0, 5, 5, 1);
    grid_a.start_title = Some(TitleCoords { x: 0, y: 0 });
    grid_a.goal_title = Some(TitleCoords { x: 4, y: 4 });
    let mut astar = Algorithm::AStar(AStar::default());
    assert!(astar.start(&mut grid_a).is_ok());
    run_to_completion(&mut astar, &mut grid_a);

    let mut grid_b = Grid::new(0, 0, 5, 5, 1);
    grid_b.start_title = Some(TitleCoords { x: 0, y: 0 });
    grid_b.goal_title = Some(TitleCoords { x: 4, y: 4 });
    let mut bfs = Algorithm::Bfs(Bfs::default());
    assert!(bfs.start(&mut grid_b).is_ok());
    run_to_completion(&mut bfs, &mut grid_b);

    let (astar_path_len, astar_visited) = match &astar {
        Algorithm::AStar(a) => (a.path_finder.get_path().len(), a.cost_so_far.entries.len()),
        _ => unreachable!(),
    };
    let (bfs_path_len, bfs_visited) = match &bfs {
        Algorithm::Bfs(b) => (b.path_finder.get_path().len(), b.visited_titles.len()),
        _ => unreachable!(),
    };
    assert_eq!(astar_path_len, 9);
    assert_eq!(bfs_path_len, 9);
    assert!(astar_visited <= bfs_visited);
}

#[test]
fn enclosed_goal_completes_without_path() {
    // the goal is walled in: every variant terminates, flags completion,
    // and reconstructs nothing
    let algorithms: Vec<Algorithm> = vec![
        Algorithm::Bfs(Bfs::default()),
        Algorithm::Dijkstra(Dijkstra::default()),
        Algorithm::GreedyBfs(GreedyBfs::default()),
        Algorithm::AStar(AStar::default()),
    ];
    for mut algorithm in algorithms {
        let mut grid = Grid::new(0, 0, 7, 7, 1);
        grid.set_designation(TitleCoords { x: 3, y: 2 }, Title::Obstacle);
        grid.set_designation(TitleCoords { x: 3, y: 4 }, Title::Obstacle);
        grid.set_designation(TitleCoords { x: 2, y: 3 }, Title::Obstacle);
        grid.set_designation(TitleCoords { x: 4, y: 3 }, Title::Obstacle);
        grid.set_designation(TitleCoords { x: 0, y: 0 }, Title::Start);
        grid.set_designation(TitleCoords { x: 3, y: 3 }, Title::End);

        assert!(algorithm.start(&mut grid).is_ok());
        run_to_completion(&mut algorithm, &mut grid);

        let path_len = match &algorithm {
            Algorithm::Bfs(a) => a.path_finder.get_path().len(),
            Algorithm::Dijkstra(a) => a.path_finder.get_path().len(),
            Algorithm::GreedyBfs(a) => a.path_finder.get_path().len(),
            Algorithm::AStar(a) => a.path_finder.get_path().len(),
        };
        assert_eq!(path_len, 0);
        assert_eq!(algorithm.output_statistics(), "Goal is unreachable !");
    }
}

#[test]
fn bfs_path_length_is_manhattan_plus_one() {
    // with no obstacles, BFS's path holds exactly Manhattan-distance + 1
    // cells; here |4-1| + |3-1| = 5, so 6 cells
    let mut grid = Grid::new(0, 0, 6, 6, 1);
    grid.start_title = Some(TitleCoords { x: 1, y: 1 });
    grid.goal_title = Some(TitleCoords { x: 4, y: 3 });
    let mut bfs = Algorithm::Bfs(Bfs::default());
    assert!(bfs.start(&mut grid).is_ok());
    run_to_completion(&mut bfs, &mut grid);
    match &bfs {
        Algorithm::Bfs(b) => {
            assert_eq!(b.path_finder.get_path().len(), 6);
            // the reconstructed path runs goal -> ... -> start
            assert_eq!(*b.path_finder.get_path().first().unwrap(), TitleCoords { x: 4, y: 3 });
            assert_eq!(*b.path_finder.get_path().last().unwrap(), TitleCoords { x: 1, y: 1 });
        }
        _ => unreachable!(),
    }
}

#[test]
fn cost_aware_variants_agree_on_minimal_cost() {
    // a wall forces a detour; Dijkstra and A* find the same minimal path
    // cost, and greedy best-first never beats it
    let mut lens: Vec<usize> = Vec::new();
    let variants: Vec<Algorithm> = vec![
        Algorithm::Dijkstra(Dijkstra::default()),
        Algorithm::AStar(AStar::default()),
        Algorithm::GreedyBfs(GreedyBfs::default()),
    ];
    for mut algorithm in variants {
        let mut grid = Grid::new(0, 0, 6, 6, 1);
        // a vertical wall through x = 3 with a gap at the bottom
        grid.set_designation(TitleCoords { x: 3, y: 0 }, Title::Obstacle);
        grid.set_designation(TitleCoords { x: 3, y: 1 }, Title::Obstacle);
        grid.set_designation(TitleCoords { x: 3, y: 2 }, Title::Obstacle);
        grid.set_designation(TitleCoords { x: 3, y: 3 }, Title::Obstacle);
        grid.set_designation(TitleCoords { x: 3, y: 4 }, Title::Obstacle);
        grid.set_designation(TitleCoords { x: 1, y: 1 }, Title::Start);
        grid.set_designation(TitleCoords { x: 5, y: 1 }, Title::End);

        assert!(algorithm.start(&mut grid).is_ok());
        run_to_completion(&mut algorithm, &mut grid);
        let path_len = match &algorithm {
            Algorithm::Bfs(a) => a.path_finder.get_path().len(),
            Algorithm::Dijkstra(a) => a.path_finder.get_path().len(),
            Algorithm::GreedyBfs(a) => a.path_finder.get_path().len(),
            Algorithm::AStar(a) => a.path_finder.get_path().len(),
        };
        lens.push(path_len);
    }
    // the detour is 12 edges long: 13 cells
    assert_eq!(lens[0], 13);
    assert_eq!(lens[1], lens[0]);
    assert!(lens[2] >= lens[0]);
}

#[test]
fn reset_then_start_is_rejected_like_fresh() {
    let variants: Vec<Algorithm> = vec![
        Algorithm::Bfs(Bfs::default()),
        Algorithm::Dijkstra(Dijkstra::default()),
        Algorithm::GreedyBfs(GreedyBfs::default()),
        Algorithm::AStar(AStar::default()),
    ];
    for mut algorithm in variants {
        let mut grid = Grid::new(0, 0, 5, 5, 1);
        grid.set_designation(TitleCoords { x: 0, y: 0 }, Title::Start);
        grid.set_designation(TitleCoords { x: 4, y: 4 }, Title::End);
        assert!(algorithm.start(&mut grid).is_ok());
        algorithm.execute_step(&mut grid, ONE_ITERATION_TIME_MICROS);
        algorithm.reset(&mut grid);

        // the reset cleared the designations, so a restart is rejected,
        // exactly like starting a freshly built algorithm on this grid
        let restarted = algorithm.start(&mut grid);
        assert!(restarted.is_err());
        let mut fresh = Algorithm::Bfs(Bfs::default());
        assert!(fresh.start(&mut grid).is_err());
    }
}

#[test]
fn identical_runs_visit_identically() {
    // two runs over identical grids with the same elapsed-time sequence
    // visit the same cells in the same order and find the same path
    let make = || -> Vec<Algorithm> {
        vec![
            Algorithm::Bfs(Bfs::default()),
            Algorithm::Dijkstra(Dijkstra::default()),
            Algorithm::GreedyBfs(GreedyBfs::default()),
            Algorithm::AStar(AStar::default()),
        ]
    };
    for (mut first, mut second) in make().into_iter().zip(make().into_iter()) {
        let mut grid_a = Grid::new(0, 0, 6, 6, 1);
        let mut grid_b = Grid::new(0, 0, 6, 6, 1);
        for grid in [&mut grid_a, &mut grid_b] {
            grid.set_designation(TitleCoords { x: 2, y: 2 }, Title::Obstacle);
            grid.set_designation(TitleCoords { x: 2, y: 3 }, Title::Obstacle);
            grid.set_designation(TitleCoords { x: 0, y: 0 }, Title::Start);
            grid.set_designation(TitleCoords { x: 5, y: 5 }, Title::End);
        }
        assert!(first.start(&mut grid_a).is_ok());
        assert!(second.start(&mut grid_b).is_ok());
        run_to_completion(&mut first, &mut grid_a);
        run_to_completion(&mut second, &mut grid_b);
        let observe = |a: &Algorithm| -> (Vec<TitleCoords>, u32) {
            match a {
                Algorithm::Bfs(x) => (x.path_finder.get_path().clone(), x.sim_coordinator.steps),
                Algorithm::Dijkstra(x) => {
                    (x.path_finder.get_path().clone(), x.sim_coordinator.steps)
                }
                Algorithm::GreedyBfs(x) => {
                    (x.path_finder.get_path().clone(), x.sim_coordinator.steps)
                }
                Algorithm::AStar(x) => (x.path_finder.get_path().clone(), x.sim_coordinator.steps),
            }
        };
        assert_eq!(observe(&first), observe(&second));
        assert_eq!(first.output_statistics(), second.output_statistics());
    }
}

#[test]
fn menu_names_match_variants() {
    let bfs = Algorithm::Bfs(Bfs::default());
    let dijkstra = Algorithm::Dijkstra(Dijkstra::default());
    let greedy = Algorithm::GreedyBfs(GreedyBfs::default());
    let astar = Algorithm::AStar(AStar::default());
    assert_eq!(bfs.name(), "Breadth First Search");
    assert_eq!(dijkstra.name(), "Dijkstra");
    assert_eq!(greedy.name(), "Greedy Best First Search");
    assert_eq!(astar.name(), "A*");
}
