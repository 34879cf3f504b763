use r_path_finder::algorithm::bfs::Bfs;
use r_path_finder::algorithm::dijkstra::Dijkstra;
use r_path_finder::algorithm::{Pathfinder, SimulationCoordinator, ONE_ITERATION_TIME_MICROS};
use r_path_finder::map::grid::Grid;
use r_path_finder::map::TitleCoords;

#[test]
fn simulation_coordinator() {
    let mut sim = SimulationCoordinator::default();

    // Ready for execution test case
    let delta_time = ONE_ITERATION_TIME_MICROS;

    sim.stop_processing();
    assert!(!sim.is_ready_to_execute(delta_time));

    sim.start_processing();
    assert!(sim.is_ready_to_execute(delta_time));

    // Goal Reached test case
    let start = TitleCoords { x: 0, y: 0 };
    let mut goal = TitleCoords { x: 0, y: 1 };
    assert!(!sim.process_goal_reached(start, goal));

    goal = start;
    assert!(sim.process_goal_reached(start, goal));

    // Increase step case
    sim.increase_step_count();
    sim.increase_step_count();
    sim.increase_step_count();

    assert_eq!(sim.steps, 3);
}

#[test]
fn path_finding() {
    let mut path_finder = Pathfinder::default();

    // [start] -> [1] -> [2] -> [3] -> [goal]
    let path_start = TitleCoords { x: 0, y: 0 };
    let path_1 = TitleCoords { x: 1, y: 0 };
    let path_2 = TitleCoords { x: 2, y: 0 };
    let path_3 = TitleCoords { x: 3, y: 0 };
    let path_goal = TitleCoords { x: 3, y: 1 };

    let exp_solution_path = vec![path_goal, path_3, path_2, path_1, path_start];

    path_finder.add_to_path(path_start, None);
    path_finder.add_to_path(path_1, Some(path_start));
    path_finder.add_to_path(path_2, Some(path_1));
    path_finder.add_to_path(path_3, Some(path_2));
    path_finder.add_to_path(path_goal, Some(path_3));

    path_finder.reconstruct_path(path_start, path_goal);

    assert_eq!(exp_solution_path, *path_finder.get_path());
}

#[test]
fn bfs_start() {
    let mut bfs = Bfs::default();
    let mut grid = Grid::new(0, 0, 10, 10, 1);

    assert!(bfs.start(&mut grid).is_err());

    let start = TitleCoords { x: 0, y: 0 };

    grid.start_title = Some(start);
    grid.goal_title = Some(TitleCoords { x: 1, y: 1 });

    assert!(bfs.start(&mut grid).is_ok());

    assert_eq!(bfs.title_processing_queue[0], start);
    assert_eq!(bfs.visited_titles[0], start);
    assert_eq!(bfs.path_finder.path.get(start).unwrap(), None);
}

#[test]
fn bfs_update_one_step() {
    let mut bfs = Bfs::default();
    let mut grid = Grid::new(0, 0, 10, 10, 1);

    let start = TitleCoords { x: 3, y: 3 };
    grid.start_title = Some(start);
    grid.goal_title = Some(TitleCoords { x: 10, y: 10 });

    let _ = bfs.start(&mut grid);

    // After update
    //    [ ]
    // [ ][s][ ]
    //    [ ]

    bfs.execute_step(&mut grid, ONE_ITERATION_TIME_MICROS);

    let exp_neighbors = [
        TitleCoords { x: 3, y: 2 },
        TitleCoords { x: 3, y: 4 },
        TitleCoords { x: 2, y: 3 },
        TitleCoords { x: 4, y: 3 },
    ];

    let expected_visited_tiles = [
        start,
        exp_neighbors[0],
        exp_neighbors[1],
        exp_neighbors[2],
        exp_neighbors[3],
    ];

    assert_eq!(bfs.visited_titles.len(), 5);
    for (id, item) in expected_visited_tiles.iter().enumerate() {
        assert_eq!(*item, bfs.visited_titles[id]);
    }

    assert_eq!(bfs.title_processing_queue.len(), 4);

    for (id, item) in exp_neighbors.iter().enumerate() {
        assert_eq!(*item, bfs.title_processing_queue[id]);
    }

    assert!(!bfs.has_completed());
}

#[test]
fn bfs_reset() {
    let mut bfs = Bfs::default();
    let mut grid = Grid::new(0, 0, 10, 10, 1);
    grid.start_title = Some(TitleCoords { x: 0, y: 0 });
    grid.goal_title = Some(TitleCoords { x: 1, y: 1 });

    let _ = bfs.start(&mut grid);
    bfs.execute_step(&mut grid, ONE_ITERATION_TIME_MICROS);
    bfs.reset(&mut grid);

    assert!(bfs.title_processing_queue.is_empty());
    assert!(bfs.visited_titles.is_empty());
}

#[test]
fn dijkstra_start() {
    let mut dijkstra = Dijkstra::default();
    let mut grid = Grid::new(0, 0, 10, 10, 1);

    assert!(dijkstra.start(&mut grid).is_err());

    let start = TitleCoords { x: 0, y: 0 };

    grid.start_title = Some(start);
    grid.goal_title = Some(TitleCoords { x: 1, y: 1 });

    assert!(dijkstra.start(&mut grid).is_ok());
    assert_eq!(dijkstra.cost_so_far.get(start).unwrap(), 0);
    assert_eq!(dijkstra.pop_min().unwrap(), (start, 0));
    assert_eq!(dijkstra.path_finder.path.get(start).unwrap(), None);
}

#[test]
fn dijkstra_one_step_of_execution() {
    let mut dijkstra = Dijkstra::default();
    let mut grid = Grid::new(0, 0, 10, 10, 1);

    grid.start_title = Some(TitleCoords { x: 5, y: 5 });
    grid.goal_title = Some(TitleCoords { x: 8, y: 8 });

    let _ = dijkstra.start(&mut grid);
    dijkstra.execute_step(&mut grid, ONE_ITERATION_TIME_MICROS);

    assert_eq!(dijkstra.cost_so_far.len(), 5);

    let cost = dijkstra.cost_so_far.entries.last().unwrap();
    assert_eq!(cost.1, 1);

    let priority = dijkstra.pop_min().unwrap().1;
    assert_eq!(priority, 1);
}

#[test]
fn dijkstra_pops_in_priority_order() {
    let mut dijkstra = Dijkstra::default();
    let mut grid = Grid::new(0, 0, 10, 10, 1);

    grid.start_title = Some(TitleCoords { x: 5, y: 5 });
    grid.goal_title = Some(TitleCoords { x: 9, y: 9 });

    let _ = dijkstra.start(&mut grid);
    // expand the start and one cost-1 cell, leaving costs 1 and 2 queued
    dijkstra.execute_step(&mut grid, ONE_ITERATION_TIME_MICROS);
    dijkstra.execute_step(&mut grid, ONE_ITERATION_TIME_MICROS);

    let mut popped: Vec<i64> = Vec::new();
    while let Some((_, priority)) = dijkstra.pop_min() {
        popped.push(priority);
    }
    assert!(popped.len() >= 2);
    for pair in popped.windows(2) {
        assert!(pair[0] <= pair[1]);
    }
    assert_eq!(popped[0], 1);
    assert_eq!(*popped.last().unwrap(), 2);
}

#[test]
fn pacing_accumulates_time() {
    let mut bfs = Bfs::default();
    let mut grid = Grid::new(0, 0, 10, 10, 1);
    grid.start_title = Some(TitleCoords { x: 3, y: 3 });
    grid.goal_title = Some(TitleCoords { x: 9, y: 9 });
    let _ = bfs.start(&mut grid);

    // under the interval nothing happens, however often it is called
    bfs.execute_step(&mut grid, ONE_ITERATION_TIME_MICROS / 2 - 1);
    bfs.execute_step(&mut grid, 1);
    assert_eq!(bfs.visited_titles.len(), 1);
    assert_eq!(bfs.sim_coordinator.steps, 0);

    // the missing half pushes the accumulator over the interval
    bfs.execute_step(&mut grid, ONE_ITERATION_TIME_MICROS / 2);
    assert_eq!(bfs.sim_coordinator.steps, 1);
    assert_eq!(bfs.visited_titles.len(), 5);
}
