use r_path_finder::map::grid::Grid;
use r_path_finder::map::{Title, TitleCoords};

#[test]
fn verify_grid_behavior() {
    let mut grid = Grid::new(0, 0, 50, 50, 10);
    let number_of_titles: usize = grid.titles.iter().map(|row| row.len()).sum();

    assert_eq!(25 as usize, number_of_titles);

    // the clicks at (15.0, 15.3), (21.4, 36.3) and (41.4, 20.3) with title
    // size 10 land on these cells
    grid.set_designation(TitleCoords { x: 1, y: 1 }, Title::Start);
    grid.set_designation(TitleCoords { x: 2, y: 3 }, Title::End);
    grid.set_designation(TitleCoords { x: 4, y: 2 }, Title::Obstacle);

    let start_title_coord = TitleCoords { x: 1, y: 1 };
    let end_title_coord = TitleCoords { x: 2, y: 3 };
    let obstacle_title_coord = TitleCoords { x: 4, y: 2 };
    let normal_title_coord = TitleCoords { x: 3, y: 3 };
    let out_of_bounds_title_coord = TitleCoords { x: 10, y: 10 };

    assert_eq!(
        Title::Start,
        grid.titles[start_title_coord.x][start_title_coord.y]
    );
    assert_eq!(grid.start_title, Some(start_title_coord));
    assert_eq!(
        Title::End,
        grid.titles[end_title_coord.x][end_title_coord.y]
    );
    assert_eq!(grid.goal_title, Some(end_title_coord));
    assert!(grid.is_obstacle(obstacle_title_coord));

    grid.mark_visited(normal_title_coord);
    assert!(grid.is_within_bounds(normal_title_coord));
    assert_eq!(
        Title::Normal { was_visited: true },
        grid.titles[normal_title_coord.x][normal_title_coord.y]
    );

    assert!(!grid.is_within_bounds(out_of_bounds_title_coord));

    grid.set_trace_back_path(normal_title_coord);
    assert_eq!(
        Title::Path,
        grid.titles[normal_title_coord.x][normal_title_coord.y]
    );
}

#[test]
fn grid_reset() {
    let mut grid = Grid::new(0, 0, 5, 5, 1);

    grid.start_title = Some(TitleCoords { x: 1, y: 1 });
    grid.goal_title = Some(TitleCoords { x: 2, y: 3 });
    grid.mark_visited(TitleCoords { x: 3, y: 3 });
    grid.mark_visited(TitleCoords { x: 4, y: 1 });
    grid.mark_visited(TitleCoords { x: 4, y: 2 });

    grid.reset();

    assert!(grid.start_title.is_none());
    assert!(grid.goal_title.is_none());
    for row in grid.titles.iter() {
        for title in row.iter() {
            assert_eq!(*title, Title::Normal { was_visited: false });
        }
    }
}

#[test]
fn calculate_neighbors() {
    let mut grid = Grid::new(0, 0, 10, 10, 1);

    grid.start_title = Some(TitleCoords { x: 5, y: 5 });
    grid.goal_title = Some(TitleCoords { x: 9, y: 9 });

    let start = grid.start_title.unwrap();

    let neighbors = grid.get_neighbors(start);

    let exp_neighbors = [
        TitleCoords { x: 5, y: 4 },
        TitleCoords { x: 5, y: 6 },
        TitleCoords { x: 4, y: 5 },
        TitleCoords { x: 6, y: 5 },
    ];

    assert_eq!(4, neighbors.len());
    for (id, actual) in neighbors.iter().enumerate() {
        assert_eq!(exp_neighbors[id], *actual);
    }
}

#[test]
fn corner_neighbors_stay_in_bounds() {
    // a Start cell at the grid corner never yields out-of-range neighbors
    let mut grid = Grid::new(0, 0, 4, 4, 1);
    let neighbors = grid.get_neighbors(TitleCoords { x: 0, y: 0 });
    assert_eq!(neighbors.len(), 2);
    for n in neighbors.iter() {
        assert!(n.x < 4 && n.y < 4);
    }
    assert_eq!(neighbors[0], TitleCoords { x: 0, y: 1 });
    assert_eq!(neighbors[1], TitleCoords { x: 1, y: 0 });
}

#[test]
fn out_of_range_is_obstacle() {
    let grid = Grid::new(0, 0, 4, 4, 1);
    assert!(grid.is_obstacle(TitleCoords { x: 4, y: 0 }));
    assert!(grid.is_obstacle(TitleCoords { x: 0, y: 4 }));
    assert!(grid.is_obstacle(TitleCoords { x: 100, y: 100 }));
    assert!(!grid.is_obstacle(TitleCoords { x: 3, y: 3 }));
}

#[test]
fn neighbors_skip_obstacles() {
    let mut grid = Grid::new(0, 0, 5, 5, 1);
    grid.set_designation(TitleCoords { x: 2, y: 1 }, Title::Obstacle);
    let neighbors = grid.get_neighbors(TitleCoords { x: 2, y: 2 });
    assert_eq!(
        neighbors,
        vec![
            TitleCoords { x: 2, y: 3 },
            TitleCoords { x: 1, y: 2 },
            TitleCoords { x: 3, y: 2 },
        ]
    );
}

#[test]
fn designation_does_not_overwrite() {
    let mut grid = Grid::new(0, 0, 5, 5, 1);
    grid.set_designation(TitleCoords { x: 1, y: 1 }, Title::Start);
    // a second role on the same cell is ignored
    grid.set_designation(TitleCoords { x: 1, y: 1 }, Title::End);
    assert_eq!(grid.titles[1][1], Title::Start);
    assert_eq!(grid.goal_title, None);
    // an out-of-bounds designation is ignored
    grid.set_designation(TitleCoords { x: 9, y: 9 }, Title::End);
    assert_eq!(grid.goal_title, None);
}

#[test]
fn cost_and_heuristic_values() {
    let grid = Grid::new(0, 0, 10, 10, 1);
    let a = TitleCoords { x: 2, y: 3 };
    let b = TitleCoords { x: 5, y: 1 };
    assert_eq!(grid.cost(a, b), 1);
    assert_eq!(grid.heuristic(a, b), 5);
    assert_eq!(grid.heuristic(b, a), 5);
    assert_eq!(grid.heuristic(a, a), 0);
}
