use std::collections::VecDeque;

use mavis::a_star::AStar;
use mavis::algorithm::{Algorithm, AlgorithmResult, AlgorithmType, AnyAlgorithm, Coord};
use mavis::grid::{Node, NodeType};

fn empty_grid(width: usize, height: usize) -> Vec<Vec<Node>> {
    vec![vec![Node { node_type: NodeType::Empty }; width]; height]
}

fn with_walls(width: usize, height: usize, walls: &[Coord]) -> Vec<Vec<Node>> {
    let mut grid = empty_grid(width, height);
    for &(x, y) in walls {
        grid[y as usize][x as usize] = Node { node_type: NodeType::Wall };
    }
    grid
}

/// Steps the search until it finishes; `None` when it reports `Impossible`.
fn run(grid: &mut Vec<Vec<Node>>, start: Coord, end: Coord) -> Option<Vec<Coord>> {
    let mut a = AStar::new();
    a.init(start, end);
    for _ in 0..100_000 {
        match a.step(grid) {
            AlgorithmResult::ModifiedGrid => {}
            AlgorithmResult::Done(path) => return Some(path.expect("a search that finishes carries a path")),
            AlgorithmResult::Impossible => return None,
        }
    }
    panic!("the search did not finish");
}

fn bfs(grid: &Vec<Vec<Node>>, start: Coord, end: Coord) -> Option<usize> {
    let height = grid.len() as i32;
    let width = grid[0].len() as i32;
    let mut dist = vec![vec![usize::MAX; width as usize]; height as usize];
    let mut queue = VecDeque::new();
    dist[start.1 as usize][start.0 as usize] = 0;
    queue.push_back(start);
    while let Some((x, y)) = queue.pop_front() {
        if (x, y) == end {
            return Some(dist[y as usize][x as usize]);
        }
        for (dx, dy) in [(0, -1), (0, 1), (-1, 0), (1, 0)] {
            let (nx, ny) = (x + dx, y + dy);
            if nx < 0 || ny < 0 || nx >= width || ny >= height {
                continue;
            }
            if grid[ny as usize][nx as usize].node_type == NodeType::Wall {
                continue;
            }
            if dist[ny as usize][nx as usize] == usize::MAX {
                dist[ny as usize][nx as usize] = dist[y as usize][x as usize] + 1;
                queue.push_back((nx, ny));
            }
        }
    }
    None
}

fn assert_walk(path: &[Coord], start: Coord, end: Coord) {
    assert_eq!(path[0], start);
    assert_eq!(*path.last().unwrap(), end);
    for w in path.windows(2) {
        let d = (w[0].0 - w[1].0).abs() + (w[0].1 - w[1].1).abs();
        assert_eq!(d, 1, "{:?} and {:?} are not one step apart", w[0], w[1]);
    }
}

#[test]
fn empty_five_by_five_path_has_nine_cells() {
    let mut grid = empty_grid(5, 5);
    let path = run(&mut grid, (0, 0), (4, 4)).expect("a path exists");
    assert_eq!(path.len(), 9);
    assert_walk(&path, (0, 0), (4, 4));
    let mut x_steps = 0;
    let mut y_steps = 0;
    for w in path.windows(2) {
        assert!(w[1].0 >= w[0].0 && w[1].1 >= w[0].1, "the path is a monotone staircase");
        x_steps += w[1].0 - w[0].0;
        y_steps += w[1].1 - w[0].1;
    }
    assert_eq!((x_steps, y_steps), (4, 4));
}

#[test]
fn path_length_matches_breadth_first_search() {
    let walls = [(1, 0), (1, 1), (1, 2), (3, 1), (3, 2), (3, 3), (3, 4), (0, 4), (2, 4)];
    let pairs = [((0, 0), (4, 4)), ((0, 0), (4, 0)), ((2, 0), (0, 3)), ((4, 4), (0, 0)), ((0, 3), (4, 2))];
    for (start, end) in pairs {
        let mut grid = with_walls(5, 5, &walls);
        let expected = bfs(&grid, start, end).expect("fixture pairs are connected");
        let path = run(&mut grid, start, end).expect("a path exists");
        assert_walk(&path, start, end);
        assert_eq!(path.len() - 1, expected, "from {:?} to {:?}", start, end);
        for &(x, y) in &path {
            assert!(!walls.contains(&(x, y)), "the path crosses the wall at {:?}", (x, y));
        }
    }
}

#[test]
fn detour_around_a_wall_is_shortest() {
    let walls = [(2, 0), (2, 1), (2, 2), (2, 3)];
    let mut grid = with_walls(5, 5, &walls);
    let path = run(&mut grid, (0, 0), (4, 0)).expect("a path exists");
    assert_walk(&path, (0, 0), (4, 0));
    assert_eq!(path.len() - 1, 12);
}

#[test]
fn full_wall_makes_search_impossible() {
    let walls = [(2, 0), (2, 1), (2, 2), (2, 3), (2, 4)];
    let mut grid = with_walls(5, 5, &walls);
    assert_eq!(run(&mut grid, (0, 0), (4, 4)), None);
    let mut grid = with_walls(5, 5, &walls);
    assert_eq!(run(&mut grid, (4, 2), (0, 2)), None);
}

#[test]
fn search_without_init_is_impossible() {
    let mut grid = empty_grid(3, 3);
    let mut a = AStar::new();
    assert!(matches!(a.step(&mut grid), AlgorithmResult::Impossible));
    assert!(matches!(a.step(&mut grid), AlgorithmResult::Impossible));
}

#[test]
fn start_equal_to_end_gives_one_cell_path() {
    let mut grid = empty_grid(3, 3);
    assert_eq!(run(&mut grid, (1, 1), (1, 1)), Some(vec![(1, 1)]));
}

#[test]
fn expanded_cells_are_marked_visited() {
    let mut grid = empty_grid(4, 1);
    let mut a = AStar::new();
    a.init((0, 0), (3, 0));
    assert!(matches!(a.step(&mut grid), AlgorithmResult::ModifiedGrid));
    assert_eq!(grid[0][0].node_type, NodeType::Visited);
    assert_eq!(grid[0][1].node_type, NodeType::Empty);
    assert!(matches!(a.step(&mut grid), AlgorithmResult::ModifiedGrid));
    assert_eq!(grid[0][1].node_type, NodeType::Visited);
    assert!(matches!(a.step(&mut grid), AlgorithmResult::ModifiedGrid));
    match a.step(&mut grid) {
        AlgorithmResult::Done(Some(path)) => assert_eq!(path, vec![(0, 0), (1, 0), (2, 0), (3, 0)]),
        _ => panic!("expected the goal to be reached"),
    }
    assert_eq!(grid[0][3].node_type, NodeType::Empty);
}

#[test]
fn goal_outside_grid_is_impossible() {
    let mut grid = empty_grid(3, 3);
    assert_eq!(run(&mut grid, (0, 0), (7, 7)), None);
}

#[test]
fn init_resets_an_earlier_search() {
    let mut grid = empty_grid(3, 3);
    let mut a = AStar::new();
    a.init((0, 0), (2, 2));
    assert!(matches!(a.step(&mut grid), AlgorithmResult::ModifiedGrid));
    a.init((2, 0), (2, 0));
    match a.step(&mut grid) {
        AlgorithmResult::Done(Some(path)) => assert_eq!(path, vec![(2, 0)]),
        _ => panic!("expected an immediate finish"),
    }
    assert_eq!(a.end_coordinates(), (2, 0));
}

#[test]
fn any_algorithm_reports_pathfinding() {
    let mut grid = empty_grid(2, 2);
    let mut any = AnyAlgorithm::AStar(AStar::new());
    assert_eq!(any.algorithm_type(), AlgorithmType::Pathfinding);
    any.init((0, 0), (1, 1));
    let mut steps = 0;
    loop {
        steps += 1;
        match any.step(&mut grid) {
            AlgorithmResult::ModifiedGrid => {}
            AlgorithmResult::Done(Some(path)) => {
                assert_eq!(path.len(), 3);
                break;
            }
            _ => panic!("expected a path"),
        }
    }
    assert!(steps >= 3);
}
