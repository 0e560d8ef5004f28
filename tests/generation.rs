use mavis::algorithm::{Algorithm, AlgorithmResult, AlgorithmType, AnyAlgorithm};
use mavis::grid::{Node, NodeType};
use mavis::noise_map::NoiseMap;

fn blank(width: usize, height: usize) -> Vec<Vec<Node>> {
    vec![vec![Node { node_type: NodeType::Visited }; width]; height]
}

fn kinds(grid: &Vec<Vec<Node>>) -> Vec<Vec<NodeType>> {
    grid.iter().map(|row| row.iter().map(|n| n.node_type).collect()).collect()
}

#[test]
fn generator_finishes_after_width_times_height_steps() {
    for (w, h) in [(1usize, 1usize), (4, 3), (1, 5), (6, 1), (7, 7)] {
        let mut grid = blank(w, h);
        let mut m = NoiseMap::new(50, 7);
        let mut steps = 0;
        loop {
            steps += 1;
            match m.step(&mut grid) {
                AlgorithmResult::ModifiedGrid => assert!(steps < w * h),
                AlgorithmResult::Done(None) => break,
                _ => panic!("the generator only modifies or finishes"),
            }
        }
        assert_eq!(steps, w * h);
        for row in &grid {
            for n in row {
                assert!(n.node_type == NodeType::Wall || n.node_type == NodeType::Empty);
            }
        }
    }
}

#[test]
fn generator_visits_cells_in_row_major_order() {
    let (w, h) = (3usize, 2usize);
    let mut grid = blank(w, h);
    let mut m = NoiseMap::new(0, 7);
    for k in 0..w * h {
        let r = m.apply_roll(&mut grid, 0);
        let (x, y) = (k % w, k / w);
        assert_eq!(grid[y][x].node_type, NodeType::Wall);
        for j in k + 1..w * h {
            assert_eq!(grid[j / w][j % w].node_type, NodeType::Visited);
        }
        if k + 1 == w * h {
            assert!(matches!(r, AlgorithmResult::Done(None)));
        } else {
            assert!(matches!(r, AlgorithmResult::ModifiedGrid));
        }
    }
}

#[test]
fn same_seed_gives_same_maze() {
    let mut a = blank(9, 6);
    let mut b = blank(9, 6);
    let mut ma = NoiseMap::new(40, 1234);
    let mut mb = NoiseMap::new(40, 1234);
    while !matches!(ma.step(&mut a), AlgorithmResult::Done(_)) {}
    while !matches!(mb.step(&mut b), AlgorithmResult::Done(_)) {}
    assert_eq!(kinds(&a), kinds(&b));
}

#[test]
fn draw_at_or_below_fill_makes_a_wall() {
    let mut grid = blank(3, 1);
    let mut m = NoiseMap::new(30, 7);
    m.apply_roll(&mut grid, 30);
    m.apply_roll(&mut grid, 31);
    m.apply_roll(&mut grid, 0);
    assert_eq!(kinds(&grid), vec![vec![NodeType::Wall, NodeType::Empty, NodeType::Wall]]);
}

#[test]
fn full_and_zero_fill_percentages() {
    let mut walls = blank(4, 4);
    let mut m = NoiseMap::new(100, 7);
    while !matches!(m.step(&mut walls), AlgorithmResult::Done(_)) {}
    assert!(kinds(&walls).iter().flatten().all(|t| *t == NodeType::Wall));

    let mut empty = blank(4, 4);
    let mut m = NoiseMap::new(-1, 7);
    while !matches!(m.step(&mut empty), AlgorithmResult::Done(_)) {}
    assert!(kinds(&empty).iter().flatten().all(|t| *t == NodeType::Empty));
}

#[test]
fn generator_on_empty_grid_finishes_without_writing() {
    let mut grid: Vec<Vec<Node>> = Vec::new();
    let mut m = NoiseMap::new(10, 7);
    assert!(matches!(m.step(&mut grid), AlgorithmResult::Done(None)));
    assert!(grid.is_empty());
}

#[test]
fn generator_after_shrink_finishes() {
    let mut grid = blank(3, 3);
    let mut m = NoiseMap::new(10, 7);
    for _ in 0..5 {
        m.step(&mut grid);
    }
    let mut small = blank(1, 1);
    assert!(matches!(m.step(&mut small), AlgorithmResult::Done(None)));
    assert_eq!(small[0][0].node_type, NodeType::Visited);
}

#[test]
fn noise_map_reports_maze_generation() {
    let m = NoiseMap::new(10, 7);
    assert_eq!(m.algorithm_type(), AlgorithmType::MazeGeneration);
    let any = AnyAlgorithm::NoiseMap(NoiseMap::new(10, 7));
    assert_eq!(any.algorithm_type(), AlgorithmType::MazeGeneration);
}
