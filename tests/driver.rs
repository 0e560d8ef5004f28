use mavis::algorithm::{Algorithm, AlgorithmResult, AlgorithmType};
use mavis::app::{handle_key_press, integrate_outcome, paint_path, App, Key};
use mavis::grid::{Grid, GridState, Markers, Node, NodeType};
use mavis::sidebar::{AlgorithmChoice, Sidebar, SidebarAction, SidebarPage};
use mavis::utils::abs_to_grid;

fn kinds(grid: &Grid) -> Vec<Vec<NodeType>> {
    grid.content.iter().map(|row| row.iter().map(|n| n.node_type).collect()).collect()
}

fn is_idle(app: &App) -> bool {
    matches!(app.grid.state, GridState::Idle)
}

/// An app showing a `w` by `h` grid whose top-left cell is at screen (10, 5).
fn app_with_grid(w: usize, h: usize) -> App {
    let mut app = App::new();
    app.resize(w, h, (10, 5), (10 + w as i32 - 1, 5 + h as i32 - 1));
    app
}

#[test]
fn abs_to_grid_subtracts_origin() {
    assert_eq!(abs_to_grid((15, 9), (10, 5)), (5, 4));
    assert_eq!(abs_to_grid((10, 5), (10, 5)), (0, 0));
    assert_eq!(abs_to_grid((3, 2), (10, 5)), (-7, -3));
}

#[test]
fn new_grid_is_idle_and_empty() {
    let grid = Grid::new();
    assert!(matches!(grid.state, GridState::Idle));
    assert_eq!(grid.height(), 0);
    assert_eq!(grid.width(), 0);
    assert_eq!(grid.markers.start, None);
    assert_eq!(grid.grid_start, None);
    let markers = Markers::new();
    assert_eq!((markers.start, markers.end), (None, None));
}

#[test]
fn resize_allocates_empty_cells() {
    let mut grid = Grid::new();
    grid.resize(7, 3, (1, 1), (7, 3));
    assert_eq!(grid.height(), 3);
    assert_eq!(grid.width(), 7);
    assert!(kinds(&grid).iter().flatten().all(|t| *t == NodeType::Empty));
    assert_eq!(grid.grid_start, Some((1, 1)));
    assert_eq!(grid.grid_end, Some((7, 3)));
}

#[test]
fn menu_pages_list_their_entries() {
    let main = SidebarPage::Main.options();
    assert_eq!(main.len(), 2);
    assert_eq!(main[0].title, "View Maze Algorithms");
    assert_eq!(main[1].action(), Some(SidebarAction::SwitchPage(SidebarPage::PathfindingAlgorithms)));
    let maze = SidebarPage::MazeGenerationAlgorithms.options();
    assert_eq!(maze.len(), 4);
    assert_eq!(maze[0].action(), None);
    assert_eq!(maze[2].title, "Noise Map");
    assert_eq!(maze[2].action(), Some(SidebarAction::InitAlgorithm(AlgorithmChoice::NoiseMap)));
    let paths = SidebarPage::PathfindingAlgorithms.options();
    assert_eq!(paths.len(), 4);
    assert_eq!(paths[0].title, "A*");
    assert_eq!(paths[0].action(), Some(SidebarAction::InitAlgorithm(AlgorithmChoice::AStar)));
    assert_eq!(paths[3].action(), Some(SidebarAction::SwitchPage(SidebarPage::Main)));
}

#[test]
fn menu_highlight_wraps_both_ways() {
    let mut s = Sidebar::new();
    assert_eq!(s.selected, Some(0));
    s.prev();
    assert_eq!(s.selected, Some(1));
    s.next();
    assert_eq!(s.selected, Some(0));
    s.next();
    s.next();
    assert_eq!(s.selected, Some(0));
    s.selected = None;
    s.next();
    assert_eq!(s.selected, Some(0));
}

#[test]
fn select_switches_page_and_resets_highlight() {
    let mut s = Sidebar::new();
    let mut grid = Grid::new();
    s.next();
    s.select(&mut grid, 7);
    assert_eq!(s.page, SidebarPage::PathfindingAlgorithms);
    assert_eq!(s.selected, Some(0));
    s.next();
    s.select(&mut grid, 7);
    assert_eq!(s.page, SidebarPage::PathfindingAlgorithms);
    assert_eq!(s.selected, Some(0));
    assert!(matches!(grid.state, GridState::Idle));
}

#[test]
fn selecting_generator_starts_it() {
    let mut s = Sidebar::new();
    let mut grid = Grid::new();
    s.select(&mut grid, 7);
    assert_eq!(s.page, SidebarPage::MazeGenerationAlgorithms);
    s.next();
    s.next();
    s.select(&mut grid, 7);
    assert_eq!(s.page, SidebarPage::Main);
    match &grid.state {
        GridState::Generating(a) => assert_eq!(a.algorithm_type(), AlgorithmType::MazeGeneration),
        _ => panic!("the generator should be running"),
    }
}

#[test]
fn selecting_pathfinder_waits_for_markers() {
    let mut app = app_with_grid(5, 5);
    handle_key_press(&mut app, Key::Down, 7);
    handle_key_press(&mut app, Key::Enter, 7);
    handle_key_press(&mut app, Key::Enter, 7);
    match &app.grid.state {
        GridState::PlacingMarkers(a) => assert_eq!(a.algorithm_type(), AlgorithmType::Pathfinding),
        _ => panic!("the pathfinder should wait for its markers"),
    }
}

#[test]
fn quit_key_sets_exit() {
    let mut app = App::new();
    handle_key_press(&mut app, Key::Char('x'), 7);
    assert!(!app.exit);
    handle_key_press(&mut app, Key::Other, 7);
    assert!(!app.exit);
    handle_key_press(&mut app, Key::Char('q'), 7);
    assert!(app.exit);
}

#[test]
fn end_to_end_pathfinding_paints_path_and_goes_idle() {
    let mut app = app_with_grid(5, 5);
    handle_key_press(&mut app, Key::Down, 7);
    handle_key_press(&mut app, Key::Enter, 7);
    handle_key_press(&mut app, Key::Enter, 7);
    app.place_marker((100, 100));
    assert_eq!(app.grid.markers.start, None);
    app.place_marker((10, 5));
    assert_eq!(app.grid.markers.start, Some((10, 5)));
    assert!(matches!(app.grid.state, GridState::PlacingMarkers(_)));
    app.place_marker((14, 9));
    assert!(matches!(app.grid.state, GridState::Generating(_)));
    let mut ticks = 0;
    let mut last_redraw = false;
    while !is_idle(&app) {
        last_redraw = app.tick();
        ticks += 1;
        assert!(ticks < 1000);
    }
    assert!(last_redraw);
    assert_eq!(app.tick, 1);
    assert_eq!(app.grid.markers.start, None);
    assert_eq!(app.grid.markers.end, None);
    let cells = kinds(&app.grid);
    let painted = cells.iter().flatten().filter(|t| **t == NodeType::Path).count();
    assert_eq!(painted, 9);
    assert_eq!(cells[0][0], NodeType::Path);
    assert_eq!(cells[4][4], NodeType::Path);
}

#[test]
fn idle_ticks_change_nothing() {
    let mut app = app_with_grid(4, 4);
    handle_key_press(&mut app, Key::Enter, 7);
    handle_key_press(&mut app, Key::Down, 7);
    handle_key_press(&mut app, Key::Down, 7);
    handle_key_press(&mut app, Key::Enter, 7);
    while !is_idle(&app) {
        app.tick();
    }
    let snapshot = kinds(&app.grid);
    let tick = app.tick;
    for _ in 0..20 {
        assert!(!app.tick());
    }
    assert_eq!(kinds(&app.grid), snapshot);
    assert_eq!(app.tick, tick);
    assert!(is_idle(&app));
}

#[test]
fn generator_redraws_every_fifty_ticks() {
    let mut app = app_with_grid(20, 20);
    handle_key_press(&mut app, Key::Enter, 7);
    handle_key_press(&mut app, Key::Down, 7);
    handle_key_press(&mut app, Key::Down, 7);
    handle_key_press(&mut app, Key::Enter, 7);
    let mut redraws = Vec::new();
    for k in 0..120 {
        if app.tick() {
            redraws.push(k);
        }
    }
    assert_eq!(redraws, vec![0, 50, 100]);
}

#[test]
fn markers_ignored_outside_placing_state() {
    let mut app = app_with_grid(3, 3);
    app.place_marker((11, 6));
    assert_eq!(app.grid.markers.start, None);
    assert!(is_idle(&app));
}

#[test]
fn paint_path_marks_only_cells_in_grid() {
    let mut cells = vec![vec![Node { node_type: NodeType::Empty }; 3]; 2];
    paint_path(&mut cells, &vec![(0, 0), (1, 0), (1, 1), (5, 5), (-1, 0)]);
    let got: Vec<Vec<NodeType>> = cells.iter().map(|r| r.iter().map(|n| n.node_type).collect()).collect();
    assert_eq!(
        got,
        vec![
            vec![NodeType::Path, NodeType::Path, NodeType::Empty],
            vec![NodeType::Empty, NodeType::Path, NodeType::Empty],
        ]
    );
}

#[test]
fn impossible_outcome_returns_to_idle_without_painting() {
    let mut grid = Grid::new();
    grid.resize(2, 2, (0, 0), (1, 1));
    grid.markers.start = Some((0, 0));
    assert!(!integrate_outcome(&mut grid, AlgorithmResult::ModifiedGrid));
    assert_eq!(grid.markers.start, Some((0, 0)));
    assert!(integrate_outcome(&mut grid, AlgorithmResult::Impossible));
    assert!(matches!(grid.state, GridState::Idle));
    assert_eq!(grid.markers.start, None);
    assert!(kinds(&grid).iter().flatten().all(|t| *t == NodeType::Empty));
}
