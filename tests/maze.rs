use state_search::generic_search::{Search, Searchable};
use state_search::maze::{blocks, random_obstacles, Cell, Maze, MazeError, MazeLocation, DENSITY_ONE};

fn loc(row: usize, column: usize) -> MazeLocation {
    MazeLocation::new(row, column)
}

fn open_maze() -> Maze {
    Maze::generate(10, 10, loc(0, 0), loc(9, 9), 0).unwrap()
}

#[test]
fn open_maze_bfs_reaches_far_corner() {
    let m = open_maze();
    let h = m.bfs().unwrap();
    assert_eq!(h[0], loc(0, 0));
    assert_eq!(*h.last().unwrap(), loc(9, 9));
    // The far corner is the only cell 18 steps away, so it is visited last of all.
    assert_eq!(h.len(), 100);
    for (i, a) in h.iter().enumerate() {
        for b in h.iter().skip(i + 1) {
            assert_ne!(a, b);
        }
    }
    let steps = |l: &MazeLocation| l.row + l.column;
    for w in h.windows(2) {
        assert!(steps(&w[0]) <= steps(&w[1]));
    }
}

#[test]
fn open_maze_dfs_reaches_far_corner() {
    let m = open_maze();
    let h = m.dfs().unwrap();
    assert_eq!(h[0], loc(0, 0));
    assert_eq!(*h.last().unwrap(), loc(9, 9));
}

#[test]
fn blocked_maze_has_no_path() {
    let m = Maze::generate(10, 10, loc(0, 0), loc(9, 9), DENSITY_ONE).unwrap();
    assert_eq!(m.dfs(), None);
    assert_eq!(m.bfs(), None);
}

#[test]
fn walled_goal_has_no_path() {
    let mut blocked = vec![vec![false; 5]; 5];
    for c in 0..5 {
        blocked[2][c] = true;
    }
    let m = Maze::with_obstacles(5, 5, loc(0, 0), loc(4, 4), &blocked).unwrap();
    assert_eq!(m.dfs(), None);
    assert_eq!(m.bfs(), None);
}

#[test]
fn successors_in_fixed_order() {
    let m = open_maze();
    assert_eq!(m.successors(&loc(0, 0)), vec![loc(0, 1), loc(1, 0)]);
    assert_eq!(m.successors(&loc(5, 5)), vec![loc(5, 6), loc(5, 4), loc(6, 5), loc(4, 5)]);
    assert_eq!(m.successors(&loc(9, 9)), vec![loc(9, 8), loc(8, 9)]);
}

#[test]
fn successors_skip_blocked_cells() {
    let mut blocked = vec![vec![false; 3]; 3];
    blocked[1][2] = true;
    blocked[0][1] = true;
    let m = Maze::with_obstacles(3, 3, loc(0, 0), loc(2, 2), &blocked).unwrap();
    assert_eq!(m.successors(&loc(1, 1)), vec![loc(1, 0), loc(2, 1)]);
    assert_eq!(m.successors(&loc(0, 0)), vec![loc(1, 0)]);
    // A location outside the grid only sees its neighbours inside it.
    assert_eq!(m.successors(&loc(1, 3)), vec![]);
    assert_eq!(m.successors(&loc(0, 3)), vec![loc(0, 2)]);
    assert_eq!(m.successors(&loc(2, 3)), vec![loc(2, 2)]);
}

#[test]
fn initial_and_goal() {
    let m = open_maze();
    assert_eq!(m.initial(), loc(0, 0));
    assert!(m.is_goal(&loc(9, 9)));
    assert!(!m.is_goal(&loc(0, 0)));
}

#[test]
fn drawing_of_small_maze() {
    let mut blocked = vec![vec![false; 3]; 2];
    blocked[0][1] = true;
    blocked[1][0] = true;
    let m = Maze::with_obstacles(2, 3, loc(0, 0), loc(1, 2), &blocked).unwrap();
    assert_eq!(m.to_string(), "SX \nX G\n");
}

#[test]
fn start_and_goal_are_never_blocked() {
    let blocked = vec![vec![true; 3]; 3];
    let m = Maze::with_obstacles(3, 3, loc(1, 1), loc(0, 2), &blocked).unwrap();
    assert_eq!(m.to_string(), "XXG\nXSX\nXXX\n");
}

#[test]
fn mark_then_clear_restores_grid() {
    let mut m = Maze::generate(4, 4, loc(0, 0), loc(3, 3), 0).unwrap();
    let before = m.to_string();
    let path = m.bfs().unwrap();
    m.mark(&path);
    let marked = m.to_string();
    assert_ne!(marked, before);
    assert!(marked.starts_with('S'));
    assert!(marked.ends_with("G\n"));
    m.clear(&path);
    assert_eq!(m.to_string(), before);
}

#[test]
fn mark_draws_path_cells() {
    let mut m = Maze::generate(2, 3, loc(0, 0), loc(1, 2), 0).unwrap();
    m.mark(&vec![loc(0, 0), loc(0, 1), loc(0, 2), loc(1, 2)]);
    assert_eq!(m.to_string(), "S**\n  G\n");
    m.clear(&vec![loc(0, 1)]);
    assert_eq!(m.to_string(), "S *\n  G\n");
}

#[test]
fn construction_errors() {
    let ok = vec![vec![false; 4]; 3];
    assert!(matches!(
        Maze::with_obstacles(3, 4, loc(3, 0), loc(0, 0), &ok),
        Err(MazeError::StartOutOfBounds)
    ));
    assert!(matches!(
        Maze::with_obstacles(3, 4, loc(0, 0), loc(0, 4), &ok),
        Err(MazeError::GoalOutOfBounds)
    ));
    assert!(matches!(
        Maze::with_obstacles(3, 4, loc(1, 1), loc(1, 1), &ok),
        Err(MazeError::StartIsGoal)
    ));
    assert!(matches!(
        Maze::generate(3, 4, loc(0, 0), loc(2, 3), DENSITY_ONE + 1),
        Err(MazeError::DensityOutOfRange)
    ));
    assert!(matches!(
        Maze::generate(3, 4, loc(0, 4), loc(2, 3), DENSITY_ONE + 1),
        Err(MazeError::StartOutOfBounds)
    ));
    assert!(matches!(
        Maze::generate(0, 0, loc(0, 0), loc(0, 0), 0),
        Err(MazeError::StartOutOfBounds)
    ));
}

#[test]
fn default_maze_shape() {
    let m = Maze::new();
    let text = m.to_string();
    let lines: Vec<&str> = text.lines().collect();
    assert_eq!(lines.len(), 10);
    assert!(lines.iter().all(|l| l.chars().count() == 10));
    assert!(lines[0].starts_with('S'));
    assert!(lines[9].ends_with('G'));
    assert!(text.chars().all(|c| c == ' ' || c == 'X' || c == 'S' || c == 'G' || c == '\n'));
}

#[test]
fn draw_thresholds() {
    assert!(!blocks(0, 0));
    assert!(blocks(0, 1));
    assert!(blocks(u32::MAX, DENSITY_ONE));
    assert!(!blocks(2_147_483_648, 500_000));
    assert!(blocks(2_147_483_647, 500_000));
    assert!(!blocks(u32::MAX, 999_999));
}

#[test]
fn random_obstacles_extremes() {
    let none = random_obstacles(4, 6, 0);
    assert_eq!(none.len(), 4);
    assert!(none.iter().all(|r| r.len() == 6 && r.iter().all(|b| !b)));
    let all = random_obstacles(3, 2, DENSITY_ONE);
    assert!(all.iter().all(|r| r.len() == 2 && r.iter().all(|b| *b)));
}

#[test]
fn cell_characters() {
    assert_eq!(Cell::Empty.to_char(), ' ');
    assert_eq!(Cell::Blocked.to_char(), 'X');
    assert_eq!(Cell::Start.to_char(), 'S');
    assert_eq!(Cell::Goal.to_char(), 'G');
    assert_eq!(Cell::Path.to_char(), '*');
}

#[test]
fn keys_number_cells_row_by_row() {
    let m = Maze::generate(4, 7, loc(0, 0), loc(3, 6), 0).unwrap();
    assert_eq!(m.key(&loc(0, 0)), 0);
    assert_eq!(m.key(&loc(2, 3)), 17);
    assert_eq!(m.key(&loc(3, 6)), 27);
}
