use maze_runner::direction::{parse_direction, Direction};
use maze_runner::generator::{dig_maze, find_path_position, find_path_position_from_bottom};
use maze_runner::maze::{Maze, GOAL, PATH, PLAYER, WALL};
use maze_runner::position::Position;
use rand::rngs::StdRng;
use rand::SeedableRng;
use std::collections::VecDeque;

fn seeded(width: usize, height: usize, seed: u64) -> Maze {
    let mut rng = StdRng::seed_from_u64(seed);
    Maze::with_rng(width, height, &mut rng).expect("construction always succeeds")
}

/// The rows of the picture, without the caption and the empty line.
fn rows(maze: &Maze) -> Vec<Vec<char>> {
    let text = maze.get_maze_as_string();
    let mut lines = text.split('\n');
    assert_eq!(lines.next(), Some("Maze: (P=Player, G=Goal, #=Wall)"));
    assert_eq!(lines.next(), Some(""));
    let rows: Vec<Vec<char>> = lines.map(|l| l.chars().collect()).collect();
    // the text ends with a line feed, which leaves one empty piece
    assert_eq!(rows.last(), Some(&Vec::new()));
    rows[..rows.len() - 1].to_vec()
}

fn walled(width: usize, height: usize) -> Vec<Vec<char>> {
    vec![vec![WALL; width]; height]
}

/// The cells reachable from `start` through non-wall cells.
fn flood(grid: &[Vec<char>], start: (usize, usize)) -> Vec<Vec<bool>> {
    let h = grid.len();
    let w = grid[0].len();
    let mut seen = vec![vec![false; w]; h];
    let mut queue = VecDeque::new();
    seen[start.1][start.0] = true;
    queue.push_back(start);
    while let Some((x, y)) = queue.pop_front() {
        let mut next = Vec::new();
        if x > 0 {
            next.push((x - 1, y));
        }
        if y > 0 {
            next.push((x, y - 1));
        }
        if x + 1 < w {
            next.push((x + 1, y));
        }
        if y + 1 < h {
            next.push((x, y + 1));
        }
        for (nx, ny) in next {
            if grid[ny][nx] != WALL && !seen[ny][nx] {
                seen[ny][nx] = true;
                queue.push_back((nx, ny));
            }
        }
    }
    seen
}

fn all_open_connected(grid: &[Vec<char>]) -> bool {
    let mut start = None;
    for (y, row) in grid.iter().enumerate() {
        for (x, c) in row.iter().enumerate() {
            if *c != WALL && start.is_none() {
                start = Some((x, y));
            }
        }
    }
    let start = match start {
        Some(s) => s,
        None => return true,
    };
    let seen = flood(grid, start);
    grid.iter().enumerate().all(|(y, row)| row.iter().enumerate().all(|(x, c)| *c == WALL || seen[y][x]))
}

/// The words that lead from the player to the goal, found breadth first.
fn route(grid: &[Vec<char>], from: (usize, usize), to: (usize, usize)) -> Vec<&'static str> {
    let h = grid.len();
    let w = grid[0].len();
    let mut prev: Vec<Vec<Option<((usize, usize), &'static str)>>> = vec![vec![None; w]; h];
    let mut queue = VecDeque::new();
    queue.push_back(from);
    let mut seen = vec![vec![false; w]; h];
    seen[from.1][from.0] = true;
    while let Some((x, y)) = queue.pop_front() {
        let steps = [
            (x.wrapping_sub(1), y, "a"),
            (x + 1, y, "d"),
            (x, y.wrapping_sub(1), "w"),
            (x, y + 1, "s"),
        ];
        for (nx, ny, word) in steps {
            if nx < w && ny < h && grid[ny][nx] != WALL && !seen[ny][nx] {
                seen[ny][nx] = true;
                prev[ny][nx] = Some(((x, y), word));
                queue.push_back((nx, ny));
            }
        }
    }
    let mut words = Vec::new();
    let mut at = to;
    while at != from {
        let (p, word) = prev[at.1][at.0].expect("goal reachable");
        words.push(word);
        at = p;
    }
    words.reverse();
    words
}

#[test]
fn test_maze_creation() {
    let maze = Maze::new();
    assert!(maze.is_some());
}

#[test]
fn test_player_movement() {
    if let Some(mut maze) = Maze::new() {
        let directions = ["w", "a", "s", "d"];
        let mut any_move_successful = false;

        for dir in &directions {
            let initial_pos = maze.get_state().player_position;
            maze.move_player(dir);
            let new_pos = maze.get_state().player_position;
            if initial_pos.x != new_pos.x || initial_pos.y != new_pos.y {
                any_move_successful = true;
                break;
            }
        }

        assert!(any_move_successful, "Player could not move in any direction");
    } else {
        panic!("Failed to create maze for test");
    }
}

#[test]
fn every_path_cell_is_reachable() {
    for seed in 0..20u64 {
        for (w, h) in [(5, 5), (17, 11), (9, 21), (31, 7)] {
            let maze = seeded(w, h, seed);
            let grid = rows(&maze);
            assert_eq!(grid.len(), h);
            assert!(grid.iter().all(|r| r.len() == w));
            assert!(all_open_connected(&grid), "seed {seed}, {w}x{h}");
        }
    }
}

#[test]
fn start_and_goal_are_distinct_path_cells() {
    for seed in 0..20u64 {
        let maze = seeded(17, 11, seed);
        let state = maze.get_state();
        assert_eq!(state.player_position, Position::new(1, 1));
        assert_ne!(state.player_position, state.goal_position);
        assert_eq!(state.goal_position, Position::new(15, 9));
        assert!(!state.is_completed);
        let grid = rows(&maze);
        let p = state.player_position;
        let g = state.goal_position;
        assert_eq!(grid[p.y][p.x], PLAYER);
        assert_eq!(grid[g.y][g.x], GOAL);
        let players = grid.iter().flatten().filter(|c| **c == PLAYER).count();
        let goals = grid.iter().flatten().filter(|c| **c == GOAL).count();
        assert_eq!((players, goals), (1, 1));
        assert!(grid.iter().flatten().all(|c| [WALL, PATH, PLAYER, GOAL].contains(c)));
    }
}

#[test]
fn positions_stay_on_paths_while_walking() {
    let mut maze = seeded(17, 11, 7);
    let words = ["d", "s", "a", "w", "right", "down", "left", "up"];
    for i in 0..200 {
        let done = maze.move_player(words[(i * 7 + i / 3) % words.len()]);
        let state = maze.get_state();
        let grid = rows(&maze);
        let p = state.player_position;
        assert_ne!(grid[p.y][p.x], WALL);
        assert_eq!(done, state.is_completed);
        if !done {
            assert_ne!(state.player_position, state.goal_position);
        }
    }
}

#[test]
fn moving_into_a_wall_changes_nothing() {
    let mut maze = seeded(17, 11, 3);
    let before = maze.get_state();
    let text = maze.get_maze_as_string();
    // row 0 is the border: always a wall above (1, 1)
    assert!(!maze.move_player("up"));
    let after = maze.get_state();
    assert_eq!(after.player_position, before.player_position);
    assert!(!after.is_completed);
    assert_eq!(maze.get_maze_as_string(), text);
}

#[test]
fn reaching_the_goal_completes_and_stays_completed() {
    for seed in 0..5u64 {
        let mut maze = seeded(17, 11, seed);
        let grid = rows(&maze);
        let s = maze.get_state();
        let words = route(&grid, (s.player_position.x, s.player_position.y), (s.goal_position.x, s.goal_position.y));
        assert!(!words.is_empty());
        for (i, word) in words.iter().enumerate() {
            let done = maze.move_player(word);
            assert_eq!(done, i + 1 == words.len());
        }
        let end = maze.get_state();
        assert!(end.is_completed);
        assert_eq!(end.player_position, end.goal_position);
        let text = maze.get_maze_as_string();
        for word in ["w", "a", "s", "d", "xyz"] {
            assert!(maze.move_player(word));
            assert_eq!(maze.get_state().player_position, end.player_position);
            assert_eq!(maze.get_maze_as_string(), text);
        }
    }
}

#[test]
fn same_seed_gives_same_maze() {
    for seed in [0u64, 1, 42, 12345] {
        let a = seeded(17, 11, seed);
        let b = seeded(17, 11, seed);
        assert_eq!(a.get_maze_as_string(), b.get_maze_as_string());
        assert_eq!(a.get_state().player_position, b.get_state().player_position);
        assert_eq!(a.get_state().goal_position, b.get_state().goal_position);
    }
}

#[test]
fn every_odd_cell_is_dug() {
    for seed in 0..10u64 {
        let mut grid = walled(21, 15);
        let mut rng = StdRng::seed_from_u64(seed);
        dig_maze(&mut grid, 21, 15, 1, 1, &mut rng);
        for y in (1..14).step_by(2) {
            for x in (1..20).step_by(2) {
                assert_eq!(grid[y][x], PATH, "seed {seed} at ({x}, {y})");
            }
        }
        // a tree on the 10 x 7 odd cells: 70 cells, 69 passages between them
        let open = grid.iter().flatten().filter(|c| **c == PATH).count();
        assert_eq!(open, 70 + 69);
    }
}

#[test]
fn different_seeds_give_different_mazes() {
    let first = seeded(17, 11, 0).get_maze_as_string();
    let differs = (1..10u64).any(|s| seeded(17, 11, s).get_maze_as_string() != first);
    assert!(differs);
}

#[test]
fn smallest_maze() {
    let mut maze = Maze::with_size(5, 5).expect("a 5x5 maze is always made");
    assert_eq!((maze.get_width(), maze.get_height()), (5, 5));
    let grid = rows(&maze);
    assert!(all_open_connected(&grid));
    // walk right until the cell to the right is a wall, then try once more
    let mut p = maze.get_state().player_position;
    while grid[p.y][p.x + 1] != WALL {
        maze.move_player("right");
        p = maze.get_state().player_position;
        if maze.get_state().is_completed {
            return;
        }
    }
    assert!(!maze.move_player("right"));
    assert_eq!(maze.get_state().player_position, p);
}

#[test]
fn seeded_dig_opens_the_start() {
    let mut grid = walled(17, 11);
    let mut rng = StdRng::seed_from_u64(2024);
    dig_maze(&mut grid, 17, 11, 1, 1, &mut rng);
    assert_eq!(grid[1][1], PATH);
    assert_eq!(find_path_position(&grid, 17, 11, 1, 1), Some(Position::new(1, 1)));
    // the four cells two steps away inside the border are dug
    assert_eq!(grid[1][3], PATH);
    assert_eq!(grid[3][1], PATH);
    // the border stays intact
    for x in 0..17 {
        assert_eq!(grid[0][x], WALL);
        assert_eq!(grid[10][x], WALL);
    }
    for y in 0..11 {
        assert_eq!(grid[y][0], WALL);
        assert_eq!(grid[y][16], WALL);
    }
    assert!(grid.iter().flatten().all(|c| *c == WALL || *c == PATH));
    assert!(all_open_connected(&grid));
}

#[test]
fn unknown_word_changes_nothing() {
    let mut maze = seeded(17, 11, 9);
    let before = maze.get_state();
    assert!(!maze.move_player("xyz"));
    let after = maze.get_state();
    assert_eq!(after.player_position, before.player_position);
    assert!(!after.is_completed);
}

#[test]
fn sizes_are_normalized() {
    for ((w, h), (ew, eh)) in [((0, 0), (5, 5)), ((4, 3), (5, 5)), ((6, 8), (7, 9)), ((17, 11), (17, 11)), ((5, 12), (5, 13))] {
        let maze = Maze::with_size(w, h).unwrap();
        assert_eq!((maze.get_width(), maze.get_height()), (ew, eh));
        let grid = rows(&maze);
        assert_eq!(grid.len(), eh);
        assert!(grid.iter().all(|r| r.len() == ew));
    }
    let maze = Maze::new().unwrap();
    assert_eq!((maze.get_width(), maze.get_height()), (17, 11));
}

#[test]
fn words_for_directions() {
    assert_eq!(parse_direction("w"), Some(Direction::Up));
    assert_eq!(parse_direction("Up"), Some(Direction::Up));
    assert_eq!(parse_direction("s"), Some(Direction::Down));
    assert_eq!(parse_direction("DOWN"), Some(Direction::Down));
    assert_eq!(parse_direction("A"), Some(Direction::Left));
    assert_eq!(parse_direction("left"), Some(Direction::Left));
    assert_eq!(parse_direction("d"), Some(Direction::Right));
    assert_eq!(parse_direction("rIgHt"), Some(Direction::Right));
    assert_eq!(parse_direction("xyz"), None);
    assert_eq!(parse_direction(""), None);
    assert_eq!(parse_direction("ww"), None);
    assert_eq!(parse_direction(" w"), None);
}

#[test]
fn moves_accept_any_case() {
    let mut maze = seeded(17, 11, 11);
    let grid = rows(&maze);
    let word = if grid[1][2] != WALL { "RIGHT" } else { "S" };
    let before = maze.get_state().player_position;
    maze.move_player(word);
    assert_ne!(maze.get_state().player_position, before);
}

#[test]
fn find_from_top_left() {
    let mut grid = walled(5, 5);
    assert_eq!(find_path_position(&grid, 5, 5, 1, 1), None);
    grid[3][2] = PATH;
    grid[2][4] = PATH;
    assert_eq!(find_path_position(&grid, 5, 5, 1, 1), Some(Position::new(4, 2)));
    assert_eq!(find_path_position(&grid, 5, 5, 2, 3), Some(Position::new(2, 3)));
}

#[test]
fn find_from_bottom_right() {
    let mut grid = walled(5, 5);
    let avoid = Position::new(1, 1);
    assert_eq!(find_path_position_from_bottom(&grid, 5, 5, 3, 3, &avoid), None);
    grid[1][1] = PATH;
    assert_eq!(find_path_position_from_bottom(&grid, 5, 5, 1, 1, &avoid), None);
    grid[1][3] = PATH;
    grid[2][1] = PATH;
    assert_eq!(find_path_position_from_bottom(&grid, 5, 5, 3, 3, &avoid), Some(Position::new(1, 2)));
    grid[3][3] = PATH;
    assert_eq!(find_path_position_from_bottom(&grid, 5, 5, 3, 3, &avoid), Some(Position::new(3, 3)));
    assert_eq!(find_path_position_from_bottom(&grid, 5, 5, 3, 3, &Position::new(3, 3)), Some(Position::new(1, 2)));
}

#[test]
fn picture_matches_state() {
    let maze = seeded(9, 7, 5);
    let text = maze.get_maze_as_string();
    assert!(text.starts_with("Maze: (P=Player, G=Goal, #=Wall)\n\n"));
    assert_eq!(text.len(), "Maze: (P=Player, G=Goal, #=Wall)\n\n".len() + 7 * 10);
    let grid = rows(&maze);
    let s = maze.get_state();
    assert_eq!(grid[1][1], PLAYER);
    assert_eq!(grid[s.goal_position.y][s.goal_position.x], GOAL);
    assert_eq!(grid[0], vec![WALL; 9]);
}

#[test]
fn position_new_keeps_coordinates() {
    let p = Position::new(3, 8);
    assert_eq!((p.x, p.y), (3, 8));
}
