use puzzle_engine::maze::grid_maze;
use puzzle_engine::maze::network_maze;
use puzzle_engine::maze::network_maze::NodeId;

#[test]
fn test_new_maze_player_at_start() {
    let maze = grid_maze::Maze::new(5, 5);
    assert_eq!(maze.player, grid_maze::Position { x: 0, y: 0 });
}

#[test]
fn test_move_pos_bounds() {
    let maze = grid_maze::Maze::new(3, 3);
    let pos = grid_maze::Position { x: 1, y: 1 };

    assert_eq!(
        maze.move_pos(pos, grid_maze::Direction::North),
        Some(grid_maze::Position { x: 1, y: 0 })
    );
    assert_eq!(
        maze.move_pos(pos, grid_maze::Direction::South),
        Some(grid_maze::Position { x: 1, y: 2 })
    );
    assert_eq!(
        maze.move_pos(pos, grid_maze::Direction::East),
        Some(grid_maze::Position { x: 2, y: 1 })
    );
    assert_eq!(
        maze.move_pos(pos, grid_maze::Direction::West),
        Some(grid_maze::Position { x: 0, y: 1 })
    );
}

#[test]
fn test_try_move_succeeds() {
    let mut maze = grid_maze::Maze::new(4, 4);
    let original_pos = maze.player;

    let moved = [
        grid_maze::Direction::East,
        grid_maze::Direction::South,
        grid_maze::Direction::North,
        grid_maze::Direction::West,
    ]
    .iter()
    .any(|&dir| maze.try_move(dir));

    assert!(moved);
    assert_ne!(maze.player, original_pos);
}

#[test]
fn test_is_at_end() {
    let mut maze = grid_maze::Maze::new(2, 2);
    maze.player = grid_maze::Position { x: 1, y: 1 };
    assert!(maze.is_at_end());
}

#[test]
fn test_maze_has_all_cells_visited() {
    let maze = grid_maze::Maze::new(3, 3);
    assert_eq!(maze.visited_count(), 9);
}

#[test]
fn test_maze_creation_and_pathfinding() {
    let maze = network_maze::Maze::new(20).unwrap();
    let path = maze.find_path();
    assert!(path.is_some(), "A path should exist between start and end");
    let path = path.unwrap();
    assert_eq!(path.first().cloned(), Some(maze.start));
    assert_eq!(path.last().cloned(), Some(maze.end));
}

#[test]
fn test_maze_tarversal_small_maze_finds_end() {
    let mut maze = network_maze::Maze::new(10).unwrap();
    let path = maze.find_path();
    assert!(path.is_some(), "A path should exist between start and end");
    let path = path.unwrap();
    for next_node in path.iter().skip(1) {
        maze.traverse(next_node.clone()).unwrap();
    }
    assert_eq!(maze.is_at_end(), true);
}

#[test]
fn test_maze_tarversal_large_maze_finds_end() {
    let mut maze = network_maze::Maze::new(100_000).unwrap();
    let path = maze.find_path();
    assert!(path.is_some(), "A path should exist between start and end");
    let path = path.unwrap();
    for next_node in path.iter().skip(1) {
        maze.traverse(next_node.clone()).unwrap();
    }
    assert_eq!(maze.is_at_end(), true);
}

#[test]
fn test_traverse_valid_and_invalid_moves() {
    let mut maze = network_maze::Maze::new(10).unwrap();
    let current = maze.current;
    let neighbors = maze.neighbors(current);

    if let Some(&next) = neighbors.first() {
        assert_eq!(maze.traverse(next), Ok(next));
        assert_eq!(maze.current, next);
    }

    let invalid = NodeId(9999);
    assert!(maze.traverse(invalid).is_err());
}

#[test]
fn network_maze_too_small_rejected() {
    assert!(network_maze::Maze::new(0).is_err());
    assert!(network_maze::Maze::new(1).is_err());
    assert!(network_maze::Maze::new(2).is_ok());
}

#[test]
fn network_maze_visualize_lists_every_node() {
    let maze = network_maze::Maze::new(5).unwrap();
    let text = maze.visualize();
    assert!(text.starts_with(
        "Maze Visualization (Start: NodeId(0), End: NodeId(4), Current: NodeId(0)):"
    ));
    let lines: Vec<&str> = text.lines().collect();
    assert_eq!(lines.len(), 6);
    for v in 0..5 {
        assert!(lines[v + 1].starts_with(&format!("NodeId({}): ", v)));
    }
}

#[test]
fn grid_maze_rejects_moves_without_passage() {
    let mut maze = grid_maze::Maze::new(1, 1);
    // a single-cell maze has no passages at all
    assert!(!maze.try_move(grid_maze::Direction::East));
    assert!(!maze.try_move(grid_maze::Direction::South));
    assert_eq!(maze.player, grid_maze::Position { x: 0, y: 0 });
    assert!(maze.is_at_end());
}
