use ndmaze::forest::MazeGenForest;
use ndmaze::grid::unwrap_index;
use ndmaze::maze::Maze;
use rand::rngs::StdRng;
use rand::SeedableRng;

#[test]
fn maze_cell_ref_merge_roots() {
    let mut cells = MazeGenForest::new(3);

    assert_eq!(cells.try_merge(0, 1), true);
    assert_eq!(cells.try_merge(0, 1), false);
    assert_eq!(cells.try_merge(1, 0), false);

    assert_eq!(cells.try_merge(1, 2), true);
    assert_eq!(cells.try_merge(0, 2), false);
}

#[test]
fn maze_cell_ref_merge_roots_alternate() {
    let mut cells = MazeGenForest::new(3);

    assert_eq!(cells.try_merge(0, 1), true);
    assert_eq!(cells.try_merge(0, 1), false);
    assert_eq!(cells.try_merge(1, 0), false);

    assert_eq!(cells.try_merge(0, 2), true);
    assert_eq!(cells.try_merge(1, 2), false);
}

#[test]
fn unwrap_index_verify() {
    assert_eq!(unwrap_index(&[2], 0), Some([0]));
    assert_eq!(unwrap_index(&[2], 1), Some([1]));
    assert_eq!(unwrap_index(&[2], 2), None);
}

#[test]
fn verify_generates() {
    let mut rng = StdRng::seed_from_u64(684153987);
    let maze = Maze::new(&[5, 5, 5, 5, 5], &mut rng);

    assert_eq!(maze.can_move(&[1, 2, 52, 2, 2], 2), None);
}

#[test]
fn verify_generates_single() {
    let mut rng = StdRng::seed_from_u64(684153987);
    let maze = Maze::new(&[5, 1, 1], &mut rng);

    assert_eq!(maze.can_move(&[0, 0, 0], 0), Some(true));
    assert_eq!(maze.can_move(&[1, 0, 0], 0), Some(true));
    assert_eq!(maze.can_move(&[2, 0, 0], 0), Some(true));
    assert_eq!(maze.can_move(&[3, 0, 0], 0), Some(true));
    assert_eq!(maze.can_move(&[4, 0, 0], 0), None);
}
