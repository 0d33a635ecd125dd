use ndmaze::forest::MazeGenForest;
use ndmaze::grid::{cell_index, checked_cell_count, unwrap_index};
use ndmaze::maze::Maze;
use ndmaze::queue::{comes_first, Candidate, CandidateQueue};
use rand::rngs::StdRng;
use rand::RngCore;
use rand::SeedableRng;

/// All cells of a grid, in index order.
fn all_cells<const DIMS: usize>(lengths: &[u8; DIMS]) -> Vec<[u8; DIMS]> {
    let count = checked_cell_count(lengths).unwrap();
    (0..count).map(|index| unwrap_index(lengths, index).unwrap()).collect()
}

/// The open steps of a maze, as pairs of cell indices.
fn open_steps<const DIMS: usize>(maze: &Maze<DIMS>) -> Vec<(usize, usize)> {
    let lengths = *maze.lengths();
    let mut steps = Vec::new();
    for cell in all_cells(&lengths) {
        for dim in 0..DIMS {
            if maze.can_move(&cell, dim) == Some(true) {
                let mut next = cell;
                next[dim] += 1;
                steps.push((cell_index(&lengths, &cell), cell_index(&lengths, &next)));
            }
        }
    }
    steps
}

/// Walks the maze from cell zero. Returns how many cells were reached and
/// whether some cell was reached a second time by another way.
fn traverse(count: usize, steps: &[(usize, usize)]) -> (usize, bool) {
    let mut adjacent = vec![Vec::new(); count];
    for &(a, b) in steps {
        adjacent[a].push(b);
        adjacent[b].push(a);
    }
    let mut seen = vec![false; count];
    let mut reached = 0;
    let mut cycle = false;
    for start in 0..count {
        if seen[start] {
            continue;
        }
        if start > 0 {
            break;
        }
        let mut stack = vec![(start, usize::MAX)];
        seen[start] = true;
        while let Some((cell, parent)) = stack.pop() {
            reached += 1;
            let mut skipped_parent = false;
            for &next in &adjacent[cell] {
                if next == parent && !skipped_parent {
                    skipped_parent = true;
                } else if seen[next] {
                    cycle = true;
                } else {
                    seen[next] = true;
                    stack.push((next, cell));
                }
            }
        }
    }
    (reached, cycle)
}

fn check_spanning_tree<const DIMS: usize>(lengths: [u8; DIMS], seed: u64) {
    let mut rng = StdRng::seed_from_u64(seed);
    let maze = Maze::new(&lengths, &mut rng);
    let count = checked_cell_count(&lengths).unwrap();
    let steps = open_steps(&maze);
    assert_eq!(steps.len(), count - 1);
    let (reached, cycle) = traverse(count, &steps);
    assert_eq!(reached, count);
    assert!(!cycle);
}

#[test]
fn generated_maze_joins_all_cells_with_one_walk_less() {
    check_spanning_tree([3, 4], 1);
    check_spanning_tree([2, 2, 2], 2);
    check_spanning_tree([5, 1, 1], 3);
    check_spanning_tree([4], 4);
    check_spanning_tree([1], 5);
    check_spanning_tree([3, 3, 3, 3], 6);
    check_spanning_tree([7, 6, 5], 684153987);
}

#[test]
fn generated_maze_has_no_cycle() {
    for seed in 0..20 {
        let mut rng = StdRng::seed_from_u64(seed);
        let lengths = [4, 5, 3];
        let maze = Maze::new(&lengths, &mut rng);
        let (_, cycle) = traverse(60, &open_steps(&maze));
        assert!(!cycle);
    }
}

#[test]
fn traversal_finds_a_cycle_when_there_is_one() {
    let (reached, cycle) = traverse(4, &[(0, 1), (1, 3), (3, 2), (2, 0)]);
    assert_eq!(reached, 4);
    assert!(cycle);
}

#[test]
fn same_seed_gives_same_maze() {
    let lengths = [4, 3, 5];
    let first = Maze::new(&lengths, &mut StdRng::seed_from_u64(123456789));
    let second = Maze::new(&lengths, &mut StdRng::seed_from_u64(123456789));
    for cell in all_cells(&lengths) {
        for dim in 0..4 {
            assert_eq!(first.can_move(&cell, dim), second.can_move(&cell, dim));
        }
    }
    assert_eq!(open_steps(&first), open_steps(&second));
}

#[test]
fn same_priorities_give_same_maze() {
    let lengths = [3, 3];
    let priorities: Vec<u32> = (0..18).map(|k| (k * 7919 + 13) % 31).collect();
    let first = Maze::from_priorities(&lengths, &priorities);
    let second = Maze::from_priorities(&lengths, &priorities);
    assert_eq!(open_steps(&first), open_steps(&second));
    assert_eq!(open_steps(&first).len(), 8);
}

#[test]
fn highest_priority_is_tried_first() {
    // Steps of the two by two grid, by position in `priorities`:
    // 0: (0,0)-(1,0), 1: (0,0)-(0,1), 3: (1,0)-(1,1), 4: (0,1)-(1,1).
    let priorities = [10, 1, 0, 9, 8, 0, 0, 0];
    let maze = Maze::from_priorities(&[2, 2], &priorities);
    assert_eq!(maze.can_move(&[0, 0], 0), Some(true));
    assert_eq!(maze.can_move(&[1, 0], 1), Some(true));
    assert_eq!(maze.can_move(&[0, 1], 0), Some(true));
    assert_eq!(maze.can_move(&[0, 0], 1), Some(false));
}

#[test]
fn equal_priorities_go_by_cell_then_dimension() {
    let priorities = [5; 8];
    let maze = Maze::from_priorities(&[2, 2], &priorities);
    assert_eq!(maze.can_move(&[0, 1], 0), Some(true));
    assert_eq!(maze.can_move(&[1, 0], 1), Some(true));
    assert_eq!(maze.can_move(&[0, 0], 1), Some(true));
    assert_eq!(maze.can_move(&[0, 0], 0), Some(false));
}

#[test]
fn last_priority_decides_between_two_steps() {
    let mut priorities = [5; 8];
    priorities[0] = 6;
    let maze = Maze::from_priorities(&[2, 2], &priorities);
    assert_eq!(maze.can_move(&[0, 0], 0), Some(true));
    assert_eq!(maze.can_move(&[0, 1], 0), Some(true));
    assert_eq!(maze.can_move(&[1, 0], 1), Some(true));
    assert_eq!(maze.can_move(&[0, 0], 1), Some(false));
}

#[test]
fn walk_is_found_from_either_end() {
    let lengths = [3, 4];
    let maze = Maze::new(&lengths, &mut StdRng::seed_from_u64(77));
    let mut open = 0;
    for cell in all_cells(&lengths) {
        for dim in 0..2 {
            if let Some(answer) = maze.can_move(&cell, dim) {
                let mut next = cell;
                next[dim] += 1;
                assert_eq!(maze.check_pair(&cell, &next), Some(answer));
                assert_eq!(maze.check_pair(&next, &cell), Some(answer));
                if answer {
                    open += 1;
                }
            }
        }
    }
    assert_eq!(open, 11);
}

#[test]
fn check_pair_of_cells_that_are_no_neighbors() {
    let maze = Maze::new(&[3, 3], &mut StdRng::seed_from_u64(5));
    assert_eq!(maze.check_pair(&[0, 0], &[0, 0]), Some(false));
    assert_eq!(maze.check_pair(&[0, 0], &[1, 1]), Some(false));
    assert_eq!(maze.check_pair(&[0, 0], &[2, 0]), Some(false));
    assert_eq!(maze.check_pair(&[2, 0], &[0, 0]), Some(false));
    assert_eq!(maze.check_pair(&[0, 0], &[3, 0]), None);
    assert_eq!(maze.check_pair(&[0, 3], &[0, 0]), None);
}

#[test]
fn no_move_at_the_boundary() {
    let lengths = [4, 3];
    let maze = Maze::new(&lengths, &mut StdRng::seed_from_u64(9));
    for y in 0..3 {
        assert_eq!(maze.can_move(&[3, y], 0), None);
        assert_eq!(maze.can_move(&[4, y], 0), None);
        assert_eq!(maze.can_move(&[200, y], 0), None);
        assert_eq!(maze.can_move(&[255, y], 0), None);
    }
    for x in 0..4 {
        assert_eq!(maze.can_move(&[x, 2], 1), None);
        assert_eq!(maze.can_move(&[x, 3], 1), None);
        assert!(maze.can_move(&[x, 1], 1).is_some());
    }
    assert_eq!(maze.can_move(&[0, 0], 2), None);
    assert_eq!(maze.can_move(&[0, 0], usize::MAX), None);
    assert_eq!(maze.can_move(&[0, 3], 0), None);
}

#[test]
fn longest_side_has_no_move_past_its_end() {
    let maze = Maze::new(&[255], &mut StdRng::seed_from_u64(1));
    assert_eq!(maze.can_move(&[253], 0), Some(true));
    assert_eq!(maze.can_move(&[254], 0), None);
    assert_eq!(maze.can_move(&[255], 0), None);
}

#[test]
fn index_round_trip() {
    let lengths = [3, 4, 5];
    for index in 0..60 {
        let cell = unwrap_index(&lengths, index).unwrap();
        assert!(cell[0] < 3 && cell[1] < 4 && cell[2] < 5);
        assert_eq!(cell_index(&lengths, &cell), index);
    }
    assert_eq!(unwrap_index(&lengths, 60), None);
    assert_eq!(unwrap_index(&lengths, 61), None);
    assert_eq!(unwrap_index(&lengths, usize::MAX), None);
}

#[test]
fn index_counts_dimension_zero_fastest() {
    assert_eq!(unwrap_index(&[3, 4, 5], 0), Some([0, 0, 0]));
    assert_eq!(unwrap_index(&[3, 4, 5], 1), Some([1, 0, 0]));
    assert_eq!(unwrap_index(&[3, 4, 5], 3), Some([0, 1, 0]));
    assert_eq!(unwrap_index(&[3, 4, 5], 37), Some([1, 0, 3]));
    assert_eq!(unwrap_index(&[3, 4, 5], 59), Some([2, 3, 4]));
    assert_eq!(cell_index(&[3, 4, 5], &[1, 0, 3]), 37);
    assert_eq!(cell_index(&[3, 4, 5], &[2, 3, 4]), 59);
    assert_eq!(cell_index(&[3, 4, 5], &[0, 0, 1]), 12);
}

#[test]
fn index_in_a_grid_without_cells() {
    assert_eq!(unwrap_index(&[3, 0, 2], 0), None);
    assert_eq!(unwrap_index(&[0], 0), None);
    assert_eq!(unwrap_index::<0>(&[], 0), Some([]));
    assert_eq!(unwrap_index::<0>(&[], 1), None);
}

#[test]
fn cell_count_is_the_product_of_the_sides() {
    assert_eq!(checked_cell_count(&[3, 4, 5]), Some(60));
    assert_eq!(checked_cell_count(&[5, 5, 5, 5, 5]), Some(3125));
    assert_eq!(checked_cell_count(&[255]), Some(255));
    assert_eq!(checked_cell_count(&[7, 0, 9]), Some(0));
    assert_eq!(checked_cell_count::<0>(&[]), Some(1));
    assert_eq!(checked_cell_count(&[255; 9]), None);
    assert_eq!(checked_cell_count(&[255, 255, 255, 255, 255, 255, 255, 255, 255, 0]), Some(0));
}

#[test]
fn grid_without_cells_gives_an_empty_maze() {
    let maze = Maze::new(&[0, 3], &mut StdRng::seed_from_u64(1));
    assert_eq!(maze.lengths(), &[0, 3]);
    assert_eq!(maze.can_move(&[0, 0], 0), None);
    assert_eq!(maze.can_move(&[0, 0], 1), None);
    let none: [u32; 0] = [];
    let listed = Maze::from_priorities(&[2, 0], &none);
    assert_eq!(listed.can_move(&[0, 0], 0), None);
}

#[test]
fn default_maze_is_one_cell() {
    let maze: Maze<3> = Maze::default();
    assert_eq!(maze.lengths(), &[1, 1, 1]);
    for dim in 0..4 {
        assert_eq!(maze.can_move(&[0, 0, 0], dim), None);
    }
    assert_eq!(maze.check_pair(&[0, 0, 0], &[0, 0, 0]), Some(false));
}

#[test]
fn lengths_are_kept() {
    let maze = Maze::new(&[4, 15, 5], &mut StdRng::seed_from_u64(123456789));
    assert_eq!(maze.lengths(), &[4, 15, 5]);
}

#[test]
fn root_of_second_hangs_under_root_of_first() {
    let mut cells = MazeGenForest::new(5);
    for cell in 0..5 {
        assert_eq!(cells.get_root(cell), cell);
    }
    assert!(cells.try_merge(3, 4));
    assert_eq!(cells.get_root(4), 3);
    assert!(cells.try_merge(1, 4));
    assert_eq!(cells.get_root(4), 1);
    assert_eq!(cells.get_root(3), 1);
    assert_eq!(cells.get_root(1), 1);
    assert!(!cells.try_merge(3, 1));
    assert_eq!(cells.get_root(0), 0);
    assert_eq!(cells.get_root(2), 2);
    assert!(cells.try_merge(2, 0));
    assert!(cells.try_merge(0, 3));
    for cell in 0..5 {
        assert_eq!(cells.get_root(cell), 2);
    }
    assert!(!cells.try_merge(4, 2));
}

#[test]
fn merging_a_cell_with_itself_changes_nothing() {
    let mut cells = MazeGenForest::new(2);
    assert!(!cells.try_merge(1, 1));
    assert_eq!(cells.get_root(1), 1);
    assert!(cells.try_merge(1, 0));
    assert_eq!(cells.get_root(0), 1);
}

fn candidate(priority: u32, cell: usize, dim: usize) -> Candidate {
    Candidate { priority, cell, dim }
}

#[test]
fn queue_gives_greatest_first() {
    let mut queue = CandidateQueue::with_capacity(4);
    assert_eq!(queue.len(), 0);
    assert!(queue.pop().is_none());
    let items = [
        candidate(3, 0, 0),
        candidate(9, 1, 0),
        candidate(3, 2, 1),
        candidate(3, 2, 0),
        candidate(0, 7, 7),
        candidate(9, 0, 5),
        candidate(4, 0, 0),
    ];
    for item in items {
        queue.push(item);
    }
    assert_eq!(queue.len(), 7);
    let mut order = Vec::new();
    while let Some(next) = queue.pop() {
        order.push((next.priority, next.cell, next.dim));
    }
    assert_eq!(
        order,
        vec![(9, 1, 0), (9, 0, 5), (4, 0, 0), (3, 2, 1), (3, 2, 0), (3, 0, 0), (0, 7, 7)]
    );
    assert_eq!(queue.len(), 0);
}

#[test]
fn queue_sorts_many_candidates() {
    let mut queue = CandidateQueue::with_capacity(0);
    let mut expected = Vec::new();
    let mut state: u32 = 12345;
    for cell in 0..500 {
        state = state.wrapping_mul(1103515245).wrapping_add(12345);
        let priority = (state >> 16) % 50;
        queue.push(candidate(priority, cell, cell % 3));
        expected.push((priority, cell, cell % 3));
    }
    expected.sort();
    expected.reverse();
    let mut order = Vec::new();
    while let Some(next) = queue.pop() {
        order.push((next.priority, next.cell, next.dim));
    }
    assert_eq!(order, expected);
}

#[test]
fn candidates_compare_by_priority_cell_dimension() {
    assert!(comes_first(&candidate(2, 0, 0), &candidate(1, 9, 9)));
    assert!(!comes_first(&candidate(1, 9, 9), &candidate(2, 0, 0)));
    assert!(comes_first(&candidate(1, 3, 0), &candidate(1, 2, 9)));
    assert!(!comes_first(&candidate(1, 2, 9), &candidate(1, 3, 0)));
    assert!(comes_first(&candidate(1, 2, 4), &candidate(1, 2, 3)));
    assert!(!comes_first(&candidate(1, 2, 3), &candidate(1, 2, 4)));
    assert!(comes_first(&candidate(1, 2, 3), &candidate(1, 2, 3)));
}

#[test]
fn grid_without_dimensions_is_one_cell() {
    let maze: Maze<0> = Maze::new(&[], &mut StdRng::seed_from_u64(3));
    assert_eq!(maze.lengths(), &[]);
    assert_eq!(maze.can_move(&[], 0), None);
    assert_eq!(maze.check_pair(&[], &[]), Some(false));
}

#[test]
fn drawn_priorities_decide_the_maze() {
    // The draws of one generator, handed over as priorities, give the maze
    // that the generator gives.
    let lengths = [3, 4, 2];
    let mut rng = StdRng::seed_from_u64(2024);
    let priorities: Vec<u32> = (0..72).map(|_| rng.next_u32()).collect();
    let listed = Maze::from_priorities(&lengths, &priorities);
    let drawn = Maze::new(&lengths, &mut StdRng::seed_from_u64(2024));
    assert_eq!(open_steps(&listed), open_steps(&drawn));
    assert_eq!(open_steps(&listed).len(), 23);
}
