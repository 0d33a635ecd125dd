use ndmaze::level::{steps_fit, DimensionLength, LoadLevel, MazeLevel, RngSource};

#[test]
fn default_request_is_two_by_two_from_a_fixed_seed() {
    let request = LoadLevel::default();
    assert!(matches!(request.rng_source, RngSource::Seeded(123456789)));
    assert!(matches!(request.dimensions, DimensionLength::Two([2, 2])));
}

#[test]
fn loaded_level_has_the_dimensions_asked_for() {
    let all = [
        DimensionLength::Two([3, 2]),
        DimensionLength::Three([4, 15, 5]),
        DimensionLength::Four([2, 3, 2, 3]),
        DimensionLength::Five([2, 2, 2, 2, 2]),
        DimensionLength::Six([2, 1, 2, 1, 2, 3]),
    ];
    for (at, dimensions) in all.into_iter().enumerate() {
        let request = LoadLevel { rng_source: RngSource::Seeded(7), dimensions };
        assert!(request.dimensions.can_load());
        let level = request.load();
        assert_eq!(level.lengths().len(), at + 2);
        match (&level, &request.dimensions) {
            (MazeLevel::Two(maze), DimensionLength::Two(lengths)) => {
                assert_eq!(maze.lengths(), lengths)
            }
            (MazeLevel::Three(maze), DimensionLength::Three(lengths)) => {
                assert_eq!(maze.lengths(), lengths)
            }
            (MazeLevel::Four(maze), DimensionLength::Four(lengths)) => {
                assert_eq!(maze.lengths(), lengths)
            }
            (MazeLevel::Five(maze), DimensionLength::Five(lengths)) => {
                assert_eq!(maze.lengths(), lengths)
            }
            (MazeLevel::Six(maze), DimensionLength::Six(lengths)) => {
                assert_eq!(maze.lengths(), lengths)
            }
            _ => panic!("the level has other dimensions than the request"),
        }
    }
}

#[test]
fn level_starts_at_the_origin_along_the_first_axis() {
    let level = LoadLevel::default().load();
    assert_eq!(level.pos(), vec![0, 0]);
    assert_eq!(level.axis(), 0);
    let request = LoadLevel {
        dimensions: DimensionLength::Five([2, 3, 4, 3, 2]),
        ..Default::default()
    };
    assert_eq!(request.load().pos(), vec![0, 0, 0, 0, 0]);
    assert_eq!(request.load().axis(), 0);
}

#[test]
fn level_answers_like_its_maze() {
    let request = LoadLevel {
        rng_source: RngSource::Seeded(99),
        dimensions: DimensionLength::Three([3, 2, 2]),
    };
    let level = request.load();
    let maze = match &level {
        MazeLevel::Three(maze) => maze,
        _ => panic!("the level has other dimensions than the request"),
    };
    let mut open = 0;
    for x in 0..4u8 {
        for y in 0..3u8 {
            for z in 0..3u8 {
                for dim in 0..4 {
                    let answer = level.can_move(&[x, y, z], dim);
                    assert_eq!(answer, maze.can_move(&[x, y, z], dim));
                    if answer == Some(true) {
                        open += 1;
                    }
                }
            }
        }
    }
    assert_eq!(open, 11);
    assert_eq!(level.can_move(&[0, 0], 0), None);
    assert_eq!(level.can_move(&[0, 0, 0, 0], 0), None);
    assert_eq!(level.can_move(&[], 0), None);
}

#[test]
fn same_request_gives_same_level() {
    let request = LoadLevel {
        rng_source: RngSource::Seeded(123456789),
        dimensions: DimensionLength::Two([6, 7]),
    };
    let first = request.load();
    let second = request.clone().load();
    for x in 0..6u8 {
        for y in 0..7u8 {
            for dim in 0..2 {
                assert_eq!(first.can_move(&[x, y], dim), second.can_move(&[x, y], dim));
            }
        }
    }
}

#[test]
fn small_grids_fit() {
    assert!(steps_fit(&[4, 15, 5]));
    assert!(steps_fit(&[255, 255]));
    assert!(steps_fit::<0>(&[]));
    assert!(steps_fit(&[0; 20]));
    assert!(DimensionLength::Six([3, 3, 3, 3, 3, 3]).can_load());
}

#[test]
fn grids_beyond_the_index_type_do_not_fit() {
    assert!(!steps_fit(&[255; 9]));
    assert!(!steps_fit(&[255; 20]));
    // 2^63 cells fit, twice as many steps do not.
    let mut lengths = [1u8; 63];
    for length in lengths.iter_mut() {
        *length = 2;
    }
    if usize::BITS == 64 {
        assert!(!steps_fit(&lengths));
    }
}
