use maze::Direction;
use maze::GridBuffer;
use maze::MazeConfig;
use maze::Player;
use maze::middle_point;
use maze::start_end_generator;
use rand::SeedableRng;
use rand::rngs::StdRng;

fn cells_of(buffer: &GridBuffer) -> Vec<u32> {
    let mut out = Vec::new();
    for y in 0..buffer.height() {
        for x in 0..buffer.width() {
            out.push(buffer.get(x as isize, y as isize).unwrap());
        }
    }
    out
}

/// Every path cell of a carved maze is reachable from the origin through
/// 4-directional moves over path cells.
#[test]
fn carve_connects_every_path_cell() {
    for seed in [0u64, 7, 38, 1234] {
        let mut buffer = GridBuffer::new(11, 7);
        let mut rng = StdRng::seed_from_u64(seed);
        let config = MazeConfig::default();
        let origin = config.carve(&mut buffer, &mut rng);

        let w = buffer.width();
        let h = buffer.height();
        let is_path = |x: usize, y: usize, buffer: &GridBuffer| {
            buffer.get(x as isize, y as isize) == Some(config.path_color)
        };
        assert!(is_path(origin.0, origin.1, &buffer));

        let mut seen = vec![false; w * h];
        let mut queue = vec![origin];
        seen[origin.1 * w + origin.0] = true;
        while let Some((x, y)) = queue.pop() {
            let mut neighbors = Vec::new();
            if x >= 1 {
                neighbors.push((x - 1, y));
            }
            if x + 1 < w {
                neighbors.push((x + 1, y));
            }
            if y >= 1 {
                neighbors.push((x, y - 1));
            }
            if y + 1 < h {
                neighbors.push((x, y + 1));
            }
            for (nx, ny) in neighbors {
                if !seen[ny * w + nx] && is_path(nx, ny, &buffer) {
                    seen[ny * w + nx] = true;
                    queue.push((nx, ny));
                }
            }
        }
        for y in 0..h {
            for x in 0..w {
                if is_path(x, y, &buffer) {
                    assert!(seen[y * w + x], "path cell ({x}, {y}) unreachable, seed {seed}");
                }
            }
        }
    }
}

/// Relaxation never turns a path cell into a wall: it only opens walls.
#[test]
fn relax_only_opens_walls() {
    let config = MazeConfig {
        path_color: 0,
        wall_color: u32::MAX,
        open_walls: 4,
    };
    let mut buffer = GridBuffer::new(9, 9);
    let mut rng = StdRng::seed_from_u64(5);
    config.carve(&mut buffer, &mut rng);
    let before = cells_of(&buffer);
    config.relax(&mut buffer, &mut rng);
    let after = cells_of(&buffer);
    assert_eq!(before.len(), after.len());
    let mut opened = 0;
    for (b, a) in before.iter().zip(after.iter()) {
        if a != b {
            assert_eq!(*b, config.wall_color);
            assert_eq!(*a, config.path_color);
            opened += 1;
        }
    }
    assert!(opened >= 1);
}

/// Relaxation opens at least `open_walls` walls unless it runs out of walls:
/// phase 1 prefers interesting ones and the flush phase makes up the rest.
#[test]
fn relax_meets_the_quota() {
    let config = MazeConfig {
        path_color: 0,
        wall_color: u32::MAX,
        open_walls: 10,
    };
    let mut buffer = GridBuffer::new(9, 9);
    let mut rng = StdRng::seed_from_u64(5);
    config.carve(&mut buffer, &mut rng);
    let walls = |buffer: &GridBuffer| {
        cells_of(buffer)
            .iter()
            .filter(|c| **c == config.wall_color)
            .count()
    };
    let before = walls(&buffer);
    config.relax(&mut buffer, &mut rng);
    let after = walls(&buffer);
    assert!(after == 0 || before - after >= config.open_walls);
}

/// A second relaxation pass over a grid with no wall cells left is a no-op.
#[test]
fn relax_without_walls_is_noop() {
    let config = MazeConfig {
        path_color: 0,
        wall_color: u32::MAX,
        open_walls: 2,
    };
    // A grid of nothing but path cells: nothing is left to open.
    let mut buffer = GridBuffer::new(6, 6);
    let mut rng = StdRng::seed_from_u64(9);
    let before = cells_of(&buffer);
    config.relax(&mut buffer, &mut rng);
    assert_eq!(cells_of(&buffer), before);
}

/// Exactly one start marker and one end marker exist after placement, each on
/// its border column with a path cell one column inward.
#[test]
fn placement_markers_unique() {
    let mut buffer = GridBuffer::new(9, 7);
    let mut rng = StdRng::seed_from_u64(11);
    let config = MazeConfig::default();
    config.generate(&mut buffer, &mut rng);
    let mut player = Player::new(
        (0, 0),
        (0, 0),
        Direction::Still,
        (0, 0),
        config,
        false,
    );
    let w = buffer.width();
    let start = start_end_generator(&mut buffer, &mut rng, &mut player);

    assert_eq!(start, player.position);
    assert_eq!(player.position.0, 0);
    assert_eq!(player.previous_spot, player.position);
    assert_eq!(player.end_point.0, w - 1);

    let mut start_markers = Vec::new();
    let mut end_markers = Vec::new();
    for y in 0..buffer.height() {
        for x in 0..w {
            let cell = buffer.get(x as isize, y as isize).unwrap();
            if cell == player.player_color {
                start_markers.push((x, y));
            }
            if cell == player.finish_color {
                end_markers.push((x, y));
            }
        }
    }
    assert_eq!(start_markers, vec![player.position]);
    assert_eq!(end_markers, vec![player.end_point]);
    // each marker has a path cell one column inward
    assert_eq!(
        buffer.get(1, player.position.1 as isize),
        Some(config.path_color)
    );
    assert_eq!(
        buffer.get((w - 2) as isize, player.end_point.1 as isize),
        Some(config.path_color)
    );
}

/// A move into a wall or off the grid leaves the position unchanged and
/// resets the intent to `Still`.
#[test]
fn blocked_moves_keep_position() {
    let config = MazeConfig::default();
    let mut buffer = GridBuffer::new(3, 3);
    // a wall to the east of the center
    buffer.set(2, 1, config.wall_color);
    let mut player = Player::new(
        (1, 1),
        (0, 2),
        Direction::Still,
        (1, 1),
        config,
        false,
    );

    player.direction = Direction::East;
    player.direction(&buffer);
    assert_eq!(player.position, (1, 1));
    assert_eq!(player.direction, Direction::Still);
    assert!(!player.game_over);

    // off-grid move from the border
    player.position = (0, 0);
    player.direction = Direction::North;
    player.direction(&buffer);
    assert_eq!(player.position, (0, 0));
    assert_eq!(player.direction, Direction::Still);

    player.direction = Direction::West;
    player.direction(&buffer);
    assert_eq!(player.position, (0, 0));
    assert_eq!(player.direction, Direction::Still);
}

/// Reaching the end point sets `game_over`, and a later reset keeps it set.
#[test]
fn reaching_the_end_is_permanent() {
    let config = MazeConfig::default();
    let buffer = GridBuffer::new(3, 3);
    let mut player = Player::new(
        (1, 1),
        (1, 0),
        Direction::Still,
        (1, 1),
        config,
        false,
    );
    player.direction = Direction::North;
    player.direction(&buffer);
    assert_eq!(player.position, (1, 0));
    assert!(player.game_over);

    player.reset((1, 2));
    assert_eq!(player.position, (1, 2));
    assert_eq!(player.direction, Direction::Still);
    assert!(player.game_over);
}

/// With a fixed seed and fixed dimensions the whole pipeline reproduces the
/// same grid, cell for cell.
#[test]
fn generation_is_deterministic() {
    let run = || {
        let mut buffer = GridBuffer::new(12, 10);
        let mut rng = StdRng::seed_from_u64(42);
        let config = MazeConfig {
            path_color: 0,
            wall_color: u32::MAX,
            open_walls: 3,
        };
        config.generate(&mut buffer, &mut rng);
        let mut player = Player::new(
            (0, 0),
            (0, 0),
            Direction::Still,
            (0, 0),
            config,
            false,
        );
        start_end_generator(&mut buffer, &mut rng, &mut player);
        (cells_of(&buffer), player)
    };
    let (cells1, player1) = run();
    let (cells2, player2) = run();
    assert_eq!(cells1, cells2);
    assert_eq!(player1, player2);
}

/// The door between two rooms is the arithmetic mean along the one axis where
/// they differ.
#[test]
fn middle_point_values() {
    assert_eq!(middle_point((0, 0), (2, 0)), (1, 0));
    assert_eq!(middle_point((4, 2), (2, 2)), (3, 2));
    assert_eq!(middle_point((1, 1), (1, 3)), (1, 2));
    assert_eq!(middle_point((1, 5), (1, 3)), (1, 4));
    assert_eq!(middle_point((3, 3), (3, 3)), (3, 3));
}

/// Generation works on the smallest allowed grid and leaves only the two
/// configured tags behind, with at least one path cell.
#[test]
fn generate_smallest_grid() {
    let mut buffer = GridBuffer::new(3, 3);
    let mut rng = StdRng::seed_from_u64(1);
    let config = MazeConfig {
        path_color: 0,
        wall_color: u32::MAX,
        open_walls: 1,
    };
    config.generate(&mut buffer, &mut rng);
    let mut path_cells = 0;
    for y in 0..3 {
        for x in 0..3 {
            let cell = buffer.get(x, y).unwrap();
            assert!(cell == config.path_color || cell == config.wall_color);
            if cell == config.path_color {
                path_cells += 1;
            }
        }
    }
    assert!(path_cells >= 1);
}

/// Reads outside the grid answer with absence, never a value.
#[test]
fn get_is_bounds_checked() {
    let buffer = GridBuffer::new(4, 2);
    assert_eq!(buffer.get(-1, 0), None);
    assert_eq!(buffer.get(0, -1), None);
    assert_eq!(buffer.get(4, 0), None);
    assert_eq!(buffer.get(0, 2), None);
    assert_eq!(buffer.get(3, 1), Some(0));
}

/// The last pressed arrow wins, a quit signal moves the player back to the
/// start, and none of it touches `game_over`.
#[test]
fn input_priority_and_reset() {
    let config = MazeConfig::default();
    let mut player = Player::new(
        (2, 2),
        (0, 0),
        Direction::Still,
        (2, 2),
        config,
        true,
    );
    player.apply_input(false, true, false, false, false, (0, 1));
    assert_eq!(player.direction, Direction::North);
    assert_eq!(player.position, (2, 2));

    player.apply_input(false, true, true, true, true, (0, 1));
    assert_eq!(player.direction, Direction::West);

    player.apply_input(true, false, false, false, false, (0, 1));
    assert_eq!(player.direction, Direction::Still);
    assert_eq!(player.position, (0, 1));
    assert!(player.game_over);
}
