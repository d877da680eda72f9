use maze::Direction;
use maze::GridBuffer;
use maze::MazeConfig;
use maze::Player;
use maze::display;
use maze::start_end_generator;
use rand::SeedableRng;
use rand::rngs::StdRng;

/// One line per row, `.` for the zero tag and `#` for any other tag.
fn render(buffer: &GridBuffer) -> String {
    let mut out = String::new();
    for y in 0..buffer.height() {
        for x in 0..buffer.width() {
            let cell = buffer.get(x as isize, y as isize).unwrap();
            out.push(if cell == 0 { '.' } else { '#' });
        }
        out.push('\n');
    }
    out
}

/// Strip the indentation of an expected layout written inline.
fn dedent(s: &str) -> String {
    let mut out = String::new();
    for line in s.lines() {
        let t = line.trim();
        if !t.is_empty() {
            out.push_str(t);
            out.push('\n');
        }
    }
    out
}

#[test]
fn test_generate_maze() {
    let mut buffer: GridBuffer = GridBuffer::new(6, 6);
    let mut rng = StdRng::seed_from_u64(38);
    MazeConfig::default().generate(&mut buffer, &mut rng);

    assert_eq!(
        render(&buffer),
        dedent(
            "
        #.....
        #.#.##
        #.#...
        #####.
        #.....
        ####.#
        "
        )
    );
}

#[test]
fn generate_start_and_end() {
    let mut buffer: GridBuffer = GridBuffer::new(3, 3);
    let mut rng = StdRng::seed_from_u64(38);
    let mut player = Player::new(
        (0, 0),
        (0, 0),
        Direction::Still,
        (0, 0),
        MazeConfig::default(),
        false,
    );
    start_end_generator(&mut buffer, &mut rng, &mut player);

    assert_eq!(
        render(&buffer),
        dedent(
            "
        #..
        ...
        ..#
        "
        )
    );
}

#[test]
fn direction_check() {
    let mut buffer: GridBuffer = GridBuffer::new(5, 5);
    let mut rng = StdRng::seed_from_u64(38);
    let mut player = Player::new(
        (0, 0),
        (0, 0),
        Direction::Still,
        (0, 0),
        MazeConfig::default(),
        false,
    );
    start_end_generator(&mut buffer, &mut rng, &mut player);

    assert_eq!(
        render(&buffer),
        dedent(
            "
        .....
        #....
        .....
        ....#
        .....
        "
        )
    );

    player.direction = Direction::North;
    player.direction(&buffer);
    display(&player, &mut buffer);

    assert_eq!(
        render(&buffer),
        dedent(
            "
        #....
        .....
        .....
        ....#
        .....
        "
        )
    );

    player.direction = Direction::North;
    player.direction(&buffer);
    display(&player, &mut buffer);

    assert_eq!(
        render(&buffer),
        dedent(
            "
        #....
        .....
        .....
        ....#
        .....
        "
        )
    );

    player.direction = Direction::East;
    player.direction(&buffer);
    display(&player, &mut buffer);

    assert_eq!(
        render(&buffer),
        dedent(
            "
        .#...
        .....
        .....
        ....#
        .....
        "
        )
    );

    player.direction = Direction::East;
    player.direction(&buffer);
    display(&player, &mut buffer);

    assert_eq!(
        render(&buffer),
        dedent(
            "
        ..#..
        .....
        .....
        ....#
        .....
        "
        )
    );

    player.direction = Direction::South;
    player.direction(&buffer);
    display(&player, &mut buffer);

    assert_eq!(
        render(&buffer),
        dedent(
            "
        .....
        ..#..
        .....
        ....#
        .....
        "
        )
    );

    player.direction = Direction::South;
    player.direction(&buffer);
    display(&player, &mut buffer);

    assert_eq!(
        render(&buffer),
        dedent(
            "
        .....
        .....
        ..#..
        ....#
        .....
        "
        )
    );

    player.direction = Direction::West;
    player.direction(&buffer);
    display(&player, &mut buffer);

    assert_eq!(
        render(&buffer),
        dedent(
            "
        .....
        .....
        .#...
        ....#
        .....
        "
        )
    );

    player.direction = Direction::West;
    player.direction(&buffer);
    display(&player, &mut buffer);

    assert_eq!(
        render(&buffer),
        dedent(
            "
        .....
        .....
        #....
        ....#
        .....
        "
        )
    );
}
