use std::collections::HashSet;

use mb_goban::{Board, Error, IllegalMove, Result, Rules, Stone};

fn as_set(points: &[(usize, usize)]) -> HashSet<(usize, usize)> {
    points.iter().copied().collect()
}

fn snapshot(board: &Board) -> Vec<Stone> {
    let (w, h) = board.size();
    let mut stones = Vec::new();
    for y in 0..h {
        for x in 0..w {
            stones.push(board.get(x, y).unwrap());
        }
    }
    stones
}

#[test]
fn correct_index() {
    let board = Board::empty(9, 9);

    assert_eq!(board.index(0, 0).unwrap(), 0);
    assert_eq!(board.index(4, 4).unwrap(), 40);
    assert_eq!(board.index(8, 8).unwrap(), 80);
}

#[test]
fn wrong_index() {
    let board = Board::empty(9, 9);

    assert_eq!(board.index(9, 0), Err(Error::CoordinatesOutOfBounds));
    assert_eq!(board.index(9, 9), Err(Error::CoordinatesOutOfBounds));
    assert_eq!(board.index(0, 9), Err(Error::CoordinatesOutOfBounds));
}

#[test]
fn non_empty_space() {
    let mut board = Board::empty(9, 9);
    let rules = Rules::japanese();

    board
        .play(0, 0, Stone::White, &rules)
        .expect("failed to play!");

    assert_eq!(
        board.play(0, 0, Stone::White, &rules),
        Err(Error::IllegalMove(IllegalMove::NonEmptySpace))
    );
}

#[test]
fn center_group() {
    let mut board = Board::empty(9, 9);

    let mut points_in_group: HashSet<(usize, usize)> = HashSet::new();
    points_in_group.insert((3, 2));
    points_in_group.insert((4, 2));
    points_in_group.insert((4, 3));
    points_in_group.insert((4, 4));
    points_in_group.insert((5, 4));
    points_in_group.insert((5, 5));

    let rules = Rules::japanese();

    for p in &points_in_group {
        board
            .play(p.0, p.1, Stone::Black, &rules)
            .expect("Failed to play");
    }

    let group = board.get_group(3, 2).expect("Failed to create group");

    assert_eq!(as_set(&group.points), points_in_group);
}

#[test]
fn left_group() {
    let mut board = Board::empty(9, 9);

    let mut points_in_group: HashSet<(usize, usize)> = HashSet::new();
    points_in_group.insert((0, 4));
    points_in_group.insert((0, 5));
    points_in_group.insert((1, 4));
    points_in_group.insert((1, 5));
    points_in_group.insert((2, 3));
    points_in_group.insert((2, 4));
    points_in_group.insert((3, 3));
    points_in_group.insert((3, 4));

    let rules = Rules::japanese();

    for p in &points_in_group {
        board
            .play(p.0, p.1, Stone::Black, &rules)
            .expect("Failed to play");
    }

    let group = board.get_group(0, 4).expect("Failed to create group");

    assert_eq!(as_set(&group.points), points_in_group);
}

#[test]
fn right_group() {
    let mut board = Board::empty(9, 9);

    let mut points_in_group: HashSet<(usize, usize)> = HashSet::new();
    points_in_group.insert((8, 4));
    points_in_group.insert((8, 5));
    points_in_group.insert((8, 6));
    points_in_group.insert((7, 3));
    points_in_group.insert((7, 4));
    points_in_group.insert((7, 6));
    points_in_group.insert((6, 4));
    points_in_group.insert((6, 6));
    points_in_group.insert((5, 6));
    points_in_group.insert((4, 6));
    points_in_group.insert((4, 5));
    points_in_group.insert((3, 6));
    points_in_group.insert((3, 5));

    let rules = Rules::japanese();

    for p in &points_in_group {
        board
            .play(p.0, p.1, Stone::Black, &rules)
            .expect("Failed to play");
    }

    let group = board.get_group(8, 4).expect("Failed to create group");

    assert_eq!(as_set(&group.points), points_in_group);
}

#[test]
fn round_group() {
    let mut board = Board::empty(9, 9);

    let mut points_in_group: HashSet<(usize, usize)> = HashSet::new();
    for i in 0..9 {
        points_in_group.insert((0, i));
        points_in_group.insert((8, i));
        points_in_group.insert((i, 0));
        points_in_group.insert((i, 8));
    }

    let rules = Rules::japanese();

    for p in &points_in_group {
        board
            .play(p.0, p.1, Stone::Black, &rules)
            .expect("Failed to play");
    }

    let group = board.get_group(0, 0).expect("Failed to create group");

    assert_eq!(as_set(&group.points), points_in_group);
}

#[test]
fn group_neighbors() {
    let mut board = Board::empty(9, 9);

    let mut black: HashSet<(usize, usize)> = HashSet::new();
    let mut white: HashSet<(usize, usize)> = HashSet::new();

    black.insert((3, 3));
    black.insert((3, 4));
    black.insert((3, 5));

    white.insert((2, 3));
    white.insert((2, 4));
    white.insert((2, 5));

    let rules = Rules::japanese();

    for p in &black {
        board
            .play(p.0, p.1, Stone::Black, &rules)
            .expect("Failed to play");
    }

    for p in &white {
        board
            .play(p.0, p.1, Stone::White, &rules)
            .expect("Failed to play");
    }

    let black_group = board.get_group(3, 3).expect("Failed to create group");
    let white_group = board.get_group(2, 3).expect("Failed to create group");

    assert_eq!(black, as_set(&black_group.points));
    assert_eq!(white, as_set(&white_group.points));

    assert_eq!(black, as_set(&white_group.enemy_neighbors));
    assert_eq!(white, as_set(&black_group.enemy_neighbors));
}

#[test]
fn single_stone_group() {
    let mut board = Board::empty(9, 9);

    board
        .play(5, 5, Stone::Black, &Rules::japanese())
        .expect("failed to play");

    let mut intended = HashSet::new();
    intended.insert((5, 5));

    let group = board.get_group(5, 5).unwrap();

    assert_eq!(as_set(&group.points), intended);
}

#[test]
fn kill_group_center() -> Result<()> {
    let mut board = Board::empty(9, 9);
    let rules = Rules::japanese();

    board.play(3, 4, Stone::White, &rules)?;
    board.play(4, 4, Stone::White, &rules)?;
    board.play(4, 3, Stone::White, &rules)?;
    board.play(5, 3, Stone::White, &rules)?;

    board.play(2, 4, Stone::Black, &rules)?;
    board.play(3, 3, Stone::Black, &rules)?;
    board.play(3, 5, Stone::Black, &rules)?;
    board.play(4, 2, Stone::Black, &rules)?;
    board.play(4, 5, Stone::Black, &rules)?;
    board.play(5, 2, Stone::Black, &rules)?;
    board.play(5, 4, Stone::Black, &rules)?;
    board.play(6, 3, Stone::Black, &rules)?;

    assert_eq!(board.get(3, 4)?, Stone::Empty);
    assert_eq!(board.get(4, 4)?, Stone::Empty);
    assert_eq!(board.get(4, 3)?, Stone::Empty);
    assert_eq!(board.get(5, 3)?, Stone::Empty);

    Ok(())
}

#[test]
fn single_ko() -> Result<()> {
    let mut board = Board::empty(9, 9);
    let rules = Rules::japanese();

    board.play(4, 2, Stone::Black, &rules)?;
    board.play(3, 3, Stone::Black, &rules)?;
    board.play(5, 3, Stone::Black, &rules)?;

    board.play(3, 4, Stone::White, &rules)?;
    board.play(4, 5, Stone::White, &rules)?;
    board.play(5, 4, Stone::White, &rules)?;
    board.play(4, 3, Stone::White, &rules)?;

    // Capture the white stone, creating the ko
    board.play(4, 4, Stone::Black, &rules)?;

    assert_eq!(
        board.play(4, 3, Stone::White, &rules),
        Err(Error::IllegalMove(IllegalMove::Ko))
    );

    Ok(())
}
