use mb_goban::{Board, Error, IllegalMove, Rules, Stone};

fn snapshot(board: &Board) -> Vec<Stone> {
    let (w, h) = board.size();
    let mut stones = Vec::new();
    for y in 0..h {
        for x in 0..w {
            stones.push(board.get(x, y).unwrap());
        }
    }
    stones
}

const LOOSE: Rules = Rules {
    suicide_allowed: true,
    superko: false,
};

#[test]
fn empty_board_is_empty() {
    let board = Board::empty(5, 7);
    assert_eq!(board.size(), (5, 7));
    assert!(snapshot(&board).iter().all(|s| *s == Stone::Empty));
    assert_eq!(snapshot(&board).len(), 35);
}

#[test]
fn default_board_is_nineteen() {
    let board = Board::default();
    assert_eq!(board.size(), (19, 19));
    assert_eq!(board.get(18, 18), Ok(Stone::Empty));
}

#[test]
fn opponent_flips_colours() {
    assert_eq!(!Stone::Black, Stone::White);
    assert_eq!(!Stone::White, Stone::Black);
    assert_eq!(!Stone::Empty, Stone::Empty);
    assert_eq!(Stone::Black.opponent(), Stone::White);
}

#[test]
fn japanese_preset() {
    let rules = Rules::japanese();
    assert!(!rules.suicide_allowed);
    assert!(rules.superko);
}

#[test]
fn get_out_of_bounds() {
    let board = Board::empty(9, 13);
    assert_eq!(board.get(9, 0), Err(Error::CoordinatesOutOfBounds));
    assert_eq!(board.get(0, 13), Err(Error::CoordinatesOutOfBounds));
    assert_eq!(board.get(8, 12), Ok(Stone::Empty));
    assert_eq!(board.index(8, 12), Ok(12 * 9 + 8));
}

#[test]
fn play_out_of_bounds_leaves_board() {
    let mut board = Board::empty(9, 9);
    board.play(1, 1, Stone::Black, &Rules::japanese()).unwrap();
    let before = snapshot(&board);
    assert_eq!(
        board.play(9, 3, Stone::White, &Rules::japanese()),
        Err(Error::CoordinatesOutOfBounds)
    );
    assert_eq!(
        board.play(3, usize::MAX, Stone::White, &Rules::japanese()),
        Err(Error::CoordinatesOutOfBounds)
    );
    assert_eq!(snapshot(&board), before);
}

#[test]
fn occupied_point_leaves_board() {
    let mut board = Board::empty(9, 9);
    board.play(2, 2, Stone::Black, &Rules::japanese()).unwrap();
    let before = snapshot(&board);
    assert_eq!(
        board.play(2, 2, Stone::White, &Rules::japanese()),
        Err(Error::IllegalMove(IllegalMove::NonEmptySpace))
    );
    assert_eq!(snapshot(&board), before);
    assert_eq!(board.get(2, 2), Ok(Stone::Black));
}

#[test]
fn suicide_refused_then_allowed() {
    let mut board = Board::empty(9, 9);
    board.play(1, 0, Stone::Black, &Rules::japanese()).unwrap();
    board.play(0, 1, Stone::Black, &Rules::japanese()).unwrap();
    let before = snapshot(&board);

    assert_eq!(
        board.play(0, 0, Stone::White, &Rules::japanese()),
        Err(Error::IllegalMove(IllegalMove::SuicidalMove))
    );
    assert_eq!(snapshot(&board), before);

    board.play(0, 0, Stone::White, &LOOSE).unwrap();
    assert_eq!(board.get(0, 0), Ok(Stone::White));
    let group = board.get_group(0, 0).unwrap();
    assert!(group.liberties.is_empty());
}

#[test]
fn capture_makes_suicide_legal() {
    let mut board = Board::empty(5, 5);
    let rules = Rules::japanese();
    // White stone in the corner, held by black at (1,0); black at (0,2) and (1,1) surround (0,1).
    board.play(0, 0, Stone::White, &rules).unwrap();
    board.play(1, 0, Stone::Black, &rules).unwrap();
    board.play(1, 1, Stone::Black, &rules).unwrap();
    board.play(0, 2, Stone::Black, &rules).unwrap();
    // Black at (0,1) has no liberty of its own but takes the white stone.
    board.play(0, 1, Stone::Black, &rules).unwrap();
    assert_eq!(board.get(0, 0), Ok(Stone::Empty));
    assert_eq!(board.get(0, 1), Ok(Stone::Black));
}

#[test]
fn two_groups_captured_at_once() {
    let mut board = Board::empty(5, 5);
    let rules = Rules::japanese();
    // Two separate white stones at (0,1) and (2,1) whose last shared liberty is (1,1).
    board.play(0, 1, Stone::White, &rules).unwrap();
    board.play(2, 1, Stone::White, &rules).unwrap();
    board.play(0, 0, Stone::Black, &rules).unwrap();
    board.play(0, 2, Stone::Black, &rules).unwrap();
    board.play(2, 0, Stone::Black, &rules).unwrap();
    board.play(2, 2, Stone::Black, &rules).unwrap();
    board.play(3, 1, Stone::Black, &rules).unwrap();
    let before = snapshot(&board);
    board.play(1, 1, Stone::Black, &rules).unwrap();
    assert_eq!(board.get(0, 1), Ok(Stone::Empty));
    assert_eq!(board.get(2, 1), Ok(Stone::Empty));
    assert_eq!(board.get(1, 1), Ok(Stone::Black));
    let after = snapshot(&board);
    let changed: Vec<usize> = (0..25).filter(|i| before[*i] != after[*i]).collect();
    assert_eq!(changed, vec![5, 6, 7]);
}

#[test]
fn ko_without_superko() {
    let mut board = Board::empty(9, 9);

    board.play(4, 2, Stone::Black, &LOOSE).unwrap();
    board.play(3, 3, Stone::Black, &LOOSE).unwrap();
    board.play(5, 3, Stone::Black, &LOOSE).unwrap();
    board.play(3, 4, Stone::White, &LOOSE).unwrap();
    board.play(4, 5, Stone::White, &LOOSE).unwrap();
    board.play(5, 4, Stone::White, &LOOSE).unwrap();
    board.play(4, 3, Stone::White, &LOOSE).unwrap();
    board.play(4, 4, Stone::Black, &LOOSE).unwrap();
    assert_eq!(board.get(4, 3), Ok(Stone::Empty));

    let before = snapshot(&board);
    assert_eq!(
        board.play(4, 3, Stone::White, &LOOSE),
        Err(Error::IllegalMove(IllegalMove::Ko))
    );
    assert_eq!(snapshot(&board), before);
}

#[test]
fn superko_refuses_repeated_position() {
    let strict = Rules {
        suicide_allowed: true,
        superko: true,
    };
    let mut board = Board::empty(5, 5);
    board.play(2, 2, Stone::Black, &strict).unwrap();
    // Placing nothing recreates the position just played.
    assert_eq!(
        board.play(0, 0, Stone::Empty, &strict),
        Err(Error::IllegalMove(IllegalMove::SuperKo))
    );
    board.play(0, 0, Stone::Empty, &LOOSE).unwrap();
    assert_eq!(board.get(2, 2), Ok(Stone::Black));
}

#[test]
fn group_lists_liberties_and_enemies() {
    let mut board = Board::empty(5, 5);
    let rules = Rules::japanese();
    board.play(0, 0, Stone::Black, &rules).unwrap();
    board.play(1, 0, Stone::Black, &rules).unwrap();
    board.play(0, 1, Stone::White, &rules).unwrap();
    let group = board.get_group(1, 0).unwrap();
    assert_eq!(group.color, Stone::Black);
    assert_eq!(group.points.len(), 2);
    let mut liberties = group.liberties.clone();
    liberties.sort();
    assert_eq!(liberties, vec![(1, 1), (2, 0)]);
    assert_eq!(group.enemy_neighbors, vec![(0, 1)]);
    assert!(group.categorized((0, 1)));
    assert!(group.categorized((2, 0)));
    assert!(!group.categorized((4, 4)));
    assert_eq!(board.get_group(5, 0).err(), Some(Error::CoordinatesOutOfBounds));
}

#[test]
fn star_points_by_size() {
    let mut big = Board::empty(19, 19).star_points();
    big.sort();
    assert_eq!(
        big,
        vec![
            (3, 3),
            (3, 9),
            (3, 15),
            (9, 3),
            (9, 9),
            (9, 15),
            (15, 3),
            (15, 9),
            (15, 15)
        ]
    );
    assert_eq!(
        Board::empty(9, 9).star_points(),
        vec![(4, 4), (2, 2), (2, 6), (6, 2), (6, 6)]
    );
    assert_eq!(Board::empty(5, 5).star_points(), vec![(2, 2)]);
    assert_eq!(Board::empty(8, 8).star_points(), Vec::new());
    assert_eq!(
        Board::empty(13, 13).star_points(),
        vec![(6, 6), (3, 3), (3, 9), (9, 3), (9, 9)]
    );
}

#[test]
fn group_same_from_any_member() {
    let mut board = Board::empty(9, 9);
    let rules = Rules::japanese();
    for p in [(2, 2), (3, 2), (3, 3), (3, 4), (4, 4)] {
        board.play(p.0, p.1, Stone::White, &rules).unwrap();
    }
    board.play(2, 3, Stone::Black, &rules).unwrap();

    let sorted = |mut v: Vec<(usize, usize)>| {
        v.sort();
        v
    };
    let from_corner = board.get_group(2, 2).unwrap();
    let from_tail = board.get_group(4, 4).unwrap();
    assert_eq!(from_corner.color, from_tail.color);
    assert_eq!(sorted(from_corner.points.clone()), sorted(from_tail.points.clone()));
    assert_eq!(
        sorted(from_corner.liberties.clone()),
        sorted(from_tail.liberties.clone())
    );
    assert_eq!(from_corner.enemy_neighbors, vec![(2, 3)]);
    assert_eq!(from_tail.enemy_neighbors, vec![(2, 3)]);
    assert_eq!(from_corner.points.len(), 5);
    assert_eq!(from_corner.liberties.len(), 9);
}

#[test]
fn zero_sized_board_has_no_points() {
    let mut board = Board::empty(0, 0);
    assert_eq!(board.size(), (0, 0));
    assert_eq!(board.get(0, 0), Err(Error::CoordinatesOutOfBounds));
    assert_eq!(
        board.play(0, 0, Stone::Black, &Rules::japanese()),
        Err(Error::CoordinatesOutOfBounds)
    );
    assert_eq!(board.star_points(), Vec::new());
}
