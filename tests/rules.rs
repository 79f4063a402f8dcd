use neutreeko::logic::{board_from_cells, Board, Color, Direction, Pawn, Position};

fn pawn(color: Color, row: usize, column: usize) -> Pawn {
    Pawn::new(color, Position { row, column })
}

fn board(pawns: Vec<Pawn>, next: Option<Color>) -> Board {
    Board::new(5, 5, pawns, next)
}

#[test]
fn other_color_swaps() {
    assert_eq!(Color::Green.other_color(), Color::Yellow);
    assert_eq!(Color::Yellow.other_color(), Color::Green);
}

#[test]
fn opening_has_moves_and_no_immediate_win() {
    let b = Board::default_new();
    let moves = b.get_all_valid_directions_and_resulting_boards();
    assert!(!moves.is_empty());
    for (i, m) in moves.iter().enumerate() {
        assert_eq!(b.pawns[m.0].color, Color::Green);
        assert!(m.2.winner().is_none());
        assert_eq!(m.2.next_player, Some(Color::Yellow));
        for other in moves.iter().skip(i + 1) {
            assert!(!(other.0 == m.0 && other.1 == m.1));
            assert!(other.2 != m.2);
        }
    }
}

#[test]
fn opening_position_is_exact() {
    let b = Board::default_new();
    assert_eq!(b.number_of_rows, 5);
    assert_eq!(b.number_of_columns, 5);
    assert_eq!(b.next_player, Some(Color::Green));
    assert_eq!(b.pawns[0], pawn(Color::Green, 0, 1));
    assert_eq!(b.pawns[1], pawn(Color::Green, 0, 3));
    assert_eq!(b.pawns[2], pawn(Color::Green, 3, 2));
    assert_eq!(b.pawns[3], pawn(Color::Yellow, 1, 2));
    assert_eq!(b.pawns[4], pawn(Color::Yellow, 4, 1));
    assert_eq!(b.pawns[5], pawn(Color::Yellow, 4, 3));
}

#[test]
fn opening_move_count() {
    let b = Board::default_new();
    let moves = b.get_all_valid_directions_and_resulting_boards();
    let count_for = |p: usize| moves.iter().filter(|m| m.0 == p).count();
    assert_eq!(count_for(0) + count_for(1) + count_for(2), moves.len());
    assert_eq!(b.get_valid_directions(0).len(), count_for(0));
    assert_eq!(b.get_valid_directions(3).len(), 0);
}

#[test]
fn completing_a_row_wins() {
    let mut b = board(
        vec![
            pawn(Color::Green, 0, 0),
            pawn(Color::Green, 0, 1),
            pawn(Color::Green, 4, 2),
            pawn(Color::Yellow, 4, 0),
            pawn(Color::Yellow, 4, 4),
            pawn(Color::Yellow, 2, 4),
        ],
        Some(Color::Green),
    );
    assert!(b.winner().is_none());
    assert!(b.move_pawn_until_blocked(2, &Direction::Up));
    assert_eq!(b.pawns[2].position, Position { row: 0, column: 2 });
    assert_eq!(b.winner(), Some(Color::Green));
    assert_eq!(b.next_player, None);
    let mut again = b.clone();
    assert!(!again.move_pawn_until_blocked(0, &Direction::Down));
    assert!(again == b);
    assert!(b.get_all_valid_directions_and_resulting_boards().is_empty());
}

#[test]
fn slide_goes_until_blocked() {
    let mut b = board(
        vec![
            pawn(Color::Green, 4, 0),
            pawn(Color::Green, 2, 2),
            pawn(Color::Green, 0, 4),
            pawn(Color::Yellow, 1, 0),
            pawn(Color::Yellow, 3, 3),
            pawn(Color::Yellow, 3, 4),
        ],
        Some(Color::Green),
    );
    assert!(b.move_pawn_until_blocked(0, &Direction::Up));
    assert_eq!(b.pawns[0].position, Position { row: 2, column: 0 });
    assert_eq!(b.next_player, Some(Color::Yellow));
    // The same pawn cannot go further up: the cell ahead is taken.
    b.next_player = Some(Color::Green);
    assert!(!b.move_pawn_until_blocked(0, &Direction::Up));
    assert_eq!(b.pawns[0].position, Position { row: 2, column: 0 });
}

#[test]
fn slide_to_the_edge() {
    let mut b = Board::default_new();
    assert!(b.move_pawn_until_blocked(2, &Direction::Right));
    assert_eq!(b.pawns[2].position, Position { row: 3, column: 4 });
    assert_eq!(b.next_player, Some(Color::Yellow));
}

#[test]
fn wrong_turn_or_blocked_move_changes_nothing() {
    let b = Board::default_new();
    let mut c = b.clone();
    assert!(!c.move_pawn_until_blocked(3, &Direction::Up));
    assert!(c == b);
    let mut d = b.clone();
    assert!(!d.move_pawn_until_blocked(0, &Direction::Up));
    assert!(d == b);
}

#[test]
fn validity_checks_bounds_and_overlaps() {
    let good = Board::default_new();
    assert!(good.is_valid());
    let mut out = good.clone();
    out.pawns[0].position = Position { row: 5, column: 0 };
    assert!(!out.is_valid());
    assert!(out.winner().is_none());
    let mut overlap = good.clone();
    overlap.pawns[1].position = Position { row: 0, column: 1 };
    assert!(!overlap.is_valid());
}

#[test]
fn alignments_in_every_shape() {
    let shapes: Vec<[(usize, usize); 3]> = vec![
        [(2, 1), (2, 2), (2, 3)],
        [(1, 4), (2, 4), (3, 4)],
        [(0, 0), (1, 1), (2, 2)],
        [(2, 2), (1, 3), (0, 4)],
        [(3, 3), (1, 1), (2, 2)],
    ];
    for s in shapes {
        let mut pawns: Vec<Pawn> = s.iter().map(|&(r, c)| pawn(Color::Yellow, r, c)).collect();
        pawns.push(pawn(Color::Green, 4, 0));
        pawns.push(pawn(Color::Green, 4, 2));
        pawns.push(pawn(Color::Green, 4, 4));
        let b = board(pawns, None);
        assert_eq!(b.winner(), Some(Color::Yellow));
    }
    let gap = board(
        vec![
            pawn(Color::Yellow, 2, 0),
            pawn(Color::Yellow, 2, 1),
            pawn(Color::Yellow, 2, 3),
            pawn(Color::Green, 4, 0),
            pawn(Color::Green, 4, 2),
            pawn(Color::Green, 4, 4),
        ],
        None,
    );
    assert_eq!(gap.winner(), None);
}

#[test]
fn winner_survives_reflection_and_reordering() {
    let base = vec![
        pawn(Color::Green, 0, 2),
        pawn(Color::Green, 1, 3),
        pawn(Color::Green, 2, 4),
        pawn(Color::Yellow, 4, 0),
        pawn(Color::Yellow, 4, 1),
        pawn(Color::Yellow, 3, 3),
    ];
    let reflect = |f: &dyn Fn(Position) -> Position| {
        board(base.iter().map(|p| Pawn::new(p.color, f(p.position))).collect(), None)
    };
    assert_eq!(board(base.clone(), None).winner(), Some(Color::Green));
    assert_eq!(reflect(&|p| Position { row: 4 - p.row, column: p.column }).winner(), Some(Color::Green));
    assert_eq!(reflect(&|p| Position { row: p.row, column: 4 - p.column }).winner(), Some(Color::Green));
    assert_eq!(reflect(&|p| Position { row: p.column, column: p.row }).winner(), Some(Color::Green));
    let mut shuffled = base.clone();
    shuffled.swap(0, 2);
    assert_eq!(board(shuffled, None).winner(), Some(Color::Green));
}

#[test]
fn direction_transforms() {
    assert_eq!(Direction::Up.flip(true, false), Direction::Down);
    assert_eq!(Direction::UpLeft.flip(true, true), Direction::DownRight);
    assert_eq!(Direction::Left.flip(false, true), Direction::Right);
    assert_eq!(Direction::Up.rotate_clockwise(1), Direction::Right);
    assert_eq!(Direction::Up.rotate_clockwise(-1), Direction::Left);
    assert_eq!(Direction::UpRight.rotate_clockwise(6), Direction::DownLeft);
    assert_eq!(Direction::Up.flip_diagonal(true, false), Direction::Left);
    assert_eq!(Direction::UpRight.flip_diagonal(false, true), Direction::UpRight);
    assert_eq!(Direction::Right.flip_diagonal(false, true), Direction::Up);
}

#[test]
fn content_hash_tells_boards_apart() {
    let a = Board::default_new();
    let mut b = a.clone();
    assert_eq!(a.get_hash(), b.get_hash());
    b.pawns.swap(0, 3);
    assert_ne!(a.get_hash(), b.get_hash());
    let mut c = a.clone();
    c.next_player = Some(Color::Yellow);
    assert_ne!(a.get_hash(), c.get_hash());
    assert_eq!(a.content_words().len(), 3 + 3 * 6);
}

#[test]
fn text_picture_of_the_opening() {
    let expected = ".  G0 .  G1 .  \n\
                    .  .  Y3 .  .  \n\
                    .  .  .  .  .  \n\
                    .  .  G2 .  .  \n\
                    .  Y4 .  Y5 .  \n\
                    Next player: Green\n";
    assert_eq!(Board::default_new().str_rep(), expected);
}

#[test]
fn text_picture_of_a_finished_game() {
    let mut b = board(
        vec![
            pawn(Color::Green, 0, 0),
            pawn(Color::Green, 0, 1),
            pawn(Color::Green, 4, 2),
            pawn(Color::Yellow, 4, 0),
            pawn(Color::Yellow, 4, 4),
            pawn(Color::Yellow, 2, 4),
        ],
        Some(Color::Green),
    );
    assert!(b.move_pawn_until_blocked(2, &Direction::Up));
    assert!(b.str_rep().ends_with("Game over\n"));
    assert!(b.str_rep().starts_with("G0 G1 G2 .  .  \n"));
}

#[test]
fn boards_from_cells() {
    let ok = board_from_cells(&vec![(0, 1), (0, 3), (3, 2), (1, 2), (4, 1), (4, 3)]).expect("valid");
    assert!(ok == Board::default_new());
    assert!(board_from_cells(&vec![(0, 1), (0, 1), (3, 2), (1, 2), (4, 1), (4, 3)]).is_none());
    assert!(board_from_cells(&vec![(0, 1), (0, 5), (3, 2), (1, 2), (4, 1), (4, 3)]).is_none());
    assert!(board_from_cells(&vec![(0, 0), (0, 1), (0, 2), (1, 2), (4, 1), (4, 3)]).is_none());
}
