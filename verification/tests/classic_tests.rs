use lion_solver::classic::board::Board;
use lion_solver::classic::moves::Move;
use lion_solver::classic::piece::{Color, Piece, PieceType};
use lion_solver::classic::structs::{GameError, GameResult};

#[test]
fn initial_setup_is_in_place() {
    let b = Board::init();
    assert_eq!(b.get(1, 0), Some(Piece::new(PieceType::Lion, Color::White)));
    assert_eq!(b.get(0, 0), Some(Piece::new(PieceType::Elephant, Color::White)));
    assert_eq!(b.get(2, 0), Some(Piece::new(PieceType::Giraffe, Color::White)));
    assert_eq!(b.get(1, 1), Some(Piece::new(PieceType::Chick, Color::White)));
    assert_eq!(b.get(1, 2), Some(Piece::new(PieceType::Chick, Color::Black)));
    assert_eq!(b.get(1, 3), Some(Piece::new(PieceType::Lion, Color::Black)));
    assert_eq!(b.get(2, 1), None);
    assert_eq!(b.get_turn(), Color::White);
    assert!(!b.is_game_over());
}

#[test]
fn put_and_del_update_cells() {
    let mut b = Board::new_empty();
    let p = Piece::new(PieceType::Giraffe, Color::Black);
    b.put(2, 1, &p);
    assert_eq!(b.get(2, 1), Some(p));
    b.del(2, 1);
    assert_eq!(b.get(2, 1), None);
}

#[test]
fn find_piece_reports_first_cell_or_error() {
    let b = Board::init();
    assert_eq!(b.find_piece_on_board(&Piece::new(PieceType::Chick, Color::White)), Ok((1, 1)));
    assert_eq!(
        b.find_piece_on_board(&Piece::new(PieceType::Hen, Color::White)),
        Err(GameError::PieceNotInBoard)
    );
}

#[test]
fn current_player_pieces_listed_in_cell_order() {
    let b = Board::init();
    let mine = b.get_curent_player_piece_list();
    assert_eq!(mine.len(), 4);
    assert_eq!(mine[0].piece_type, PieceType::Elephant);
    assert_eq!(mine[1].piece_type, PieceType::Lion);
    assert_eq!(mine[2].piece_type, PieceType::Giraffe);
    assert_eq!(mine[3].piece_type, PieceType::Chick);
    assert!(b.get_curent_player_cemetery().is_empty());
}

#[test]
fn legal_moves_of_initial_lion() {
    let b = Board::init();
    let lion = Piece::new(PieceType::Lion, Color::White);
    let legal = b.get_legal_move_list_for_piece(&lion).unwrap();
    // the king may step to the two free diagonal squares only
    assert_eq!(legal.len(), 2);
    assert!(legal.contains(&Move { x: -1, y: 1 }));
    assert!(legal.contains(&Move { x: 1, y: 1 }));
}

#[test]
fn move_piece_captures_and_flips_turn() {
    let mut b = Board::init();
    let mut chick = Piece::new(PieceType::Chick, Color::White);
    let r = b.move_piece(&mut chick, &Move { x: 0, y: 1 });
    assert_eq!(r, Ok(()));
    assert_eq!(b.get(1, 2), Some(Piece::new(PieceType::Chick, Color::White)));
    assert_eq!(b.get(1, 1), None);
    assert_eq!(b.get_turn(), Color::Black);
    assert!(!b.is_game_over());
}

#[test]
fn move_piece_rejects_illegal_requests() {
    let mut b = Board::init();
    let mut lion = Piece::new(PieceType::Lion, Color::White);
    assert_eq!(b.move_piece(&mut lion, &Move { x: 0, y: 1 }), Err(GameError::IllegalMove));
    let mut hen = Piece::new(PieceType::Hen, Color::White);
    assert_eq!(b.move_piece(&mut hen, &Move { x: 0, y: 1 }), Err(GameError::PieceNotInBoard));
}

#[test]
fn move_piece_reports_out_of_bounds_for_shadowed_twin() {
    // the request names the black orthogonal mover, whose legal step list is
    // computed where it stands; the piece is then recolored to the mover's
    // side and found at the white twin's square, from which the same step
    // leaves the board
    let mut b = Board::new_empty();
    b.put(2, 0, &Piece::new(PieceType::Giraffe, Color::Black));
    b.put(0, 0, &Piece::new(PieceType::Giraffe, Color::White));
    let mut named = Piece::new(PieceType::Giraffe, Color::Black);
    assert_eq!(b.move_piece(&mut named, &Move { x: -1, y: 0 }), Err(GameError::OutOfBounds));
}

#[test]
fn capturing_the_king_ends_the_game() {
    let mut b = Board::new_empty();
    b.put(1, 1, &Piece::new(PieceType::Lion, Color::White));
    b.put(1, 2, &Piece::new(PieceType::Lion, Color::Black));
    let mut lion = Piece::new(PieceType::Lion, Color::White);
    assert_eq!(b.move_piece(&mut lion, &Move { x: 0, y: 1 }), Ok(()));
    assert!(b.is_game_over());
    assert_eq!(b.winner, Some(Color::White));
}

#[test]
fn pawn_promotes_on_far_rank() {
    let mut b = Board::new_empty();
    b.put(0, 2, &Piece::new(PieceType::Chick, Color::White));
    b.put(2, 0, &Piece::new(PieceType::Lion, Color::White));
    b.put(2, 3, &Piece::new(PieceType::Lion, Color::Black));
    let mut chick = Piece::new(PieceType::Chick, Color::White);
    assert_eq!(b.move_piece(&mut chick, &Move { x: 0, y: 1 }), Ok(()));
    assert_eq!(b.get(0, 3), Some(Piece::new(PieceType::Hen, Color::White)));
}

#[test]
fn drop_piece_reenters_captured_piece() {
    let mut b = Board::init();
    let mut chick = Piece::new(PieceType::Chick, Color::White);
    b.move_piece(&mut chick, &Move { x: 0, y: 1 }).unwrap();
    // black moves its king aside so the captured chick is in white's
    // cemetery and it is black's turn; let black's elephant capture back
    let mut eleph = Piece::new(PieceType::Elephant, Color::Black);
    b.move_piece(&mut eleph, &Move { x: -1, y: -1 }).unwrap();
    assert_eq!(b.get_turn(), Color::White);
    // white now holds a captured chick and drops it on a free square
    let cem = b.get_curent_player_cemetery();
    assert_eq!(cem.len(), 1);
    let mut reentry = cem[0];
    assert_eq!(b.drop_piece(&mut reentry, 0, 1), Ok(()));
    assert_eq!(b.get(0, 1), Some(reentry));
    assert_eq!(b.get_turn(), Color::Black);
    assert!(b.get_curent_player_cemetery().is_empty() || b.get_turn() == Color::Black);
}

#[test]
fn drop_piece_rejects_occupied_square_and_missing_piece() {
    let mut b = Board::init();
    let mut chick = Piece::new(PieceType::Chick, Color::White);
    assert_eq!(b.drop_piece(&mut chick, 1, 0), Err(GameError::IllegalMove));
    assert_eq!(b.drop_piece(&mut chick, 2, 1), Err(GameError::IllegalMove));
}

#[test]
fn expansion_of_initial_position() {
    let b = Board::init();
    match b.next() {
        GameResult::Intermediate(children) => {
            assert_eq!(children.len(), 4);
        }
        _ => panic!("the initial position is not decided"),
    }
}

#[test]
fn expansion_returns_win_when_king_is_capturable() {
    let mut b = Board::new_empty();
    b.put(1, 1, &Piece::new(PieceType::Lion, Color::White));
    b.put(1, 2, &Piece::new(PieceType::Lion, Color::Black));
    match b.next() {
        GameResult::WhiteWin => {}
        _ => panic!("white must win by capturing the king"),
    }
}

#[test]
fn hash_and_file_rendering_of_initial_position() {
    let b = Board::init();
    assert_eq!(b.get_hash(), "e00l10g20#01c11#21#02C12#22G03L13E23");
    let expected = "e00l10g20#01c11#21#02C12#22G03L13E23\n##############\n    0 1 2\n3 | G L E | 3\n2 |   C   | 2\n1 |   c   | 1\n0 | e l g | 0\n    0 1 2\n##############\nWhite cemetery: []\nBlack cemetery: []\n\n";
    assert_eq!(b.show_file(), expected);
}

#[test]
fn piece_and_kind_helpers_behave() {
    assert_eq!(Piece::new(PieceType::Chick, Color::White).show(), 'c');
    assert_eq!(Piece::new(PieceType::Chick, Color::Black).show(), 'C');
    assert_eq!(PieceType::Lion.show(), 'l');
    assert_eq!(PieceType::Lion.moves().len(), 8);
    assert_eq!(PieceType::Elephant.moves().len(), 4);
    assert_eq!(PieceType::Giraffe.moves().len(), 4);
    assert_eq!(PieceType::Chick.moves().len(), 1);
    assert_eq!(PieceType::Hen.moves().len(), 6);
    assert!(PieceType::Chick.is_move_valid(&Move { x: 0, y: 1 }));
    assert!(!PieceType::Chick.is_move_valid(&Move { x: 0, y: -1 }));
    assert!(Piece::new(PieceType::Hen, Color::White).is_move_valid(&Move { x: -1, y: 1 }));
    assert_eq!(Move { x: 1, y: -1 }.invert(), Move { x: -1, y: 1 });
}
