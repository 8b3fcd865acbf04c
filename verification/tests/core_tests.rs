use lion_solver::board::Board;
use lion_solver::enumerator::{enumerate_layers, enumerate_layers_sharded};
use lion_solver::next_move::NextMove;
use lion_solver::piece::Piece;
use lion_solver::range_set::RangeSet;
use lion_solver::solver::{calc_proba, VALUE_HALF, VALUE_SCALE};
use lion_solver::structs::{GameResult, Position};

fn slot(kind: u8, pos: Position) -> (Piece, Position) {
    (Piece(kind), pos)
}

fn board_of(state: [(Piece, Position); 8]) -> Board {
    let mut b = Board::new_empty();
    b.put_state(state);
    b
}

#[test]
fn init_has_expected_encoding() {
    let b = Board::init();
    assert_eq!(b.0, 0x877469524b302a11u64);
    assert!(b.is_well_formed());
}

#[test]
fn encoding_is_order_independent() {
    let a = board_of([
        slot(1, Position::X1Y0),
        slot(2, Position::X1Y3),
        slot(3, Position::X0Y0),
        slot(4, Position::X2Y3),
        slot(5, Position::X2Y0),
        slot(6, Position::X0Y3),
        slot(7, Position::X1Y1),
        slot(8, Position::X1Y2),
    ]);
    let b = board_of([
        slot(8, Position::X1Y2),
        slot(5, Position::X2Y0),
        slot(2, Position::X1Y3),
        slot(7, Position::X1Y1),
        slot(3, Position::X0Y0),
        slot(6, Position::X0Y3),
        slot(4, Position::X2Y3),
        slot(1, Position::X1Y0),
    ]);
    assert_eq!(a, b);
    assert_eq!(a.0, Board::init().0);
}

#[test]
fn decode_returns_canonicalized_slots() {
    let b = board_of([
        slot(8, Position::X1Y2),
        slot(5, Position::X2Y0),
        slot(2, Position::X1Y3),
        slot(7, Position::X1Y1),
        slot(3, Position::X0Y0),
        slot(6, Position::X0Y3),
        slot(4, Position::X2Y3),
        slot(1, Position::X1Y0),
    ]);
    let state = b.get_state();
    // slots come back sorted by their packed byte: kind first, then square
    let kinds: Vec<u8> = state.iter().map(|s| s.0 .0).collect();
    assert_eq!(kinds, vec![1, 2, 3, 4, 5, 6, 7, 8]);
    // re-encoding the decoded slots reproduces the same integer
    let mut b2 = Board::new_empty();
    b2.put_state(state);
    assert_eq!(b2.0, b.0);
}

#[test]
fn occupancy_of_initial_position() {
    let b = Board::init();
    assert_eq!(b.get_at_pos_slow(Position::X1Y0).0, 1);
    assert_eq!(b.get_at_pos_slow(Position::X1Y3).0, 2);
    assert_eq!(b.get_at_pos_slow(Position::X0Y0).0, 3);
    assert_eq!(b.get_at_pos_slow(Position::X2Y1).0, 0);
    let grid = b.get_state_processed();
    assert_eq!(grid[0][0].0, 3);
    assert_eq!(grid[0][1].0, 1);
    assert_eq!(grid[0][2].0, 5);
    assert_eq!(grid[1][1].0, 7);
    assert_eq!(grid[2][1].0, 8);
    assert_eq!(grid[3][0].0, 6);
    assert_eq!(grid[3][1].0, 2);
    assert_eq!(grid[3][2].0, 4);
}

#[test]
fn initial_position_has_four_moves_none_terminal() {
    let b = Board::init();
    match b.get_next_states(true) {
        GameResult::Intermediate(children) => {
            assert_eq!(children.len(), 4);
            for (_, child) in &children {
                match child.get_next_states(false) {
                    GameResult::Intermediate(_) => {}
                    _ => panic!("an immediate successor of the initial position is terminal"),
                }
            }
        }
        _ => panic!("the initial position must not be terminal"),
    }
}

#[test]
fn generation_is_deterministic() {
    let b = Board::init();
    let r1 = b.get_next_states(true);
    let r2 = b.get_next_states(true);
    assert_eq!(r1, r2);
}

#[test]
fn capturable_king_means_win_for_mover() {
    // the first player's king stands next to the second player's king
    let b = board_of([
        slot(1, Position::X1Y1),
        slot(2, Position::X1Y2),
        slot(3, Position::Dead),
        slot(4, Position::Dead),
        slot(5, Position::Dead),
        slot(6, Position::Dead),
        slot(7, Position::Dead),
        slot(8, Position::Dead),
    ]);
    assert_eq!(b.get_next_states(true), GameResult::WhiteWin);
    assert_eq!(b.get_next_states(false), GameResult::BlackWin);
}

#[test]
fn no_moves_is_a_loss() {
    // every slot belongs to the second player, so the first has no move
    let b = board_of([
        slot(2, Position::X0Y3),
        slot(4, Position::X1Y3),
        slot(6, Position::X2Y3),
        slot(8, Position::X0Y2),
        slot(10, Position::X1Y2),
        slot(4, Position::X2Y2),
        slot(6, Position::X0Y1),
        slot(8, Position::X1Y1),
    ]);
    assert_eq!(b.get_next_states(true), GameResult::BlackWin);
}

#[test]
fn king_reaching_far_rank_wins() {
    // the first player's king can step onto row 3
    let b = board_of([
        slot(1, Position::X1Y2),
        slot(2, Position::X0Y0),
        slot(3, Position::Dead),
        slot(4, Position::Dead),
        slot(5, Position::Dead),
        slot(6, Position::Dead),
        slot(7, Position::Dead),
        slot(8, Position::Dead),
    ]);
    assert_eq!(b.get_next_states(true), GameResult::WhiteWin);
}

#[test]
fn captured_piece_changes_side_and_promotion_applies() {
    // a pawn about to promote and capture
    let state = [
        slot(1, Position::X0Y0),
        slot(2, Position::X2Y3),
        slot(7, Position::X1Y2),
        slot(8, Position::X1Y3),
        slot(3, Position::Dead),
        slot(4, Position::Dead),
        slot(5, Position::Dead),
        slot(6, Position::Dead),
    ];
    let child = Board::compute_new_board(&state, &Position::X1Y2, &Position::X1Y3);
    assert!(child.is_well_formed());
    let cs = child.get_state();
    // the mover promoted to kind 9 on square X1Y3, the captured pawn joined
    // the first player off-board as kind 7
    assert!(cs.iter().any(|s| s.0 .0 == 9 && s.1 == Position::X1Y3));
    assert_eq!(cs.iter().filter(|s| s.0 .0 == 7 && s.1 == Position::Dead).count(), 1);
}

#[test]
fn parachuted_piece_lands_on_requested_square() {
    let state = [
        slot(1, Position::X0Y0),
        slot(2, Position::X2Y3),
        slot(7, Position::Dead),
        slot(8, Position::X1Y3),
        slot(3, Position::Dead),
        slot(4, Position::Dead),
        slot(5, Position::Dead),
        slot(6, Position::Dead),
    ];
    let child = Board::compute_parachuted_board(&state, &Position::X1Y1, &Piece(7));
    let cs = child.get_state();
    assert!(cs.iter().any(|s| s.0 .0 == 7 && s.1 == Position::X1Y1));
    assert!(!cs.iter().any(|s| s.0 .0 == 7 && s.1 == Position::Dead));
}

#[test]
fn drops_of_equal_kinds_collapse() {
    // both pawns of the first player are captured: only one representative
    // set of drops is generated for the kind
    let b = board_of([
        slot(1, Position::X0Y0),
        slot(2, Position::X2Y3),
        slot(7, Position::Dead),
        slot(7, Position::Dead),
        slot(3, Position::Dead),
        slot(5, Position::X2Y0),
        slot(4, Position::X0Y3),
        slot(6, Position::X1Y3),
    ]);
    match b.get_next_states(true) {
        GameResult::Intermediate(children) => {
            let drops: Vec<&(NextMove, Board)> = children
                .iter()
                .filter(|(m, _)| (m.0 >> 8) == 7 && ((m.0 >> 4) & 0xf) == 12)
                .collect();
            // seven empty squares, one drop each, not fourteen
            assert_eq!(drops.len(), 7);
        }
        _ => panic!("expected successors"),
    }
}

#[test]
fn next_move_packs_and_replays() {
    let nm = NextMove::new(Piece(7), Position::X1Y1, Position::X1Y2);
    assert_eq!(nm.0, 7 * 256 + 4 * 16 + 7);
    let (cur, nxt) = nm.get_current_and_next(true);
    assert_eq!(cur, 7 * 16 + 4);
    assert_eq!(nxt, 7 * 16 + 7);
    // promotion applies when a pawn arrives on the far rank by a board move
    let nm2 = NextMove::new(Piece(7), Position::X1Y2, Position::X1Y3);
    let (_, nxt2) = nm2.get_current_and_next(true);
    assert_eq!(nxt2, 9 * 16 + 10);
    // a drop never promotes
    let nm3 = NextMove::new(Piece(7), Position::Dead, Position::X1Y3);
    let (_, nxt3) = nm3.get_current_and_next(true);
    assert_eq!(nxt3, 7 * 16 + 10);
}

#[test]
fn next_move_recovered_from_board_pair() {
    let b = Board::init();
    match b.get_next_states(true) {
        GameResult::Intermediate(children) => {
            // the pawn capture changes bytes the byte-difference scan reads
            let (mv, child) = &children[3];
            let recovered = NextMove::new_from_board(&b, child);
            assert_eq!(recovered, *mv);
        }
        _ => panic!("expected successors"),
    }
}

#[test]
fn has_winner_sees_captured_king() {
    let b = board_of([
        slot(1, Position::X1Y0),
        slot(2, Position::Dead),
        slot(3, Position::X0Y0),
        slot(4, Position::X2Y3),
        slot(5, Position::X2Y0),
        slot(6, Position::X0Y3),
        slot(7, Position::X1Y1),
        slot(8, Position::X1Y2),
    ]);
    assert_eq!(b.has_winner(true), Some(true));
}

#[test]
fn has_winner_sees_king_on_winning_row() {
    let b = board_of([
        slot(1, Position::X1Y3),
        slot(2, Position::X0Y0),
        slot(3, Position::Dead),
        slot(4, Position::Dead),
        slot(5, Position::Dead),
        slot(6, Position::Dead),
        slot(7, Position::Dead),
        slot(8, Position::Dead),
    ]);
    assert_eq!(b.has_winner(true), Some(true));
}

#[test]
fn has_winner_sees_threatened_king() {
    // the second player's orthogonal mover stands right above the first
    // player's king
    let b = board_of([
        slot(1, Position::X1Y1),
        slot(2, Position::X1Y3),
        slot(6, Position::X1Y2),
        slot(4, Position::Dead),
        slot(5, Position::Dead),
        slot(3, Position::Dead),
        slot(7, Position::Dead),
        slot(8, Position::Dead),
    ]);
    assert_eq!(b.has_winner(true), Some(false));
}

#[test]
fn win_checked_expansion_scores_no_moves_as_loss() {
    // the first player's king is walled in by its own pawns, which are in
    // turn blocked by each other or the board edge: no candidate at all
    let b = board_of([
        slot(1, Position::X0Y0),
        slot(7, Position::X1Y0),
        slot(7, Position::X0Y1),
        slot(7, Position::X1Y1),
        slot(7, Position::X0Y2),
        slot(7, Position::X1Y2),
        slot(7, Position::X0Y3),
        slot(7, Position::X1Y3),
    ]);
    assert_eq!(b.get_next_states(true), GameResult::BlackWin);
    assert_eq!(b.get_next_states_2(true), GameResult::BlackWin);
}

#[test]
fn winning_row_beats_threat_in_win_check() {
    // the mover's king stands on its winning row while an enemy piece could
    // reach it: the far-rank arrival wins unconditionally
    let b = board_of([
        slot(1, Position::X1Y3),
        slot(2, Position::X0Y0),
        slot(6, Position::X1Y2),
        slot(4, Position::Dead),
        slot(5, Position::Dead),
        slot(3, Position::Dead),
        slot(7, Position::Dead),
        slot(8, Position::Dead),
    ]);
    assert_eq!(b.has_winner(true), Some(true));
}

#[test]
fn replayed_empty_square_move_is_canonical() {
    // the pawn promotes onto an empty far-rank square; the replayed child
    // must carry the same canonical encoding as the position built directly
    let b = board_of([
        slot(1, Position::X0Y0),
        slot(2, Position::X2Y3),
        slot(7, Position::X1Y2),
        slot(4, Position::Dead),
        slot(6, Position::Dead),
        slot(8, Position::Dead),
        slot(10, Position::Dead),
        slot(8, Position::Dead),
    ]);
    let expected = board_of([
        slot(1, Position::X0Y0),
        slot(2, Position::X2Y3),
        slot(9, Position::X1Y3),
        slot(4, Position::Dead),
        slot(6, Position::Dead),
        slot(8, Position::Dead),
        slot(10, Position::Dead),
        slot(8, Position::Dead),
    ]);
    match b.get_next_states_2(true) {
        GameResult::Intermediate(children) => {
            let promo = children
                .iter()
                .find(|(m, _)| m.0 == 7 * 256 + 7 * 16 + 10)
                .expect("the promoting pawn move must be generated");
            assert_eq!(promo.1, expected);
            assert!(promo.1.is_well_formed());
        }
        _ => panic!("expected successors"),
    }
}

#[test]
fn win_checked_expansion_agrees_on_initial_position() {
    let b = Board::init();
    let plain = match b.get_next_states(true) {
        GameResult::Intermediate(children) => children.len(),
        _ => panic!("unexpected terminal"),
    };
    let checked = match b.get_next_states_2(true) {
        GameResult::Intermediate(children) => children.len(),
        _ => panic!("unexpected terminal"),
    };
    assert_eq!(plain, 4);
    assert_eq!(checked, plain);
}

#[test]
fn enumeration_layers_have_expected_sizes() {
    let layers = enumerate_layers(Board::init(), 2);
    assert_eq!(layers.len(), 3);
    assert_eq!(layers[0].len(), 1);
    assert_eq!(layers[1].len(), 4);
    assert!(layers[2].len() > 0);
}

#[test]
fn enumeration_stops_on_terminal_root() {
    let b = board_of([
        slot(1, Position::X1Y1),
        slot(2, Position::X1Y2),
        slot(3, Position::Dead),
        slot(4, Position::Dead),
        slot(5, Position::Dead),
        slot(6, Position::Dead),
        slot(7, Position::Dead),
        slot(8, Position::Dead),
    ]);
    let layers = enumerate_layers(b, 5);
    assert_eq!(layers.len(), 1);
}

#[test]
fn sharded_enumeration_matches_sequential() {
    let root = Board::init();
    let seq_layers = enumerate_layers(root, 4);
    let par_layers = enumerate_layers_sharded(root, 4, 4);
    assert_eq!(seq_layers.len(), par_layers.len());
    for (a, b) in seq_layers.iter().zip(par_layers.iter()) {
        assert_eq!(a.len(), b.len());
        for (ea, eb) in a.iter().zip(b.iter()) {
            assert_eq!(ea.0, eb.0);
        }
    }
}

#[test]
fn depth_one_solve_gives_neutral_root_with_first_move() {
    let layers = enumerate_layers(Board::init(), 1);
    assert_eq!(layers.len(), 2);
    let (mine, _theirs) = calc_proba(true, &layers);
    let root = Board::init();
    let entry = mine.iter().find(|e| e.0 == root).expect("root must be solved");
    assert_eq!(entry.1 .0, VALUE_HALF);
    // the tie-break keeps the first successor's move
    match &layers[0][0].1 {
        GameResult::Intermediate(children) => {
            assert_eq!(entry.1 .1, children[0].0);
        }
        _ => panic!("expected successors"),
    }
}

#[test]
fn solver_root_value_is_max_over_children() {
    let layers = enumerate_layers(Board::init(), 3);
    let (mine, theirs) = calc_proba(true, &layers);
    let root = Board::init();
    let entry = mine.iter().find(|e| e.0 == root).expect("root must be solved");
    let children = match &layers[0][0].1 {
        GameResult::Intermediate(children) => children,
        _ => panic!("expected successors"),
    };
    let lookup = |b: &Board| -> u64 {
        theirs.iter().find(|e| e.0 == *b).map(|e| e.1 .0).unwrap_or(VALUE_HALF)
    };
    let best = children.iter().map(|(_, c)| lookup(c)).max().unwrap();
    assert_eq!(entry.1 .0, best);
    assert!(entry.1 .0 <= VALUE_SCALE);
}

#[test]
fn solver_scores_terminals_for_both_references() {
    let win_white = board_of([
        slot(1, Position::X1Y1),
        slot(2, Position::X1Y2),
        slot(3, Position::Dead),
        slot(4, Position::Dead),
        slot(5, Position::Dead),
        slot(6, Position::Dead),
        slot(7, Position::Dead),
        slot(8, Position::Dead),
    ]);
    let layers = enumerate_layers(win_white, 3);
    let (mine_w, _) = calc_proba(true, &layers);
    assert_eq!(mine_w[0].1 .0, VALUE_SCALE);
    let (mine_b, _) = calc_proba(false, &layers);
    assert!(mine_b.is_empty());
}

#[test]
fn range_set_compresses_consecutive_values() {
    let mut rs = RangeSet::new();
    rs.insert(Board(3));
    rs.insert(Board(1));
    rs.insert(Board(2));
    rs.insert(Board(10));
    assert!(rs.contains(1));
    assert!(rs.contains(2));
    assert!(rs.contains(3));
    assert!(rs.contains(10));
    assert!(!rs.contains(4));
    assert!(!rs.contains(0));
    assert!(!rs.contains(9));
}

#[test]
fn board_renders_with_cemeteries() {
    let expected = "##############\n    0 1 2\n3 | G L E | 3\n2 |   C   | 2\n1 |   c   | 1\n0 | e l g | 0\n    0 1 2\n##############\nWhite cemetery: []\nBlack cemetery: []";
    assert_eq!(Board::init().debug_show_board_string(), expected);

    let with_dead = board_of([
        slot(1, Position::X1Y0),
        slot(2, Position::X1Y3),
        slot(7, Position::Dead),
        slot(8, Position::Dead),
        slot(3, Position::X0Y0),
        slot(4, Position::X2Y3),
        slot(5, Position::X2Y0),
        slot(6, Position::X0Y3),
    ]);
    let rendered = with_dead.debug_show_board_string();
    assert!(rendered.ends_with("White cemetery: [\"c\"]\nBlack cemetery: [\"C\"]"));
}

#[test]
fn piece_helpers_behave() {
    assert!(Piece(1).is_mine(true));
    assert!(!Piece(1).is_mine(false));
    assert!(Piece(2).is_mine(false));
    assert!(!Piece(0).is_mine(true));
    assert_eq!(Piece(1).show(), 'l');
    assert_eq!(Piece(10).show(), 'H');
    assert_eq!(Piece(0).show(), ' ');
    assert_eq!(Piece(3).get_opposite_except_king(), Piece(4));
    assert_eq!(Piece(9).get_opposite_except_king(), Piece(8));
    assert_eq!(Piece(1).get_opposite_except_king(), Piece(1));
    assert_eq!(Piece(1).moves().len(), 8);
    assert_eq!(Piece(7).moves().len(), 1);
    assert_eq!(Piece(9).moves().len(), 6);
}

#[test]
fn position_helpers_behave() {
    assert_eq!(Position::X2Y3.as_u8(), 11);
    assert_eq!(Position::Dead.as_u8(), 12);
    assert!(Position::X0Y3.is_winning_row_for_player(true));
    assert!(!Position::X0Y3.is_winning_row_for_player(false));
    assert!(Position::X2Y0.is_winning_row_for_player(false));
    assert!(!Position::X1Y1.is_winning_row_for_player(true));
}
