use vstd::prelude::*;
use crate::classic::moves::Move;
use crate::classic::piece::{kind_offsets, piece_char, Color, Piece, PieceType};
use crate::classic::structs::{GameError, GameResult};

verus! {

/// The abstract content of a board: the twelve cells in row-major order
/// (cell `x + 3 * y`), the two cemeteries, whose turn it is, and the winner
/// once one exists.
#[verifier::ext_equal]
pub struct BoardModel {
    pub grid: Seq<Option<Piece>>,
    pub white_cem: Seq<Piece>,
    pub black_cem: Seq<Piece>,
    pub white_turn: bool,
    pub winner: Option<Color>,
}

/// The cell at the given coordinates.
pub open spec fn cell(m: BoardModel, x: int, y: int) -> Option<Piece> {
    m.grid[x + 3 * y]
}

/// The color whose turn it is.
pub open spec fn turn_color(m: BoardModel) -> Color {
    if m.white_turn {
        Color::White
    } else {
        Color::Black
    }
}

/// The first cell holding exactly the given piece, scanning rows bottom-up
/// and cells left to right, or -1 when absent.
pub open spec fn find_piece_from(grid: Seq<Option<Piece>>, p: Piece, q: int) -> int
    decreases 12 - q,
{
    if q < 0 || q >= 12 {
        -1
    } else if grid[q] == Some(p) {
        q
    } else {
        find_piece_from(grid, p, q + 1)
    }
}

/// The on-board pieces of the given color, in cell order.
pub open spec fn pieces_of_color(grid: Seq<Option<Piece>>, c: Color, q: int) -> Seq<Piece>
    decreases 12 - q,
{
    if q < 0 || q >= 12 {
        Seq::empty()
    } else {
        let rest = pieces_of_color(grid, c, q + 1);
        match grid[q] {
            Some(p) => if p.color == c {
                seq![p] + rest
            } else {
                rest
            },
            None => rest,
        }
    }
}

/// The initial content of each cell: the back ranks hold the diagonal mover,
/// the king-equivalent and the orthogonal mover, and each side's pawn stands
/// before its king.
pub open spec fn classic_init_cell(q: int) -> Option<Piece> {
    if q == 0 {
        Some(Piece { piece_type: PieceType::Elephant, color: Color::White, is_duplicated: false })
    } else if q == 1 {
        Some(Piece { piece_type: PieceType::Lion, color: Color::White, is_duplicated: false })
    } else if q == 2 {
        Some(Piece { piece_type: PieceType::Giraffe, color: Color::White, is_duplicated: false })
    } else if q == 4 {
        Some(Piece { piece_type: PieceType::Chick, color: Color::White, is_duplicated: false })
    } else if q == 7 {
        Some(Piece { piece_type: PieceType::Chick, color: Color::Black, is_duplicated: false })
    } else if q == 9 {
        Some(Piece { piece_type: PieceType::Giraffe, color: Color::Black, is_duplicated: false })
    } else if q == 10 {
        Some(Piece { piece_type: PieceType::Lion, color: Color::Black, is_duplicated: false })
    } else if q == 11 {
        Some(Piece { piece_type: PieceType::Elephant, color: Color::Black, is_duplicated: false })
    } else {
        None
    }
}

/// The catalog step at index `j`, inverted for black.
pub open spec fn side_step(k: PieceType, c: Color, j: int) -> (int, int) {
    let d = kind_offsets(k)[j];
    if c == Color::Black {
        (-d.0, -d.1)
    } else {
        d
    }
}

/// The legal steps of a piece of the given kind and color standing at
/// `(px, py)`, from catalog index `j` on: each side-adjusted step that stays
/// on the board and does not land on a piece of the same color.
pub open spec fn legal_steps(
    grid: Seq<Option<Piece>>,
    k: PieceType,
    c: Color,
    px: int,
    py: int,
    j: int,
) -> Seq<(int, int)>
    decreases kind_offsets(k).len() - j,
{
    if j < 0 || j >= kind_offsets(k).len() {
        Seq::empty()
    } else {
        let rest = legal_steps(grid, k, c, px, py, j + 1);
        let d = side_step(k, c, j);
        let x = px + d.0;
        let y = py + d.1;
        if x > 2 || y > 3 || x < 0 || y < 0 {
            rest
        } else {
            match grid[x + 3 * y] {
                Some(p) => if p.color != c {
                    seq![d] + rest
                } else {
                    rest
                },
                None => seq![d] + rest,
            }
        }
    }
}

/// Every catalog step stays within one square in each direction.
pub proof fn lemma_kind_offsets_bounded(k: PieceType, j: int)
    requires
        0 <= j < kind_offsets(k).len(),
    ensures
        -1 <= kind_offsets(k)[j].0 <= 1,
        -1 <= kind_offsets(k)[j].1 <= 1,
{
}

/// The full effect of a move request on a board and the moved piece: the
/// updated board, the piece as the call leaves it, and the error if the
/// request is rejected.  The steps mirror the move routine exactly: the
/// request is rejected when the piece is absent or the step illegal; then
/// the piece takes the mover's color and is searched again; then the
/// destination is checked for bounds and for a friendly occupant; a capture
/// books the occupant (demoted if promoted, recolored, unmarked) into the
/// mover's cemetery, a captured king deciding the game; the origin is
/// cleared; a pawn arriving on a far rank is replaced by a promoted piece
/// (marked as duplicate when one already stands); a king arriving on its far
/// rank wins; and the turn passes.
pub open spec fn move_piece_spec(m: BoardModel, piece: Piece, mv: (int, int)) -> (
    BoardModel,
    Piece,
    Option<GameError>,
) {
    let fp0 = find_piece_from(m.grid, piece, 0);
    if fp0 < 0 {
        (m, piece, Some(GameError::PieceNotInBoard))
    } else if !legal_steps(m.grid, piece.piece_type, piece.color, fp0 % 3, fp0 / 3, 0).contains(
        mv,
    ) {
        (m, piece, Some(GameError::IllegalMove))
    } else {
        let tc = turn_color(m);
        let piece2 = Piece { color: tc, ..piece };
        let fp = find_piece_from(m.grid, piece2, 0);
        if fp < 0 {
            (m, piece2, Some(GameError::PieceNotInBoard))
        } else {
            let x = fp % 3 + mv.0;
            let y = fp / 3 + mv.1;
            if x > 2 || y > 3 || x < 0 || y < 0 {
                (m, piece2, Some(GameError::OutOfBounds))
            } else {
                let target = m.grid[x + 3 * y];
                if target is Some && target->0.color == tc {
                    (m, piece2, Some(GameError::IllegalMove))
                } else {
                    let m1 = if target is Some {
                        let cap0 = target->0;
                        let cap = Piece {
                            piece_type: if cap0.piece_type == PieceType::Hen {
                                PieceType::Chick
                            } else {
                                cap0.piece_type
                            },
                            color: tc,
                            is_duplicated: false,
                        };
                        BoardModel {
                            winner: if cap0.piece_type == PieceType::Lion {
                                Some(tc)
                            } else {
                                m.winner
                            },
                            white_cem: if tc == Color::White {
                                m.white_cem.push(cap)
                            } else {
                                m.white_cem
                            },
                            black_cem: if tc == Color::Black {
                                m.black_cem.push(cap)
                            } else {
                                m.black_cem
                            },
                            ..m
                        }
                    } else {
                        m
                    };
                    let grid2 = m1.grid.update(fp, None);
                    let arriving = if piece2.piece_type == PieceType::Chick && (y == 0 || y == 3) {
                        Piece {
                            piece_type: PieceType::Hen,
                            color: tc,
                            is_duplicated: find_piece_from(
                                grid2,
                                Piece { piece_type: PieceType::Hen, color: tc, is_duplicated: false },
                                0,
                            ) >= 0,
                        }
                    } else {
                        piece2
                    };
                    let grid3 = grid2.update(x + 3 * y, Some(arriving));
                    let won = piece2.piece_type == PieceType::Lion && ((tc == Color::White && y
                        == 3) || (tc == Color::Black && y == 0));
                    (
                        BoardModel {
                            grid: grid3,
                            winner: if won {
                                Some(tc)
                            } else {
                                m1.winner
                            },
                            white_turn: !m.white_turn,
                            ..m1
                        },
                        piece2,
                        None,
                    )
                }
            }
        }
    }
}

/// The predicate that keeps every piece other than the given one.
pub open spec fn not_equal_to(p: Piece) -> spec_fn(Piece) -> bool {
    |q: Piece| q != p
}

/// The full effect of a drop request: the request is rejected when the
/// square is occupied or the piece is not in its color's cemetery;
/// otherwise every copy of the piece leaves that cemetery, the piece is
/// marked as a duplicate when an identical one stands on the board, it is
/// placed on the square, and the turn passes.
pub open spec fn drop_piece_spec(m: BoardModel, piece: Piece, x: int, y: int) -> (
    BoardModel,
    Piece,
    Option<GameError>,
) {
    if m.grid[x + 3 * y] is Some {
        (m, piece, Some(GameError::IllegalMove))
    } else {
        let cem = if piece.color == Color::White {
            m.white_cem
        } else {
            m.black_cem
        };
        if !cem.contains(piece) {
            (m, piece, Some(GameError::IllegalMove))
        } else {
            let cem2 = cem.filter(not_equal_to(piece));
            let piece2 = Piece {
                is_duplicated: piece.is_duplicated || find_piece_from(m.grid, piece, 0) >= 0,
                ..piece
            };
            (
                BoardModel {
                    grid: m.grid.update(x + 3 * y, Some(piece2)),
                    white_cem: if piece.color == Color::White {
                        cem2
                    } else {
                        m.white_cem
                    },
                    black_cem: if piece.color == Color::Black {
                        cem2
                    } else {
                        m.black_cem
                    },
                    white_turn: !m.white_turn,
                    ..m
                },
                piece2,
                None,
            )
        }
    }
}

/// The outcome of scanning part of the board for successors: a win returned
/// as soon as a move decides the game, or the successor boards collected so
/// far.
pub enum NextScan {
    Won(Color),
    Boards(Seq<BoardModel>),
}

/// Prepends already-collected boards to a scan outcome; a win absorbs them.
pub open spec fn app_boards(bs: Seq<BoardModel>, r: NextScan) -> NextScan {
    match r {
        NextScan::Won(c) => NextScan::Won(c),
        NextScan::Boards(b2) => NextScan::Boards(bs + b2),
    }
}

/// Chains a cell's scan outcome with the scan of the remaining cells.
pub open spec fn chain(a: NextScan, rest: NextScan) -> NextScan {
    match a {
        NextScan::Won(c) => NextScan::Won(c),
        NextScan::Boards(bs) => app_boards(bs, rest),
    }
}

/// Scans the legal steps of one piece from step `t` on: the first step whose
/// resulting board is decided wins for the decided side, the others yield
/// successor boards.
pub open spec fn moves_scan(m: BoardModel, p: Piece, steps: Seq<(int, int)>, t: int) -> NextScan
    decreases steps.len() - t,
{
    if t < 0 || t >= steps.len() {
        NextScan::Boards(Seq::empty())
    } else {
        let b2 = move_piece_spec(m, p, steps[t]).0;
        if b2.winner is Some {
            NextScan::Won(b2.winner->0)
        } else {
            app_boards(seq![b2], moves_scan(m, p, steps, t + 1))
        }
    }
}

/// The boards reached by dropping the given cemetery piece on each cell from
/// `q2` on, keeping the drops that succeed.
pub open spec fn drop_cells(m: BoardModel, p: Piece, q2: int) -> Seq<BoardModel>
    decreases 12 - q2,
{
    if q2 < 0 || q2 >= 12 {
        Seq::empty()
    } else {
        let r = drop_piece_spec(m, p, q2 % 3, q2 / 3);
        let rest = drop_cells(m, p, q2 + 1);
        if r.2 is None {
            seq![r.0] + rest
        } else {
            rest
        }
    }
}

/// The boards reached by dropping each cemetery piece from index `c` on, on
/// every cell.
pub open spec fn drops_scan(m: BoardModel, cem: Seq<Piece>, c: int) -> Seq<BoardModel>
    decreases cem.len() - c,
{
    if c < 0 || c >= cem.len() {
        Seq::empty()
    } else {
        drop_cells(m, cem[c], 0) + drops_scan(m, cem, c + 1)
    }
}

/// The scan outcome of one cell: the moves of a piece of the side to move,
/// nothing for an enemy piece, and the full cemetery drop fan for an empty
/// cell.
pub open spec fn cell_scan(m: BoardModel, q: int) -> NextScan {
    match m.grid[q] {
        Some(p) => if p.color == turn_color(m) {
            let fp = find_piece_from(m.grid, p, 0);
            moves_scan(m, p, legal_steps(m.grid, p.piece_type, p.color, fp % 3, fp / 3, 0), 0)
        } else {
            NextScan::Boards(Seq::empty())
        },
        None => NextScan::Boards(
            drops_scan(
                m,
                if m.white_turn {
                    m.white_cem
                } else {
                    m.black_cem
                },
                0,
            ),
        ),
    }
}

/// The scan outcome of the cells from `q` on, in cell order.
pub open spec fn next_scan(m: BoardModel, q: int) -> NextScan
    decreases 12 - q,
{
    if q < 0 || q >= 12 {
        NextScan::Boards(Seq::empty())
    } else {
        chain(cell_scan(m, q), next_scan(m, q + 1))
    }
}

/// A piece standing on some cell is found by the scan.
proof fn lemma_find_found(grid: Seq<Option<Piece>>, p: Piece, q: int, k: int)
    requires
        0 <= k <= q < 12,
        grid[q] == Some(p),
    ensures
        k <= find_piece_from(grid, p, k) <= q,
    decreases q - k,
{
    if grid[k] != Some(p) {
        lemma_find_found(grid, p, q, k + 1);
    }
}

/// Whether a step from `(px, py)` lands on the board and not on a piece of
/// the given color.
pub open spec fn step_ok(
    grid: Seq<Option<Piece>>,
    c: Color,
    px: int,
    py: int,
    d: (int, int),
) -> bool {
    &&& 0 <= px + d.0 < 3
    &&& 0 <= py + d.1 < 4
    &&& !(grid[px + d.0 + 3 * (py + d.1)] is Some && grid[px + d.0 + 3 * (py + d.1)]->0.color
        == c)
}

/// Every legal step stays on the board and avoids friendly pieces.
proof fn lemma_legal_steps_props(
    grid: Seq<Option<Piece>>,
    k: PieceType,
    c: Color,
    px: int,
    py: int,
    j: int,
)
    ensures
        forall|t: int|
            0 <= t < legal_steps(grid, k, c, px, py, j).len() ==> step_ok(
                grid,
                c,
                px,
                py,
                #[trigger] legal_steps(grid, k, c, px, py, j)[t],
            ),
    decreases kind_offsets(k).len() - j,
{
    if j < 0 || j >= kind_offsets(k).len() {
    } else {
        lemma_legal_steps_props(grid, k, c, px, py, j + 1);
        let whole = legal_steps(grid, k, c, px, py, j);
        let rest = legal_steps(grid, k, c, px, py, j + 1);
        if whole.len() > rest.len() {
            let d = side_step(k, c, j);
            assert(whole == seq![d] + rest);
            assert forall|t: int| 0 <= t < whole.len() implies step_ok(
                grid,
                c,
                px,
                py,
                #[trigger] whole[t],
            ) by {
                if t == 0 {
                    assert(whole[t] == d);
                } else {
                    assert(whole[t] == rest[t - 1]);
                }
            }
        }
    }
}

/// Collected boards shift from the pending scan to the collected prefix.
proof fn lemma_app_shift(models: Seq<BoardModel>, b: BoardModel, a: NextScan, rest: NextScan)
    ensures
        app_boards(models, chain(app_boards(seq![b], a), rest)) == app_boards(
            models.push(b),
            chain(a, rest),
        ),
{
    match a {
        NextScan::Won(c) => {},
        NextScan::Boards(bs) => {
            match rest {
                NextScan::Won(c) => {},
                NextScan::Boards(b2) => {
                    assert(models + (seq![b] + bs + b2) =~= models.push(b) + (bs + b2));
                },
            }
        },
    }
}

impl Board {
    /// An exact copy of this board.
    pub fn duplicate(&self) -> (r: Board)
        requires
            self.wf(),
        ensures
            r.wf(),
            r.model() == self.model(),
    {
        let mut cells: Vec<Option<Piece>> = Vec::new();
        let mut i: usize = 0;
        while i < self.board.len()
            invariant
                i <= self.board@.len(),
                cells@ == self.board@.subrange(0, i as int),
            decreases self.board@.len() - i,
        {
            cells.push(self.board[i]);
            proof {
                assert(self.board@.subrange(0, i as int).push(self.board@[i as int])
                    =~= self.board@.subrange(0, i as int + 1));
            }
            i = i + 1;
        }
        proof {
            assert(self.board@.subrange(0, self.board@.len() as int) =~= self.board@);
        }
        Board {
            board: cells,
            white_cemetery: copy_pieces(&self.white_cemetery),
            black_cemetery: copy_pieces(&self.black_cemetery),
            is_white_turn: self.is_white_turn,
            winner: self.winner,
        }
    }

    /// Expands this position into all boards reachable in one move or drop
    /// of the side to move, in scan order, returning the win outright when a
    /// move decides the game.  Drops are fanned out once per empty cell
    /// encountered in the scan.
    pub fn next(&self) -> (r: GameResult)
        requires
            self.wf(),
        ensures
            (match next_scan(self.model(), 0) {
                NextScan::Won(c) => r == (if c == Color::White {
                    GameResult::WhiteWin
                } else {
                    GameResult::BlackWin
                }),
                NextScan::Boards(bs) => (match r {
                    GameResult::Intermediate(v) => v@.map_values(|b: Board| b.model()) == bs && (
                    forall|k: int| 0 <= k < v@.len() ==> (#[trigger] v@[k]).wf()),
                    _ => false,
                }),
            }),
    {
        let ghost m = self.model();
        let mut boards: Vec<Board> = Vec::new();
        let mut q: usize = 0;
        while q < 12
            invariant
                q <= 12,
                self.wf(),
                m == self.model(),
                forall|k: int| 0 <= k < boards@.len() ==> (#[trigger] boards@[k]).wf(),
                next_scan(m, 0) == app_boards(
                    boards@.map_values(|b: Board| b.model()),
                    next_scan(m, q as int),
                ),
            decreases 12 - q,
        {
            proof {
                assert(next_scan(m, q as int) == chain(
                    cell_scan(m, q as int),
                    next_scan(m, q as int + 1),
                ));
            }
            match self.get(q % 3, q / 3) {
                Some(p) => {
                    let tc = self.get_turn();
                    if p.color == tc {
                        let legal = match self.get_legal_move_list_for_piece(&p) {
                            Ok(v) => v,
                            Err(e) => {
                                proof {
                                    lemma_find_found(m.grid, p, q as int, 0);
                                    assert(false);
                                }
                                return GameResult::Intermediate(Vec::new());
                            },
                        };
                        let ghost fp = find_piece_from(m.grid, p, 0);
                        let ghost steps = legal_steps(
                            m.grid,
                            p.piece_type,
                            p.color,
                            fp % 3,
                            fp / 3,
                            0,
                        );
                        proof {
                            lemma_find_found(m.grid, p, q as int, 0);
                            lemma_legal_steps_props(
                                m.grid,
                                p.piece_type,
                                p.color,
                                fp % 3,
                                fp / 3,
                                0,
                            );
                            assert(cell_scan(m, q as int) == moves_scan(m, p, steps, 0));
                        }
                        let mut t: usize = 0;
                        while t < legal.len()
                            invariant
                                t <= legal@.len(),
                                self.wf(),
                                m == self.model(),
                                p.color == turn_color(m),
                                0 <= fp < 12,
                                legal@.map_values(|mm: Move| mm.d()) == steps,
                                steps == legal_steps(
                                    m.grid,
                                    p.piece_type,
                                    p.color,
                                    fp % 3,
                                    fp / 3,
                                    0,
                                ),
                                fp == find_piece_from(m.grid, p, 0),
                                forall|tt: int|
                                    0 <= tt < steps.len() ==> step_ok(
                                        m.grid,
                                        p.color,
                                        fp % 3,
                                        fp / 3,
                                        #[trigger] steps[tt],
                                    ),
                                forall|k: int|
                                    0 <= k < boards@.len() ==> (#[trigger] boards@[k]).wf(),
                                next_scan(m, 0) == app_boards(
                                    boards@.map_values(|b: Board| b.model()),
                                    chain(moves_scan(m, p, steps, t as int), next_scan(
                                        m,
                                        q as int + 1,
                                    )),
                                ),
                            decreases legal@.len() - t,
                        {
                            let mut b = self.duplicate();
                            let mut pc = p;
                            let ghost d = steps[t as int];
                            proof {
                                assert(legal@.map_values(|mm: Move| mm.d())[t as int]
                                    == legal@[t as int].d());
                                assert(steps.contains(d));
                                assert(step_ok(m.grid, p.color, fp % 3, fp / 3, d));
                                assert((Piece { color: turn_color(m), ..p }) == p);
                            }
                            let res = b.move_piece(&mut pc, &legal[t]);
                            proof {
                                let step = move_piece_spec(m, p, d);
                                assert(step.2 is None);
                                assert(b.model() == step.0);
                            }
                            let done = b.is_game_over();
                            if done {
                                match b.winner {
                                    Some(Color::White) => {
                                        proof {
                                            assert(moves_scan(m, p, steps, t as int)
                                                == NextScan::Won(Color::White));
                                        }
                                        return GameResult::WhiteWin;
                                    },
                                    Some(Color::Black) => {
                                        proof {
                                            assert(moves_scan(m, p, steps, t as int)
                                                == NextScan::Won(Color::Black));
                                        }
                                        return GameResult::BlackWin;
                                    },
                                    None => {
                                        proof {
                                            assert(false);
                                        }
                                    },
                                }
                            } else {
                                let ghost pre = boards@;
                                proof {
                                    assert(moves_scan(m, p, steps, t as int) == app_boards(
                                        seq![b.model()],
                                        moves_scan(m, p, steps, t as int + 1),
                                    ));
                                    lemma_app_shift(
                                        pre.map_values(|bb: Board| bb.model()),
                                        b.model(),
                                        moves_scan(m, p, steps, t as int + 1),
                                        next_scan(m, q as int + 1),
                                    );
                                }
                                boards.push(b);
                                proof {
                                    assert(boards@.map_values(|bb: Board| bb.model()) =~= pre
                                        .map_values(|bb: Board| bb.model()).push(
                                        boards@[pre.len() as int].model(),
                                    ));
                                }
                            }
                            t = t + 1;
                        }
                        proof {
                            assert(moves_scan(m, p, steps, legal@.len() as int)
                                == NextScan::Boards(Seq::<BoardModel>::empty()));
                            assert(Seq::<BoardModel>::empty() + (match next_scan(m, q as int + 1) {
                                NextScan::Won(c) => Seq::<BoardModel>::empty(),
                                NextScan::Boards(bs) => bs,
                            }) =~= (match next_scan(m, q as int + 1) {
                                NextScan::Won(c) => Seq::<BoardModel>::empty(),
                                NextScan::Boards(bs) => bs,
                            }));
                        }
                    } else {
                        proof {
                            assert(cell_scan(m, q as int) == NextScan::Boards(
                                Seq::<BoardModel>::empty(),
                            ));
                            assert(Seq::<BoardModel>::empty() + (match next_scan(m, q as int + 1) {
                                NextScan::Won(c) => Seq::<BoardModel>::empty(),
                                NextScan::Boards(bs) => bs,
                            }) =~= (match next_scan(m, q as int + 1) {
                                NextScan::Won(c) => Seq::<BoardModel>::empty(),
                                NextScan::Boards(bs) => bs,
                            }));
                        }
                    }
                },
                None => {
                    let cem = self.get_curent_player_cemetery();
                    let ghost cs = cem@;
                    proof {
                        assert(cell_scan(m, q as int) == NextScan::Boards(drops_scan(m, cs, 0)));
                    }
                    let mut c: usize = 0;
                    while c < cem.len()
                        invariant
                            c <= cem@.len(),
                            self.wf(),
                            m == self.model(),
                            cs == cem@,
                            forall|k: int| 0 <= k < boards@.len() ==> (#[trigger] boards@[k]).wf(),
                            next_scan(m, 0) == app_boards(
                                boards@.map_values(|b: Board| b.model()),
                                chain(NextScan::Boards(drops_scan(m, cs, c as int)), next_scan(
                                    m,
                                    q as int + 1,
                                )),
                            ),
                        decreases cem@.len() - c,
                    {
                        let mut q2: usize = 0;
                        while q2 < 12
                            invariant
                                q2 <= 12,
                                c < cem@.len(),
                                self.wf(),
                                m == self.model(),
                                cs == cem@,
                                forall|k: int|
                                    0 <= k < boards@.len() ==> (#[trigger] boards@[k]).wf(),
                                next_scan(m, 0) == app_boards(
                                    boards@.map_values(|b: Board| b.model()),
                                    chain(
                                        NextScan::Boards(
                                            drop_cells(m, cs[c as int], q2 as int) + drops_scan(
                                                m,
                                                cs,
                                                c as int + 1,
                                            ),
                                        ),
                                        next_scan(m, q as int + 1),
                                    ),
                                ),
                            decreases 12 - q2,
                        {
                            let mut b = self.duplicate();
                            let mut pc = cem[c];
                            let res = b.drop_piece(&mut pc, q2 % 3, q2 / 3);
                            let ghost dstep = drop_piece_spec(
                                m,
                                cs[c as int],
                                q2 as int % 3,
                                q2 as int / 3,
                            );
                            let ok = match res {
                                Ok(u) => true,
                                Err(e) => false,
                            };
                            if ok {
                                let ghost pre = boards@;
                                proof {
                                    assert(dstep.2 is None);
                                    assert(b.model() == dstep.0);
                                    assert(drop_cells(m, cs[c as int], q2 as int) == seq![dstep.0]
                                        + drop_cells(m, cs[c as int], q2 as int + 1));
                                    lemma_app_shift(
                                        pre.map_values(|bb: Board| bb.model()),
                                        b.model(),
                                        NextScan::Boards(
                                            drop_cells(m, cs[c as int], q2 as int + 1)
                                                + drops_scan(m, cs, c as int + 1),
                                        ),
                                        next_scan(m, q as int + 1),
                                    );
                                    assert((seq![dstep.0] + (drop_cells(
                                        m,
                                        cs[c as int],
                                        q2 as int + 1,
                                    ) + drops_scan(m, cs, c as int + 1))) =~= ((seq![dstep.0]
                                        + drop_cells(m, cs[c as int], q2 as int + 1)) + drops_scan(
                                        m,
                                        cs,
                                        c as int + 1,
                                    )));
                                }
                                boards.push(b);
                                proof {
                                    assert(boards@.map_values(|bb: Board| bb.model()) =~= pre
                                        .map_values(|bb: Board| bb.model()).push(
                                        boards@[pre.len() as int].model(),
                                    ));
                                }
                            } else {
                                proof {
                                    assert(dstep.2 is Some);
                                    assert(drop_cells(m, cs[c as int], q2 as int) == drop_cells(
                                        m,
                                        cs[c as int],
                                        q2 as int + 1,
                                    ));
                                }
                            }
                            q2 = q2 + 1;
                        }
                        proof {
                            assert(drop_cells(m, cs[c as int], 12) =~= Seq::<BoardModel>::empty());
                            assert(Seq::<BoardModel>::empty() + drops_scan(m, cs, c as int + 1)
                                =~= drops_scan(m, cs, c as int + 1));
                            assert(drops_scan(m, cs, c as int + 1) =~= drop_cells(
                                m,
                                cs[c as int],
                                12,
                            ) + drops_scan(m, cs, c as int + 1));
                        }
                        c = c + 1;
                    }
                    proof {
                        assert(drops_scan(m, cs, cs.len() as int) =~= Seq::<BoardModel>::empty());
                    }
                },
            }
            q = q + 1;
        }
        proof {
            assert(next_scan(m, 12) == NextScan::Boards(Seq::<BoardModel>::empty()));
            assert(boards@.map_values(|b: Board| b.model()) + Seq::<BoardModel>::empty()
                =~= boards@.map_values(|b: Board| b.model()));
        }
        GameResult::Intermediate(boards)
    }
}

/// The digit character of a small coordinate.
pub open spec fn digit_char(n: int) -> char {
    if n == 0 {
        '0'
    } else if n == 1 {
        '1'
    } else if n == 2 {
        '2'
    } else {
        '3'
    }
}

/// The character of a cell in the identity line: the piece's character, or
/// a hash mark for a free cell.
pub open spec fn hash_cell_char(c: Option<Piece>) -> char {
    match c {
        Some(p) => piece_char(p),
        None => '#',
    }
}

/// The character of a cell in a rendered row: the piece's character, or a
/// blank for a free cell.
pub open spec fn row_cell_char(c: Option<Piece>) -> char {
    match c {
        Some(p) => piece_char(p),
        None => ' ',
    }
}

/// The identity line of a board: each cell's character followed by its two
/// coordinates, in cell order.
pub open spec fn hash_chars(grid: Seq<Option<Piece>>, q: int) -> Seq<char>
    decreases 12 - q,
{
    if q < 0 || q >= 12 {
        Seq::empty()
    } else {
        seq![hash_cell_char(grid[q]), digit_char(q % 3), digit_char(q / 3)] + hash_chars(
            grid,
            q + 1,
        )
    }
}

/// One rendered board row, bordered by its row number.
pub open spec fn row_chars(grid: Seq<Option<Piece>>, y: int) -> Seq<char> {
    seq![digit_char(y)] + " | "@ + seq![row_cell_char(grid[3 * y])] + " "@ + seq![
        row_cell_char(grid[3 * y + 1]),
    ] + " "@ + seq![row_cell_char(grid[3 * y + 2])] + " "@ + "| "@ + seq![digit_char(y)]
}

/// A cemetery rendered as a list of quoted piece characters, from entry `i`
/// on, comma-separated.
pub open spec fn cem_chars(cem: Seq<Piece>, i: int) -> Seq<char>
    decreases cem.len() - i,
{
    if i < 0 || i >= cem.len() {
        Seq::empty()
    } else {
        (if i > 0 {
            ", "@
        } else {
            Seq::empty()
        }) + "\""@ + seq![piece_char(cem[i])] + "\""@ + cem_chars(cem, i + 1)
    }
}

/// A cemetery rendered as a bracketed list.
pub open spec fn cem_list_chars(cem: Seq<Piece>) -> Seq<char> {
    "["@ + cem_chars(cem, 0) + "]"@
}

/// The full file rendering of a board: the identity line, the framed rows
/// top-down with coordinate headers, and the two cemeteries.
pub open spec fn show_file_chars(m: BoardModel) -> Seq<char> {
    hash_chars(m.grid, 0) + "\n"@ + "##############\n"@ + "    0 1 2"@ + "\n"@ + row_chars(
        m.grid,
        3,
    ) + "\n"@ + row_chars(m.grid, 2) + "\n"@ + row_chars(m.grid, 1) + "\n"@ + row_chars(m.grid, 0)
        + "\n"@ + "    0 1 2"@ + "\n"@ + "##############\n"@ + "White cemetery: "@ + cem_list_chars(
        m.white_cem,
    ) + "\n"@ + "Black cemetery: "@ + cem_list_chars(m.black_cem) + "\n\n"@
}

/// The single-character string of a piece.
fn piece_label(p: &Piece) -> (r: &'static str)
    ensures
        r@ == seq![piece_char(*p)],
{
    match (p.color, p.piece_type) {
        (Color::White, PieceType::Chick) => {
            proof {
                reveal_strlit("c");
            }
            "c"
        },
        (Color::White, PieceType::Giraffe) => {
            proof {
                reveal_strlit("g");
            }
            "g"
        },
        (Color::White, PieceType::Elephant) => {
            proof {
                reveal_strlit("e");
            }
            "e"
        },
        (Color::White, PieceType::Lion) => {
            proof {
                reveal_strlit("l");
            }
            "l"
        },
        (Color::White, PieceType::Hen) => {
            proof {
                reveal_strlit("h");
            }
            "h"
        },
        (Color::Black, PieceType::Chick) => {
            proof {
                reveal_strlit("C");
            }
            "C"
        },
        (Color::Black, PieceType::Giraffe) => {
            proof {
                reveal_strlit("G");
            }
            "G"
        },
        (Color::Black, PieceType::Elephant) => {
            proof {
                reveal_strlit("E");
            }
            "E"
        },
        (Color::Black, PieceType::Lion) => {
            proof {
                reveal_strlit("L");
            }
            "L"
        },
        (Color::Black, PieceType::Hen) => {
            proof {
                reveal_strlit("H");
            }
            "H"
        },
    }
}

/// The single-character string of a row or column number.
fn digit_label(n: usize) -> (r: &'static str)
    requires
        n <= 3,
    ensures
        r@ == seq![digit_char(n as int)],
{
    match n {
        0 => {
            proof {
                reveal_strlit("0");
            }
            "0"
        },
        1 => {
            proof {
                reveal_strlit("1");
            }
            "1"
        },
        2 => {
            proof {
                reveal_strlit("2");
            }
            "2"
        },
        _ => {
            proof {
                reveal_strlit("3");
            }
            "3"
        },
    }
}

/// The single-character string of a rendered cell.
fn cell_label(c: &Option<Piece>) -> (r: &'static str)
    ensures
        r@ == seq![row_cell_char(*c)],
{
    match c {
        Some(p) => piece_label(p),
        None => {
            proof {
                reveal_strlit(" ");
            }
            " "
        },
    }
}

/// Appends a cemetery rendered as a bracketed list of quoted piece
/// characters.
fn append_cem_list(s: &mut String, cem: &Vec<Piece>)
    ensures
        final(s)@ == old(s)@ + cem_list_chars(cem@),
{
    s.append("[");
    let ghost base = s@;
    let mut i: usize = 0;
    while i < cem.len()
        invariant
            i <= cem@.len(),
            s@ + cem_chars(cem@, i as int) == base + cem_chars(cem@, 0),
        decreases cem@.len() - i,
    {
        let ghost pre = s@;
        if i > 0 {
            s.append(", ");
        }
        s.append("\"");
        s.append(piece_label(&cem[i]));
        s.append("\"");
        proof {
            if i > 0 {
                assert(s@ =~= pre + (", "@ + "\""@ + seq![piece_char(cem@[i as int])] + "\""@));
            } else {
                assert(s@ =~= pre + (Seq::<char>::empty() + "\""@ + seq![
                    piece_char(cem@[i as int]),
                ] + "\""@));
            }
            assert(cem_chars(cem@, i as int) == (if i > 0 {
                ", "@
            } else {
                Seq::<char>::empty()
            }) + "\""@ + seq![piece_char(cem@[i as int])] + "\""@ + cem_chars(cem@, i as int + 1));
            assert(pre + cem_chars(cem@, i as int) =~= s@ + cem_chars(cem@, i as int + 1));
        }
        i = i + 1;
    }
    proof {
        assert(cem_chars(cem@, cem@.len() as int) =~= Seq::<char>::empty());
        assert(s@ + Seq::<char>::empty() =~= s@);
        assert(base + cem_chars(cem@, 0) + "]"@ =~= old(s)@ + cem_list_chars(cem@));
    }
    s.append("]");
}

impl Board {
    /// The identity line of this board: each cell's character and its
    /// coordinates, in cell order; free cells show a hash mark.
    pub fn get_hash(&self) -> (r: String)
        requires
            self.wf(),
        ensures
            r@ == hash_chars(self.model().grid, 0),
    {
        let ghost grid = self.model().grid;
        let mut s = String::from_str("");
        proof {
            reveal_strlit("");
            assert(s@ =~= Seq::<char>::empty());
        }
        let mut q: usize = 0;
        while q < 12
            invariant
                q <= 12,
                self.wf(),
                grid == self.model().grid,
                s@ + hash_chars(grid, q as int) == hash_chars(grid, 0),
            decreases 12 - q,
        {
            let ghost pre = s@;
            match self.get(q % 3, q / 3) {
                Some(p) => {
                    s.append(piece_label(&p));
                },
                None => {
                    proof {
                        reveal_strlit("#");
                    }
                    s.append("#");
                },
            }
            s.append(digit_label(q % 3));
            s.append(digit_label(q / 3));
            proof {
                assert(s@ =~= pre + seq![
                    hash_cell_char(grid[q as int]),
                    digit_char(q as int % 3),
                    digit_char(q as int / 3),
                ]);
                assert(pre + hash_chars(grid, q as int) =~= s@ + hash_chars(grid, q as int + 1));
            }
            q = q + 1;
        }
        proof {
            assert(hash_chars(grid, 12) =~= Seq::<char>::empty());
            assert(s@ + Seq::<char>::empty() =~= s@);
        }
        s
    }

    /// Appends one rendered board row, bordered by its row number; the
    /// argument counts from 1.
    fn a2(&self, y: usize, s: &mut String)
        requires
            self.wf(),
            1 <= y <= 4,
        ensures
            final(s)@ == old(s)@ + row_chars(self.model().grid, y - 1),
    {
        let yy = y - 1;
        s.append(digit_label(yy));
        s.append(" | ");
        s.append(cell_label(&self.get(0, yy)));
        s.append(" ");
        s.append(cell_label(&self.get(1, yy)));
        s.append(" ");
        s.append(cell_label(&self.get(2, yy)));
        s.append(" ");
        s.append("| ");
        s.append(digit_label(yy));
        proof {
            assert(s@ =~= old(s)@ + row_chars(self.model().grid, y - 1));
        }
    }

    /// The full file rendering of this board: the identity line, the framed
    /// rows top-down with coordinate headers, and the two cemeteries.
    pub fn show_file(&self) -> (r: String)
        requires
            self.wf(),
        ensures
            r@ == show_file_chars(self.model()),
    {
        let mut s = self.get_hash();
        s.append("\n");
        s.append("##############\n");
        s.append("    0 1 2");
        s.append("\n");
        self.a2(4, &mut s);
        s.append("\n");
        self.a2(3, &mut s);
        s.append("\n");
        self.a2(2, &mut s);
        s.append("\n");
        self.a2(1, &mut s);
        s.append("\n");
        s.append("    0 1 2");
        s.append("\n");
        s.append("##############\n");
        s.append("White cemetery: ");
        append_cem_list(&mut s, &self.white_cemetery);
        s.append("\n");
        s.append("Black cemetery: ");
        append_cem_list(&mut s, &self.black_cemetery);
        s.append("\n\n");
        proof {
            assert(s@ =~= show_file_chars(self.model()));
        }
        s
    }
}

/// Whether the cemetery holds the given piece.
fn contains_piece(v: &Vec<Piece>, p: &Piece) -> (r: bool)
    ensures
        r == v@.contains(*p),
{
    let mut i: usize = 0;
    while i < v.len()
        invariant
            i <= v@.len(),
            forall|k: int| 0 <= k < i ==> #[trigger] v@[k] != *p,
        decreases v@.len() - i,
    {
        if v[i].piece_type == p.piece_type && v[i].color == p.color && v[i].is_duplicated
            == p.is_duplicated {
            return true;
        }
        i = i + 1;
    }
    false
}

/// The cemetery with every copy of the given piece removed.
fn retain_not_equal(v: &Vec<Piece>, p: &Piece) -> (r: Vec<Piece>)
    ensures
        r@ == v@.filter(not_equal_to(*p)),
{
    broadcast use vstd::seq_lib::group_filter_ensures;

    let mut r: Vec<Piece> = Vec::new();
    let mut i: usize = 0;
    while i < v.len()
        invariant
            i <= v@.len(),
            r@ == v@.subrange(0, i as int).filter(not_equal_to(*p)),
        decreases v@.len() - i,
    {
        let keep = !(v[i].piece_type == p.piece_type && v[i].color == p.color && v[i].is_duplicated
            == p.is_duplicated);
        proof {
            reveal_with_fuel(Seq::<_>::filter, 2);
            let sub1 = v@.subrange(0, i as int + 1);
            assert(sub1.drop_last() =~= v@.subrange(0, i as int));
            assert(sub1.last() == v@[i as int]);
            assert(keep == (not_equal_to(*p))(v@[i as int]));
            assert(sub1.filter(not_equal_to(*p)) == if (not_equal_to(*p))(v@[i as int]) {
                v@.subrange(0, i as int).filter(not_equal_to(*p)).push(v@[i as int])
            } else {
                v@.subrange(0, i as int).filter(not_equal_to(*p))
            });
        }
        if keep {
            r.push(v[i]);
        }
        i = i + 1;
    }
    proof {
        assert(v@.subrange(0, v@.len() as int) =~= v@);
    }
    r
}

/// Copies a cemetery.
fn copy_pieces(v: &Vec<Piece>) -> (r: Vec<Piece>)
    ensures
        r@ == v@,
{
    let mut r: Vec<Piece> = Vec::new();
    let mut i: usize = 0;
    while i < v.len()
        invariant
            i <= v@.len(),
            r@ == v@.subrange(0, i as int),
        decreases v@.len() - i,
    {
        r.push(v[i]);
        proof {
            assert(v@.subrange(0, i as int).push(v@[i as int]) =~= v@.subrange(0, i as int + 1));
        }
        i = i + 1;
    }
    proof {
        assert(v@.subrange(0, v@.len() as int) =~= v@);
    }
    r
}

/// A board: a 3x4 grid of optional pieces, the two cemeteries of captured
/// pieces, the side to move, and the winner once the game is decided.
#[derive(PartialEq, Eq)]
pub struct Board {
    board: Vec<Option<Piece>>,
    white_cemetery: Vec<Piece>,
    black_cemetery: Vec<Piece>,
    is_white_turn: bool,
    pub winner: Option<Color>,
}

impl Board {
    /// The abstract content of this board.
    pub closed spec fn model(self) -> BoardModel {
        BoardModel {
            grid: self.board@,
            white_cem: self.white_cemetery@,
            black_cem: self.black_cemetery@,
            white_turn: self.is_white_turn,
            winner: self.winner,
        }
    }

    /// The structural invariant: the grid holds exactly twelve cells.
    pub closed spec fn wf(self) -> bool {
        self.board@.len() == 12
    }

    /// An empty board: no pieces anywhere, white to move, no winner.
    pub fn new_empty() -> (r: Board)
        ensures
            r.wf(),
            forall|q: int| 0 <= q < 12 ==> r.model().grid[q] is None,
            r.model().white_cem.len() == 0,
            r.model().black_cem.len() == 0,
            r.model().white_turn,
            r.model().winner is None,
    {
        let mut board: Vec<Option<Piece>> = Vec::new();
        let mut i: usize = 0;
        while i < 12
            invariant
                i <= 12,
                board@.len() == i,
                forall|q: int| 0 <= q < i ==> board@[q] is None,
            decreases 12 - i,
        {
            board.push(None);
            i = i + 1;
        }
        Board {
            board,
            white_cemetery: Vec::new(),
            black_cemetery: Vec::new(),
            is_white_turn: true,
            winner: None,
        }
    }

    /// The piece at the given coordinates, if any.
    pub fn get(&self, x: usize, y: usize) -> (r: Option<Piece>)
        requires
            self.wf(),
            x < 3,
            y < 4,
        ensures
            r == cell(self.model(), x as int, y as int),
    {
        self.board[x + 3 * y]
    }

    /// Places a piece at the given coordinates.
    pub fn put(&mut self, x: usize, y: usize, p: &Piece)
        requires
            old(self).wf(),
            x < 3,
            y < 4,
        ensures
            final(self).wf(),
            final(self).model() == (BoardModel {
                grid: old(self).model().grid.update(x + 3 * y, Some(*p)),
                ..old(self).model()
            }),
    {
        self.board[x + 3 * y] = Some(*p);
    }

    /// Removes the piece at the given coordinates.
    pub fn del(&mut self, x: usize, y: usize)
        requires
            old(self).wf(),
            x < 3,
            y < 4,
        ensures
            final(self).wf(),
            final(self).model() == (BoardModel {
                grid: old(self).model().grid.update(x + 3 * y, None),
                ..old(self).model()
            }),
    {
        self.board[x + 3 * y] = None;
    }

    /// The board in its initial setup, white to move.
    pub fn init() -> (r: Board)
        ensures
            r.wf(),
            forall|q: int| 0 <= q < 12 ==> r.model().grid[q] == classic_init_cell(q),
            r.model().white_cem.len() == 0,
            r.model().black_cem.len() == 0,
            r.model().white_turn,
            r.model().winner is None,
    {
        let mut b = Board::new_empty();
        b.put(0, 0, &Piece::new(PieceType::Elephant, Color::White));
        b.put(1, 0, &Piece::new(PieceType::Lion, Color::White));
        b.put(2, 0, &Piece::new(PieceType::Giraffe, Color::White));
        b.put(1, 1, &Piece::new(PieceType::Chick, Color::White));
        b.put(1, 2, &Piece::new(PieceType::Chick, Color::Black));
        b.put(2, 3, &Piece::new(PieceType::Elephant, Color::Black));
        b.put(1, 3, &Piece::new(PieceType::Lion, Color::Black));
        b.put(0, 3, &Piece::new(PieceType::Giraffe, Color::Black));
        b
    }

    /// The coordinates of the first cell holding exactly the given piece.
    pub fn find_piece_on_board(&self, piece: &Piece) -> (r: Result<(usize, usize), GameError>)
        requires
            self.wf(),
        ensures
            ({
                let fp = find_piece_from(self.model().grid, *piece, 0);
                match r {
                    Ok(xy) => fp >= 0 && xy.0 == fp % 3 && xy.1 == fp / 3 && xy.0 < 3 && xy.1 < 4,
                    Err(e) => fp < 0 && e == GameError::PieceNotInBoard,
                }
            }),
    {
        let mut q: usize = 0;
        while q < 12
            invariant
                q <= 12,
                self.wf(),
                find_piece_from(self.model().grid, *piece, q as int) == find_piece_from(
                    self.model().grid,
                    *piece,
                    0,
                ),
            decreases 12 - q,
        {
            let hit = match &self.board[q] {
                Some(p) => p.piece_type == piece.piece_type && p.color == piece.color
                    && p.is_duplicated == piece.is_duplicated,
                None => false,
            };
            if hit {
                proof {
                    assert(self.model().grid[q as int] == Some(*piece));
                }
                return Ok((q % 3, q / 3));
            }
            proof {
                assert(self.model().grid[q as int] != Some(*piece));
            }
            q = q + 1;
        }
        Err(GameError::PieceNotInBoard)
    }

    /// The on-board pieces of the side to move, in cell order.
    pub fn get_curent_player_piece_list(&self) -> (r: Vec<Piece>)
        requires
            self.wf(),
        ensures
            r@ == pieces_of_color(self.model().grid, turn_color(self.model()), 0),
    {
        let me = self.get_turn();
        let mut r: Vec<Piece> = Vec::new();
        let mut q: usize = 12;
        while q > 0
            invariant
                q <= 12,
                self.wf(),
                me == turn_color(self.model()),
                r@ == pieces_of_color(self.model().grid, me, q as int),
            decreases q,
        {
            q = q - 1;
            match &self.board[q] {
                Some(p) => {
                    if p.color == me {
                        let ghost pre = r@;
                        let mut r2: Vec<Piece> = Vec::new();
                        r2.push(*p);
                        let mut t: usize = 0;
                        while t < r.len()
                            invariant
                                t <= r@.len(),
                                r2@ == seq![self.model().grid[q as int]->0] + r@.subrange(
                                    0,
                                    t as int,
                                ),
                                r@ == pre,
                            decreases r@.len() - t,
                        {
                            r2.push(r[t]);
                            proof {
                                assert((seq![self.model().grid[q as int]->0] + pre.subrange(
                                    0,
                                    t as int,
                                )).push(pre[t as int]) =~= seq![self.model().grid[q as int]->0]
                                    + pre.subrange(0, t as int + 1));
                            }
                            t = t + 1;
                        }
                        proof {
                            assert(pre.subrange(0, pre.len() as int) =~= pre);
                        }
                        r = r2;
                    }
                },
                None => {},
            }
        }
        r
    }

    /// A copy of the side to move's cemetery.
    pub fn get_curent_player_cemetery(&self) -> (r: Vec<Piece>)
        ensures
            r@ == if self.model().white_turn {
                self.model().white_cem
            } else {
                self.model().black_cem
            },
    {
        if self.is_white_turn {
            copy_pieces(&self.white_cemetery)
        } else {
            copy_pieces(&self.black_cemetery)
        }
    }

    /// The legal steps of the given piece from where it stands: every
    /// catalog step (inverted for black) that stays on the board and does
    /// not land on a friendly piece.
    pub fn get_legal_move_list_for_piece(&self, piece: &Piece) -> (r: Result<Vec<Move>, GameError>)
        requires
            self.wf(),
        ensures
            ({
                let fp = find_piece_from(self.model().grid, *piece, 0);
                match r {
                    Err(e) => fp < 0 && e == GameError::PieceNotInBoard,
                    Ok(v) => fp >= 0 && v@.map_values(|m: Move| m.d()) == legal_steps(
                        self.model().grid,
                        piece.piece_type,
                        piece.color,
                        fp % 3,
                        fp / 3,
                        0,
                    ),
                }
            }),
    {
        let (px, py) = match self.find_piece_on_board(piece) {
            Ok(xy) => xy,
            Err(e) => {
                return Err(e);
            },
        };
        let ghost grid = self.model().grid;
        let mvs = piece.piece_type.moves();
        let mut result: Vec<Move> = Vec::new();
        let mut j: usize = 0;
        while j < mvs.len()
            invariant
                j <= mvs@.len(),
                self.wf(),
                grid == self.model().grid,
                px < 3,
                py < 4,
                mvs@.map_values(|m: Move| m.d()) == kind_offsets(piece.piece_type),
                result@.map_values(|m: Move| m.d()) + legal_steps(
                    grid,
                    piece.piece_type,
                    piece.color,
                    px as int,
                    py as int,
                    j as int,
                ) == legal_steps(grid, piece.piece_type, piece.color, px as int, py as int, 0),
            decreases mvs@.len() - j,
        {
            proof {
                assert(mvs@.map_values(|m: Move| m.d())[j as int] == mvs@[j as int].d());
                lemma_kind_offsets_bounded(piece.piece_type, j as int);
            }
            let m: Move = match piece.color {
                Color::Black => mvs[j].invert(),
                Color::White => mvs[j],
            };
            let ghost d = side_step(piece.piece_type, piece.color, j as int);
            proof {
                assert(m.d() == d);
            }
            let x: i16 = px as i16 + m.x as i16;
            let y: i16 = py as i16 + m.y as i16;
            if x > 2 || y > 3 || x < 0 || y < 0 {
            } else {
                let keep = match self.get(x as usize, y as usize) {
                    Some(p) => p.color != piece.color,
                    None => true,
                };
                if keep {
                    let ghost pre = result@;
                    result.push(m);
                    proof {
                        assert(result@.map_values(|mm: Move| mm.d()) =~= pre.map_values(
                            |mm: Move| mm.d(),
                        ).push(d));
                        assert(legal_steps(
                            grid,
                            piece.piece_type,
                            piece.color,
                            px as int,
                            py as int,
                            j as int,
                        ) == seq![d] + legal_steps(
                            grid,
                            piece.piece_type,
                            piece.color,
                            px as int,
                            py as int,
                            j as int + 1,
                        ));
                        assert(pre.map_values(|mm: Move| mm.d()).push(d) + legal_steps(
                            grid,
                            piece.piece_type,
                            piece.color,
                            px as int,
                            py as int,
                            j as int + 1,
                        ) =~= pre.map_values(|mm: Move| mm.d()) + (seq![d] + legal_steps(
                            grid,
                            piece.piece_type,
                            piece.color,
                            px as int,
                            py as int,
                            j as int + 1,
                        )));
                    }
                }
            }
            j = j + 1;
        }
        proof {
            assert(legal_steps(
                grid,
                piece.piece_type,
                piece.color,
                px as int,
                py as int,
                mvs@.len() as int,
            ) =~= Seq::<(int, int)>::empty());
            assert(result@.map_values(|m: Move| m.d()) + Seq::<(int, int)>::empty() =~= result@
                .map_values(|m: Move| m.d()));
        }
        Ok(result)
    }

    /// Moves the given piece by the given step if that is legal: the piece
    /// takes the mover's color, any enemy piece on the destination is
    /// captured into the mover's cemetery (a promoted pawn demoting, a
    /// captured king deciding the game), a pawn arriving on a far rank
    /// promotes, a king arriving on the far rank wins, and the turn passes.
    pub fn move_piece(&mut self, piece: &mut Piece, move_: &Move) -> (r: Result<(), GameError>)
        requires
            old(self).wf(),
        ensures
            final(self).wf(),
            ({
                let step = move_piece_spec(old(self).model(), *old(piece), move_.d());
                &&& final(self).model() == step.0
                &&& *final(piece) == step.1
                &&& (match r {
                    Ok(u) => step.2 is None,
                    Err(e) => step.2 == Some(e),
                })
            }),
    {
        let ghost m0 = self.model();
        let legal = match self.get_legal_move_list_for_piece(piece) {
            Ok(v) => v,
            Err(e) => {
                return Err(e);
            },
        };
        let ghost fp0 = find_piece_from(m0.grid, *piece, 0);
        let mut contained = false;
        let mut t: usize = 0;
        while t < legal.len()
            invariant
                t <= legal@.len(),
                legal@.map_values(|m: Move| m.d()) == legal_steps(
                    m0.grid,
                    piece.piece_type,
                    piece.color,
                    fp0 % 3,
                    fp0 / 3,
                    0,
                ),
                contained == exists|k: int| 0 <= k < t && (#[trigger] legal@[k]).d() == move_.d(),
            decreases legal@.len() - t,
        {
            if legal[t].x == move_.x && legal[t].y == move_.y {
                contained = true;
            }
            t = t + 1;
        }
        proof {
            assert(contained == legal_steps(
                m0.grid,
                piece.piece_type,
                piece.color,
                fp0 % 3,
                fp0 / 3,
                0,
            ).contains(move_.d())) by {
                let steps = legal_steps(m0.grid, piece.piece_type, piece.color, fp0 % 3, fp0 / 3, 0);
                if contained {
                    let k = choose|k: int|
                        0 <= k < legal@.len() && (#[trigger] legal@[k]).d() == move_.d();
                    assert(legal@.map_values(|m: Move| m.d())[k] == move_.d());
                } else if steps.contains(move_.d()) {
                    let k = choose|k: int| 0 <= k < steps.len() && steps[k] == move_.d();
                    assert(legal@.map_values(|m: Move| m.d())[k] == legal@[k].d());
                    assert(legal@[k].d() == move_.d());
                }
            }
        }
        if !contained {
            return Err(GameError::IllegalMove);
        }
        let tc = self.get_turn();
        piece.color = tc;
        let (px, py) = match self.find_piece_on_board(piece) {
            Ok(xy) => xy,
            Err(e) => {
                return Err(e);
            },
        };
        let x: i16 = px as i16 + move_.x as i16;
        let y: i16 = py as i16 + move_.y as i16;
        if x > 2 || y > 3 || x < 0 || y < 0 {
            return Err(GameError::OutOfBounds);
        }
        let xu = x as usize;
        let yu = y as usize;
        match self.get(xu, yu) {
            Some(captured) => {
                if captured.color == tc {
                    return Err(GameError::IllegalMove);
                }
                let mut p = captured;
                match p.piece_type {
                    PieceType::Lion => {
                        self.winner = Some(tc);
                    },
                    PieceType::Hen => {
                        p.piece_type = PieceType::Chick;
                    },
                    _ => {},
                }
                if p.is_duplicated {
                    p.is_duplicated = false;
                }
                p.color = tc;
                match tc {
                    Color::White => {
                        self.white_cemetery.push(p);
                    },
                    Color::Black => {
                        self.black_cemetery.push(p);
                    },
                }
            },
            None => {},
        }
        self.del(px, py);
        if piece.piece_type == PieceType::Chick && (yu == 0 || yu == 3) {
            let mut hen = Piece::new(PieceType::Hen, tc);
            let dup = match self.find_piece_on_board(&hen) {
                Ok(u) => true,
                Err(e) => false,
            };
            if dup {
                hen.is_duplicated = true;
            }
            self.put(xu, yu, &hen);
        } else {
            self.put(xu, yu, piece);
        }
        if piece.piece_type == PieceType::Lion && ((tc == Color::White && yu == 3) || (tc
            == Color::Black && yu == 0)) {
            self.winner = Some(tc);
        }
        self.is_white_turn = !self.is_white_turn;
        Ok(())
    }

    /// Re-enters a captured piece of the mover's cemetery on a free square:
    /// every copy of it leaves the cemetery, it is marked as a duplicate when
    /// an identical piece already stands on the board, and the turn passes.
    pub fn drop_piece(&mut self, piece: &mut Piece, x: usize, y: usize) -> (r: Result<
        (),
        GameError,
    >)
        requires
            old(self).wf(),
            x < 3,
            y < 4,
        ensures
            final(self).wf(),
            ({
                let step = drop_piece_spec(old(self).model(), *old(piece), x as int, y as int);
                &&& final(self).model() == step.0
                &&& *final(piece) == step.1
                &&& (match r {
                    Ok(u) => step.2 is None,
                    Err(e) => step.2 == Some(e),
                })
            }),
    {
        broadcast use vstd::seq_lib::group_filter_ensures;

        let occupied = match self.get(x, y) {
            Some(u) => true,
            None => false,
        };
        if occupied {
            return Err(GameError::IllegalMove);
        }
        let ghost m0 = self.model();
        let in_cem = match piece.color {
            Color::White => contains_piece(&self.white_cemetery, piece),
            Color::Black => contains_piece(&self.black_cemetery, piece),
        };
        if !in_cem {
            return Err(GameError::IllegalMove);
        }
        match piece.color {
            Color::White => {
                let filtered = retain_not_equal(&self.white_cemetery, piece);
                self.white_cemetery = filtered;
            },
            Color::Black => {
                let filtered = retain_not_equal(&self.black_cemetery, piece);
                self.black_cemetery = filtered;
            },
        }
        let on_board = match self.find_piece_on_board(piece) {
            Ok(u) => true,
            Err(e) => false,
        };
        if on_board {
            piece.is_duplicated = true;
        }
        self.put(x, y, piece);
        self.is_white_turn = !self.is_white_turn;
        Ok(())
    }

    /// The color whose turn it is.
    pub fn get_turn(&self) -> (r: Color)
        ensures
            r == turn_color(self.model()),
    {
        if self.is_white_turn {
            Color::White
        } else {
            Color::Black
        }
    }

    /// Whether the game is decided.
    pub fn is_game_over(&self) -> (r: bool)
        ensures
            r == (self.model().winner is Some),
    {
        self.winner.is_some()
    }
}

} // verus!
