use vstd::prelude::*;

use crate::board::{
    spec_from_coords, spec_king_square, spec_quiet, CastleSide, CastlingRights, ChessMove, Color, Piece,
    PieceKind, Position, PositionModel, Square,
};

verus! {

// ---------------------------------------------------------------------------
// Geometry
// ---------------------------------------------------------------------------

/// The square `df` files and `dr` ranks away from `from`, if on the board.
pub open spec fn spec_offset(from: Square, df: int, dr: int) -> Option<Square> {
    spec_from_coords(from.spec_file() + df, from.spec_rank() + dr)
}

/// Distance still to travel towards the edge in direction (`df`, `dr`);
/// every step of a ray inside the board lowers it.
pub open spec fn ray_measure(sq: Square, df: int, dr: int) -> int {
    (if df > 0 {
        7 - sq.spec_file()
    } else if df < 0 {
        sq.spec_file()
    } else {
        0
    }) + (if dr > 0 {
        7 - sq.spec_rank()
    } else if dr < 0 {
        sq.spec_rank()
    } else {
        0
    })
}

/// A square built from an on-board file and rank has that file and rank.
pub proof fn lemma_coords(file: int, rank: int)
    requires
        0 <= file < 8,
        0 <= rank < 8,
    ensures
        ({
            let s = Square((rank * 8 + file) as u8);
            &&& s.0 < 64
            &&& s.spec_file() == file
            &&& s.spec_rank() == rank
            &&& s.0 as int == rank * 8 + file
        }),
{
    assert(0 <= rank * 8 + file < 64) by (nonlinear_arith)
        requires
            0 <= file < 8,
            0 <= rank < 8,
    ;
    let v = (rank * 8 + file) as u8;
    assert(v as int == rank * 8 + file);
    assert((rank * 8 + file) % 8 == file && (rank * 8 + file) / 8 == rank) by (nonlinear_arith)
        requires
            0 <= file < 8,
            0 <= rank < 8,
    ;
}

/// Any square has file below 8; a square below 64 has rank below 8.
pub proof fn lemma_square_bounds(s: Square)
    ensures
        0 <= s.spec_file() < 8,
        0 <= s.spec_rank(),
        s.0 < 64 ==> s.spec_rank() < 8,
        s.0 as int == s.spec_rank() * 8 + s.spec_file(),
{
}

/// One step along a direction inside the board lowers the ray measure.
pub proof fn lemma_offset_step(cur: Square, df: int, dr: int)
    requires
        !(df == 0 && dr == 0),
        spec_offset(cur, df, dr) is Some,
    ensures
        ({
            let n = spec_offset(cur, df, dr)->0;
            &&& n.0 < 64
            &&& n.spec_file() == cur.spec_file() + df
            &&& n.spec_rank() == cur.spec_rank() + dr
            &&& 0 <= ray_measure(n, df, dr) < ray_measure(cur, df, dr)
        }),
{
    lemma_coords(cur.spec_file() + df, cur.spec_rank() + dr);
}

/// Whether a ray from `cur` in direction (`df`, `dr`) reaches `target`
/// before it is stopped by a piece (the blocking square itself is reached).
pub open spec fn ray_hits(
    board: Seq<Option<Piece>>,
    cur: Square,
    df: int,
    dr: int,
    target: Square,
) -> bool
    decreases ray_measure(cur, df, dr),
{
    if df == 0 && dr == 0 {
        false
    } else {
        match spec_offset(cur, df, dr) {
            None => false,
            Some(n) => {
                proof {
                    lemma_offset_step(cur, df, dr);
                }
                n == target || (board[n.0 as int] is None && ray_hits(board, n, df, dr, target))
            },
        }
    }
}

pub open spec fn knight_deltas() -> Seq<(i8, i8)> {
    seq![(-2i8, -1i8), (-2i8, 1i8), (-1i8, -2i8), (-1i8, 2i8), (1i8, -2i8), (1i8, 2i8), (2i8, -1i8), (2i8, 1i8)]
}

pub open spec fn king_deltas() -> Seq<(i8, i8)> {
    seq![(-1i8, -1i8), (-1i8, 1i8), (1i8, -1i8), (1i8, 1i8), (-1i8, 0i8), (1i8, 0i8), (0i8, -1i8), (0i8, 1i8)]
}

pub open spec fn bishop_deltas() -> Seq<(i8, i8)> {
    seq![(-1i8, -1i8), (-1i8, 1i8), (1i8, -1i8), (1i8, 1i8)]
}

pub open spec fn rook_deltas() -> Seq<(i8, i8)> {
    seq![(-1i8, 0i8), (1i8, 0i8), (0i8, -1i8), (0i8, 1i8)]
}

/// Squares a pawn of `by` attacks, as offsets.
pub open spec fn pawn_attack_deltas(by: Color) -> Seq<(i8, i8)> {
    match by {
        Color::White => seq![(-1i8, 1i8), (1i8, 1i8)],
        Color::Black => seq![(-1i8, -1i8), (1i8, -1i8)],
    }
}

/// The directions a sliding piece moves along, or the steps of a stepping piece.
pub open spec fn kind_deltas(kind: PieceKind, by: Color) -> Seq<(i8, i8)> {
    match kind {
        PieceKind::Pawn => pawn_attack_deltas(by),
        PieceKind::Knight => knight_deltas(),
        PieceKind::Bishop => bishop_deltas(),
        PieceKind::Rook => rook_deltas(),
        PieceKind::Queen => king_deltas(),
        PieceKind::King => king_deltas(),
    }
}

pub open spec fn is_slider(kind: PieceKind) -> bool {
    kind == PieceKind::Bishop || kind == PieceKind::Rook || kind == PieceKind::Queen
}

/// Whether the piece on square index `i` belongs to `by` and attacks `target`.
pub open spec fn piece_attacks(board: Seq<Option<Piece>>, i: int, target: Square, by: Color) -> bool {
    match board[i] {
        Some(p) => p.color == by && {
            let from = Square(i as u8);
            let ds = kind_deltas(p.kind, by);
            if is_slider(p.kind) {
                exists|k: int|
                    0 <= k < ds.len() && ray_hits(board, from, (#[trigger] ds[k]).0 as int, ds[k].1 as int, target)
            } else {
                exists|k: int|
                    0 <= k < ds.len() && spec_offset(from, (#[trigger] ds[k]).0 as int, ds[k].1 as int)
                        == Some(target)
            }
        },
        None => false,
    }
}

/// Whether some piece of `by` attacks `target`.
pub open spec fn spec_attacked(board: Seq<Option<Piece>>, target: Square, by: Color) -> bool {
    exists|i: int| 0 <= i < 64 && #[trigger] piece_attacks(board, i, target, by)
}

/// Whether the king of `color` (the lowest-numbered one) is attacked; a side
/// without a king is never in check.
pub open spec fn spec_in_check(board: Seq<Option<Piece>>, color: Color) -> bool {
    match spec_king_square(board, color) {
        Some(k) => spec_attacked(board, k, color.spec_opposite()),
        None => false,
    }
}

// ---------------------------------------------------------------------------
// Executable geometry and attacks
// ---------------------------------------------------------------------------

fn offset_square(from: Square, df: i8, dr: i8) -> (r: Option<Square>)
    requires
        -2 <= df <= 2,
        -2 <= dr <= 2,
    ensures
        r == spec_offset(from, df as int, dr as int),
        r matches Some(s) ==> s.0 < 64,
{
    let nf = (from.0 % 8) as i8 + df;
    let nr = (from.0 / 8) as i8 + dr;
    if 0 <= nf && nf < 8 && 0 <= nr && nr < 8 {
        proof {
            lemma_coords(nf as int, nr as int);
        }
        Square::from_coords(nf as u8, nr as u8)
    } else {
        None
    }
}

fn knight_delta_array() -> (r: [(i8, i8); 8])
    ensures
        r@ == knight_deltas(),
{
    let r: [(i8, i8); 8] = [(-2, -1), (-2, 1), (-1, -2), (-1, 2), (1, -2), (1, 2), (2, -1), (2, 1)];
    assert(r@ =~= knight_deltas());
    r
}

fn king_delta_array() -> (r: [(i8, i8); 8])
    ensures
        r@ == king_deltas(),
{
    let r: [(i8, i8); 8] = [(-1, -1), (-1, 1), (1, -1), (1, 1), (-1, 0), (1, 0), (0, -1), (0, 1)];
    assert(r@ =~= king_deltas());
    r
}

fn kind_delta_vec(kind: PieceKind, by: Color) -> (r: Vec<(i8, i8)>)
    ensures
        r@ == kind_deltas(kind, by),
        forall|k: int| 0 <= k < r.len() ==> -2 <= (#[trigger] r@[k]).0 <= 2 && -2 <= r@[k].1 <= 2,
        is_slider(kind) ==> forall|k: int|
            0 <= k < r.len() ==> !((#[trigger] r@[k]).0 == 0 && r@[k].1 == 0) && -1 <= r@[k].0 <= 1
                && -1 <= r@[k].1 <= 1,
{
    let r = match kind {
        PieceKind::Pawn => match by {
            Color::White => vec![(-1i8, 1i8), (1, 1)],
            Color::Black => vec![(-1i8, -1i8), (1, -1)],
        },
        PieceKind::Knight => vec![(-2i8, -1i8), (-2, 1), (-1, -2), (-1, 2), (1, -2), (1, 2), (2, -1), (2, 1)],
        PieceKind::Bishop => vec![(-1i8, -1i8), (-1, 1), (1, -1), (1, 1)],
        PieceKind::Rook => vec![(-1i8, 0i8), (1, 0), (0, -1), (0, 1)],
        _ => vec![(-1i8, -1i8), (-1, 1), (1, -1), (1, 1), (-1, 0), (1, 0), (0, -1), (0, 1)],
    };
    assert(r@ =~= kind_deltas(kind, by));
    r
}

/// Whether the ray from `from` along (`df`, `dr`) reaches `target`.
fn ray_reaches(position: &Position, from: Square, df: i8, dr: i8, target: Square) -> (r: bool)
    requires
        -1 <= df <= 1,
        -1 <= dr <= 1,
        !(df == 0 && dr == 0),
    ensures
        r == ray_hits(position.board@, from, df as int, dr as int, target),
{
    let mut cur = from;
    loop
        invariant
            -1 <= df <= 1,
            -1 <= dr <= 1,
            !(df == 0 && dr == 0),
            ray_hits(position.board@, from, df as int, dr as int, target) == ray_hits(
                position.board@,
                cur,
                df as int,
                dr as int,
                target,
            ),
        decreases ray_measure(cur, df as int, dr as int),
    {
        match offset_square(cur, df, dr) {
            None => {
                return false;
            },
            Some(next) => {
                proof {
                    lemma_offset_step(cur, df as int, dr as int);
                }
                if next == target {
                    return true;
                }
                if position.board[next.0 as usize].is_some() {
                    return false;
                }
                cur = next;
            },
        }
    }
}

/// Whether the piece on square `idx` belongs to `by` and attacks `target`.
fn piece_attacks_exec(position: &Position, idx: usize, target: Square, by: Color) -> (r: bool)
    requires
        idx < 64,
    ensures
        r == piece_attacks(position.board@, idx as int, target, by),
{
    let from = Square(idx as u8);
    match position.board[idx] {
        None => false,
        Some(piece) => {
            if piece.color != by {
                return false;
            }
            let ds = kind_delta_vec(piece.kind, by);
            let slider = piece.kind == PieceKind::Bishop || piece.kind == PieceKind::Rook
                || piece.kind == PieceKind::Queen;
            let mut k: usize = 0;
            while k < ds.len()
                invariant
                    k <= ds.len(),
                    ds@ == kind_deltas(piece.kind, by),
                    position.board@[idx as int] == Some(piece),
                    piece.color == by,
                    from == Square(idx as u8),
                    slider == is_slider(piece.kind),
                    forall|j: int|
                        0 <= j < ds.len() ==> -2 <= (#[trigger] ds@[j]).0 <= 2 && -2 <= ds@[j].1 <= 2,
                    is_slider(piece.kind) ==> forall|j: int|
                        0 <= j < ds.len() ==> !((#[trigger] ds@[j]).0 == 0 && ds@[j].1 == 0) && -1
                            <= ds@[j].0 <= 1 && -1 <= ds@[j].1 <= 1,
                    slider ==> forall|j: int|
                        0 <= j < k ==> !ray_hits(
                            position.board@,
                            from,
                            (#[trigger] ds@[j]).0 as int,
                            ds@[j].1 as int,
                            target,
                        ),
                    !slider ==> forall|j: int|
                        0 <= j < k ==> spec_offset(from, (#[trigger] ds@[j]).0 as int, ds@[j].1 as int)
                            != Some(target),
                decreases ds.len() - k,
            {
                let (df, dr) = ds[k];
                if slider {
                    if ray_reaches(position, from, df, dr, target) {
                        assert(ray_hits(position.board@, from, ds@[k as int].0 as int, ds@[k as int].1 as int, target));
                        return true;
                    }
                } else {
                    match offset_square(from, df, dr) {
                        Some(to) => {
                            if to == target {
                                assert(spec_offset(from, ds@[k as int].0 as int, ds@[k as int].1 as int) == Some(target));
                                return true;
                            }
                        },
                        None => {},
                    }
                }
                k += 1;
            }
            false
        },
    }
}

/// Whether any piece of `by` attacks `target`.
pub fn is_square_attacked(position: &Position, target: Square, by: Color) -> (r: bool)
    ensures
        r == spec_attacked(position.board@, target, by),
{
    let mut idx: usize = 0;
    while idx < 64
        invariant
            idx <= 64,
            forall|j: int| 0 <= j < idx ==> !#[trigger] piece_attacks(position.board@, j, target, by),
        decreases 64 - idx,
    {
        if piece_attacks_exec(position, idx, target, by) {
            return true;
        }
        idx += 1;
    }
    false
}

/// Whether the king of `color` stands attacked (false if `color` has no king).
pub fn is_in_check(position: &Position, color: Color) -> (r: bool)
    ensures
        r == spec_in_check(position.board@, color),
{
    match position.king_square(color) {
        Some(sq) => is_square_attacked(position, sq, color.opposite()),
        None => false,
    }
}


// ---------------------------------------------------------------------------
// Pseudo-legal moves: what they are
// ---------------------------------------------------------------------------

/// A capturing move from `from` to `to`.
pub open spec fn spec_capture(from: Square, to: Square) -> ChessMove {
    ChessMove {
        from,
        to,
        promotion: None,
        is_capture: true,
        is_en_passant: false,
        castle: None,
    }
}

/// An en-passant capture from `from` to `to`.
pub open spec fn spec_en_passant_move(from: Square, to: Square) -> ChessMove {
    ChessMove {
        from,
        to,
        promotion: None,
        is_capture: true,
        is_en_passant: true,
        castle: None,
    }
}

/// A castling move of the king from `from` to `to`.
pub open spec fn spec_castle_move(from: Square, to: Square, side: CastleSide) -> ChessMove {
    ChessMove {
        from,
        to,
        promotion: None,
        is_capture: false,
        is_en_passant: false,
        castle: Some(side),
    }
}

pub open spec fn with_promotion(m: ChessMove, k: PieceKind) -> ChessMove {
    ChessMove { promotion: Some(k), ..m }
}

/// The four promotions of a pawn move, queen first.
pub open spec fn promotions(m: ChessMove) -> Seq<ChessMove> {
    seq![
        with_promotion(m, PieceKind::Queen),
        with_promotion(m, PieceKind::Rook),
        with_promotion(m, PieceKind::Bishop),
        with_promotion(m, PieceKind::Knight),
    ]
}

/// The move to `to` of a piece of `color` standing on `from`, if `to` is
/// empty (a plain move) or holds an enemy piece (a capture).
pub open spec fn step_to(board: Seq<Option<Piece>>, from: Square, to: Square, color: Color) -> Seq<ChessMove> {
    match board[to.0 as int] {
        None => seq![spec_quiet(from, to)],
        Some(p) => if p.color != color {
            seq![spec_capture(from, to)]
        } else {
            seq![]
        },
    }
}

/// The single-step move along delta `d`, if any.
pub open spec fn step_one(board: Seq<Option<Piece>>, from: Square, color: Color, d: (i8, i8)) -> Seq<ChessMove> {
    match spec_offset(from, d.0 as int, d.1 as int) {
        None => seq![],
        Some(to) => step_to(board, from, to, color),
    }
}

/// Single-step moves along the first `n` deltas of `ds`, in order.
pub open spec fn step_moves(
    board: Seq<Option<Piece>>,
    from: Square,
    color: Color,
    ds: Seq<(i8, i8)>,
    n: int,
) -> Seq<ChessMove>
    decreases n,
{
    if n <= 0 {
        seq![]
    } else {
        step_moves(board, from, color, ds, n - 1) + step_one(board, from, color, ds[n - 1])
    }
}

/// Moves of a sliding piece of `color` on `from` along the ray that continues
/// from `cur`: every empty square, then an enemy piece that stops the ray.
pub open spec fn ray_moves(
    board: Seq<Option<Piece>>,
    from: Square,
    cur: Square,
    df: int,
    dr: int,
    color: Color,
) -> Seq<ChessMove>
    decreases ray_measure(cur, df, dr),
{
    if df == 0 && dr == 0 {
        seq![]
    } else {
        match spec_offset(cur, df, dr) {
            None => seq![],
            Some(to) => {
                proof {
                    lemma_offset_step(cur, df, dr);
                }
                match board[to.0 as int] {
                    None => seq![spec_quiet(from, to)] + ray_moves(board, from, to, df, dr, color),
                    Some(p) => if p.color != color {
                        seq![spec_capture(from, to)]
                    } else {
                        seq![]
                    },
                }
            },
        }
    }
}

/// Sliding moves along the first `n` directions of `ds`, in order.
pub open spec fn slider_moves(
    board: Seq<Option<Piece>>,
    from: Square,
    color: Color,
    ds: Seq<(i8, i8)>,
    n: int,
) -> Seq<ChessMove>
    decreases n,
{
    if n <= 0 {
        seq![]
    } else {
        slider_moves(board, from, color, ds, n - 1) + ray_moves(
            board,
            from,
            from,
            ds[n - 1].0 as int,
            ds[n - 1].1 as int,
            color,
        )
    }
}

pub open spec fn pawn_dir(c: Color) -> int {
    match c {
        Color::White => 1,
        Color::Black => -1,
    }
}

pub open spec fn pawn_start_rank(c: Color) -> int {
    match c {
        Color::White => 1,
        Color::Black => 6,
    }
}

pub open spec fn pawn_promo_rank(c: Color) -> int {
    match c {
        Color::White => 7,
        Color::Black => 0,
    }
}

/// A pawn move to `to`: four promotions on the last rank, else one move.
pub open spec fn pawn_advance(from: Square, to: Square, c: Color) -> Seq<ChessMove> {
    if to.spec_rank() == pawn_promo_rank(c) {
        promotions(spec_quiet(from, to))
    } else {
        seq![spec_quiet(from, to)]
    }
}

/// Forward pawn moves: one step onto an empty square, and from the start
/// rank a second step when both squares are empty.
pub open spec fn pawn_pushes(pos: PositionModel, from: Square, c: Color) -> Seq<ChessMove> {
    let board = pos.board;
    match spec_offset(from, 0, pawn_dir(c)) {
        Some(one) => if board[one.0 as int] is None {
            pawn_advance(from, one, c) + if from.spec_rank() == pawn_start_rank(c) {
                match spec_offset(from, 0, 2 * pawn_dir(c)) {
                    Some(two) => if board[two.0 as int] is None {
                        seq![spec_quiet(from, two)]
                    } else {
                        seq![]
                    },
                    None => seq![],
                }
            } else {
                seq![]
            }
        } else {
            seq![]
        },
        None => seq![],
    }
}

/// Diagonal pawn moves towards file offset `df`: captures (promoting on the
/// last rank) and the en-passant capture onto the en-passant target.
pub open spec fn pawn_capture(pos: PositionModel, from: Square, c: Color, df: int) -> Seq<ChessMove> {
    match spec_offset(from, df, pawn_dir(c)) {
        None => seq![],
        Some(to) => match pos.board[to.0 as int] {
            Some(tp) => if tp.color != c {
                if to.spec_rank() == pawn_promo_rank(c) {
                    promotions(spec_capture(from, to))
                } else {
                    seq![spec_capture(from, to)]
                }
            } else {
                seq![]
            },
            None => if pos.en_passant_target == Some(to) {
                seq![spec_en_passant_move(from, to)]
            } else {
                seq![]
            },
        },
    }
}

pub open spec fn pawn_moves(pos: PositionModel, from: Square, c: Color) -> Seq<ChessMove> {
    pawn_pushes(pos, from, c) + pawn_capture(pos, from, c, -1) + pawn_capture(pos, from, c, 1)
}

pub open spec fn home_rank(c: Color) -> int {
    match c {
        Color::White => 0,
        Color::Black => 7,
    }
}

pub open spec fn king_side_right(r: CastlingRights, c: Color) -> bool {
    match c {
        Color::White => r.white_king_side,
        Color::Black => r.black_king_side,
    }
}

pub open spec fn queen_side_right(r: CastlingRights, c: Color) -> bool {
    match c {
        Color::White => r.white_queen_side,
        Color::Black => r.black_queen_side,
    }
}


/// The square on the home rank of `c` at `file`.
pub open spec fn home_square(c: Color, file: int) -> Square {
    Square((home_rank(c) * 8 + file) as u8)
}

/// Castling moves of the king of `c` standing on `from`: none while in check
/// or off e1/e8; king side when the right is kept, f and g are empty and not
/// attacked; queen side when the right is kept, b, c and d are empty and c
/// and d are not attacked.
pub open spec fn castling_moves(pos: PositionModel, from: Square, c: Color) -> Seq<ChessMove> {
    let board = pos.board;
    let opp = c.spec_opposite();
    if spec_in_check(board, c) || from != home_square(c, 4) {
        seq![]
    } else {
        (if king_side_right(pos.castling, c) && board[home_square(c, 5).0 as int] is None
            && board[home_square(c, 6).0 as int] is None && !spec_attacked(board, home_square(c, 5), opp)
            && !spec_attacked(board, home_square(c, 6), opp) {
            seq![spec_castle_move(from, home_square(c, 6), CastleSide::KingSide)]
        } else {
            seq![]
        }) + (if queen_side_right(pos.castling, c) && board[home_square(c, 1).0 as int] is None
            && board[home_square(c, 2).0 as int] is None && board[home_square(c, 3).0 as int] is None
            && !spec_attacked(board, home_square(c, 2), opp) && !spec_attacked(board, home_square(c, 3), opp) {
            seq![spec_castle_move(from, home_square(c, 2), CastleSide::QueenSide)]
        } else {
            seq![]
        })
    }
}

/// Pseudo-legal moves of the piece on square index `i`, if it belongs to
/// the side to move.
pub open spec fn piece_moves(pos: PositionModel, i: int) -> Seq<ChessMove> {
    let board = pos.board;
    let from = Square(i as u8);
    match board[i] {
        None => seq![],
        Some(p) => if p.color != pos.side_to_move {
            seq![]
        } else {
            match p.kind {
                PieceKind::Pawn => pawn_moves(pos, from, p.color),
                PieceKind::Knight => step_moves(board, from, p.color, knight_deltas(), 8),
                PieceKind::Bishop => slider_moves(board, from, p.color, bishop_deltas(), 4),
                PieceKind::Rook => slider_moves(board, from, p.color, rook_deltas(), 4),
                PieceKind::Queen => slider_moves(board, from, p.color, king_deltas(), 8),
                PieceKind::King => step_moves(board, from, p.color, king_deltas(), 8) + castling_moves(
                    pos,
                    from,
                    p.color,
                ),
            }
        },
    }
}

/// Pseudo-legal moves of the pieces on squares `0 .. n`, square by square.
pub open spec fn pseudo_moves_upto(pos: PositionModel, n: int) -> Seq<ChessMove>
    decreases n,
{
    if n <= 0 {
        seq![]
    } else {
        pseudo_moves_upto(pos, n - 1) + piece_moves(pos, n - 1)
    }
}

/// All pseudo-legal moves of the side to move (own king safety not checked),
/// square a1 first, each piece's moves in its fixed direction order.
pub open spec fn spec_pseudo_moves(pos: PositionModel) -> Seq<ChessMove> {
    pseudo_moves_upto(pos, 64)
}

/// The square of the pawn that an en-passant capture by `color` onto `to` removes.
pub open spec fn ep_victim_square(color: Color, to: Square) -> Square {
    Square(((to.spec_rank() - pawn_dir(color)) * 8 + to.spec_file()) as u8)
}

/// What `apply_move` needs of a move to run: both squares on the board, a
/// piece to move when castling, and an en-passant victim square on the board.
pub open spec fn move_applicable(pos: PositionModel, mv: ChessMove) -> bool {
    &&& mv.from.0 < 64
    &&& mv.to.0 < 64
    &&& mv.castle is Some ==> pos.board[mv.from.0 as int] is Some
    &&& mv.is_en_passant ==> match pos.board[mv.from.0 as int] {
        Some(p) => 0 <= mv.to.spec_rank() - pawn_dir(p.color) < 8,
        None => true,
    }
}


pub open spec fn all_applicable(pos: PositionModel, ms: Seq<ChessMove>) -> bool {
    forall|k: int| 0 <= k < ms.len() ==> move_applicable(pos, #[trigger] ms[k])
}

// ---------------------------------------------------------------------------
// Pseudo-legal moves: how they are generated
// ---------------------------------------------------------------------------

fn push_move(out: &mut Vec<ChessMove>, mv: ChessMove, Ghost(pos): Ghost<PositionModel>)
    requires
        all_applicable(pos, old(out)@),
        move_applicable(pos, mv),
    ensures
        final(out)@ == old(out)@ + seq![mv],
        all_applicable(pos, final(out)@),
{
    out.push(mv);
    assert(final(out)@ =~= old(out)@ + seq![mv]);
}

fn push_step(position: &Position, from: Square, to: Square, color: Color, out: &mut Vec<ChessMove>)
    requires
        from.0 < 64,
        to.0 < 64,
        all_applicable(position@, old(out)@),
    ensures
        final(out)@ == old(out)@ + step_to(position.board@, from, to, color),
        all_applicable(position@, final(out)@),
{
    match position.board[to.0 as usize] {
        None => push_move(out, ChessMove::new(from, to), Ghost(position@)),
        Some(p) => {
            if p.color != color {
                let mut mv = ChessMove::new(from, to);
                mv.is_capture = true;
                push_move(out, mv, Ghost(position@));
            } else {
                assert(out@ =~= old(out)@ + step_to(position.board@, from, to, color));
            }
        },
    }
}

#[verifier::spinoff_prover]
fn push_step_moves(
    position: &Position,
    from: Square,
    color: Color,
    ds: &[(i8, i8)],
    out: &mut Vec<ChessMove>,
)
    requires
        from.0 < 64,
        forall|k: int| 0 <= k < ds@.len() ==> -2 <= (#[trigger] ds@[k]).0 <= 2 && -2 <= ds@[k].1 <= 2,
        all_applicable(position@, old(out)@),
    ensures
        final(out)@ == old(out)@ + step_moves(position.board@, from, color, ds@, ds@.len() as int),
        all_applicable(position@, final(out)@),
{
    let mut k: usize = 0;
    while k < ds.len()
        invariant
            k <= ds@.len(),
            from.0 < 64,
            forall|j: int| 0 <= j < ds@.len() ==> -2 <= (#[trigger] ds@[j]).0 <= 2 && -2 <= ds@[j].1 <= 2,
            out@ == old(out)@ + step_moves(position.board@, from, color, ds@, k as int),
            all_applicable(position@, out@),
        decreases ds@.len() - k,
    {
        let (df, dr) = ds[k];
        let ghost before = out@;
        match offset_square(from, df, dr) {
            Some(to) => push_step(position, from, to, color, out),
            None => {},
        }
        assert(step_moves(position.board@, from, color, ds@, (k + 1) as int) == step_moves(
            position.board@,
            from,
            color,
            ds@,
            k as int,
        ) + step_one(position.board@, from, color, ds@[k as int]));
        assert(out@ =~= old(out)@ + step_moves(position.board@, from, color, ds@, (k + 1) as int));
        k += 1;
    }
}

fn push_knight_moves(position: &Position, from: Square, piece: Piece, out: &mut Vec<ChessMove>)
    requires
        from.0 < 64,
        all_applicable(position@, old(out)@),
    ensures
        final(out)@ == old(out)@ + step_moves(position.board@, from, piece.color, knight_deltas(), 8),
        all_applicable(position@, final(out)@),
{
    let ds = knight_delta_array();
    push_step_moves(position, from, piece.color, ds.as_slice(), out);
}

fn push_king_moves(position: &Position, from: Square, piece: Piece, out: &mut Vec<ChessMove>)
    requires
        from.0 < 64,
        all_applicable(position@, old(out)@),
    ensures
        final(out)@ == old(out)@ + step_moves(position.board@, from, piece.color, king_deltas(), 8),
        all_applicable(position@, final(out)@),
{
    let ds = king_delta_array();
    push_step_moves(position, from, piece.color, ds.as_slice(), out);
}

#[verifier::spinoff_prover]
fn push_ray_moves(
    position: &Position,
    from: Square,
    df: i8,
    dr: i8,
    color: Color,
    out: &mut Vec<ChessMove>,
)
    requires
        from.0 < 64,
        -1 <= df <= 1,
        -1 <= dr <= 1,
        !(df == 0 && dr == 0),
        all_applicable(position@, old(out)@),
    ensures
        final(out)@ == old(out)@ + ray_moves(position.board@, from, from, df as int, dr as int, color),
        all_applicable(position@, final(out)@),
{
    let mut cur = from;
    loop
        invariant
            from.0 < 64,
            -1 <= df <= 1,
            -1 <= dr <= 1,
            !(df == 0 && dr == 0),
            out@ + ray_moves(position.board@, from, cur, df as int, dr as int, color) == old(out)@
                + ray_moves(position.board@, from, from, df as int, dr as int, color),
            all_applicable(position@, out@),
        decreases ray_measure(cur, df as int, dr as int),
    {
        let ghost before = out@;
        match offset_square(cur, df, dr) {
            None => {
                assert(out@ =~= out@ + ray_moves(position.board@, from, cur, df as int, dr as int, color));
                return ;
            },
            Some(to) => {
                proof {
                    lemma_offset_step(cur, df as int, dr as int);
                }
                match position.board[to.0 as usize] {
                    None => {
                        push_move(out, ChessMove::new(from, to), Ghost(position@));
                        assert(before + ray_moves(position.board@, from, cur, df as int, dr as int, color)
                            =~= out@ + ray_moves(position.board@, from, to, df as int, dr as int, color));
                        cur = to;
                    },
                    Some(p) => {
                        if p.color != color {
                            let mut mv = ChessMove::new(from, to);
                            mv.is_capture = true;
                            push_move(out, mv, Ghost(position@));
                        }
                        assert(out@ =~= before + ray_moves(position.board@, from, cur, df as int, dr as int, color));
                        return ;
                    },
                }
            },
        }
    }
}

#[verifier::spinoff_prover]
fn push_slider_moves(
    position: &Position,
    from: Square,
    piece: Piece,
    deltas: &[(i8, i8)],
    out: &mut Vec<ChessMove>,
)
    requires
        from.0 < 64,
        forall|k: int|
            0 <= k < deltas@.len() ==> -1 <= (#[trigger] deltas@[k]).0 <= 1 && -1 <= deltas@[k].1 <= 1
                && !(deltas@[k].0 == 0 && deltas@[k].1 == 0),
        all_applicable(position@, old(out)@),
    ensures
        final(out)@ == old(out)@ + slider_moves(
            position.board@,
            from,
            piece.color,
            deltas@,
            deltas@.len() as int,
        ),
        all_applicable(position@, final(out)@),
{
    let mut k: usize = 0;
    while k < deltas.len()
        invariant
            k <= deltas@.len(),
            from.0 < 64,
            forall|j: int|
                0 <= j < deltas@.len() ==> -1 <= (#[trigger] deltas@[j]).0 <= 1 && -1 <= deltas@[j].1 <= 1
                    && !(deltas@[j].0 == 0 && deltas@[j].1 == 0),
            out@ == old(out)@ + slider_moves(position.board@, from, piece.color, deltas@, k as int),
            all_applicable(position@, out@),
        decreases deltas@.len() - k,
    {
        let (df, dr) = deltas[k];
        push_ray_moves(position, from, df, dr, piece.color, out);
        assert(out@ =~= old(out)@ + slider_moves(position.board@, from, piece.color, deltas@, (k + 1) as int));
        k += 1;
    }
}


#[verifier::spinoff_prover]
fn push_pawn_advance(from: Square, to: Square, promo_rank: u8, out: &mut Vec<ChessMove>, Ghost(pos): Ghost<PositionModel>)
    requires
        from.0 < 64,
        to.0 < 64,
        all_applicable(pos, old(out)@),
    ensures
        final(out)@ == old(out)@ + if to.spec_rank() == promo_rank {
            promotions(spec_quiet(from, to))
        } else {
            seq![spec_quiet(from, to)]
        },
        all_applicable(pos, final(out)@),
{
    if to.rank() == promo_rank {
        let kinds: [PieceKind; 4] = [PieceKind::Queen, PieceKind::Rook, PieceKind::Bishop, PieceKind::Knight];
        let mut i: usize = 0;
        while i < 4
            invariant
                i <= 4,
                from.0 < 64,
                to.0 < 64,
                kinds@ == seq![PieceKind::Queen, PieceKind::Rook, PieceKind::Bishop, PieceKind::Knight],
                out@ == old(out)@ + promotions(spec_quiet(from, to)).take(i as int),
                all_applicable(pos, out@),
            decreases 4 - i,
        {
            let mut mv = ChessMove::new(from, to);
            mv.promotion = Some(kinds[i]);
            push_move(out, mv, Ghost(pos));
            assert(promotions(spec_quiet(from, to)).take((i + 1) as int) =~= promotions(spec_quiet(from, to)).take(
                i as int,
            ).push(mv));
            assert(out@ =~= old(out)@ + promotions(spec_quiet(from, to)).take((i + 1) as int));
            i += 1;
        }
        assert(promotions(spec_quiet(from, to)).take(4) =~= promotions(spec_quiet(from, to)));
    } else {
        push_move(out, ChessMove::new(from, to), Ghost(pos));
    }
}

#[verifier::spinoff_prover]
fn push_pawn_capture_promotions(from: Square, to: Square, out: &mut Vec<ChessMove>, Ghost(pos): Ghost<PositionModel>)
    requires
        from.0 < 64,
        to.0 < 64,
        all_applicable(pos, old(out)@),
    ensures
        final(out)@ == old(out)@ + promotions(spec_capture(from, to)),
        all_applicable(pos, final(out)@),
{
    let kinds: [PieceKind; 4] = [PieceKind::Queen, PieceKind::Rook, PieceKind::Bishop, PieceKind::Knight];
    let mut i: usize = 0;
    while i < 4
        invariant
            i <= 4,
            from.0 < 64,
            to.0 < 64,
            kinds@ == seq![PieceKind::Queen, PieceKind::Rook, PieceKind::Bishop, PieceKind::Knight],
            out@ == old(out)@ + promotions(spec_capture(from, to)).take(i as int),
            all_applicable(pos, out@),
        decreases 4 - i,
    {
        let mut mv = ChessMove::new(from, to);
        mv.is_capture = true;
        mv.promotion = Some(kinds[i]);
        push_move(out, mv, Ghost(pos));
        assert(promotions(spec_capture(from, to)).take((i + 1) as int) =~= promotions(spec_capture(from, to)).take(
            i as int,
        ).push(mv));
        assert(out@ =~= old(out)@ + promotions(spec_capture(from, to)).take((i + 1) as int));
        i += 1;
    }
    assert(promotions(spec_capture(from, to)).take(4) =~= promotions(spec_capture(from, to)));
}

#[verifier::spinoff_prover]
fn push_pawn_moves(position: &Position, from: Square, piece: Piece, out: &mut Vec<ChessMove>)
    requires
        from.0 < 64,
        position.board@[from.0 as int] == Some(piece),
        all_applicable(position@, old(out)@),
    ensures
        final(out)@ == old(out)@ + pawn_moves(position@, from, piece.color),
        all_applicable(position@, final(out)@),
{
    let ghost pos = position@;
    let c = piece.color;
    let dir: i8 = if c == Color::White { 1 } else { -1 };
    let start_rank: u8 = if c == Color::White { 1 } else { 6 };
    let promo_rank: u8 = if c == Color::White { 7 } else { 0 };
    let ghost o = old(out)@;

    match offset_square(from, 0, dir) {
        Some(one) => {
            if position.board[one.0 as usize].is_none() {
                push_pawn_advance(from, one, promo_rank, out, Ghost(pos));
                if from.rank() == start_rank {
                    match offset_square(from, 0, dir * 2) {
                        Some(two) => {
                            if position.board[two.0 as usize].is_none() {
                                push_move(out, ChessMove::new(from, two), Ghost(pos));
                            }
                        },
                        None => {},
                    }
                }
            }
        },
        None => {},
    }
    assert(out@ =~= o + pawn_pushes(pos, from, c));
    let ghost after_push = out@;

    let dfs: [i8; 2] = [-1, 1];
    let mut i: usize = 0;
    while i < 2
        invariant
            i <= 2,
            from.0 < 64,
            dfs@ == seq![-1i8, 1i8],
            pos == position@,
            c == piece.color,
            position.board@[from.0 as int] == Some(piece),
            dir as int == pawn_dir(c),
            promo_rank as int == pawn_promo_rank(c),
            after_push == o + pawn_pushes(pos, from, c),
            i == 0 ==> out@ == after_push,
            i == 1 ==> out@ == after_push + pawn_capture(pos, from, c, -1),
            i == 2 ==> out@ == after_push + pawn_capture(pos, from, c, -1) + pawn_capture(pos, from, c, 1),
            all_applicable(pos, out@),
        decreases 2 - i,
    {
        let df = dfs[i];
        let ghost before = out@;
        match offset_square(from, df, dir) {
            Some(to) => {
                match position.board[to.0 as usize] {
                    Some(tp) => {
                        if tp.color != c {
                            if to.rank() == promo_rank {
                                push_pawn_capture_promotions(from, to, out, Ghost(pos));
                            } else {
                                let mut mv = ChessMove::new(from, to);
                                mv.is_capture = true;
                                push_move(out, mv, Ghost(pos));
                            }
                        }
                    },
                    None => {
                        let is_target = match position.en_passant_target {
                            Some(t) => t == to,
                            None => false,
                        };
                        if is_target {
                            let mut mv = ChessMove::new(from, to);
                            mv.is_capture = true;
                            mv.is_en_passant = true;
                            proof {
                                lemma_offset_step(from, df as int, dir as int);
                                lemma_square_bounds(from);
                                assert(mv.to.spec_rank() - pawn_dir(piece.color) == from.spec_rank());
                            }
                            push_move(out, mv, Ghost(pos));
                        }
                    },
                }
            },
            None => {},
        }
        assert(out@ =~= before + pawn_capture(pos, from, c, df as int));
        i += 1;
    }
    assert(out@ =~= o + pawn_moves(pos, from, c));
}

#[verifier::spinoff_prover]
fn push_castling_moves(position: &Position, from: Square, piece: Piece, out: &mut Vec<ChessMove>)
    requires
        from.0 < 64,
        position.board@[from.0 as int] == Some(piece),
        all_applicable(position@, old(out)@),
    ensures
        piece.kind == PieceKind::King ==> final(out)@ == old(out)@ + castling_moves(position@, from, piece.color),
        piece.kind != PieceKind::King ==> final(out)@ == old(out)@,
        all_applicable(position@, final(out)@),
{
    let ghost pos = position@;
    let ghost o = old(out)@;
    if piece.kind != PieceKind::King {
        return ;
    }
    let c = piece.color;
    if is_in_check(position, c) {
        assert(out@ =~= o + castling_moves(pos, from, c));
        return ;
    }
    let rank: u8 = if c == Color::White { 0 } else { 7 };
    let king_side_ok = if c == Color::White { position.castling.white_king_side } else { position.castling.black_king_side };
    let queen_side_ok = if c == Color::White { position.castling.white_queen_side } else { position.castling.black_queen_side };
    if from.0 != rank * 8 + 4 {
        assert(out@ =~= o + castling_moves(pos, from, c));
        return ;
    }
    let opp = c.opposite();
    let ghost ks_part: Seq<ChessMove> = seq![];
    if king_side_ok {
        let f = Square(rank * 8 + 5);
        let g = Square(rank * 8 + 6);
        if position.board[f.0 as usize].is_none() && position.board[g.0 as usize].is_none()
            && !is_square_attacked(position, f, opp) && !is_square_attacked(position, g, opp) {
            let mut mv = ChessMove::new(from, g);
            mv.castle = Some(CastleSide::KingSide);
            push_move(out, mv, Ghost(pos));
        }
    }
    let ghost mid = out@;
    if queen_side_ok {
        let b = Square(rank * 8 + 1);
        let cc = Square(rank * 8 + 2);
        let d = Square(rank * 8 + 3);
        if position.board[b.0 as usize].is_none() && position.board[cc.0 as usize].is_none()
            && position.board[d.0 as usize].is_none() && !is_square_attacked(position, cc, opp)
            && !is_square_attacked(position, d, opp) {
            let mut mv = ChessMove::new(from, cc);
            mv.castle = Some(CastleSide::QueenSide);
            push_move(out, mv, Ghost(pos));
        }
    }
    assert(out@ =~= o + castling_moves(pos, from, c));
}

/// Pushes the pseudo-legal moves of the piece on square `idx`.
#[verifier::spinoff_prover]
fn push_piece_moves(position: &Position, idx: usize, out: &mut Vec<ChessMove>)
    requires
        idx < 64,
        all_applicable(position@, old(out)@),
    ensures
        final(out)@ == old(out)@ + piece_moves(position@, idx as int),
        all_applicable(position@, final(out)@),
{
    let from = Square(idx as u8);
    match position.board[idx] {
        None => {
            assert(out@ =~= old(out)@ + piece_moves(position@, idx as int));
        },
        Some(piece) => {
            if piece.color != position.side_to_move {
                assert(out@ =~= old(out)@ + piece_moves(position@, idx as int));
                return ;
            }
            match piece.kind {
                PieceKind::Pawn => push_pawn_moves(position, from, piece, out),
                PieceKind::Knight => push_knight_moves(position, from, piece, out),
                PieceKind::Bishop => {
                    let ds: [(i8, i8); 4] = [(-1, -1), (-1, 1), (1, -1), (1, 1)];
                    assert(ds@ =~= bishop_deltas());
                    push_slider_moves(position, from, piece, ds.as_slice(), out);
                },
                PieceKind::Rook => {
                    let ds: [(i8, i8); 4] = [(-1, 0), (1, 0), (0, -1), (0, 1)];
                    assert(ds@ =~= rook_deltas());
                    push_slider_moves(position, from, piece, ds.as_slice(), out);
                },
                PieceKind::Queen => {
                    let ds = king_delta_array();
                    push_slider_moves(position, from, piece, ds.as_slice(), out);
                },
                PieceKind::King => {
                    let ghost o = out@;
                    push_king_moves(position, from, piece, out);
                    push_castling_moves(position, from, piece, out);
                    assert(out@ =~= o + piece_moves(position@, idx as int));
                },
            }
        },
    }
}

/// All pseudo-legal moves of the side to move: the moves of each of its
/// pieces by the piece rules, castling included, own king safety not checked.
#[verifier::spinoff_prover]
pub fn generate_pseudo_legal_moves(position: &Position) -> (r: Vec<ChessMove>)
    ensures
        r@ == spec_pseudo_moves(position@),
        all_applicable(position@, r@),
{
    let mut moves: Vec<ChessMove> = Vec::new();
    let mut idx: usize = 0;
    while idx < 64
        invariant
            idx <= 64,
            moves@ == pseudo_moves_upto(position@, idx as int),
            all_applicable(position@, moves@),
        decreases 64 - idx,
    {
        push_piece_moves(position, idx, &mut moves);
        idx += 1;
    }
    moves
}


// ---------------------------------------------------------------------------
// Making and unmaking moves: what they do
// ---------------------------------------------------------------------------

/// The piece that arrives on the target square: the moving piece, turned
/// into the promotion kind if there is one.
pub open spec fn arriving_piece(piece: Option<Piece>, promotion: Option<PieceKind>) -> Option<Piece> {
    match (piece, promotion) {
        (Some(p), Some(k)) => Some(Piece { color: p.color, kind: k }),
        (None, Some(_)) => None,
        (p, None) => p,
    }
}

/// Side of the piece, White when there is none.
pub open spec fn color_or_white(piece: Option<Piece>) -> Color {
    match piece {
        Some(p) => p.color,
        None => Color::White,
    }
}

/// The rook's start and end squares when `c` castles on `side`.
pub open spec fn rook_squares(side: CastleSide, c: Color) -> (Square, Square) {
    match side {
        CastleSide::KingSide => (home_square(c, 7), home_square(c, 5)),
        CastleSide::QueenSide => (home_square(c, 0), home_square(c, 3)),
    }
}

/// Board after the moving piece leaves `from`.
pub open spec fn board_after_lift(pos: PositionModel, mv: ChessMove) -> Seq<Option<Piece>> {
    pos.board.update(mv.from.0 as int, None)
}

/// ... and after an en-passant victim is removed.
pub open spec fn board_after_victim(pos: PositionModel, mv: ChessMove) -> Seq<Option<Piece>> {
    let piece = pos.board[mv.from.0 as int];
    let b1 = board_after_lift(pos, mv);
    if mv.is_en_passant && piece is Some {
        b1.update(ep_victim_square(piece->0.color, mv.to).0 as int, None)
    } else {
        b1
    }
}

/// ... and after the rook is lifted when castling.
pub open spec fn board_after_rook_lift(pos: PositionModel, mv: ChessMove) -> Seq<Option<Piece>> {
    let b2 = board_after_victim(pos, mv);
    match mv.castle {
        Some(side) => b2.update(rook_squares(side, color_or_white(pos.board[mv.from.0 as int])).0.0 as int, None),
        None => b2,
    }
}

/// ... and after the rook lands when castling.
pub open spec fn board_after_rook(pos: PositionModel, mv: ChessMove) -> Seq<Option<Piece>> {
    let b2 = board_after_victim(pos, mv);
    match mv.castle {
        Some(side) => {
            let (rf, rt) = rook_squares(side, color_or_white(pos.board[mv.from.0 as int]));
            board_after_rook_lift(pos, mv).update(rt.0 as int, b2[rf.0 as int])
        },
        None => b2,
    }
}

/// The board after the move: the moving piece (promoted if asked) lands on
/// `to`, an en-passant victim is removed, a castling rook jumps over.
pub open spec fn spec_apply_board(pos: PositionModel, mv: ChessMove) -> Seq<Option<Piece>> {
    board_after_rook(pos, mv).update(
        mv.to.0 as int,
        arriving_piece(pos.board[mv.from.0 as int], mv.promotion),
    )
}

/// Castling rights without the right tied to a rook on corner `sq`.
pub open spec fn without_corner(c: CastlingRights, sq: Square) -> CastlingRights {
    if sq.spec_file() == 0 && sq.spec_rank() == 0 {
        CastlingRights { white_queen_side: false, ..c }
    } else if sq.spec_file() == 7 && sq.spec_rank() == 0 {
        CastlingRights { white_king_side: false, ..c }
    } else if sq.spec_file() == 0 && sq.spec_rank() == 7 {
        CastlingRights { black_queen_side: false, ..c }
    } else if sq.spec_file() == 7 && sq.spec_rank() == 7 {
        CastlingRights { black_king_side: false, ..c }
    } else {
        c
    }
}

/// Castling rights after a move: a king move drops both rights of its side,
/// a rook leaving a corner or any piece landing on a corner drops that
/// corner's right.
pub open spec fn spec_castling_after(c: CastlingRights, piece: Option<Piece>, mv: ChessMove) -> CastlingRights {
    let c1 = match piece {
        Some(p) => match p.kind {
            PieceKind::King => match p.color {
                Color::White => CastlingRights { white_king_side: false, white_queen_side: false, ..c },
                Color::Black => CastlingRights { black_king_side: false, black_queen_side: false, ..c },
            },
            PieceKind::Rook => without_corner(c, mv.from),
            _ => c,
        },
        None => c,
    };
    without_corner(c1, mv.to)
}

/// The en-passant target after a move: the square passed over by a pawn
/// that advanced two ranks, else none.
pub open spec fn spec_ep_after(piece: Option<Piece>, mv: ChessMove) -> Option<Square> {
    match piece {
        Some(p) => if p.kind == PieceKind::Pawn && (mv.from.spec_rank() - mv.to.spec_rank() == 2
            || mv.to.spec_rank() - mv.from.spec_rank() == 2) {
            spec_from_coords(mv.from.spec_file(), (mv.from.spec_rank() + mv.to.spec_rank()) / 2)
        } else {
            None
        },
        None => None,
    }
}

/// The position after `mv`: new board, castling rights and en-passant
/// target; the halfmove clock restarts on captures and pawn moves and
/// otherwise grows by one; the move number grows after Black's move; the
/// other side is to move; a king that moves has its square recorded.
pub open spec fn spec_apply(pos: PositionModel, mv: ChessMove) -> PositionModel {
    let piece = pos.board[mv.from.0 as int];
    PositionModel {
        board: spec_apply_board(pos, mv),
        side_to_move: pos.side_to_move.spec_opposite(),
        castling: spec_castling_after(pos.castling, piece, mv),
        en_passant_target: spec_ep_after(piece, mv),
        halfmove_clock: if mv.is_capture || (piece is Some && piece->0.kind == PieceKind::Pawn) {
            0
        } else {
            (pos.halfmove_clock + 1) as u32
        },
        fullmove_number: if pos.side_to_move == Color::Black {
            (pos.fullmove_number + 1) as u32
        } else {
            pos.fullmove_number
        },
        white_king: if piece == Some(Piece { color: Color::White, kind: PieceKind::King }) {
            mv.to
        } else {
            pos.white_king
        },
        black_king: if piece == Some(Piece { color: Color::Black, kind: PieceKind::King }) {
            mv.to
        } else {
            pos.black_king
        },
    }
}

/// Castling rights after a move, right by right: a right survives exactly
/// when it was held, the king of its colour did not move, no rook left its
/// corner (a1 for White's queen side, h1 for White's king side, a8 and h8 for
/// Black's), and nothing landed on that corner. So no right is ever gained.
pub proof fn lemma_castling_rights_after_move(pos: PositionModel, mv: ChessMove)
    ensures
        ({
            let piece = pos.board[mv.from.0 as int];
            let before = pos.castling;
            let after = spec_apply(pos, mv).castling;
            let white_king_moved = piece == Some(Piece { color: Color::White, kind: PieceKind::King });
            let black_king_moved = piece == Some(Piece { color: Color::Black, kind: PieceKind::King });
            let rook_moved = piece is Some && piece->0.kind == PieceKind::Rook;
            &&& after.white_queen_side == (before.white_queen_side && !white_king_moved && !(rook_moved && mv.from.0 == 0)
                && mv.to.0 != 0)
            &&& after.white_king_side == (before.white_king_side && !white_king_moved && !(rook_moved && mv.from.0 == 7)
                && mv.to.0 != 7)
            &&& after.black_queen_side == (before.black_queen_side && !black_king_moved && !(rook_moved && mv.from.0 == 56)
                && mv.to.0 != 56)
            &&& after.black_king_side == (before.black_king_side && !black_king_moved && !(rook_moved && mv.from.0 == 63)
                && mv.to.0 != 63)
        }),
{
    let piece = pos.board[mv.from.0 as int];
    let from = mv.from.0;
    let to = mv.to.0;
    assert((from % 8 == 0 && from / 8 == 0) <==> from == 0);
    assert((from % 8 == 7 && from / 8 == 0) <==> from == 7);
    assert((from % 8 == 0 && from / 8 == 7) <==> from == 56);
    assert((from % 8 == 7 && from / 8 == 7) <==> from == 63);
    assert((to % 8 == 0 && to / 8 == 0) <==> to == 0);
    assert((to % 8 == 7 && to / 8 == 0) <==> to == 7);
    assert((to % 8 == 0 && to / 8 == 7) <==> to == 56);
    assert((to % 8 == 7 && to / 8 == 7) <==> to == 63);
}

/// Making a move that is not a castling move: the piece leaves `from` and
/// stands on `to` (as the promotion kind if the move promotes); an
/// en-passant capture also removes the pawn behind `to` (one rank back from
/// the mover's point of view); every other square keeps its piece.
pub proof fn lemma_apply_board_plain(pos: PositionModel, mv: ChessMove)
    requires
        move_applicable(pos, mv),
        mv.castle is None,
        mv.from != mv.to,
        pos.board.len() == 64,
    ensures
        ({
            let b = pos.board;
            let piece = b[mv.from.0 as int];
            let after = spec_apply_board(pos, mv);
            let ep = mv.is_en_passant && piece is Some;
            let victim: int = if piece is Some && piece->0.color == Color::White {
                mv.to.0 - 8
            } else {
                mv.to.0 + 8
            };
            &&& after.len() == 64
            &&& after[mv.from.0 as int] is None
            &&& piece is Some ==> after[mv.to.0 as int] == match mv.promotion {
                Some(k) => Some(Piece { color: piece->0.color, kind: k }),
                None => piece,
            }
            &&& ep ==> 0 <= victim < 64 && after[victim] is None
            &&& forall|j: int|
                0 <= j < 64 && j != mv.from.0 && j != mv.to.0 && !(ep && j == victim) ==> #[trigger] after[j]
                    == b[j]
        }),
{
    let piece = pos.board[mv.from.0 as int];
    lemma_square_bounds(mv.to);
    if mv.is_en_passant && piece is Some {
        let v = ep_victim_square(piece->0.color, mv.to);
        lemma_coords(mv.to.spec_file(), mv.to.spec_rank() - pawn_dir(piece->0.color));
        assert(v.0 == if piece->0.color == Color::White {
            mv.to.0 - 8
        } else {
            mv.to.0 + 8
        });
    }
}

/// The move counters do not overflow when `mv` is made.
pub open spec fn counters_fit(pos: PositionModel, mv: ChessMove) -> bool {
    let piece = pos.board[mv.from.0 as int];
    &&& (mv.is_capture || (piece is Some && piece->0.kind == PieceKind::Pawn)) || pos.halfmove_clock < u32::MAX
    &&& pos.side_to_move == Color::Black ==> pos.fullmove_number < u32::MAX
}

/// Making a move hands the turn to the other side; the halfmove clock
/// restarts at 0 after a capture or a pawn move and otherwise grows by one;
/// the move number grows by one after Black's move and only then; the
/// en-passant target is set exactly when a pawn advanced two ranks, to the
/// square on its file that it passed over.
pub proof fn lemma_apply_turn_and_counters(pos: PositionModel, mv: ChessMove)
    requires
        counters_fit(pos, mv),
        mv.from.0 < 64,
        mv.to.0 < 64,
    ensures
        ({
            let piece = pos.board[mv.from.0 as int];
            let pawn = piece is Some && piece->0.kind == PieceKind::Pawn;
            let after = spec_apply(pos, mv);
            &&& after.side_to_move != pos.side_to_move
            &&& (mv.is_capture || pawn) ==> after.halfmove_clock == 0
            &&& !(mv.is_capture || pawn) ==> after.halfmove_clock == pos.halfmove_clock + 1
            &&& pos.side_to_move == Color::Black ==> after.fullmove_number == pos.fullmove_number + 1
            &&& pos.side_to_move == Color::White ==> after.fullmove_number == pos.fullmove_number
            &&& after.en_passant_target is Some <==> (pawn && (mv.to.spec_rank() == mv.from.spec_rank() + 2
                || mv.from.spec_rank() == mv.to.spec_rank() + 2))
            &&& after.en_passant_target matches Some(t) ==> {
                &&& t.spec_file() == mv.from.spec_file()
                &&& t.spec_rank() * 2 == mv.from.spec_rank() + mv.to.spec_rank()
            }
        }),
{
    let f = mv.from.spec_file();
    let mid = (mv.from.spec_rank() + mv.to.spec_rank()) / 2;
    lemma_square_bounds(mv.from);
    lemma_square_bounds(mv.to);
    if mv.to.spec_rank() == mv.from.spec_rank() + 2 || mv.from.spec_rank() == mv.to.spec_rank() + 2 {
        lemma_coords(f, mid);
    }
}

/// What `undo_move` needs to restore the position before a move: the
/// contents of every square the move wrote, just before it was written, and
/// the bookkeeping fields.
#[derive(Debug, Clone, Copy, PartialEq, Eq, Structural)]
pub struct UndoInfo {
    pub moved: Option<Piece>,
    pub victim: Option<Piece>,
    pub rook_from: Option<Piece>,
    pub rook_to: Option<Piece>,
    pub captured: Option<Piece>,
    pub side_to_move: Color,
    pub castling: CastlingRights,
    pub en_passant_target: Option<Square>,
    pub halfmove_clock: u32,
    pub fullmove_number: u32,
    pub white_king: Square,
    pub black_king: Square,
}

/// The record that `apply_move_with_undo` returns for `mv` on `pos`.
pub open spec fn spec_undo_info(pos: PositionModel, mv: ChessMove) -> UndoInfo {
    let piece = pos.board[mv.from.0 as int];
    let c = color_or_white(piece);
    let b1 = board_after_lift(pos, mv);
    let b2 = board_after_victim(pos, mv);
    let b3a = board_after_rook_lift(pos, mv);
    let b3 = board_after_rook(pos, mv);
    UndoInfo {
        moved: piece,
        victim: if mv.is_en_passant && piece is Some {
            b1[ep_victim_square(c, mv.to).0 as int]
        } else {
            None
        },
        rook_from: match mv.castle {
            Some(side) => b2[rook_squares(side, c).0.0 as int],
            None => None,
        },
        rook_to: match mv.castle {
            Some(side) => b3a[rook_squares(side, c).1.0 as int],
            None => None,
        },
        captured: b3[mv.to.0 as int],
        side_to_move: pos.side_to_move,
        castling: pos.castling,
        en_passant_target: pos.en_passant_target,
        halfmove_clock: pos.halfmove_clock,
        fullmove_number: pos.fullmove_number,
        white_king: pos.white_king,
        black_king: pos.black_king,
    }
}

/// What `undo_move` needs to run: both squares on the board, and an
/// en-passant victim square on the board.
pub open spec fn undo_applicable(mv: ChessMove, u: UndoInfo) -> bool {
    &&& mv.from.0 < 64
    &&& mv.to.0 < 64
    &&& mv.is_en_passant ==> match u.moved {
        Some(p) => 0 <= mv.to.spec_rank() - pawn_dir(p.color) < 8,
        None => true,
    }
}

/// The position `undo_move` leaves: the squares the move wrote get their
/// recorded contents back, in the reverse order of the writes, and the
/// bookkeeping fields come from the record.
pub open spec fn spec_undo(pos: PositionModel, mv: ChessMove, u: UndoInfo) -> PositionModel {
    let c = color_or_white(u.moved);
    let d1 = pos.board.update(mv.to.0 as int, u.captured);
    let d2 = match mv.castle {
        Some(side) => {
            let (rf, rt) = rook_squares(side, c);
            d1.update(rt.0 as int, u.rook_to).update(rf.0 as int, u.rook_from)
        },
        None => d1,
    };
    let d3 = if mv.is_en_passant && u.moved is Some {
        d2.update(ep_victim_square(c, mv.to).0 as int, u.victim)
    } else {
        d2
    };
    PositionModel {
        board: d3.update(mv.from.0 as int, u.moved),
        side_to_move: u.side_to_move,
        castling: u.castling,
        en_passant_target: u.en_passant_target,
        halfmove_clock: u.halfmove_clock,
        fullmove_number: u.fullmove_number,
        white_king: u.white_king,
        black_king: u.black_king,
    }
}


proof fn lemma_update_same<T>(s: Seq<T>, i: int, x: T)
    requires
        0 <= i < s.len(),
    ensures
        s.update(i, x).update(i, s[i]) == s,
{
    assert(s.update(i, x).update(i, s[i]) =~= s);
}

proof fn lemma_home_square_valid(c: Color, file: int)
    requires
        0 <= file < 8,
    ensures
        home_square(c, file).0 < 64,
        home_square(c, file).0 as int == home_rank(c) * 8 + file,
{
}

/// Unmaking a move with the record that making it returned gives back the
/// position exactly, for every move that `apply_move` accepts.
pub proof fn lemma_undo_restores(pos: Position, mv: ChessMove)
    requires
        move_applicable(pos@, mv),
    ensures
        spec_undo(spec_apply(pos@, mv), mv, spec_undo_info(pos@, mv)) == pos@,
{
    lemma_undo_restores_model(pos@, mv);
}

/// `lemma_undo_restores` for any model with a full board.
pub proof fn lemma_undo_restores_model(m: PositionModel, mv: ChessMove)
    requires
        m.board.len() == 64,
        move_applicable(m, mv),
    ensures
        spec_undo(spec_apply(m, mv), mv, spec_undo_info(m, mv)) == m,
{
    let piece = m.board[mv.from.0 as int];
    let c = color_or_white(piece);
    let b0 = m.board;
    let b1 = board_after_lift(m, mv);
    let b2 = board_after_victim(m, mv);
    let b3a = board_after_rook_lift(m, mv);
    let b3 = board_after_rook(m, mv);
    let b4 = spec_apply_board(m, mv);
    let u = spec_undo_info(m, mv);
    assert(b0.len() == 64);
    lemma_update_same(b3, mv.to.0 as int, arriving_piece(piece, mv.promotion));
    let d1 = b4.update(mv.to.0 as int, u.captured);
    assert(d1 == b3);
    let d2 = match mv.castle {
        Some(side) => {
            let (rf, rt) = rook_squares(side, c);
            d1.update(rt.0 as int, u.rook_to).update(rf.0 as int, u.rook_from)
        },
        None => d1,
    };
    match mv.castle {
        Some(side) => {
            let (rf, rt) = rook_squares(side, c);
            lemma_home_square_valid(c, 0);
            lemma_home_square_valid(c, 3);
            lemma_home_square_valid(c, 5);
            lemma_home_square_valid(c, 7);
            lemma_update_same(b3a, rt.0 as int, b2[rf.0 as int]);
            lemma_update_same(b2, rf.0 as int, None);
            assert(d2 == b2);
        },
        None => {
            assert(d2 == b2);
        },
    }
    let d3 = if mv.is_en_passant && u.moved is Some {
        d2.update(ep_victim_square(c, mv.to).0 as int, u.victim)
    } else {
        d2
    };
    if mv.is_en_passant && piece is Some {
        let v = ep_victim_square(c, mv.to);
        lemma_coords(mv.to.spec_file(), mv.to.spec_rank() - pawn_dir(c));
        lemma_square_bounds(mv.to);
        lemma_update_same(b1, v.0 as int, None);
        assert(d3 == b1);
    } else {
        assert(d3 == b1);
    }
    lemma_update_same(b0, mv.from.0 as int, None);
    assert(d3.update(mv.from.0 as int, u.moved) == b0);
    assert(spec_undo(spec_apply(m, mv), mv, u) =~= m);
}


// ---------------------------------------------------------------------------
// Making and unmaking moves: how
// ---------------------------------------------------------------------------

fn castle_rook_squares(side: CastleSide, color: Color) -> (r: (Square, Square))
    ensures
        r == rook_squares(side, color),
        r.0.0 < 64,
        r.1.0 < 64,
{
    let rank: u8 = if color == Color::White { 0 } else { 7 };
    match side {
        CastleSide::KingSide => (Square(rank * 8 + 7), Square(rank * 8 + 5)),
        CastleSide::QueenSide => (Square(rank * 8), Square(rank * 8 + 3)),
    }
}

/// Moves the castling rook of `color` for `side`; returns what its start and
/// end squares held before.
fn apply_castle_rook_move(position: &mut Position, side: CastleSide, color: Color) -> (r: (
    Option<Piece>,
    Option<Piece>,
))
    ensures
        ({
            let (rf, rt) = rook_squares(side, color);
            let lifted = old(position)@.board.update(rf.0 as int, None);
            &&& final(position)@ == (PositionModel {
                board: lifted.update(rt.0 as int, old(position)@.board[rf.0 as int]),
                ..old(position)@
            })
            &&& r == (old(position)@.board[rf.0 as int], lifted[rt.0 as int])
        }),
{
    let (rook_from, rook_to) = castle_rook_squares(side, color);
    let rook = position.board[rook_from.0 as usize];
    position.board[rook_from.0 as usize] = None;
    let prev_to = position.board[rook_to.0 as usize];
    position.board[rook_to.0 as usize] = rook;
    assert(position@ =~= PositionModel {
        board: old(position)@.board.update(rook_from.0 as int, None).update(rook_to.0 as int, rook),
        ..old(position)@
    });
    (rook, prev_to)
}

fn disable_rook_castle(position: &mut Position, sq: Square)
    ensures
        final(position)@ == (PositionModel { castling: without_corner(old(position)@.castling, sq), ..old(position)@ }),
{
    let file = sq.file();
    let rank = sq.rank();
    if file == 0 && rank == 0 {
        position.castling.white_queen_side = false;
    } else if file == 7 && rank == 0 {
        position.castling.white_king_side = false;
    } else if file == 0 && rank == 7 {
        position.castling.black_queen_side = false;
    } else if file == 7 && rank == 7 {
        position.castling.black_king_side = false;
    }
    assert(position@ =~= PositionModel { castling: without_corner(old(position)@.castling, sq), ..old(position)@ });
}

fn update_castling_after_move(position: &mut Position, moved_piece: Option<Piece>, mv: ChessMove)
    ensures
        final(position)@ == (PositionModel {
            castling: spec_castling_after(old(position)@.castling, moved_piece, mv),
            ..old(position)@
        }),
{
    match moved_piece {
        Some(piece) => match piece.kind {
            PieceKind::King => match piece.color {
                Color::White => {
                    position.castling.white_king_side = false;
                    position.castling.white_queen_side = false;
                },
                Color::Black => {
                    position.castling.black_king_side = false;
                    position.castling.black_queen_side = false;
                },
            },
            PieceKind::Rook => {
                disable_rook_castle(position, mv.from);
            },
            _ => {},
        },
        None => {},
    }
    disable_rook_castle(position, mv.to);
    assert(position@ =~= PositionModel {
        castling: spec_castling_after(old(position)@.castling, moved_piece, mv),
        ..old(position)@
    });
}

fn update_en_passant_target(position: &mut Position, moved_piece: Option<Piece>, mv: ChessMove)
    requires
        mv.from.0 < 64,
        mv.to.0 < 64,
    ensures
        final(position)@ == (PositionModel { en_passant_target: spec_ep_after(moved_piece, mv), ..old(position)@ }),
{
    position.en_passant_target = None;
    match moved_piece {
        Some(piece) => {
            if piece.kind == PieceKind::Pawn {
                let from_rank = mv.from.rank() as i8;
                let to_rank = mv.to.rank() as i8;
                let diff = from_rank - to_rank;
                if diff == 2 || diff == -2 {
                    let mid_rank = ((from_rank + to_rank) / 2) as u8;
                    position.en_passant_target = Square::from_coords(mv.from.file(), mid_rank);
                }
            }
        },
        None => {},
    }
    assert(position@ =~= PositionModel { en_passant_target: spec_ep_after(moved_piece, mv), ..old(position)@ });
}

fn update_move_counters(position: &mut Position, moved_piece: Option<Piece>, mv: ChessMove)
    requires
        (mv.is_capture || (moved_piece is Some && moved_piece->0.kind == PieceKind::Pawn))
            || old(position).halfmove_clock < u32::MAX,
        old(position).side_to_move == Color::Black ==> old(position).fullmove_number < u32::MAX,
    ensures
        final(position)@ == (PositionModel {
            halfmove_clock: if mv.is_capture || (moved_piece is Some && moved_piece->0.kind == PieceKind::Pawn) {
                0
            } else {
                (old(position).halfmove_clock + 1) as u32
            },
            fullmove_number: if old(position).side_to_move == Color::Black {
                (old(position).fullmove_number + 1) as u32
            } else {
                old(position).fullmove_number
            },
            ..old(position)@
        }),
{
    let is_pawn = match moved_piece {
        Some(p) => p.kind == PieceKind::Pawn,
        None => false,
    };
    if mv.is_capture || is_pawn {
        position.halfmove_clock = 0;
    } else {
        position.halfmove_clock = position.halfmove_clock + 1;
    }
    if position.side_to_move == Color::Black {
        position.fullmove_number = position.fullmove_number + 1;
    }
    assert(position@ =~= PositionModel {
        halfmove_clock: if mv.is_capture || is_pawn {
            0
        } else {
            (old(position).halfmove_clock + 1) as u32
        },
        fullmove_number: if old(position).side_to_move == Color::Black {
            (old(position).fullmove_number + 1) as u32
        } else {
            old(position).fullmove_number
        },
        ..old(position)@
    });
}

/// Moves the pieces for `mv`; returns the square contents that
/// `spec_undo_info` records (victim, rook start, rook end, captured).
#[verifier::spinoff_prover]
fn move_pieces(position: &mut Position, mv: ChessMove) -> (r: (
    Option<Piece>,
    Option<Piece>,
    Option<Piece>,
    Option<Piece>,
))
    requires
        move_applicable(old(position)@, mv),
    ensures
        final(position)@ == (PositionModel { board: spec_apply_board(old(position)@, mv), ..old(position)@ }),
        r.0 == spec_undo_info(old(position)@, mv).victim,
        r.1 == spec_undo_info(old(position)@, mv).rook_from,
        r.2 == spec_undo_info(old(position)@, mv).rook_to,
        r.3 == spec_undo_info(old(position)@, mv).captured,
{
    let ghost m = old(position)@;
    let piece = position.board[mv.from.0 as usize];
    position.board[mv.from.0 as usize] = None;
    assert(position.board@ =~= board_after_lift(m, mv));

    let mut victim: Option<Piece> = None;
    if mv.is_en_passant {
        match piece {
            Some(p) => {
                proof {
                    lemma_square_bounds(mv.to);
                    lemma_coords(mv.to.spec_file(), mv.to.spec_rank() - pawn_dir(p.color));
                }
                let capture_rank = if p.color == Color::White { mv.to.rank() - 1 } else { mv.to.rank() + 1 };
                let capture_sq = Square(capture_rank * 8 + mv.to.file());
                assert(capture_sq == ep_victim_square(p.color, mv.to));
                victim = position.board[capture_sq.0 as usize];
                position.board[capture_sq.0 as usize] = None;
            },
            None => {},
        }
    }
    assert(position.board@ =~= board_after_victim(m, mv));

    let mut rook_from_prev: Option<Piece> = None;
    let mut rook_to_prev: Option<Piece> = None;
    match mv.castle {
        Some(side) => {
            let color = match piece {
                Some(p) => p.color,
                None => Color::White,
            };
            let (a, b) = apply_castle_rook_move(position, side, color);
            rook_from_prev = a;
            rook_to_prev = b;
        },
        None => {},
    }
    assert(position.board@ =~= board_after_rook(m, mv));

    let moved_piece = match (piece, mv.promotion) {
        (Some(p), Some(prom)) => Some(Piece { color: p.color, kind: prom }),
        (None, Some(_)) => None,
        (p, None) => p,
    };
    let captured = position.board[mv.to.0 as usize];
    position.board[mv.to.0 as usize] = moved_piece;
    assert(position@ =~= (PositionModel { board: spec_apply_board(m, mv), ..m }));
    (victim, rook_from_prev, rook_to_prev, captured)
}

/// Makes `mv` and returns what `undo_move` needs to take it back.
#[verifier::spinoff_prover]
pub fn apply_move_with_undo(position: &mut Position, mv: ChessMove) -> (r: UndoInfo)
    requires
        move_applicable(old(position)@, mv),
        counters_fit(old(position)@, mv),
    ensures
        final(position)@ == spec_apply(old(position)@, mv),
        r == spec_undo_info(old(position)@, mv),
{
    let ghost m = old(position)@;
    let piece = position.board[mv.from.0 as usize];
    let side_before = position.side_to_move;
    let castling_before = position.castling;
    let ep_before = position.en_passant_target;
    let halfmove_before = position.halfmove_clock;
    let fullmove_before = position.fullmove_number;
    let white_king_before = position.white_king;
    let black_king_before = position.black_king;

    let (victim, rook_from_prev, rook_to_prev, captured) = move_pieces(position, mv);
    update_castling_after_move(position, piece, mv);
    update_en_passant_target(position, piece, mv);
    update_move_counters(position, piece, mv);
    position.side_to_move = position.side_to_move.opposite();
    match piece {
        Some(p) => {
            if p.kind == PieceKind::King {
                match p.color {
                    Color::White => position.white_king = mv.to,
                    Color::Black => position.black_king = mv.to,
                }
            }
        },
        None => {},
    }
    assert(position@ =~= spec_apply(m, mv));
    UndoInfo {
        moved: piece,
        victim,
        rook_from: rook_from_prev,
        rook_to: rook_to_prev,
        captured,
        side_to_move: side_before,
        castling: castling_before,
        en_passant_target: ep_before,
        halfmove_clock: halfmove_before,
        fullmove_number: fullmove_before,
        white_king: white_king_before,
        black_king: black_king_before,
    }
}

/// Makes `mv` on `position` (see `spec_apply`).
pub fn apply_move(position: &mut Position, mv: ChessMove)
    requires
        move_applicable(old(position)@, mv),
        counters_fit(old(position)@, mv),
    ensures
        final(position)@ == spec_apply(old(position)@, mv),
{
    let _ = apply_move_with_undo(position, mv);
}

/// Takes back `mv` using the record `undo` that `apply_move_with_undo`
/// returned (see `spec_undo` and `lemma_undo_restores`).
pub fn undo_move(position: &mut Position, mv: ChessMove, undo: UndoInfo)
    requires
        undo_applicable(mv, undo),
    ensures
        final(position)@ == spec_undo(old(position)@, mv, undo),
{
    let ghost m = old(position)@;
    let c = match undo.moved {
        Some(p) => p.color,
        None => Color::White,
    };
    position.board[mv.to.0 as usize] = undo.captured;
    match mv.castle {
        Some(side) => {
            let (rook_from, rook_to) = castle_rook_squares(side, c);
            position.board[rook_to.0 as usize] = undo.rook_to;
            position.board[rook_from.0 as usize] = undo.rook_from;
        },
        None => {},
    }
    if mv.is_en_passant && undo.moved.is_some() {
        proof {
            lemma_square_bounds(mv.to);
            lemma_coords(mv.to.spec_file(), mv.to.spec_rank() - pawn_dir(c));
        }
        let capture_rank = if c == Color::White { mv.to.rank() - 1 } else { mv.to.rank() + 1 };
        let capture_sq = Square(capture_rank * 8 + mv.to.file());
        assert(capture_sq == ep_victim_square(c, mv.to));
        position.board[capture_sq.0 as usize] = undo.victim;
    }
    position.board[mv.from.0 as usize] = undo.moved;
    position.side_to_move = undo.side_to_move;
    position.castling = undo.castling;
    position.en_passant_target = undo.en_passant_target;
    position.halfmove_clock = undo.halfmove_clock;
    position.fullmove_number = undo.fullmove_number;
    position.white_king = undo.white_king;
    position.black_king = undo.black_king;
    assert(position@ =~= spec_undo(m, mv, undo));
}


// ---------------------------------------------------------------------------
// Legal moves
// ---------------------------------------------------------------------------

/// After `mv` the king of the side that made it is not attacked.
pub open spec fn leaves_king_safe(pos: PositionModel, mv: ChessMove) -> bool {
    !spec_in_check(spec_apply_board(pos, mv), pos.side_to_move)
}

/// The moves of `ms` that leave the mover's king safe, in order.
pub open spec fn legal_filter(pos: PositionModel, ms: Seq<ChessMove>) -> Seq<ChessMove>
    decreases ms.len(),
{
    if ms.len() == 0 {
        seq![]
    } else {
        let rest = legal_filter(pos, ms.drop_last());
        if leaves_king_safe(pos, ms.last()) {
            rest.push(ms.last())
        } else {
            rest
        }
    }
}

/// The legal moves of the side to move: the pseudo-legal moves, in the same
/// order, that do not leave its own king attacked.
pub open spec fn spec_legal_moves(pos: PositionModel) -> Seq<ChessMove> {
    legal_filter(pos, spec_pseudo_moves(pos))
}

proof fn lemma_legal_filter(pos: PositionModel, ms: Seq<ChessMove>)
    ensures
        forall|x: ChessMove| #[trigger]
            legal_filter(pos, ms).contains(x) <==> (ms.contains(x) && leaves_king_safe(pos, x)),
        all_applicable(pos, ms) ==> all_applicable(pos, legal_filter(pos, ms)),
        legal_filter(pos, ms).len() <= ms.len(),
    decreases ms.len(),
{
    if ms.len() > 0 {
        let init = ms.drop_last();
        lemma_legal_filter(pos, init);
        let rest = legal_filter(pos, init);
        assert forall|x: ChessMove| #[trigger]
            legal_filter(pos, ms).contains(x) <==> (ms.contains(x) && leaves_king_safe(pos, x)) by {
            if ms.contains(x) {
                let j = choose|j: int| 0 <= j < ms.len() && ms[j] == x;
                if j < ms.len() - 1 {
                    assert(init[j] == x);
                    assert(init.contains(x));
                }
            }
            if init.contains(x) {
                let j = choose|j: int| 0 <= j < init.len() && init[j] == x;
                assert(ms[j] == x);
            }
            if leaves_king_safe(pos, ms.last()) {
                assert(rest.push(ms.last())[rest.len() as int] == ms.last());
                if rest.push(ms.last()).contains(x) {
                    let j = choose|j: int| 0 <= j < rest.len() + 1 && rest.push(ms.last())[j] == x;
                    if j < rest.len() {
                        assert(rest[j] == x);
                    }
                }
                if rest.contains(x) {
                    let j = choose|j: int| 0 <= j < rest.len() && rest[j] == x;
                    assert(rest.push(ms.last())[j] == x);
                }
            }
            assert(ms[ms.len() - 1] == ms.last());
        }
        if all_applicable(pos, ms) {
            assert(all_applicable(pos, init)) by {
                assert forall|k: int| 0 <= k < init.len() implies move_applicable(pos, #[trigger] init[k]) by {
                    assert(init[k] == ms[k]);
                }
            }
            if leaves_king_safe(pos, ms.last()) {
                assert(move_applicable(pos, ms[ms.len() - 1]));
                assert forall|k: int| 0 <= k < rest.len() + 1 implies move_applicable(
                    pos,
                    #[trigger] rest.push(ms.last())[k],
                ) by {
                    if k < rest.len() {
                        assert(rest.push(ms.last())[k] == rest[k]);
                    }
                }
            }
        }
    }
}

/// A move is legal exactly when it is pseudo-legal and leaves the mover's
/// king unattacked.
pub proof fn lemma_legal_iff_safe_pseudo(pos: Position, mv: ChessMove)
    ensures
        spec_legal_moves(pos@).contains(mv) <==> (spec_pseudo_moves(pos@).contains(mv) && leaves_king_safe(
            pos@,
            mv,
        )),
{
    lemma_legal_filter(pos@, spec_pseudo_moves(pos@));
}

proof fn lemma_apply_board_reads_board(a: PositionModel, b: PositionModel, mv: ChessMove)
    requires
        a.board == b.board,
    ensures
        spec_apply_board(a, mv) == spec_apply_board(b, mv),
{
}

/// Whether making `mv` leaves the king of the side to move unattacked.
fn leaves_king_safe_exec(position: &Position, mv: ChessMove) -> (r: bool)
    requires
        move_applicable(position@, mv),
    ensures
        r == leaves_king_safe(position@, mv),
{
    let mut next = *position;
    next.halfmove_clock = 0;
    next.fullmove_number = 1;
    proof {
        lemma_apply_board_reads_board(next@, position@, mv);
    }
    apply_move(&mut next, mv);
    !is_in_check(&next, position.side_to_move)
}

/// Replaces the contents of `out` with the legal moves of the side to move.
#[verifier::spinoff_prover]
pub fn generate_legal_moves_into(position: &Position, out: &mut Vec<ChessMove>)
    ensures
        final(out)@ == spec_legal_moves(position@),
        all_applicable(position@, final(out)@),
{
    out.clear();
    let pseudo = generate_pseudo_legal_moves(position);
    let mut i: usize = 0;
    while i < pseudo.len()
        invariant
            i <= pseudo.len(),
            pseudo@ == spec_pseudo_moves(position@),
            all_applicable(position@, pseudo@),
            out@ == legal_filter(position@, pseudo@.take(i as int)),
        decreases pseudo.len() - i,
    {
        let mv = pseudo[i];
        assert(pseudo@.take((i + 1) as int).drop_last() =~= pseudo@.take(i as int));
        assert(pseudo@.take((i + 1) as int).last() == mv);
        if leaves_king_safe_exec(position, mv) {
            out.push(mv);
        }
        i += 1;
    }
    assert(pseudo@.take(pseudo.len() as int) =~= pseudo@);
    proof {
        lemma_legal_filter(position@, pseudo@);
    }
}

/// The legal moves of the side to move (see `spec_legal_moves`).
pub fn generate_legal_moves(position: &Position) -> (r: Vec<ChessMove>)
    ensures
        r@ == spec_legal_moves(position@),
        all_applicable(position@, r@),
{
    let mut moves: Vec<ChessMove> = Vec::new();
    generate_legal_moves_into(position, &mut moves);
    moves
}

// ---------------------------------------------------------------------------
// Castling moves: when they are generated
// ---------------------------------------------------------------------------

/// What must hold of a position for the side to move `c` to castle with
/// `mv`, its home rank starting at square `base` (a1 = 0 for White, a8 = 56
/// for Black): its king stands on the e-square and is not in check, the move
/// takes the king two files over and captures nothing; king side it needs
/// the right, f and g empty and neither attacked; queen side the right, b, c
/// and d empty, and c and d not attacked.
pub open spec fn castling_allowed(pos: PositionModel, mv: ChessMove) -> bool {
    let c = pos.side_to_move;
    let opp = c.spec_opposite();
    let base: int = if c == Color::White {
        0
    } else {
        56
    };
    let board = pos.board;
    &&& board[base + 4] == Some(Piece { color: c, kind: PieceKind::King })
    &&& mv.from.0 == base + 4
    &&& !spec_in_check(board, c)
    &&& mv.promotion is None
    &&& !mv.is_capture
    &&& !mv.is_en_passant
    &&& mv.castle == Some(CastleSide::KingSide) ==> {
        &&& mv.to.0 == base + 6
        &&& if c == Color::White {
            pos.castling.white_king_side
        } else {
            pos.castling.black_king_side
        }
        &&& board[base + 5] is None
        &&& board[base + 6] is None
        &&& !spec_attacked(board, Square((base + 5) as u8), opp)
        &&& !spec_attacked(board, Square((base + 6) as u8), opp)
    }
    &&& mv.castle == Some(CastleSide::QueenSide) ==> {
        &&& mv.to.0 == base + 2
        &&& if c == Color::White {
            pos.castling.white_queen_side
        } else {
            pos.castling.black_queen_side
        }
        &&& board[base + 1] is None
        &&& board[base + 2] is None
        &&& board[base + 3] is None
        &&& !spec_attacked(board, Square((base + 2) as u8), opp)
        &&& !spec_attacked(board, Square((base + 3) as u8), opp)
    }
}

/// A move of `a + b` is a move of `a` or of `b`.
proof fn lemma_concat_contains(a: Seq<ChessMove>, b: Seq<ChessMove>, mv: ChessMove)
    requires
        (a + b).contains(mv),
    ensures
        a.contains(mv) || b.contains(mv),
{
    let k = choose|k: int| 0 <= k < (a + b).len() && (a + b)[k] == mv;
    if k < a.len() {
        assert(a[k] == mv);
    } else {
        assert(b[k - a.len()] == mv);
    }
}

/// A pseudo-legal move is a move of the piece on one of the squares.
proof fn lemma_upto_source(pos: PositionModel, n: int, mv: ChessMove) -> (i: int)
    requires
        pseudo_moves_upto(pos, n).contains(mv),
    ensures
        0 <= i < n,
        piece_moves(pos, i).contains(mv),
    decreases n,
{
    if n <= 0 {
        assert(pseudo_moves_upto(pos, n).len() == 0);
        0
    } else {
        lemma_concat_contains(pseudo_moves_upto(pos, n - 1), piece_moves(pos, n - 1), mv);
        if pseudo_moves_upto(pos, n - 1).contains(mv) {
            lemma_upto_source(pos, n - 1, mv)
        } else {
            n - 1
        }
    }
}

/// Every pseudo-legal castling move meets the conditions of castling.
pub proof fn lemma_pseudo_castling_allowed(pos: PositionModel, mv: ChessMove)
    requires
        spec_pseudo_moves(pos).contains(mv),
        mv.castle is Some,
    ensures
        castling_allowed(pos, mv),
{
    let i = lemma_upto_source(pos, 64, mv);
    let board = pos.board;
    let from = Square(i as u8);
    let ms = piece_moves(pos, i);
    let c = pos.side_to_move;
    let k = choose|k: int| 0 <= k < ms.len() && ms[k] == mv;
    assert(board[i] is Some);
    let p = board[i]->0;
    assert(p.color == c);
    match p.kind {
        PieceKind::Pawn => {
            lemma_pawn_moves_ok(pos, from, p.color);
            assert(pawn_move_ok(pos, from, p.color, ms[k]));
        },
        PieceKind::Knight => {
            lemma_step_moves_land_ok(board, from, p.color, knight_deltas(), 8);
            assert(lands_ok(board, from, p.color, ms[k]));
        },
        PieceKind::Bishop => {
            lemma_slider_moves_land_ok(board, from, p.color, bishop_deltas(), 4);
            assert(lands_ok(board, from, p.color, ms[k]));
        },
        PieceKind::Rook => {
            lemma_slider_moves_land_ok(board, from, p.color, rook_deltas(), 4);
            assert(lands_ok(board, from, p.color, ms[k]));
        },
        PieceKind::Queen => {
            lemma_slider_moves_land_ok(board, from, p.color, king_deltas(), 8);
            assert(lands_ok(board, from, p.color, ms[k]));
        },
        PieceKind::King => {
            let steps = step_moves(board, from, p.color, king_deltas(), 8);
            let castles = castling_moves(pos, from, p.color);
            lemma_step_moves_land_ok(board, from, p.color, king_deltas(), 8);
            lemma_concat_contains(steps, castles, mv);
            if steps.contains(mv) {
                let j = choose|j: int| 0 <= j < steps.len() && steps[j] == mv;
                assert(lands_ok(board, from, p.color, steps[j]));
            }
            assert(castles.contains(mv));
            assert(!spec_in_check(board, c));
            assert(from == home_square(c, 4));
            assert(i == from.0);
            let opp = c.spec_opposite();
            let ks = if king_side_right(pos.castling, c) && board[home_square(c, 5).0 as int] is None
                && board[home_square(c, 6).0 as int] is None && !spec_attacked(board, home_square(c, 5), opp)
                && !spec_attacked(board, home_square(c, 6), opp) {
                seq![spec_castle_move(from, home_square(c, 6), CastleSide::KingSide)]
            } else {
                seq![]
            };
            let qs = if queen_side_right(pos.castling, c) && board[home_square(c, 1).0 as int] is None
                && board[home_square(c, 2).0 as int] is None && board[home_square(c, 3).0 as int] is None
                && !spec_attacked(board, home_square(c, 2), opp) && !spec_attacked(board, home_square(c, 3), opp) {
                seq![spec_castle_move(from, home_square(c, 2), CastleSide::QueenSide)]
            } else {
                seq![]
            };
            assert(castles == ks + qs);
            lemma_concat_contains(ks, qs, mv);
            if ks.contains(mv) {
                assert(ks[0] == mv);
            } else {
                assert(qs[0] == mv);
            }
        },
    }
}

/// A castling move is legal only when castling is allowed: the king of the
/// side to move stands on its e-square, is not in check, and the squares
/// between it and the rook (b, c, d on the queen side; f, g on the king side)
/// are empty, the ones it crosses and lands on unattacked, the right kept.
pub proof fn lemma_legal_castling_allowed(pos: PositionModel, mv: ChessMove)
    requires
        spec_legal_moves(pos).contains(mv),
        mv.castle is Some,
    ensures
        castling_allowed(pos, mv),
{
    lemma_legal_filter(pos, spec_pseudo_moves(pos));
    lemma_pseudo_castling_allowed(pos, mv);
}

/// A move of the piece on a square below `n` is among the moves of the
/// squares `0 .. n`.
proof fn lemma_upto_includes(pos: PositionModel, n: int, i: int, mv: ChessMove)
    requires
        0 <= i < n,
        piece_moves(pos, i).contains(mv),
    ensures
        pseudo_moves_upto(pos, n).contains(mv),
    decreases n,
{
    let a = pseudo_moves_upto(pos, n - 1);
    let b = piece_moves(pos, n - 1);
    if i < n - 1 {
        lemma_upto_includes(pos, n - 1, i, mv);
        let k = choose|k: int| 0 <= k < a.len() && a[k] == mv;
        assert((a + b)[k] == mv);
    } else {
        let k = choose|k: int| 0 <= k < b.len() && b[k] == mv;
        assert((a + b)[a.len() + k] == mv);
    }
}

/// Conversely, whenever castling is allowed, the castling move is generated.
pub proof fn lemma_allowed_castling_generated(pos: PositionModel, mv: ChessMove)
    requires
        castling_allowed(pos, mv),
        mv.castle is Some,
    ensures
        spec_pseudo_moves(pos).contains(mv),
{
    let c = pos.side_to_move;
    let opp = c.spec_opposite();
    let board = pos.board;
    let i: int = if c == Color::White {
        4
    } else {
        60
    };
    let from = Square(i as u8);
    assert(from == mv.from);
    assert(from == home_square(c, 4));
    assert(home_square(c, 1).0 == i - 3 && home_square(c, 2).0 == i - 2 && home_square(c, 3).0 == i - 1);
    assert(home_square(c, 5).0 == i + 1 && home_square(c, 6).0 == i + 2);
    let steps = step_moves(board, from, c, king_deltas(), 8);
    let ks = if king_side_right(pos.castling, c) && board[home_square(c, 5).0 as int] is None
        && board[home_square(c, 6).0 as int] is None && !spec_attacked(board, home_square(c, 5), opp)
        && !spec_attacked(board, home_square(c, 6), opp) {
        seq![spec_castle_move(from, home_square(c, 6), CastleSide::KingSide)]
    } else {
        seq![]
    };
    let qs = if queen_side_right(pos.castling, c) && board[home_square(c, 1).0 as int] is None
        && board[home_square(c, 2).0 as int] is None && board[home_square(c, 3).0 as int] is None
        && !spec_attacked(board, home_square(c, 2), opp) && !spec_attacked(board, home_square(c, 3), opp) {
        seq![spec_castle_move(from, home_square(c, 2), CastleSide::QueenSide)]
    } else {
        seq![]
    };
    assert(castling_moves(pos, from, c) == ks + qs);
    assert(piece_moves(pos, i) == steps + (ks + qs));
    if mv.castle == Some(CastleSide::KingSide) {
        assert(mv == spec_castle_move(from, home_square(c, 6), CastleSide::KingSide));
        assert((steps + (ks + qs))[steps.len() as int] == mv);
    } else {
        assert(mv.castle == Some(CastleSide::QueenSide)) by {
            match mv.castle {
                Some(CastleSide::QueenSide) => {},
                Some(CastleSide::KingSide) => {},
                None => {},
            }
        }
        assert(mv.to == home_square(c, 2));
        assert(mv == spec_castle_move(from, home_square(c, 2), CastleSide::QueenSide));
        assert((steps + (ks + qs))[(steps.len() + ks.len()) as int] == mv);
    }
    assert(piece_moves(pos, i).contains(mv));
    lemma_upto_includes(pos, 64, i, mv);
}

/// Making an allowed castling move of the side to move (home rank starting
/// at square `base`: 0 for White, 56 for Black): king side, the king goes
/// from e to g and the piece on h to f; queen side, the king goes from e to
/// c and the piece on a to d; the squares left behind are emptied and every
/// other square keeps its piece.
pub proof fn lemma_castling_board(pos: PositionModel, mv: ChessMove)
    requires
        castling_allowed(pos, mv),
        mv.castle is Some,
        pos.board.len() == 64,
    ensures
        ({
            let c = pos.side_to_move;
            let base: int = if c == Color::White {
                0
            } else {
                56
            };
            let king = Some(Piece { color: c, kind: PieceKind::King });
            let b = pos.board;
            let after = spec_apply_board(pos, mv);
            &&& after.len() == 64
            &&& mv.castle == Some(CastleSide::KingSide) ==> {
                &&& after[base + 6] == king
                &&& after[base + 5] == b[base + 7]
                &&& after[base + 4] is None
                &&& after[base + 7] is None
                &&& forall|j: int|
                    0 <= j < 64 && (j < base + 4 || j > base + 7) ==> #[trigger] after[j] == b[j]
            }
            &&& mv.castle == Some(CastleSide::QueenSide) ==> {
                &&& after[base + 2] == king
                &&& after[base + 3] == b[base]
                &&& after[base + 4] is None
                &&& after[base] is None
                &&& forall|j: int|
                    0 <= j < 64 && (j < base || j > base + 4 || j == base + 1) ==> #[trigger] after[j] == b[j]
            }
        }),
{
    let c = pos.side_to_move;
    let base: int = if c == Color::White {
        0
    } else {
        56
    };
    assert(home_square(c, 0).0 == base && home_square(c, 3).0 == base + 3);
    assert(home_square(c, 5).0 == base + 5 && home_square(c, 7).0 == base + 7);
    assert(color_or_white(pos.board[mv.from.0 as int]) == c);
    assert(board_after_victim(pos, mv) == board_after_lift(pos, mv));
    if mv.castle == Some(CastleSide::KingSide) {
        assert(rook_squares(CastleSide::KingSide, c) == (home_square(c, 7), home_square(c, 5)));
    } else {
        assert(mv.castle == Some(CastleSide::QueenSide)) by {
            match mv.castle {
                Some(CastleSide::QueenSide) => {},
                Some(CastleSide::KingSide) => {},
                None => {},
            }
        }
        assert(rook_squares(CastleSide::QueenSide, c) == (home_square(c, 0), home_square(c, 3)));
    }
}

// ---------------------------------------------------------------------------
// Pseudo-legal moves: what every one of them is
// ---------------------------------------------------------------------------

/// What holds of every pseudo-legal move `mv` of the side to move `c`: it
/// starts on a square of the board holding a piece of `c` and ends on a
/// square of the board not holding one; it captures exactly when the target
/// is occupied or it is an en-passant capture, which a pawn makes onto the
/// empty en-passant target; only a pawn promotes, on the last rank (the
/// eighth for White, the first for Black), to a queen, rook, bishop or
/// knight; and a castling move is one that castling allows.
pub open spec fn pseudo_move_sound(pos: PositionModel, mv: ChessMove) -> bool {
    let c = pos.side_to_move;
    let board = pos.board;
    let piece = board[mv.from.0 as int];
    let target = board[mv.to.0 as int];
    &&& mv.from.0 < 64
    &&& mv.to.0 < 64
    &&& piece is Some
    &&& piece->0.color == c
    &&& !(target is Some && target->0.color == c)
    &&& mv.is_capture == (target is Some || mv.is_en_passant)
    &&& mv.is_en_passant ==> {
        &&& piece->0.kind == PieceKind::Pawn
        &&& target is None
        &&& pos.en_passant_target == Some(mv.to)
    }
    &&& mv.promotion is Some ==> {
        &&& piece->0.kind == PieceKind::Pawn
        &&& mv.to.spec_rank() == if c == Color::White {
            7int
        } else {
            0int
        }
        &&& mv.promotion == Some(PieceKind::Queen) || mv.promotion == Some(PieceKind::Rook) || mv.promotion
            == Some(PieceKind::Bishop) || mv.promotion == Some(PieceKind::Knight)
    }
    &&& mv.castle is Some ==> castling_allowed(pos, mv)
}

/// A move of the piece of `color` on `from` onto a board square that is
/// empty (a plain move) or holds an enemy (a capture), and nothing more.
spec fn lands_ok(board: Seq<Option<Piece>>, from: Square, color: Color, mv: ChessMove) -> bool {
    &&& mv.from == from
    &&& mv.to.0 < 64
    &&& !mv.is_en_passant
    &&& mv.castle is None
    &&& mv.promotion is None
    &&& match board[mv.to.0 as int] {
        None => !mv.is_capture,
        Some(q) => q.color != color && mv.is_capture,
    }
}

spec fn all_land_ok(board: Seq<Option<Piece>>, from: Square, color: Color, ms: Seq<ChessMove>) -> bool {
    forall|k: int| 0 <= k < ms.len() ==> lands_ok(board, from, color, #[trigger] ms[k])
}

proof fn lemma_land_ok_concat(
    board: Seq<Option<Piece>>,
    from: Square,
    color: Color,
    a: Seq<ChessMove>,
    b: Seq<ChessMove>,
)
    requires
        all_land_ok(board, from, color, a),
        all_land_ok(board, from, color, b),
    ensures
        all_land_ok(board, from, color, a + b),
{
    assert forall|k: int| 0 <= k < (a + b).len() implies lands_ok(board, from, color, #[trigger] (a + b)[k]) by {
        if k < a.len() {
            assert((a + b)[k] == a[k]);
        } else {
            assert((a + b)[k] == b[k - a.len()]);
        }
    }
}

/// A square reached by an offset lies on the board.
proof fn lemma_offset_on_board(from: Square, df: int, dr: int)
    ensures
        spec_offset(from, df, dr) matches Some(t) ==> t.0 < 64,
{
    let f = from.spec_file() + df;
    let r = from.spec_rank() + dr;
    if 0 <= f < 8 && 0 <= r < 8 {
        lemma_coords(f, r);
    }
}

proof fn lemma_step_moves_land_ok(
    board: Seq<Option<Piece>>,
    from: Square,
    color: Color,
    ds: Seq<(i8, i8)>,
    n: int,
)
    ensures
        all_land_ok(board, from, color, step_moves(board, from, color, ds, n)),
    decreases n,
{
    if n > 0 {
        lemma_step_moves_land_ok(board, from, color, ds, n - 1);
        let d = ds[n - 1];
        lemma_offset_on_board(from, d.0 as int, d.1 as int);
        let one = step_one(board, from, color, d);
        assert(all_land_ok(board, from, color, one));
        lemma_land_ok_concat(board, from, color, step_moves(board, from, color, ds, n - 1), one);
    }
}

proof fn lemma_ray_moves_land_ok(
    board: Seq<Option<Piece>>,
    from: Square,
    cur: Square,
    df: int,
    dr: int,
    color: Color,
)
    ensures
        all_land_ok(board, from, color, ray_moves(board, from, cur, df, dr, color)),
    decreases ray_measure(cur, df, dr),
{
    if !(df == 0 && dr == 0) {
        if let Some(to) = spec_offset(cur, df, dr) {
            lemma_offset_step(cur, df, dr);
            if board[to.0 as int] is None {
                lemma_ray_moves_land_ok(board, from, to, df, dr, color);
                assert(all_land_ok(board, from, color, seq![spec_quiet(from, to)]));
                lemma_land_ok_concat(
                    board,
                    from,
                    color,
                    seq![spec_quiet(from, to)],
                    ray_moves(board, from, to, df, dr, color),
                );
            }
        }
    }
}

proof fn lemma_slider_moves_land_ok(
    board: Seq<Option<Piece>>,
    from: Square,
    color: Color,
    ds: Seq<(i8, i8)>,
    n: int,
)
    ensures
        all_land_ok(board, from, color, slider_moves(board, from, color, ds, n)),
    decreases n,
{
    if n > 0 {
        lemma_slider_moves_land_ok(board, from, color, ds, n - 1);
        lemma_ray_moves_land_ok(board, from, from, ds[n - 1].0 as int, ds[n - 1].1 as int, color);
        lemma_land_ok_concat(
            board,
            from,
            color,
            slider_moves(board, from, color, ds, n - 1),
            ray_moves(board, from, from, ds[n - 1].0 as int, ds[n - 1].1 as int, color),
        );
    }
}

/// A pawn move of `c` from `from`: onto an empty square without capturing,
/// onto an enemy with a capture, or onto the empty en-passant target as an
/// en-passant capture; promoting only on the last rank, to a piece other
/// than a pawn or king.
spec fn pawn_move_ok(pos: PositionModel, from: Square, c: Color, mv: ChessMove) -> bool {
    &&& mv.from == from
    &&& mv.to.0 < 64
    &&& mv.castle is None
    &&& match pos.board[mv.to.0 as int] {
        None => mv.is_capture == mv.is_en_passant && (mv.is_en_passant ==> pos.en_passant_target == Some(mv.to)),
        Some(q) => q.color != c && mv.is_capture && !mv.is_en_passant,
    }
    &&& mv.promotion is Some ==> {
        &&& mv.to.spec_rank() == pawn_promo_rank(c)
        &&& mv.promotion == Some(PieceKind::Queen) || mv.promotion == Some(PieceKind::Rook) || mv.promotion
            == Some(PieceKind::Bishop) || mv.promotion == Some(PieceKind::Knight)
    }
}

spec fn all_pawn_ok(pos: PositionModel, from: Square, c: Color, ms: Seq<ChessMove>) -> bool {
    forall|k: int| 0 <= k < ms.len() ==> pawn_move_ok(pos, from, c, #[trigger] ms[k])
}

proof fn lemma_pawn_ok_concat(pos: PositionModel, from: Square, c: Color, a: Seq<ChessMove>, b: Seq<ChessMove>)
    requires
        all_pawn_ok(pos, from, c, a),
        all_pawn_ok(pos, from, c, b),
    ensures
        all_pawn_ok(pos, from, c, a + b),
{
    assert forall|k: int| 0 <= k < (a + b).len() implies pawn_move_ok(pos, from, c, #[trigger] (a + b)[k]) by {
        if k < a.len() {
            assert((a + b)[k] == a[k]);
        } else {
            assert((a + b)[k] == b[k - a.len()]);
        }
    }
}

proof fn lemma_promotions_pawn_ok(pos: PositionModel, from: Square, c: Color, m: ChessMove)
    requires
        pawn_move_ok(pos, from, c, m),
        m.promotion is None,
        m.to.spec_rank() == pawn_promo_rank(c),
    ensures
        all_pawn_ok(pos, from, c, promotions(m)),
{
    let ps = promotions(m);
    assert(pawn_move_ok(pos, from, c, ps[0]));
    assert(pawn_move_ok(pos, from, c, ps[1]));
    assert(pawn_move_ok(pos, from, c, ps[2]));
    assert(pawn_move_ok(pos, from, c, ps[3]));
}

proof fn lemma_pawn_capture_ok(pos: PositionModel, from: Square, c: Color, df: int)
    ensures
        all_pawn_ok(pos, from, c, pawn_capture(pos, from, c, df)),
{
    lemma_offset_on_board(from, df, pawn_dir(c));
    if let Some(to) = spec_offset(from, df, pawn_dir(c)) {
        if let Some(tp) = pos.board[to.0 as int] {
            if tp.color != c && to.spec_rank() == pawn_promo_rank(c) {
                lemma_promotions_pawn_ok(pos, from, c, spec_capture(from, to));
            }
        }
    }
}

proof fn lemma_pawn_moves_ok(pos: PositionModel, from: Square, c: Color)
    ensures
        all_pawn_ok(pos, from, c, pawn_moves(pos, from, c)),
{
    let board = pos.board;
    lemma_offset_on_board(from, 0, pawn_dir(c));
    lemma_offset_on_board(from, 0, 2 * pawn_dir(c));
    if let Some(one) = spec_offset(from, 0, pawn_dir(c)) {
        if board[one.0 as int] is None {
            if one.spec_rank() == pawn_promo_rank(c) {
                lemma_promotions_pawn_ok(pos, from, c, spec_quiet(from, one));
            }
            assert(all_pawn_ok(pos, from, c, pawn_advance(from, one, c)));
            let second = if from.spec_rank() == pawn_start_rank(c) {
                match spec_offset(from, 0, 2 * pawn_dir(c)) {
                    Some(two) => if board[two.0 as int] is None {
                        seq![spec_quiet(from, two)]
                    } else {
                        seq![]
                    },
                    None => seq![],
                }
            } else {
                seq![]
            };
            assert(all_pawn_ok(pos, from, c, second));
            lemma_pawn_ok_concat(pos, from, c, pawn_advance(from, one, c), second);
        }
    }
    assert(all_pawn_ok(pos, from, c, pawn_pushes(pos, from, c)));
    lemma_pawn_capture_ok(pos, from, c, -1);
    lemma_pawn_capture_ok(pos, from, c, 1);
    lemma_pawn_ok_concat(pos, from, c, pawn_pushes(pos, from, c), pawn_capture(pos, from, c, -1));
    lemma_pawn_ok_concat(
        pos,
        from,
        c,
        pawn_pushes(pos, from, c) + pawn_capture(pos, from, c, -1),
        pawn_capture(pos, from, c, 1),
    );
}

/// Every generated castling move castles.
proof fn lemma_castling_moves_castle(pos: PositionModel, from: Square, c: Color)
    ensures
        forall|k: int|
            0 <= k < castling_moves(pos, from, c).len() ==> (#[trigger] castling_moves(pos, from, c)[k]).castle
                is Some,
{
    let board = pos.board;
    let opp = c.spec_opposite();
    if !(spec_in_check(board, c) || from != home_square(c, 4)) {
        let ks = if king_side_right(pos.castling, c) && board[home_square(c, 5).0 as int] is None
            && board[home_square(c, 6).0 as int] is None && !spec_attacked(board, home_square(c, 5), opp)
            && !spec_attacked(board, home_square(c, 6), opp) {
            seq![spec_castle_move(from, home_square(c, 6), CastleSide::KingSide)]
        } else {
            seq![]
        };
        let qs = if queen_side_right(pos.castling, c) && board[home_square(c, 1).0 as int] is None
            && board[home_square(c, 2).0 as int] is None && board[home_square(c, 3).0 as int] is None
            && !spec_attacked(board, home_square(c, 2), opp) && !spec_attacked(board, home_square(c, 3), opp) {
            seq![spec_castle_move(from, home_square(c, 2), CastleSide::QueenSide)]
        } else {
            seq![]
        };
        assert(castling_moves(pos, from, c) == ks + qs);
        assert forall|k: int| 0 <= k < (ks + qs).len() implies (#[trigger] (ks + qs)[k]).castle is Some by {
            if k < ks.len() {
                assert((ks + qs)[k] == ks[k]);
            } else {
                assert((ks + qs)[k] == qs[k - ks.len()]);
            }
        }
    }
}

/// Every pseudo-legal move is sound (see `pseudo_move_sound`).
pub proof fn lemma_pseudo_moves_sound(pos: PositionModel, mv: ChessMove)
    requires
        spec_pseudo_moves(pos).contains(mv),
    ensures
        pseudo_move_sound(pos, mv),
{
    let c = pos.side_to_move;
    let board = pos.board;
    if mv.castle is Some {
        lemma_pseudo_castling_allowed(pos, mv);
        let base: int = if c == Color::White {
            0
        } else {
            56
        };
        assert(mv.castle == Some(CastleSide::KingSide) || mv.castle == Some(CastleSide::QueenSide)) by {
            match mv.castle {
                Some(CastleSide::QueenSide) => {},
                Some(CastleSide::KingSide) => {},
                None => {},
            }
        }
    } else {
        let i = lemma_upto_source(pos, 64, mv);
        let from = Square(i as u8);
        let ms = piece_moves(pos, i);
        let k = choose|k: int| 0 <= k < ms.len() && ms[k] == mv;
        assert(board[i] is Some);
        let p = board[i]->0;
        assert(p.color == c);
        assert(from.0 == i);
        match p.kind {
            PieceKind::Pawn => {
                lemma_pawn_moves_ok(pos, from, p.color);
                assert(pawn_move_ok(pos, from, c, ms[k]));
                if mv.promotion is Some {
                    assert(pawn_promo_rank(c) == if c == Color::White {
                        7int
                    } else {
                        0int
                    });
                }
            },
            PieceKind::Knight => {
                lemma_step_moves_land_ok(board, from, p.color, knight_deltas(), 8);
                assert(lands_ok(board, from, c, ms[k]));
            },
            PieceKind::Bishop => {
                lemma_slider_moves_land_ok(board, from, p.color, bishop_deltas(), 4);
                assert(lands_ok(board, from, c, ms[k]));
            },
            PieceKind::Rook => {
                lemma_slider_moves_land_ok(board, from, p.color, rook_deltas(), 4);
                assert(lands_ok(board, from, c, ms[k]));
            },
            PieceKind::Queen => {
                lemma_slider_moves_land_ok(board, from, p.color, king_deltas(), 8);
                assert(lands_ok(board, from, c, ms[k]));
            },
            PieceKind::King => {
                let steps = step_moves(board, from, p.color, king_deltas(), 8);
                let castles = castling_moves(pos, from, p.color);
                lemma_step_moves_land_ok(board, from, p.color, king_deltas(), 8);
                lemma_castling_moves_castle(pos, from, p.color);
                lemma_concat_contains(steps, castles, mv);
                if castles.contains(mv) {
                    let j = choose|j: int| 0 <= j < castles.len() && castles[j] == mv;
                    assert(castles[j].castle is Some);
                }
                let j = choose|j: int| 0 <= j < steps.len() && steps[j] == mv;
                assert(lands_ok(board, from, c, steps[j]));
            },
        }
    }
}

/// Every legal move is sound (see `pseudo_move_sound`).
pub proof fn lemma_legal_moves_sound(pos: PositionModel, mv: ChessMove)
    requires
        spec_legal_moves(pos).contains(mv),
    ensures
        pseudo_move_sound(pos, mv),
{
    lemma_legal_filter(pos, spec_pseudo_moves(pos));
    lemma_pseudo_moves_sound(pos, mv);
}

} // verus!
