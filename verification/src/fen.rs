use vstd::prelude::*;

use crate::board::{
    is_king_of, spec_algebraic, spec_fen_char, spec_from_algebraic, spec_kind_from_fen, spec_king_square, CastlingRights, Color, Piece,
    PieceKind, Position, PositionModel, Square,
};
use crate::text::{
    push_char, push_decimal, digit_char, spec_decimal,
    digit_value, is_digit, parse_u32, spec_parse_u32, spec_split_char, spec_split_whitespace,
    split_char, split_whitespace, str_to_chars,
};
use vstd::string::StringExecFns;

verus! {

/// Why a FEN string was rejected.
#[derive(Debug, Clone, PartialEq, Eq)]
pub enum FenError {
    InvalidFieldCount,
    InvalidBoard(String),
    InvalidSideToMove,
    InvalidCastlingRights,
    InvalidEnPassant,
    InvalidHalfmoveClock,
    InvalidFullmoveNumber,
}

/// The FEN of the standard starting position.
pub const STARTPOS_FEN: &'static str = "rnbqkbnr/pppppppp/8/8/8/8/PPPPPPPP/RNBQKBNR w KQkq - 0 1";

/// The reason in a rejected FEN, with the board message as characters.
pub enum FenFailure {
    FieldCount,
    Board(Seq<char>),
    SideToMove,
    Castling,
    EnPassant,
    Halfmove,
    Fullmove,
}

/// What reading a FEN string comes to: a position or a rejection.
pub enum FenOutcome {
    Parsed(PositionModel),
    Failed(FenFailure),
}

/// The state of reading one rank of the board field.
pub enum RankScan {
    Going(int, Seq<Option<Piece>>),
    Stopped(Seq<char>),
}

pub open spec fn empty_row() -> Seq<Option<Piece>> {
    Seq::new(8, |i: int| None::<Piece>)
}

/// Reading one more character of a rank: a digit 1-8 skips that many
/// files, a piece letter fills the next file.
pub open spec fn rank_step(st: RankScan, ch: char) -> RankScan {
    match st {
        RankScan::Going(file, row) => if is_digit(ch) {
            let d = digit_value(ch);
            if d == 0 || d > 8 {
                RankScan::Stopped("digit out of range"@)
            } else if file + d > 255 {
                RankScan::Stopped("file overflow"@)
            } else {
                RankScan::Going(file + d, row)
            }
        } else {
            match spec_kind_from_fen(ch) {
                None => RankScan::Stopped("invalid piece: "@.push(ch)),
                Some(k) => if file >= 8 {
                    RankScan::Stopped("file overflow"@)
                } else {
                    RankScan::Going(
                        file + 1,
                        row.update(
                            file,
                            Some(
                                Piece {
                                    color: if 'A' <= ch <= 'Z' {
                                        Color::White
                                    } else {
                                        Color::Black
                                    },
                                    kind: k,
                                },
                            ),
                        ),
                    )
                },
            }
        },
        other => other,
    }
}

/// The state after reading the first `n` characters of a rank.
pub open spec fn rank_scan(chunk: Seq<char>, n: int) -> RankScan
    decreases n,
{
    if n <= 0 {
        RankScan::Going(0, empty_row())
    } else {
        rank_step(rank_scan(chunk, n - 1), chunk[n - 1])
    }
}

/// A whole rank: it must end exactly at the eighth file.
pub open spec fn rank_result(chunk: Seq<char>) -> RankScan {
    match rank_scan(chunk, chunk.len() as int) {
        RankScan::Going(file, row) => if file != 8 {
            RankScan::Stopped("rank not complete"@)
        } else {
            RankScan::Going(file, row)
        },
        other => other,
    }
}

/// The state of reading the ranks of the board field.
pub enum BoardScan {
    Going(Seq<Seq<Option<Piece>>>),
    Stopped(Seq<char>),
}

/// The rows of the first `n` ranks (eighth rank first), or the first failure.
pub open spec fn board_scan(ranks: Seq<Seq<char>>, n: int) -> BoardScan
    decreases n,
{
    if n <= 0 {
        BoardScan::Going(seq![])
    } else {
        match board_scan(ranks, n - 1) {
            BoardScan::Going(rows) => match rank_result(ranks[n - 1]) {
                RankScan::Going(_, row) => BoardScan::Going(rows.push(row)),
                RankScan::Stopped(m) => BoardScan::Stopped(m),
            },
            other => other,
        }
    }
}

/// The 64 squares from eight rows listed eighth rank first.
pub open spec fn rows_to_board(rows: Seq<Seq<Option<Piece>>>) -> Seq<Option<Piece>> {
    Seq::new(64, |i: int| rows[7 - i / 8][i % 8])
}

/// How many kings of `color` stand on the first `n` squares.
pub open spec fn king_count(board: Seq<Option<Piece>>, color: Color, n: int) -> nat
    decreases n,
{
    if n <= 0 {
        0
    } else {
        king_count(board, color, n - 1) + if is_king_of(board[n - 1], color) {
            1nat
        } else {
            0nat
        }
    }
}

/// The board field read: eight ranks separated by `/`, each filling eight
/// files, with a king of each side.
pub open spec fn spec_parse_board(field: Seq<char>) -> BoardScan {
    let ranks = spec_split_char(field, '/');
    if ranks.len() != 8 {
        BoardScan::Stopped("expected 8 ranks"@)
    } else {
        match board_scan(ranks, 8) {
            BoardScan::Going(rows) => {
                let b = rows_to_board(rows);
                if king_count(b, Color::White, 64) == 0 {
                    BoardScan::Stopped("missing white king"@)
                } else if king_count(b, Color::Black, 64) == 0 {
                    BoardScan::Stopped("missing black king"@)
                } else {
                    BoardScan::Going(seq![b])
                }
            },
            other => other,
        }
    }
}

/// The side-to-move field: `w` or `b`.
pub open spec fn spec_parse_side(f: Seq<char>) -> Option<Color> {
    if f == seq!['w'] {
        Some(Color::White)
    } else if f == seq!['b'] {
        Some(Color::Black)
    } else {
        None
    }
}

/// Castling rights after reading the first `n` letters of the field.
pub open spec fn castling_scan(f: Seq<char>, n: int) -> Option<CastlingRights>
    decreases n,
{
    if n <= 0 {
        Some(CastlingRights::spec_none())
    } else {
        match castling_scan(f, n - 1) {
            Some(r) => {
                let ch = f[n - 1];
                if ch == 'K' {
                    Some(CastlingRights { white_king_side: true, ..r })
                } else if ch == 'Q' {
                    Some(CastlingRights { white_queen_side: true, ..r })
                } else if ch == 'k' {
                    Some(CastlingRights { black_king_side: true, ..r })
                } else if ch == 'q' {
                    Some(CastlingRights { black_queen_side: true, ..r })
                } else {
                    None
                }
            },
            None => None,
        }
    }
}

/// The castling field: `-`, or letters among `KQkq` in any order and number.
pub open spec fn spec_parse_castling(f: Seq<char>) -> Option<CastlingRights> {
    if f == seq!['-'] {
        Some(CastlingRights::spec_none())
    } else {
        castling_scan(f, f.len() as int)
    }
}

/// The en-passant field: `-`, or a square on the third or sixth rank.
pub open spec fn spec_parse_en_passant(f: Seq<char>) -> Option<Option<Square>> {
    if f == seq!['-'] {
        Some(None)
    } else {
        match spec_from_algebraic(f) {
            Some(sq) => if sq.spec_rank() == 2 || sq.spec_rank() == 5 {
                Some(Some(sq))
            } else {
                None
            },
            None => None,
        }
    }
}

/// What `parse_fen` makes of `input`: six whitespace-separated fields read
/// in order, the first failure deciding the error; the move number must not
/// be zero; the king fields hold the squares of the two kings.
pub open spec fn spec_parse_fen(input: Seq<char>) -> FenOutcome {
    let fields = spec_split_whitespace(input);
    if fields.len() != 6 {
        FenOutcome::Failed(FenFailure::FieldCount)
    } else {
        match spec_parse_board(fields[0]) {
            BoardScan::Stopped(m) => FenOutcome::Failed(FenFailure::Board(m)),
            BoardScan::Going(bs) => {
                let board = bs[0];
                match spec_parse_side(fields[1]) {
                    None => FenOutcome::Failed(FenFailure::SideToMove),
                    Some(side) => match spec_parse_castling(fields[2]) {
                        None => FenOutcome::Failed(FenFailure::Castling),
                        Some(castling) => match spec_parse_en_passant(fields[3]) {
                            None => FenOutcome::Failed(FenFailure::EnPassant),
                            Some(ep) => match spec_parse_u32(fields[4]) {
                                None => FenOutcome::Failed(FenFailure::Halfmove),
                                Some(h) => match spec_parse_u32(fields[5]) {
                                    None => FenOutcome::Failed(FenFailure::Fullmove),
                                    Some(f) => if f == 0 {
                                        FenOutcome::Failed(FenFailure::Fullmove)
                                    } else {
                                        FenOutcome::Parsed(
                                            PositionModel {
                                                board,
                                                side_to_move: side,
                                                castling,
                                                en_passant_target: ep,
                                                halfmove_clock: h,
                                                fullmove_number: f,
                                                white_king: spec_king_square(board, Color::White)->0,
                                                black_king: spec_king_square(board, Color::Black)->0,
                                            },
                                        )
                                    },
                                },
                            },
                        },
                    },
                }
            },
        }
    }
}

/// The error `e` is the one that `f` describes.
pub open spec fn fen_error_is(e: FenError, f: FenFailure) -> bool {
    match (e, f) {
        (FenError::InvalidFieldCount, FenFailure::FieldCount) => true,
        (FenError::InvalidBoard(s), FenFailure::Board(m)) => s@ == m,
        (FenError::InvalidSideToMove, FenFailure::SideToMove) => true,
        (FenError::InvalidCastlingRights, FenFailure::Castling) => true,
        (FenError::InvalidEnPassant, FenFailure::EnPassant) => true,
        (FenError::InvalidHalfmoveClock, FenFailure::Halfmove) => true,
        (FenError::InvalidFullmoveNumber, FenFailure::Fullmove) => true,
        _ => false,
    }
}

/// `parse_fen` gives exactly what `spec_parse_fen` describes.
pub open spec fn fen_result_is(input: Seq<char>, r: Result<Position, FenError>) -> bool {
    match spec_parse_fen(input) {
        FenOutcome::Parsed(m) => r is Ok && r->Ok_0@ == m,
        FenOutcome::Failed(f) => r is Err && fen_error_is(r->Err_0, f),
    }
}


enum RankParse {
    Row([Option<Piece>; 8]),
    Fail(String),
}

fn invalid_piece_message(ch: char) -> (r: String)
    ensures
        r@ == "invalid piece: "@.push(ch),
{
    let mut m = String::from_str("invalid piece: ");
    crate::text::push_char(&mut m, ch);
    m
}

fn parse_rank(chunk: &Vec<char>) -> (r: RankParse)
    ensures
        match rank_result(chunk@) {
            RankScan::Going(_, row) => r matches RankParse::Row(a) && a@ == row,
            RankScan::Stopped(m) => r matches RankParse::Fail(s) && s@ == m,
        },
{
    let mut row: [Option<Piece>; 8] = [None; 8];
    let mut file: u32 = 0;
    let mut i: usize = 0;
    assert(row@ =~= empty_row());
    while i < chunk.len()
        invariant
            i <= chunk.len(),
            rank_scan(chunk@, i as int) == RankScan::Going(file as int, row@),
            file <= 255,
        decreases chunk.len() - i,
    {
        let ch = chunk[i];
        if '0' <= ch && ch <= '9' {
            let n = ch as u32 - '0' as u32;
            if n == 0 || n > 8 {
                proof { lemma_rank_scan_stops(chunk@, i as int + 1); }
                return RankParse::Fail(String::from_str("digit out of range"));
            }
            if file + n > 255 {
                proof { lemma_rank_scan_stops(chunk@, i as int + 1); }
                return RankParse::Fail(String::from_str("file overflow"));
            }
            file = file + n;
        } else {
            match PieceKind::from_fen(ch) {
                None => {
                    proof { lemma_rank_scan_stops(chunk@, i as int + 1); }
                    return RankParse::Fail(invalid_piece_message(ch));
                },
                Some(kind) => {
                    if file >= 8 {
                        proof { lemma_rank_scan_stops(chunk@, i as int + 1); }
                        return RankParse::Fail(String::from_str("file overflow"));
                    }
                    let color = if 'A' <= ch && ch <= 'Z' { Color::White } else { Color::Black };
                    row[file as usize] = Some(Piece { color, kind });
                    file = file + 1;
                },
            }
        }
        i += 1;
    }
    if file != 8 {
        return RankParse::Fail(String::from_str("rank not complete"));
    }
    RankParse::Row(row)
}

/// Once reading a rank stops, reading on changes nothing.
proof fn lemma_rank_scan_stops(chunk: Seq<char>, n: int)
    requires
        0 <= n <= chunk.len(),
        !(rank_scan(chunk, n) is Going),
    ensures
        rank_scan(chunk, chunk.len() as int) == rank_scan(chunk, n),
    decreases chunk.len() - n,
{
    if n < chunk.len() {
        assert(rank_scan(chunk, n + 1) == rank_scan(chunk, n));
        lemma_rank_scan_stops(chunk, n + 1);
    }
}

/// Once reading the ranks stops, reading on changes nothing.
proof fn lemma_board_scan_stops(ranks: Seq<Seq<char>>, n: int, total: int)
    requires
        0 <= n <= total,
        !(board_scan(ranks, n) is Going),
    ensures
        board_scan(ranks, total) == board_scan(ranks, n),
    decreases total - n,
{
    if n < total {
        assert(board_scan(ranks, n + 1) == board_scan(ranks, n));
        lemma_board_scan_stops(ranks, n + 1, total);
    }
}

/// A board with a king of `color` somewhere has a first such square.
pub proof fn lemma_king_count_found(board: Seq<Option<Piece>>, color: Color, n: int)
    requires
        0 <= n <= 64,
        king_count(board, color, n) > 0,
    ensures
        exists|i: int| 0 <= i < 64 && is_king_of(#[trigger] board[i], color),
    decreases n,
{
    if n > 0 {
        if is_king_of(board[n - 1], color) {
        } else {
            lemma_king_count_found(board, color, n - 1);
        }
    }
}

/// Whether some spec-level king exists, so that `spec_king_square` names it.
pub proof fn lemma_king_square_some(board: Seq<Option<Piece>>, color: Color)
    requires
        exists|i: int| 0 <= i < 64 && is_king_of(#[trigger] board[i], color),
    ensures
        spec_king_square(board, color) is Some,
{
    let w = choose|i: int| 0 <= i < 64 && is_king_of(#[trigger] board[i], color);
    lemma_first_king(board, color, w);
}

proof fn lemma_first_king(board: Seq<Option<Piece>>, color: Color, w: int)
    requires
        0 <= w < 64,
        is_king_of(board[w], color),
    ensures
        exists|i: int|
            0 <= i < 64 && is_king_of(#[trigger] board[i], color) && forall|j: int|
                0 <= j < i ==> !is_king_of(#[trigger] board[j], color),
    decreases w,
{
    if exists|j: int| 0 <= j < w && is_king_of(#[trigger] board[j], color) {
        let j = choose|j: int| 0 <= j < w && is_king_of(#[trigger] board[j], color);
        lemma_first_king(board, color, j);
    } else {
        assert(forall|j: int| 0 <= j < w ==> !is_king_of(#[trigger] board[j], color));
    }
}

fn count_kings(board: &[Option<Piece>; 64], color: Color) -> (r: u32)
    ensures
        r == king_count(board@, color, 64),
{
    let mut n: u32 = 0;
    let mut i: usize = 0;
    while i < 64
        invariant
            i <= 64,
            n == king_count(board@, color, i as int),
            n <= i,
        decreases 64 - i,
    {
        match board[i] {
            Some(p) => {
                if p.color == color && p.kind == PieceKind::King {
                    n = n + 1;
                }
            },
            None => {},
        }
        i += 1;
    }
    n
}

enum BoardParse {
    Board([Option<Piece>; 64]),
    Fail(String),
}

fn parse_board(field: &Vec<char>) -> (r: BoardParse)
    ensures
        match spec_parse_board(field@) {
            BoardScan::Going(bs) => r matches BoardParse::Board(b) && b@ == bs[0],
            BoardScan::Stopped(m) => r matches BoardParse::Fail(s) && s@ == m,
        },
{
    let ranks = split_char(field, '/');
    if ranks.len() != 8 {
        return BoardParse::Fail(String::from_str("expected 8 ranks"));
    }
    let ghost rs = spec_split_char(field@, '/');
    let mut rows: Vec<[Option<Piece>; 8]> = Vec::new();
    let mut k: usize = 0;
    while k < 8
        invariant
            k <= 8,
            ranks@.len() == 8,
            rs == spec_split_char(field@, '/'),
            rs.len() == 8,
            forall|i: int| 0 <= i < 8 ==> (#[trigger] ranks@[i])@ == rs[i],
            board_scan(rs, k as int) matches BoardScan::Going(done) && done.len() == k && rows@.len() == k
                && forall|i: int| 0 <= i < k ==> (#[trigger] rows@[i])@ == done[i],
        decreases 8 - k,
    {
        let ghost done = board_scan(rs, k as int)->Going_0;
        match parse_rank(&ranks[k]) {
            RankParse::Row(row) => {
                assert(ranks@[k as int]@ == rs[k as int]);
                rows.push(row);
                assert(board_scan(rs, k as int + 1) == BoardScan::Going(done.push(row@)));
            },
            RankParse::Fail(m) => {
                assert(ranks@[k as int]@ == rs[k as int]);
                assert(board_scan(rs, k as int + 1) == BoardScan::Stopped(m@));
                proof { lemma_board_scan_stops(rs, k as int + 1, 8); }
                assert(board_scan(rs, 8) == BoardScan::Stopped(m@));
                assert(spec_parse_board(field@) == BoardScan::Stopped(m@));
                return BoardParse::Fail(m);
            },
        }
        k += 1;
    }
    let ghost done = board_scan(rs, 8)->Going_0;
    let mut board: [Option<Piece>; 64] = [None; 64];
    let mut i: usize = 0;
    while i < 64
        invariant
            i <= 64,
            rows@.len() == 8,
            done.len() == 8,
            forall|j: int| 0 <= j < 8 ==> (#[trigger] rows@[j])@ == done[j],
            forall|j: int| 0 <= j < i ==> board@[j] == #[trigger] rows_to_board(done)[j],
        decreases 64 - i,
    {
        let row = rows[7 - i / 8];
        board[i] = row[i % 8];
        i += 1;
    }
    assert(board@ =~= rows_to_board(done));
    if count_kings(&board, Color::White) == 0 {
        return BoardParse::Fail(String::from_str("missing white king"));
    }
    if count_kings(&board, Color::Black) == 0 {
        return BoardParse::Fail(String::from_str("missing black king"));
    }
    BoardParse::Board(board)
}

fn is_single(f: &Vec<char>, c: char) -> (r: bool)
    ensures
        r == (f@ == seq![c]),
{
    if f.len() == 1 && f[0] == c {
        assert(f@ =~= seq![c]);
        true
    } else {
        assert(f@.len() != 1 ==> f@ != seq![c]);
        false
    }
}

fn parse_side_to_move(field: &Vec<char>) -> (r: Result<Color, FenError>)
    ensures
        match spec_parse_side(field@) {
            Some(c) => r == Ok::<Color, FenError>(c),
            None => r is Err && r->Err_0 == FenError::InvalidSideToMove,
        },
{
    if is_single(field, 'w') {
        Ok(Color::White)
    } else if is_single(field, 'b') {
        Ok(Color::Black)
    } else {
        Err(FenError::InvalidSideToMove)
    }
}

fn parse_castling(field: &Vec<char>) -> (r: Result<CastlingRights, FenError>)
    ensures
        match spec_parse_castling(field@) {
            Some(c) => r == Ok::<CastlingRights, FenError>(c),
            None => r is Err && r->Err_0 == FenError::InvalidCastlingRights,
        },
{
    if is_single(field, '-') {
        return Ok(CastlingRights::empty());
    }
    let mut rights = CastlingRights::empty();
    let mut i: usize = 0;
    while i < field.len()
        invariant
            i <= field.len(),
            field@ != seq!['-'],
            castling_scan(field@, i as int) == Some(rights),
        decreases field.len() - i,
    {
        let ch = field[i];
        if ch == 'K' {
            rights.white_king_side = true;
        } else if ch == 'Q' {
            rights.white_queen_side = true;
        } else if ch == 'k' {
            rights.black_king_side = true;
        } else if ch == 'q' {
            rights.black_queen_side = true;
        } else {
            proof { lemma_castling_scan_none(field@, i as int + 1); }
            return Err(FenError::InvalidCastlingRights);
        }
        i += 1;
    }
    Ok(rights)
}

proof fn lemma_castling_scan_none(f: Seq<char>, n: int)
    requires
        0 <= n <= f.len(),
        castling_scan(f, n) is None,
    ensures
        castling_scan(f, f.len() as int) is None,
    decreases f.len() - n,
{
    if n < f.len() {
        lemma_castling_scan_none(f, n + 1);
    }
}

fn parse_en_passant(field: &Vec<char>) -> (r: Result<Option<Square>, FenError>)
    ensures
        match spec_parse_en_passant(field@) {
            Some(e) => r == Ok::<Option<Square>, FenError>(e),
            None => r is Err && r->Err_0 == FenError::InvalidEnPassant,
        },
{
    if is_single(field, '-') {
        return Ok(None);
    }
    if field.len() != 2 {
        return Err(FenError::InvalidEnPassant);
    }
    let f = field[0];
    let k = field[1];
    if !('a' <= f && f <= 'h' && '1' <= k && k <= '8') {
        return Err(FenError::InvalidEnPassant);
    }
    let sq = Square(((k as u32 - '1' as u32) * 8 + (f as u32 - 'a' as u32)) as u8);
    let rank = sq.rank();
    if rank != 2 && rank != 5 {
        return Err(FenError::InvalidEnPassant);
    }
    Ok(Some(sq))
}

/// Reads a position in Forsyth-Edwards Notation (see `spec_parse_fen`).
pub fn parse_fen(input: &str) -> (r: Result<Position, FenError>)
    ensures
        fen_result_is(input@, r),
{
    let cs = str_to_chars(input);
    let fields = split_whitespace(&cs);
    if fields.len() != 6 {
        return Err(FenError::InvalidFieldCount);
    }
    let board = match parse_board(&fields[0]) {
        BoardParse::Board(b) => b,
        BoardParse::Fail(m) => {
            return Err(FenError::InvalidBoard(m));
        },
    };
    let side_to_move = match parse_side_to_move(&fields[1]) {
        Ok(v) => v,
        Err(e) => {
            return Err(e);
        },
    };
    let castling = match parse_castling(&fields[2]) {
        Ok(v) => v,
        Err(e) => {
            return Err(e);
        },
    };
    let en_passant_target = match parse_en_passant(&fields[3]) {
        Ok(v) => v,
        Err(e) => {
            return Err(e);
        },
    };
    let halfmove_clock = match parse_u32(&fields[4]) {
        Some(v) => v,
        None => {
            return Err(FenError::InvalidHalfmoveClock);
        },
    };
    let fullmove_number = match parse_u32(&fields[5]) {
        Some(v) => v,
        None => {
            return Err(FenError::InvalidFullmoveNumber);
        },
    };
    if fullmove_number == 0 {
        return Err(FenError::InvalidFullmoveNumber);
    }
    let mut position = Position {
        board,
        side_to_move,
        castling,
        en_passant_target,
        halfmove_clock,
        fullmove_number,
        white_king: Square(4),
        black_king: Square(60),
    };
    proof {
        lemma_king_count_found(board@, Color::White, 64);
        lemma_king_count_found(board@, Color::Black, 64);
        lemma_king_square_some(board@, Color::White);
        lemma_king_square_some(board@, Color::Black);
    }
    match position.king_square(Color::White) {
        Some(sq) => position.white_king = sq,
        None => {},
    }
    match position.king_square(Color::Black) {
        Some(sq) => position.black_king = sq,
        None => {},
    }
    Ok(position)
}


impl FenError {
    /// A human-readable description of the error.
    pub fn to_string(&self) -> (r: String)
        ensures
            r@ == spec_fen_error_message(*self),
    {
        match self {
            FenError::InvalidFieldCount => String::from_str("FEN must have 6 fields"),
            FenError::InvalidBoard(m) => {
                let mut s = String::from_str("invalid board: ");
                crate::text::push_str(&mut s, m.as_str());
                s
            },
            FenError::InvalidSideToMove => String::from_str("invalid side to move"),
            FenError::InvalidCastlingRights => String::from_str("invalid castling rights"),
            FenError::InvalidEnPassant => String::from_str("invalid en passant square"),
            FenError::InvalidHalfmoveClock => String::from_str("invalid halfmove clock"),
            FenError::InvalidFullmoveNumber => String::from_str("invalid fullmove number"),
        }
    }
}

/// The text `FenError::to_string` gives.
pub open spec fn spec_fen_error_message(e: FenError) -> Seq<char> {
    match e {
        FenError::InvalidFieldCount => "FEN must have 6 fields"@,
        FenError::InvalidBoard(m) => "invalid board: "@ + m@,
        FenError::InvalidSideToMove => "invalid side to move"@,
        FenError::InvalidCastlingRights => "invalid castling rights"@,
        FenError::InvalidEnPassant => "invalid en passant square"@,
        FenError::InvalidHalfmoveClock => "invalid halfmove clock"@,
        FenError::InvalidFullmoveNumber => "invalid fullmove number"@,
    }
}


/// The message of the error that `f` describes.
pub open spec fn fen_failure_message(f: FenFailure) -> Seq<char> {
    match f {
        FenFailure::FieldCount => "FEN must have 6 fields"@,
        FenFailure::Board(m) => "invalid board: "@ + m,
        FenFailure::SideToMove => "invalid side to move"@,
        FenFailure::Castling => "invalid castling rights"@,
        FenFailure::EnPassant => "invalid en passant square"@,
        FenFailure::Halfmove => "invalid halfmove clock"@,
        FenFailure::Fullmove => "invalid fullmove number"@,
    }
}

/// The error that `f` describes has the message of `f`.
pub proof fn lemma_fen_error_message(e: FenError, f: FenFailure)
    requires
        fen_error_is(e, f),
    ensures
        spec_fen_error_message(e) == fen_failure_message(f),
{
}

/// FEN text of rank `rank` from file `file` on, with `empty` empty squares
/// counted just before it: runs of empty squares become a digit.
pub open spec fn rank_fen(board: Seq<Option<Piece>>, rank: int, file: int, empty: int) -> Seq<char>
    decreases 8 - file,
{
    if file >= 8 {
        if empty > 0 {
            seq![digit_char(empty)]
        } else {
            seq![]
        }
    } else {
        match board[rank * 8 + file] {
            Some(p) => (if empty > 0 {
                seq![digit_char(empty)]
            } else {
                seq![]
            }) + seq![spec_fen_char(p.kind, p.color)] + rank_fen(board, rank, file + 1, 0),
            None => rank_fen(board, rank, file + 1, empty + 1),
        }
    }
}

/// The first `n` ranks of the board field, eighth rank first, separated by `/`.
pub open spec fn board_fen(board: Seq<Option<Piece>>, n: int) -> Seq<char>
    decreases n,
{
    if n <= 0 {
        seq![]
    } else {
        board_fen(board, n - 1) + rank_fen(board, 8 - n, 0, 0) + if n < 8 {
            seq!['/']
        } else {
            seq![]
        }
    }
}

/// The castling field: the letters of the rights held, in `KQkq` order, or `-`.
pub open spec fn castling_fen(c: CastlingRights) -> Seq<char> {
    let s = (if c.white_king_side {
        seq!['K']
    } else {
        seq![]
    }) + (if c.white_queen_side {
        seq!['Q']
    } else {
        seq![]
    }) + (if c.black_king_side {
        seq!['k']
    } else {
        seq![]
    }) + (if c.black_queen_side {
        seq!['q']
    } else {
        seq![]
    });
    if s.len() == 0 {
        seq!['-']
    } else {
        s
    }
}

/// The FEN text of a position: six fields separated by single spaces.
pub open spec fn spec_to_fen(m: PositionModel) -> Seq<char> {
    board_fen(m.board, 8) + seq![' '] + (match m.side_to_move {
        Color::White => seq!['w'],
        Color::Black => seq!['b'],
    }) + seq![' '] + castling_fen(m.castling) + seq![' '] + (match m.en_passant_target {
        Some(sq) => spec_algebraic(sq),
        None => seq!['-'],
    }) + seq![' '] + spec_decimal(m.halfmove_clock as nat) + seq![' '] + spec_decimal(
        m.fullmove_number as nat,
    )
}

fn push_rank_fen(out: &mut String, position: &Position, rank: u8)
    requires
        rank < 8,
    ensures
        final(out)@ == old(out)@ + rank_fen(position.board@, rank as int, 0, 0),
{
    let mut empty: u8 = 0;
    let mut file: u8 = 0;
    while file < 8
        invariant
            rank < 8,
            file <= 8,
            empty <= file,
            out@ + rank_fen(position.board@, rank as int, file as int, empty as int) == old(out)@ + rank_fen(
                position.board@,
                rank as int,
                0,
                0,
            ),
        decreases 8 - file,
    {
        let ghost before = out@;
        match position.board[(rank * 8 + file) as usize] {
            Some(piece) => {
                if empty > 0 {
                    push_char(out, ((empty as u32) + ('0' as u32)) as u8 as char);
                    empty = 0;
                }
                push_char(out, piece.kind.fen_char(piece.color));
            },
            None => {
                empty = empty + 1;
            },
        }
        file = file + 1;
        assert(out@ + rank_fen(position.board@, rank as int, file as int, empty as int) =~= old(out)@ + rank_fen(
            position.board@,
            rank as int,
            0,
            0,
        ));
    }
    if empty > 0 {
        push_char(out, ((empty as u32) + ('0' as u32)) as u8 as char);
    }
    assert(out@ =~= old(out)@ + rank_fen(position.board@, rank as int, 0, 0));
}

fn push_board_fen(s: &mut String, position: &Position)
    ensures
        final(s)@ == old(s)@ + board_fen(position.board@, 8),
{
    let mut n: u8 = 0;
    while n < 8
        invariant
            n <= 8,
            s@ == old(s)@ + board_fen(position.board@, n as int),
        decreases 8 - n,
    {
        push_rank_fen(s, position, 7 - n);
        if n < 7 {
            push_char(s, '/');
        }
        n = n + 1;
        assert(s@ =~= old(s)@ + board_fen(position.board@, n as int));
    }
}

fn push_castling_fen(s: &mut String, c: CastlingRights)
    ensures
        final(s)@ == old(s)@ + castling_fen(c),
{
    if c.white_king_side {
        push_char(s, 'K');
    }
    if c.white_queen_side {
        push_char(s, 'Q');
    }
    if c.black_king_side {
        push_char(s, 'k');
    }
    if c.black_queen_side {
        push_char(s, 'q');
    }
    if !c.white_king_side && !c.white_queen_side && !c.black_king_side && !c.black_queen_side {
        push_char(s, '-');
    }
    assert(s@ =~= old(s)@ + castling_fen(c));
}

fn push_ep_fen(s: &mut String, ep: Option<Square>)
    ensures
        final(s)@ == old(s)@ + match ep {
            Some(sq) => spec_algebraic(sq),
            None => seq!['-'],
        },
{
    match ep {
        Some(sq) => {
            let a = sq.to_algebraic();
            crate::text::push_str(s, a.as_str());
        },
        None => push_char(s, '-'),
    }
}

/// Writes `position` in Forsyth-Edwards Notation (see `spec_to_fen`).
pub fn to_fen(position: &Position) -> (r: String)
    ensures
        r@ == spec_to_fen(position@),
{
    let mut s = String::new();
    push_board_fen(&mut s, position);
    let ghost a = s@;
    push_char(&mut s, ' ');
    match position.side_to_move {
        Color::White => push_char(&mut s, 'w'),
        Color::Black => push_char(&mut s, 'b'),
    }
    push_char(&mut s, ' ');
    let ghost b = s@;
    push_castling_fen(&mut s, position.castling);
    push_char(&mut s, ' ');
    let ghost c = s@;
    push_ep_fen(&mut s, position.en_passant_target);
    push_char(&mut s, ' ');
    let ghost d = s@;
    push_decimal(&mut s, position.halfmove_clock as u128);
    push_char(&mut s, ' ');
    push_decimal(&mut s, position.fullmove_number as u128);
    assert(s@ =~= spec_to_fen(position@));
    s
}

/// The first `n` letters of `f` are castling letters, and the rights read
/// from them are those whose letters occur among them.
proof fn lemma_castling_scan_letters(f: Seq<char>, n: int)
    requires
        0 <= n <= f.len(),
    ensures
        castling_scan(f, n) is Some <==> forall|i: int|
            0 <= i < n ==> #[trigger] f[i] == 'K' || f[i] == 'Q' || f[i] == 'k' || f[i] == 'q',
        castling_scan(f, n) is Some ==> {
            let r = castling_scan(f, n)->0;
            &&& r.white_king_side == exists|i: int| 0 <= i < n && #[trigger] f[i] == 'K'
            &&& r.white_queen_side == exists|i: int| 0 <= i < n && #[trigger] f[i] == 'Q'
            &&& r.black_king_side == exists|i: int| 0 <= i < n && #[trigger] f[i] == 'k'
            &&& r.black_queen_side == exists|i: int| 0 <= i < n && #[trigger] f[i] == 'q'
        },
    decreases n,
{
    if n > 0 {
        lemma_castling_scan_letters(f, n - 1);
        let ch = f[n - 1];
        if castling_scan(f, n) is Some {
            let r = castling_scan(f, n)->0;
            let r0 = castling_scan(f, n - 1)->0;
            assert(r.white_king_side == exists|i: int| 0 <= i < n && #[trigger] f[i] == 'K') by {
                if r.white_king_side && !r0.white_king_side {
                    assert(f[n - 1] == 'K');
                }
                if exists|i: int| 0 <= i < n && #[trigger] f[i] == 'K' {
                    let i = choose|i: int| 0 <= i < n && #[trigger] f[i] == 'K';
                    if i < n - 1 {
                        assert(r0.white_king_side);
                    }
                }
            }
            assert(r.white_queen_side == exists|i: int| 0 <= i < n && #[trigger] f[i] == 'Q') by {
                if r.white_queen_side && !r0.white_queen_side {
                    assert(f[n - 1] == 'Q');
                }
                if exists|i: int| 0 <= i < n && #[trigger] f[i] == 'Q' {
                    let i = choose|i: int| 0 <= i < n && #[trigger] f[i] == 'Q';
                    if i < n - 1 {
                        assert(r0.white_queen_side);
                    }
                }
            }
            assert(r.black_king_side == exists|i: int| 0 <= i < n && #[trigger] f[i] == 'k') by {
                if r.black_king_side && !r0.black_king_side {
                    assert(f[n - 1] == 'k');
                }
                if exists|i: int| 0 <= i < n && #[trigger] f[i] == 'k' {
                    let i = choose|i: int| 0 <= i < n && #[trigger] f[i] == 'k';
                    if i < n - 1 {
                        assert(r0.black_king_side);
                    }
                }
            }
            assert(r.black_queen_side == exists|i: int| 0 <= i < n && #[trigger] f[i] == 'q') by {
                if r.black_queen_side && !r0.black_queen_side {
                    assert(f[n - 1] == 'q');
                }
                if exists|i: int| 0 <= i < n && #[trigger] f[i] == 'q' {
                    let i = choose|i: int| 0 <= i < n && #[trigger] f[i] == 'q';
                    if i < n - 1 {
                        assert(r0.black_queen_side);
                    }
                }
            }
        }
        if forall|i: int| 0 <= i < n ==> #[trigger] f[i] == 'K' || f[i] == 'Q' || f[i] == 'k' || f[i] == 'q' {
            assert forall|i: int| 0 <= i < n - 1 implies #[trigger] f[i] == 'K' || f[i] == 'Q' || f[i] == 'k'
                || f[i] == 'q' by {
                assert(f[i] == 'K' || f[i] == 'Q' || f[i] == 'k' || f[i] == 'q');
            }
            assert(f[n - 1] == 'K' || f[n - 1] == 'Q' || f[n - 1] == 'k' || f[n - 1] == 'q');
        }
    }
}

/// Reading the castling field: `-` grants no right; otherwise the field is
/// valid exactly when each of its letters is one of `K`, `Q`, `k`, `q`, and
/// then `K` grants White's king side, `Q` White's queen side, `k` Black's
/// king side and `q` Black's queen side, each exactly when it occurs.
pub proof fn lemma_parse_castling_letters(f: Seq<char>)
    ensures
        f == seq!['-'] ==> spec_parse_castling(f) == Some(
            CastlingRights {
                white_king_side: false,
                white_queen_side: false,
                black_king_side: false,
                black_queen_side: false,
            },
        ),
        f != seq!['-'] ==> (spec_parse_castling(f) is Some <==> forall|i: int|
            0 <= i < f.len() ==> #[trigger] f[i] == 'K' || f[i] == 'Q' || f[i] == 'k' || f[i] == 'q'),
        f != seq!['-'] && spec_parse_castling(f) is Some ==> {
            let r = spec_parse_castling(f)->0;
            &&& r.white_king_side == f.contains('K')
            &&& r.white_queen_side == f.contains('Q')
            &&& r.black_king_side == f.contains('k')
            &&& r.black_queen_side == f.contains('q')
        },
{
    lemma_castling_scan_letters(f, f.len() as int);
}

/// The castling rights of a parsed position are read from its third field:
/// with a field other than `-`, White may castle king side exactly when the
/// field holds `K`, queen side when it holds `Q`, and Black likewise with
/// `k` and `q`; with `-`, no one may castle.
pub proof fn lemma_parsed_castling_rights(input: Seq<char>)
    requires
        spec_parse_fen(input) is Parsed,
    ensures
        ({
            let f = spec_split_whitespace(input)[2];
            let r = spec_parse_fen(input)->Parsed_0.castling;
            &&& f != seq!['-'] ==> {
                &&& r.white_king_side == f.contains('K')
                &&& r.white_queen_side == f.contains('Q')
                &&& r.black_king_side == f.contains('k')
                &&& r.black_queen_side == f.contains('q')
            }
            &&& f == seq!['-'] ==> !r.white_king_side && !r.white_queen_side && !r.black_king_side
                && !r.black_queen_side
        }),
{
    lemma_parse_castling_letters(spec_split_whitespace(input)[2]);
}

/// The castling field written for rights `c` holds `K` exactly when White
/// may castle king side, `Q` when White may castle queen side, `k` and `q`
/// likewise for Black, and is `-` when no one may castle.
pub proof fn lemma_castling_fen_letters(c: CastlingRights)
    ensures
        castling_fen(c).contains('K') == c.white_king_side,
        castling_fen(c).contains('Q') == c.white_queen_side,
        castling_fen(c).contains('k') == c.black_king_side,
        castling_fen(c).contains('q') == c.black_queen_side,
        (castling_fen(c) == seq!['-']) == (!c.white_king_side && !c.white_queen_side && !c.black_king_side
            && !c.black_queen_side),
{
    let a = if c.white_king_side {
        seq!['K']
    } else {
        seq![]
    };
    let b = if c.white_queen_side {
        seq!['Q']
    } else {
        seq![]
    };
    let d = if c.black_king_side {
        seq!['k']
    } else {
        seq![]
    };
    let e = if c.black_queen_side {
        seq!['q']
    } else {
        seq![]
    };
    let s = a + b + d + e;
    let w = castling_fen(c);
    assert forall|x: char| #[trigger] s.contains(x) <==> (a.contains(x) || b.contains(x) || d.contains(x)
        || e.contains(x)) by {
        if s.contains(x) {
            let k = choose|k: int| 0 <= k < s.len() && s[k] == x;
            if k < a.len() {
                assert(a[k] == x);
            } else if k < a.len() + b.len() {
                assert(b[k - a.len()] == x);
            } else if k < a.len() + b.len() + d.len() {
                assert(d[k - a.len() - b.len()] == x);
            } else {
                assert(e[k - a.len() - b.len() - d.len()] == x);
            }
        }
        if a.contains(x) {
            assert(s[0] == x);
        }
        if b.contains(x) {
            assert(s[a.len() as int] == x);
        }
        if d.contains(x) {
            assert(s[(a.len() + b.len()) as int] == x);
        }
        if e.contains(x) {
            assert(s[(a.len() + b.len() + d.len()) as int] == x);
        }
    }
    assert(a.contains('K') == c.white_king_side) by {
        if c.white_king_side {
            assert(a[0] == 'K');
        }
    }
    assert(b.contains('Q') == c.white_queen_side) by {
        if c.white_queen_side {
            assert(b[0] == 'Q');
        }
    }
    assert(d.contains('k') == c.black_king_side) by {
        if c.black_king_side {
            assert(d[0] == 'k');
        }
    }
    assert(e.contains('q') == c.black_queen_side) by {
        if c.black_queen_side {
            assert(e[0] == 'q');
        }
    }
    if s.len() == 0 {
        assert(w == seq!['-']);
        assert(!w.contains('K') && !w.contains('Q') && !w.contains('k') && !w.contains('q')) by {
            assert(w[0] == '-');
        }
    } else {
        assert(w == s);
        assert(w != seq!['-']) by {
            if w == seq!['-'] {
                assert(s.contains('-'));
            }
        }
    }
}

} // verus!
