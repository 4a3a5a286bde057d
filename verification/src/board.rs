use vstd::prelude::*;

use crate::text::{push_char, str_to_chars};

verus! {

/// The two sides of a chess game.
#[derive(Debug, Clone, Copy, PartialEq, Eq, Hash, Structural)]
pub enum Color {
    White,
    Black,
}

impl Color {
    pub open spec fn spec_opposite(self) -> Color {
        match self {
            Color::White => Color::Black,
            Color::Black => Color::White,
        }
    }

    /// The other side.
    pub fn opposite(self) -> (r: Color)
        ensures
            r == self.spec_opposite(),
    {
        match self {
            Color::White => Color::Black,
            Color::Black => Color::White,
        }
    }
}

/// The six kinds of chess pieces.
#[derive(Debug, Clone, Copy, PartialEq, Eq, Hash, Structural)]
pub enum PieceKind {
    Pawn,
    Knight,
    Bishop,
    Rook,
    Queen,
    King,
}

/// The piece kind that a FEN letter names, in either case.
pub open spec fn spec_kind_from_fen(c: char) -> Option<PieceKind> {
    if c == 'p' || c == 'P' {
        Some(PieceKind::Pawn)
    } else if c == 'n' || c == 'N' {
        Some(PieceKind::Knight)
    } else if c == 'b' || c == 'B' {
        Some(PieceKind::Bishop)
    } else if c == 'r' || c == 'R' {
        Some(PieceKind::Rook)
    } else if c == 'q' || c == 'Q' {
        Some(PieceKind::Queen)
    } else if c == 'k' || c == 'K' {
        Some(PieceKind::King)
    } else {
        None
    }
}

/// The lower-case FEN letter of a piece kind.
pub open spec fn spec_lower_char(k: PieceKind) -> char {
    match k {
        PieceKind::Pawn => 'p',
        PieceKind::Knight => 'n',
        PieceKind::Bishop => 'b',
        PieceKind::Rook => 'r',
        PieceKind::Queen => 'q',
        PieceKind::King => 'k',
    }
}

/// The upper-case FEN letter of a piece kind.
pub open spec fn spec_upper_char(k: PieceKind) -> char {
    match k {
        PieceKind::Pawn => 'P',
        PieceKind::Knight => 'N',
        PieceKind::Bishop => 'B',
        PieceKind::Rook => 'R',
        PieceKind::Queen => 'Q',
        PieceKind::King => 'K',
    }
}

/// FEN letter of a piece: upper case for White, lower case for Black.
pub open spec fn spec_fen_char(k: PieceKind, color: Color) -> char {
    match color {
        Color::White => spec_upper_char(k),
        Color::Black => spec_lower_char(k),
    }
}

/// SAN letter of a piece kind; pawns have none.
pub open spec fn spec_san_char(k: PieceKind) -> Option<char> {
    match k {
        PieceKind::Pawn => None,
        _ => Some(spec_upper_char(k)),
    }
}

impl PieceKind {
    /// Reads a FEN piece letter, ignoring its case.
    pub fn from_fen(c: char) -> (r: Option<PieceKind>)
        ensures
            r == spec_kind_from_fen(c),
    {
        if c == 'p' || c == 'P' {
            Some(PieceKind::Pawn)
        } else if c == 'n' || c == 'N' {
            Some(PieceKind::Knight)
        } else if c == 'b' || c == 'B' {
            Some(PieceKind::Bishop)
        } else if c == 'r' || c == 'R' {
            Some(PieceKind::Rook)
        } else if c == 'q' || c == 'Q' {
            Some(PieceKind::Queen)
        } else if c == 'k' || c == 'K' {
            Some(PieceKind::King)
        } else {
            None
        }
    }

    /// The FEN letter of this kind for the given side.
    pub fn fen_char(self, color: Color) -> (r: char)
        ensures
            r == spec_fen_char(self, color),
    {
        match color {
            Color::White => match self {
                PieceKind::Pawn => 'P',
                PieceKind::Knight => 'N',
                PieceKind::Bishop => 'B',
                PieceKind::Rook => 'R',
                PieceKind::Queen => 'Q',
                PieceKind::King => 'K',
            },
            Color::Black => match self {
                PieceKind::Pawn => 'p',
                PieceKind::Knight => 'n',
                PieceKind::Bishop => 'b',
                PieceKind::Rook => 'r',
                PieceKind::Queen => 'q',
                PieceKind::King => 'k',
            },
        }
    }

    /// The SAN letter of this kind (`None` for pawns).
    pub fn san_char(self) -> (r: Option<char>)
        ensures
            r == spec_san_char(self),
    {
        match self {
            PieceKind::Pawn => None,
            PieceKind::Knight => Some('N'),
            PieceKind::Bishop => Some('B'),
            PieceKind::Rook => Some('R'),
            PieceKind::Queen => Some('Q'),
            PieceKind::King => Some('K'),
        }
    }
}

/// A piece of a given side.
#[derive(Debug, Clone, Copy, PartialEq, Eq, Hash, Structural)]
pub struct Piece {
    pub color: Color,
    pub kind: PieceKind,
}

/// A square, numbered `rank * 8 + file` with a1 = 0 and h8 = 63.
#[derive(Debug, Clone, Copy, PartialEq, Eq, Hash, Structural)]
pub struct Square(pub u8);

/// The square with the given file and rank, if both are below 8.
pub open spec fn spec_from_coords(file: int, rank: int) -> Option<Square> {
    if 0 <= file < 8 && 0 <= rank < 8 {
        Some(Square((rank * 8 + file) as u8))
    } else {
        None
    }
}

/// Characters of the coordinate name of a square (`a1` .. `h8`).
pub open spec fn spec_algebraic(sq: Square) -> Seq<char> {
    seq![('a' as u8 + sq.0 % 8) as char, ('1' as u8 + sq.0 / 8) as char]
}

/// The square named by two characters `a`..`h` and `1`..`8`.
pub open spec fn spec_from_algebraic(s: Seq<char>) -> Option<Square> {
    if s.len() == 2 && 'a' <= s[0] <= 'h' && '1' <= s[1] <= '8' {
        Some(Square(((s[1] as int - '1' as int) * 8 + (s[0] as int - 'a' as int)) as u8))
    } else {
        None
    }
}

impl Square {
    pub open spec fn valid(self) -> bool {
        self.0 < 64
    }

    pub open spec fn spec_file(self) -> int {
        (self.0 % 8) as int
    }

    pub open spec fn spec_rank(self) -> int {
        (self.0 / 8) as int
    }

    /// The square at `file`, `rank` (both counted from 0), if on the board.
    pub fn from_coords(file: u8, rank: u8) -> (r: Option<Square>)
        ensures
            r == spec_from_coords(file as int, rank as int),
    {
        if file < 8 && rank < 8 {
            Some(Square(rank * 8 + file))
        } else {
            None
        }
    }

    /// The file of this square, 0 for the a-file.
    pub fn file(self) -> (r: u8)
        ensures
            r == self.spec_file(),
    {
        self.0 % 8
    }

    /// The rank of this square, 0 for the first rank.
    pub fn rank(self) -> (r: u8)
        ensures
            r == self.spec_rank(),
    {
        self.0 / 8
    }

    /// Reads a square name such as `e4`.
    pub fn from_algebraic(value: &str) -> (r: Option<Square>)
        ensures
            r == spec_from_algebraic(value@),
    {
        let cs = str_to_chars(value);
        if cs.len() != 2 {
            return None;
        }
        let f = cs[0];
        let k = cs[1];
        if 'a' <= f && f <= 'h' && '1' <= k && k <= '8' {
            let file = (f as u32 - 'a' as u32) as u8;
            let rank = (k as u32 - '1' as u32) as u8;
            Some(Square(rank * 8 + file))
        } else {
            None
        }
    }

    /// The name of this square such as `e4`.
    pub fn to_algebraic(self) -> (r: String)
        ensures
            r@ == spec_algebraic(self),
    {
        let mut s = String::new();
        push_char(&mut s, (97u8 + self.0 % 8) as char);
        push_char(&mut s, (49u8 + self.0 / 8) as char);
        s
    }
}

/// Which castling moves are still allowed.
#[derive(Debug, Clone, Copy, PartialEq, Eq, Structural)]
pub struct CastlingRights {
    pub white_king_side: bool,
    pub white_queen_side: bool,
    pub black_king_side: bool,
    pub black_queen_side: bool,
}

impl CastlingRights {
    pub open spec fn spec_none() -> CastlingRights {
        CastlingRights {
            white_king_side: false,
            white_queen_side: false,
            black_king_side: false,
            black_queen_side: false,
        }
    }

    pub open spec fn spec_all() -> CastlingRights {
        CastlingRights {
            white_king_side: true,
            white_queen_side: true,
            black_king_side: true,
            black_queen_side: true,
        }
    }

    /// No castling rights at all.
    pub fn empty() -> (r: CastlingRights)
        ensures
            r == Self::spec_none(),
    {
        CastlingRights {
            white_king_side: false,
            white_queen_side: false,
            black_king_side: false,
            black_queen_side: false,
        }
    }
}

impl Default for CastlingRights {
    /// All four castling rights.
    fn default() -> (r: CastlingRights)
        ensures
            r == CastlingRights::spec_all(),
    {
        CastlingRights {
            white_king_side: true,
            white_queen_side: true,
            black_king_side: true,
            black_queen_side: true,
        }
    }
}

/// The two ways to castle.
#[derive(Debug, Clone, Copy, PartialEq, Eq, Structural)]
pub enum CastleSide {
    KingSide,
    QueenSide,
}

/// A move, with the flags that move generation attaches to it.
#[derive(Debug, Clone, Copy, PartialEq, Eq, Structural)]
pub struct ChessMove {
    pub from: Square,
    pub to: Square,
    pub promotion: Option<PieceKind>,
    pub is_capture: bool,
    pub is_en_passant: bool,
    pub castle: Option<CastleSide>,
}

/// A plain move from `from` to `to` with no flags.
pub open spec fn spec_quiet(from: Square, to: Square) -> ChessMove {
    ChessMove {
        from,
        to,
        promotion: None,
        is_capture: false,
        is_en_passant: false,
        castle: None,
    }
}

/// The promotion letter used in coordinate notation.
pub open spec fn spec_promo_letter(k: PieceKind) -> char {
    match k {
        PieceKind::Knight => 'n',
        PieceKind::Bishop => 'b',
        PieceKind::Rook => 'r',
        _ => 'q',
    }
}

/// Coordinate notation of a move: `e2e4`, or `e7e8q` with a promotion.
pub open spec fn spec_coordinate(mv: ChessMove) -> Seq<char> {
    let base = spec_algebraic(mv.from) + spec_algebraic(mv.to);
    match mv.promotion {
        Some(k) => base.push(spec_promo_letter(k)),
        None => base,
    }
}

impl ChessMove {
    /// A move with no capture, promotion, en passant or castling flag.
    pub fn new(from: Square, to: Square) -> (r: ChessMove)
        ensures
            r == spec_quiet(from, to),
    {
        ChessMove {
            from,
            to,
            promotion: None,
            is_capture: false,
            is_en_passant: false,
            castle: None,
        }
    }

    /// The move in coordinate notation, such as `e2e4` or `e7e8q`.
    pub fn to_coordinate(&self) -> (r: String)
        ensures
            r@ == spec_coordinate(*self),
    {
        let mut s = String::new();
        push_char(&mut s, (97u8 + self.from.0 % 8) as char);
        push_char(&mut s, (49u8 + self.from.0 / 8) as char);
        push_char(&mut s, (97u8 + self.to.0 % 8) as char);
        push_char(&mut s, (49u8 + self.to.0 / 8) as char);
        match self.promotion {
            Some(k) => {
                let c = match k {
                    PieceKind::Knight => 'n',
                    PieceKind::Bishop => 'b',
                    PieceKind::Rook => 'r',
                    _ => 'q',
                };
                push_char(&mut s, c);
            },
            None => {},
        }
        assert(s@ =~= spec_coordinate(*self));
        s
    }
}

/// A full game state: the board and the FEN bookkeeping fields.
///
/// `white_king` and `black_king` record where each king stands: the FEN
/// reader sets them to the squares of the two kings, and making a king move
/// records the king's new square.
#[derive(Debug, Clone, Copy, PartialEq, Eq)]
pub struct Position {
    pub board: [Option<Piece>; 64],
    pub side_to_move: Color,
    pub castling: CastlingRights,
    pub en_passant_target: Option<Square>,
    pub halfmove_clock: u32,
    pub fullmove_number: u32,
    pub white_king: Square,
    pub black_king: Square,
}

/// The mathematical content of a position: the board as a sequence of 64
/// squares and the bookkeeping fields.
#[verifier::ext_equal]
pub struct PositionModel {
    pub board: Seq<Option<Piece>>,
    pub side_to_move: Color,
    pub castling: CastlingRights,
    pub en_passant_target: Option<Square>,
    pub halfmove_clock: u32,
    pub fullmove_number: u32,
    pub white_king: Square,
    pub black_king: Square,
}

impl View for Position {
    type V = PositionModel;

    open spec fn view(&self) -> PositionModel {
        PositionModel {
            board: self.board@,
            side_to_move: self.side_to_move,
            castling: self.castling,
            en_passant_target: self.en_passant_target,
            halfmove_clock: self.halfmove_clock,
            fullmove_number: self.fullmove_number,
            white_king: self.white_king,
            black_king: self.black_king,
        }
    }
}

/// Whether `p` is the king of `color`.
pub open spec fn is_king_of(p: Option<Piece>, color: Color) -> bool {
    p == Some(Piece { color, kind: PieceKind::King })
}

/// The lowest-numbered square holding the king of `color`, if any.
pub open spec fn spec_king_square(board: Seq<Option<Piece>>, color: Color) -> Option<Square> {
    if exists|i: int| 0 <= i < 64 && is_king_of(#[trigger] board[i], color) {
        let i = choose|i: int|
            0 <= i < 64 && is_king_of(#[trigger] board[i], color) && forall|j: int|
                0 <= j < i ==> !is_king_of(#[trigger] board[j], color);
        Some(Square(i as u8))
    } else {
        None
    }
}

impl Position {
    /// An empty board, White to move, no castling rights, move 1.
    /// The king fields hold the home squares e1 and e8.
    pub fn empty() -> (r: Position)
        ensures
            forall|i: int| 0 <= i < 64 ==> r.board@[i] == None::<Piece>,
            r.side_to_move == Color::White,
            r.castling == CastlingRights::spec_none(),
            r.en_passant_target == None::<Square>,
            r.halfmove_clock == 0,
            r.fullmove_number == 1,
            r.white_king == Square(4),
            r.black_king == Square(60),
    {
        Position {
            board: [None; 64],
            side_to_move: Color::White,
            castling: CastlingRights::empty(),
            en_passant_target: None,
            halfmove_clock: 0,
            fullmove_number: 1,
            white_king: Square(4),
            black_king: Square(60),
        }
    }

    /// The piece on `sq`.
    pub fn piece_at(&self, sq: Square) -> (r: Option<Piece>)
        requires
            sq.0 < 64,
        ensures
            r == self.board@[sq.0 as int],
    {
        self.board[sq.0 as usize]
    }

    /// Puts `piece` (or nothing) on `sq`; nothing else changes.
    pub fn set_piece(&mut self, sq: Square, piece: Option<Piece>)
        requires
            sq.0 < 64,
        ensures
            final(self).board@ == old(self).board@.update(sq.0 as int, piece),
            final(self).side_to_move == old(self).side_to_move,
            final(self).castling == old(self).castling,
            final(self).en_passant_target == old(self).en_passant_target,
            final(self).halfmove_clock == old(self).halfmove_clock,
            final(self).fullmove_number == old(self).fullmove_number,
            final(self).white_king == old(self).white_king,
            final(self).black_king == old(self).black_king,
    {
        self.board[sq.0 as usize] = piece;
    }

    /// The lowest-numbered square that holds the king of `color`.
    pub fn king_square(&self, color: Color) -> (r: Option<Square>)
        ensures
            r == spec_king_square(self.board@, color),
    {
        let mut idx: usize = 0;
        while idx < 64
            invariant
                idx <= 64,
                forall|j: int| 0 <= j < idx ==> !is_king_of(#[trigger] self.board@[j], color),
            decreases 64 - idx,
        {
            match self.board[idx] {
                Some(piece) => {
                    if piece.color == color && piece.kind == PieceKind::King {
                        assert(is_king_of(self.board@[idx as int], color));
                        let ghost i = choose|i: int|
                            0 <= i < 64 && is_king_of(#[trigger] self.board@[i], color) && forall|j: int|
                                0 <= j < i ==> !is_king_of(#[trigger] self.board@[j], color);
                        assert(i == idx) by {
                            if i < idx {
                            } else if i > idx {
                                assert(!is_king_of(self.board@[idx as int], color));
                            }
                        }
                        return Some(Square(idx as u8));
                    }
                },
                None => {},
            }
            idx += 1;
        }
        None
    }
}

} // verus!
