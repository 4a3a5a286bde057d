use vstd::prelude::*;

use crate::board::{
    spec_algebraic, spec_fen_char, spec_from_algebraic, spec_kind_from_fen, spec_king_square,
    CastlingRights, Color, Piece, PositionModel, Square,
};
use crate::fen::{
    board_fen, board_scan, castling_fen, castling_scan, empty_row, king_count, rank_fen, rank_result,
    rank_scan, rank_step, rows_to_board, spec_parse_board, spec_parse_castling, spec_parse_en_passant,
    spec_parse_fen, spec_parse_side, spec_to_fen, BoardScan, FenOutcome, RankScan,
};
use crate::text::{
    all_digits, decimal_value, digit_char, digit_value, is_digit, is_ws, spec_decimal, spec_parse_u32,
    spec_split_char, spec_split_whitespace, split_char_state, split_ws_state,
};

verus! {

// ---------------------------------------------------------------------------
// Numbers
// ---------------------------------------------------------------------------

/// The decimal text of a number reads back as that number.
proof fn lemma_decimal_reads_back(n: nat)
    ensures
        spec_decimal(n).len() > 0,
        all_digits(spec_decimal(n)),
        decimal_value(spec_decimal(n)) == n,
    decreases n,
{
    assert(digit_value(digit_char((n % 10) as int)) == n % 10);
    if n < 10 {
        assert(digit_value(digit_char(n as int)) == n);
        let b = seq![digit_char(n as int)];
        assert(b.drop_last() =~= Seq::<char>::empty());
        assert(decimal_value(Seq::<char>::empty()) == 0);
        assert(b.last() == digit_char(n as int));
        assert(decimal_value(b) == n);
        assert(is_digit(b[0]));
    }
    if n >= 10 {
        lemma_decimal_reads_back(n / 10);
        let s = spec_decimal(n / 10);
        let t = s.push(digit_char((n % 10) as int));
        assert(t.drop_last() =~= s);
        assert forall|i: int| 0 <= i < t.len() implies is_digit(#[trigger] t[i]) by {
            if i < s.len() {
                assert(t[i] == s[i]);
            }
        }
        assert(spec_decimal(n) == t);
        assert(t.last() == digit_char((n % 10) as int));
        assert(decimal_value(t) == decimal_value(s) * 10 + (digit_value(t.last()) as nat));
        assert(decimal_value(s) == n / 10);
        assert(digit_value(t.last()) == n % 10);
        assert(decimal_value(t) == (n / 10) * 10 + n % 10);
        assert(n == (n / 10) * 10 + n % 10) by (nonlinear_arith);
    }
}

/// A `u32` written in decimal parses back.
proof fn lemma_u32_reads_back(n: u32)
    ensures
        spec_parse_u32(spec_decimal(n as nat)) == Some(n),
{
    lemma_decimal_reads_back(n as nat);
    let s = spec_decimal(n as nat);
    assert(is_digit(s[0]));
}

// ---------------------------------------------------------------------------
// Splitting the text at whitespace and at `/`
// ---------------------------------------------------------------------------

/// No character of `s` is whitespace.
pub open spec fn no_ws(s: Seq<char>) -> bool {
    forall|i: int| 0 <= i < s.len() ==> !is_ws(#[trigger] s[i])
}

/// A word with no whitespace extends the word being read.
proof fn lemma_ws_word(s: Seq<char>, w: Seq<char>)
    requires
        no_ws(w),
    ensures
        split_ws_state(s + w) == (split_ws_state(s).0, split_ws_state(s).1 + w),
    decreases w.len(),
{
    if w.len() == 0 {
        assert(s + w =~= s);
        assert(split_ws_state(s).1 + w =~= split_ws_state(s).1);
    } else {
        lemma_ws_word(s, w.drop_last());
        assert((s + w).drop_last() =~= s + w.drop_last());
        assert((s + w).last() == w.last());
        assert(!is_ws(w[w.len() - 1]));
        assert(split_ws_state(s).1 + w =~= (split_ws_state(s).1 + w.drop_last()).push(w.last()));
    }
}

/// A space after a word finishes it.
proof fn lemma_ws_space(s: Seq<char>)
    requires
        split_ws_state(s).1.len() > 0,
    ensures
        split_ws_state(s + seq![' ']) == (split_ws_state(s).0.push(split_ws_state(s).1), Seq::<char>::empty()),
{
    assert((s + seq![' ']).drop_last() =~= s);
    assert((s + seq![' ']).last() == ' ');
    assert(is_ws(' '));
}

/// No character of `s` is `/`.
pub open spec fn no_slash(s: Seq<char>) -> bool {
    forall|i: int| 0 <= i < s.len() ==> #[trigger] s[i] != '/'
}

proof fn lemma_slash_word(s: Seq<char>, w: Seq<char>)
    requires
        no_slash(w),
    ensures
        split_char_state(s + w, '/') == (split_char_state(s, '/').0, split_char_state(s, '/').1 + w),
    decreases w.len(),
{
    if w.len() == 0 {
        assert(s + w =~= s);
        assert(split_char_state(s, '/').1 + w =~= split_char_state(s, '/').1);
    } else {
        lemma_slash_word(s, w.drop_last());
        assert((s + w).drop_last() =~= s + w.drop_last());
        assert((s + w).last() == w.last());
        assert(w[w.len() - 1] != '/');
        assert(split_char_state(s, '/').1 + w =~= (split_char_state(s, '/').1 + w.drop_last()).push(w.last()));
    }
}

proof fn lemma_slash_sep(s: Seq<char>)
    ensures
        split_char_state(s + seq!['/'], '/') == (
            split_char_state(s, '/').0.push(split_char_state(s, '/').1),
            Seq::<char>::empty(),
        ),
{
    assert((s + seq!['/']).drop_last() =~= s);
    assert((s + seq!['/']).last() == '/');
}

// ---------------------------------------------------------------------------
// One rank
// ---------------------------------------------------------------------------

/// Reading the characters `t` from the state `st` on.
pub open spec fn rank_fold(st: RankScan, t: Seq<char>) -> RankScan
    decreases t.len(),
{
    if t.len() == 0 {
        st
    } else {
        rank_step(rank_fold(st, t.drop_last()), t.last())
    }
}

proof fn lemma_rank_scan_fold(chunk: Seq<char>, n: int)
    requires
        0 <= n <= chunk.len(),
    ensures
        rank_scan(chunk, n) == rank_fold(RankScan::Going(0, empty_row()), chunk.take(n)),
    decreases n,
{
    if n > 0 {
        lemma_rank_scan_fold(chunk, n - 1);
        assert(chunk.take(n).drop_last() =~= chunk.take(n - 1));
        assert(chunk.take(n).last() == chunk[n - 1]);
    } else {
        assert(chunk.take(n) =~= Seq::<char>::empty());
    }
}

proof fn lemma_rank_fold_append(st: RankScan, a: Seq<char>, b: Seq<char>)
    ensures
        rank_fold(st, a + b) == rank_fold(rank_fold(st, a), b),
    decreases b.len(),
{
    if b.len() == 0 {
        assert(a + b =~= a);
    } else {
        lemma_rank_fold_append(st, a, b.drop_last());
        assert((a + b).drop_last() =~= a + b.drop_last());
        assert((a + b).last() == b.last());
    }
}

/// The eight squares of rank `r`, file by file.
pub open spec fn full_row(b: Seq<Option<Piece>>, r: int) -> Seq<Option<Piece>> {
    Seq::new(8, |f: int| b[r * 8 + f])
}

proof fn lemma_digit_step(st_file: int, row: Seq<Option<Piece>>, d: int)
    requires
        1 <= d <= 8,
        0 <= st_file,
        st_file + d <= 255,
    ensures
        rank_step(RankScan::Going(st_file, row), digit_char(d)) == RankScan::Going(st_file + d, row),
{
    assert(digit_value(digit_char(d)) == d);
    assert(is_digit(digit_char(d)));
}

proof fn lemma_piece_step(file: int, row: Seq<Option<Piece>>, p: Piece)
    requires
        0 <= file < 8,
    ensures
        rank_step(RankScan::Going(file, row), spec_fen_char(p.kind, p.color)) == RankScan::Going(
            file + 1,
            row.update(file, Some(p)),
        ),
{
    let c = spec_fen_char(p.kind, p.color);
    assert(!is_digit(c));
    assert(spec_kind_from_fen(c) == Some(p.kind));
    assert(('A' <= c <= 'Z') == (p.color == Color::White));
}

/// The FEN text of a rank, read from where it starts, gives back the rank.
proof fn lemma_rank_fen_reads_back(
    b: Seq<Option<Piece>>,
    r: int,
    file: int,
    empty: int,
    row: Seq<Option<Piece>>,
)
    requires
        b.len() == 64,
        0 <= r < 8,
        0 <= empty <= file <= 8,
        row.len() == 8,
        forall|f: int| 0 <= f < file - empty ==> row[f] == #[trigger] full_row(b, r)[f],
        forall|f: int| file - empty <= f < 8 ==> #[trigger] row[f] is None,
        forall|f: int| file - empty <= f < file ==> #[trigger] full_row(b, r)[f] is None,
    ensures
        rank_fold(RankScan::Going(file - empty, row), rank_fen(b, r, file, empty)) == RankScan::Going(
            8,
            full_row(b, r),
        ),
    decreases 8 - file,
{
    let st = RankScan::Going(file - empty, row);
    if file < 8 {
        assert(full_row(b, r)[file] == b[r * 8 + file]);
    }
    if file >= 8 {
        if empty > 0 {
            let t = seq![digit_char(empty)];
            assert(t.drop_last() =~= Seq::<char>::empty());
            assert(rank_fold(st, Seq::<char>::empty()) == st);
            assert(t.last() == digit_char(empty));
            lemma_digit_step(file - empty, row, empty);
            assert(rank_fold(st, t) == RankScan::Going(8, row));
        } else {
            assert(rank_fen(b, r, file, empty) =~= Seq::<char>::empty());
        }
        assert(row =~= full_row(b, r));
    } else {
        match b[r * 8 + file] {
            Some(p) => {
                let pre = if empty > 0 {
                    seq![digit_char(empty)]
                } else {
                    seq![]
                };
                let c = seq![spec_fen_char(p.kind, p.color)];
                let rest = rank_fen(b, r, file + 1, 0);
                assert(rank_fen(b, r, file, empty) == pre + c + rest);
                lemma_rank_fold_append(st, pre + c, rest);
                lemma_rank_fold_append(st, pre, c);
                assert(rank_fold(st, Seq::<char>::empty()) == st);
                if empty > 0 {
                    assert(pre.drop_last() =~= Seq::<char>::empty());
                    assert(pre.last() == digit_char(empty));
                    lemma_digit_step(file - empty, row, empty);
                } else {
                    assert(pre =~= Seq::<char>::empty());
                }
                assert(rank_fold(st, pre) == RankScan::Going(file, row));
                assert(c.drop_last() =~= Seq::<char>::empty());
                assert(c.last() == spec_fen_char(p.kind, p.color));
                assert(rank_fold(RankScan::Going(file, row), Seq::<char>::empty()) == RankScan::Going(file, row));
                lemma_piece_step(file, row, p);
                let row2 = row.update(file, Some(p));
                assert(rank_fold(RankScan::Going(file, row), c) == RankScan::Going(file + 1, row2));
                lemma_rank_fen_reads_back(b, r, file + 1, 0, row2);
            },
            None => {
                lemma_rank_fen_reads_back(b, r, file + 1, empty + 1, row);
            },
        }
    }
}

/// A rank written in FEN reads back as that rank.
proof fn lemma_rank_reads_back(b: Seq<Option<Piece>>, r: int)
    requires
        b.len() == 64,
        0 <= r < 8,
    ensures
        rank_result(rank_fen(b, r, 0, 0)) == RankScan::Going(8, full_row(b, r)),
{
    let t = rank_fen(b, r, 0, 0);
    lemma_rank_scan_fold(t, t.len() as int);
    assert(t.take(t.len() as int) =~= t);
    lemma_rank_fen_reads_back(b, r, 0, 0, empty_row());
}

/// A character FEN writes in a rank: a digit or a piece letter.
pub open spec fn rank_char(c: char) -> bool {
    is_digit(c) || spec_kind_from_fen(c) is Some
}

proof fn lemma_rank_fen_chars(b: Seq<Option<Piece>>, r: int, file: int, empty: int)
    requires
        b.len() == 64,
        0 <= r < 8,
        0 <= empty <= 8,
        empty <= file,
    ensures
        forall|i: int| 0 <= i < rank_fen(b, r, file, empty).len() ==> rank_char(#[trigger] rank_fen(b, r, file, empty)[i]),
    decreases 8 - file,
{
    let t = rank_fen(b, r, file, empty);
    if file >= 8 {
        if empty > 0 {
            assert(is_digit(digit_char(empty)));
            assert(t =~= seq![digit_char(empty)]);
            assert(t[0] == digit_char(empty));
        } else {
            assert(t =~= Seq::<char>::empty());
        }
    } else {
        match b[r * 8 + file] {
            Some(p) => {
                lemma_rank_fen_chars(b, r, file + 1, 0);
                let pre = if empty > 0 {
                    seq![digit_char(empty)]
                } else {
                    seq![]
                };
                let c = spec_fen_char(p.kind, p.color);
                let rest = rank_fen(b, r, file + 1, 0);
                assert(spec_kind_from_fen(c) is Some);
                assert(empty > 0 ==> is_digit(digit_char(empty)));
                assert forall|i: int| 0 <= i < t.len() implies rank_char(#[trigger] t[i]) by {
                    assert(t == pre + seq![c] + rest);
                    if i < pre.len() {
                    } else if i == pre.len() {
                    } else {
                        assert(t[i] == rest[i - pre.len() - 1]);
                    }
                }
            },
            None => {
                lemma_rank_fen_chars(b, r, file + 1, empty + 1);
                assert(t == rank_fen(b, r, file + 1, empty + 1));
            },
        }
    }
}

// ---------------------------------------------------------------------------
// The board field
// ---------------------------------------------------------------------------

/// The FEN texts of the first `n` ranks, eighth rank first.
pub open spec fn fen_ranks(b: Seq<Option<Piece>>, n: int) -> Seq<Seq<char>> {
    Seq::new(n as nat, |k: int| rank_fen(b, 7 - k, 0, 0))
}

proof fn lemma_rank_no_slash(b: Seq<Option<Piece>>, r: int)
    requires
        b.len() == 64,
        0 <= r < 8,
    ensures
        no_slash(rank_fen(b, r, 0, 0)),
        no_ws(rank_fen(b, r, 0, 0)),
{
    lemma_rank_fen_chars(b, r, 0, 0);
    let t = rank_fen(b, r, 0, 0);
    assert forall|i: int| 0 <= i < t.len() implies #[trigger] t[i] != '/' && !is_ws(t[i]) by {
        assert(rank_char(t[i]));
    }
}

proof fn lemma_board_fen_split(b: Seq<Option<Piece>>, n: int)
    requires
        b.len() == 64,
        1 <= n <= 7,
    ensures
        split_char_state(board_fen(b, n), '/') == (fen_ranks(b, n), Seq::<char>::empty()),
    decreases n,
{
    let prev = board_fen(b, n - 1);
    let rank = rank_fen(b, 8 - n, 0, 0);
    lemma_rank_no_slash(b, 8 - n);
    if n > 1 {
        lemma_board_fen_split(b, n - 1);
    } else {
        assert(prev =~= Seq::<char>::empty());
    }
    assert(board_fen(b, n) == prev + rank + seq!['/']);
    lemma_slash_word(prev, rank);
    lemma_slash_sep(prev + rank);
    assert(Seq::<char>::empty() + rank =~= rank);
    assert(fen_ranks(b, n - 1).push(rank) =~= fen_ranks(b, n));
}

/// The board field splits into the eight rank texts.
proof fn lemma_board_fen_ranks(b: Seq<Option<Piece>>)
    requires
        b.len() == 64,
    ensures
        spec_split_char(board_fen(b, 8), '/') == fen_ranks(b, 8),
{
    lemma_board_fen_split(b, 7);
    let prev = board_fen(b, 7);
    let rank = rank_fen(b, 0, 0, 0);
    lemma_rank_no_slash(b, 0);
    assert(board_fen(b, 8) == prev + rank + Seq::<char>::empty());
    assert(prev + rank + Seq::<char>::empty() =~= prev + rank);
    lemma_slash_word(prev, rank);
    assert(Seq::<char>::empty() + rank =~= rank);
    assert(fen_ranks(b, 7).push(rank) =~= fen_ranks(b, 8));
}

/// The rows the ranks read back as, eighth rank first.
pub open spec fn rows_of(b: Seq<Option<Piece>>, n: int) -> Seq<Seq<Option<Piece>>> {
    Seq::new(n as nat, |k: int| full_row(b, 7 - k))
}

proof fn lemma_board_scan_reads_back(b: Seq<Option<Piece>>, n: int)
    requires
        b.len() == 64,
        0 <= n <= 8,
    ensures
        board_scan(fen_ranks(b, 8), n) == BoardScan::Going(rows_of(b, n)),
    decreases n,
{
    if n == 0 {
        assert(rows_of(b, 0) =~= Seq::<Seq<Option<Piece>>>::empty());
    } else {
        lemma_board_scan_reads_back(b, n - 1);
        lemma_rank_reads_back(b, 8 - n);
        assert(fen_ranks(b, 8)[n - 1] == rank_fen(b, 7 - (n - 1), 0, 0));
        assert(rows_of(b, n - 1).push(full_row(b, 8 - n)) =~= rows_of(b, n));
    }
}

proof fn lemma_rows_to_board(b: Seq<Option<Piece>>)
    requires
        b.len() == 64,
    ensures
        rows_to_board(rows_of(b, 8)) == b,
{
    let rows = rows_of(b, 8);
    assert forall|i: int| 0 <= i < 64 implies #[trigger] rows_to_board(rows)[i] == b[i] by {
        let r = i / 8;
        let f = i % 8;
        assert(0 <= r < 8 && 0 <= f < 8);
        assert(r * 8 + f == i);
        assert(rows[7 - r] == full_row(b, r));
        assert(full_row(b, r)[f] == b[r * 8 + f]);
    }
    assert(rows_to_board(rows) =~= b);
}

proof fn lemma_board_fen_text(b: Seq<Option<Piece>>, n: int)
    requires
        b.len() == 64,
        0 <= n <= 8,
    ensures
        no_ws(board_fen(b, n)),
        1 <= n < 8 ==> board_fen(b, n).len() > 0,
    decreases n,
{
    if n > 0 {
        lemma_board_fen_text(b, n - 1);
        lemma_rank_no_slash(b, 8 - n);
        let prev = board_fen(b, n - 1);
        let rank = rank_fen(b, 8 - n, 0, 0);
        let sep = if n < 8 {
            seq!['/']
        } else {
            seq![]
        };
        let t = board_fen(b, n);
        assert(t == prev + rank + sep);
        assert(!is_ws('/'));
        assert forall|i: int| 0 <= i < t.len() implies !is_ws(#[trigger] t[i]) by {
            if i < prev.len() {
                assert(t[i] == prev[i]);
            } else if i < prev.len() + rank.len() {
                assert(t[i] == rank[i - prev.len()]);
            } else {
                assert(t[i] == sep[i - prev.len() - rank.len()]);
            }
        }
    }
}

// ---------------------------------------------------------------------------
// The other fields
// ---------------------------------------------------------------------------

proof fn lemma_castling_reads_back(c: CastlingRights)
    ensures
        spec_parse_castling(castling_fen(c)) == Some(c),
        no_ws(castling_fen(c)),
        castling_fen(c).len() > 0,
{
    let k = if c.white_king_side {
        seq!['K']
    } else {
        seq![]
    };
    let q = if c.white_queen_side {
        seq!['Q']
    } else {
        seq![]
    };
    let bk = if c.black_king_side {
        seq!['k']
    } else {
        seq![]
    };
    let bq = if c.black_queen_side {
        seq!['q']
    } else {
        seq![]
    };
    let t = k + q + bk + bq;
    let f = castling_fen(c);
    if t.len() == 0 {
        assert(f == seq!['-']);
        assert(!c.white_king_side && !c.white_queen_side && !c.black_king_side && !c.black_queen_side);
        assert(!is_ws(f[0]));
    } else {
        assert(f == t);
        assert(f != seq!['-']) by {
            if f == seq!['-'] {
                assert(f[0] == '-');
                assert(t[0] == 'K' || t[0] == 'Q' || t[0] == 'k' || t[0] == 'q');
            }
        }
        reveal_with_fuel(castling_scan, 5);
        assert(castling_scan(f, f.len() as int) == Some(c));
        assert forall|i: int| 0 <= i < f.len() implies !is_ws(#[trigger] f[i]) by {
            assert(f[i] == 'K' || f[i] == 'Q' || f[i] == 'k' || f[i] == 'q');
        }
    }
}

/// The en-passant field as FEN writes it.
pub open spec fn ep_text(ep: Option<Square>) -> Seq<char> {
    match ep {
        Some(sq) => spec_algebraic(sq),
        None => seq!['-'],
    }
}

proof fn lemma_ep_reads_back(ep: Option<Square>)
    requires
        ep matches Some(sq) ==> sq.0 < 64 && (sq.spec_rank() == 2 || sq.spec_rank() == 5),
    ensures
        spec_parse_en_passant(ep_text(ep)) == Some(ep),
        no_ws(ep_text(ep)),
        ep_text(ep).len() > 0,
{
    let t = ep_text(ep);
    match ep {
        Some(sq) => {
            let f = sq.0 % 8;
            let r = sq.0 / 8;
            assert(t[0] == ('a' as u8 + f) as char);
            assert(t[1] == ('1' as u8 + r) as char);
            assert(t[0] as int == 97 + f);
            assert(t[1] as int == 49 + r);
            assert(t != seq!['-']) by {
                assert(t.len() == 2);
            }
            assert(sq.0 == r * 8 + f);
            assert(spec_from_algebraic(t) == Some(sq));
            assert(!is_ws(t[0]) && !is_ws(t[1]));
        },
        None => {
            assert(!is_ws(t[0]));
        },
    }
}

proof fn lemma_decimal_text(n: nat)
    ensures
        no_ws(spec_decimal(n)),
        spec_decimal(n).len() > 0,
{
    lemma_decimal_reads_back(n);
    let t = spec_decimal(n);
    assert forall|i: int| 0 <= i < t.len() implies !is_ws(#[trigger] t[i]) by {
        assert(is_digit(t[i]));
    }
}

// ---------------------------------------------------------------------------
// The whole text
// ---------------------------------------------------------------------------

/// The positions that FEN describes exactly: a king of each side, the
/// king fields recording the lowest square of each; an en-passant square, if any, on the
/// board's third or sixth rank; a move number of at least one.
pub open spec fn fen_describes(p: PositionModel) -> bool {
    &&& p.board.len() == 64
    &&& king_count(p.board, Color::White, 64) >= 1
    &&& king_count(p.board, Color::Black, 64) >= 1
    &&& spec_king_square(p.board, Color::White) == Some(p.white_king)
    &&& spec_king_square(p.board, Color::Black) == Some(p.black_king)
    &&& match p.en_passant_target {
        Some(sq) => sq.0 < 64 && (sq.spec_rank() == 2 || sq.spec_rank() == 5),
        None => true,
    }
    &&& p.fullmove_number >= 1
}

/// The side-to-move field as FEN writes it.
pub open spec fn side_text(c: Color) -> Seq<char> {
    match c {
        Color::White => seq!['w'],
        Color::Black => seq!['b'],
    }
}

/// The six fields of the FEN text of `p`.
pub open spec fn fen_fields(p: PositionModel) -> Seq<Seq<char>> {
    seq![
        board_fen(p.board, 8),
        side_text(p.side_to_move),
        castling_fen(p.castling),
        ep_text(p.en_passant_target),
        spec_decimal(p.halfmove_clock as nat),
        spec_decimal(p.fullmove_number as nat),
    ]
}

proof fn lemma_fen_fields(p: PositionModel)
    requires
        p.board.len() == 64,
        p.en_passant_target matches Some(sq) ==> sq.0 < 64 && (sq.spec_rank() == 2 || sq.spec_rank() == 5),
    ensures
        spec_split_whitespace(spec_to_fen(p)) == fen_fields(p),
{
    let sp = seq![' '];
    let f = fen_fields(p);
    lemma_board_fen_text(p.board, 8);
    lemma_board_fen_text(p.board, 7);
    assert(board_fen(p.board, 8) == board_fen(p.board, 7) + rank_fen(p.board, 0, 0, 0) + Seq::<char>::empty());
    assert(f[0].len() > 0);
    assert(!is_ws(side_text(p.side_to_move)[0]));
    assert(no_ws(f[1]));
    lemma_castling_reads_back(p.castling);
    lemma_ep_reads_back(p.en_passant_target);
    lemma_decimal_text(p.halfmove_clock as nat);
    lemma_decimal_text(p.fullmove_number as nat);
    let e = Seq::<char>::empty();
    let s1 = f[0];
    lemma_ws_word(e, f[0]);
    assert(e + f[0] =~= f[0]);
    assert(Seq::<char>::empty() + f[0] =~= f[0]);
    let s2 = s1 + sp;
    lemma_ws_space(s1);
    let s3 = s2 + f[1];
    lemma_ws_word(s2, f[1]);
    let s4 = s3 + sp;
    lemma_ws_space(s3);
    let s5 = s4 + f[2];
    lemma_ws_word(s4, f[2]);
    let s6 = s5 + sp;
    lemma_ws_space(s5);
    let s7 = s6 + f[3];
    lemma_ws_word(s6, f[3]);
    let s8 = s7 + sp;
    lemma_ws_space(s7);
    let s9 = s8 + f[4];
    lemma_ws_word(s8, f[4]);
    let s10 = s9 + sp;
    lemma_ws_space(s9);
    let s11 = s10 + f[5];
    lemma_ws_word(s10, f[5]);
    assert(s11 == spec_to_fen(p));
    assert(split_ws_state(s11) == (seq![f[0], f[1], f[2], f[3], f[4]], f[5])) by {
        assert(Seq::<Seq<char>>::empty().push(f[0]) =~= seq![f[0]]);
        assert(seq![f[0]].push(f[1]) =~= seq![f[0], f[1]]);
        assert(seq![f[0], f[1]].push(f[2]) =~= seq![f[0], f[1], f[2]]);
        assert(seq![f[0], f[1], f[2]].push(f[3]) =~= seq![f[0], f[1], f[2], f[3]]);
        assert(seq![f[0], f[1], f[2], f[3]].push(f[4]) =~= seq![f[0], f[1], f[2], f[3], f[4]]);
        assert(Seq::<char>::empty() + f[1] =~= f[1]);
        assert(Seq::<char>::empty() + f[2] =~= f[2]);
        assert(Seq::<char>::empty() + f[3] =~= f[3]);
        assert(Seq::<char>::empty() + f[4] =~= f[4]);
        assert(Seq::<char>::empty() + f[5] =~= f[5]);
    }
    assert(seq![f[0], f[1], f[2], f[3], f[4]].push(f[5]) =~= f);
}

/// The board of a position reads back from its board field.
proof fn lemma_board_reads_back(p: PositionModel)
    requires
        fen_describes(p),
    ensures
        spec_parse_board(board_fen(p.board, 8)) == BoardScan::Going(seq![p.board]),
{
    let b = p.board;
    lemma_board_fen_ranks(b);
    lemma_board_scan_reads_back(b, 8);
    lemma_rows_to_board(b);
}

/// Writing a position in FEN and reading the text back gives the same
/// position, for every position FEN describes exactly.
pub proof fn lemma_fen_roundtrip(p: PositionModel)
    requires
        fen_describes(p),
    ensures
        spec_parse_fen(spec_to_fen(p)) == FenOutcome::Parsed(p),
{
    lemma_fen_fields(p);
    lemma_board_reads_back(p);
    lemma_castling_reads_back(p.castling);
    lemma_ep_reads_back(p.en_passant_target);
    lemma_u32_reads_back(p.halfmove_clock);
    lemma_u32_reads_back(p.fullmove_number);
    let f = fen_fields(p);
    assert(f[1] == side_text(p.side_to_move));
    match p.side_to_move {
        Color::White => {
            assert(side_text(Color::White) =~= seq!['w']);
        },
        Color::Black => {
            assert(side_text(Color::Black) =~= seq!['b']);
            assert(seq!['b'] != seq!['w']) by {
                assert(seq!['b'][0] != seq!['w'][0]);
            }
        },
    }
    assert(spec_parse_side(f[1]) == Some(p.side_to_move));
    let q = PositionModel {
        board: p.board,
        side_to_move: p.side_to_move,
        castling: p.castling,
        en_passant_target: p.en_passant_target,
        halfmove_clock: p.halfmove_clock,
        fullmove_number: p.fullmove_number,
        white_king: spec_king_square(p.board, Color::White)->0,
        black_king: spec_king_square(p.board, Color::Black)->0,
    };
    assert(q == p);
}

/// `p` with its king fields set to the lowest square of each side's king.
pub open spec fn with_board_kings(p: PositionModel) -> PositionModel {
    PositionModel {
        white_king: spec_king_square(p.board, Color::White)->0,
        black_king: spec_king_square(p.board, Color::Black)->0,
        ..p
    }
}

/// For any position with a king of each side, an en-passant square (if
/// any) on the third or sixth rank and a move number of at least one,
/// writing it in FEN and reading it back gives the same position, except
/// that the king fields, which FEN does not write, come back as the king
/// squares of the board.
pub proof fn lemma_fen_roundtrip_board_kings(p: PositionModel)
    requires
        p.board.len() == 64,
        king_count(p.board, Color::White, 64) >= 1,
        king_count(p.board, Color::Black, 64) >= 1,
        p.en_passant_target matches Some(sq) ==> sq.0 < 64 && (sq.spec_rank() == 2 || sq.spec_rank() == 5),
        p.fullmove_number >= 1,
    ensures
        spec_parse_fen(spec_to_fen(p)) == FenOutcome::Parsed(with_board_kings(p)),
{
    let q = with_board_kings(p);
    crate::fen::lemma_king_count_found(p.board, Color::White, 64);
    crate::fen::lemma_king_count_found(p.board, Color::Black, 64);
    crate::fen::lemma_king_square_some(p.board, Color::White);
    crate::fen::lemma_king_square_some(p.board, Color::Black);
    assert(fen_describes(q));
    lemma_fen_roundtrip(q);
    assert(spec_to_fen(q) == spec_to_fen(p));
}

/// Every position that `parse_fen` reads is one FEN describes exactly, so
/// writing it back and reading again gives it once more: the normalized
/// text is stable.
#[verifier::rlimit(40)]
pub proof fn lemma_parsed_fen_roundtrip(input: Seq<char>)
    requires
        spec_parse_fen(input) is Parsed,
    ensures
        fen_describes(spec_parse_fen(input)->Parsed_0),
        spec_parse_fen(spec_to_fen(spec_parse_fen(input)->Parsed_0)) == spec_parse_fen(input),
{
    let p = spec_parse_fen(input)->Parsed_0;
    let b = p.board;
    crate::fen::lemma_king_count_found(b, Color::White, 64);
    crate::fen::lemma_king_count_found(b, Color::Black, 64);
    crate::fen::lemma_king_square_some(b, Color::White);
    crate::fen::lemma_king_square_some(b, Color::Black);
    assert(fen_describes(p));
    lemma_fen_roundtrip(p);
}

} // verus!
