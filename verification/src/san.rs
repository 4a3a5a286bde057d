use vstd::prelude::*;

use crate::board::{
    spec_algebraic, spec_san_char, CastleSide, ChessMove, PieceKind, Position, PositionModel, Square,
};
use crate::movegen::{
    apply_move, counters_fit, generate_legal_moves, is_in_check, lemma_coords, move_applicable, spec_apply,
    spec_in_check, spec_legal_moves,
};
use crate::text::{
    chars_eq, chars_to_string, first_index, push_str, is_digit, push_char, spec_replace, spec_strip_end, spec_trim, str_to_chars,
    trim_chars, utf8_len, utf8_len_below, utf8_width, find_char,
};

verus! {

// ---------------------------------------------------------------------------
// Reading SAN: what it means
// ---------------------------------------------------------------------------

/// A SAN token cleaned up: surrounding whitespace, then trailing `+`, `#`,
/// `!` and `?` runs (in that order) removed, and zero-castling spelled with
/// letters.
pub open spec fn spec_normalize_san(san: Seq<char>) -> Seq<char> {
    let t = spec_strip_end(
        spec_strip_end(spec_strip_end(spec_strip_end(spec_trim(san), '+'), '#'), '!'),
        '?',
    );
    spec_replace(
        spec_replace(t, seq!['0', '-', '0', '-', '0'], seq!['O', '-', 'O', '-', 'O']),
        seq!['0', '-', '0'],
        seq!['O', '-', 'O'],
    )
}

/// The moving piece kind: named by the first letter, a pawn otherwise.
pub open spec fn spec_san_piece_kind(s: Seq<char>) -> PieceKind {
    if s.len() == 0 {
        PieceKind::Pawn
    } else if s[0] == 'N' {
        PieceKind::Knight
    } else if s[0] == 'B' {
        PieceKind::Bishop
    } else if s[0] == 'R' {
        PieceKind::Rook
    } else if s[0] == 'Q' {
        PieceKind::Queen
    } else if s[0] == 'K' {
        PieceKind::King
    } else {
        PieceKind::Pawn
    }
}

pub open spec fn is_file_char(c: char) -> bool {
    'a' <= c <= 'h'
}

pub open spec fn is_rank_char(c: char) -> bool {
    '1' <= c <= '8'
}

/// The largest `j <= k` (and `j >= 1`) where a file letter is followed by a rank digit.
pub open spec fn last_square_at(s: Seq<char>, k: int) -> Option<int>
    decreases k,
{
    if k < 1 {
        None
    } else if is_file_char(s[k - 1]) && is_rank_char(s[k]) {
        Some(k)
    } else {
        last_square_at(s, k - 1)
    }
}

/// The target square: the last file letter directly followed by a rank digit.
pub open spec fn spec_target_square(s: Seq<char>) -> Option<Square> {
    match last_square_at(s, s.len() - 1) {
        Some(j) => Some(Square(((s[j] as int - '1' as int) * 8 + (s[j - 1] as int - 'a' as int)) as u8)),
        None => None,
    }
}

pub open spec fn promo_kind(c: char) -> Option<PieceKind> {
    if c == 'N' {
        Some(PieceKind::Knight)
    } else if c == 'B' {
        Some(PieceKind::Bishop)
    } else if c == 'R' {
        Some(PieceKind::Rook)
    } else if c == 'Q' {
        Some(PieceKind::Queen)
    } else {
        None
    }
}

/// The promotion: after the first `=` (or, failing that, the first `/`),
/// the character whose character index is one past the marker's byte
/// offset, if it names a piece.
pub open spec fn spec_promotion(s: Seq<char>) -> Option<PieceKind> {
    let marker = match first_index(s, '=') {
        Some(k) => Some(k),
        None => first_index(s, '/'),
    };
    match marker {
        Some(k) => {
            let at = utf8_len(s.take(k)) as int + 1;
            if at < s.len() {
                promo_kind(s[at])
            } else {
                None
            }
        },
        None => None,
    }
}

pub open spec fn is_annotation_char(c: char) -> bool {
    c == '+' || c == '#' || c == '!' || c == '?'
}

/// Trailing `+`, `#`, `!`, `?` removed, in any mix.
pub open spec fn strip_annotations(s: Seq<char>) -> Seq<char>
    decreases s.len(),
{
    if s.len() > 0 && is_annotation_char(s.last()) {
        strip_annotations(s.drop_last())
    } else {
        s
    }
}

/// The part of the token that disambiguation looks at: up to the first `=`,
/// trailing annotations removed.
pub open spec fn disambiguation_span(s: Seq<char>) -> Seq<char> {
    let t = match first_index(s, '=') {
        Some(k) => s.take(k),
        None => s,
    };
    strip_annotations(t)
}

/// Index of the last ASCII digit in `s`, if any.
pub open spec fn last_digit_index(s: Seq<char>) -> Option<int> {
    if exists|i: int| 0 <= i < s.len() && is_digit(s[i]) {
        Some(choose|i: int| 0 <= i < s.len() && is_digit(s[i]) && forall|j: int| i < j < s.len() ==> !is_digit(s[j]))
    } else {
        None
    }
}

/// The disambiguation reader slices the span just before the byte before
/// its last digit; it fails when that byte is inside a multi-byte character.
pub open spec fn disambiguation_panics(s: Seq<char>) -> bool {
    let span = disambiguation_span(s);
    utf8_len(span) >= 2 && match last_digit_index(span) {
        Some(k) => k >= 1 && utf8_width(span[k - 1]) != 1,
        None => false,
    }
}

/// `s` with every `c` removed.
pub open spec fn without_char(s: Seq<char>, c: char) -> Seq<char>
    decreases s.len(),
{
    if s.len() == 0 {
        seq![]
    } else if s.last() == c {
        without_char(s.drop_last(), c)
    } else {
        without_char(s.drop_last(), c).push(s.last())
    }
}

/// The characters before the destination square that may disambiguate.
pub open spec fn disambiguation_prefix(s: Seq<char>, kind: PieceKind) -> Seq<char> {
    let span = disambiguation_span(s);
    let raw = match last_digit_index(span) {
        Some(k) => if k >= 1 {
            span.take(k - 1)
        } else {
            seq![]
        },
        None => seq![],
    };
    let no_x = without_char(raw, 'x');
    if kind != PieceKind::Pawn && no_x.len() > 0 {
        no_x.drop_first()
    } else {
        no_x
    }
}

/// File and rank hints from the first `n` characters of a prefix: the last
/// file letter and the last rank digit seen.
pub open spec fn hints_upto(p: Seq<char>, n: int) -> (Option<u8>, Option<u8>)
    decreases n,
{
    if n <= 0 {
        (None, None)
    } else {
        let (f, r) = hints_upto(p, n - 1);
        let c = p[n - 1];
        if is_file_char(c) {
            (Some((c as int - 'a' as int) as u8), r)
        } else if is_rank_char(c) {
            (f, Some((c as int - '1' as int) as u8))
        } else {
            (f, r)
        }
    }
}

/// The file and rank hints of a cleaned SAN token.
pub open spec fn spec_disambiguation(s: Seq<char>, kind: PieceKind) -> (Option<u8>, Option<u8>) {
    if utf8_len(disambiguation_span(s)) < 2 {
        (None, None)
    } else {
        let p = disambiguation_prefix(s, kind);
        hints_upto(p, p.len() as int)
    }
}

/// Whether `mv` passes the target, promotion and capture tests of a token.
pub open spec fn san_shape_matches(mv: ChessMove, s: Seq<char>) -> bool {
    &&& spec_target_square(s) == Some(mv.to)
    &&& mv.promotion == spec_promotion(s)
    &&& (mv.is_capture == s.contains('x') || (spec_san_piece_kind(s) == PieceKind::Pawn && s.contains('x')))
}

/// Whether `mv` is a candidate for the cleaned token `s` on `pos`.
pub open spec fn san_candidate(pos: PositionModel, mv: ChessMove, s: Seq<char>) -> bool {
    let kind = spec_san_piece_kind(s);
    let (fh, rh) = spec_disambiguation(s, kind);
    &&& san_shape_matches(mv, s)
    &&& pos.board[mv.from.0 as int] matches Some(p) && p.kind == kind
    &&& (fh matches Some(f) ==> mv.from.spec_file() == f)
    &&& (rh matches Some(r) ==> mv.from.spec_rank() == r)
}

pub open spec fn is_castle_on(mv: ChessMove, side: CastleSide) -> bool {
    mv.castle == Some(side)
}

/// The first move of `s` from index `i` on that castles on `side`.
pub open spec fn first_castle_from(s: Seq<ChessMove>, side: CastleSide, i: int) -> Option<ChessMove>
    decreases s.len() - i,
{
    if i >= s.len() || i < 0 {
        None
    } else if is_castle_on(s[i], side) {
        Some(s[i])
    } else {
        first_castle_from(s, side, i + 1)
    }
}

/// The first move of `s` from index `i` on that is a candidate for the
/// cleaned token `clean` on `pos`.
pub open spec fn first_candidate_from(pos: PositionModel, s: Seq<ChessMove>, clean: Seq<char>, i: int) -> Option<
    ChessMove,
>
    decreases s.len() - i,
{
    if i >= s.len() || i < 0 {
        None
    } else if san_candidate(pos, s[i], clean) {
        Some(s[i])
    } else {
        first_candidate_from(pos, s, clean, i + 1)
    }
}

/// The move a SAN token names among `legal`: the first castling move of the
/// named side for `O-O` / `O-O-O`, otherwise the first candidate.
pub open spec fn spec_resolve_san(pos: PositionModel, legal: Seq<ChessMove>, san: Seq<char>) -> Option<ChessMove> {
    let clean = spec_normalize_san(san);
    if clean == seq!['O', '-', 'O'] {
        first_castle_from(legal, CastleSide::KingSide, 0)
    } else if clean == seq!['O', '-', 'O', '-', 'O'] {
        first_castle_from(legal, CastleSide::QueenSide, 0)
    } else if spec_target_square(clean) is None {
        None
    } else {
        first_candidate_from(pos, legal, clean, 0)
    }
}

/// What `resolve_san` needs to run: the disambiguation slice lands on a
/// character boundary, and every move whose square, promotion and capture
/// match starts on the board.
pub open spec fn resolve_san_runs(legal: Seq<ChessMove>, san: Seq<char>) -> bool {
    let clean = spec_normalize_san(san);
    clean == seq!['O', '-', 'O'] || clean == seq!['O', '-', 'O', '-', 'O'] || spec_target_square(clean) is None
        || (!disambiguation_panics(clean) && forall|k: int|
        0 <= k < legal.len() && san_shape_matches(#[trigger] legal[k], clean) ==> legal[k].from.0 < 64)
}


// ---------------------------------------------------------------------------
// Reading SAN: how
// ---------------------------------------------------------------------------

fn strip_end_char(v: &mut Vec<char>, c: char)
    ensures
        final(v)@ == spec_strip_end(old(v)@, c),
{
    while v.len() > 0 && v[v.len() - 1] == c
        invariant
            spec_strip_end(old(v)@, c) == spec_strip_end(v@, c),
        decreases v.len(),
    {
        let ghost before = v@;
        v.pop();
        assert(v@ =~= before.drop_last());
    }
}

fn replace_chars(s: &Vec<char>, pat: &Vec<char>, rep: &Vec<char>) -> (r: Vec<char>)
    requires
        pat.len() > 0,
    ensures
        r@ == spec_replace(s@, pat@, rep@),
{
    let mut out: Vec<char> = Vec::new();
    let mut i: usize = 0;
    assert(s@.skip(0) =~= s@);
    while i < s.len()
        invariant
            i <= s.len(),
            pat.len() > 0,
            out@ + spec_replace(s@.skip(i as int), pat@, rep@) == spec_replace(s@, pat@, rep@),
        decreases s.len() - i,
    {
        let ghost rest = s@.skip(i as int);
        let mut matches = false;
        let mut k: usize = 0;
        if pat.len() <= s.len() - i {
            while k < pat.len() && s[i + k] == pat[k]
                invariant
                    k <= pat.len(),
                    i + pat.len() <= s.len(),
                    forall|j: int| 0 <= j < k ==> s@[i + j] == pat@[j],
                decreases pat.len() - k,
            {
                k += 1;
            }
            matches = k == pat.len();
        }
        assert(rest.len() < pat@.len() ==> !matches);
        if matches {
            assert(rest.take(pat.len() as int) =~= pat@);
            let mut j: usize = 0;
            let ghost base = out@;
            while j < rep.len()
                invariant
                    j <= rep.len(),
                    out@ == base + rep@.take(j as int),
                decreases rep.len() - j,
            {
                out.push(rep[j]);
                assert(rep@.take(j + 1) =~= rep@.take(j as int).push(rep@[j as int]));
                j += 1;
            }
            assert(rep@.take(rep.len() as int) =~= rep@);
            assert(rest.skip(pat.len() as int) =~= s@.skip(i + pat.len()));
            assert(out@ + spec_replace(s@.skip(i + pat.len()), pat@, rep@) =~= base + spec_replace(rest, pat@, rep@));
            i = i + pat.len();
        } else {
            proof {
                if rest.len() >= pat@.len() {
                    assert(rest.take(pat@.len() as int)[k as int] != pat@[k as int]);
                }
            }
            let ghost base = out@;
            out.push(s[i]);
            assert(rest.drop_first() =~= s@.skip(i + 1));
            assert(out@ + spec_replace(s@.skip(i + 1), pat@, rep@) =~= base + spec_replace(rest, pat@, rep@));
            i = i + 1;
        }
    }
    assert(s@.skip(s.len() as int) =~= Seq::<char>::empty());
    assert(out@ + spec_replace(s@.skip(i as int), pat@, rep@) =~= out@);
    out
}

/// The cleaned-up SAN token (see `spec_normalize_san`).
fn normalize_san(san: &str) -> (r: Vec<char>)
    ensures
        r@ == spec_normalize_san(san@),
{
    let raw = str_to_chars(san);
    let mut t = trim_chars(&raw);
    strip_end_char(&mut t, '+');
    strip_end_char(&mut t, '#');
    strip_end_char(&mut t, '!');
    strip_end_char(&mut t, '?');
    let long_zero = vec!['0', '-', '0', '-', '0'];
    let long_o = vec!['O', '-', 'O', '-', 'O'];
    let short_zero = vec!['0', '-', '0'];
    let short_o = vec!['O', '-', 'O'];
    assert(long_zero@ =~= seq!['0', '-', '0', '-', '0']);
    assert(long_o@ =~= seq!['O', '-', 'O', '-', 'O']);
    assert(short_zero@ =~= seq!['0', '-', '0']);
    assert(short_o@ =~= seq!['O', '-', 'O']);
    let a = replace_chars(&t, &long_zero, &long_o);
    replace_chars(&a, &short_zero, &short_o)
}

fn parse_piece_kind(s: &Vec<char>) -> (r: PieceKind)
    ensures
        r == spec_san_piece_kind(s@),
{
    if s.len() == 0 {
        return PieceKind::Pawn;
    }
    let first = s[0];
    if first == 'N' {
        PieceKind::Knight
    } else if first == 'B' {
        PieceKind::Bishop
    } else if first == 'R' {
        PieceKind::Rook
    } else if first == 'Q' {
        PieceKind::Queen
    } else if first == 'K' {
        PieceKind::King
    } else {
        PieceKind::Pawn
    }
}

fn parse_target_square(s: &Vec<char>) -> (r: Option<Square>)
    ensures
        r == spec_target_square(s@),
        r matches Some(sq) ==> sq.0 < 64,
{
    if s.len() < 2 {
        assert(last_square_at(s@, s@.len() - 1) is None);
        return None;
    }
    let mut j: usize = s.len() - 1;
    while j >= 1
        invariant
            j < s.len(),
            last_square_at(s@, s@.len() - 1) == last_square_at(s@, j as int),
        decreases j,
    {
        let f = s[j - 1];
        let k = s[j];
        if 'a' <= f && f <= 'h' && '1' <= k && k <= '8' {
            let file = (f as u32 - 'a' as u32) as u8;
            let rank = (k as u32 - '1' as u32) as u8;
            return Some(Square(rank * 8 + file));
        }
        j -= 1;
    }
    None
}

fn parse_promotion(s: &Vec<char>) -> (r: Option<PieceKind>)
    ensures
        r == spec_promotion(s@),
{
    let marker = match find_char(s, '=') {
        Some(k) => k,
        None => match find_char(s, '/') {
            Some(k) => k,
            None => {
                return None;
            },
        },
    };
    if s.len() == 0 {
        return None;
    }
    match utf8_len_below(s, marker, s.len() - 1) {
        None => None,
        Some(b) => {
            let c = s[b + 1];
            if c == 'N' {
                Some(PieceKind::Knight)
            } else if c == 'B' {
                Some(PieceKind::Bishop)
            } else if c == 'R' {
                Some(PieceKind::Rook)
            } else if c == 'Q' {
                Some(PieceKind::Queen)
            } else {
                None
            }
        },
    }
}

fn contains_char(s: &Vec<char>, c: char) -> (r: bool)
    ensures
        r == s@.contains(c),
{
    match find_char(s, c) {
        Some(i) => {
            assert(s@[i as int] == c);
            true
        },
        None => false,
    }
}

fn is_annotation(c: char) -> (r: bool)
    ensures
        r == is_annotation_char(c),
{
    c == '+' || c == '#' || c == '!' || c == '?'
}

fn disambiguation_span_exec(s: &Vec<char>) -> (r: Vec<char>)
    ensures
        r@ == disambiguation_span(s@),
{
    let mut span: Vec<char> = Vec::new();
    let end = match find_char(s, '=') {
        Some(k) => k,
        None => s.len(),
    };
    let mut i: usize = 0;
    while i < end
        invariant
            i <= end <= s.len(),
            span@ == s@.take(i as int),
        decreases end - i,
    {
        span.push(s[i]);
        assert(s@.take(i + 1) =~= s@.take(i as int).push(s@[i as int]));
        i += 1;
    }
    assert(end == s.len() ==> s@.take(end as int) =~= s@);
    while span.len() > 0 && is_annotation(span[span.len() - 1])
        invariant
            strip_annotations(span@) == disambiguation_span(s@),
        decreases span.len(),
    {
        let ghost before = span@;
        span.pop();
        assert(span@ =~= before.drop_last());
    }
    span
}

fn find_last_digit(s: &Vec<char>) -> (r: Option<usize>)
    ensures
        match r {
            Some(k) => last_digit_index(s@) == Some(k as int) && k < s.len(),
            None => last_digit_index(s@) is None,
        },
{
    let mut j: usize = s.len();
    while j > 0
        invariant
            j <= s.len(),
            forall|i: int| j <= i < s.len() ==> !is_digit(#[trigger] s@[i]),
        decreases j,
    {
        let c = s[j - 1];
        if '0' <= c && c <= '9' {
            let ghost k = choose|i: int|
                0 <= i < s@.len() && is_digit(s@[i]) && forall|t: int| i < t < s@.len() ==> !is_digit(s@[t]);
            assert(k == j - 1) by {
                assert(is_digit(s@[j - 1]));
                if k < j - 1 {
                } else if k > j - 1 {
                }
            }
            return Some(j - 1);
        }
        j -= 1;
    }
    None
}

/// The file and rank hints of a cleaned token (see `spec_disambiguation`).
fn parse_disambiguation(s: &Vec<char>, kind: PieceKind) -> (r: (Option<u8>, Option<u8>))
    requires
        !disambiguation_panics(s@),
    ensures
        r == spec_disambiguation(s@, kind),
{
    let span = disambiguation_span_exec(s);
    assert(span@.take(span.len() as int) =~= span@);
    if utf8_len_below(&span, span.len(), 2).is_some() {
        return (None, None);
    }
    let raw_end: usize = match find_last_digit(&span) {
        Some(k) => if k >= 1 {
            k - 1
        } else {
            0
        },
        None => 0,
    };
    let ghost raw = span@.take(raw_end as int);
    assert(raw =~= match last_digit_index(span@) {
        Some(k) => if k >= 1 {
            span@.take(k - 1)
        } else {
            seq![]
        },
        None => seq![],
    });
    let mut no_x: Vec<char> = Vec::new();
    let mut i: usize = 0;
    while i < raw_end
        invariant
            i <= raw_end <= span.len(),
            raw == span@.take(raw_end as int),
            no_x@ == without_char(raw.take(i as int), 'x'),
        decreases raw_end - i,
    {
        assert(raw.take(i + 1).drop_last() =~= raw.take(i as int));
        assert(raw.take(i + 1).last() == span@[i as int]);
        if span[i] != 'x' {
            no_x.push(span[i]);
        }
        i += 1;
    }
    assert(raw.take(raw_end as int) =~= raw);
    let is_pawn = match kind {
        PieceKind::Pawn => true,
        _ => false,
    };
    let start: usize = if !is_pawn && no_x.len() > 0 {
        1
    } else {
        0
    };
    let ghost p = no_x@.skip(start as int);
    assert(p =~= disambiguation_prefix(s@, kind));
    let mut file_hint: Option<u8> = None;
    let mut rank_hint: Option<u8> = None;
    let mut j: usize = start;
    while j < no_x.len()
        invariant
            start <= j <= no_x.len(),
            p == no_x@.skip(start as int),
            (file_hint, rank_hint) == hints_upto(p, j - start),
        decreases no_x.len() - j,
    {
        let c = no_x[j];
        assert(p[j - start] == c);
        if 'a' <= c && c <= 'h' {
            file_hint = Some((c as u32 - 'a' as u32) as u8);
        } else if '1' <= c && c <= '8' {
            rank_hint = Some((c as u32 - '1' as u32) as u8);
        }
        j += 1;
    }
    (file_hint, rank_hint)
}

fn is_castle_exec(mv: ChessMove, side: CastleSide) -> (r: bool)
    ensures
        r == is_castle_on(mv, side),
{
    match (mv.castle, side) {
        (Some(CastleSide::KingSide), CastleSide::KingSide) => true,
        (Some(CastleSide::QueenSide), CastleSide::QueenSide) => true,
        _ => false,
    }
}

fn first_castle(legal: &[ChessMove], side: CastleSide) -> (r: Option<ChessMove>)
    ensures
        r == first_castle_from(legal@, side, 0),
{
    let mut i: usize = 0;
    while i < legal.len()
        invariant
            i <= legal.len(),
            first_castle_from(legal@, side, 0) == first_castle_from(legal@, side, i as int),
        decreases legal.len() - i,
    {
        if is_castle_exec(legal[i], side) {
            return Some(legal[i]);
        }
        i += 1;
    }
    None
}

fn same_promotion(a: Option<PieceKind>, b: Option<PieceKind>) -> (r: bool)
    ensures
        r == (a == b),
{
    match (a, b) {
        (None, None) => true,
        (Some(x), Some(y)) => x == y,
        _ => false,
    }
}

/// Whether reading the SAN token `san` can fail midway: the byte before the
/// last digit of its disambiguation span lies inside a multi-byte character.
pub open spec fn san_reading_fails(san: Seq<char>) -> bool {
    let clean = spec_normalize_san(san);
    clean != seq!['O', '-', 'O'] && clean != seq!['O', '-', 'O', '-', 'O'] && spec_target_square(clean) is Some
        && disambiguation_panics(clean)
}

/// Picks the move among `legal` that the SAN token `san` names on
/// `position` (see `spec_resolve_san`); `None` when there is none.
pub fn resolve_san(position: &Position, legal: &[ChessMove], san: &str) -> (r: Option<ChessMove>)
    requires
        resolve_san_runs(legal@, san@),
    ensures
        r == spec_resolve_san(position@, legal@, san@),
{
    let clean = normalize_san(san);
    let short_castle = vec!['O', '-', 'O'];
    let long_castle = vec!['O', '-', 'O', '-', 'O'];
    assert(short_castle@ =~= seq!['O', '-', 'O']);
    assert(long_castle@ =~= seq!['O', '-', 'O', '-', 'O']);
    if chars_eq(&clean, &short_castle) {
        return first_castle(legal, CastleSide::KingSide);
    }
    if chars_eq(&clean, &long_castle) {
        return first_castle(legal, CastleSide::QueenSide);
    }
    let target = match parse_target_square(&clean) {
        Some(t) => t,
        None => {
            return None;
        },
    };
    let promo = parse_promotion(&clean);
    let kind = parse_piece_kind(&clean);
    let capture = contains_char(&clean, 'x');
    let is_pawn = match kind {
        PieceKind::Pawn => true,
        _ => false,
    };
    let (file_hint, rank_hint) = parse_disambiguation(&clean, kind);
    let mut i: usize = 0;
    while i < legal.len()
        invariant
            i <= legal.len(),
            resolve_san_runs(legal@, san@),
            clean@ == spec_normalize_san(san@),
            clean@ != seq!['O', '-', 'O'],
            clean@ != seq!['O', '-', 'O', '-', 'O'],
            spec_target_square(clean@) == Some(target),
            promo == spec_promotion(clean@),
            kind == spec_san_piece_kind(clean@),
            capture == clean@.contains('x'),
            is_pawn == (kind == PieceKind::Pawn),
            (file_hint, rank_hint) == spec_disambiguation(clean@, kind),
            first_candidate_from(position@, legal@, clean@, 0) == first_candidate_from(position@, legal@, clean@, i as int),
        decreases legal.len() - i,
    {
        let mv = legal[i];
        let shape = mv.to == target && same_promotion(mv.promotion, promo) && (mv.is_capture == capture || (
        is_pawn && capture));
        if shape {
            assert(san_shape_matches(legal@[i as int], clean@));
            let piece = position.piece_at(mv.from);
            let kind_ok = match piece {
                Some(pc) => pc.kind == kind,
                None => false,
            };
            let file_ok = match file_hint {
                Some(f) => mv.from.file() == f,
                None => true,
            };
            let rank_ok = match rank_hint {
                Some(rk) => mv.from.rank() == rk,
                None => true,
            };
            if kind_ok && file_ok && rank_ok {
                return Some(mv);
            }
        }
        i += 1;
    }
    None
}

/// Whether `san_reading_fails` holds of `san`.
pub fn san_reading_fails_exec(san: &str) -> (r: bool)
    ensures
        r == san_reading_fails(san@),
{
    let clean = normalize_san(san);
    let short_castle = vec!['O', '-', 'O'];
    let long_castle = vec!['O', '-', 'O', '-', 'O'];
    assert(short_castle@ =~= seq!['O', '-', 'O']);
    assert(long_castle@ =~= seq!['O', '-', 'O', '-', 'O']);
    if chars_eq(&clean, &short_castle) || chars_eq(&clean, &long_castle) {
        return false;
    }
    if parse_target_square(&clean).is_none() {
        return false;
    }
    let span = disambiguation_span_exec(&clean);
    assert(span@.take(span.len() as int) =~= span@);
    if utf8_len_below(&span, span.len(), 2).is_some() {
        return false;
    }
    match find_last_digit(&span) {
        Some(k) => k >= 1 && !is_ascii_char(span[k - 1]),
        None => false,
    }
}

fn is_ascii_char(c: char) -> (r: bool)
    ensures
        r == (utf8_width(c) == 1),
{
    (c as u32) < 0x80
}

// ---------------------------------------------------------------------------
// Writing SAN
// ---------------------------------------------------------------------------

/// What a move does to the king it leaves the opponent: `#` when it checks
/// and the opponent has no legal reply, `+` when it only checks.
pub open spec fn check_suffix(after: PositionModel) -> Seq<char> {
    if spec_in_check(after.board, after.side_to_move) {
        if spec_legal_moves(after).len() == 0 {
            seq!['#']
        } else {
            seq!['+']
        }
    } else {
        seq![]
    }
}

/// The SAN of a move that is not castling, without its check suffix: the
/// piece letter (for a pawn capture, the file it leaves), `x` for a capture,
/// the target square, and `=` with the promotion letter.
pub open spec fn san_body(pos: PositionModel, mv: ChessMove) -> Seq<char> {
    let kind = pos.board[mv.from.0 as int]->0.kind;
    let head = match spec_san_char(kind) {
        Some(c) => seq![c],
        None => if mv.is_capture {
            seq![('a' as u8 + mv.from.0 % 8) as char]
        } else {
            seq![]
        },
    };
    let capture = if mv.is_capture {
        seq!['x']
    } else {
        seq![]
    };
    let promotion = match mv.promotion {
        Some(k) => match spec_san_char(k) {
            Some(c) => seq!['=', c],
            None => seq![],
        },
        None => seq![],
    };
    head + capture + spec_algebraic(mv.to) + promotion
}

/// The SAN text of `mv` on `pos`: `O-O` / `O-O-O` for castling, otherwise the
/// body followed by the check suffix of the position after the move.
pub open spec fn spec_move_to_san(pos: PositionModel, mv: ChessMove) -> Seq<char> {
    if mv.castle == Some(CastleSide::KingSide) {
        seq!['O', '-', 'O']
    } else if mv.castle == Some(CastleSide::QueenSide) {
        seq!['O', '-', 'O', '-', 'O']
    } else {
        san_body(pos, mv) + check_suffix(spec_apply(pos, mv))
    }
}

/// Writes `mv`, made from `position`, in SAN (see `spec_move_to_san`).
pub fn move_to_san(position: &Position, mv: ChessMove) -> (r: String)
    requires
        mv.castle is None ==> move_applicable(position@, mv) && counters_fit(position@, mv)
            && position@.board[mv.from.0 as int] is Some,
    ensures
        r@ == spec_move_to_san(position@, mv),
{
    let short_castle = vec!['O', '-', 'O'];
    let long_castle = vec!['O', '-', 'O', '-', 'O'];
    match mv.castle {
        Some(CastleSide::KingSide) => {
            return chars_to_string(&short_castle);
        },
        Some(CastleSide::QueenSide) => {
            return chars_to_string(&long_castle);
        },
        None => {},
    }
    let piece = match position.piece_at(mv.from) {
        Some(p) => p,
        None => {
            return String::new();
        },
    };
    let mut out = String::new();
    match piece.kind.san_char() {
        Some(c) => push_char(&mut out, c),
        None => {
            if mv.is_capture {
                push_char(&mut out, (97u8 + mv.from.file()) as char);
            }
        },
    }
    if mv.is_capture {
        push_char(&mut out, 'x');
    }
    let target = mv.to.to_algebraic();
    push_str(&mut out, target.as_str());
    match mv.promotion {
        Some(k) => match k.san_char() {
            Some(c) => {
                push_char(&mut out, '=');
                push_char(&mut out, c);
            },
            None => {},
        },
        None => {},
    }
    assert(out@ =~= san_body(position@, mv));
    let mut next = *position;
    apply_move(&mut next, mv);
    let ghost body = out@;
    if is_in_check(&next, next.side_to_move) {
        let replies = generate_legal_moves(&next);
        if replies.len() == 0 {
            push_char(&mut out, '#');
        } else {
            push_char(&mut out, '+');
        }
    }
    assert(out@ =~= body + check_suffix(spec_apply(position@, mv)));
    out
}

proof fn lemma_first_castle_listed(s: Seq<ChessMove>, side: CastleSide, i: int)
    ensures
        first_castle_from(s, side, i) matches Some(m) ==> s.contains(m) && m.castle == Some(side),
    decreases s.len() - i,
{
    if 0 <= i < s.len() {
        if !is_castle_on(s[i], side) {
            lemma_first_castle_listed(s, side, i + 1);
        }
    }
}

proof fn lemma_first_candidate_listed(pos: PositionModel, s: Seq<ChessMove>, clean: Seq<char>, i: int)
    ensures
        first_candidate_from(pos, s, clean, i) matches Some(m) ==> s.contains(m) && san_candidate(pos, m, clean),
    decreases s.len() - i,
{
    if 0 <= i < s.len() {
        if !san_candidate(pos, s[i], clean) {
            lemma_first_candidate_listed(pos, s, clean, i + 1);
        }
    }
}

/// The move a SAN token resolves to is one of the listed moves.
pub proof fn lemma_resolved_is_listed(pos: PositionModel, legal: Seq<ChessMove>, san: Seq<char>)
    ensures
        spec_resolve_san(pos, legal, san) matches Some(m) ==> legal.contains(m),
{
    lemma_first_castle_listed(legal, CastleSide::KingSide, 0);
    lemma_first_castle_listed(legal, CastleSide::QueenSide, 0);
    lemma_first_candidate_listed(pos, legal, spec_normalize_san(san), 0);
}

/// What the move a SAN token resolves to is: one of the listed moves; for
/// `O-O` a king-side castling move, for `O-O-O` a queen-side one; for any
/// other token a move onto the token's target square, with the promotion it
/// names, made by a piece of the kind it names (a pawn when it names none),
/// a capture only when the token has an `x` (a piece's capture exactly
/// then), from a square on the file and rank that the letters before the
/// target name: for pawn captures such as `exd5` as for pieces.
pub proof fn lemma_resolved_move_matches_token(pos: PositionModel, legal: Seq<ChessMove>, san: Seq<char>)
    ensures
        spec_resolve_san(pos, legal, san) matches Some(mv) ==> {
            let clean = spec_normalize_san(san);
            let kind = spec_san_piece_kind(clean);
            let hints = spec_disambiguation(clean, kind);
            &&& legal.contains(mv)
            &&& clean == seq!['O', '-', 'O'] ==> mv.castle == Some(CastleSide::KingSide)
            &&& clean == seq!['O', '-', 'O', '-', 'O'] ==> mv.castle == Some(CastleSide::QueenSide)
            &&& (clean != seq!['O', '-', 'O'] && clean != seq!['O', '-', 'O', '-', 'O']) ==> {
                &&& spec_target_square(clean) == Some(mv.to)
                &&& mv.promotion == spec_promotion(clean)
                &&& pos.board[mv.from.0 as int] is Some
                &&& pos.board[mv.from.0 as int]->0.kind == kind
                &&& mv.is_capture ==> clean.contains('x')
                &&& kind != PieceKind::Pawn ==> mv.is_capture == clean.contains('x')
                &&& hints.0 matches Some(f) ==> mv.from.spec_file() == f
                &&& hints.1 matches Some(r) ==> mv.from.spec_rank() == r
            }
        },
{
    lemma_first_castle_listed(legal, CastleSide::KingSide, 0);
    lemma_first_castle_listed(legal, CastleSide::QueenSide, 0);
    lemma_first_candidate_listed(pos, legal, spec_normalize_san(san), 0);
}

/// A pawn capture written as a file letter, `x` and a square (such as
/// `exd5`) resolves, if at all, to a move of a pawn that stands on the file
/// of that first letter, onto the square written.
pub proof fn lemma_pawn_capture_token_file(pos: PositionModel, legal: Seq<ChessMove>, san: Seq<char>)
    requires
        ({
            let clean = spec_normalize_san(san);
            &&& clean.len() == 4
            &&& is_file_char(clean[0])
            &&& clean[1] == 'x'
            &&& is_file_char(clean[2])
            &&& is_rank_char(clean[3])
        }),
    ensures
        spec_resolve_san(pos, legal, san) matches Some(mv) ==> {
            let clean = spec_normalize_san(san);
            &&& pos.board[mv.from.0 as int] is Some
            &&& pos.board[mv.from.0 as int]->0.kind == PieceKind::Pawn
            &&& mv.from.spec_file() == clean[0] as int - 'a' as int
            &&& mv.to.spec_file() == clean[2] as int - 'a' as int
            &&& mv.to.spec_rank() == clean[3] as int - '1' as int
        },
{
    let clean = spec_normalize_san(san);
    assert(clean != seq!['O', '-', 'O']);
    assert(clean != seq!['O', '-', 'O', '-', 'O']);
    assert(spec_san_piece_kind(clean) == PieceKind::Pawn);
    // The span read for disambiguation is the whole token.
    assert(first_index(clean, '=') is None) by {
        assert forall|i: int| 0 <= i < clean.len() implies clean[i] != '=' by {
            if i == 0 || i == 2 {
                assert(is_file_char(clean[i]));
            } else if i == 3 {
                assert(is_rank_char(clean[i]));
            }
        }
    }
    assert(!is_annotation_char(clean.last()));
    assert(disambiguation_span(clean) == clean);
    assert(utf8_len(clean) >= 2) by {
        reveal_with_fuel(utf8_len, 3);
        assert(clean.drop_last().drop_last() =~= clean.take(2));
        assert(clean.drop_last().last() == clean[2]);
    }
    // Its last digit is the rank of the target square.
    assert(last_digit_index(clean) == Some(3int)) by {
        assert(is_digit(clean[3]));
        let k = choose|i: int| 0 <= i < clean.len() && is_digit(clean[i]) && forall|j: int|
            i < j < clean.len() ==> !is_digit(clean[j]);
        assert(0 <= k < 4 && is_digit(clean[k]) && forall|j: int| k < j < clean.len() ==> !is_digit(clean[j]));
        if k < 3 {
            assert(!is_digit(clean[3]));
        }
    }
    let raw = clean.take(2);
    assert(raw.last() == 'x');
    assert(raw.drop_last() =~= seq![clean[0]]);
    assert(seq![clean[0]].drop_last() =~= Seq::<char>::empty());
    assert(without_char(raw, 'x') == seq![clean[0]]) by {
        reveal_with_fuel(without_char, 3);
        assert(seq![clean[0]].last() == clean[0]);
        assert(Seq::<char>::empty().push(clean[0]) =~= seq![clean[0]]);
    }
    let p = disambiguation_prefix(clean, PieceKind::Pawn);
    assert(p == seq![clean[0]]);
    assert(hints_upto(p, 0) == (None::<u8>, None::<u8>));
    assert(p[0] == clean[0]);
    assert(spec_disambiguation(clean, PieceKind::Pawn).0 == Some((clean[0] as int - 'a' as int) as u8));
    assert(last_square_at(clean, 3) == Some(3int));
    lemma_coords(clean[2] as int - 'a' as int, clean[3] as int - '1' as int);
    lemma_resolved_move_matches_token(pos, legal, san);
}

} // verus!
