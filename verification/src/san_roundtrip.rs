use vstd::prelude::*;

use crate::board::{spec_algebraic, spec_san_char, spec_upper_char, CastleSide, ChessMove, PieceKind, PositionModel};
use crate::movegen::spec_apply;
use crate::san::{
    check_suffix, disambiguation_prefix, disambiguation_span, first_candidate_from, first_castle_from, hints_upto,
    is_castle_on, last_digit_index, last_square_at, promo_kind, san_body, san_candidate, spec_disambiguation,
    spec_move_to_san, spec_normalize_san, spec_promotion, spec_resolve_san, spec_san_piece_kind,
    spec_target_square, strip_annotations, without_char,
};
use crate::text::{
    first_index, is_digit, is_ws, spec_replace, spec_strip_end, spec_trim, spec_trim_end, spec_trim_start,
    utf8_len, utf8_width,
};

verus! {

// ---------------------------------------------------------------------------
// Text facts
// ---------------------------------------------------------------------------

/// A character SAN text is made of: file letters, rank digits, piece
/// letters, `x`, `=`, and the check marks `+` and `#`.
pub open spec fn san_text_char(c: char) -> bool {
    ('a' <= c <= 'h') || ('1' <= c <= '8') || c == 'N' || c == 'B' || c == 'R' || c == 'Q' || c == 'K' || c
        == 'x' || c == '=' || c == '+' || c == '#'
}

pub open spec fn all_san_chars(s: Seq<char>) -> bool {
    forall|i: int| 0 <= i < s.len() ==> san_text_char(#[trigger] s[i])
}

proof fn lemma_all_san_chars_concat(a: Seq<char>, b: Seq<char>)
    requires
        all_san_chars(a),
        all_san_chars(b),
    ensures
        all_san_chars(a + b),
{
    assert forall|i: int| 0 <= i < (a + b).len() implies san_text_char(#[trigger] (a + b)[i]) by {
        if i < a.len() {
            assert((a + b)[i] == a[i]);
        } else {
            assert((a + b)[i] == b[i - a.len()]);
        }
    }
}

proof fn lemma_trim_keeps(s: Seq<char>)
    requires
        s.len() > 0,
        !is_ws(s[0]),
        !is_ws(s.last()),
    ensures
        spec_trim(s) == s,
{
    assert(spec_trim_start(s) == s);
    assert(spec_trim_end(s) == s);
}

/// Replacing a pattern whose first character does not occur changes nothing.
proof fn lemma_replace_keeps(s: Seq<char>, pat: Seq<char>, rep: Seq<char>)
    requires
        pat.len() > 0,
        forall|i: int| 0 <= i < s.len() ==> #[trigger] s[i] != pat[0],
    ensures
        spec_replace(s, pat, rep) == s,
    decreases s.len(),
{
    if s.len() >= pat.len() {
        assert(s.take(pat.len() as int)[0] == s[0]);
        assert(s.take(pat.len() as int) != pat);
        lemma_replace_keeps(s.drop_first(), pat, rep);
        assert(seq![s[0]] + s.drop_first() =~= s);
    }
}

/// Text of one-byte characters has as many bytes as characters.
proof fn lemma_ascii_len(s: Seq<char>)
    requires
        forall|i: int| 0 <= i < s.len() ==> utf8_width(#[trigger] s[i]) == 1,
    ensures
        utf8_len(s) == s.len(),
    decreases s.len(),
{
    if s.len() > 0 {
        assert forall|i: int| 0 <= i < s.drop_last().len() implies utf8_width(#[trigger] s.drop_last()[i]) == 1 by {
            assert(s.drop_last()[i] == s[i]);
        }
        lemma_ascii_len(s.drop_last());
        assert(utf8_width(s[s.len() - 1]) == 1);
    }
}

proof fn lemma_first_index_at(s: Seq<char>, c: char, i: int)
    requires
        0 <= i < s.len(),
        s[i] == c,
        forall|j: int| 0 <= j < i ==> s[j] != c,
    ensures
        first_index(s, c) == Some(i),
{
    let k = choose|k: int| 0 <= k < s.len() && s[k] == c && forall|j: int| 0 <= j < k ==> s[j] != c;
    assert(k == i) by {
        if k < i {
        } else if k > i {
            assert(s[i] == c);
        }
    }
}

proof fn lemma_last_digit_is_last(s: Seq<char>)
    requires
        s.len() > 0,
        is_digit(s.last()),
    ensures
        last_digit_index(s) == Some(s.len() - 1),
{
    let n = s.len() - 1;
    assert(is_digit(s[n]));
    let k = choose|k: int| 0 <= k < s.len() && is_digit(s[k]) && forall|j: int| k < j < s.len() ==> !is_digit(s[j]);
    assert(k == n) by {
        if k < n {
            assert(is_digit(s[n]));
        }
    }
}

proof fn lemma_san_char_facts(c: char)
    requires
        san_text_char(c),
    ensures
        !is_ws(c),
        c != '0',
        c != 'O',
        c != '/',
        utf8_width(c) == 1,
{
}

// ---------------------------------------------------------------------------
// The SAN of a move, piece by piece
// ---------------------------------------------------------------------------

/// What the SAN of `m` needs to name it: a move that is not castling, of a
/// piece on the board to a square on the board, promoting (if at all) to a
/// knight, bishop, rook or queen.
pub open spec fn san_writable(pos: PositionModel, m: ChessMove) -> bool {
    &&& m.castle is None
    &&& m.from.0 < 64
    &&& m.to.0 < 64
    &&& pos.board[m.from.0 as int] is Some
    &&& match m.promotion {
        Some(k) => k == PieceKind::Knight || k == PieceKind::Bishop || k == PieceKind::Rook || k
            == PieceKind::Queen,
        None => true,
    }
}

/// The kind of the piece that `m` moves.
pub open spec fn moved_kind(pos: PositionModel, m: ChessMove) -> PieceKind {
    pos.board[m.from.0 as int]->0.kind
}

/// The part of the SAN before the target square: piece letter (or a pawn
/// capture's file) and `x`.
pub open spec fn san_head(pos: PositionModel, m: ChessMove) -> Seq<char> {
    let head = match spec_san_char(moved_kind(pos, m)) {
        Some(c) => seq![c],
        None => if m.is_capture {
            seq![('a' as u8 + m.from.0 % 8) as char]
        } else {
            seq![]
        },
    };
    head + if m.is_capture {
        seq!['x']
    } else {
        seq![]
    }
}

/// The part of the SAN after the target square: `=` and the promotion.
pub open spec fn san_promo(m: ChessMove) -> Seq<char> {
    match m.promotion {
        Some(k) => match spec_san_char(k) {
            Some(c) => seq!['=', c],
            None => seq![],
        },
        None => seq![],
    }
}

proof fn lemma_body_parts(pos: PositionModel, m: ChessMove)
    requires
        san_writable(pos, m),
    ensures
        san_body(pos, m) == san_head(pos, m) + spec_algebraic(m.to) + san_promo(m),
        all_san_chars(san_head(pos, m)),
        all_san_chars(spec_algebraic(m.to)),
        all_san_chars(san_promo(m)),
        all_san_chars(san_body(pos, m)),
        spec_algebraic(m.to).len() == 2,
        'a' <= spec_algebraic(m.to)[0] <= 'h',
        '1' <= spec_algebraic(m.to)[1] <= '8',
        ((spec_algebraic(m.to)[1] as int - '1' as int) * 8 + (spec_algebraic(m.to)[0] as int - 'a' as int)) as u8
            == m.to.0,
        san_promo(m).len() == 0 || (san_promo(m).len() == 2 && san_promo(m)[0] == '=' && promo_kind(
            san_promo(m)[1],
        ) == m.promotion),
        san_promo(m).len() == 0 <==> m.promotion is None,
        san_head(pos, m).len() <= 2,
{
    let head = san_head(pos, m);
    let alg = spec_algebraic(m.to);
    let promo = san_promo(m);
    let f = m.to.0 % 8;
    let r = m.to.0 / 8;
    assert(alg[0] as int == 97 + f);
    assert(alg[1] as int == 49 + r);
    assert(m.to.0 == r * 8 + f);
    assert(all_san_chars(alg));
    assert(all_san_chars(promo));
    let kind = moved_kind(pos, m);
    let h0 = match spec_san_char(kind) {
        Some(c) => seq![c],
        None => if m.is_capture {
            seq![('a' as u8 + m.from.0 % 8) as char]
        } else {
            seq![]
        },
    };
    let cap = if m.is_capture {
        seq!['x']
    } else {
        seq![]
    };
    assert(all_san_chars(h0));
    assert(all_san_chars(cap));
    lemma_all_san_chars_concat(h0, cap);
    lemma_all_san_chars_concat(head, alg);
    lemma_all_san_chars_concat(head + alg, promo);
    assert(san_body(pos, m) =~= head + alg + promo);
}

/// The head holds piece letters, file letters and `x` only.
pub open spec fn head_char(c: char) -> bool {
    c == 'N' || c == 'B' || c == 'R' || c == 'Q' || c == 'K' || ('a' <= c <= 'h') || c == 'x'
}

proof fn lemma_head_chars(pos: PositionModel, m: ChessMove)
    requires
        san_writable(pos, m),
    ensures
        forall|i: int| 0 <= i < san_head(pos, m).len() ==> head_char(#[trigger] san_head(pos, m)[i]),
        san_head(pos, m).contains('x') == m.is_capture,
{
    let h = san_head(pos, m);
    let kind = moved_kind(pos, m);
    let h0 = match spec_san_char(kind) {
        Some(c) => seq![c],
        None => if m.is_capture {
            seq![('a' as u8 + m.from.0 % 8) as char]
        } else {
            seq![]
        },
    };
    let cap = if m.is_capture {
        seq!['x']
    } else {
        seq![]
    };
    assert(h == h0 + cap);
    assert forall|i: int| 0 <= i < h.len() implies head_char(#[trigger] h[i]) by {
        if i < h0.len() {
            assert(h[i] == h0[i]);
        } else {
            assert(h[i] == cap[i - h0.len()]);
        }
    }
    if m.is_capture {
        assert(h[h0.len() as int] == 'x');
    } else {
        assert(h =~= h0);
        assert forall|i: int| 0 <= i < h.len() implies #[trigger] h[i] != 'x' by {
            assert(h[i] == h0[i]);
        }
    }
}

/// The SAN body of `m` names `m`'s target square.
proof fn lemma_body_target(pos: PositionModel, m: ChessMove)
    requires
        san_writable(pos, m),
    ensures
        spec_target_square(san_body(pos, m)) == Some(m.to),
{
    lemma_body_parts(pos, m);
    let h = san_head(pos, m);
    let a = spec_algebraic(m.to);
    let p = san_promo(m);
    let b = san_body(pos, m);
    let n = b.len() as int;
    let at = h.len() as int;
    assert(b[at] == a[0]);
    assert(b[at + 1] == a[1]);
    if p.len() == 0 {
        assert(n == at + 2);
        assert(last_square_at(b, n - 1) == Some(n - 1));
    } else {
        assert(n == at + 4);
        assert(b[n - 2] == '=');
        assert(last_square_at(b, at + 1) == Some(at + 1));
        assert(!('a' <= b[n - 2] <= 'h'));
        assert(!('a' <= b[at + 1] <= 'h'));
        assert(last_square_at(b, at + 2) == last_square_at(b, at + 1));
        assert(last_square_at(b, at + 3) == last_square_at(b, at + 2));
    }
}

/// The SAN body of `m` names `m`'s promotion, its piece kind and whether
/// it captures.
proof fn lemma_body_reads(pos: PositionModel, m: ChessMove)
    requires
        san_writable(pos, m),
    ensures
        spec_promotion(san_body(pos, m)) == m.promotion,
        spec_san_piece_kind(san_body(pos, m)) == moved_kind(pos, m),
        san_body(pos, m).contains('x') == m.is_capture,
{
    lemma_body_parts(pos, m);
    lemma_head_chars(pos, m);
    let h = san_head(pos, m);
    let a = spec_algebraic(m.to);
    let p = san_promo(m);
    let b = san_body(pos, m);
    let n = b.len() as int;
    let at = h.len() as int;
    assert forall|i: int| 0 <= i < at + 2 implies #[trigger] b[i] != '=' && b[i] != '/' && b[i] != 'x' || (i < at
        && b[i] == 'x') by {
        if i < at {
            assert(b[i] == h[i]);
        } else {
            assert(b[i] == a[i - at]);
        }
    }
    // promotion
    if p.len() == 0 {
        assert(n == at + 2);
        assert(first_index(b, '=') is None);
        assert(first_index(b, '/') is None);
    } else {
        assert(n == at + 4);
        assert(b[n - 2] == '=');
        assert(b[n - 1] == p[1]);
        lemma_first_index_at(b, '=', n - 2);
        assert forall|i: int| 0 <= i < b.take(n - 2).len() implies utf8_width(#[trigger] b.take(n - 2)[i]) == 1 by {
            assert(b.take(n - 2)[i] == b[i]);
            lemma_san_char_facts(b[i]);
        }
        lemma_ascii_len(b.take(n - 2));
    }
    // piece kind
    let kind = moved_kind(pos, m);
    if at > 0 {
        assert(b[0] == h[0]);
    } else {
        assert(b[0] == a[0]);
    }
    match spec_san_char(kind) {
        Some(c) => {
            assert(h[0] == c);
            assert(c == spec_upper_char(kind));
        },
        None => {
            assert(kind == PieceKind::Pawn);
            assert('a' <= b[0] <= 'h');
        },
    }
    // capture mark
    if m.is_capture {
        let j = choose|j: int| 0 <= j < h.len() && h[j] == 'x';
        assert(b[j] == 'x');
    } else {
        assert forall|i: int| 0 <= i < n implies #[trigger] b[i] != 'x' by {
            if i < at {
                assert(b[i] == h[i]);
            } else if i < at + 2 {
                assert(b[i] == a[i - at]);
            } else {
                assert(b[i] == p[i - at - 2]);
            }
        }
    }
}

/// The SAN body of `m` gives no rank hint, and a file hint only of the
/// file `m` leaves.
proof fn lemma_body_hints(pos: PositionModel, m: ChessMove)
    requires
        san_writable(pos, m),
    ensures
        spec_disambiguation(san_body(pos, m), moved_kind(pos, m)).1 is None,
        spec_disambiguation(san_body(pos, m), moved_kind(pos, m)).0 matches Some(f) ==> f == m.from.0 % 8,
{
    lemma_body_parts(pos, m);
    lemma_head_chars(pos, m);
    let h = san_head(pos, m);
    let a = spec_algebraic(m.to);
    let p = san_promo(m);
    let b = san_body(pos, m);
    let n = b.len() as int;
    let at = h.len() as int;
    let ha = h + a;
    let kind = moved_kind(pos, m);
    // the span is the head and the target square
    if p.len() == 0 {
        assert(first_index(b, '=') is None) by {
            assert forall|i: int| 0 <= i < n implies #[trigger] b[i] != '=' by {
                if i < at {
                    assert(b[i] == h[i]);
                } else {
                    assert(b[i] == a[i - at]);
                }
            }
        }
        assert(b =~= ha);
    } else {
        assert forall|i: int| 0 <= i < n - 2 implies #[trigger] b[i] != '=' by {
            if i < at {
                assert(b[i] == h[i]);
            } else {
                assert(b[i] == a[i - at]);
            }
        }
        lemma_first_index_at(b, '=', n - 2);
        assert(b.take(n - 2) =~= ha);
    }
    assert(ha.last() == a[1]);
    assert(strip_annotations(ha) == ha);
    assert(disambiguation_span(b) == ha);
    assert forall|i: int| 0 <= i < ha.len() implies utf8_width(#[trigger] ha[i]) == 1 by {
        if i < at {
            assert(ha[i] == h[i]);
        } else {
            assert(ha[i] == a[i - at]);
        }
    }
    lemma_ascii_len(ha);
    assert(is_digit(ha.last()));
    lemma_last_digit_is_last(ha);
    assert(ha.take(at) =~= h);
    // the head without its `x`
    let h0 = match spec_san_char(kind) {
        Some(c) => seq![c],
        None => if m.is_capture {
            seq![('a' as u8 + m.from.0 % 8) as char]
        } else {
            seq![]
        },
    };
    assert(without_char(Seq::<char>::empty(), 'x') == Seq::<char>::empty());
    if h0.len() == 1 {
        assert(h0[0] != 'x');
        assert(h0.drop_last() =~= Seq::<char>::empty());
        assert(without_char(h0, 'x') =~= h0);
    } else {
        assert(h0 =~= Seq::<char>::empty());
    }
    if m.is_capture {
        assert(h == h0 + seq!['x']);
        assert(h.drop_last() =~= h0);
        assert(without_char(h, 'x') == without_char(h0, 'x'));
    } else {
        assert(h =~= h0);
    }
    let pre = disambiguation_prefix(b, kind);
    match spec_san_char(kind) {
        Some(c) => {
            assert(kind != PieceKind::Pawn);
            assert(pre =~= Seq::<char>::empty());
        },
        None => {
            assert(kind == PieceKind::Pawn);
            assert(pre == h0);
            if m.is_capture {
                let c = h0[0];
                assert(c as int == 97 + m.from.0 % 8);
                assert(hints_upto(h0, 0) == (None::<u8>, None::<u8>));
            } else {
                assert(hints_upto(h0, 0) == (None::<u8>, None::<u8>));
            }
        },
    }
}

/// Cleaning the SAN of `m` up gives back its body: check marks go, and
/// nothing else changes.
proof fn lemma_normalize_body(pos: PositionModel, m: ChessMove)
    requires
        san_writable(pos, m),
    ensures
        spec_normalize_san(san_body(pos, m) + check_suffix(spec_apply(pos, m))) == san_body(pos, m),
{
    lemma_body_parts(pos, m);
    let b = san_body(pos, m);
    let suf = check_suffix(spec_apply(pos, m));
    let t = b + suf;
    let n = b.len() as int;
    let h = san_head(pos, m);
    let a = spec_algebraic(m.to);
    let p = san_promo(m);
    assert(b.last() == a[1] || b.last() == p[1]) by {
        if p.len() == 0 {
            assert(b.last() == a[1]);
        } else {
            assert(b.last() == p[1]);
        }
    }
    assert(b.last() != '+' && b.last() != '#' && b.last() != '!' && b.last() != '?') by {
        if p.len() != 0 {
            assert(promo_kind(p[1]) is Some);
        }
    }
    assert(all_san_chars(suf));
    lemma_all_san_chars_concat(b, suf);
    lemma_san_char_facts(t[0]);
    lemma_san_char_facts(t.last());
    lemma_trim_keeps(t);
    assert(spec_strip_end(b, '+') == b);
    assert(spec_strip_end(b, '#') == b);
    assert(spec_strip_end(b, '!') == b);
    assert(spec_strip_end(b, '?') == b);
    if suf == seq!['+'] {
        assert(t.drop_last() =~= b);
        assert(spec_strip_end(t, '+') == b);
    } else if suf == seq!['#'] {
        assert(t.drop_last() =~= b);
        assert(spec_strip_end(t, '+') == t);
        assert(spec_strip_end(t, '#') == b);
    } else {
        assert(suf =~= Seq::<char>::empty());
        assert(t =~= b);
    }
    assert forall|i: int| 0 <= i < b.len() implies #[trigger] b[i] != seq!['0', '-', '0', '-', '0'][0] by {
        lemma_san_char_facts(b[i]);
    }
    lemma_replace_keeps(b, seq!['0', '-', '0', '-', '0'], seq!['O', '-', 'O', '-', 'O']);
    assert forall|i: int| 0 <= i < b.len() implies #[trigger] b[i] != seq!['0', '-', '0'][0] by {
        lemma_san_char_facts(b[i]);
    }
    lemma_replace_keeps(b, seq!['0', '-', '0'], seq!['O', '-', 'O']);
}

// ---------------------------------------------------------------------------
// Reading back what was written
// ---------------------------------------------------------------------------

/// Another move `a` that the SAN of `m` could also name: for castling, a
/// castling move on the same side; otherwise a move to the same square, with
/// the same promotion, of the same kind of piece.
pub open spec fn san_rival(pos: PositionModel, a: ChessMove, m: ChessMove) -> bool {
    match m.castle {
        Some(side) => a.castle == Some(side),
        None => a.to == m.to && a.promotion == m.promotion && (pos.board[a.from.0 as int] matches Some(pc)
            && pc.kind == moved_kind(pos, m)),
    }
}

proof fn lemma_first_castle_is(s: Seq<ChessMove>, side: CastleSide, m: ChessMove, i: int, j: int)
    requires
        0 <= i <= j < s.len(),
        s[j] == m,
        m.castle == Some(side),
        forall|k: int| i <= k < j && s[k] != m ==> !is_castle_on(#[trigger] s[k], side),
    ensures
        first_castle_from(s, side, i) == Some(m),
    decreases j - i,
{
    if i < j && !(s[i] == m) {
        lemma_first_castle_is(s, side, m, i + 1, j);
    }
}

proof fn lemma_first_candidate_is(
    pos: PositionModel,
    s: Seq<ChessMove>,
    clean: Seq<char>,
    m: ChessMove,
    i: int,
    j: int,
)
    requires
        0 <= i <= j < s.len(),
        s[j] == m,
        san_candidate(pos, m, clean),
        forall|k: int| i <= k < j && s[k] != m ==> !san_candidate(pos, #[trigger] s[k], clean),
    ensures
        first_candidate_from(pos, s, clean, i) == Some(m),
    decreases j - i,
{
    if i < j && !(s[i] == m) {
        lemma_first_candidate_is(pos, s, clean, m, i + 1, j);
    }
}

/// Writing a move in SAN and reading the text back among the moves `legal`
/// gives the move again, when no other listed move could be read from the
/// same text (no "rival", see `san_rival`): SAN names no disambiguating
/// file or rank, so such a move would be found instead.
pub proof fn lemma_san_roundtrip(pos: PositionModel, legal: Seq<ChessMove>, m: ChessMove)
    requires
        legal.contains(m),
        m.castle is None ==> san_writable(pos, m),
        forall|k: int| 0 <= k < legal.len() && legal[k] != m ==> !san_rival(pos, #[trigger] legal[k], m),
    ensures
        spec_resolve_san(pos, legal, spec_move_to_san(pos, m)) == Some(m),
{
    let j = choose|j: int| 0 <= j < legal.len() && legal[j] == m;
    let text = spec_move_to_san(pos, m);
    match m.castle {
        Some(side) => {
            let oo = seq!['O', '-', 'O'];
            let ooo = seq!['O', '-', 'O', '-', 'O'];
            let name = if side == CastleSide::KingSide {
                oo
            } else {
                ooo
            };
            assert(text == name);
            assert(!is_ws(name[0]) && !is_ws(name.last()));
            lemma_trim_keeps(name);
            assert(spec_strip_end(name, '+') == name);
            assert(spec_strip_end(name, '#') == name);
            assert(spec_strip_end(name, '!') == name);
            assert(spec_strip_end(name, '?') == name);
            assert forall|i: int| 0 <= i < name.len() implies #[trigger] name[i] != seq!['0', '-', '0', '-', '0'][0] by {
            }
            lemma_replace_keeps(name, seq!['0', '-', '0', '-', '0'], seq!['O', '-', 'O', '-', 'O']);
            assert forall|i: int| 0 <= i < name.len() implies #[trigger] name[i] != seq!['0', '-', '0'][0] by {
            }
            lemma_replace_keeps(name, seq!['0', '-', '0'], seq!['O', '-', 'O']);
            assert(spec_normalize_san(text) == name);
            assert(ooo != oo) by {
                assert(ooo.len() != oo.len());
            }
            assert forall|k: int| 0 <= k < j && legal[k] != m implies !is_castle_on(#[trigger] legal[k], side) by {
                assert(!san_rival(pos, legal[k], m));
            }
            lemma_first_castle_is(legal, side, m, 0, j);
        },
        None => {
            let b = san_body(pos, m);
            lemma_body_parts(pos, m);
            lemma_body_target(pos, m);
            lemma_body_reads(pos, m);
            lemma_body_hints(pos, m);
            lemma_normalize_body(pos, m);
            assert(text == b + check_suffix(spec_apply(pos, m)));
            assert(spec_normalize_san(text) == b);
            lemma_san_char_facts(b[0]);
            assert(b != seq!['O', '-', 'O']) by {
                assert(seq!['O', '-', 'O'][0] == 'O');
            }
            assert(b != seq!['O', '-', 'O', '-', 'O']) by {
                assert(seq!['O', '-', 'O', '-', 'O'][0] == 'O');
            }
            let kind = moved_kind(pos, m);
            assert(spec_san_piece_kind(b) == kind);
            assert(san_candidate(pos, m, b));
            assert forall|k: int| 0 <= k < j && legal[k] != m implies !san_candidate(pos, #[trigger] legal[k], b) by {
                if san_candidate(pos, legal[k], b) {
                    assert(san_rival(pos, legal[k], m));
                }
            }
            lemma_first_candidate_is(pos, legal, b, m, 0, j);
        },
    }
}

} // verus!
