use vstd::prelude::*;

use crate::board::{ChessMove, Position, PositionModel};
use crate::movegen::{
    all_applicable, apply_move_with_undo, generate_legal_moves, legal_filter, leaves_king_safe,
    spec_apply, spec_apply_board, spec_legal_moves, spec_pseudo_moves, pseudo_moves_upto,
    piece_moves, pawn_moves, castling_moves, undo_move, lemma_undo_restores_model,
};

verus! {

/// Leaf nodes below the moves `ms` of `pos`, `depth` plies deep.
pub open spec fn perft_count(pos: PositionModel, ms: Seq<ChessMove>, depth: nat) -> nat
    decreases depth, ms.len(),
{
    if depth == 0 || ms.len() == 0 {
        0
    } else {
        perft_count(pos, ms.drop_last(), depth) + if depth == 1 {
            1
        } else {
            let next = spec_apply(pos, ms.last());
            perft_count(next, spec_legal_moves(next), (depth - 1) as nat)
        }
    }
}

/// The number of leaf nodes of the legal-move tree of `pos`, `depth` plies deep.
pub open spec fn spec_perft(pos: PositionModel, depth: nat) -> nat {
    if depth == 0 {
        1
    } else {
        perft_count(pos, spec_legal_moves(pos), depth)
    }
}

/// The two positions agree on everything but the move counters.
pub open spec fn same_but_counters(a: PositionModel, b: PositionModel) -> bool {
    &&& a.board == b.board
    &&& a.side_to_move == b.side_to_move
    &&& a.castling == b.castling
    &&& a.en_passant_target == b.en_passant_target
    &&& a.white_king == b.white_king
    &&& a.black_king == b.black_king
}

proof fn lemma_pseudo_ignores_counters(a: PositionModel, b: PositionModel, n: int)
    requires
        same_but_counters(a, b),
    ensures
        pseudo_moves_upto(a, n) == pseudo_moves_upto(b, n),
    decreases n,
{
    if n > 0 {
        lemma_pseudo_ignores_counters(a, b, n - 1);
        let i = n - 1;
        let from = crate::board::Square(i as u8);
        match a.board[i] {
            Some(p) => {
                assert(pawn_moves(a, from, p.color) == pawn_moves(b, from, p.color));
                assert(castling_moves(a, from, p.color) == castling_moves(b, from, p.color));
            },
            None => {},
        }
        assert(piece_moves(a, i) == piece_moves(b, i));
    }
}

proof fn lemma_legal_ignores_counters(a: PositionModel, b: PositionModel, ms: Seq<ChessMove>)
    requires
        same_but_counters(a, b),
    ensures
        legal_filter(a, ms) == legal_filter(b, ms),
    decreases ms.len(),
{
    if ms.len() > 0 {
        lemma_legal_ignores_counters(a, b, ms.drop_last());
        assert(spec_apply_board(a, ms.last()) == spec_apply_board(b, ms.last()));
        assert(leaves_king_safe(a, ms.last()) == leaves_king_safe(b, ms.last()));
    }
}

proof fn lemma_perft_count_ignores_counters(a: PositionModel, b: PositionModel, ms: Seq<ChessMove>, depth: nat)
    requires
        same_but_counters(a, b),
    ensures
        perft_count(a, ms, depth) == perft_count(b, ms, depth),
    decreases depth, ms.len(),
{
    if depth > 0 && ms.len() > 0 {
        lemma_perft_count_ignores_counters(a, b, ms.drop_last(), depth);
        if depth > 1 {
            let na = spec_apply(a, ms.last());
            let nb = spec_apply(b, ms.last());
            assert(spec_apply_board(a, ms.last()) == spec_apply_board(b, ms.last()));
            assert(same_but_counters(na, nb));
            lemma_pseudo_ignores_counters(na, nb, 64);
            lemma_legal_ignores_counters(na, nb, spec_pseudo_moves(na));
            lemma_perft_count_ignores_counters(na, nb, spec_legal_moves(na), (depth - 1) as nat);
        }
    }
}

/// The move counters have no bearing on the node count.
proof fn lemma_perft_ignores_counters(a: PositionModel, b: PositionModel, depth: nat)
    requires
        same_but_counters(a, b),
    ensures
        spec_perft(a, depth) == spec_perft(b, depth),
{
    lemma_pseudo_ignores_counters(a, b, 64);
    lemma_legal_ignores_counters(a, b, spec_pseudo_moves(a));
    lemma_perft_count_ignores_counters(a, b, spec_legal_moves(a), depth);
}

/// Counting one ply deep counts the moves.
proof fn lemma_perft_count_one(pos: PositionModel, ms: Seq<ChessMove>)
    ensures
        perft_count(pos, ms, 1) == ms.len(),
    decreases ms.len(),
{
    if ms.len() > 0 {
        lemma_perft_count_one(pos, ms.drop_last());
    }
}

/// The perft count one ply deep is the number of legal moves.
pub proof fn lemma_perft_one(pos: Position)
    ensures
        spec_perft(pos@, 1) == spec_legal_moves(pos@).len(),
{
    lemma_perft_count_one(pos@, spec_legal_moves(pos@));
}

/// Counting below a prefix of the moves counts no more than below all of them.
proof fn lemma_perft_count_prefix(pos: PositionModel, ms: Seq<ChessMove>, i: int, depth: nat)
    requires
        0 <= i <= ms.len(),
    ensures
        perft_count(pos, ms.take(i), depth) <= perft_count(pos, ms, depth),
    decreases ms.len() - i,
{
    if i < ms.len() {
        lemma_perft_count_prefix(pos, ms, i + 1, depth);
        if depth > 0 {
            assert(ms.take(i + 1).drop_last() =~= ms.take(i));
        }
    } else {
        assert(ms.take(i) =~= ms);
    }
}

/// Nodes below `position`, `depth` plies deep, or `None` when that number
/// does not fit in a `u64`; counters in the working position stay small.
fn perft_inner(position: &mut Position, depth: u8) -> (r: Option<u64>)
    requires
        old(position).halfmove_clock as int + depth <= 256,
        old(position).fullmove_number as int + depth <= 257,
    ensures
        match r {
            Some(n) => n == spec_perft(old(position)@, depth as nat),
            None => spec_perft(old(position)@, depth as nat) > u64::MAX,
        },
        final(position)@ == old(position)@,
    decreases depth,
{
    if depth == 0 {
        return Some(1);
    }
    let moves = generate_legal_moves(position);
    let ghost start = position@;
    if depth == 1 {
        proof {
            lemma_perft_count_one(start, moves@);
        }
        return Some(moves.len() as u64);
    }
    let mut nodes: u64 = 0;
    let mut i: usize = 0;
    while i < moves.len()
        invariant
            i <= moves.len(),
            depth >= 2,
            position@ == start,
            old(position)@ == start,
            moves@ == spec_legal_moves(start),
            all_applicable(start, moves@),
            start.halfmove_clock as int + depth <= 256,
            start.fullmove_number as int + depth <= 257,
            nodes == perft_count(start, moves@.take(i as int), depth as nat),
        decreases moves.len() - i,
    {
        let mv = moves[i];
        proof {
            lemma_perft_count_prefix(start, moves@, i + 1, depth as nat);
            assert(moves@.take(i + 1).drop_last() =~= moves@.take(i as int));
            assert(moves@.take(i + 1).last() == mv);
            assert(moves@.take(moves.len() as int) =~= moves@);
        }
        let undo = apply_move_with_undo(position, mv);
        let child = perft_inner(position, depth - 1);
        undo_move(position, mv, undo);
        proof {
            lemma_undo_restores_model(start, mv);
        }
        match child {
            Some(c) => match nodes.checked_add(c) {
                Some(total) => {
                    nodes = total;
                },
                None => {
                    return None;
                },
            },
            None => {
                return None;
            },
        }
        i += 1;
    }
    assert(moves@.take(moves.len() as int) =~= moves@);
    Some(nodes)
}

/// A copy of `position` with the move counters reset; node counts do not
/// depend on them, and from there they cannot overflow.
fn fresh_counters(position: &Position) -> (r: Position)
    ensures
        same_but_counters(r@, position@),
        r.halfmove_clock == 0,
        r.fullmove_number == 1,
{
    let mut p = *position;
    p.halfmove_clock = 0;
    p.fullmove_number = 1;
    p
}

/// The number of leaf nodes of the legal-move tree `depth` plies deep.
pub fn perft(position: &Position, depth: u8) -> (r: u64)
    requires
        spec_perft(position@, depth as nat) <= u64::MAX,
    ensures
        r == spec_perft(position@, depth as nat),
{
    match perft_checked(position, depth) {
        Some(n) => n,
        None => 0,
    }
}

/// The number of leaf nodes of the legal-move tree `depth` plies deep, or
/// `None` when it does not fit in a `u64`.
pub fn perft_checked(position: &Position, depth: u8) -> (r: Option<u64>)
    ensures
        match r {
            Some(n) => n == spec_perft(position@, depth as nat),
            None => spec_perft(position@, depth as nat) > u64::MAX,
        },
{
    let mut work = fresh_counters(position);
    proof {
        lemma_perft_ignores_counters(work@, position@, depth as nat);
    }
    perft_inner(&mut work, depth)
}

/// The node counts of a divide list, added up.
pub open spec fn divide_total(d: Seq<(ChessMove, u64)>) -> nat
    decreases d.len(),
{
    if d.len() == 0 {
        0
    } else {
        divide_total(d.drop_last()) + d.last().1 as nat
    }
}

/// Each legal move with the number of leaf nodes below it, `depth` plies
/// deep counting the move itself; empty for depth 0. The counts add up to
/// the perft count.
pub fn perft_divide(position: &Position, depth: u8) -> (r: Vec<(ChessMove, u64)>)
    requires
        spec_perft(position@, depth as nat) <= u64::MAX,
    ensures
        depth == 0 ==> r.len() == 0,
        depth > 0 ==> r.len() == spec_legal_moves(position@).len(),
        forall|i: int|
            0 <= i < r.len() ==> (#[trigger] r[i]).0 == spec_legal_moves(position@)[i] && r[i].1 == spec_perft(
                spec_apply(position@, spec_legal_moves(position@)[i]),
                (depth - 1) as nat,
            ),
        depth > 0 ==> divide_total(r@) == spec_perft(position@, depth as nat),
{
    let mut work = fresh_counters(position);
    let ghost start = work@;
    let moves = generate_legal_moves(&work);
    proof {
        lemma_perft_ignores_counters(start, position@, depth as nat);
        crate::perft::lemma_same_legal(start, position@);
    }
    let mut divided: Vec<(ChessMove, u64)> = Vec::new();
    if depth == 0 {
        return divided;
    }
    assert(moves@.take(0) =~= Seq::<ChessMove>::empty());
    let mut i: usize = 0;
    while i < moves.len()
        invariant
            i <= moves.len(),
            depth >= 1,
            work@ == start,
            same_but_counters(start, position@),
            start.halfmove_clock == 0,
            start.fullmove_number == 1,
            moves@ == spec_legal_moves(start),
            moves@ == spec_legal_moves(position@),
            all_applicable(start, moves@),
            spec_perft(start, depth as nat) <= u64::MAX,
            divided.len() == i,
            divide_total(divided@) == perft_count(position@, moves@.take(i as int), depth as nat),
            forall|j: int|
                0 <= j < i ==> (#[trigger] divided@[j]).0 == moves@[j] && divided@[j].1 == spec_perft(
                    spec_apply(position@, moves@[j]),
                    (depth - 1) as nat,
                ),
        decreases moves.len() - i,
    {
        let mv = moves[i];
        proof {
            lemma_perft_count_prefix(start, moves@, i + 1, depth as nat);
            lemma_perft_count_prefix(start, moves@, i as int, depth as nat);
            assert(moves@.take(i + 1).drop_last() =~= moves@.take(i as int));
            assert(moves@.take(i + 1).last() == mv);
            assert(spec_apply_board(start, mv) == spec_apply_board(position@, mv));
            lemma_perft_ignores_counters(spec_apply(start, mv), spec_apply(position@, mv), (depth - 1) as nat);
        }
        let nodes = if depth == 1 {
            1
        } else {
            let undo = apply_move_with_undo(&mut work, mv);
            let n = perft_inner(&mut work, depth - 1);
            undo_move(&mut work, mv, undo);
            proof {
                lemma_undo_restores_model(start, mv);
            }
            match n {
                Some(v) => v,
                None => 0,
            }
        };
        let ghost before = divided@;
        divided.push((mv, nodes));
        proof {
            assert(divided@.drop_last() =~= before);
            assert(moves@.take(i + 1).drop_last() =~= moves@.take(i as int));
            assert(moves@.take(i + 1).last() == mv);
            let next = spec_apply(position@, mv);
            if depth > 1 {
                assert(spec_perft(next, (depth - 1) as nat) == perft_count(next, spec_legal_moves(next), (depth - 1) as nat));
            }
        }
        i += 1;
    }
    assert(moves@.take(moves.len() as int) =~= moves@);
    divided
}

proof fn lemma_same_legal(a: PositionModel, b: PositionModel)
    requires
        same_but_counters(a, b),
    ensures
        spec_legal_moves(a) == spec_legal_moves(b),
{
    lemma_pseudo_ignores_counters(a, b, 64);
    lemma_legal_ignores_counters(a, b, spec_pseudo_moves(a));
}

/// The leaf counts `depth` plies below each move of `ms` made from `pos`,
/// added up.
pub open spec fn perft_sum(pos: PositionModel, ms: Seq<ChessMove>, depth: nat) -> nat
    decreases ms.len(),
{
    if ms.len() == 0 {
        0
    } else {
        perft_sum(pos, ms.drop_last(), depth) + spec_perft(spec_apply(pos, ms.last()), depth)
    }
}

proof fn lemma_perft_count_is_sum(pos: PositionModel, ms: Seq<ChessMove>, depth: nat)
    ensures
        perft_count(pos, ms, depth + 1) == perft_sum(pos, ms, depth),
    decreases ms.len(),
{
    if ms.len() > 0 {
        lemma_perft_count_is_sum(pos, ms.drop_last(), depth);
    }
}

/// Perft counts one leaf at depth 0, and one level deeper it adds up the
/// counts below each legal move.
pub proof fn lemma_perft_recursion(pos: PositionModel, depth: nat)
    ensures
        spec_perft(pos, 0) == 1,
        spec_perft(pos, depth + 1) == perft_sum(pos, spec_legal_moves(pos), depth),
{
    lemma_perft_count_is_sum(pos, spec_legal_moves(pos), depth);
}

} // verus!
