use vstd::prelude::*;

use crate::board::{CastleSide, ChessMove, Color, Position, PositionModel};
use crate::fen::{parse_fen, spec_parse_fen};
use crate::keyed::{entries_map, find_key, lemma_entry_in_map, sorted_keys, upsert};
use crate::movegen::{apply_move, is_in_check, move_applicable, spec_apply, spec_apply_board, spec_in_check};
use crate::perft::same_but_counters;
use crate::opening::{classify_opening, opening_eco, opening_name, spec_classify_opening};
use crate::pgn::{
    color_from_result, opt_string_view, spec_color_from_result, start_fen, GameModel, GameRecord, PgnGame,
    OFFICIAL_STARTPOS_FEN,
};
use crate::text::{chars_eq_str, str_to_chars};
use vstd::string::StringExecFns;

verus! {

broadcast use vstd::string::group_string_axioms;

// ---------------------------------------------------------------------------
// Per-game summaries
// ---------------------------------------------------------------------------

/// The headline facts of one game.
#[derive(Debug, Clone)]
pub struct GameSummary {
    pub event: Option<String>,
    pub white: Option<String>,
    pub black: Option<String>,
    pub result: Option<String>,
    pub plies: usize,
    pub winner: Option<Color>,
    pub eco: Option<String>,
    pub opening: Option<String>,
    pub variation: Option<String>,
}

/// The value of tag `name` of a game, if it has one.
pub open spec fn tag_value(g: GameModel, name: Seq<char>) -> Option<Seq<char>> {
    if g.tags.contains_key(name) {
        Some(g.tags[name])
    } else {
        None
    }
}

/// The result of a game: its result token, or else its `Result` tag.
pub open spec fn summary_result(g: GameModel) -> Option<Seq<char>> {
    match g.result {
        Some(r) => Some(r),
        None => tag_value(g, "Result"@),
    }
}

/// `s` summarizes the game `g` whose replayed moves are `plies`: its
/// `Event`, `White` and `Black` tags, its result and the winner that names,
/// its number of plies, and the opening the moves follow.
pub open spec fn summary_is(s: GameSummary, g: GameModel, plies: Seq<ChessMove>) -> bool {
    &&& opt_string_view(s.event) == tag_value(g, "Event"@)
    &&& opt_string_view(s.white) == tag_value(g, "White"@)
    &&& opt_string_view(s.black) == tag_value(g, "Black"@)
    &&& opt_string_view(s.result) == summary_result(g)
    &&& s.plies == plies.len()
    &&& s.winner == spec_color_from_result(summary_result(g))
    &&& match spec_classify_opening(plies) {
        Some(i) => opt_string_view(s.eco) == Some(opening_eco(i)) && opt_string_view(s.opening) == Some(
            opening_name(i),
        ) && s.variation is None,
        None => s.eco is None && s.opening is None && s.variation is None,
    }
}

/// Summarizes a replayed game (see `summary_is`).
pub fn summarize_game(record: &GameRecord) -> (r: GameSummary)
    requires
        record.game.wf(),
    ensures
        summary_is(r, record.game@, record.plies@),
{
    let game = &record.game;
    let result = match &game.result {
        Some(r) => Some(r.clone()),
        None => game.tag("Result"),
    };
    let winner = color_from_result(result.as_ref());
    let opening = classify_opening(record.plies.as_slice());
    let (eco, name, variation) = match opening {
        Some(info) => {
            let variation = match info.variation {
                Some(v) => Some(String::from_str(v)),
                None => None,
            };
            (Some(String::from_str(info.eco)), Some(String::from_str(info.opening)), variation)
        },
        None => (None, None, None),
    };
    GameSummary {
        event: game.tag("Event"),
        white: game.tag("White"),
        black: game.tag("Black"),
        result,
        plies: record.plies.len(),
        winner,
        eco,
        opening: name,
        variation,
    }
}

/// Summarizes each game, in order.
pub fn summarize_games(records: &[GameRecord]) -> (r: Vec<GameSummary>)
    requires
        forall|i: int| 0 <= i < records@.len() ==> (#[trigger] records@[i]).game.wf(),
    ensures
        r@.len() == records@.len(),
        forall|i: int| 0 <= i < r@.len() ==> summary_is(#[trigger] r@[i], records@[i].game@, records@[i].plies@),
{
    let mut out: Vec<GameSummary> = Vec::new();
    let mut i: usize = 0;
    while i < records.len()
        invariant
            i <= records@.len(),
            forall|k: int| 0 <= k < records@.len() ==> (#[trigger] records@[k]).game.wf(),
            out@.len() == i,
            forall|k: int| 0 <= k < i ==> summary_is(#[trigger] out@[k], records@[k].game@, records@[k].plies@),
        decreases records.len() - i,
    {
        out.push(summarize_game(&records[i]));
        i += 1;
    }
    out
}

/// Summarizes a game that was not replayed: its tags and result as in
/// `summary_is`, its number of SAN moves, the winner its result token names,
/// and no opening.
pub fn summarize_raw_game(game: &PgnGame) -> (r: GameSummary)
    requires
        game.wf(),
    ensures
        opt_string_view(r.event) == tag_value(game@, "Event"@),
        opt_string_view(r.white) == tag_value(game@, "White"@),
        opt_string_view(r.black) == tag_value(game@, "Black"@),
        opt_string_view(r.result) == summary_result(game@),
        r.plies == game.moves@.len(),
        r.winner == spec_color_from_result(game@.result),
        r.eco is None && r.opening is None && r.variation is None,
{
    let result = match &game.result {
        Some(r) => Some(r.clone()),
        None => game.tag("Result"),
    };
    GameSummary {
        event: game.tag("Event"),
        white: game.tag("White"),
        black: game.tag("Black"),
        result,
        plies: game.moves.len(),
        winner: color_from_result(game.result.as_ref()),
        eco: None,
        opening: None,
        variation: None,
    }
}

// ---------------------------------------------------------------------------
// Counting maps
// ---------------------------------------------------------------------------

/// The counts that entries stand for.
pub open spec fn counts_view(v: Seq<(String, usize)>) -> Map<Seq<char>, nat> {
    entries_map(v).map_values(|c: usize| c as nat)
}

/// `m` with the count of `k` one higher (a new key counts one).
pub open spec fn bump(m: Map<Seq<char>, nat>, k: Seq<char>) -> Map<Seq<char>, nat> {
    m.insert(
        k,
        if m.contains_key(k) {
            m[k] + 1
        } else {
            1
        },
    )
}

/// No count of `m` is above `n`.
pub open spec fn counts_at_most(m: Map<Seq<char>, nat>, n: nat) -> bool {
    forall|k: Seq<char>| #[trigger] m.contains_key(k) ==> m[k] <= n
}

/// Counts one more `key`.
fn bump_count(entries: &mut Vec<(String, usize)>, key: &String, Ghost(limit): Ghost<nat>)
    requires
        sorted_keys(old(entries)@),
        counts_at_most(counts_view(old(entries)@), limit),
        limit < usize::MAX,
    ensures
        sorted_keys(final(entries)@),
        counts_view(final(entries)@) == bump(counts_view(old(entries)@), key@),
        counts_at_most(counts_view(final(entries)@), limit + 1),
{
    let ghost m0 = counts_view(entries@);
    let value: usize = match find_key(entries, key.as_str()) {
        Some(i) => {
            proof {
                lemma_entry_in_map(entries@, i as int);
                assert(m0.contains_key(key@));
            }
            entries[i].1 + 1
        },
        None => 1,
    };
    upsert(entries, key.clone(), value);
    assert(counts_view(entries@) =~= bump(m0, key@));
}

// ---------------------------------------------------------------------------
// Aggregate statistics
// ---------------------------------------------------------------------------

/// Totals over a set of games. The averages of the statistics report are
/// these totals divided by the number of games (or of games with a given
/// result); being fractions, they are left to the caller.
#[derive(Debug, Clone)]
pub struct AggregateStats {
    pub games: usize,
    pub white_wins: usize,
    pub black_wins: usize,
    pub draws: usize,
    pub unresolved: usize,
    pub total_plies: usize,
    pub white_wins_plies: usize,
    pub black_wins_plies: usize,
    pub draws_plies: usize,
    pub unresolved_plies: usize,
    pub white_first_moves: Vec<(String, usize)>,
    pub black_first_moves: Vec<(String, usize)>,
    pub opening_frequencies: Vec<(String, usize)>,
    pub games_with_kingside_castle: usize,
    pub games_with_queenside_castle: usize,
    pub games_with_no_castling: usize,
    pub total_captures: usize,
    pub total_checks: usize,
    pub total_promotions: usize,
}

/// The totals as numbers and count maps.
pub struct StatsModel {
    pub games: nat,
    pub white_wins: nat,
    pub black_wins: nat,
    pub draws: nat,
    pub unresolved: nat,
    pub total_plies: nat,
    pub white_wins_plies: nat,
    pub black_wins_plies: nat,
    pub draws_plies: nat,
    pub unresolved_plies: nat,
    pub white_first_moves: Map<Seq<char>, nat>,
    pub black_first_moves: Map<Seq<char>, nat>,
    pub opening_frequencies: Map<Seq<char>, nat>,
    pub games_with_kingside_castle: nat,
    pub games_with_queenside_castle: nat,
    pub games_with_no_castling: nat,
    pub total_captures: nat,
    pub total_checks: nat,
    pub total_promotions: nat,
}

impl View for AggregateStats {
    type V = StatsModel;

    open spec fn view(&self) -> StatsModel {
        StatsModel {
            games: self.games as nat,
            white_wins: self.white_wins as nat,
            black_wins: self.black_wins as nat,
            draws: self.draws as nat,
            unresolved: self.unresolved as nat,
            total_plies: self.total_plies as nat,
            white_wins_plies: self.white_wins_plies as nat,
            black_wins_plies: self.black_wins_plies as nat,
            draws_plies: self.draws_plies as nat,
            unresolved_plies: self.unresolved_plies as nat,
            white_first_moves: counts_view(self.white_first_moves@),
            black_first_moves: counts_view(self.black_first_moves@),
            opening_frequencies: counts_view(self.opening_frequencies@),
            games_with_kingside_castle: self.games_with_kingside_castle as nat,
            games_with_queenside_castle: self.games_with_queenside_castle as nat,
            games_with_no_castling: self.games_with_no_castling as nat,
            total_captures: self.total_captures as nat,
            total_checks: self.total_checks as nat,
            total_promotions: self.total_promotions as nat,
        }
    }
}

/// The totals of no games.
pub open spec fn empty_stats() -> StatsModel {
    StatsModel {
        games: 0,
        white_wins: 0,
        black_wins: 0,
        draws: 0,
        unresolved: 0,
        total_plies: 0,
        white_wins_plies: 0,
        black_wins_plies: 0,
        draws_plies: 0,
        unresolved_plies: 0,
        white_first_moves: Map::empty(),
        black_first_moves: Map::empty(),
        opening_frequencies: Map::empty(),
        games_with_kingside_castle: 0,
        games_with_queenside_castle: 0,
        games_with_no_castling: 0,
        total_captures: 0,
        total_checks: 0,
        total_promotions: 0,
    }
}

/// The totals after one more game summary: one more game, its plies, its
/// opening counted, and its result (`1-0`, `0-1`, `1/2-1/2`, anything else
/// unresolved) counted with its plies.
pub open spec fn summary_step(m: StatsModel, result: Option<Seq<char>>, plies: nat, opening: Option<Seq<char>>) -> StatsModel {
    let m1 = StatsModel {
        games: m.games + 1,
        total_plies: m.total_plies + plies,
        opening_frequencies: match opening {
            Some(o) => bump(m.opening_frequencies, o),
            None => m.opening_frequencies,
        },
        ..m
    };
    if result == Some("1-0"@) {
        StatsModel { white_wins: m1.white_wins + 1, white_wins_plies: m1.white_wins_plies + plies, ..m1 }
    } else if result == Some("0-1"@) {
        StatsModel { black_wins: m1.black_wins + 1, black_wins_plies: m1.black_wins_plies + plies, ..m1 }
    } else if result == Some("1/2-1/2"@) {
        StatsModel { draws: m1.draws + 1, draws_plies: m1.draws_plies + plies, ..m1 }
    } else {
        StatsModel { unresolved: m1.unresolved + 1, unresolved_plies: m1.unresolved_plies + plies, ..m1 }
    }
}

/// The number of captures among `plies`.
pub open spec fn count_captures(plies: Seq<ChessMove>) -> nat
    decreases plies.len(),
{
    if plies.len() == 0 {
        0
    } else {
        count_captures(plies.drop_last()) + if plies.last().is_capture {
            1nat
        } else {
            0nat
        }
    }
}

/// The number of promotions among `plies`.
pub open spec fn count_promotions(plies: Seq<ChessMove>) -> nat
    decreases plies.len(),
{
    if plies.len() == 0 {
        0
    } else {
        count_promotions(plies.drop_last()) + if plies.last().promotion is Some {
            1nat
        } else {
            0nat
        }
    }
}

/// Some move of `plies` castles on `side`.
pub open spec fn castles_on(plies: Seq<ChessMove>, side: CastleSide) -> bool {
    exists|i: int| 0 <= i < plies.len() && (#[trigger] plies[i]).castle == Some(side)
}

/// Every move of `plies` can be made in turn from `pos`.
pub open spec fn plies_applicable(pos: PositionModel, plies: Seq<ChessMove>) -> bool
    decreases plies.len(),
{
    plies.len() == 0 || (move_applicable(pos, plies[0]) && plies_applicable(
        spec_apply(pos, plies[0]),
        plies.drop_first(),
    ))
}

/// The position after the moves of `plies`, made in turn from `pos`.
pub open spec fn position_after(pos: PositionModel, plies: Seq<ChessMove>) -> PositionModel
    decreases plies.len(),
{
    if plies.len() == 0 {
        pos
    } else {
        position_after(spec_apply(pos, plies[0]), plies.drop_first())
    }
}

/// One more move at the end: made from where the others lead.
pub proof fn lemma_plies_push(pos: PositionModel, plies: Seq<ChessMove>, mv: ChessMove)
    ensures
        position_after(pos, plies.push(mv)) == spec_apply(position_after(pos, plies), mv),
        plies_applicable(pos, plies.push(mv)) == (plies_applicable(pos, plies) && move_applicable(
            position_after(pos, plies),
            mv,
        )),
    decreases plies.len(),
{
    let next = plies.push(mv);
    if plies.len() > 0 {
        lemma_plies_push(spec_apply(pos, plies[0]), plies.drop_first(), mv);
        assert(next.drop_first() =~= plies.drop_first().push(mv));
        assert(next[0] == plies[0]);
        assert(position_after(pos, next) == position_after(spec_apply(pos, plies[0]), next.drop_first()));
        assert(plies_applicable(pos, next) == (move_applicable(pos, plies[0]) && plies_applicable(
            spec_apply(pos, plies[0]),
            next.drop_first(),
        )));
    } else {
        let empty = Seq::<ChessMove>::empty();
        assert(next.drop_first() =~= empty);
        assert(next[0] == mv);
        assert(position_after(spec_apply(pos, mv), empty) == spec_apply(pos, mv));
        assert(plies_applicable(spec_apply(pos, mv), empty));
        assert(position_after(pos, next) == position_after(spec_apply(pos, mv), next.drop_first()));
        assert(plies_applicable(pos, next) == (move_applicable(pos, mv) && plies_applicable(
            spec_apply(pos, mv),
            next.drop_first(),
        )));
    }
}

/// The number of moves of `plies`, made in turn from `pos`, after which the
/// side to move is in check.
pub open spec fn checks_given(pos: PositionModel, plies: Seq<ChessMove>) -> nat
    decreases plies.len(),
{
    if plies.len() == 0 {
        0
    } else {
        let next = spec_apply(pos, plies[0]);
        (if spec_in_check(next.board, next.side_to_move) {
            1nat
        } else {
            0nat
        }) + checks_given(next, plies.drop_first())
    }
}

/// The totals after the move facts of one replayed game: its first and
/// second SAN moves counted, its castling, captures, checks and promotions.
pub open spec fn record_step(m: StatsModel, moves: Seq<Seq<char>>, start: PositionModel, plies: Seq<ChessMove>) -> StatsModel {
    let k = castles_on(plies, CastleSide::KingSide);
    let q = castles_on(plies, CastleSide::QueenSide);
    StatsModel {
        white_first_moves: if moves.len() > 0 {
            bump(m.white_first_moves, moves[0])
        } else {
            m.white_first_moves
        },
        black_first_moves: if moves.len() > 1 {
            bump(m.black_first_moves, moves[1])
        } else {
            m.black_first_moves
        },
        games_with_kingside_castle: m.games_with_kingside_castle + if k {
            1nat
        } else {
            0nat
        },
        games_with_queenside_castle: m.games_with_queenside_castle + if q {
            1nat
        } else {
            0nat
        },
        games_with_no_castling: m.games_with_no_castling + if !k && !q {
            1nat
        } else {
            0nat
        },
        total_captures: m.total_captures + count_captures(plies),
        total_checks: m.total_checks + checks_given(start, plies),
        total_promotions: m.total_promotions + count_promotions(plies),
        ..m
    }
}

/// The position a replayed game starts from.
pub open spec fn record_start(rec: GameRecord) -> PositionModel {
    spec_parse_fen(start_fen(rec.game@))->Parsed_0
}

/// What `push_record` needs of a record: a well-formed game whose starting
/// FEN reads, and moves that can be made in turn from there.
pub open spec fn record_replays(rec: GameRecord) -> bool {
    &&& rec.game.wf()
    &&& spec_parse_fen(start_fen(rec.game@)) is Parsed
    &&& plies_applicable(record_start(rec), rec.plies@)
}

/// The opening a game's moves follow, by name.
pub open spec fn summary_opening(plies: Seq<ChessMove>) -> Option<Seq<char>> {
    match spec_classify_opening(plies) {
        Some(i) => Some(opening_name(i)),
        None => None,
    }
}

/// The totals after one more replayed game: its summary, then its move
/// facts.
pub open spec fn record_totals(m: StatsModel, rec: GameRecord) -> StatsModel {
    record_step(
        summary_step(m, summary_result(rec.game@), rec.plies@.len(), summary_opening(rec.plies@)),
        rec.game@.moves,
        record_start(rec),
        rec.plies@,
    )
}

/// The totals of a list of summaries.
pub open spec fn stats_of_summaries(ss: Seq<GameSummary>) -> StatsModel
    decreases ss.len(),
{
    if ss.len() == 0 {
        empty_stats()
    } else {
        let s = ss.last();
        summary_step(
            stats_of_summaries(ss.drop_last()),
            opt_string_view(s.result),
            s.plies as nat,
            opt_string_view(s.opening),
        )
    }
}

/// The totals of a list of replayed games.
pub open spec fn stats_of_records(rs: Seq<GameRecord>) -> StatsModel
    decreases rs.len(),
{
    if rs.len() == 0 {
        empty_stats()
    } else {
        record_totals(stats_of_records(rs.drop_last()), rs.last())
    }
}

/// The plies of a list of summaries, added up.
pub open spec fn summary_plies_sum(ss: Seq<GameSummary>) -> nat
    decreases ss.len(),
{
    if ss.len() == 0 {
        0
    } else {
        summary_plies_sum(ss.drop_last()) + ss.last().plies as nat
    }
}

/// The plies of a list of replayed games, added up.
pub open spec fn record_plies_sum(rs: Seq<GameRecord>) -> nat
    decreases rs.len(),
{
    if rs.len() == 0 {
        0
    } else {
        record_plies_sum(rs.drop_last()) + rs.last().plies@.len()
    }
}

proof fn lemma_summary_sum_prefix(ss: Seq<GameSummary>, i: int)
    requires
        0 <= i <= ss.len(),
    ensures
        summary_plies_sum(ss.take(i)) <= summary_plies_sum(ss),
    decreases ss.len() - i,
{
    if i < ss.len() {
        lemma_summary_sum_prefix(ss, i + 1);
        assert(ss.take(i + 1).drop_last() =~= ss.take(i));
    } else {
        assert(ss.take(i) =~= ss);
    }
}

proof fn lemma_record_sum_prefix(rs: Seq<GameRecord>, i: int)
    requires
        0 <= i <= rs.len(),
    ensures
        record_plies_sum(rs.take(i)) <= record_plies_sum(rs),
    decreases rs.len() - i,
{
    if i < rs.len() {
        lemma_record_sum_prefix(rs, i + 1);
        assert(rs.take(i + 1).drop_last() =~= rs.take(i));
    } else {
        assert(rs.take(i) =~= rs);
    }
}

impl AggregateStats {
    /// The totals are consistent: each name once in the count maps, in
    /// order; the result counts add up to the games and their plies to the
    /// plies; no count above the number of games.
    pub open spec fn wf(&self) -> bool {
        &&& sorted_keys(self.white_first_moves@)
        &&& sorted_keys(self.black_first_moves@)
        &&& sorted_keys(self.opening_frequencies@)
        &&& counts_at_most(counts_view(self.white_first_moves@), self.games as nat)
        &&& counts_at_most(counts_view(self.black_first_moves@), self.games as nat)
        &&& counts_at_most(counts_view(self.opening_frequencies@), self.games as nat)
        &&& self.white_wins + self.black_wins + self.draws + self.unresolved == self.games
        &&& self.white_wins_plies + self.black_wins_plies + self.draws_plies + self.unresolved_plies
            == self.total_plies
        &&& self.games_with_kingside_castle <= self.games
        &&& self.games_with_queenside_castle <= self.games
        &&& self.games_with_no_castling <= self.games
    }

    /// The totals of no games.
    pub fn new() -> (r: AggregateStats)
        ensures
            r.wf(),
            r@ == empty_stats(),
    {
        let r = AggregateStats {
            games: 0,
            white_wins: 0,
            black_wins: 0,
            draws: 0,
            unresolved: 0,
            total_plies: 0,
            white_wins_plies: 0,
            black_wins_plies: 0,
            draws_plies: 0,
            unresolved_plies: 0,
            white_first_moves: Vec::new(),
            black_first_moves: Vec::new(),
            opening_frequencies: Vec::new(),
            games_with_kingside_castle: 0,
            games_with_queenside_castle: 0,
            games_with_no_castling: 0,
            total_captures: 0,
            total_checks: 0,
            total_promotions: 0,
        };
        assert(counts_view(r.white_first_moves@) =~= Map::empty());
        assert(counts_view(r.black_first_moves@) =~= Map::empty());
        assert(counts_view(r.opening_frequencies@) =~= Map::empty());
        r
    }
}

/// Gathers totals game by game.
pub struct AggregateStatsAccumulator {
    pub stats: AggregateStats,
}

/// The counters have room for one more game of `plies` plies.
pub open spec fn room_for(m: StatsModel, plies: nat) -> bool {
    &&& m.games < usize::MAX
    &&& m.total_plies + plies <= usize::MAX
    &&& m.total_captures + plies <= usize::MAX
    &&& m.total_checks + plies <= usize::MAX
    &&& m.total_promotions + plies <= usize::MAX
}

proof fn lemma_counts_bounded(plies: Seq<ChessMove>)
    ensures
        count_captures(plies) <= plies.len(),
        count_promotions(plies) <= plies.len(),
    decreases plies.len(),
{
    if plies.len() > 0 {
        lemma_counts_bounded(plies.drop_last());
    }
}

proof fn lemma_checks_bounded(pos: PositionModel, plies: Seq<ChessMove>)
    ensures
        checks_given(pos, plies) <= plies.len(),
    decreases plies.len(),
{
    if plies.len() > 0 {
        lemma_checks_bounded(spec_apply(pos, plies[0]), plies.drop_first());
    }
}

fn result_is(result: &Option<String>, text: &str) -> (r: bool)
    ensures
        r == (opt_string_view(*result) == Some(text@)),
{
    match result {
        Some(s) => {
            let cs = str_to_chars(s.as_str());
            chars_eq_str(&cs, text)
        },
        None => false,
    }
}

impl AggregateStatsAccumulator {
    /// An accumulator that has seen no game.
    pub fn new() -> (r: AggregateStatsAccumulator)
        ensures
            r.stats.wf(),
            r.stats@ == empty_stats(),
    {
        AggregateStatsAccumulator { stats: AggregateStats::new() }
    }

    /// Whether the counters have room for one more game of `plies` plies.
    pub fn has_room(&self, plies: usize) -> (r: bool)
        ensures
            r == room_for(self.stats@, plies as nat),
    {
        self.stats.games < usize::MAX && plies <= usize::MAX - self.stats.total_plies && plies <= usize::MAX
            - self.stats.total_captures && plies <= usize::MAX - self.stats.total_checks && plies <= usize::MAX
            - self.stats.total_promotions
    }

    /// Counts one game summary (see `summary_step`).
    pub fn push_summary(&mut self, summary: &GameSummary)
        requires
            old(self).stats.wf(),
            room_for(old(self).stats@, summary.plies as nat),
        ensures
            final(self).stats.wf(),
            final(self).stats@ == summary_step(
                old(self).stats@,
                opt_string_view(summary.result),
                summary.plies as nat,
                opt_string_view(summary.opening),
            ),
    {
        let ghost m0 = self.stats@;
        let plies = summary.plies;
        self.stats.games = self.stats.games + 1;
        self.stats.total_plies = self.stats.total_plies + plies;
        match &summary.opening {
            Some(o) => {
                bump_count(&mut self.stats.opening_frequencies, o, Ghost(m0.games));
            },
            None => {},
        }
        if result_is(&summary.result, "1-0") {
            self.stats.white_wins = self.stats.white_wins + 1;
            self.stats.white_wins_plies = self.stats.white_wins_plies + plies;
        } else if result_is(&summary.result, "0-1") {
            self.stats.black_wins = self.stats.black_wins + 1;
            self.stats.black_wins_plies = self.stats.black_wins_plies + plies;
        } else if result_is(&summary.result, "1/2-1/2") {
            self.stats.draws = self.stats.draws + 1;
            self.stats.draws_plies = self.stats.draws_plies + plies;
        } else {
            self.stats.unresolved = self.stats.unresolved + 1;
            self.stats.unresolved_plies = self.stats.unresolved_plies + plies;
        }
        proof {
            let m = counts_view(self.stats.white_first_moves@);
            assert forall|k: Seq<char>| #[trigger] m.contains_key(k) implies m[k] <= self.stats.games by {}
            let b = counts_view(self.stats.black_first_moves@);
            assert forall|k: Seq<char>| #[trigger] b.contains_key(k) implies b[k] <= self.stats.games by {}
            let o = counts_view(self.stats.opening_frequencies@);
            assert forall|k: Seq<char>| #[trigger] o.contains_key(k) implies o[k] <= self.stats.games by {}
        }
        assert(self.stats@ =~= summary_step(m0, opt_string_view(summary.result), plies as nat, opt_string_view(summary.opening)));
    }
}

/// The move facts of a replayed game: captures, promotions, checks and
/// castling sides, found by making its moves in turn from `start`.
fn scan_plies(start: &Position, plies: &Vec<ChessMove>) -> (r: (usize, usize, usize, bool, bool))
    requires
        plies_applicable(start@, plies@),
    ensures
        r.0 == count_captures(plies@),
        r.1 == count_promotions(plies@),
        r.2 == checks_given(start@, plies@),
        r.3 == castles_on(plies@, CastleSide::KingSide),
        r.4 == castles_on(plies@, CastleSide::QueenSide),
{
    let mut work = *start;
    let ghost mut cur = start@;
    let mut captures: usize = 0;
    let mut promotions: usize = 0;
    let mut checks: usize = 0;
    let mut saw_kingside = false;
    let mut saw_queenside = false;
    let mut i: usize = 0;
    assert(plies@.skip(0) =~= plies@);
    while i < plies.len()
        invariant
            i <= plies.len(),
            same_but_counters(work@, cur),
            plies_applicable(cur, plies@.skip(i as int)),
            checks + checks_given(cur, plies@.skip(i as int)) == checks_given(start@, plies@),
            checks <= i,
            captures == count_captures(plies@.take(i as int)),
            promotions == count_promotions(plies@.take(i as int)),
            captures <= i,
            promotions <= i,
            saw_kingside == castles_on(plies@.take(i as int), CastleSide::KingSide),
            saw_queenside == castles_on(plies@.take(i as int), CastleSide::QueenSide),
        decreases plies.len() - i,
    {
        let mv = plies[i];
        let ghost rest = plies@.skip(i as int);
        assert(rest[0] == mv);
        assert(rest.drop_first() =~= plies@.skip(i + 1));
        assert(plies@.take(i + 1).drop_last() =~= plies@.take(i as int));
        assert(plies@.take(i + 1).last() == mv);
        if mv.is_capture {
            captures = captures + 1;
        }
        match mv.promotion {
            Some(_) => {
                promotions = promotions + 1;
            },
            None => {},
        }
        proof {
            let t0 = plies@.take(i as int);
            let t1 = plies@.take(i + 1);
            assert(castles_on(t1, CastleSide::KingSide) == (castles_on(t0, CastleSide::KingSide) || mv.castle
                == Some(CastleSide::KingSide))) by {
                if castles_on(t0, CastleSide::KingSide) {
                    let j = choose|j: int| 0 <= j < t0.len() && (#[trigger] t0[j]).castle == Some(CastleSide::KingSide);
                    assert(t1[j] == t0[j]);
                }
                if castles_on(t1, CastleSide::KingSide) {
                    let j = choose|j: int| 0 <= j < t1.len() && (#[trigger] t1[j]).castle == Some(CastleSide::KingSide);
                    if j < i {
                        assert(t1[j] == t0[j]);
                    }
                }
                assert(t1[i as int] == mv);
            }
            assert(castles_on(t1, CastleSide::QueenSide) == (castles_on(t0, CastleSide::QueenSide) || mv.castle
                == Some(CastleSide::QueenSide))) by {
                if castles_on(t0, CastleSide::QueenSide) {
                    let j = choose|j: int| 0 <= j < t0.len() && (#[trigger] t0[j]).castle == Some(CastleSide::QueenSide);
                    assert(t1[j] == t0[j]);
                }
                if castles_on(t1, CastleSide::QueenSide) {
                    let j = choose|j: int| 0 <= j < t1.len() && (#[trigger] t1[j]).castle == Some(CastleSide::QueenSide);
                    if j < i {
                        assert(t1[j] == t0[j]);
                    }
                }
                assert(t1[i as int] == mv);
            }
        }
        match mv.castle {
            Some(CastleSide::KingSide) => saw_kingside = true,
            Some(CastleSide::QueenSide) => saw_queenside = true,
            None => {},
        }
        work.halfmove_clock = 0;
        work.fullmove_number = 1;
        let ghost w0 = work@;
        assert(spec_apply_board(w0, mv) == spec_apply_board(cur, mv));
        apply_move(&mut work, mv);
        proof {
            cur = spec_apply(cur, mv);
        }
        if is_in_check(&work, work.side_to_move) {
            checks = checks + 1;
        }
        i += 1;
    }
    assert(plies@.take(plies.len() as int) =~= plies@);
    (captures, promotions, checks, saw_kingside, saw_queenside)
}

impl AggregateStatsAccumulator {
    /// Counts a replayed game with its summary: the summary as in
    /// `push_summary`, then the move facts of the game (see `record_step`).
    pub fn push_record_with_summary(&mut self, record: &GameRecord, summary: &GameSummary)
        requires
            old(self).stats.wf(),
            record_replays(*record),
            room_for(old(self).stats@, summary.plies as nat),
            room_for(old(self).stats@, record.plies@.len()),
        ensures
            final(self).stats.wf(),
            final(self).stats@ == record_step(
                summary_step(
                    old(self).stats@,
                    opt_string_view(summary.result),
                    summary.plies as nat,
                    opt_string_view(summary.opening),
                ),
                record.game@.moves,
                record_start(*record),
                record.plies@,
            ),
    {
        self.push_summary(summary);
        let ghost m1 = self.stats@;
        let moves = &record.game.moves;
        if moves.len() > 0 {
            bump_count(&mut self.stats.white_first_moves, &moves[0], Ghost((self.stats.games - 1) as nat));
        }
        if moves.len() > 1 {
            bump_count(&mut self.stats.black_first_moves, &moves[1], Ghost((self.stats.games - 1) as nat));
        }
        let fen_text = match record.game.tag("FEN") {
            Some(f) => f,
            None => String::from_str(OFFICIAL_STARTPOS_FEN),
        };
        assert(fen_text@ == start_fen(record.game@));
        let start = match parse_fen(fen_text.as_str()) {
            Ok(p) => p,
            Err(_) => {
                return;
            },
        };
        proof {
            lemma_counts_bounded(record.plies@);
            lemma_checks_bounded(start@, record.plies@);
        }
        let (captures, promotions, checks, saw_kingside, saw_queenside) = scan_plies(&start, &record.plies);
        self.stats.total_captures = self.stats.total_captures + captures;
        self.stats.total_promotions = self.stats.total_promotions + promotions;
        self.stats.total_checks = self.stats.total_checks + checks;
        if saw_kingside {
            self.stats.games_with_kingside_castle = self.stats.games_with_kingside_castle + 1;
        }
        if saw_queenside {
            self.stats.games_with_queenside_castle = self.stats.games_with_queenside_castle + 1;
        }
        if !saw_kingside && !saw_queenside {
            self.stats.games_with_no_castling = self.stats.games_with_no_castling + 1;
        }
        assert(self.stats@.white_first_moves == record_step(m1, record.game@.moves, start@, record.plies@).white_first_moves);
        assert(self.stats@ =~= record_step(m1, record.game@.moves, start@, record.plies@));
    }

    /// Counts a replayed game: its summary (see `summarize_game`) and its
    /// move facts (see `record_totals`).
    pub fn push_record(&mut self, record: &GameRecord)
        requires
            old(self).stats.wf(),
            record_replays(*record),
            room_for(old(self).stats@, record.plies@.len()),
        ensures
            final(self).stats.wf(),
            final(self).stats@ == record_totals(old(self).stats@, *record),
    {
        let summary = summarize_game(record);
        self.push_record_with_summary(record, &summary);
    }

    /// The totals gathered.
    pub fn finish(self) -> (r: AggregateStats)
        ensures
            r@ == self.stats@,
            r.wf() == self.stats.wf(),
    {
        self.stats
    }
}

/// The totals of a list of summaries (see `summary_step`).
pub fn aggregate_stats(summaries: &[GameSummary]) -> (r: AggregateStats)
    requires
        summaries@.len() < usize::MAX,
        summary_plies_sum(summaries@) <= usize::MAX,
    ensures
        r.wf(),
        r@ == stats_of_summaries(summaries@),
{
    let mut acc = AggregateStatsAccumulator::new();
    let mut i: usize = 0;
    assert(summaries@.take(0) =~= Seq::<GameSummary>::empty());
    while i < summaries.len()
        invariant
            i <= summaries@.len() < usize::MAX,
            summary_plies_sum(summaries@) <= usize::MAX,
            acc.stats.wf(),
            acc.stats@ == stats_of_summaries(summaries@.take(i as int)),
            acc.stats.games == i,
            acc.stats.total_plies == summary_plies_sum(summaries@.take(i as int)),
            acc.stats.total_captures == 0,
            acc.stats.total_checks == 0,
            acc.stats.total_promotions == 0,
        decreases summaries.len() - i,
    {
        assert(summaries@.take(i + 1).drop_last() =~= summaries@.take(i as int));
        assert(summaries@.take(i + 1).last() == summaries@[i as int]);
        proof {
            lemma_summary_sum_prefix(summaries@, i + 1);
        }
        acc.push_summary(&summaries[i]);
        i += 1;
    }
    assert(summaries@.take(summaries.len() as int) =~= summaries@);
    acc.finish()
}

/// The totals of a list of replayed games (see `record_totals`).
pub fn aggregate_record_stats(records: &[GameRecord]) -> (r: AggregateStats)
    requires
        forall|i: int| 0 <= i < records@.len() ==> record_replays(#[trigger] records@[i]),
        records@.len() < usize::MAX,
        record_plies_sum(records@) <= usize::MAX,
    ensures
        r.wf(),
        r@ == stats_of_records(records@),
{
    let mut acc = AggregateStatsAccumulator::new();
    let mut i: usize = 0;
    assert(records@.take(0) =~= Seq::<GameRecord>::empty());
    while i < records.len()
        invariant
            i <= records@.len() < usize::MAX,
            forall|k: int| 0 <= k < records@.len() ==> record_replays(#[trigger] records@[k]),
            record_plies_sum(records@) <= usize::MAX,
            acc.stats.wf(),
            acc.stats@ == stats_of_records(records@.take(i as int)),
            acc.stats.games == i,
            acc.stats.total_plies == record_plies_sum(records@.take(i as int)),
            acc.stats.total_captures <= acc.stats.total_plies,
            acc.stats.total_checks <= acc.stats.total_plies,
            acc.stats.total_promotions <= acc.stats.total_plies,
        decreases records.len() - i,
    {
        let rec = &records[i];
        assert(records@.take(i + 1).drop_last() =~= records@.take(i as int));
        assert(records@.take(i + 1).last() == records@[i as int]);
        proof {
            lemma_record_sum_prefix(records@, i + 1);
            lemma_counts_bounded(rec.plies@);
            lemma_checks_bounded(record_start(*rec), rec.plies@);
        }
        acc.push_record(rec);
        i += 1;
    }
    assert(records@.take(records.len() as int) =~= records@);
    acc.finish()
}

impl Default for AggregateStats {
    /// The totals of no games.
    fn default() -> (r: AggregateStats)
        ensures
            r.wf(),
            r@ == empty_stats(),
    {
        AggregateStats::new()
    }
}

impl Default for AggregateStatsAccumulator {
    /// An accumulator that has seen no game.
    fn default() -> (r: AggregateStatsAccumulator)
        ensures
            r.stats.wf(),
            r.stats@ == empty_stats(),
    {
        AggregateStatsAccumulator::new()
    }
}

/// How many summaries of `ss` have the result `r`.
pub open spec fn count_result(ss: Seq<GameSummary>, r: Seq<char>) -> nat
    decreases ss.len(),
{
    if ss.len() == 0 {
        0
    } else {
        count_result(ss.drop_last(), r) + if opt_string_view(ss.last().result) == Some(r) {
            1nat
        } else {
            0nat
        }
    }
}

/// How many summaries of `ss` name the opening `o`.
pub open spec fn count_opening(ss: Seq<GameSummary>, o: Seq<char>) -> nat
    decreases ss.len(),
{
    if ss.len() == 0 {
        0
    } else {
        count_opening(ss.drop_last(), o) + if opt_string_view(ss.last().opening) == Some(o) {
            1nat
        } else {
            0nat
        }
    }
}

/// The totals of a list of summaries in closed form: one game per summary,
/// their plies added up, White's wins, Black's wins and draws counted by
/// result (`1-0`, `0-1`, `1/2-1/2`), every other game unresolved, and each
/// opening counted by the summaries that name it.
pub proof fn lemma_summary_totals(ss: Seq<GameSummary>)
    ensures
        stats_of_summaries(ss).games == ss.len(),
        stats_of_summaries(ss).total_plies == summary_plies_sum(ss),
        stats_of_summaries(ss).white_wins == count_result(ss, "1-0"@),
        stats_of_summaries(ss).black_wins == count_result(ss, "0-1"@),
        stats_of_summaries(ss).draws == count_result(ss, "1/2-1/2"@),
        stats_of_summaries(ss).white_wins + stats_of_summaries(ss).black_wins + stats_of_summaries(ss).draws
            + stats_of_summaries(ss).unresolved == ss.len(),
        forall|o: Seq<char>|
            #![trigger count_opening(ss, o)]
            (stats_of_summaries(ss).opening_frequencies.contains_key(o) ==> stats_of_summaries(
                ss,
            ).opening_frequencies[o] == count_opening(ss, o)) && (!stats_of_summaries(
                ss,
            ).opening_frequencies.contains_key(o) ==> count_opening(ss, o) == 0),
    decreases ss.len(),
{
    reveal_strlit("1-0");
    reveal_strlit("0-1");
    reveal_strlit("1/2-1/2");
    if ss.len() > 0 {
        let prev = ss.drop_last();
        lemma_summary_totals(prev);
        let m = stats_of_summaries(prev);
        let s = ss.last();
        assert("1-0"@ != "0-1"@) by {
            assert("1-0"@[0] != "0-1"@[0]);
        }
        assert("1-0"@ != "1/2-1/2"@) by {
            assert("1-0"@.len() != "1/2-1/2"@.len());
        }
        assert("0-1"@ != "1/2-1/2"@) by {
            assert("0-1"@.len() != "1/2-1/2"@.len());
        }
        assert forall|o: Seq<char>|
            #![trigger count_opening(ss, o)]
            (stats_of_summaries(ss).opening_frequencies.contains_key(o) ==> stats_of_summaries(
                ss,
            ).opening_frequencies[o] == count_opening(ss, o)) && (!stats_of_summaries(
                ss,
            ).opening_frequencies.contains_key(o) ==> count_opening(ss, o) == 0) by {
            assert(count_opening(prev, o) == count_opening(prev, o));
            let f0 = m.opening_frequencies;
            let f1 = stats_of_summaries(ss).opening_frequencies;
            assert(count_opening(ss, o) == count_opening(prev, o) + if opt_string_view(s.opening) == Some(o) {
                1nat
            } else {
                0nat
            });
            match opt_string_view(s.opening) {
                Some(x) => {
                    assert(f1 == bump(f0, x));
                    if x == o {
                        assert(f1.contains_key(o));
                        assert(f1[o] == if f0.contains_key(o) {
                            f0[o] + 1
                        } else {
                            1
                        });
                    } else {
                        assert(f1.contains_key(o) == f0.contains_key(o));
                        assert(f0.contains_key(o) ==> f1[o] == f0[o]);
                    }
                },
                None => {
                    assert(f1 == f0);
                },
            }
        }
    } else {
        assert(stats_of_summaries(ss) == empty_stats());
    }
}

/// How many games of `rs` have a move that castles on `side`.
pub open spec fn count_castling_games(rs: Seq<GameRecord>, side: CastleSide) -> nat
    decreases rs.len(),
{
    if rs.len() == 0 {
        0
    } else {
        let plies = rs.last().plies@;
        count_castling_games(rs.drop_last(), side) + if exists|i: int|
            0 <= i < plies.len() && (#[trigger] plies[i]).castle == Some(side) {
            1nat
        } else {
            0nat
        }
    }
}

/// How many games of `rs` have no castling move at all.
pub open spec fn count_uncastled_games(rs: Seq<GameRecord>) -> nat
    decreases rs.len(),
{
    if rs.len() == 0 {
        0
    } else {
        let plies = rs.last().plies@;
        count_uncastled_games(rs.drop_last()) + if forall|i: int|
            0 <= i < plies.len() ==> (#[trigger] plies[i]).castle is None {
            1nat
        } else {
            0nat
        }
    }
}

/// The castling totals of replayed games: `games_with_kingside_castle`
/// counts the games some move of which castles king side,
/// `games_with_queenside_castle` those that castle queen side, and
/// `games_with_no_castling` those with no castling move.
pub proof fn lemma_record_castling_totals(rs: Seq<GameRecord>)
    ensures
        stats_of_records(rs).games_with_kingside_castle == count_castling_games(rs, CastleSide::KingSide),
        stats_of_records(rs).games_with_queenside_castle == count_castling_games(rs, CastleSide::QueenSide),
        stats_of_records(rs).games_with_no_castling == count_uncastled_games(rs),
    decreases rs.len(),
{
    if rs.len() > 0 {
        lemma_record_castling_totals(rs.drop_last());
        let plies = rs.last().plies@;
        assert(castles_on(plies, CastleSide::KingSide) == exists|i: int|
            0 <= i < plies.len() && (#[trigger] plies[i]).castle == Some(CastleSide::KingSide));
        assert(castles_on(plies, CastleSide::QueenSide) == exists|i: int|
            0 <= i < plies.len() && (#[trigger] plies[i]).castle == Some(CastleSide::QueenSide));
        assert((!castles_on(plies, CastleSide::KingSide) && !castles_on(plies, CastleSide::QueenSide))
            == forall|i: int| 0 <= i < plies.len() ==> (#[trigger] plies[i]).castle is None) by {
            if forall|i: int| 0 <= i < plies.len() ==> (#[trigger] plies[i]).castle is None {
                assert(!castles_on(plies, CastleSide::KingSide));
                assert(!castles_on(plies, CastleSide::QueenSide));
            }
            if !castles_on(plies, CastleSide::KingSide) && !castles_on(plies, CastleSide::QueenSide) {
                assert forall|i: int| 0 <= i < plies.len() implies (#[trigger] plies[i]).castle is None by {
                    match plies[i].castle {
                        Some(CastleSide::KingSide) => {
                            assert(castles_on(plies, CastleSide::KingSide));
                        },
                        Some(CastleSide::QueenSide) => {
                            assert(castles_on(plies, CastleSide::QueenSide));
                        },
                        None => {},
                    }
                }
            }
        }
    }
}

/// How many games of `rs` have a SAN move at index `idx` (0 for White's
/// first move, 1 for Black's) that reads `m`.
pub open spec fn count_first_move(rs: Seq<GameRecord>, idx: int, m: Seq<char>) -> nat
    decreases rs.len(),
{
    if rs.len() == 0 {
        0
    } else {
        let moves = rs.last().game@.moves;
        count_first_move(rs.drop_last(), idx, m) + if moves.len() > idx && moves[idx] == m {
            1nat
        } else {
            0nat
        }
    }
}

/// The first-move tables of replayed games: White's table counts, for each
/// move text, the games whose first move it is, and Black's the games whose
/// second move it is; a move text is listed exactly when some game has it.
pub proof fn lemma_record_first_moves(rs: Seq<GameRecord>)
    ensures
        forall|m: Seq<char>|
            #![trigger count_first_move(rs, 0, m)]
            (stats_of_records(rs).white_first_moves.contains_key(m) ==> stats_of_records(
                rs,
            ).white_first_moves[m] == count_first_move(rs, 0, m)) && (!stats_of_records(
                rs,
            ).white_first_moves.contains_key(m) ==> count_first_move(rs, 0, m) == 0),
        forall|m: Seq<char>|
            #![trigger count_first_move(rs, 1, m)]
            (stats_of_records(rs).black_first_moves.contains_key(m) ==> stats_of_records(
                rs,
            ).black_first_moves[m] == count_first_move(rs, 1, m)) && (!stats_of_records(
                rs,
            ).black_first_moves.contains_key(m) ==> count_first_move(rs, 1, m) == 0),
        forall|m: Seq<char>|
            stats_of_records(rs).white_first_moves.contains_key(m) ==> stats_of_records(rs).white_first_moves[m]
                > 0,
        forall|m: Seq<char>|
            stats_of_records(rs).black_first_moves.contains_key(m) ==> stats_of_records(rs).black_first_moves[m]
                > 0,
    decreases rs.len(),
{
    if rs.len() == 0 {
        assert(stats_of_records(rs) == empty_stats());
    } else {
        let prev = rs.drop_last();
        lemma_record_first_moves(prev);
        let rec = rs.last();
        let moves = rec.game@.moves;
        let m0 = stats_of_records(prev);
        let m1 = summary_step(m0, summary_result(rec.game@), rec.plies@.len(), summary_opening(rec.plies@));
        assert(m1.white_first_moves == m0.white_first_moves);
        assert(m1.black_first_moves == m0.black_first_moves);
        let w0 = m0.white_first_moves;
        let w1 = stats_of_records(rs).white_first_moves;
        let b0 = m0.black_first_moves;
        let b1 = stats_of_records(rs).black_first_moves;
        assert forall|m: Seq<char>|
            #![trigger count_first_move(rs, 0, m)]
            (w1.contains_key(m) ==> w1[m] == count_first_move(rs, 0, m)) && (!w1.contains_key(m)
                ==> count_first_move(rs, 0, m) == 0) by {
            assert(count_first_move(rs, 0, m) == count_first_move(prev, 0, m) + if moves.len() > 0 && moves[0]
                == m {
                1nat
            } else {
                0nat
            });
            if moves.len() > 0 {
                let x = moves[0];
                assert(w1 == bump(w0, x));
                if x == m {
                    assert(w1.contains_key(m));
                    assert(w1[m] == if w0.contains_key(m) {
                        w0[m] + 1
                    } else {
                        1
                    });
                } else {
                    assert(w1.contains_key(m) == w0.contains_key(m));
                    assert(w0.contains_key(m) ==> w1[m] == w0[m]);
                }
            } else {
                assert(w1 == w0);
            }
        }
        assert forall|m: Seq<char>|
            #![trigger count_first_move(rs, 1, m)]
            (b1.contains_key(m) ==> b1[m] == count_first_move(rs, 1, m)) && (!b1.contains_key(m)
                ==> count_first_move(rs, 1, m) == 0) by {
            assert(count_first_move(rs, 1, m) == count_first_move(prev, 1, m) + if moves.len() > 1 && moves[1]
                == m {
                1nat
            } else {
                0nat
            });
            if moves.len() > 1 {
                let x = moves[1];
                assert(b1 == bump(b0, x));
                if x == m {
                    assert(b1.contains_key(m));
                    assert(b1[m] == if b0.contains_key(m) {
                        b0[m] + 1
                    } else {
                        1
                    });
                } else {
                    assert(b1.contains_key(m) == b0.contains_key(m));
                    assert(b0.contains_key(m) ==> b1[m] == b0[m]);
                }
            } else {
                assert(b1 == b0);
            }
        }
    }
}

} // verus!
