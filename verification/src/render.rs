use vstd::prelude::*;

use crate::stats::GameSummary;
use crate::text::{push_decimal, push_str, spec_decimal};
use vstd::string::StringExecFns;

verus! {

broadcast use vstd::string::group_string_axioms;

// ---------------------------------------------------------------------------
// validate
// ---------------------------------------------------------------------------

/// A game that could not be reconstructed, numbered from one.
#[derive(Debug, Clone)]
pub struct ValidateFailure {
    pub game_index: usize,
    pub message: String,
}

/// The outcome of validating a PGN file.
pub struct ValidateOutput {
    pub validated_games: usize,
    pub valid: usize,
    pub invalid: usize,
    pub failures: Vec<ValidateFailure>,
}

/// One line per failure: `  game N: message`.
pub open spec fn failure_lines(fs: Seq<ValidateFailure>) -> Seq<char>
    decreases fs.len(),
{
    if fs.len() == 0 {
        seq![]
    } else {
        failure_lines(fs.drop_last()) + "  game "@ + spec_decimal(fs.last().game_index as nat) + ": "@
            + fs.last().message@ + "\n"@
    }
}

/// The validate report: the three counts, then the failures if any.
pub open spec fn spec_render_validate(o: ValidateOutput) -> Seq<char> {
    "validated games: "@ + spec_decimal(o.validated_games as nat) + "\nvalid: "@ + spec_decimal(o.valid as nat)
        + "\ninvalid: "@ + spec_decimal(o.invalid as nat) + "\n"@ + if o.failures@.len() > 0 {
        "\nfailures:\n"@ + failure_lines(o.failures@)
    } else {
        seq![]
    }
}

/// Writes the validate report (see `spec_render_validate`).
pub fn render_validate(output: &ValidateOutput) -> (r: String)
    ensures
        r@ == spec_render_validate(*output),
{
    let mut s = String::from_str("validated games: ");
    push_decimal(&mut s, output.validated_games as u128);
    push_str(&mut s, "\nvalid: ");
    push_decimal(&mut s, output.valid as u128);
    push_str(&mut s, "\ninvalid: ");
    push_decimal(&mut s, output.invalid as u128);
    push_str(&mut s, "\n");
    if output.failures.len() > 0 {
        push_str(&mut s, "\nfailures:\n");
        let ghost base = s@;
        let mut i: usize = 0;
        assert(output.failures@.take(0) =~= Seq::<ValidateFailure>::empty());
        while i < output.failures.len()
            invariant
                i <= output.failures@.len(),
                s@ == base + failure_lines(output.failures@.take(i as int)),
            decreases output.failures.len() - i,
        {
            let f = &output.failures[i];
            assert(output.failures@.take(i + 1).drop_last() =~= output.failures@.take(i as int));
            assert(output.failures@.take(i + 1).last() == *f);
            push_str(&mut s, "  game ");
            push_decimal(&mut s, f.game_index as u128);
            push_str(&mut s, ": ");
            push_str(&mut s, f.message.as_str());
            push_str(&mut s, "\n");
            i += 1;
            assert(s@ =~= base + failure_lines(output.failures@.take(i as int)));
        }
        assert(output.failures@.take(output.failures.len() as int) =~= output.failures@);
    }
    assert(s@ =~= spec_render_validate(*output));
    s
}

// ---------------------------------------------------------------------------
// summarize
// ---------------------------------------------------------------------------

/// One game of the summarize report, numbered from one.
pub enum SummaryEntry {
    Valid { index: usize, summary: GameSummary },
    Invalid { index: usize, error: String },
}

/// The summarize report.
pub struct SummariesOutput {
    pub entries: Vec<SummaryEntry>,
}

/// `s`, or `dflt` when there is none.
pub open spec fn or_default(s: Option<String>, dflt: Seq<char>) -> Seq<char> {
    match s {
        Some(v) => v@,
        None => dflt,
    }
}

/// The start of a game's line: `N. White vs Black | result=R | plies=P`.
pub open spec fn valid_head(index: usize, summary: GameSummary) -> Seq<char> {
    spec_decimal(index as nat) + ". "@ + or_default(summary.white, "?"@) + " vs "@ + or_default(summary.black, "?"@)
        + " | result="@ + or_default(summary.result, "*"@) + " | plies="@ + spec_decimal(summary.plies as nat)
}

/// The end of a game's line: the opening and the ECO code when known.
pub open spec fn valid_tail(summary: GameSummary) -> Seq<char> {
    let opening = match summary.opening {
        Some(o) => " | opening="@ + o@,
        None => seq![],
    };
    let eco = match summary.eco {
        Some(c) => " | eco="@ + c@,
        None => seq![],
    };
    opening + eco + "\n"@
}

/// The line of one game: `N. White vs Black | result=R | plies=P`, then the
/// opening and the ECO code when known; or `N. invalid game: error`.
pub open spec fn entry_line(e: SummaryEntry) -> Seq<char> {
    match e {
        SummaryEntry::Valid { index, summary } => valid_head(index, summary) + valid_tail(summary),
        SummaryEntry::Invalid { index, error } => spec_decimal(index as nat) + ". invalid game: "@ + error@
            + "\n"@,
    }
}

/// The lines of the games, in order.
pub open spec fn entry_lines(es: Seq<SummaryEntry>) -> Seq<char>
    decreases es.len(),
{
    if es.len() == 0 {
        seq![]
    } else {
        entry_lines(es.drop_last()) + entry_line(es.last())
    }
}

fn push_or_default(s: &mut String, v: &Option<String>, dflt: &str)
    ensures
        final(s)@ == old(s)@ + or_default(*v, dflt@),
{
    match v {
        Some(x) => push_str(s, x.as_str()),
        None => push_str(s, dflt),
    }
}

fn push_valid_head(s: &mut String, index: usize, summary: &GameSummary)
    ensures
        final(s)@ == old(s)@ + valid_head(index, *summary),
{
    let ghost start = s@;
    push_decimal(s, index as u128);
    push_str(s, ". ");
    push_or_default(s, &summary.white, "?");
    push_str(s, " vs ");
    push_or_default(s, &summary.black, "?");
    let ghost mid = s@;
    assert(mid =~= start + spec_decimal(index as nat) + ". "@ + or_default(summary.white, "?"@) + " vs "@
        + or_default(summary.black, "?"@));
    push_str(s, " | result=");
    push_or_default(s, &summary.result, "*");
    push_str(s, " | plies=");
    push_decimal(s, summary.plies as u128);
    assert(s@ =~= start + valid_head(index, *summary));
}

fn push_valid_tail(s: &mut String, summary: &GameSummary)
    ensures
        final(s)@ == old(s)@ + valid_tail(*summary),
{
    let ghost start = s@;
    match &summary.opening {
        Some(o) => {
            push_str(s, " | opening=");
            push_str(s, o.as_str());
        },
        None => {},
    }
    let ghost mid = s@;
    match &summary.eco {
        Some(c) => {
            push_str(s, " | eco=");
            push_str(s, c.as_str());
        },
        None => {},
    }
    push_str(s, "\n");
    assert(s@ =~= start + valid_tail(*summary));
}

fn push_entry(s: &mut String, e: &SummaryEntry)
    ensures
        final(s)@ == old(s)@ + entry_line(*e),
{
    let ghost start = s@;
    match e {
        SummaryEntry::Valid { index, summary } => {
            push_valid_head(s, *index, summary);
            push_valid_tail(s, summary);
            assert(s@ =~= start + entry_line(*e));
        },
        SummaryEntry::Invalid { index, error } => {
            push_decimal(s, *index as u128);
            push_str(s, ". invalid game: ");
            push_str(s, error.as_str());
            push_str(s, "\n");
            assert(s@ =~= start + entry_line(*e));
        },
    }
}

/// Writes the summarize report (see `entry_line`).
pub fn render_summaries(output: &SummariesOutput) -> (r: String)
    ensures
        r@ == entry_lines(output.entries@),
{
    let mut s = String::new();
    let mut i: usize = 0;
    assert(output.entries@.take(0) =~= Seq::<SummaryEntry>::empty());
    while i < output.entries.len()
        invariant
            i <= output.entries@.len(),
            s@ == entry_lines(output.entries@.take(i as int)),
        decreases output.entries.len() - i,
    {
        assert(output.entries@.take(i + 1).drop_last() =~= output.entries@.take(i as int));
        assert(output.entries@.take(i + 1).last() == output.entries@[i as int]);
        push_entry(&mut s, &output.entries[i]);
        i += 1;
    }
    assert(output.entries@.take(output.entries.len() as int) =~= output.entries@);
    s
}

// ---------------------------------------------------------------------------
// fen
// ---------------------------------------------------------------------------

/// The FEN report: the normalized FEN and, when asked for, the legal moves.
pub struct FenOutput {
    pub normalized_fen: String,
    pub legal_moves: Vec<String>,
}

/// The strings of `ms` separated by single spaces.
pub open spec fn join_spaced(ms: Seq<String>) -> Seq<char>
    decreases ms.len(),
{
    if ms.len() == 0 {
        seq![]
    } else if ms.len() == 1 {
        ms[0]@
    } else {
        join_spaced(ms.drop_last()) + " "@ + ms.last()@
    }
}

/// The FEN report: `normalized_fen: F`, then `legal_moves (N): m1 m2 ...`
/// when there are moves.
pub open spec fn spec_render_fen(o: FenOutput) -> Seq<char> {
    "normalized_fen: "@ + o.normalized_fen@ + "\n"@ + if o.legal_moves@.len() > 0 {
        "legal_moves ("@ + spec_decimal(o.legal_moves@.len()) + "): "@ + join_spaced(o.legal_moves@) + "\n"@
    } else {
        seq![]
    }
}

/// Writes the FEN report (see `spec_render_fen`).
pub fn render_fen(output: &FenOutput) -> (r: String)
    ensures
        r@ == spec_render_fen(*output),
{
    let mut s = String::from_str("normalized_fen: ");
    push_str(&mut s, output.normalized_fen.as_str());
    push_str(&mut s, "\n");
    let n = output.legal_moves.len();
    if n > 0 {
        push_str(&mut s, "legal_moves (");
        push_decimal(&mut s, n as u128);
        push_str(&mut s, "): ");
        let ghost base = s@;
        push_str(&mut s, output.legal_moves[0].as_str());
        let mut i: usize = 1;
        assert(output.legal_moves@.take(1) =~= seq![output.legal_moves@[0]]);
        while i < n
            invariant
                1 <= i <= n == output.legal_moves@.len(),
                s@ == base + join_spaced(output.legal_moves@.take(i as int)),
            decreases n - i,
        {
            assert(output.legal_moves@.take(i + 1).drop_last() =~= output.legal_moves@.take(i as int));
            assert(output.legal_moves@.take(i + 1).last() == output.legal_moves@[i as int]);
            push_str(&mut s, " ");
            push_str(&mut s, output.legal_moves[i].as_str());
            i += 1;
            assert(s@ =~= base + join_spaced(output.legal_moves@.take(i as int)));
        }
        assert(output.legal_moves@.take(n as int) =~= output.legal_moves@);
        push_str(&mut s, "\n");
    }
    assert(s@ =~= spec_render_fen(*output));
    s
}

// ---------------------------------------------------------------------------
// perft
// ---------------------------------------------------------------------------

/// The perft report: depth, node count, time taken, speed, and per-move
/// counts when asked for.
pub struct PerftOutput {
    pub depth: u8,
    pub nodes: u64,
    pub elapsed_ms: u128,
    pub nps: u64,
    pub divide: Option<Vec<(String, u64)>>,
}

/// One line per root move: `move: count`.
pub open spec fn divide_lines(d: Seq<(String, u64)>) -> Seq<char>
    decreases d.len(),
{
    if d.len() == 0 {
        seq![]
    } else {
        divide_lines(d.drop_last()) + d.last().0@ + ": "@ + spec_decimal(d.last().1 as nat) + "\n"@
    }
}

/// The perft report: `depth`, `nodes`, `elapsed_ms` and `nps` lines, then
/// the per-move lines.
pub open spec fn spec_render_perft(o: PerftOutput) -> Seq<char> {
    "depth: "@ + spec_decimal(o.depth as nat) + "\nnodes: "@ + spec_decimal(o.nodes as nat) + "\nelapsed_ms: "@
        + spec_decimal(o.elapsed_ms as nat) + "\nnps: "@ + spec_decimal(o.nps as nat) + "\n"@ + match o.divide {
        Some(d) => divide_lines(d@),
        None => seq![],
    }
}

/// Writes the perft report (see `spec_render_perft`).
pub fn render_perft(output: &PerftOutput) -> (r: String)
    ensures
        r@ == spec_render_perft(*output),
{
    let mut s = String::from_str("depth: ");
    push_decimal(&mut s, output.depth as u128);
    push_str(&mut s, "\nnodes: ");
    push_decimal(&mut s, output.nodes as u128);
    push_str(&mut s, "\nelapsed_ms: ");
    push_decimal(&mut s, output.elapsed_ms);
    push_str(&mut s, "\nnps: ");
    push_decimal(&mut s, output.nps as u128);
    push_str(&mut s, "\n");
    let ghost base = s@;
    match &output.divide {
        Some(d) => {
            let mut i: usize = 0;
            assert(d@.take(0) =~= Seq::<(String, u64)>::empty());
            while i < d.len()
                invariant
                    i <= d@.len(),
                    s@ == base + divide_lines(d@.take(i as int)),
                decreases d.len() - i,
            {
                assert(d@.take(i + 1).drop_last() =~= d@.take(i as int));
                assert(d@.take(i + 1).last() == d@[i as int]);
                push_str(&mut s, d[i].0.as_str());
                push_str(&mut s, ": ");
                push_decimal(&mut s, d[i].1 as u128);
                push_str(&mut s, "\n");
                i += 1;
                assert(s@ =~= base + divide_lines(d@.take(i as int)));
            }
            assert(d@.take(d.len() as int) =~= d@);
        },
        None => {},
    }
    assert(s@ =~= spec_render_perft(*output));
    s
}

} // verus!
