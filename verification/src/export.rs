use vstd::prelude::*;

use crate::board::Color;
use crate::pgn::opt_string_view;
use crate::stats::GameSummary;
use vstd::string::StringExecFns;

verus! {

/// The per-game record of the JSON report.
#[derive(Debug, Clone)]
pub struct JsonGameSummary {
    pub event: Option<String>,
    pub white: Option<String>,
    pub black: Option<String>,
    pub result: Option<String>,
    pub plies: usize,
    pub winner: Option<String>,
}

/// The name of a side in the JSON report.
pub open spec fn spec_color_name(color: Color) -> Seq<char> {
    match color {
        Color::White => "white"@,
        Color::Black => "black"@,
    }
}

fn color_to_string(color: Color) -> (r: String)
    ensures
        r@ == spec_color_name(color),
{
    match color {
        Color::White => String::from_str("white"),
        Color::Black => String::from_str("black"),
    }
}

fn copy_opt(s: &Option<String>) -> (r: Option<String>)
    ensures
        opt_string_view(r) == opt_string_view(*s),
{
    match s {
        Some(v) => Some(v.clone()),
        None => None,
    }
}

/// The JSON record of a summary: the same tags, result and plies, and the
/// winner by name.
pub fn to_json_summary(summary: &GameSummary) -> (r: JsonGameSummary)
    ensures
        opt_string_view(r.event) == opt_string_view(summary.event),
        opt_string_view(r.white) == opt_string_view(summary.white),
        opt_string_view(r.black) == opt_string_view(summary.black),
        opt_string_view(r.result) == opt_string_view(summary.result),
        r.plies == summary.plies,
        opt_string_view(r.winner) == match summary.winner {
            Some(c) => Some(spec_color_name(c)),
            None => None,
        },
{
    JsonGameSummary {
        event: copy_opt(&summary.event),
        white: copy_opt(&summary.white),
        black: copy_opt(&summary.black),
        result: copy_opt(&summary.result),
        plies: summary.plies,
        winner: match summary.winner {
            Some(c) => Some(color_to_string(c)),
            None => None,
        },
    }
}

} // verus!
