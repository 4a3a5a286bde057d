use vstd::prelude::*;

use crate::board::{spec_coordinate, ChessMove};
use crate::text::{chars_eq_str, str_to_chars};

verus! {

/// The name of a known opening.
#[derive(Debug, Clone, PartialEq, Eq)]
pub struct OpeningInfo {
    pub eco: &'static str,
    pub opening: &'static str,
    pub variation: Option<&'static str>,
}

/// The number of lines in the opening table.
pub open spec fn opening_table_len() -> int {
    10
}

/// Line `i` of the opening table, move by move in coordinate notation.
pub open spec fn opening_line(i: int) -> Seq<Seq<char>> {
    if i == 0 {
        seq!["e2e4"@, "e7e5"@, "g1f3"@, "b8c6"@, "f1b5"@]
    } else if i == 1 {
        seq!["e2e4"@, "e7e5"@, "g1f3"@, "b8c6"@, "f1c4"@]
    } else if i == 2 {
        seq!["e2e4"@, "c7c5"@]
    } else if i == 3 {
        seq!["e2e4"@, "e7e6"@]
    } else if i == 4 {
        seq!["e2e4"@, "c7c6"@]
    } else if i == 5 {
        seq!["d2d4"@, "d7d5"@, "c2c4"@]
    } else if i == 6 {
        seq!["d2d4"@, "d7d5"@, "c2c4"@, "d5c4"@]
    } else if i == 7 {
        seq!["d2d4"@, "d7d5"@, "c2c4"@, "e7e6"@]
    } else if i == 8 {
        seq!["d2d4"@, "d7d5"@, "c2c4"@, "c7c6"@]
    } else {
        seq!["e2e3"@]
    }
}

/// The ECO code of line `i`.
pub open spec fn opening_eco(i: int) -> Seq<char> {
    if i == 0 {
        "C60"@
    } else if i == 1 {
        "C50"@
    } else if i == 2 {
        "B20"@
    } else if i == 3 {
        "C00"@
    } else if i == 4 {
        "B10"@
    } else if i == 5 {
        "D06"@
    } else if i == 6 {
        "D20"@
    } else if i == 7 {
        "D30"@
    } else if i == 8 {
        "D10"@
    } else {
        "A00"@
    }
}

/// The opening name of line `i`.
pub open spec fn opening_name(i: int) -> Seq<char> {
    if i == 0 {
        "Ruy Lopez"@
    } else if i == 1 {
        "Italian Game"@
    } else if i == 2 {
        "Sicilian Defense"@
    } else if i == 3 {
        "French Defense"@
    } else if i == 4 {
        "Caro-Kann Defense"@
    } else if i == 5 {
        "Queen's Gambit"@
    } else if i == 6 {
        "Queen's Gambit Accepted"@
    } else if i == 7 {
        "Queen's Gambit Declined"@
    } else if i == 8 {
        "Slav Defense"@
    } else {
        "Van't Kruijs Opening"@
    }
}

/// The game starts with every move of `line`, in coordinate notation.
pub open spec fn follows_line(plies: Seq<ChessMove>, line: Seq<Seq<char>>) -> bool {
    &&& plies.len() >= line.len()
    &&& forall|k: int| 0 <= k < line.len() ==> spec_coordinate(#[trigger] plies[k]) == line[k]
}

/// Among the first `n` lines of the table, the one the game follows that is
/// longest, the later one on a tie.
pub open spec fn best_line_upto(plies: Seq<ChessMove>, n: int) -> Option<int>
    decreases n,
{
    if n <= 0 {
        None
    } else {
        let prev = best_line_upto(plies, n - 1);
        if follows_line(plies, opening_line(n - 1)) && match prev {
            Some(j) => opening_line(j).len() <= opening_line(n - 1).len(),
            None => true,
        } {
            Some(n - 1)
        } else {
            prev
        }
    }
}

/// The table line that names the opening of a game, if any.
pub open spec fn spec_classify_opening(plies: Seq<ChessMove>) -> Option<int> {
    best_line_upto(plies, opening_table_len())
}

/// Whether `info` names line `i` of the table.
pub open spec fn names_line(info: OpeningInfo, i: int) -> bool {
    &&& info.eco@ == opening_eco(i)
    &&& info.opening@ == opening_name(i)
    &&& info.variation is None
}

/// Line `i` of the table with its name.
fn opening_entry(i: usize) -> (r: (OpeningInfo, Vec<&'static str>))
    requires
        i < 10,
    ensures
        names_line(r.0, i as int),
        r.1@.len() == opening_line(i as int).len(),
        forall|k: int| 0 <= k < r.1@.len() ==> (#[trigger] r.1@[k])@ == opening_line(i as int)[k],
{
    let (eco, opening, line) = if i == 0 {
        ("C60", "Ruy Lopez", vec!["e2e4", "e7e5", "g1f3", "b8c6", "f1b5"])
    } else if i == 1 {
        ("C50", "Italian Game", vec!["e2e4", "e7e5", "g1f3", "b8c6", "f1c4"])
    } else if i == 2 {
        ("B20", "Sicilian Defense", vec!["e2e4", "c7c5"])
    } else if i == 3 {
        ("C00", "French Defense", vec!["e2e4", "e7e6"])
    } else if i == 4 {
        ("B10", "Caro-Kann Defense", vec!["e2e4", "c7c6"])
    } else if i == 5 {
        ("D06", "Queen's Gambit", vec!["d2d4", "d7d5", "c2c4"])
    } else if i == 6 {
        ("D20", "Queen's Gambit Accepted", vec!["d2d4", "d7d5", "c2c4", "d5c4"])
    } else if i == 7 {
        ("D30", "Queen's Gambit Declined", vec!["d2d4", "d7d5", "c2c4", "e7e6"])
    } else if i == 8 {
        ("D10", "Slav Defense", vec!["d2d4", "d7d5", "c2c4", "c7c6"])
    } else {
        ("A00", "Van't Kruijs Opening", vec!["e2e3"])
    };
    (OpeningInfo { eco, opening, variation: None }, line)
}

/// Whether `mv` written in coordinate notation is `uci`.
fn move_matches_uci(mv: ChessMove, uci: &str) -> (r: bool)
    ensures
        r == (spec_coordinate(mv) == uci@),
{
    let text = mv.to_coordinate();
    let cs = str_to_chars(text.as_str());
    chars_eq_str(&cs, uci)
}

/// Whether the game starts with the moves of `prefix`.
fn has_uci_prefix(plies: &[ChessMove], prefix: &Vec<&'static str>) -> (r: bool)
    ensures
        r == (plies@.len() >= prefix@.len() && forall|k: int|
            0 <= k < prefix@.len() ==> spec_coordinate(#[trigger] plies@[k]) == prefix@[k]@),
{
    if plies.len() < prefix.len() {
        return false;
    }
    let mut k: usize = 0;
    while k < prefix.len()
        invariant
            k <= prefix.len() <= plies.len(),
            forall|j: int| 0 <= j < k ==> spec_coordinate(#[trigger] plies@[j]) == prefix@[j]@,
        decreases prefix.len() - k,
    {
        if !move_matches_uci(plies[k], prefix[k]) {
            return false;
        }
        k += 1;
    }
    true
}

/// Names the opening of a game from its first moves: of the table lines the
/// game starts with, the longest (see `spec_classify_opening`).
pub fn classify_opening(plies: &[ChessMove]) -> (r: Option<OpeningInfo>)
    ensures
        match spec_classify_opening(plies@) {
            Some(i) => r matches Some(info) && names_line(info, i),
            None => r is None,
        },
{
    let mut best: Option<(OpeningInfo, usize)> = None;
    let mut i: usize = 0;
    while i < 10
        invariant
            i <= 10,
            match best_line_upto(plies@, i as int) {
                Some(j) => best matches Some((info, n)) && names_line(info, j) && n == opening_line(j).len(),
                None => best is None,
            },
        decreases 10 - i,
    {
        let (info, line) = opening_entry(i);
        let follows = has_uci_prefix(plies, &line);
        proof {
            assert(follows == follows_line(plies@, opening_line(i as int)));
        }
        if follows {
            let longer = match best {
                Some((_, n)) => n <= line.len(),
                None => true,
            };
            if longer {
                best = Some((info, line.len()));
            }
        }
        i += 1;
    }
    match best {
        Some((info, _)) => Some(info),
        None => None,
    }
}

} // verus!
