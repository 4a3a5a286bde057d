use vstd::prelude::*;

use crate::board::{ChessMove, Color, PieceKind, Position, PositionModel};
use crate::fen::{
    fen_failure_message, lemma_fen_error_message, parse_fen, spec_parse_fen, FenOutcome,
};
use crate::movegen::{
    apply_move, counters_fit, generate_legal_moves_into, move_applicable, spec_apply, spec_legal_moves,
};
use crate::stats::{lemma_plies_push, plies_applicable, position_after, record_replays};
use crate::san::{
    lemma_resolved_is_listed, resolve_san, resolve_san_runs, san_reading_fails, san_reading_fails_exec,
    spec_resolve_san,
};
use crate::keyed::{entries_map, find_key, lemma_entry_in_map, sorted_keys, upsert};
use crate::text::{
    chars_eq_str, chars_to_string, copy_prefix, push_decimal, spec_decimal, find_char, first_index, lines, push_chars,
    push_str, spec_lines, spec_split_whitespace, spec_trim, spec_trim_start, split_whitespace, str_to_chars,
    trim_chars, trim_start_chars,
};
use vstd::string::StringExecFns;

verus! {

broadcast use vstd::string::group_string_axioms;

/// The FEN a game starts from when it names none.
pub const OFFICIAL_STARTPOS_FEN: &'static str = "rnbqkbnr/pppppppp/8/8/8/8/PPPPPPPP/RNBQKBNR w KQkq - 0 1";

// ---------------------------------------------------------------------------
// Games
// ---------------------------------------------------------------------------

/// One game of a PGN file: its tag pairs, its SAN moves and its result
/// token, if it has one.
///
/// `tags` holds each tag name once, the names in increasing order (see
/// `PgnGame::wf`).
#[derive(Debug, Clone)]
pub struct PgnGame {
    pub tags: Vec<(String, String)>,
    pub moves: Vec<String>,
    pub result: Option<String>,
}

/// A game as plain values: tag map, SAN tokens and result token.
pub struct GameModel {
    pub tags: Map<Seq<char>, Seq<char>>,
    pub moves: Seq<Seq<char>>,
    pub result: Option<Seq<char>>,
}

pub open spec fn opt_string_view(s: Option<String>) -> Option<Seq<char>> {
    match s {
        Some(v) => Some(v@),
        None => None,
    }
}

pub open spec fn strings_view(v: Seq<String>) -> Seq<Seq<char>> {
    v.map_values(|s: String| s@)
}

impl View for PgnGame {
    type V = GameModel;

    open spec fn view(&self) -> GameModel {
        GameModel {
            tags: tags_view(self.tags@),
            moves: strings_view(self.moves@),
            result: opt_string_view(self.result),
        }
    }
}

impl PgnGame {
    /// Each tag name occurs once, the names in increasing order.
    pub open spec fn wf(&self) -> bool {
        sorted_keys(self.tags@)
    }

    /// The value of tag `name`, if the game has it.
    pub fn tag(&self, name: &str) -> (r: Option<String>)
        requires
            self.wf(),
        ensures
            match r {
                Some(v) => self@.tags.contains_key(name@) && self@.tags[name@] == v@,
                None => !self@.tags.contains_key(name@),
            },
    {
        match find_key(&self.tags, name) {
            Some(i) => {
                proof {
                    lemma_entry_in_map(self.tags@, i as int);
                }
                Some(self.tags[i].1.clone())
            },
            None => None,
        }
    }
}

// ---------------------------------------------------------------------------
// Tag pairs
// ---------------------------------------------------------------------------

/// What a tag line such as `[White "Kasparov"]` gives: its name and the
/// text between the quotes of its value, or the message of the error.
pub open spec fn spec_parse_tag_line(line: Seq<char>) -> Result<(Seq<char>, Seq<char>), Seq<char>> {
    if !(line.len() > 0 && line[0] == '[' && line.last() == ']') {
        Err("invalid tag line: "@ + line)
    } else {
        let inner = line.subrange(1, line.len() - 1);
        match first_index(inner, ' ') {
            None => if inner.len() == 0 {
                Err("missing tag key: "@ + line)
            } else {
                Err("missing tag value: "@ + line)
            },
            Some(sp) => if sp == 0 {
                Err("missing tag key: "@ + line)
            } else {
                let value = spec_trim(inner.skip(sp + 1));
                if !(value.len() >= 2 && value[0] == '"' && value.last() == '"') {
                    Err("invalid tag value: "@ + line)
                } else {
                    Ok((inner.take(sp), value.subrange(1, value.len() - 1)))
                }
            },
        }
    }
}

/// The characters of `cs` from `a` up to `b`.
fn chars_between(cs: &Vec<char>, a: usize, b: usize) -> (r: Vec<char>)
    requires
        a <= b <= cs.len(),
    ensures
        r@ == cs@.subrange(a as int, b as int),
{
    let mut r: Vec<char> = Vec::new();
    let mut i: usize = a;
    while i < b
        invariant
            a <= i <= b <= cs.len(),
            r@ == cs@.subrange(a as int, i as int),
        decreases b - i,
    {
        r.push(cs[i]);
        assert(cs@.subrange(a as int, i + 1) =~= cs@.subrange(a as int, i as int).push(cs@[i as int]));
        i += 1;
    }
    r
}

/// `prefix` followed by the characters of `cs`.
fn message_with(prefix: &str, cs: &Vec<char>) -> (r: String)
    ensures
        r@ == prefix@ + cs@,
{
    let mut s = String::from_str(prefix);
    push_chars(&mut s, cs);
    s
}

/// Reads a trimmed tag line (see `spec_parse_tag_line`).
fn parse_tag_line(line: &Vec<char>) -> (r: Result<(String, String), String>)
    ensures
        match spec_parse_tag_line(line@) {
            Ok((k, v)) => r matches Ok((key, value)) && key@ == k && value@ == v,
            Err(m) => r matches Err(msg) && msg@ == m,
        },
{
    let n = line.len();
    if !(n > 0 && line[0] == '[' && line[n - 1] == ']') {
        return Err(message_with("invalid tag line: ", line));
    }
    let inner = chars_between(line, 1, n - 1);
    match find_char(&inner, ' ') {
        None => {
            if inner.len() == 0 {
                Err(message_with("missing tag key: ", line))
            } else {
                Err(message_with("missing tag value: ", line))
            }
        },
        Some(sp) => {
            if sp == 0 {
                return Err(message_with("missing tag key: ", line));
            }
            let rest = chars_between(&inner, sp + 1, inner.len());
            assert(rest@ =~= inner@.skip(sp + 1));
            let value = trim_chars(&rest);
            let m = value.len();
            if !(m >= 2 && value[0] == '"' && value[m - 1] == '"') {
                return Err(message_with("invalid tag value: ", line));
            }
            let key = copy_prefix(&inner, sp);
            let text = chars_between(&value, 1, m - 1);
            Ok((chars_to_string(&key), chars_to_string(&text)))
        },
    }
}

// ---------------------------------------------------------------------------
// Movetext
// ---------------------------------------------------------------------------

/// The state of the movetext cleaner: the text kept so far, and whether it
/// is inside a `{}` comment, how deep inside `()` variations, and whether
/// inside a `;` comment.
pub struct CleanState {
    pub cleaned: Seq<char>,
    pub in_brace: bool,
    pub depth: nat,
    pub in_line: bool,
}

/// One character through the movetext cleaner: comments and variations
/// are dropped, `$` is dropped, and newlines, carriage returns and tabs
/// become spaces.
pub open spec fn clean_step(st: CleanState, ch: char) -> CleanState {
    if st.in_line {
        if ch == '\n' {
            CleanState { in_line: false, ..st }
        } else {
            st
        }
    } else if st.in_brace {
        if ch == '}' {
            CleanState { in_brace: false, ..st }
        } else {
            st
        }
    } else if st.depth > 0 {
        if ch == '(' {
            CleanState { depth: st.depth + 1, ..st }
        } else if ch == ')' {
            CleanState { depth: (st.depth - 1) as nat, ..st }
        } else {
            st
        }
    } else if ch == '{' {
        CleanState { in_brace: true, ..st }
    } else if ch == ';' {
        CleanState { in_line: true, ..st }
    } else if ch == '(' {
        CleanState { depth: 1, ..st }
    } else if ch == '$' {
        st
    } else if ch == '\n' || ch == '\r' || ch == '\t' {
        CleanState { cleaned: st.cleaned.push(' '), ..st }
    } else {
        CleanState { cleaned: st.cleaned.push(ch), ..st }
    }
}

pub open spec fn clean_scan(s: Seq<char>) -> CleanState
    decreases s.len(),
{
    if s.len() == 0 {
        CleanState { cleaned: seq![], in_brace: false, depth: 0, in_line: false }
    } else {
        clean_step(clean_scan(s.drop_last()), s.last())
    }
}

/// The tokens of movetext: the cleaned text split at whitespace.
pub open spec fn spec_tokenize(s: Seq<char>) -> Seq<Seq<char>> {
    spec_split_whitespace(clean_scan(s).cleaned).map_values(|t: Seq<char>| spec_trim(t))
}

/// Splits movetext into tokens (see `spec_tokenize`).
fn tokenize_movetext(input: &Vec<char>) -> (r: Vec<Vec<char>>)
    ensures
        r@.len() == spec_tokenize(input@).len(),
        forall|i: int| 0 <= i < r@.len() ==> (#[trigger] r@[i])@ == spec_tokenize(input@)[i],
{
    let mut cleaned: Vec<char> = Vec::new();
    let mut in_brace = false;
    let mut depth: usize = 0;
    let mut in_line = false;
    let mut i: usize = 0;
    while i < input.len()
        invariant
            i <= input.len(),
            depth <= i,
            clean_scan(input@.take(i as int)) == (CleanState {
                cleaned: cleaned@,
                in_brace,
                depth: depth as nat,
                in_line,
            }),
        decreases input.len() - i,
    {
        let ch = input[i];
        assert(input@.take(i + 1).drop_last() =~= input@.take(i as int));
        assert(input@.take(i + 1).last() == ch);
        if in_line {
            if ch == '\n' {
                in_line = false;
            }
        } else if in_brace {
            if ch == '}' {
                in_brace = false;
            }
        } else if depth > 0 {
            if ch == '(' {
                depth = depth + 1;
            } else if ch == ')' {
                depth = depth - 1;
            }
        } else if ch == '{' {
            in_brace = true;
        } else if ch == ';' {
            in_line = true;
        } else if ch == '(' {
            depth = 1;
        } else if ch == '$' {
        } else if ch == '\n' || ch == '\r' || ch == '\t' {
            cleaned.push(' ');
        } else {
            cleaned.push(ch);
        }
        i += 1;
    }
    assert(input@.take(input.len() as int) =~= input@);
    let words = split_whitespace(&cleaned);
    let mut out: Vec<Vec<char>> = Vec::new();
    let mut k: usize = 0;
    while k < words.len()
        invariant
            k <= words.len(),
            words@.len() == spec_split_whitespace(cleaned@).len(),
            forall|j: int| 0 <= j < words@.len() ==> (#[trigger] words@[j])@ == spec_split_whitespace(cleaned@)[j],
            out@.len() == k,
            forall|j: int| 0 <= j < k ==> (#[trigger] out@[j])@ == spec_trim(spec_split_whitespace(cleaned@)[j]),
        decreases words.len() - k,
    {
        out.push(trim_chars(&words[k]));
        k += 1;
    }
    out
}

/// A result token: `1-0`, `0-1`, `1/2-1/2` or `*`.
pub open spec fn is_result_token(t: Seq<char>) -> bool {
    t == "1-0"@ || t == "0-1"@ || t == "1/2-1/2"@ || t == "*"@
}

/// `pat` occurs in `t`.
pub open spec fn contains_seq(t: Seq<char>, pat: Seq<char>) -> bool {
    exists|i: int| 0 <= i && i + pat.len() <= t.len() && #[trigger] t.subrange(i, i + pat.len()) == pat
}

/// A move number token: it ends in `.` or holds `...`.
pub open spec fn is_move_number_token(t: Seq<char>) -> bool {
    (t.len() > 0 && t.last() == '.') || contains_seq(t, seq!['.', '.', '.'])
}

/// The SAN moves and the result of a token list: result tokens set the
/// result (the last one counts), move numbers and `*` are skipped, and
/// every other token is a move.
pub open spec fn sort_tokens(toks: Seq<Seq<char>>) -> (Seq<Seq<char>>, Option<Seq<char>>)
    decreases toks.len(),
{
    if toks.len() == 0 {
        (seq![], None)
    } else {
        let (moves, result) = sort_tokens(toks.drop_last());
        let t = toks.last();
        if is_result_token(t) {
            (moves, Some(t))
        } else if is_move_number_token(t) || t == "*"@ {
            (moves, result)
        } else {
            (moves.push(t), result)
        }
    }
}

fn is_result_token_exec(t: &Vec<char>) -> (r: bool)
    ensures
        r == is_result_token(t@),
{
    chars_eq_str(t, "1-0") || chars_eq_str(t, "0-1") || chars_eq_str(t, "1/2-1/2") || chars_eq_str(t, "*")
}

fn is_move_number_token_exec(t: &Vec<char>) -> (r: bool)
    ensures
        r == is_move_number_token(t@),
{
    let n = t.len();
    if n > 0 && t[n - 1] == '.' {
        return true;
    }
    let ghost pat = seq!['.', '.', '.'];
    if n < 3 {
        return false;
    }
    let mut i: usize = 0;
    while i <= n - 3
        invariant
            n == t.len(),
            n >= 3,
            pat == seq!['.', '.', '.'],
            forall|j: int| 0 <= j < i && j + 3 <= n ==> #[trigger] t@.subrange(j, j + 3) != pat,
        decreases n - i,
    {
        let found = t[i] == '.' && t[i + 1] == '.' && t[i + 2] == '.';
        assert(t@.subrange(i as int, i + 3)[0] == t@[i as int]);
        assert(t@.subrange(i as int, i + 3)[1] == t@[i + 1]);
        assert(t@.subrange(i as int, i + 3)[2] == t@[i + 2]);
        if found {
            assert(t@.subrange(i as int, i + 3) =~= pat);
            assert(contains_seq(t@, pat));
            return true;
        }
        assert(t@.subrange(i as int, i + 3) != pat) by {
            if t@.subrange(i as int, i + 3) == pat {
                assert(pat[0] == '.' && pat[1] == '.' && pat[2] == '.');
            }
        }
        i += 1;
    }
    false
}

/// Moves and result of the tokens (see `sort_tokens`).
fn sort_tokens_exec(toks: &Vec<Vec<char>>) -> (r: (Vec<String>, Option<String>))
    ensures
        strings_view(r.0@) == sort_tokens(toks@.map_values(|t: Vec<char>| t@)).0,
        opt_string_view(r.1) == sort_tokens(toks@.map_values(|t: Vec<char>| t@)).1,
{
    let ghost all = toks@.map_values(|t: Vec<char>| t@);
    let mut moves: Vec<String> = Vec::new();
    let mut result: Option<String> = None;
    let mut i: usize = 0;
    while i < toks.len()
        invariant
            i <= toks.len(),
            all == toks@.map_values(|t: Vec<char>| t@),
            strings_view(moves@) == sort_tokens(all.take(i as int)).0,
            opt_string_view(result) == sort_tokens(all.take(i as int)).1,
        decreases toks.len() - i,
    {
        let t = &toks[i];
        assert(all.take(i + 1).drop_last() =~= all.take(i as int));
        assert(all.take(i + 1).last() == t@);
        if is_result_token_exec(t) {
            result = Some(chars_to_string(t));
        } else if is_move_number_token_exec(t) || chars_eq_str(t, "*") {
        } else {
            let ghost before = moves@;
            moves.push(chars_to_string(t));
            assert(strings_view(moves@) =~= strings_view(before).push(t@));
        }
        i += 1;
    }
    assert(all.take(toks.len() as int) =~= all);
    (moves, result)
}

// ---------------------------------------------------------------------------
// One game
// ---------------------------------------------------------------------------

/// The tag map and movetext of the lines read so far, or the message of the
/// first bad tag line: trimmed lines starting with `[` are tag pairs (a
/// later pair of the same name wins), other non-empty trimmed lines are
/// movetext, each followed by a newline (so a `;` comment ends with its
/// line).
pub open spec fn game_scan(ls: Seq<Seq<char>>) -> Result<(Map<Seq<char>, Seq<char>>, Seq<char>), Seq<char>>
    decreases ls.len(),
{
    if ls.len() == 0 {
        Ok((Map::empty(), seq![]))
    } else {
        match game_scan(ls.drop_last()) {
            Err(m) => Err(m),
            Ok((tags, text)) => scan_step(tags, text, ls.last()),
        }
    }
}

/// One line through `game_scan`.
pub open spec fn scan_step(tags: Map<Seq<char>, Seq<char>>, text: Seq<char>, line: Seq<char>) -> Result<
    (Map<Seq<char>, Seq<char>>, Seq<char>),
    Seq<char>,
> {
    let t = spec_trim(line);
    if t.len() > 0 && t[0] == '[' {
        match spec_parse_tag_line(t) {
            Ok((k, v)) => Ok((tags.insert(k, v), text)),
            Err(m) => Err(m),
        }
    } else if t.len() > 0 {
        Ok((tags, text + t.push('\n')))
    } else {
        Ok((tags, text))
    }
}

pub open spec fn tags_view(tags: Seq<(String, String)>) -> Map<Seq<char>, Seq<char>> {
    entries_map(tags).map_values(|v: String| v@)
}

/// One line of a game into its tags and movetext (see `scan_step`).
fn scan_line(tags: &mut Vec<(String, String)>, text: &mut Vec<char>, line: &Vec<char>) -> (r: Option<String>)
    requires
        sorted_keys(old(tags)@),
    ensures
        sorted_keys(final(tags)@),
        match scan_step(tags_view(old(tags)@), old(text)@, line@) {
            Ok((tg, tx)) => r is None && tags_view(final(tags)@) == tg && final(text)@ == tx,
            Err(m) => r matches Some(msg) && msg@ == m,
        },
{
    let t = trim_chars(line);
    if t.len() > 0 && t[0] == '[' {
        match parse_tag_line(&t) {
            Ok((k, v)) => {
                let ghost kv = k@;
                let ghost vv = v@;
                upsert(tags, k, v);
                assert(tags_view(tags@) =~= tags_view(old(tags)@).insert(kv, vv));
                None
            },
            Err(m) => Some(m),
        }
    } else if t.len() > 0 {
        let mut j: usize = 0;
        let ghost before = text@;
        while j < t.len()
            invariant
                j <= t.len(),
                text@ == before + t@.take(j as int),
            decreases t.len() - j,
        {
            text.push(t[j]);
            assert(t@.take(j + 1) =~= t@.take(j as int).push(t@[j as int]));
            j += 1;
        }
        assert(t@.take(t.len() as int) =~= t@);
        text.push('\n');
        assert(text@ =~= before + t@.push('\n'));
        None
    } else {
        None
    }
}

/// What one game's text reads as (see `game_scan`, `spec_tokenize` and
/// `sort_tokens`), or the message of its first bad tag line.
#[verifier::opaque]
pub open spec fn spec_parse_single_game(input: Seq<char>) -> Result<GameModel, Seq<char>> {
    match game_scan(spec_lines(input)) {
        Err(m) => Err(m),
        Ok((tags, text)) => {
            let (moves, result) = sort_tokens(spec_tokenize(text));
            Ok(GameModel { tags, moves, result })
        },
    }
}

/// Reads the text of one game (see `spec_parse_single_game`); a bad tag line
/// gives a `Parse` error with its message.
pub fn parse_single_game(input: &str) -> (r: Result<PgnGame, PgnError>)
    ensures
        match spec_parse_single_game(input@) {
            Ok(g) => r matches Ok(game) && game.wf() && game@ == g,
            Err(m) => r matches Err(PgnError::Parse(msg)) && msg@ == m,
        },
{
    reveal(spec_parse_single_game);
    let chars = str_to_chars(input);
    let ls = lines(&chars);
    let ghost sl = spec_lines(input@);
    let mut tags: Vec<(String, String)> = Vec::new();
    let mut text: Vec<char> = Vec::new();
    let mut i: usize = 0;
    assert(sl.take(0) =~= Seq::<Seq<char>>::empty());
    assert(tags_view(tags@) =~= Map::<Seq<char>, Seq<char>>::empty());
    while i < ls.len()
        invariant
            i <= ls.len(),
            ls@.len() == sl.len(),
            sl == spec_lines(input@),
            forall|k: int| 0 <= k < ls@.len() ==> (#[trigger] ls@[k])@ == sl[k],
            sorted_keys(tags@),
            game_scan(sl.take(i as int)) == Ok::<(Map<Seq<char>, Seq<char>>, Seq<char>), Seq<char>>(
                (tags_view(tags@), text@),
            ),
        decreases ls.len() - i,
    {
        assert(sl.take(i + 1).drop_last() =~= sl.take(i as int));
        assert(sl.take(i + 1).last() == ls@[i as int]@);
        match scan_line(&mut tags, &mut text, &ls[i]) {
            Some(m) => {
                proof {
                    lemma_game_scan_error_stays(sl, i as int + 1);
                    reveal(spec_parse_single_game);
                }
                return Err(PgnError::Parse(m));
            },
            None => {},
        }
        i += 1;
    }
    assert(sl.take(ls.len() as int) =~= sl);
    let toks = tokenize_movetext(&text);
    assert(toks@.map_values(|t: Vec<char>| t@) =~= spec_tokenize(text@));
    let (moves, result) = sort_tokens_exec(&toks);
    Ok(PgnGame { tags, moves, result })
}

/// Once a line of the game is bad, the whole game is.
proof fn lemma_game_scan_error_stays(ls: Seq<Seq<char>>, n: int)
    requires
        0 <= n <= ls.len(),
        game_scan(ls.take(n)) is Err,
    ensures
        game_scan(ls) == game_scan(ls.take(n)),
    decreases ls.len() - n,
{
    if n < ls.len() {
        assert(ls.take(n + 1).drop_last() =~= ls.take(n));
        lemma_game_scan_error_stays(ls, n + 1);
    } else {
        assert(ls.take(n) =~= ls);
    }
}

// ---------------------------------------------------------------------------
// Splitting a file into games
// ---------------------------------------------------------------------------

/// The line opens a new game: after leading whitespace it starts with
/// `[Event `.
pub open spec fn opens_game(line: Seq<char>) -> bool {
    let t = spec_trim_start(line);
    t.len() >= 7 && t.take(7) == "[Event "@
}

/// One line through the game splitter: a line that opens a game while the
/// text gathered so far holds more than whitespace ends that text as a
/// game and starts the next; any other line is added. Each line is kept
/// with a newline after it.
#[verifier::opaque]
pub open spec fn split_step(cur: Seq<char>, line: Seq<char>) -> (Option<Seq<char>>, Seq<char>) {
    if opens_game(line) && spec_trim(cur).len() > 0 {
        (Some(cur), line.push('\n'))
    } else {
        (None, cur + line.push('\n'))
    }
}

/// The games ended by the lines read so far, and the text gathered since.
pub open spec fn split_scan(ls: Seq<Seq<char>>) -> (Seq<Seq<char>>, Seq<char>)
    decreases ls.len(),
{
    if ls.len() == 0 {
        (seq![], seq![])
    } else {
        let (done, cur) = split_scan(ls.drop_last());
        match split_step(cur, ls.last()) {
            (Some(g), c) => (done.push(g), c),
            (None, c) => (done, c),
        }
    }
}

/// The text gathered at the end is a last game unless it is all whitespace.
pub open spec fn split_finish(cur: Seq<char>) -> Option<Seq<char>> {
    if spec_trim(cur).len() > 0 {
        Some(cur)
    } else {
        None
    }
}

/// The texts of the games of a PGN file, line by line (see `split_step`).
pub open spec fn spec_split_games(input: Seq<char>) -> Seq<Seq<char>> {
    let (done, cur) = split_scan(spec_lines(input));
    match split_finish(cur) {
        Some(g) => done.push(g),
        None => done,
    }
}

/// Cuts the lines of a PGN file into the texts of its games (see
/// `split_step` and `split_finish`).
pub struct GameSplitter {
    pub current: String,
}

fn has_content(cs: &Vec<char>) -> (r: bool)
    ensures
        r == (spec_trim(cs@).len() > 0),
{
    trim_chars(cs).len() > 0
}

impl GameSplitter {
    /// A splitter that has read nothing.
    pub fn new() -> (r: GameSplitter)
        ensures
            r.current@ == Seq::<char>::empty(),
    {
        GameSplitter { current: String::new() }
    }

    /// Reads one line; returns the text of a game that the line ends.
    pub fn push_line(&mut self, line: &str) -> (r: Option<String>)
        ensures
            (opt_string_view(r), final(self).current@) == split_step(old(self).current@, line@),
    {
        reveal(split_step);
        let lc = str_to_chars(line);
        let t = trim_start_chars(&lc);
        let opens = if t.len() >= 7 {
            let head = copy_prefix(&t, 7);
            chars_eq_str(&head, "[Event ")
        } else {
            false
        };
        let cur = str_to_chars(self.current.as_str());
        let mut fresh = String::new();
        push_str(&mut fresh, line);
        crate::text::push_char(&mut fresh, '\n');
        if opens && has_content(&cur) {
            let done = self.current.clone();
            self.current = fresh;
            Some(done)
        } else {
            push_str(&mut self.current, fresh.as_str());
            None
        }
    }

    /// Ends the input; returns the text of the last game, if any.
    pub fn finish(self) -> (r: Option<String>)
        ensures
            opt_string_view(r) == split_finish(self.current@),
    {
        let cur = str_to_chars(self.current.as_str());
        if has_content(&cur) {
            Some(self.current)
        } else {
            None
        }
    }
}

/// What the games of a list of game texts read as, each text trimmed, up to
/// the first error.
pub open spec fn parse_chunks(chunks: Seq<Seq<char>>) -> Result<Seq<GameModel>, Seq<char>>
    decreases chunks.len(),
{
    if chunks.len() == 0 {
        Ok(seq![])
    } else {
        match parse_chunks(chunks.drop_last()) {
            Err(m) => Err(m),
            Ok(gs) => match spec_parse_single_game(spec_trim(chunks.last())) {
                Ok(g) => Ok(gs.push(g)),
                Err(m) => Err(m),
            },
        }
    }
}

/// What a PGN text reads as: its games in order, or the message of the
/// first bad tag line.
pub open spec fn spec_parse_pgn(input: Seq<char>) -> Result<Seq<GameModel>, Seq<char>> {
    parse_chunks(spec_split_games(input))
}

/// The games read from `r`, all well formed, are the models `gs`.
pub open spec fn games_are(r: Seq<PgnGame>, gs: Seq<GameModel>) -> bool {
    &&& r.len() == gs.len()
    &&& forall|i: int| 0 <= i < r.len() ==> (#[trigger] r[i]).wf() && r[i]@ == gs[i]
}

/// Reads the text of one game as the splitter gives it: trimmed, then read
/// by `parse_single_game`.
pub fn parse_game_chunk(chunk: &str) -> (r: Result<PgnGame, PgnError>)
    ensures
        match spec_parse_single_game(spec_trim(chunk@)) {
            Ok(g) => r matches Ok(game) && game.wf() && game@ == g,
            Err(m) => r matches Err(PgnError::Parse(msg)) && msg@ == m,
        },
{
    let cs = str_to_chars(chunk);
    let t = chars_to_string(&trim_chars(&cs));
    parse_single_game(t.as_str())
}

proof fn lemma_parse_chunks_error_stays(a: Seq<Seq<char>>, b: Seq<Seq<char>>)
    requires
        parse_chunks(a) is Err,
    ensures
        parse_chunks(a + b) == parse_chunks(a),
    decreases b.len(),
{
    if b.len() == 0 {
        assert(a + b =~= a);
    } else {
        lemma_parse_chunks_error_stays(a, b.drop_last());
        assert((a + b).drop_last() =~= a + b.drop_last());
    }
}

/// The games ended by a prefix of the lines come first among the games
/// ended by all of them.
proof fn lemma_split_scan_prefix(ls: Seq<Seq<char>>, n: int)
    requires
        0 <= n <= ls.len(),
    ensures
        split_scan(ls.take(n)).0.len() <= split_scan(ls).0.len(),
        split_scan(ls).0.take(split_scan(ls.take(n)).0.len() as int) == split_scan(ls.take(n)).0,
    decreases ls.len() - n,
{
    if n == ls.len() {
        assert(ls.take(n) =~= ls);
        assert(split_scan(ls).0.take(split_scan(ls).0.len() as int) =~= split_scan(ls).0);
    } else {
        lemma_split_scan_prefix(ls, n + 1);
        assert(ls.take(n + 1).drop_last() =~= ls.take(n));
        let (done, cur) = split_scan(ls.take(n));
        let all = split_scan(ls).0;
        let next = split_scan(ls.take(n + 1)).0;
        match split_step(cur, ls.take(n + 1).last()) {
            (Some(g), c) => {
                assert(next == done.push(g));
                assert(all.take(done.len() as int) =~= next.take(done.len() as int));
                assert(next.take(done.len() as int) =~= done);
            },
            (None, c) => {
            },
        }
    }
}

proof fn lemma_split_scan_step(ls: Seq<Seq<char>>, i: int)
    requires
        0 <= i < ls.len(),
    ensures
        split_scan(ls.take(i + 1)) == (match split_step(split_scan(ls.take(i)).1, ls[i]) {
            (Some(g), c) => (split_scan(ls.take(i)).0.push(g), c),
            (None, c) => (split_scan(ls.take(i)).0, c),
        }),
{
    assert(ls.take(i + 1).drop_last() =~= ls.take(i));
    assert(ls.take(i + 1).last() == ls[i]);
}

proof fn lemma_parse_chunks_push(d: Seq<Seq<char>>, g: Seq<char>)
    ensures
        parse_chunks(d.push(g)) == (match parse_chunks(d) {
            Err(m) => Err(m),
            Ok(gs) => match spec_parse_single_game(spec_trim(g)) {
                Ok(x) => Ok(gs.push(x)),
                Err(m) => Err(m),
            },
        }),
{
    assert(d.push(g).drop_last() =~= d);
    assert(d.push(g).last() == g);
}

/// The games after one more game text: the game read from it is added, or
/// its error is returned.
fn take_chunk(games: &mut Vec<PgnGame>, chunk: &str) -> (r: Option<PgnError>)
    ensures
        match spec_parse_single_game(spec_trim(chunk@)) {
            Ok(m) => r is None && final(games)@.len() == old(games)@.len() + 1 && final(games)@.take(
                old(games)@.len() as int,
            ) == old(games)@ && final(games)@.last().wf() && final(games)@.last()@ == m,
            Err(msg) => r matches Some(PgnError::Parse(e)) && e@ == msg,
        },
{
    match parse_game_chunk(chunk) {
        Ok(game) => {
            let ghost before = games@;
            games.push(game);
            assert(games@.take(before.len() as int) =~= before);
            None
        },
        Err(e) => Some(e),
    }
}

proof fn lemma_games_are_push(before: Seq<PgnGame>, after: Seq<PgnGame>, models: Seq<GameModel>)
    requires
        games_are(before, models),
        after.len() == before.len() + 1,
        after.take(before.len() as int) == before,
        after.last().wf(),
    ensures
        games_are(after, models.push(after.last()@)),
{
    let ms = models.push(after.last()@);
    assert forall|k: int| 0 <= k < after.len() implies (#[trigger] after[k]).wf() && after[k]@ == ms[k] by {
        if k < before.len() {
            assert(after.take(before.len() as int)[k] == after[k]);
            assert(before[k].wf() && before[k]@ == models[k]);
        } else {
            assert(after[k] == after.last());
        }
    }
}

/// Reads every game of a PGN text, in order (see `spec_parse_pgn`); the
/// first bad tag line gives a `Parse` error with its message.
pub fn parse_pgn(input: &str) -> (r: Result<Vec<PgnGame>, PgnError>)
    ensures
        match spec_parse_pgn(input@) {
            Ok(gs) => r matches Ok(v) && games_are(v@, gs),
            Err(m) => r matches Err(PgnError::Parse(msg)) && msg@ == m,
        },
{
    let chars = str_to_chars(input);
    let ls = lines(&chars);
    let ghost sl = spec_lines(input@);
    let mut splitter = GameSplitter::new();
    let mut games: Vec<PgnGame> = Vec::new();
    let ghost mut models: Seq<GameModel> = seq![];
    let mut i: usize = 0;
    assert(sl.take(0) =~= Seq::<Seq<char>>::empty());
    while i < ls.len()
        invariant
            i <= ls.len(),
            ls@.len() == sl.len(),
            sl == spec_lines(input@),
            forall|k: int| 0 <= k < ls@.len() ==> (#[trigger] ls@[k])@ == sl[k],
            split_scan(sl.take(i as int)).1 == splitter.current@,
            parse_chunks(split_scan(sl.take(i as int)).0) == Ok::<Seq<GameModel>, Seq<char>>(models),
            games_are(games@, models),
        decreases ls.len() - i,
    {
        let ghost done = split_scan(sl.take(i as int)).0;
        proof {
            lemma_split_scan_step(sl, i as int);
        }
        let line = chars_to_string(&ls[i]);
        assert(line@ == sl[i as int]);
        match splitter.push_line(line.as_str()) {
            Some(chunk) => {
                proof {
                    lemma_parse_chunks_push(done, chunk@);
                }
                let ghost before = games@;
                match take_chunk(&mut games, chunk.as_str()) {
                    None => {
                        proof {
                            lemma_games_are_push(before, games@, models);
                            models = models.push(games@.last()@);
                        }
                    },
                    Some(e) => {
                        proof {
                            let before_all = done.push(chunk@);
                            lemma_split_scan_prefix(sl, i + 1);
                            let all = spec_split_games(input@);
                            let (fin, cur) = split_scan(sl);
                            assert(all.take(before_all.len() as int) =~= before_all) by {
                                assert(fin.take(before_all.len() as int) == before_all);
                            }
                            assert(all =~= before_all + all.skip(before_all.len() as int));
                            lemma_parse_chunks_error_stays(before_all, all.skip(before_all.len() as int));
                        }
                        return Err(e);
                    },
                }
            },
            None => {},
        }
        i += 1;
    }
    assert(sl.take(ls.len() as int) =~= sl);
    let ghost done = split_scan(sl).0;
    match splitter.finish() {
        Some(chunk) => {
            proof {
                lemma_parse_chunks_push(done, chunk@);
            }
            let ghost before = games@;
            match take_chunk(&mut games, chunk.as_str()) {
                None => {
                    proof {
                        lemma_games_are_push(before, games@, models);
                        models = models.push(games@.last()@);
                        assert(spec_split_games(input@) == done.push(chunk@));
                    }
                },
                Some(e) => {
                    assert(spec_split_games(input@) == done.push(chunk@));
                    return Err(e);
                },
            }
        },
        None => {
            assert(spec_split_games(input@) == done);
        },
    }
    Ok(games)
}

// ---------------------------------------------------------------------------
// Errors
// ---------------------------------------------------------------------------

/// A SAN move of a game that names no legal move.
#[derive(Debug, Clone)]
pub struct ReplayError {
    pub ply_index: usize,
    pub san: String,
    pub message: String,
}

/// Why a PGN text or game was rejected.
#[derive(Debug, Clone)]
pub enum PgnError {
    Parse(String),
    InvalidInitialFen(String),
    Replay(ReplayError),
}

/// The text of a replay error: `ply N `SAN`: message`.
pub open spec fn spec_replay_message(e: ReplayError) -> Seq<char> {
    "ply "@ + spec_decimal(e.ply_index as nat) + " `"@ + e.san@ + "`: "@ + e.message@
}

/// The text of a PGN error.
pub open spec fn spec_pgn_error_message(e: PgnError) -> Seq<char> {
    match e {
        PgnError::Parse(m) => "PGN parse error: "@ + m@,
        PgnError::InvalidInitialFen(m) => "invalid initial FEN: "@ + m@,
        PgnError::Replay(r) => spec_replay_message(r),
    }
}

impl ReplayError {
    /// A human-readable description of the error.
    pub fn to_string(&self) -> (r: String)
        ensures
            r@ == spec_replay_message(*self),
    {
        let mut s = String::from_str("ply ");
        push_decimal(&mut s, self.ply_index as u128);
        push_str(&mut s, " `");
        push_str(&mut s, self.san.as_str());
        push_str(&mut s, "`: ");
        push_str(&mut s, self.message.as_str());
        s
    }
}

impl PgnError {
    /// A human-readable description of the error.
    pub fn to_string(&self) -> (r: String)
        ensures
            r@ == spec_pgn_error_message(*self),
    {
        match self {
            PgnError::Parse(m) => {
                let mut s = String::from_str("PGN parse error: ");
                push_str(&mut s, m.as_str());
                s
            },
            PgnError::InvalidInitialFen(m) => {
                let mut s = String::from_str("invalid initial FEN: ");
                push_str(&mut s, m.as_str());
                s
            },
            PgnError::Replay(e) => e.to_string(),
        }
    }
}

// ---------------------------------------------------------------------------
// Results
// ---------------------------------------------------------------------------

/// The winner a result token names: `1-0` White, `0-1` Black.
pub open spec fn spec_color_from_result(result: Option<Seq<char>>) -> Option<Color> {
    match result {
        Some(r) => if r == "1-0"@ {
            Some(Color::White)
        } else if r == "0-1"@ {
            Some(Color::Black)
        } else {
            None
        },
        None => None,
    }
}

/// The winner a result token names (see `spec_color_from_result`).
pub fn color_from_result(result: Option<&String>) -> (r: Option<Color>)
    ensures
        r == spec_color_from_result(match result {
            Some(s) => Some(s@),
            None => None,
        }),
{
    match result {
        Some(s) => {
            let cs = str_to_chars(s.as_str());
            if chars_eq_str(&cs, "1-0") {
                Some(Color::White)
            } else if chars_eq_str(&cs, "0-1") {
                Some(Color::Black)
            } else {
                None
            }
        },
        None => None,
    }
}

// ---------------------------------------------------------------------------
// Replaying a game
// ---------------------------------------------------------------------------

/// A game replayed move by move from its starting position.
#[derive(Debug, Clone)]
pub struct GameRecord {
    pub game: PgnGame,
    pub position: Position,
    pub plies: Vec<ChessMove>,
}

/// How replaying SAN moves ends: the final position and the moves made, the
/// index of the first move that names no legal move, or a failure midway
/// (a SAN token whose reading fails, or a move counter that overflows).
pub enum ReplayOutcome {
    Done(PositionModel, Seq<ChessMove>),
    Unresolved(int),
    Panics,
}

/// `mv` made before the moves of `o`.
pub open spec fn prepend_plies(ms: Seq<ChessMove>, o: ReplayOutcome) -> ReplayOutcome {
    match o {
        ReplayOutcome::Done(p, rest) => ReplayOutcome::Done(p, ms + rest),
        other => other,
    }
}

/// Replays the SAN moves `sans` from index `i` on `pos`: each names a
/// legal move (see `spec_resolve_san`), which is made.
pub open spec fn replay_from(pos: PositionModel, sans: Seq<Seq<char>>, i: int) -> ReplayOutcome
    decreases sans.len() - i,
{
    if i < 0 || i >= sans.len() {
        ReplayOutcome::Done(pos, seq![])
    } else if san_reading_fails(sans[i]) {
        ReplayOutcome::Panics
    } else {
        match spec_resolve_san(pos, spec_legal_moves(pos), sans[i]) {
            None => ReplayOutcome::Unresolved(i),
            Some(mv) => if !counters_fit(pos, mv) {
                ReplayOutcome::Panics
            } else {
                prepend_plies(seq![mv], replay_from(spec_apply(pos, mv), sans, i + 1))
            },
        }
    }
}

/// The FEN a game starts from: its `FEN` tag, or the standard start.
pub open spec fn start_fen(g: GameModel) -> Seq<char> {
    if g.tags.contains_key("FEN"@) {
        g.tags["FEN"@]
    } else {
        OFFICIAL_STARTPOS_FEN@
    }
}

/// How reconstructing a game ends.
pub enum ReconstructOutcome {
    Record(PositionModel, Seq<ChessMove>),
    BadFen(Seq<char>),
    Unresolved(int),
    Panics,
}

/// Reconstructing a game: its starting FEN is read (a bad one is reported
/// with the FEN error's message), then its moves are replayed.
pub open spec fn spec_reconstruct(g: GameModel) -> ReconstructOutcome {
    match spec_parse_fen(start_fen(g)) {
        FenOutcome::Failed(f) => ReconstructOutcome::BadFen(fen_failure_message(f)),
        FenOutcome::Parsed(p) => match replay_from(p, g.moves, 0) {
            ReplayOutcome::Done(q, ms) => ReconstructOutcome::Record(q, ms),
            ReplayOutcome::Unresolved(i) => ReconstructOutcome::Unresolved(i),
            ReplayOutcome::Panics => ReconstructOutcome::Panics,
        },
    }
}

/// `r` is what reconstructing `game` gives when it does not fail midway.
pub open spec fn reconstruct_result_is(game: PgnGame, r: Result<GameRecord, PgnError>) -> bool {
    match spec_reconstruct(game@) {
        ReconstructOutcome::Record(p, ms) => r matches Ok(rec) && rec.position@ == p && rec.plies@ == ms
            && rec.game.tags@ == game.tags@ && rec.game.moves@ == game.moves@ && rec.game.result == game.result
            && record_replays(rec),
        ReconstructOutcome::BadFen(m) => r matches Err(PgnError::InvalidInitialFen(msg)) && msg@ == m,
        ReconstructOutcome::Unresolved(i) => r matches Err(PgnError::Replay(e)) && e.ply_index == i + 1 && e.san@
            == game@.moves[i] && e.message@ == "could not resolve SAN to a legal move"@,
        ReconstructOutcome::Panics => true,
    }
}

fn counters_fit_exec(position: &Position, mv: ChessMove) -> (r: bool)
    requires
        mv.from.0 < 64,
    ensures
        r == counters_fit(position@, mv),
{
    let piece = position.piece_at(mv.from);
    let resets = mv.is_capture || match piece {
        Some(p) => match p.kind {
            PieceKind::Pawn => true,
            _ => false,
        },
        None => false,
    };
    let half_ok = resets || position.halfmove_clock < u32::MAX;
    let full_ok = match position.side_to_move {
        Color::Black => position.fullmove_number < u32::MAX,
        Color::White => true,
    };
    half_ok && full_ok
}

fn copy_game(game: &PgnGame) -> (r: PgnGame)
    ensures
        r.tags@ == game.tags@,
        r.moves@ == game.moves@,
        r.result == game.result,
{
    let mut tags: Vec<(String, String)> = Vec::new();
    let mut i: usize = 0;
    while i < game.tags.len()
        invariant
            i <= game.tags.len(),
            tags@ == game.tags@.take(i as int),
        decreases game.tags.len() - i,
    {
        let k = game.tags[i].0.clone();
        let v = game.tags[i].1.clone();
        tags.push((k, v));
        assert(game.tags@.take(i + 1) =~= game.tags@.take(i as int).push(game.tags@[i as int]));
        i += 1;
    }
    assert(game.tags@.take(game.tags.len() as int) =~= game.tags@);
    let mut moves: Vec<String> = Vec::new();
    let mut j: usize = 0;
    while j < game.moves.len()
        invariant
            j <= game.moves.len(),
            moves@ == game.moves@.take(j as int),
        decreases game.moves.len() - j,
    {
        moves.push(game.moves[j].clone());
        assert(game.moves@.take(j + 1) =~= game.moves@.take(j as int).push(game.moves@[j as int]));
        j += 1;
    }
    assert(game.moves@.take(game.moves.len() as int) =~= game.moves@);
    let result = match &game.result {
        Some(r) => Some(r.clone()),
        None => None,
    };
    PgnGame { tags, moves, result }
}

/// Reconstructs a game (see `spec_reconstruct`); `None` where the replay
/// fails midway, on a SAN token whose reading fails (see
/// `san_reading_fails`) or on a move counter that would overflow.
pub fn reconstruct_game_checked(game: &PgnGame) -> (r: Option<Result<GameRecord, PgnError>>)
    requires
        game.wf(),
    ensures
        r is None <==> spec_reconstruct(game@) is Panics,
        r matches Some(x) ==> reconstruct_result_is(*game, x),
{
    let fen_text = match game.tag("FEN") {
        Some(f) => f,
        None => String::from_str(OFFICIAL_STARTPOS_FEN),
    };
    assert(fen_text@ == start_fen(game@));
    let mut position = match parse_fen(fen_text.as_str()) {
        Ok(p) => p,
        Err(e) => {
            proof {
                let f = spec_parse_fen(fen_text@)->Failed_0;
                lemma_fen_error_message(e, f);
            }
            return Some(Err(PgnError::InvalidInitialFen(e.to_string())));
        },
    };
    let ghost start = position@;
    let ghost sans = game@.moves;
    let mut plies: Vec<ChessMove> = Vec::new();
    assert(plies_applicable(start, plies@));
    let mut legal_buf: Vec<ChessMove> = Vec::new();
    let mut idx: usize = 0;
    while idx < game.moves.len()
        invariant
            idx <= game.moves.len(),
            sans == game@.moves,
            sans.len() == game.moves@.len(),
            spec_parse_fen(start_fen(game@)) == FenOutcome::Parsed(start),
            replay_from(start, sans, 0) == prepend_plies(plies@, replay_from(position@, sans, idx as int)),
            position@ == position_after(start, plies@),
            plies_applicable(start, plies@),
        decreases game.moves.len() - idx,
    {
        generate_legal_moves_into(&position, &mut legal_buf);
        let san = game.moves[idx].as_str();
        assert(san@ == sans[idx as int]);
        if san_reading_fails_exec(san) {
            assert(replay_from(position@, sans, idx as int) is Panics);
            return None;
        }
        let ghost pos = position@;
        let ghost legal = legal_buf@;
        assert(resolve_san_runs(legal_buf@, san@)) by {
            assert forall|k: int| 0 <= k < legal.len() implies (#[trigger] legal[k]).from.0 < 64 by {
                assert(move_applicable(pos, legal[k]));
            }
        }
        match resolve_san(&position, legal_buf.as_slice(), san) {
            None => {
                return Some(
                    Err(
                        PgnError::Replay(
                            ReplayError {
                                ply_index: idx + 1,
                                san: game.moves[idx].clone(),
                                message: String::from_str("could not resolve SAN to a legal move"),
                            },
                        ),
                    ),
                );
            },
            Some(mv) => {
                proof {
                    lemma_resolved_is_listed(pos, legal, san@);
                    let k = choose|k: int| 0 <= k < legal.len() && legal[k] == mv;
                    assert(move_applicable(pos, legal[k]));
                }
                if !counters_fit_exec(&position, mv) {
                    return None;
                }
                proof {
                    lemma_plies_push(start, plies@, mv);
                }
                apply_move(&mut position, mv);
                let ghost before = plies@;
                plies.push(mv);
                assert(before + (seq![mv] + Seq::<ChessMove>::empty()) =~= plies@);
                proof {
                    match replay_from(position@, sans, idx + 1) {
                        ReplayOutcome::Done(p, rest) => {
                            assert(before + (seq![mv] + rest) =~= plies@ + rest);
                        },
                        _ => {},
                    }
                }
            },
        }
        idx += 1;
    }
    let record = GameRecord { game: copy_game(game), position, plies };
    assert(plies@ + Seq::<ChessMove>::empty() =~= plies@);
    assert(record.game@ == game@) by {
        assert(record.game@.tags =~= game@.tags);
        assert(record.game@.moves =~= game@.moves);
    }
    Some(Ok(record))
}

/// Reconstructs a game: reads its starting FEN and replays its SAN moves
/// (see `spec_reconstruct`), for a game whose reading does not fail midway.
pub fn reconstruct_game(game: &PgnGame) -> (r: Result<GameRecord, PgnError>)
    requires
        game.wf(),
        !(spec_reconstruct(game@) is Panics),
    ensures
        reconstruct_result_is(*game, r),
{
    match reconstruct_game_checked(game) {
        Some(r) => r,
        None => Err(PgnError::Parse(String::new())),
    }
}

/// Move `k` of `ms` is the move that SAN token `sans[i + k]` names among the
/// legal moves of the position the first `k` moves of `ms` lead to from `pos`.
pub open spec fn names_ply(pos: PositionModel, ms: Seq<ChessMove>, sans: Seq<Seq<char>>, i: int, k: int) -> bool {
    let here = position_after(pos, ms.take(k));
    spec_resolve_san(here, spec_legal_moves(here), sans[i + k]) == Some(ms[k])
}

/// A finished replay from index `i`: one move per remaining SAN token, each
/// the move its token names among the legal moves where it is played, and
/// the final position is where those moves lead.
pub proof fn lemma_replay_steps(pos: PositionModel, sans: Seq<Seq<char>>, i: int)
    requires
        0 <= i <= sans.len(),
        replay_from(pos, sans, i) is Done,
    ensures
        replay_from(pos, sans, i)->Done_1.len() == sans.len() - i,
        position_after(pos, replay_from(pos, sans, i)->Done_1) == replay_from(pos, sans, i)->Done_0,
        forall|k: int|
            0 <= k < sans.len() - i ==> #[trigger] names_ply(pos, replay_from(pos, sans, i)->Done_1, sans, i, k),
    decreases sans.len() - i,
{
    let ms = replay_from(pos, sans, i)->Done_1;
    if i < sans.len() {
        let mv = spec_resolve_san(pos, spec_legal_moves(pos), sans[i])->0;
        let next = spec_apply(pos, mv);
        lemma_replay_steps(next, sans, i + 1);
        let rest = replay_from(next, sans, i + 1)->Done_1;
        assert(ms == seq![mv] + rest);
        assert(ms[0] == mv);
        assert(ms.drop_first() =~= rest);
        assert(position_after(pos, ms) == position_after(next, rest));
        assert forall|k: int| 0 <= k < sans.len() - i implies #[trigger] names_ply(pos, ms, sans, i, k) by {
            if k == 0 {
                assert(ms.take(0) =~= Seq::<ChessMove>::empty());
            } else {
                assert(names_ply(next, rest, sans, i + 1, k - 1));
                assert(ms[k] == rest[k - 1]);
                assert(ms.take(k)[0] == mv);
                assert(ms.take(k).drop_first() =~= rest.take(k - 1));
                assert(position_after(pos, ms.take(k)) == position_after(next, rest.take(k - 1)));
                assert(sans[i + k] == sans[(i + 1) + (k - 1)]);
            }
        }
    } else {
        assert(ms =~= Seq::<ChessMove>::empty());
    }
}

/// Reconstructing a game gives one move per SAN token, each the legal move
/// its token names in the position where it is played (starting from the
/// game's FEN), and ends in the position those moves lead to.
pub proof fn lemma_reconstruct_steps(g: GameModel)
    requires
        spec_reconstruct(g) is Record,
    ensures
        spec_reconstruct(g)->Record_1.len() == g.moves.len(),
        position_after(spec_parse_fen(start_fen(g))->Parsed_0, spec_reconstruct(g)->Record_1)
            == spec_reconstruct(g)->Record_0,
        forall|k: int|
            0 <= k < g.moves.len() ==> #[trigger] names_ply(
                spec_parse_fen(start_fen(g))->Parsed_0,
                spec_reconstruct(g)->Record_1,
                g.moves,
                0,
                k,
            ),
{
    let start = spec_parse_fen(start_fen(g))->Parsed_0;
    lemma_replay_steps(start, g.moves, 0);
}

} // verus!
