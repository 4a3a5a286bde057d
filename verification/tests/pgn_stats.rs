use ply::pgn::{
    color_from_result, parse_game_chunk, parse_pgn, reconstruct_game, reconstruct_game_checked, GameSplitter,
    PgnError,
};
use ply::board::Color;
use ply::stats::{
    aggregate_record_stats, aggregate_stats, summarize_games, summarize_raw_game, AggregateStatsAccumulator,
};

const SAMPLE: &str = "[Event \"Miniature\"]\n[Site \"?\"]\n[White \"WhitePlayer\"]\n[Black \"BlackPlayer\"]\n[Result \"1-0\"]\n\n1. e4 e5 2. Bc4 Nc6 3. Qh5 Nf6 4. Qxf7# 1-0\n\n[Event \"Theory\"]\n[White \"Alpha\"]\n[Black \"Beta\"]\n[Result \"1/2-1/2\"]\n\n1. d4 d5 2. c4 e6 3. Nc3 Nf6 4. Bg5 Be7 1/2-1/2\n";

fn count(entries: &[(String, usize)], key: &str) -> Option<usize> {
    entries.iter().find(|(k, _)| k == key).map(|(_, c)| *c)
}

#[test]
fn invalid_initial_fen_error_is_human_readable() {
    let input = "[Event \"BadFen\"]\n[FEN \"8/8/8/8/8/8/8/8 w - - 0 1\"]\n\n1. e4 *\n";
    let game = parse_pgn(input).expect("parse").pop().expect("game");
    let err = reconstruct_game(&game).expect_err("should fail");
    assert!(err.to_string().contains("invalid initial FEN"));
}

#[test]
fn parse_and_reconstruct_fixture_games() {
    let games = parse_pgn(SAMPLE).expect("valid pgn");
    assert_eq!(games.len(), 2);
    assert_eq!(games[0].tag("White").as_deref(), Some("WhitePlayer"));
    assert_eq!(games[0].result.as_deref(), Some("1-0"));
    assert_eq!(games[0].moves, vec!["e4", "e5", "Bc4", "Nc6", "Qh5", "Nf6", "Qxf7#"]);
    let records = games.iter().map(reconstruct_game).collect::<Result<Vec<_>, _>>().expect("reconstruct");
    assert_eq!(records[0].plies.len(), 7);
    assert_eq!(records[1].plies.len(), 8);
    assert_eq!(
        ply::fen::to_fen(&records[1].position),
        "rnbqk2r/ppp1bppp/4pn2/3p2B1/2PP4/2N5/PP2PPPP/R2QKBNR w KQkq - 4 5"
    );
}

#[test]
fn aggregate_stats_from_fixture_games() {
    let games = parse_pgn(SAMPLE).expect("valid pgn");
    let records = games.iter().map(reconstruct_game).collect::<Result<Vec<_>, _>>().expect("reconstruct");
    let summaries = summarize_games(&records);
    let stats = aggregate_record_stats(&records);
    assert_eq!(stats.games, 2);
    assert_eq!(stats.white_wins, 1);
    assert_eq!(stats.draws, 1);
    assert_eq!(stats.black_wins, 0);
    assert_eq!(stats.unresolved, 0);
    assert_eq!(stats.total_plies, 15);
    assert_eq!(stats.total_plies as f64 / stats.games as f64, 7.5);
    assert_eq!(count(&stats.white_first_moves, "e4"), Some(1));
    assert_eq!(count(&stats.white_first_moves, "d4"), Some(1));
    assert_eq!(count(&stats.black_first_moves, "e5"), Some(1));
    assert_eq!(count(&stats.black_first_moves, "d5"), Some(1));
    assert_eq!(count(&stats.opening_frequencies, "Queen's Gambit Declined"), Some(1));
    assert_eq!(stats.games_with_kingside_castle, 0);
    assert_eq!(stats.games_with_queenside_castle, 0);
    assert_eq!(stats.games_with_no_castling, 2);
    assert_eq!(stats.total_captures, 1);
    assert_eq!(stats.total_checks, 1);
    assert_eq!(stats.total_promotions, 0);
    assert_eq!(stats.white_wins_plies, 7);
    assert_eq!(stats.draws_plies, 8);
    assert_eq!(stats.black_wins_plies, 0);
    let games = stats.games as f64;
    assert_eq!(stats.total_captures as f64 / games, 0.5);
    assert_eq!(stats.total_checks as f64 / games, 0.5);
    assert_eq!(stats.total_promotions as f64 / games, 0.0);
    assert_eq!(stats.white_wins_plies as f64 / stats.white_wins as f64, 7.0);
    assert_eq!(stats.draws_plies as f64 / stats.draws as f64, 8.0);
    assert_eq!(stats.black_wins, 0);
    assert_eq!(stats.unresolved, 0);
    assert_eq!(summaries.len(), 2);
    let from_summaries = aggregate_stats(&summaries);
    assert_eq!(from_summaries.games, 2);
    assert_eq!(from_summaries.total_plies, 15);
    assert_eq!(from_summaries.total_captures, 0);
    assert_eq!(count(&from_summaries.opening_frequencies, "Queen's Gambit Declined"), Some(1));
    // The first-move maps are ordered by name.
    assert_eq!(stats.white_first_moves[0].0, "d4");
    assert_eq!(stats.white_first_moves[1].0, "e4");
}

#[test]
fn accumulator_counts_records_one_by_one() {
    let games = parse_pgn(SAMPLE).expect("valid pgn");
    let mut acc = AggregateStatsAccumulator::default();
    for g in &games {
        let rec = reconstruct_game(g).expect("reconstruct");
        assert!(acc.has_room(rec.plies.len()));
        let summary = ply::stats::summarize_game(&rec);
        acc.push_record_with_summary(&rec, &summary);
    }
    let stats = acc.finish();
    assert_eq!(stats.games, 2);
    assert_eq!(stats.total_checks, 1);
}

#[test]
fn summaries_carry_tags_result_and_winner() {
    let games = parse_pgn(SAMPLE).expect("valid pgn");
    let rec = reconstruct_game(&games[0]).expect("reconstruct");
    let s = ply::stats::summarize_game(&rec);
    assert_eq!(s.event.as_deref(), Some("Miniature"));
    assert_eq!(s.white.as_deref(), Some("WhitePlayer"));
    assert_eq!(s.black.as_deref(), Some("BlackPlayer"));
    assert_eq!(s.result.as_deref(), Some("1-0"));
    assert_eq!(s.winner, Some(Color::White));
    assert_eq!(s.plies, 7);
    assert_eq!(s.opening, None);
    let raw = summarize_raw_game(&games[1]);
    assert_eq!(raw.plies, 8);
    assert_eq!(raw.winner, None);
    assert_eq!(raw.eco, None);
}

#[test]
fn result_tag_stands_in_for_missing_result_token() {
    let input = "[Event \"E\"]\n[Result \"0-1\"]\n\n1. f3 e5 2. g4 Qh4#\n";
    let game = parse_pgn(input).expect("parse").pop().expect("game");
    assert_eq!(game.result, None);
    let rec = reconstruct_game(&game).expect("reconstruct");
    let s = ply::stats::summarize_game(&rec);
    assert_eq!(s.result.as_deref(), Some("0-1"));
    assert_eq!(s.winner, Some(Color::Black));
    let raw = summarize_raw_game(&game);
    assert_eq!(raw.result.as_deref(), Some("0-1"));
    assert_eq!(raw.winner, None);
}

#[test]
fn color_from_result_reads_decisive_results() {
    assert_eq!(color_from_result(Some(&"1-0".to_string())), Some(Color::White));
    assert_eq!(color_from_result(Some(&"0-1".to_string())), Some(Color::Black));
    assert_eq!(color_from_result(Some(&"1/2-1/2".to_string())), None);
    assert_eq!(color_from_result(None), None);
}

#[test]
fn tag_line_errors_are_reported() {
    let cases = [
        ("[Event \"x\"\n1. e4", "PGN parse error: invalid tag line: [Event \"x\""),
        ("[]\n1. e4", "PGN parse error: missing tag key: []"),
        ("[Event]\n1. e4", "PGN parse error: missing tag value: [Event]"),
        ("[ \"x\"]\n1. e4", "PGN parse error: missing tag key: [ \"x\"]"),
        ("[Event x]\n1. e4", "PGN parse error: invalid tag value: [Event x]"),
        ("[Event \"]\n1. e4", "PGN parse error: invalid tag value: [Event \"]"),
    ];
    for (input, message) in cases {
        let err = parse_pgn(input).unwrap_err();
        assert!(matches!(err, PgnError::Parse(_)));
        assert_eq!(err.to_string(), message);
    }
}

#[test]
fn movetext_comments_variations_and_numbers_are_dropped() {
    let input = "[Event \"C\"]\n\n1. e4 {best by test} e5 (1... c5 2. Nf3 (2. c3)) 2. Nf3$ Nc6 3... a6 *\n";
    let game = parse_pgn(input).expect("parse").pop().expect("game");
    assert_eq!(game.moves, vec!["e4", "e5", "Nf3", "Nc6", "a6"]);
    assert_eq!(game.result.as_deref(), Some("*"));
    // A `;` comment ends with its line.
    let input = "1. d4 ; rest of line ignored\nd5 1-0\n";
    let game = parse_pgn(input).expect("parse").pop().expect("game");
    assert_eq!(game.moves, vec!["d4", "d5"]);
    assert_eq!(game.result.as_deref(), Some("1-0"));
    let input = "[Event \"E\"]\n\n1. e4 ; good move\ne5 2. Nf3 *\n";
    let games = parse_pgn(input).expect("parse");
    assert_eq!(games.len(), 1);
    assert_eq!(games[0].moves, vec!["e4", "e5", "Nf3"]);
    assert_eq!(games[0].result.as_deref(), Some("*"));
    // A `{}` comment may span lines.
    let input = "1. c4 {a long\ncomment} c5 *\n";
    let game = parse_pgn(input).expect("parse").pop().expect("game");
    assert_eq!(game.moves, vec!["c4", "c5"]);
}

#[test]
fn later_tag_of_the_same_name_wins() {
    let input = "[Event \"A\"]\n[Site \"x\"]\n[Site \"y\"]\n\n1. e4 *\n";
    let game = parse_pgn(input).expect("parse").pop().expect("game");
    assert_eq!(game.tag("Site").as_deref(), Some("y"));
    assert_eq!(game.tags.len(), 2);
    assert_eq!(game.tags[0].0, "Event");
    assert_eq!(game.tags[1].0, "Site");
}

#[test]
fn games_split_at_event_tags() {
    let input = "\n\n[Event \"1\"]\n1. e4 *\n   [Event \"2\"]\r\n1. d4 *\n[Event \"3\"]\n";
    let games = parse_pgn(input).expect("parse");
    assert_eq!(games.len(), 3);
    assert_eq!(games[1].tag("Event").as_deref(), Some("2"));
    assert_eq!(games[2].moves.len(), 0);
    assert!(parse_pgn("").expect("parse").is_empty());
    assert!(parse_pgn("  \n \n").expect("parse").is_empty());
}

#[test]
fn splitter_hands_out_game_texts() {
    let mut sp = GameSplitter::new();
    assert_eq!(sp.push_line("[Event \"1\"]"), None);
    assert_eq!(sp.push_line("1. e4 *"), None);
    assert_eq!(sp.push_line("[Event \"2\"]").as_deref(), Some("[Event \"1\"]\n1. e4 *\n"));
    assert_eq!(sp.finish().as_deref(), Some("[Event \"2\"]\n"));
    let game = parse_game_chunk("  [Event \"2\"]\n 1. c4 *  \n").expect("parse");
    assert_eq!(game.moves, vec!["c4"]);
}

#[test]
fn unresolvable_san_is_reported_with_its_ply() {
    let input = "[Event \"Bad\"]\n\n1. e4 e5 2. Ke3 *\n";
    let game = parse_pgn(input).expect("parse").pop().expect("game");
    match reconstruct_game(&game) {
        Err(PgnError::Replay(e)) => {
            assert_eq!(e.ply_index, 3);
            assert_eq!(e.san, "Ke3");
            assert_eq!(e.to_string(), "ply 3 `Ke3`: could not resolve SAN to a legal move");
        }
        other => panic!("unexpected {:?}", other),
    }
}

#[test]
fn reconstruct_uses_fen_tag() {
    let input = "[FEN \"4k3/8/8/8/8/8/4P3/4K3 w - - 0 1\"]\n\n1. e4 Kd7 2. e5 *\n";
    let game = parse_pgn(input).expect("parse").pop().expect("game");
    let rec = reconstruct_game(&game).expect("reconstruct");
    assert_eq!(ply::fen::to_fen(&rec.position), "8/3k4/8/4P3/8/8/8/4K3 b - - 0 2");
    assert_eq!(rec.game.moves, game.moves);
}

#[test]
fn checked_reconstruction_reports_what_would_fail() {
    let input = "[FEN \"4k3/8/8/8/8/8/8/4K3 b - - 0 4294967295\"]\n\n1... Kd7 2. Kd2 *\n";
    let game = parse_pgn(input).expect("parse").pop().expect("game");
    assert!(reconstruct_game_checked(&game).is_none());
    let ok = parse_pgn("1. e4 *").expect("parse").pop().expect("game");
    assert!(matches!(reconstruct_game_checked(&ok), Some(Ok(_))));
    let bad = parse_pgn("1. Nz9 *").expect("parse").pop().expect("game");
    assert!(matches!(reconstruct_game_checked(&bad), Some(Err(PgnError::Replay(_)))));
}

fn stream_games(input: &str) -> Vec<Result<ply::pgn::PgnGame, PgnError>> {
    let mut splitter = GameSplitter::new();
    let mut out = Vec::new();
    for line in input.lines() {
        if let Some(chunk) = splitter.push_line(line) {
            out.push(parse_game_chunk(&chunk));
        }
    }
    if let Some(chunk) = splitter.finish() {
        out.push(parse_game_chunk(&chunk));
    }
    out
}

#[test]
fn pgn_reader_streams_fixture_games() {
    let games = stream_games(SAMPLE).into_iter().collect::<Result<Vec<_>, _>>().expect("games should parse");
    assert_eq!(games.len(), 2);
}

#[test]
fn parse_pgn_reader_matches_parse_pgn() {
    let parsed = parse_pgn(SAMPLE).expect("valid pgn");
    let streamed = stream_games(SAMPLE).into_iter().collect::<Result<Vec<_>, _>>().expect("valid pgn");
    assert_eq!(parsed.len(), streamed.len());
    assert_eq!(parsed[0].moves, streamed[0].moves);
    assert_eq!(parsed[1].tags, streamed[1].tags);
}
