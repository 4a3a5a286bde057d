use ply::board::{ChessMove, Square};
use ply::export::to_json_summary;
use ply::fen::{parse_fen, STARTPOS_FEN};
use ply::movegen::generate_legal_moves;
use ply::opening::classify_opening;
use ply::pgn::{parse_pgn, reconstruct_game};
use ply::render::{
    render_fen, render_perft, render_summaries, render_validate, FenOutput, PerftOutput, SummariesOutput,
    SummaryEntry, ValidateFailure, ValidateOutput,
};
use ply::san::{move_to_san, resolve_san, san_reading_fails_exec};
use ply::stats::summarize_game;

fn find(fen: &str, coord: &str) -> (ply::board::Position, ChessMove) {
    let pos = parse_fen(fen).expect("parse");
    let mv = generate_legal_moves(&pos).into_iter().find(|m| m.to_coordinate() == coord).expect("legal");
    (pos, mv)
}

fn resolved(fen: &str, san: &str) -> Option<String> {
    let pos = parse_fen(fen).expect("parse");
    let legal = generate_legal_moves(&pos);
    resolve_san(&pos, &legal, san).map(|m| m.to_coordinate())
}

#[test]
fn move_to_san_writes_each_kind_of_move() {
    let (pos, mv) = find(STARTPOS_FEN, "e2e4");
    assert_eq!(move_to_san(&pos, mv), "e4");
    let (pos, mv) = find(STARTPOS_FEN, "g1f3");
    assert_eq!(move_to_san(&pos, mv), "Nf3");
    let (pos, mv) = find("rnbqkbnr/pppp1ppp/8/4p3/6P1/5P2/PPPPP2P/RNBQKBNR b KQkq g3 0 2", "d8h4");
    assert_eq!(move_to_san(&pos, mv), "Qh4#");
    let (pos, mv) = find("4k3/8/8/8/8/8/8/R3K3 w - - 0 1", "a1a8");
    assert_eq!(move_to_san(&pos, mv), "Ra8+");
    let (pos, mv) = find("4k3/8/8/3p4/4P3/8/8/4K3 w - - 0 1", "e4d5");
    assert_eq!(move_to_san(&pos, mv), "exd5");
    let (pos, mv) = find("8/P3k3/8/8/8/8/8/4K3 w - - 0 1", "a7a8q");
    assert_eq!(move_to_san(&pos, mv), "a8=Q");
    let (pos, mv) = find("r3k2r/8/8/8/8/8/8/R3K2R w KQkq - 0 1", "e1g1");
    assert_eq!(move_to_san(&pos, mv), "O-O");
    let (pos, mv) = find("r3k2r/8/8/8/8/8/8/R3K2R w KQkq - 0 1", "e1c1");
    assert_eq!(move_to_san(&pos, mv), "O-O-O");
}

#[test]
fn resolve_san_finds_moves() {
    assert_eq!(resolved(STARTPOS_FEN, "e4").as_deref(), Some("e2e4"));
    assert_eq!(resolved(STARTPOS_FEN, "Nf3+").as_deref(), Some("g1f3"));
    assert_eq!(resolved(STARTPOS_FEN, " Nc3!? ").as_deref(), Some("b1c3"));
    assert_eq!(resolved(STARTPOS_FEN, "e5"), None);
    assert_eq!(resolved(STARTPOS_FEN, "O-O"), None);
    assert_eq!(resolved(STARTPOS_FEN, "xx"), None);
    let castles = "r3k2r/8/8/8/8/8/8/R3K2R w KQkq - 0 1";
    assert_eq!(resolved(castles, "O-O").as_deref(), Some("e1g1"));
    assert_eq!(resolved(castles, "0-0-0").as_deref(), Some("e1c1"));
    assert_eq!(resolved("4k3/8/8/3p4/4P3/8/8/4K3 w - - 0 1", "exd5").as_deref(), Some("e4d5"));
    assert_eq!(resolved("8/P3k3/8/8/8/8/8/4K3 w - - 0 1", "a8=N").as_deref(), Some("a7a8n"));
    assert_eq!(resolved("8/P3k3/8/8/8/8/8/4K3 w - - 0 1", "a8").as_deref(), None);
}

#[test]
fn resolve_san_uses_disambiguation() {
    let knights = "4k3/8/8/8/8/8/8/1N2KN2 w - - 0 1";
    assert_eq!(resolved(knights, "Nbd2").as_deref(), Some("b1d2"));
    assert_eq!(resolved(knights, "Nfd2").as_deref(), Some("f1d2"));
    assert_eq!(resolved(knights, "Nd2").as_deref(), Some("b1d2"));
    let rooks = "4k3/R7/8/8/8/8/8/R3K3 w - - 0 1";
    assert_eq!(resolved(rooks, "R1a4").as_deref(), Some("a1a4"));
    assert_eq!(resolved(rooks, "R7a4").as_deref(), Some("a7a4"));
    assert_eq!(resolved(rooks, "Ra1a4").as_deref(), Some("a1a4"));
}

#[test]
fn san_reading_failure_is_detected() {
    assert!(san_reading_fails_exec("Qe4\u{e9}5"));
    assert!(!san_reading_fails_exec("Qe4"));
    assert!(!san_reading_fails_exec("O-O"));
    assert!(!san_reading_fails_exec("\u{e9}"));
}

#[test]
fn opening_table_prefers_the_longest_line() {
    let line = |sans: &str| {
        let game = parse_pgn(sans).expect("parse").pop().expect("game");
        reconstruct_game(&game).expect("reconstruct").plies
    };
    let info = classify_opening(&line("1. d4 d5 2. c4 dxc4 *")).expect("opening");
    assert_eq!(info.opening, "Queen's Gambit Accepted");
    assert_eq!(info.eco, "D20");
    let info = classify_opening(&line("1. d4 d5 2. c4 Nf6 *")).expect("opening");
    assert_eq!(info.opening, "Queen's Gambit");
    let info = classify_opening(&line("1. e4 c5 *")).expect("opening");
    assert_eq!(info.eco, "B20");
    let info = classify_opening(&line("1. e3 *")).expect("opening");
    assert_eq!(info.opening, "Van't Kruijs Opening");
    assert_eq!(info.variation, None);
    assert!(classify_opening(&line("1. a3 *")).is_none());
    assert!(classify_opening(&[]).is_none());
    assert!(classify_opening(&[ChessMove::new(Square(12), Square(28))]).is_none());
}

#[test]
fn render_validate_lists_failures() {
    let out = ValidateOutput {
        validated_games: 3,
        valid: 2,
        invalid: 1,
        failures: vec![ValidateFailure { game_index: 2, message: "bad".to_string() }],
    };
    assert_eq!(render_validate(&out), "validated games: 3\nvalid: 2\ninvalid: 1\n\nfailures:\n  game 2: bad\n");
    let out = ValidateOutput { validated_games: 0, valid: 0, invalid: 0, failures: vec![] };
    assert_eq!(render_validate(&out), "validated games: 0\nvalid: 0\ninvalid: 0\n");
}

#[test]
fn render_fen_and_perft_reports() {
    let out = FenOutput { normalized_fen: "x".to_string(), legal_moves: vec!["a2a3".to_string(), "b2b3".to_string()] };
    assert_eq!(render_fen(&out), "normalized_fen: x\nlegal_moves (2): a2a3 b2b3\n");
    let out = FenOutput { normalized_fen: "y".to_string(), legal_moves: vec![] };
    assert_eq!(render_fen(&out), "normalized_fen: y\n");
    let out = PerftOutput {
        depth: 2,
        nodes: 400,
        elapsed_ms: 12,
        nps: 33333,
        divide: Some(vec![("e2e4".to_string(), 20), ("d2d4".to_string(), 20)]),
    };
    assert_eq!(render_perft(&out), "depth: 2\nnodes: 400\nelapsed_ms: 12\nnps: 33333\ne2e4: 20\nd2d4: 20\n");
}

#[test]
fn render_summaries_and_json_summary() {
    let input = "[Event \"Opening\"]\n[White \"W\"]\n[Black \"B\"]\n\n1. e4 e5 2. Nf3 Nc6 3. Bb5 1-0\n";
    let game = parse_pgn(input).expect("parse").pop().expect("game");
    let summary = summarize_game(&reconstruct_game(&game).expect("reconstruct"));
    let json = to_json_summary(&summary);
    assert_eq!(json.winner.as_deref(), Some("white"));
    assert_eq!(json.plies, 5);
    assert_eq!(json.event.as_deref(), Some("Opening"));
    let out = SummariesOutput {
        entries: vec![
            SummaryEntry::Valid { index: 1, summary },
            SummaryEntry::Invalid { index: 2, error: "oops".to_string() },
        ],
    };
    assert_eq!(
        render_summaries(&out),
        "1. W vs B | result=1-0 | plies=5 | opening=Ruy Lopez | eco=C60\n2. invalid game: oops\n"
    );
}

#[test]
fn san_written_then_read_gives_the_move_back() {
    let fens = [
        STARTPOS_FEN,
        "r3k2r/p1ppqpb1/bn2pnp1/3PN3/1p2P3/2N2Q1p/PPPBBPPP/R3K2R w KQkq - 0 1",
        "8/P3k3/8/8/8/8/8/4K3 w - - 0 1",
        "4k3/8/8/3pP3/8/8/8/4K3 w - d6 0 1",
    ];
    for fen in fens {
        let pos = parse_fen(fen).expect("parse");
        let legal = generate_legal_moves(&pos);
        for m in &legal {
            let rivals = legal.iter().filter(|a| {
                *a != m
                    && match m.castle {
                        Some(side) => a.castle == Some(side),
                        None => {
                            a.to == m.to
                                && a.promotion == m.promotion
                                && pos.piece_at(a.from).map(|p| p.kind) == pos.piece_at(m.from).map(|p| p.kind)
                        }
                    }
            });
            if rivals.count() == 0 {
                let san = move_to_san(&pos, *m);
                assert_eq!(resolve_san(&pos, &legal, &san), Some(*m), "{}", san);
            }
        }
    }
}
