use ply::board::{Color, Piece, PieceKind, Position, Square};
use ply::fen::{parse_fen, to_fen, FenError, STARTPOS_FEN};
use ply::movegen::{
    apply_move, apply_move_with_undo, generate_legal_moves, generate_pseudo_legal_moves, is_in_check,
    is_square_attacked, undo_move,
};
use ply::pgn::{parse_pgn, reconstruct_game};

#[test]
fn fen_roundtrip_start_position() {
    let pos = parse_fen(STARTPOS_FEN).expect("parse");
    assert_eq!(to_fen(&pos), STARTPOS_FEN);
}

#[test]
fn start_position_has_20_legal_moves() {
    let pos = parse_fen(STARTPOS_FEN).expect("parse");
    let legal = generate_legal_moves(&pos);
    assert_eq!(legal.len(), 20);
}

#[test]
fn legal_movegen_handles_en_passant_target() {
    let fen = "rnbqkbnr/ppp2ppp/8/3pp3/4P3/8/PPPP1PPP/RNBQKBNR w KQkq d6 0 3";
    let pos = parse_fen(fen).expect("parse");
    let legal = generate_legal_moves(&pos);
    assert!(!legal.is_empty());
}

#[test]
fn fen_tracks_king_squares() {
    let pos = parse_fen(STARTPOS_FEN).expect("parse");
    assert_eq!(pos.white_king.to_algebraic(), "e1");
    assert_eq!(pos.black_king.to_algebraic(), "e8");
}

#[test]
fn apply_and_undo_move_restores_position() {
    let mut pos = parse_fen(STARTPOS_FEN).expect("parse");
    let original = pos.clone();
    let mv = generate_legal_moves(&pos)
        .into_iter()
        .find(|mv| mv.to_coordinate() == "e2e4")
        .expect("e2e4 should be legal");
    let undo = apply_move_with_undo(&mut pos, mv);
    undo_move(&mut pos, mv, undo);
    assert_eq!(pos, original);
}

#[test]
fn opening_classification_is_exposed_in_summary() {
    let input = "[Event \"Opening\"]\n[White \"W\"]\n[Black \"B\"]\n\n1. e4 e5 2. Nf3 Nc6 3. Bb5 1-0\n";
    let game = parse_pgn(input).expect("valid pgn").pop().expect("one game");
    let record = reconstruct_game(&game).expect("reconstruct");
    let summary = ply::stats::summarize_game(&record);
    assert_eq!(summary.opening.as_deref(), Some("Ruy Lopez"));
    assert_eq!(summary.eco.as_deref(), Some("C60"));
}

#[test]
fn fen_roundtrip_keeps_normalized_text() {
    let fens = [
        "r3k2r/p1ppqpb1/bn2pnp1/3PN3/1p2P3/2N2Q1p/PPPBBPPP/R3K2R w KQkq - 0 1",
        "8/2p5/3p4/KP5r/1R3p1k/8/4P1P1/8 w - - 0 1",
        "rnbqkbnr/ppp2ppp/8/3pp3/4P3/8/PPPP1PPP/RNBQKBNR w KQkq d6 0 3",
        "4k3/8/8/8/8/8/8/4K3 b - - 17 42",
    ];
    for fen in fens {
        let pos = parse_fen(fen).expect("parse");
        assert_eq!(to_fen(&pos), fen);
        let again = parse_fen(&to_fen(&pos)).expect("parse again");
        assert_eq!(again, pos);
    }
}

#[test]
fn fen_normalizes_whitespace_and_castling_order() {
    let pos = parse_fen("  4k3/8/8/8/8/8/8/4K3   w   -  -  0  1 ").expect("parse");
    assert_eq!(to_fen(&pos), "4k3/8/8/8/8/8/8/4K3 w - - 0 1");
    let pos = parse_fen("r3k2r/8/8/8/8/8/8/R3K2R w qkQK - 0 1").expect("parse");
    assert_eq!(to_fen(&pos), "r3k2r/8/8/8/8/8/8/R3K2R w KQkq - 0 1");
}

#[test]
fn fen_errors_name_each_field() {
    assert_eq!(parse_fen("8/8/8 w - - 0").unwrap_err(), FenError::InvalidFieldCount);
    assert_eq!(parse_fen("4k3/8/8/8/8/8/8/4K3 x - - 0 1").unwrap_err(), FenError::InvalidSideToMove);
    assert_eq!(parse_fen("4k3/8/8/8/8/8/8/4K3 w KX - 0 1").unwrap_err(), FenError::InvalidCastlingRights);
    assert_eq!(parse_fen("4k3/8/8/8/8/8/8/4K3 w - e9 0 1").unwrap_err(), FenError::InvalidEnPassant);
    assert_eq!(parse_fen("4k3/8/8/8/8/8/8/4K3 w - - x 1").unwrap_err(), FenError::InvalidHalfmoveClock);
    assert_eq!(parse_fen("4k3/8/8/8/8/8/8/4K3 w - - 0 0").unwrap_err(), FenError::InvalidFullmoveNumber);
    assert_eq!(parse_fen("4k3/8/8/8/8/8/8/4K3 w - - 0 -1").unwrap_err(), FenError::InvalidFullmoveNumber);
    match parse_fen("8/8/8/8/8/8/8/8 w - - 0 1").unwrap_err() {
        FenError::InvalidBoard(m) => assert!(!m.is_empty()),
        other => panic!("unexpected {:?}", other),
    }
    match parse_fen("4k3/8/8/8/8/8/8/4K2 w - - 0 1").unwrap_err() {
        FenError::InvalidBoard(_) => {}
        other => panic!("unexpected {:?}", other),
    }
    assert_eq!(FenError::InvalidFieldCount.to_string(), "FEN must have 6 fields");
    assert_eq!(FenError::InvalidSideToMove.to_string(), "invalid side to move");
    assert_eq!(FenError::InvalidBoard("x".to_string()).to_string(), "invalid board: x");
    assert_eq!(FenError::InvalidFullmoveNumber.to_string(), "invalid fullmove number");
}

#[test]
fn fen_halfmove_accepts_plus_sign_and_rejects_overflow() {
    let pos = parse_fen("4k3/8/8/8/8/8/8/4K3 w - - +5 1").expect("parse");
    assert_eq!(pos.halfmove_clock, 5);
    assert_eq!(
        parse_fen("4k3/8/8/8/8/8/8/4K3 w - - 4294967296 1").unwrap_err(),
        FenError::InvalidHalfmoveClock
    );
}

#[test]
fn fen_rank_digits_past_the_counter_are_an_invalid_board() {
    let fen = format!("{}/8/8/8/8/8/8/8 w - - 0 1", "8".repeat(33));
    match parse_fen(&fen).unwrap_err() {
        FenError::InvalidBoard(m) => assert_eq!(m, "file overflow"),
        other => panic!("unexpected {:?}", other),
    }
}

#[test]
fn fen_board_needs_a_king_of_each_side() {
    assert_eq!(
        parse_fen("8/8/8/8/8/8/8/4K3 w - - 0 1").unwrap_err(),
        FenError::InvalidBoard("missing black king".to_string())
    );
    assert_eq!(
        parse_fen("4k3/8/8/8/8/8/8/8 w - - 0 1").unwrap_err(),
        FenError::InvalidBoard("missing white king".to_string())
    );
    // Two kings of a side are accepted; the king field holds the lower square.
    let pos = parse_fen("4k3/8/8/8/8/8/8/K3K3 w - - 0 1").expect("parse");
    assert_eq!(pos.white_king, Square(0));
    assert_eq!(to_fen(&pos), "4k3/8/8/8/8/8/8/K3K3 w - - 0 1");
}

#[test]
fn pseudo_legal_includes_moves_into_check() {
    // The pinned knight on e2 has pseudo-legal moves but no legal ones.
    let pos = parse_fen("4r1k1/8/8/8/8/8/4N3/4K3 w - - 0 1").expect("parse");
    let pseudo = generate_pseudo_legal_moves(&pos);
    let legal = generate_legal_moves(&pos);
    assert!(pseudo.iter().any(|m| m.from == Square(12)));
    assert!(!legal.iter().any(|m| m.from == Square(12)));
    assert!(legal.len() < pseudo.len());
    for m in &legal {
        assert!(pseudo.contains(m));
    }
}

#[test]
fn check_and_attack_detection() {
    let pos = parse_fen("4k3/8/8/8/8/8/8/4KR2 b - - 0 1").expect("parse");
    assert!(!is_in_check(&pos, Color::Black));
    assert!(is_square_attacked(&pos, Square(61), Color::White));
    let pos = parse_fen("4k3/8/8/8/8/8/8/4R1K1 b - - 0 1").expect("parse");
    assert!(is_in_check(&pos, Color::Black));
    assert!(!is_in_check(&pos, Color::White));
}

#[test]
fn castling_and_en_passant_moves_are_generated() {
    let pos = parse_fen("r3k2r/8/8/8/8/8/8/R3K2R w KQkq - 0 1").expect("parse");
    let legal = generate_legal_moves(&pos);
    let names: Vec<String> = legal.iter().map(|m| m.to_coordinate()).collect();
    assert!(names.contains(&"e1g1".to_string()));
    assert!(names.contains(&"e1c1".to_string()));
    let pos = parse_fen("4k3/8/8/3pP3/8/8/8/4K3 w - d6 0 1").expect("parse");
    let ep = generate_legal_moves(&pos).into_iter().find(|m| m.is_en_passant).expect("en passant");
    assert_eq!(ep.to_coordinate(), "e5d6");
    let mut after = pos.clone();
    apply_move(&mut after, ep);
    assert_eq!(after.piece_at(Square(35)), None);
    assert_eq!(after.piece_at(Square(43)), Some(Piece { color: Color::White, kind: PieceKind::Pawn }));
}

#[test]
fn promotions_come_in_four_kinds() {
    let pos = parse_fen("8/P3k3/8/8/8/8/8/4K3 w - - 0 1").expect("parse");
    let promos: Vec<String> = generate_legal_moves(&pos)
        .iter()
        .filter(|m| m.promotion.is_some())
        .map(|m| m.to_coordinate())
        .collect();
    assert_eq!(promos.len(), 4);
    for p in ["a7a8q", "a7a8r", "a7a8b", "a7a8n"] {
        assert!(promos.contains(&p.to_string()));
    }
}

#[test]
fn apply_move_updates_counters_and_castling() {
    let mut pos = parse_fen("r3k2r/8/8/8/8/8/8/R3K2R w KQkq - 3 7").expect("parse");
    let castle = generate_legal_moves(&pos).into_iter().find(|m| m.to_coordinate() == "e1g1").unwrap();
    apply_move(&mut pos, castle);
    assert_eq!(to_fen(&pos), "r3k2r/8/8/8/8/8/8/R4RK1 b kq - 4 7");
    assert_eq!(pos.white_king, Square(6));
    let reply = generate_legal_moves(&pos).into_iter().find(|m| m.to_coordinate() == "e8c8").unwrap();
    apply_move(&mut pos, reply);
    assert_eq!(to_fen(&pos), "2kr3r/8/8/8/8/8/8/R4RK1 w - - 5 8");
}

#[test]
fn undo_restores_after_every_legal_move() {
    let fen = "r3k2r/p1ppqpb1/bn2pnp1/3PN3/1p2P3/2N2Q1p/PPPBBPPP/R3K2R w KQkq - 0 1";
    let start = parse_fen(fen).expect("parse");
    for mv in generate_legal_moves(&start) {
        let mut pos = start.clone();
        let undo = apply_move_with_undo(&mut pos, mv);
        undo_move(&mut pos, mv, undo);
        assert_eq!(pos, start);
    }
}

#[test]
fn square_and_position_helpers() {
    assert_eq!(Square::from_algebraic("e4"), Some(Square(28)));
    assert_eq!(Square::from_algebraic("i4"), None);
    assert_eq!(Square::from_coords(7, 7), Some(Square(63)));
    assert_eq!(Square::from_coords(8, 0), None);
    assert_eq!(Square(28).file(), 4);
    assert_eq!(Square(28).rank(), 3);
    let mut pos = Position::empty();
    assert_eq!(pos.king_square(Color::White), None);
    pos.set_piece(Square(4), Some(Piece { color: Color::White, kind: PieceKind::King }));
    assert_eq!(pos.king_square(Color::White), Some(Square(4)));
    assert_eq!(PieceKind::from_fen('q'), Some(PieceKind::Queen));
    assert_eq!(PieceKind::Knight.fen_char(Color::Black), 'n');
    assert_eq!(PieceKind::Pawn.san_char(), None);
    assert_eq!(Color::White.opposite(), Color::Black);
}
