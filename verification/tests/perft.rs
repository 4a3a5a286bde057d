use ply::fen::{parse_fen, STARTPOS_FEN};
use ply::perft::{perft, perft_checked, perft_divide};

#[test]
fn perft_start_position_matches_known_counts() {
    let pos = parse_fen(STARTPOS_FEN).expect("start position should parse");
    assert_eq!(perft(&pos, 1), 20);
    assert_eq!(perft(&pos, 2), 400);
    assert_eq!(perft(&pos, 3), 8_902);
}

#[test]
fn perft_kiwipete_position_matches_known_counts() {
    let fen = "r3k2r/p1ppqpb1/bn2pnp1/3PN3/1p2P3/2N2Q1p/PPPBBPPP/R3K2R w KQkq - 0 1";
    let pos = parse_fen(fen).expect("kiwipete should parse");
    assert_eq!(perft(&pos, 1), 48);
    assert_eq!(perft(&pos, 2), 2_039);
}

#[test]
fn perft_en_passant_stress_position_matches_known_counts() {
    let fen = "8/2p5/3p4/KP5r/1R3p1k/8/4P1P1/8 w - - 0 1";
    let pos = parse_fen(fen).expect("position should parse");
    assert_eq!(perft(&pos, 1), 14);
    assert_eq!(perft(&pos, 2), 191);
}

#[test]
fn perft_depth_zero_is_one_node() {
    let pos = parse_fen(STARTPOS_FEN).expect("parse");
    assert_eq!(perft(&pos, 0), 1);
    assert!(perft_divide(&pos, 0).is_empty());
}

#[test]
fn perft_divide_adds_up_to_perft() {
    let pos = parse_fen(STARTPOS_FEN).expect("parse");
    let divided = perft_divide(&pos, 3);
    assert_eq!(divided.len(), 20);
    let total: u64 = divided.iter().map(|(_, n)| *n).sum();
    assert_eq!(total, perft(&pos, 3));
    let e2e4 = divided.iter().find(|(m, _)| m.to_coordinate() == "e2e4").expect("e2e4");
    assert_eq!(e2e4.1, 600);
}

#[test]
fn perft_ignores_move_counters() {
    let a = parse_fen("4k3/8/8/8/8/8/8/4K3 b - - 0 1").expect("parse");
    let b = parse_fen("4k3/8/8/8/8/8/8/4K3 b - - 4294967295 4294967295").expect("parse");
    assert_eq!(perft(&a, 3), perft(&b, 3));
    assert_eq!(perft_checked(&b, 2), Some(perft(&a, 2)));
}

#[test]
fn checkmated_side_has_no_moves() {
    let pos = parse_fen("rnb1kbnr/pppp1ppp/8/4p3/6Pq/5P2/PPPPP2P/RNBQKBNR w KQkq - 1 3").expect("parse");
    assert_eq!(perft(&pos, 1), 0);
}
