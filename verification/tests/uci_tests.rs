use funken::chess::{Board, Move};
use funken::search::MATE;
use funken::uci::{apply_position, parse_go, parse_uci_move, pv_to_string, score_to_uci, Position, UciOptions};

#[test]
fn scores_in_uci_notation() {
    assert_eq!(score_to_uci(25), "cp 25");
    assert_eq!(score_to_uci(-40), "cp -40");
    assert_eq!(score_to_uci(0), "cp 0");
    assert_eq!(score_to_uci(MATE - 1), "mate 1");
    assert_eq!(score_to_uci(MATE - 3), "mate 2");
    assert_eq!(score_to_uci(-MATE + 2), "mate -1");
}

#[test]
fn pv_in_uci_notation() {
    let a = Move::quiet(12, 28);
    let b = Move::quiet(52, 36);
    assert_eq!(pv_to_string(&[a, b]), "e2e4 e7e5");
    assert_eq!(pv_to_string(&[]), "");
}

#[test]
fn go_with_clock() {
    let words = ["go", "wtime", "60000", "btime", "50000", "winc", "1000", "binc", "500", "movestogo", "20"];
    let (lim, sm) = parse_go(&words);
    assert_eq!(lim.wtime, Some(60000));
    assert_eq!(lim.btime, Some(50000));
    assert_eq!(lim.winc, Some(1000));
    assert_eq!(lim.binc, Some(500));
    assert_eq!(lim.movestogo, Some(20));
    assert_eq!(lim.movetime, None);
    assert!(!lim.infinite);
    assert!(sm.is_empty());
}

#[test]
fn go_depth_nodes_and_searchmoves() {
    let (lim, _) = parse_go(&["go", "depth", "7"]);
    assert_eq!(lim.depth, Some(7));
    let (lim, _) = parse_go(&["go", "depth", "300"]);
    assert_eq!(lim.depth, None);
    let (lim, _) = parse_go(&["go", "movetime"]);
    assert_eq!(lim.movetime, None);
    let (lim, _) = parse_go(&["go", "ponder"]);
    assert!(lim.infinite);
    let (lim, sm) = parse_go(&["go", "nodes", "1000", "searchmoves", "e2e4", "d2d4"]);
    assert_eq!(lim.nodes, Some(1000));
    assert_eq!(sm, vec!["e2e4".to_string(), "d2d4".to_string()]);
    let (lim, _) = parse_go(&["movetime", "+250"]);
    assert_eq!(lim.movetime, Some(250));
}

#[test]
fn position_startpos_with_moves() {
    let p = apply_position("position startpos").unwrap();
    assert_eq!(p.board.hash, Board::startpos().hash);
    assert!(p.history.is_empty());
    let p = apply_position("  position startpos moves e2e4 e7e5  ").unwrap();
    assert_eq!(p.history.len(), 2);
    assert_eq!(p.history[0], Board::startpos().hash);
    assert_eq!(p.board.to_fen(), "rnbqkbnr/pppp1ppp/8/4p3/4P3/8/PPPP1PPP/RNBQKBNR w KQkq e6 0 2");
    assert_eq!(p.board.hash, p.board.full_hash());
}

#[test]
fn position_fen_with_moves() {
    let p = apply_position("position fen 8/8/4k3/8/8/8/8/4K3 w - - 0 1 moves e1d1").unwrap();
    assert_eq!(p.board.to_fen(), "8/8/4k3/8/8/8/8/3K4 b - - 1 1");
    assert_eq!(p.history.len(), 1);
    let q = apply_position("position fen 8/8/4k3/8/8/8/8/4K3 w - -").unwrap();
    assert_eq!(q.board.to_fen(), "8/8/4k3/8/8/8/8/4K3 w - - 0 1");
}

#[test]
fn position_errors() {
    assert!(apply_position("position startpos moves e2e5").is_none());
    assert!(apply_position("position fen 8/8/8 w").is_none());
    assert!(apply_position("go depth 3").is_none());
    assert!(apply_position("position").is_none());
}

#[test]
fn moves_in_uci_notation_are_read() {
    let mut b = Board::startpos();
    let m = parse_uci_move(&mut b, "e2e4").unwrap();
    assert_eq!((m.from, m.to, m.promo), (12, 28, 0));
    assert!(m.double_push);
    assert!(parse_uci_move(&mut b, "e2e5").is_none());
    assert!(parse_uci_move(&mut b, "e2").is_none());
    assert!(parse_uci_move(&mut b, "i2i4").is_none());
    assert_eq!(b.hash, Board::startpos().hash);
    let mut p = Board::from_fen("1r5k/P6p/8/8/8/8/6PP/6K1 w - - 0 1").unwrap();
    let q = parse_uci_move(&mut p, "a7b8q").unwrap();
    assert_eq!(q.promo, 4);
    assert!(q.capture);
    assert!(parse_uci_move(&mut p, "a7a8x").is_none());
}

#[test]
fn default_options_and_position() {
    let o = UciOptions::default();
    assert_eq!(o.hash_mb, 64);
    assert_eq!(o.move_overhead_ms, 100);
    let p = Position::startpos();
    assert_eq!(p.board.to_fen(), "rnbqkbnr/pppppppp/8/8/8/8/PPPPPPPP/RNBQKBNR w KQkq - 0 1");
}
