use funken::chess::{Board, BLACK, WHITE};

#[test]
fn startpos_fen_roundtrip() {
    let b = Board::startpos();
    assert_eq!(b.to_fen(), "rnbqkbnr/pppppppp/8/8/8/8/PPPPPPPP/RNBQKBNR w KQkq - 0 1");
}

#[test]
fn hash_stable_under_make_unmake() {
    let mut b = Board::startpos();
    let h0 = b.hash;
    assert_eq!(h0, b.full_hash());
    let mut moves = Vec::new();
    b.gen_pseudo(&mut moves);
    for m in moves.iter().take(40) {
        let u = b.make(m);
        assert_eq!(b.hash, b.full_hash(), "incremental hash mismatch after {}", m.to_uci());
        b.unmake(m, &u);
        assert_eq!(b.hash, h0);
    }
}

#[test]
fn perft_startpos() {
    let mut b = Board::startpos();
    assert_eq!(b.perft(1), 20);
    assert_eq!(b.perft(2), 400);
    assert_eq!(b.perft(3), 8902);
}

#[test]
fn ep_pin_is_illegal() {
    let mut b = Board::from_fen("4k3/8/8/r4pPK/8/8/8/8 w - f6 0 1").unwrap();
    let mut legal = Vec::new();
    b.gen_legal(&mut legal);
    assert!(!legal.is_empty());
    let ucis: Vec<String> = legal.iter().map(|m| m.to_uci()).collect();
    assert!(!ucis.contains(&"g5f6".to_string()), "ep capture must be illegal: {ucis:?}");
    assert!(ucis.contains(&"g5g6".to_string()));
    assert!(ucis.contains(&"h5g6".to_string()));
    assert!(!ucis.contains(&"h5g4".to_string()));
    let mut b2 = Board::from_fen("4k3/8/8/5pPK/8/8/8/8 w - f6 0 1").unwrap();
    let mut l2 = Vec::new();
    b2.gen_legal(&mut l2);
    assert!(l2.iter().any(|m| m.to_uci() == "g5f6"));
}

#[test]
fn castling_through_check() {
    let mut b = Board::from_fen("4k3/8/8/8/2b5/8/8/R3K2R w KQ - 0 1").unwrap();
    let mut legal = Vec::new();
    b.gen_legal(&mut legal);
    let ucis: Vec<String> = legal.iter().map(|m| m.to_uci()).collect();
    assert!(!ucis.contains(&"e1g1".to_string()));
    assert!(ucis.contains(&"e1c1".to_string()));
}

#[test]
fn mate_and_stalemate() {
    let mut m = Board::from_fen("rnb1kbnr/pppp1ppp/8/4p3/6Pq/5P2/PPPPP2P/RNBQKBNR w KQkq - 0 1").unwrap();
    let mut lm = Vec::new();
    m.gen_legal(&mut lm);
    assert!(lm.is_empty());
    assert!(m.in_check(WHITE));
    let mut s = Board::from_fen("7k/5Q2/6K1/8/8/8/8/8 b - - 0 1").unwrap();
    let mut ls = Vec::new();
    s.gen_legal(&mut ls);
    assert!(ls.is_empty());
    assert!(!s.in_check(BLACK));
}

#[test]
fn insufficient_material_cases() {
    assert!(Board::from_fen("8/8/4k3/8/8/8/8/4K3 w - - 0 1").unwrap().insufficient_material());
    assert!(Board::from_fen("8/8/4k3/8/8/3B4/8/4K3 w - - 0 1").unwrap().insufficient_material());
    assert!(Board::from_fen("8/8/4k3/8/8/3N4/8/4K3 w - - 0 1").unwrap().insufficient_material());
    assert!(Board::from_fen("5k2/8/8/8/5B2/8/8/2B3K1 w - - 0 1").unwrap().insufficient_material());
    assert!(!Board::from_fen("5k2/8/8/8/8/8/5B2/5K1B w - - 0 1").unwrap().insufficient_material());
    assert!(!Board::startpos().insufficient_material());
}

#[test]
fn promotions_generated() {
    let mut b = Board::from_fen("1r5k/P6p/8/8/8/8/6PP/6K1 w - - 0 1").unwrap();
    let mut legal = Vec::new();
    b.gen_legal(&mut legal);
    let promos: Vec<String> = legal.iter().filter(|m| m.promo != 0).map(|m| m.to_uci()).collect();
    assert_eq!(promos.len(), 8);
}

#[test]
fn unusual_fen_positions_read_back() {
    // Castling rights without their rooks, an occupied en-passant square,
    // two white kings: the reader takes them as they are, and writing and
    // reading again gives the same board.
    for fen in [
        "4k3/8/8/8/8/8/8/4K3 w KQkq - 0 1",
        "4k3/8/8/8/8/8/8/4K3 b - e1 12 40",
        "4k3/8/8/8/8/8/8/K3K3 w - - 0 1",
    ] {
        let b = Board::from_fen(fen).unwrap();
        let text = b.to_fen();
        let c = Board::from_fen(&text).unwrap();
        assert_eq!(c.to_fen(), text);
        assert_eq!(c.sq, b.sq);
        assert_eq!(c.king, b.king);
        assert_eq!((c.side, c.castling, c.ep, c.half, c.full), (b.side, b.castling, b.ep, b.half, b.full));
        assert_eq!(c.hash, b.hash);
    }
}
