use std::sync::atomic::AtomicBool;
use std::sync::Arc;

use funken::chess::{opp, sq_at, Board};
use funken::search::{SearchInfo, SearchLimits, Searcher, TransTable, MATE};

fn search_depth(fen: &str, depth: u8) -> SearchInfo {
    let b = Board::from_fen(fen).unwrap();
    let tt = TransTable::new_mb(1);
    let stop = Arc::new(AtomicBool::new(false));
    let mut s = Searcher::new(b, tt, vec![], stop);
    let mut lim = SearchLimits::default();
    lim.depth = Some(depth);
    s.search(&lim, 0)
}

#[test]
fn mate_in_one_found() {
    let info = search_depth("6k1/5ppp/8/8/8/8/5PPP/4R1K1 w - - 0 1", 3);
    assert_eq!(info.best.to_uci(), "e1e8");
    assert!(info.score > MATE - 500, "score = {}", info.score);
}

#[test]
fn stalemate_scores_zero() {
    let info = search_depth("7k/5Q2/6K1/8/8/8/8/8 b - - 0 1", 3);
    assert!(info.best.is_null());
    assert_eq!(info.score, 0);
}

#[test]
fn fifty_move_scores_zero() {
    let info = search_depth(
        "r3k2r/p1ppqpb1/bn2pnp1/3PN3/1p2P3/2N2Q1p/PPPBBPPP/R3K2R w KQkq - 100 1",
        3,
    );
    assert_eq!(info.score, 0);
}

/// Plays UCI moves from the starting position; returns the final board and
/// the hashes of all positions before it.
fn play_startpos(moves: &[&str]) -> (Board, Vec<u64>) {
    let mut b = Board::startpos();
    let mut hist = Vec::new();
    for mv in moves {
        hist.push(b.hash);
        let (ff, rf, tf, rt) = (
            (mv.as_bytes()[0] - b'a') as i8,
            (mv.as_bytes()[1] - b'1') as i8,
            (mv.as_bytes()[2] - b'a') as i8,
            (mv.as_bytes()[3] - b'1') as i8,
        );
        let (from, to) = (sq_at(ff, rf), sq_at(tf, rt));
        let promo = if mv.len() >= 5 {
            match mv.as_bytes()[4] as char {
                'n' => 1,
                'b' => 2,
                'r' => 3,
                'q' => 4,
                _ => 0,
            }
        } else {
            0
        };
        let mut legal = Vec::new();
        b.gen_legal(&mut legal);
        let m = legal
            .into_iter()
            .find(|m| m.from == from && m.to == to && m.promo == promo)
            .unwrap_or_else(|| panic!("illegal test move {mv}"));
        let u = b.make(&m);
        let us = opp(b.side);
        assert!(!b.is_attacked(b.king[us as usize], b.side), "test move {mv} leaves king in check");
        let _ = u;
    }
    (b, hist)
}

fn search_with_history(board: Board, history: Vec<u64>, depth: u8) -> SearchInfo {
    let tt = TransTable::new_mb(1);
    let stop = Arc::new(AtomicBool::new(false));
    let mut s = Searcher::new(board, tt, history, stop);
    let mut lim = SearchLimits::default();
    lim.depth = Some(depth);
    s.search(&lim, 0)
}

#[test]
fn second_occurrence_still_searches() {
    let italian = ["e2e4", "e7e5", "g1f3", "b8c6", "f1c4", "f8c5"];
    let shuffle = ["c4b5", "c5b4", "b5c4", "b4c5"];
    let (plain_board, _) = play_startpos(&italian);
    let mut seq = italian.to_vec();
    seq.extend_from_slice(&shuffle);
    let (rep_board, rep_hist) = play_startpos(&seq);
    assert_eq!(plain_board.hash, rep_board.hash);
    assert_eq!(rep_hist.iter().filter(|&&h| h == rep_board.hash).count(), 1);

    let base = search_with_history(plain_board, vec![], 3);
    let info = search_with_history(rep_board, rep_hist, 3);
    assert!(info.depth_completed > 1, "depth = {}", info.depth_completed);
    assert!(info.nodes > 100, "nodes = {}", info.nodes);
    assert!(!info.best.is_null());
    assert_eq!(info.best.to_uci(), base.best.to_uci());
    assert_eq!(info.score, base.score);
}

#[test]
fn forced_triple_repetition_scores_zero() {
    let q = Board::from_fen("3q1k2/5ppp/8/8/8/8/8/4R1K1 w - - 0 1").unwrap();
    let mut tmp = q.clone();
    let mut legal = Vec::new();
    tmp.gen_legal(&mut legal);
    let kh1 = legal.iter().find(|m| m.to_uci() == "g1h1").unwrap().clone();
    let u = tmp.make(&kh1);
    let p_hash = tmp.hash;
    let _ = u;

    for (hist, expect_draw) in [(vec![p_hash, p_hash], true), (vec![p_hash], false)] {
        let info = search_with_history(q.clone(), hist, 3);
        assert!(info.depth_completed > 1, "depth = {}", info.depth_completed);
        if expect_draw {
            assert_eq!(info.best.to_uci(), "g1h1");
            assert_eq!(info.score, 0, "score = {}", info.score);
        } else {
            assert!(info.score < -200, "second occurrence must not draw, score = {}", info.score);
        }
    }
}

#[test]
fn reused_tt_still_searches_root() {
    let (board, _) = play_startpos(&["e2e4", "e7e5", "g1f3", "b8c6", "f1c4", "f8c5"]);
    let tt = TransTable::new_mb(1);
    let stop = Arc::new(AtomicBool::new(false));
    let mut s = Searcher::new(board, tt, vec![], stop);
    let mut lim = SearchLimits::default();
    lim.depth = Some(4);
    let first = s.search(&lim, 0);
    assert_eq!(first.depth_completed, 4);
    let second = s.search(&lim, 0);
    assert_eq!(second.depth_completed, 4);
    assert!(second.nodes > 100, "nodes = {}", second.nodes);
    assert!(!second.pv.is_empty());
    assert_eq!(second.best.to_uci(), second.pv[0].to_uci());
}
