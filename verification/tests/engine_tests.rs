use std::sync::atomic::AtomicBool;
use std::sync::Arc;

use funken::chess::{sq_at, file_of, rank_of, Board, Move};
use funken::eval::{evaluate, params_from_text, params_in_limits, params_to_text, standard};
use funken::search::{time_args_ok, SearchLimits, Searcher, TransTable, FLAG_EXACT, FLAG_LOWER};
use funken::tune::{get, name_of, N_NAMES};
use funken::zobrist::zobrist;

fn searcher(fen: &str) -> Searcher {
    let b = Board::from_fen(fen).unwrap();
    Searcher::new(b, TransTable::new_mb(1), vec![], Arc::new(AtomicBool::new(false)))
}

#[test]
fn table_reads_back_what_was_stored() {
    let mut t = TransTable::new_mb(1);
    assert!(t.probe(123).is_none());
    let m = Move::quiet(12, 28);
    t.store(123, m, 50, 3, FLAG_EXACT);
    assert_eq!(t.probe(123), Some((m, 50, 3, FLAG_EXACT)));
    // A shallower result for the same position does not replace it.
    t.store(123, Move::quiet(1, 18), -7, 0, FLAG_LOWER);
    assert_eq!(t.probe(123), Some((m, 50, 3, FLAG_EXACT)));
    // Another position on another slot leaves it alone.
    t.store(124, Move::quiet(1, 18), -7, 0, FLAG_LOWER);
    assert_eq!(t.probe(123), Some((m, 50, 3, FLAG_EXACT)));
    assert_eq!(t.hashfull(), 2);
    t.clear();
    assert!(t.probe(123).is_none());
    assert_eq!(t.hashfull(), 0);
}

#[test]
fn time_arguments_checked() {
    let lim = SearchLimits::default();
    assert!(time_args_ok(0, &lim, 0));
    let mut big = SearchLimits::default();
    big.wtime = Some(u64::MAX);
    big.winc = Some(u64::MAX);
    assert!(!time_args_ok(0, &big, 0));
    assert!(time_args_ok(1, &big, 0));
    let mut mt = SearchLimits::default();
    mt.movetime = Some(u64::MAX);
    assert!(time_args_ok(0, &mt, 0));
}

#[test]
fn node_limit_keeps_a_legal_move() {
    let mut s = searcher("rnbqkbnr/pppppppp/8/8/8/8/PPPPPPPP/RNBQKBNR w KQkq - 0 1");
    let mut lim = SearchLimits::default();
    lim.nodes = Some(1);
    let info = s.search(&lim, 0);
    assert_eq!(info.depth_completed, 0);
    let mut b = Board::startpos();
    let mut legal = Vec::new();
    b.gen_legal(&mut legal);
    assert!(legal.contains(&info.best));
    assert_eq!(info.pv, vec![info.best]);
}

#[test]
fn insufficient_material_scores_zero() {
    let mut s = searcher("8/8/4k3/8/8/8/8/4K3 w - - 0 1");
    let mut lim = SearchLimits::default();
    lim.depth = Some(3);
    let info = s.search(&lim, 0);
    assert_eq!(info.score, 0);
    assert!(!info.best.is_null());
}

#[test]
fn mated_side_has_no_move() {
    let mut s = searcher("rnb1kbnr/pppp1ppp/8/4p3/6Pq/5P2/PPPPP2P/RNBQKBNR w KQkq - 0 1");
    let mut lim = SearchLimits::default();
    lim.depth = Some(2);
    let info = s.search(&lim, 0);
    assert!(info.best.is_null());
    assert_eq!(info.score, -32000);
    assert_eq!(info.depth_completed, 0);
    assert!(info.pv.is_empty());
}

#[test]
fn root_restriction_is_obeyed() {
    let board = Board::startpos();
    let mut s = Searcher::new(board, TransTable::new_mb(1), vec![], Arc::new(AtomicBool::new(false)));
    let mut lim = SearchLimits::default();
    lim.depth = Some(3);
    let allow = [Move::quiet(11, 27)];
    let report = |_d: u8, _s: i32, _n: u64, _sd: u32, _pv: &[Move]| {};
    let info = s.search_root_restricted(&lim, 0, &allow, &report);
    assert_eq!(info.best.to_uci(), "d2d4");
    assert_eq!(info.pv[0].to_uci(), "d2d4");
    assert_eq!(s.board.hash, Board::startpos().hash);
}

#[test]
fn iterations_are_reported() {
    let mut s = searcher("6k1/5ppp/8/8/8/8/5PPP/4R1K1 w - - 0 1");
    let mut lim = SearchLimits::default();
    lim.depth = Some(2);
    let seen = std::sync::Mutex::new(Vec::new());
    let report = |d: u8, _s: i32, _n: u64, _sd: u32, pv: &[Move]| {
        seen.lock().unwrap().push((d, pv.len()));
    };
    let info = s.search_report(&lim, 0, &report);
    let seen = seen.into_inner().unwrap();
    assert_eq!(seen.len(), 2);
    assert_eq!(seen[0].0, 1);
    assert_eq!(seen[1].0, 2);
    assert_eq!(info.depth_completed, 2);
    assert_eq!(info.best.to_uci(), "e1e8");
}

#[test]
fn make_unmake_restores_the_position() {
    let mut b = Board::from_fen("r3k2r/p1ppqpb1/bn2pnp1/3PN3/1p2P3/2N2Q1p/PPPBBPPP/R3K2R w KQkq - 0 1").unwrap();
    let fen0 = b.to_fen();
    let h0 = b.hash;
    let mut moves = Vec::new();
    b.gen_pseudo(&mut moves);
    for m in moves.iter() {
        let u = b.make(m);
        assert_eq!(b.hash, b.full_hash());
        b.unmake(m, &u);
        assert_eq!(b.to_fen(), fen0);
        assert_eq!(b.hash, h0);
    }
}

#[test]
fn perft_startpos_depth_four() {
    let mut b = Board::startpos();
    assert_eq!(b.perft(4), 197281);
}

#[test]
fn side_key_separates_sides() {
    let w = Board::from_fen("8/8/4k3/8/8/8/8/4K3 w - - 0 1").unwrap();
    let b = Board::from_fen("8/8/4k3/8/8/8/8/4K3 b - - 0 1").unwrap();
    assert_eq!(w.hash ^ b.hash, zobrist().side);
}

#[test]
fn evaluation_of_the_start_is_the_tempo() {
    assert_eq!(evaluate(&Board::startpos()), 8);
    let black = Board::from_fen("rnbqkbnr/pppppppp/8/8/8/8/PPPPPPPP/RNBQKBNR b KQkq - 0 1").unwrap();
    assert_eq!(evaluate(&black), -8);
}

#[test]
fn weights_text_reads_back() {
    let p = standard();
    let text = params_to_text(&p);
    let q = params_from_text(&text).unwrap();
    assert_eq!(params_to_text(&q), text);
    assert!(params_in_limits(&q));
    assert!(params_from_text("tempo 12\n").is_some());
    assert_eq!(get(&params_from_text("tempo 12\n").unwrap(), N_NAMES - 1), 12);
    assert!(params_from_text("nonsense 12\n").is_none());
    assert!(params_from_text("tempo\n").is_none());
}

#[test]
fn changed_weights_read_back() {
    let mut p = standard();
    funken::tune::set(&mut p, 0, -2147483648);
    funken::tune::set(&mut p, 22, 2147483647);
    funken::tune::set(&mut p, N_NAMES - 1, -3);
    p.mob[0] = 4;
    let q = params_from_text(&params_to_text(&p)).unwrap();
    for i in 0..N_NAMES {
        assert_eq!(get(&q, i), get(&p, i));
    }
    assert_eq!(q.mob[0], 0);
    assert_eq!(q.mob[5], 0);
    assert_eq!(get(&q, 0), -2147483648);
    assert_eq!(q.mob[2], 2147483647);
}

#[test]
fn weights_by_index() {
    assert_eq!(name_of(0), "pawn_adv_sq_mg");
    assert_eq!(name_of(N_NAMES - 1), "tempo");
    let mut p = standard();
    funken::tune::set(&mut p, 3, 77);
    assert_eq!(get(&p, 3), 77);
}

#[test]
fn squares_and_moves() {
    assert_eq!(sq_at(4, 1), 12);
    assert_eq!(file_of(12), 4);
    assert_eq!(rank_of(12), 1);
    assert!(Move::null().is_null());
    assert_eq!(Move::quiet(12, 28).to_uci(), "e2e4");
}

#[test]
fn quiescence_stays_in_its_window() {
    // No captures at the start: the stand-pat score (the tempo) is the value.
    let mut s = searcher("rnbqkbnr/pppppppp/8/8/8/8/PPPPPPPP/RNBQKBNR w KQkq - 0 1");
    assert_eq!(s.quiescence(1, -50, 50), 8);
    // A stand-pat score at or above beta answers beta.
    assert_eq!(s.quiescence(1, -50, 5), 5);
    // Below alpha the answer is alpha.
    assert_eq!(s.quiescence(1, 20, 30), 20);
    // A hanging queen can be taken: the score rises above the stand-pat one.
    let mut t = searcher("4k3/8/8/3q4/8/8/8/3RK3 w - - 0 1");
    let stand = evaluate(&Board::from_fen("4k3/8/8/3q4/8/8/8/3RK3 w - - 0 1").unwrap());
    assert!(stand < 0);
    let v = t.quiescence(1, -30000, 30000);
    assert!(v > -30000 && v < 30000);
    assert!(v >= stand);
    assert!(v > 0);
}

#[test]
fn elapsed_milliseconds_are_small_right_after_now() {
    let t0 = funken::clock::now();
    let ms = funken::clock::elapsed_ms(&t0);
    assert!(ms < 60_000);
    let d = funken::clock::elapsed(&t0);
    assert_eq!(funken::clock::millis(&d), d.as_millis());
}

#[test]
fn negamax_scores_mate_and_stalemate_at_the_root() {
    let inf = funken::search::INF;
    let mut s = searcher("rnb1kbnr/pppp1ppp/8/4p3/6Pq/5P2/PPPPP2P/RNBQKBNR w KQkq - 0 1");
    assert_eq!(s.negamax(0, 1, -inf, inf), -funken::search::MATE);
    let mut t = searcher("7k/5Q2/6K1/8/8/8/8/8 b - - 0 1");
    assert_eq!(t.negamax(0, 1, -inf, inf), 0);
    // Below the root the mate score counts the plies.
    let mut u = searcher("rnb1kbnr/pppp1ppp/8/4p3/6Pq/5P2/PPPPP2P/RNBQKBNR w KQkq - 0 1");
    assert_eq!(u.negamax(3, 2, -inf, inf), -funken::search::MATE + 3);
}

#[test]
fn unlimited_search_completes_its_depth() {
    let mut s = searcher("r1bqk1nr/pppp1ppp/2n5/2b1p3/2B1P3/5N2/PPPP1PPP/RNBQK2R w KQkq - 4 4");
    let mut lim = SearchLimits::default();
    lim.depth = Some(3);
    let info = s.search(&lim, 0);
    assert_eq!(info.depth_completed, 3);
    assert_eq!(info.pv[0].to_uci(), info.best.to_uci());
}

#[test]
fn checked_perft_counts_and_fits() {
    let mut b = Board::startpos();
    assert_eq!(b.perft_checked(0), Some(1));
    assert_eq!(b.perft_checked(3), Some(8902));
    assert_eq!(b.hash, Board::startpos().hash);
}

#[test]
fn cleared_table_finds_nothing() {
    let mut t = TransTable::new_mb(1);
    t.store(77, Move::quiet(12, 28), 10, 2, FLAG_EXACT);
    assert!(t.probe(77).is_some());
    t.clear();
    assert!(t.probe(77).is_none());
    assert!(t.probe(0).is_none());
}

#[test]
fn widened_inputs_are_accepted() {
    // The table keeps any score and any move.
    let mut t = TransTable::new_mb(1);
    let odd = Move { from: 70, to: 200, promo: 0, capture: false, en_passant: false, castle_k: false, castle_q: false, double_push: false };
    t.store(99, odd, i32::MAX, 125, FLAG_EXACT);
    assert_eq!(t.probe(99), Some((odd, i32::MAX, 125, FLAG_EXACT)));
    // Quiescence takes any window above i32::MIN.
    let mut s = searcher("rnbqkbnr/pppppppp/8/8/8/8/PPPPPPPP/RNBQKBNR w KQkq - 0 1");
    assert_eq!(s.quiescence(1, i32::MIN + 1, i32::MAX), 8);
    // Negamax takes the widest window and any depth up to 125 (a position
    // without moves answers at once).
    let w = funken::search::WINDOW_LIMIT;
    let mut m = searcher("rnb1kbnr/pppp1ppp/8/4p3/6Pq/5P2/PPPPP2P/RNBQKBNR w KQkq - 0 1");
    assert_eq!(m.negamax(0, 125, -w, w), -funken::search::MATE);
    let mut q = searcher("rnb1kbnr/pppp1ppp/8/4p3/6Pq/5P2/PPPPP2P/RNBQKBNR w KQkq - 0 1");
    assert_eq!(q.negamax(2, -100, -w, w), -funken::search::MATE + 2);
}

#[test]
fn quiescence_recognises_mate_in_check() {
    let inf = funken::search::INF;
    let mut s = searcher("rnb1kbnr/pppp1ppp/8/4p3/6Pq/5P2/PPPPP2P/RNBQKBNR w KQkq - 0 1");
    let before = s.board.to_fen();
    assert_eq!(s.quiescence(0, -inf, inf), -funken::search::MATE);
    assert_eq!(s.board.to_fen(), before);
}
