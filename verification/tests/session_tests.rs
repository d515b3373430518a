use funken::chess::Move;
use funken::search::SearchInfo;
use funken::session::{iteration_line, Action, Session};
use funken::uci::IterInfo;

fn emitted(acts: &[Action]) -> Vec<String> {
    acts.iter()
        .filter_map(|a| match a {
            Action::Emit(s) => Some(s.clone()),
            _ => None,
        })
        .collect()
}

#[test]
fn uci_handshake() {
    let mut s = Session::new();
    let acts = s.on_command("uci");
    let lines = emitted(&acts);
    assert_eq!(lines.len(), 6);
    assert_eq!(lines[0], "id name Funken 1.0");
    assert_eq!(lines[5], "uciok");
    assert_eq!(emitted(&s.on_command("isready")), vec!["readyok".to_string()]);
    assert!(s.on_command("   ").is_empty());
    assert!(s.on_command("bogus command").is_empty());
}

#[test]
fn options_are_applied() {
    let mut s = Session::new();
    let acts = s.on_command("setoption name Hash value 32");
    assert!(matches!(acts.as_slice(), [Action::NewTable(32)]));
    assert_eq!(s.opts.hash_mb, 32);
    let acts = s.on_command("setoption name Hash value 99999");
    assert!(matches!(acts.as_slice(), [Action::NewTable(1024)]));
    s.on_command("setoption name move overhead value 9000");
    assert_eq!(s.opts.move_overhead_ms, 5000);
    s.on_command("setoption name MoveOverhead value 30");
    assert_eq!(s.opts.move_overhead_ms, 30);
    let acts = s.on_command("setoption name Threads value 4");
    assert_eq!(emitted(&acts), vec!["info string Funken is single-threaded; Threads stays 1".to_string()]);
    assert!(s.on_command("setoption name Threads value 1").is_empty());
    assert!(s.on_command("setoption name Hash value lots").is_empty());
    assert_eq!(s.opts.hash_mb, 1024);
}

#[test]
fn go_starts_a_search_and_stop_ends_it() {
    let mut s = Session::new();
    assert!(s.on_command("position startpos moves e2e4").is_empty());
    assert_eq!(s.pos.history.len(), 1);
    let acts = s.on_command("go depth 3");
    assert_eq!(acts.len(), 1);
    match &acts[0] {
        Action::StartSearch(job) => {
            assert_eq!(job.limits.depth, Some(3));
            assert_eq!(job.history.len(), 1);
            assert_eq!(job.overhead, 100);
            assert!(job.allow.is_none());
        }
        _ => panic!("expected a search"),
    }
    assert!(s.searching);
    assert!(s.on_command("isready").is_empty());
    assert!(s.ready_pending);
    assert!(s.on_command("position startpos").is_empty());
    assert_eq!(s.pos.history.len(), 1);
    assert!(matches!(s.on_command("stop").as_slice(), [Action::StopSearch]));
    let info = SearchInfo {
        best: Move::quiet(52, 36),
        score: 12,
        depth_completed: 3,
        nodes: 500,
        seldepth: 4,
        elapsed_ms: 0,
        pv: vec![Move::quiet(52, 36)],
    };
    let lines = s.on_search_done(&info, 7);
    assert_eq!(
        lines,
        vec![
            "info depth 3 seldepth 4 score cp 12 nodes 500 nps 500 time 0 hashfull 7 pv e7e5".to_string(),
            "bestmove e7e5".to_string(),
            "readyok".to_string(),
        ]
    );
    assert!(!s.searching);
    assert!(!s.ready_pending);
}

#[test]
fn searchmoves_are_resolved() {
    let mut s = Session::new();
    let acts = s.on_command("go searchmoves e2e4");
    assert_eq!(emitted(&acts), vec!["bestmove e2e4".to_string()]);
    assert!(!s.searching);
    let acts = s.on_command("go searchmoves e2e5");
    assert_eq!(emitted(&acts), vec!["info string no legal searchmoves".to_string()]);
    let acts = s.on_command("go depth 2 searchmoves e2e4 d2d4 e2e5");
    match &acts[0] {
        Action::StartSearch(job) => {
            let a = job.allow.as_ref().unwrap();
            let ucis: Vec<String> = a.iter().map(|m| m.to_uci()).collect();
            assert_eq!(ucis, vec!["e2e4".to_string(), "d2d4".to_string()]);
        }
        _ => panic!("expected a search"),
    }
}

#[test]
fn bad_position_and_quit() {
    let mut s = Session::new();
    let acts = s.on_command("position startpos moves e2e5");
    assert_eq!(emitted(&acts), vec!["info string illegal position command".to_string()]);
    assert!(matches!(s.on_command("ucinewgame").as_slice(), [Action::ClearTable]));
    assert!(matches!(s.on_command("quit").as_slice(), [Action::Quit]));
}

#[test]
fn iteration_report_line() {
    let it = IterInfo { depth: 3, score: 25, nodes: 1000, seldepth: 5, ms: 10, pv: vec![Move::quiet(12, 28)] };
    assert_eq!(iteration_line(&it), "info depth 3 seldepth 5 score cp 25 nodes 1000 nps 100000 time 10 pv e2e4");
    let done = SearchInfo { best: Move::null(), score: 0, depth_completed: 0, nodes: 0, seldepth: 0, elapsed_ms: 0, pv: vec![] };
    let mut s = Session::new();
    assert_eq!(s.on_search_done(&done, 0), vec!["bestmove 0000".to_string()]);
}
