//! The decisions of a UCI session: what each command line does to the
//! session (position, options, search state) and which actions it asks
//! for (lines to print, table changes, starting or stopping a search).  The
//! program around it reads the lines, carries out the actions and reports
//! back when a search ends.
use vstd::prelude::*;
use crate::chess::{Board, Move, Pos, uci_spec, is_null_spec, valid_pos};
use crate::movegen::{legal_moves, playable};
use crate::fen::{words, split_words, start_pos};
use crate::chess::hash_of;
use crate::search::{SearchInfo, SearchLimits, time_fits, time_args_ok, searchable};
use crate::text::{
    chars_of, string_from_chars, push_all, parse_unsigned, parse_unsigned_spec, dec_chars,
    dec_spec,
};
use crate::uci::{
    Position, UciOptions, IterInfo, position_spec, apply_position, go_spec, parse_go_words,
    uci_move_spec, parse_uci_chars, join_words, index_from, score_text, pv_text, score_to_uci,
    pv_to_string, lemma_find_some, word_is, join_range, find_move,
};

verus! {

/// What the session asks the program around it to do.
pub enum Action {
    /// Print a line.
    Emit(String),
    /// Replace the transposition table by a new one of this many megabytes.
    NewTable(usize),
    /// Empty the transposition table.
    ClearTable,
    /// Start a search.
    StartSearch(SearchJob),
    /// Stop the running search.
    StopSearch,
    /// End the session.
    Quit,
}

/// A search to run: the position, the game's earlier hashes, the limits,
/// the time kept back, and an optional root restriction.
pub struct SearchJob {
    pub board: Board,
    pub history: Vec<u64>,
    pub limits: SearchLimits,
    pub overhead: u64,
    pub allow: Option<Vec<Move>>,
}

/// An action as the specification speaks of it.
pub enum ActionView {
    Emit(Seq<char>),
    NewTable(usize),
    ClearTable,
    Start(Pos, u64, Seq<u64>, SearchLimits, u64, Option<Seq<Move>>),
    Stop,
    Quit,
}

pub open spec fn action_view(a: Action) -> ActionView {
    match a {
        Action::Emit(s) => ActionView::Emit(s@),
        Action::NewTable(mb) => ActionView::NewTable(mb),
        Action::ClearTable => ActionView::ClearTable,
        Action::StartSearch(j) => ActionView::Start(
            j.board@,
            j.board.hash,
            j.history@,
            j.limits,
            j.overhead,
            match j.allow {
                Some(a) => Some(a@),
                None => None,
            },
        ),
        Action::StopSearch => ActionView::Stop,
        Action::Quit => ActionView::Quit,
    }
}

pub open spec fn actions_view(v: Seq<Action>) -> Seq<ActionView> {
    v.map_values(|a: Action| action_view(a))
}

/// The state of a session.
pub struct Session {
    pub pos: Position,
    pub opts: UciOptions,
    pub searching: bool,
    pub ready_pending: bool,
}

/// A session as the specification speaks of it.
pub struct SessionView {
    pub pos: Pos,
    pub hash: u64,
    pub history: Seq<u64>,
    pub hash_mb: usize,
    pub overhead: u64,
    pub searching: bool,
    pub ready_pending: bool,
}

pub open spec fn session_view(s: Session) -> SessionView {
    SessionView {
        pos: s.pos.board@,
        hash: s.pos.board.hash,
        history: s.pos.history@,
        hash_mb: s.opts.hash_mb,
        overhead: s.opts.move_overhead_ms,
        searching: s.searching,
        ready_pending: s.ready_pending,
    }
}

// ---------------------------------------------------------------------------
// Specification of one command
// ---------------------------------------------------------------------------
/// `s` without its spaces.
pub open spec fn no_spaces(s: Seq<char>) -> Seq<char> {
    s.filter(|c: char| c != ' ')
}

/// A character with ASCII upper case letters taken to lower case.
pub open spec fn ascii_lower(c: char) -> char {
    if 'A' <= c <= 'Z' {
        ((c as int) + 32) as char
    } else {
        c
    }
}

/// `s` equals the lower-case ASCII word `w` up to the case of letters.
pub open spec fn same_ignoring_case(s: Seq<char>, w: Seq<char>) -> bool {
    s.len() == w.len() && forall|i: int| 0 <= i < s.len() ==> ascii_lower(#[trigger] s[i]) == w[i]
}

/// Option name and value of a `setoption` command given as words:
/// `setoption name <name words> [value <value words>]`.
pub open spec fn option_args(ws: Seq<Seq<char>>) -> (Seq<char>, Seq<char>) {
    if ws.len() > 1 && ws[1] == "name"@ {
        let j = index_from(ws, "value"@, 2);
        (
            join_words(ws.subrange(2, j)),
            if j < ws.len() {
                join_words(ws.subrange(j + 1, ws.len() as int))
            } else {
                seq![]
            },
        )
    } else {
        (seq![], seq![])
    }
}

pub open spec fn threads_message() -> Seq<char> {
    "info string Funken is single-threaded; Threads stays 1"@
}

/// A `setoption` command while idle.  Option names match without spaces
/// and case: `Hash` (megabytes, clamped to 1..1024, makes a new table),
/// `Move Overhead` (milliseconds, at most 5000), `Threads` (only 1; another
/// number is answered with a note).  Unknown options and malformed values
/// change nothing.
pub open spec fn setoption_spec(s: SessionView, ws: Seq<Seq<char>>) -> (SessionView, Seq<ActionView>) {
    let (name, value) = option_args(ws);
    let key = no_spaces(name);
    if same_ignoring_case(key, "hash"@) {
        match parse_unsigned_spec(value, usize::MAX as nat) {
            Some(mb) => {
                let c: usize = if mb < 1 {
                    1
                } else if mb > 1024 {
                    1024
                } else {
                    mb as usize
                };
                (SessionView { hash_mb: c, ..s }, seq![ActionView::NewTable(c)])
            },
            None => (s, seq![]),
        }
    } else if same_ignoring_case(key, "moveoverhead"@) {
        match parse_unsigned_spec(value, u64::MAX as nat) {
            Some(ms) => (
                SessionView {
                    overhead: if ms < 5000 {
                        ms as u64
                    } else {
                        5000
                    },
                    ..s
                },
                seq![],
            ),
            None => (s, seq![]),
        }
    } else if same_ignoring_case(key, "threads"@) {
        let t = match parse_unsigned_spec(value, u32::MAX as nat) {
            Some(t) => t,
            None => 1,
        };
        if t != 1 {
            (s, seq![ActionView::Emit(threads_message())])
        } else {
            (s, seq![])
        }
    } else {
        (s, seq![])
    }
}

/// The legal moves the search moves of a `go` command name, in order
/// (words that name no legal move are dropped).
pub open spec fn resolve_spec(p: Pos, sm: Seq<Seq<char>>) -> Seq<Move>
    decreases sm.len(),
{
    if sm.len() == 0 {
        seq![]
    } else {
        let rest = resolve_spec(p, sm.drop_last());
        match uci_move_spec(p, sm.last()) {
            Some(m) => rest.push(m),
            None => rest,
        }
    }
}

/// A `go` command while idle: a position that cannot be searched, or time
/// values the time formula cannot take, are answered with a note and no
/// move; search moves are resolved to legal moves (none: a note; one: that
/// move at once); otherwise a search starts.
pub open spec fn go_step_spec(s: SessionView, ws: Seq<Seq<char>>) -> (SessionView, Seq<ActionView>) {
    let (lim, sm) = go_spec(ws);
    if !searchable(s.pos) {
        (s, seq![ActionView::Emit("info string position cannot be searched"@), ActionView::Emit("bestmove 0000"@)])
    } else if !time_fits(s.pos.side, lim, s.overhead) {
        (s, seq![ActionView::Emit("info string time values out of range"@), ActionView::Emit("bestmove 0000"@)])
    } else if sm.len() == 0 {
        (
            SessionView { searching: true, ..s },
            seq![ActionView::Start(s.pos, s.hash, s.history, lim, s.overhead, None)],
        )
    } else {
        let a = resolve_spec(s.pos, sm);
        if a.len() == 0 {
            (s, seq![ActionView::Emit("info string no legal searchmoves"@)])
        } else if a.len() == 1 {
            (s, seq![ActionView::Emit("bestmove "@ + uci_spec(a[0]))])
        } else {
            (
                SessionView { searching: true, ..s },
                seq![ActionView::Start(s.pos, s.hash, s.history, lim, s.overhead, Some(a))],
            )
        }
    }
}

/// The lines answering `uci`.
pub open spec fn uci_lines() -> Seq<ActionView> {
    seq![
        ActionView::Emit("id name Funken 1.0"@),
        ActionView::Emit("id author Muse Spark"@),
        ActionView::Emit("option name Hash type spin default 64 min 1 max 1024"@),
        ActionView::Emit("option name Move Overhead type spin default 100 min 0 max 5000"@),
        ActionView::Emit("option name Threads type spin default 1 min 1 max 1"@),
        ActionView::Emit("uciok"@),
    ]
}

/// What one command line does: dispatch on its first word; commands that
/// would change the position or the options wait while a search runs
/// (`isready` is answered when it ends); unknown commands are ignored.
pub open spec fn step_spec(s: SessionView, line: Seq<char>) -> (SessionView, Seq<ActionView>) {
    let ws = words(line);
    if ws.len() == 0 {
        (s, seq![])
    } else {
        let w = ws[0];
        if w == "uci"@ {
            (s, uci_lines())
        } else if w == "isready"@ {
            if s.searching {
                (SessionView { ready_pending: true, ..s }, seq![])
            } else {
                (s, seq![ActionView::Emit("readyok"@)])
            }
        } else if w == "setoption"@ {
            if s.searching {
                (s, seq![ActionView::Emit("info string setoption deferred until search finishes"@)])
            } else {
                setoption_spec(s, ws)
            }
        } else if w == "ucinewgame"@ {
            if s.searching {
                (s, seq![])
            } else {
                (s, seq![ActionView::ClearTable])
            }
        } else if w == "position"@ {
            if s.searching {
                (s, seq![])
            } else {
                match position_spec(line) {
                    Some(t) => (SessionView { pos: t.0, hash: t.1, history: t.2, ..s }, seq![]),
                    None => (s, seq![ActionView::Emit("info string illegal position command"@)]),
                }
            }
        } else if w == "go"@ {
            if s.searching {
                (s, seq![])
            } else {
                go_step_spec(s, ws)
            }
        } else if w == "stop"@ {
            if s.searching {
                (s, seq![ActionView::Stop])
            } else {
                (s, seq![])
            }
        } else if w == "quit"@ {
            if s.searching {
                (s, seq![ActionView::Stop, ActionView::Quit])
            } else {
                (s, seq![ActionView::Quit])
            }
        } else {
            (s, seq![])
        }
    }
}

// ---------------------------------------------------------------------------
// Report lines
// ---------------------------------------------------------------------------
/// Nodes per second: nodes times 1000 (64-bit wrapping) over the
/// milliseconds, or the nodes when no time passed.
pub open spec fn nps_spec(nodes: u64, ms: u64) -> nat {
    if ms > 0 {
        ((nodes as nat * 1000) % 0x1_0000_0000_0000_0000) / (ms as nat)
    } else {
        nodes as nat
    }
}

/// The report line of a completed iteration.
pub open spec fn iteration_text(it_depth: u8, it_seldepth: u32, score: i32, nodes: u64, ms: u64, pv: Seq<Move>) -> Seq<char> {
    "info depth "@ + dec_spec(it_depth as nat) + " seldepth "@ + dec_spec(it_seldepth as nat)
        + " score "@ + score_text(score as int) + " nodes "@ + dec_spec(nodes as nat) + " nps "@
        + dec_spec(nps_spec(nodes, ms)) + " time "@ + dec_spec(ms as nat) + " pv "@ + pv_text(pv)
}

/// The summary line of a finished search.
pub open spec fn summary_text(info: SearchInfo, hashfull: u32) -> Seq<char> {
    "info depth "@ + dec_spec(info.depth_completed as nat) + " seldepth "@ + dec_spec(
        info.seldepth as nat,
    ) + " score "@ + score_text(info.score as int) + " nodes "@ + dec_spec(info.nodes as nat)
        + " nps "@ + dec_spec(nps_spec(info.nodes, info.elapsed_ms)) + " time "@ + dec_spec(
        info.elapsed_ms as nat,
    ) + " hashfull "@ + dec_spec(hashfull as nat) + " pv "@ + pv_text(info.pv@)
}

/// The best-move line: `0000` when there is no move.
pub open spec fn bestmove_text(best: Move) -> Seq<char> {
    "bestmove "@ + if is_null_spec(best) {
        "0000"@
    } else {
        uci_spec(best)
    }
}

/// The lines that end a search: the summary when an iteration completed,
/// the best move, and `readyok` when `isready` came during the search.
pub open spec fn done_lines(info: SearchInfo, hashfull: u32, ready_pending: bool) -> Seq<Seq<char>> {
    (if info.depth_completed > 0 {
        seq![summary_text(info, hashfull)]
    } else {
        seq![]
    }) + seq![bestmove_text(info.best)] + if ready_pending {
        seq!["readyok"@]
    } else {
        seq![]
    }
}

fn push_str(v: &mut Vec<char>, s: &str)
    ensures
        final(v)@ == old(v)@ + s@,
{
    let c = chars_of(s);
    push_all(v, &c);
}

fn push_dec(v: &mut Vec<char>, n: u64)
    ensures
        final(v)@ == old(v)@ + dec_spec(n as nat),
{
    let d = dec_chars(n);
    push_all(v, &d);
}

fn push_string(v: &mut Vec<char>, s: &String)
    ensures
        final(v)@ == old(v)@ + s@,
{
    push_str(v, s.as_str());
}

fn nps(nodes: u64, ms: u64) -> (r: u64)
    ensures
        r == nps_spec(nodes, ms),
{
    if ms > 0 {
        let p = nodes.wrapping_mul(1000);
        proof {
            assert(p == (nodes as nat * 1000) % 0x1_0000_0000_0000_0000) by {
                assert(vstd::wrapping::u64_specs::wrapping_mul(nodes, 1000) == (nodes as nat * 1000)
                    % 0x1_0000_0000_0000_0000);
            }
        }
        p / ms
    } else {
        nodes
    }
}

/// The report line of a completed iteration.
pub fn iteration_line(it: &IterInfo) -> (s: String)
    ensures
        s@ == iteration_text(it.depth, it.seldepth, it.score, it.nodes, it.ms, it.pv@),
{
    let mut v: Vec<char> = Vec::new();
    push_str(&mut v, "info depth ");
    push_dec(&mut v, it.depth as u64);
    push_str(&mut v, " seldepth ");
    push_dec(&mut v, it.seldepth as u64);
    push_str(&mut v, " score ");
    push_string(&mut v, &score_to_uci(it.score));
    push_str(&mut v, " nodes ");
    push_dec(&mut v, it.nodes);
    push_str(&mut v, " nps ");
    push_dec(&mut v, nps(it.nodes, it.ms));
    push_str(&mut v, " time ");
    push_dec(&mut v, it.ms);
    push_str(&mut v, " pv ");
    push_string(&mut v, &pv_to_string(it.pv.as_slice()));
    string_from_chars(&v)
}

fn summary_line(info: &SearchInfo, hashfull: u32) -> (s: String)
    ensures
        s@ == summary_text(*info, hashfull),
{
    let mut v: Vec<char> = Vec::new();
    push_str(&mut v, "info depth ");
    push_dec(&mut v, info.depth_completed as u64);
    push_str(&mut v, " seldepth ");
    push_dec(&mut v, info.seldepth as u64);
    push_str(&mut v, " score ");
    push_string(&mut v, &score_to_uci(info.score));
    push_str(&mut v, " nodes ");
    push_dec(&mut v, info.nodes);
    push_str(&mut v, " nps ");
    push_dec(&mut v, nps(info.nodes, info.elapsed_ms));
    push_str(&mut v, " time ");
    push_dec(&mut v, info.elapsed_ms);
    push_str(&mut v, " hashfull ");
    push_dec(&mut v, hashfull as u64);
    push_str(&mut v, " pv ");
    push_string(&mut v, &pv_to_string(info.pv.as_slice()));
    string_from_chars(&v)
}

fn bestmove_line(best: &Move) -> (s: String)
    ensures
        s@ == bestmove_text(*best),
{
    let mut v: Vec<char> = Vec::new();
    push_str(&mut v, "bestmove ");
    if best.is_null() {
        push_str(&mut v, "0000");
    } else {
        let u = best.uci_chars();
        push_all(&mut v, &u);
    }
    string_from_chars(&v)
}

// ---------------------------------------------------------------------------
// Session
// ---------------------------------------------------------------------------
fn lower_ascii(c: char) -> (d: char)
    ensures
        d == ascii_lower(c),
{
    if 'A' <= c && c <= 'Z' {
        let n = c as u32 + 32;
        assert(n <= 0x7f);
        char_of(n)
    } else {
        c
    }
}

fn char_of(n: u32) -> (c: char)
    requires
        n <= 0x7f,
    ensures
        c as int == n,
{
    (n as u8) as char
}

fn option_key_is(name: &Vec<char>, w: &str) -> (b: bool)
    ensures
        b == same_ignoring_case(no_spaces(name@), w@),
{
    let mut key: Vec<char> = Vec::new();
    let mut i: usize = 0;
    while i < name.len()
        invariant
            i <= name@.len(),
            key@ == no_spaces(name@.take(i as int)),
        decreases name@.len() - i,
    {
        proof {
            assert(name@.take(i + 1) =~= name@.take(i as int).push(name@[i as int]));
            name@.take(i as int).lemma_filter_push(name@[i as int], |c: char| c != ' ');
        }
        if name[i] != ' ' {
            key.push(name[i]);
        }
        i += 1;
    }
    proof {
        assert(name@.take(i as int) =~= name@);
    }
    let wc = chars_of(w);
    if key.len() != wc.len() {
        return false;
    }
    let mut j: usize = 0;
    while j < key.len()
        invariant
            j <= key@.len(),
            key@.len() == wc@.len(),
            key@ == no_spaces(name@),
            wc@ == w@,
            forall|t: int| 0 <= t < j ==> ascii_lower(#[trigger] key@[t]) == wc@[t],
        decreases key@.len() - j,
    {
        if lower_ascii(key[j]) != wc[j] {
            return false;
        }
        j += 1;
    }
    true
}

impl Session {
    /// A new session: the starting position and the default options.
    pub fn new() -> (s: Session)
        ensures
            session_view(s) == (SessionView {
                pos: start_pos(),
                hash: hash_of(start_pos()),
                history: Seq::<u64>::empty(),
                hash_mb: 64,
                overhead: 100,
                searching: false,
                ready_pending: false,
            }),
    {
        Session { pos: Position::startpos(), opts: UciOptions::default(), searching: false, ready_pending: false }
    }
}


impl Session {
    /// Carries out one command line (see `step_spec`).
    pub fn on_command(&mut self, line: &str) -> (acts: Vec<Action>)
        ensures
            (session_view(*final(self)), actions_view(acts@)) == step_spec(session_view(*old(self)), line@),
    {
        let cs = chars_of(line);
        let ws = split_words(&cs);
        let ghost target = words(line@);
        let mut acts: Vec<Action> = Vec::new();
        if ws.len() == 0 {
            proof {
                assert(actions_view(acts@) =~= Seq::<ActionView>::empty());
            }
            return acts;
        }
        let w = &ws[0];
        assert(w@ == target[0]);
        if word_is(w, "uci") {
            acts.push(Action::Emit("id name Funken 1.0".to_owned()));
            acts.push(Action::Emit("id author Muse Spark".to_owned()));
            acts.push(Action::Emit("option name Hash type spin default 64 min 1 max 1024".to_owned()));
            acts.push(
                Action::Emit("option name Move Overhead type spin default 100 min 0 max 5000".to_owned()),
            );
            acts.push(Action::Emit("option name Threads type spin default 1 min 1 max 1".to_owned()));
            acts.push(Action::Emit("uciok".to_owned()));
            proof {
                assert(actions_view(acts@) =~= uci_lines());
            }
        } else if word_is(w, "isready") {
            if self.searching {
                self.ready_pending = true;
            } else {
                acts.push(Action::Emit("readyok".to_owned()));
            }
        } else if word_is(w, "setoption") {
            if self.searching {
                acts.push(Action::Emit("info string setoption deferred until search finishes".to_owned()));
            } else {
                acts = self.setoption(&ws, Ghost(target));
            }
        } else if word_is(w, "ucinewgame") {
            if !self.searching {
                acts.push(Action::ClearTable);
            }
        } else if word_is(w, "position") {
            if !self.searching {
                match apply_position(line) {
                    Some(p) => {
                        self.pos = p;
                    },
                    None => {
                        acts.push(Action::Emit("info string illegal position command".to_owned()));
                    },
                }
            }
        } else if word_is(w, "go") {
            if !self.searching {
                acts = self.go(&ws, Ghost(target));
            }
        } else if word_is(w, "stop") {
            if self.searching {
                acts.push(Action::StopSearch);
            }
        } else if word_is(w, "quit") {
            if self.searching {
                acts.push(Action::StopSearch);
            }
            acts.push(Action::Quit);
        }
        proof {
            let r = step_spec(session_view(*old(self)), line@).1;
            assert(actions_view(acts@) =~= r);
        }
        acts
    }

    fn setoption(&mut self, ws: &Vec<Vec<char>>, Ghost(target): Ghost<Seq<Seq<char>>>) -> (acts: Vec<
        Action,
    >)
        requires
            ws@.len() == target.len(),
            forall|k: int| 0 <= k < ws@.len() ==> #[trigger] ws@[k]@ == target[k],
        ensures
            (session_view(*final(self)), actions_view(acts@)) == setoption_spec(session_view(*old(self)), target),
    {
        let mut acts: Vec<Action> = Vec::new();
        let mut name: Vec<char> = Vec::new();
        let mut value: Vec<char> = Vec::new();
        if ws.len() > 1 && word_is(&ws[1], "name") {
            let mut j: usize = 2;
            while j < ws.len() && !word_is(&ws[j], "value")
                invariant
                    2 <= j <= ws@.len(),
                    ws@.len() == target.len(),
                    forall|k: int| 0 <= k < ws@.len() ==> #[trigger] ws@[k]@ == target[k],
                    index_from(target, "value"@, 2) == index_from(target, "value"@, j as int),
                decreases ws@.len() - j,
            {
                j += 1;
            }
            name = join_range(ws, 2, j, Ghost(target));
            if j < ws.len() {
                value = join_range(ws, j + 1, ws.len(), Ghost(target));
            }
        }
        assert(name@ == option_args(target).0 && value@ == option_args(target).1);
        if option_key_is(&name, "hash") {
            match parse_unsigned(&value, usize::MAX as u64) {
                Some(mb) => {
                    let c: usize = if mb < 1 {
                        1
                    } else if mb > 1024 {
                        1024
                    } else {
                        mb as usize
                    };
                    self.opts.hash_mb = c;
                    acts.push(Action::NewTable(c));
                },
                None => {},
            }
        } else if option_key_is(&name, "moveoverhead") {
            match parse_unsigned(&value, u64::MAX) {
                Some(ms) => {
                    self.opts.move_overhead_ms = if ms < 5000 {
                        ms
                    } else {
                        5000
                    };
                },
                None => {},
            }
        } else if option_key_is(&name, "threads") {
            let t = match parse_unsigned(&value, u32::MAX as u64) {
                Some(t) => t,
                None => 1,
            };
            if t != 1 {
                acts.push(Action::Emit("info string Funken is single-threaded; Threads stays 1".to_owned()));
            }
        }
        proof {
            let r = setoption_spec(session_view(*old(self)), target).1;
            assert(actions_view(acts@) =~= r);
        }
        acts
    }

    /// The legal moves that the words `ws[from..]` name, in order.
    fn resolve(&self, ws: &Vec<Vec<char>>, from: usize, Ghost(target): Ghost<Seq<Seq<char>>>) -> (v: Vec<
        Move,
    >)
        requires
            playable(self.pos.board@),
            from <= ws@.len(),
            ws@.len() == target.len(),
            forall|k: int| 0 <= k < ws@.len() ==> #[trigger] ws@[k]@ == target[k],
        ensures
            v@ == resolve_spec(self.pos.board@, target.subrange(from as int, target.len() as int)),
    {
        let ghost p = self.pos.board@;
        let mut legal: Vec<Move> = Vec::new();
        let mut board = self.pos.board;
        board.gen_legal(&mut legal);
        let mut v: Vec<Move> = Vec::new();
        let mut k = from;
        proof {
            assert(target.subrange(from as int, from as int) =~= Seq::<Seq<char>>::empty());
        }
        while k < ws.len()
            invariant
                from <= k <= ws@.len(),
                ws@.len() == target.len(),
                forall|t: int| 0 <= t < ws@.len() ==> #[trigger] ws@[t]@ == target[t],
                legal@ == legal_moves(p),
                p == self.pos.board@,
                playable(p),
                v@ == resolve_spec(p, target.subrange(from as int, k as int)),
            decreases ws@.len() - k,
        {
            let ghost next = target.subrange(from as int, k + 1);
            proof {
                assert(next.drop_last() =~= target.subrange(from as int, k as int));
                assert(next.last() == target[k as int]);
                assert(ws@[k as int]@ == target[k as int]);
            }
            let mut tmp = self.pos.board;
            let r = parse_uci_chars(&mut tmp, &ws[k]);
            if let Some(m) = r {
                proof {
                    lemma_find_some(legal_moves(p), m);
                }
                let mut found = false;
                let mut j: usize = 0;
                while j < legal.len() && !found
                    invariant
                        j <= legal@.len(),
                        legal@ == legal_moves(p),
                        legal_moves(p).contains(m),
                        !found ==> forall|t: int| 0 <= t < j ==> !(#[trigger] legal@[t].from == m.from
                            && legal@[t].to == m.to && legal@[t].promo == m.promo),
                    decreases legal@.len() - j,
                {
                    let x = legal[j];
                    if x.from == m.from && x.to == m.to && x.promo == m.promo {
                        found = true;
                    }
                    j += 1;
                }
                proof {
                    if !found {
                        let t = choose|t: int| 0 <= t < legal_moves(p).len() && legal_moves(p)[t] == m;
                        assert(legal@[t] == m);
                    }
                }
                if found {
                    v.push(m);
                }
            }
            k += 1;
        }
        v
    }

    fn go(&mut self, ws: &Vec<Vec<char>>, Ghost(target): Ghost<Seq<Seq<char>>>) -> (acts: Vec<Action>)
        requires
            ws@.len() == target.len(),
            forall|k: int| 0 <= k < ws@.len() ==> #[trigger] ws@[k]@ == target[k],
        ensures
            (session_view(*final(self)), actions_view(acts@)) == go_step_spec(session_view(*old(self)), target),
    {
        proof {
            assert(ws@.map_values(|w: Vec<char>| w@) =~= target);
        }
        let (lim, sm_start) = parse_go_words(ws);
        let mut acts: Vec<Action> = Vec::new();
        let b = &self.pos.board;
        if !(b.is_valid() && b.half <= 65000 && b.full <= 65000) {
            acts.push(Action::Emit("info string position cannot be searched".to_owned()));
            acts.push(Action::Emit("bestmove 0000".to_owned()));
        } else if !time_args_ok(b.side, &lim, self.opts.move_overhead_ms) {
            acts.push(Action::Emit("info string time values out of range".to_owned()));
            acts.push(Action::Emit("bestmove 0000".to_owned()));
        } else if sm_start >= ws.len() {
            let job = SearchJob {
                board: self.pos.board,
                history: self.pos.history.clone(),
                limits: lim,
                overhead: self.opts.move_overhead_ms,
                allow: None,
            };
            acts.push(Action::StartSearch(job));
            self.searching = true;
        } else {
            let a = self.resolve(ws, sm_start, Ghost(target));
            if a.len() == 0 {
                acts.push(Action::Emit("info string no legal searchmoves".to_owned()));
            } else if a.len() == 1 {
                let mut v = chars_of("bestmove ");
                let u = a[0].uci_chars();
                push_all(&mut v, &u);
                acts.push(Action::Emit(string_from_chars(&v)));
            } else {
                let job = SearchJob {
                    board: self.pos.board,
                    history: self.pos.history.clone(),
                    limits: lim,
                    overhead: self.opts.move_overhead_ms,
                    allow: Some(a),
                };
                acts.push(Action::StartSearch(job));
                self.searching = true;
            }
        }
        proof {
            let r = go_step_spec(session_view(*old(self)), target).1;
            assert(actions_view(acts@) =~= r);
        }
        acts
    }

    /// A search ended: the lines to print (see `done_lines`); the session
    /// is idle again.
    pub fn on_search_done(&mut self, info: &SearchInfo, hashfull: u32) -> (lines: Vec<String>)
        ensures
            lines@.map_values(|s: String| s@) == done_lines(*info, hashfull, old(self).ready_pending),
            session_view(*final(self)) == (SessionView {
                searching: false,
                ready_pending: false,
                ..session_view(*old(self))
            }),
    {
        let mut lines: Vec<String> = Vec::new();
        if info.depth_completed > 0 {
            lines.push(summary_line(info, hashfull));
        }
        lines.push(bestmove_line(&info.best));
        if self.ready_pending {
            lines.push("readyok".to_owned());
        }
        self.searching = false;
        self.ready_pending = false;
        proof {
            assert(lines@.map_values(|s: String| s@) =~= done_lines(*info, hashfull, old(self).ready_pending));
        }
        lines
    }
}

} // verus!
