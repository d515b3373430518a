//! Search: iterative-deepening negamax with alpha-beta, transposition
//! table, quiescence, aspiration windows, mate-distance pruning, null-move
//! pruning, late-move reductions, check extensions, futility and delta
//! pruning, MVV-LVA + killer + history ordering, and draws by repetition,
//! the fifty-move rule and insufficient material.  Mate scores are stored in
//! the table relative to the node.
use vstd::prelude::*;
use std::sync::Arc;
use std::sync::atomic::{AtomicBool, Ordering};
use std::time::Instant;
use crate::chess::{
    make_hash,
    Board, Move, Pos, Undo, EMPTY, WHITE, BLACK, NO_SQ, type_of, color_of, opp, type_spec, color_spec,
    sane_pos, valid_pos, null_spec, is_null_spec, piece_value, piece_value_of, apply_move,
    attacked, opp_spec, fits, undo_of, unapply, hash_of, lemma_apply_valid,
    lemma_unmake_undoes_make,
};
use crate::movegen::{
    pseudo_moves, tactical_moves, legal_moves, king_safe_after, all_fit, playable,
    lemma_generated_moves_fit, insufficient_spec, lemma_moves_ignore_clocks, lemma_legal_member,
};
use crate::eval::{EvalParams, Tables, standard, build_tables, evaluate_with, params_bounded,
    tables_bounded, eval_spec, EVAL_BOUND};
use crate::zobrist::{side_key, ep_key, side_key_exec, ep_key_exec};
use crate::clock::{now, elapsed_ms};

verus! {

pub const MATE: i32 = 32000;

pub const INF: i32 = 33000;

pub const MAX_PLY: usize = 64;

pub const FLAG_NONE: u8 = 0;

pub const FLAG_EXACT: u8 = 1;

pub const FLAG_LOWER: u8 = 2;

pub const FLAG_UPPER: u8 = 3;

/// Every score the search handles, and every score kept in the
/// transposition table, stays within this magnitude.
pub const SCORE_LIMIT: i32 = 2000000000;

/// The widest search window: scores stay `MAX_PLY` away from the ends of
/// `i32`, so a mate score rescaled for the table cannot overflow.
pub const WINDOW_LIMIT: i32 = 2147483583;

// ---------------------------------------------------------------------------
// Transposition table
// ---------------------------------------------------------------------------
#[derive(Clone, Copy)]
pub struct TTEntry {
    pub hash: u64,
    pub mv: Move,
    pub score: i32,
    pub depth: i8,
    pub flag: u8,
}

pub open spec fn empty_entry_spec() -> TTEntry {
    TTEntry { hash: 0, mv: null_spec(), score: 0, depth: -1i8, flag: FLAG_NONE }
}

pub fn empty_entry() -> (e: TTEntry)
    ensures
        e == empty_entry_spec(),
{
    TTEntry { hash: 0, mv: Move::null(), score: 0, depth: -1, flag: FLAG_NONE }
}

pub struct TransTable {
    slots: Vec<TTEntry>,
}

/// Slot of a hash in a table of `len` slots.
pub open spec fn slot_of(hash: u64, len: int) -> int {
    (hash as int) % len
}

/// What a probe of `hash` finds in the table contents `t`.
pub open spec fn probe_spec(t: Seq<TTEntry>, hash: u64) -> Option<(Move, i32, i8, u8)> {
    let e = t[slot_of(hash, t.len() as int)];
    if e.flag != FLAG_NONE && e.hash == hash {
        Some((e.mv, e.score, e.depth, e.flag))
    } else {
        None
    }
}

/// The table holds an entry for `hash` searched to at least `depth`, so a
/// node below the root may answer from it without searching.
pub open spec fn tt_deep_hit(t: TransTable, hash: u64, depth: int) -> bool {
    probe_spec(t.entries(), hash) matches Some(x) && x.2 >= depth
}

/// Whether a store of `hash` at `depth` replaces the entry `e`: an empty
/// slot, another position, or a search at most two plies shallower.
pub open spec fn replaces(e: TTEntry, hash: u64, depth: i8) -> bool {
    e.flag == FLAG_NONE || e.hash != hash || depth + 2 >= e.depth
}

/// The table contents after a store.
pub open spec fn store_spec(
    t: Seq<TTEntry>,
    hash: u64,
    mv: Move,
    score: i32,
    depth: i8,
    flag: u8,
) -> Seq<TTEntry> {
    let i = slot_of(hash, t.len() as int);
    if replaces(t[i], hash, depth) {
        t.update(i, TTEntry { hash, mv, score, depth, flag })
    } else {
        t
    }
}

pub open spec fn count_used(t: Seq<TTEntry>, n: int) -> nat
    decreases n,
{
    if n <= 0 {
        0
    } else {
        count_used(t, n - 1) + if t[n - 1].flag != FLAG_NONE {
            1nat
        } else {
            0nat
        }
    }
}

impl TransTable {
    /// Well-formed: at least one slot.
    pub closed spec fn wf(&self) -> bool {
        self.slots@.len() > 0
    }

    /// The slots of the table.
    pub closed spec fn entries(&self) -> Seq<TTEntry> {
        self.slots@
    }

    /// A table of about `mb` megabytes (clamped to 1..1024), all slots empty.
    pub fn new_mb(mb: usize) -> (t: TransTable)
        ensures
            t.wf(),
            t.entries().len() == (if mb < 1 {
                1
            } else if mb > 1024 {
                1024
            } else {
                mb
            }) * 32768,
            forall|i: int| 0 <= i < t.entries().len() ==> #[trigger] t.entries()[i] == empty_entry_spec(),
    {
        let mb = if mb < 1 {
            1
        } else if mb > 1024 {
            1024
        } else {
            mb
        };
        let n = (mb << 20) / 32;
        assert((mb << 20) / 32 == mb * 32768) by (bit_vector)
            requires
                1 <= mb <= 1024,
        ;
        let mut slots: Vec<TTEntry> = Vec::new();
        let mut i: usize = 0;
        while i < n
            invariant
                i <= n,
                slots@.len() == i,
                forall|j: int| 0 <= j < i ==> #[trigger] slots@[j] == empty_entry_spec(),
            decreases n - i,
        {
            slots.push(empty_entry());
            i += 1;
        }
        TransTable { slots }
    }

    /// Empties every slot.
    pub fn clear(&mut self)
        requires
            old(self).wf(),
        ensures
            final(self).wf(),
            final(self).entries().len() == old(self).entries().len(),
            final(self).entries().len() > 0,
            forall|i: int|
                0 <= i < final(self).entries().len() ==> #[trigger] final(self).entries()[i]
                    == empty_entry_spec(),
    {
        let n = self.slots.len();
        let mut i: usize = 0;
        while i < n
            invariant
                i <= n,
                n == self.slots@.len(),
                n > 0,
                forall|j: int| 0 <= j < i ==> #[trigger] self.slots@[j] == empty_entry_spec(),
            decreases n - i,
        {
            self.slots.set(i, empty_entry());
            i += 1;
        }
    }

    /// A well-formed table has at least one slot.
    pub proof fn lemma_has_slots(&self)
        requires
            self.wf(),
        ensures
            self.entries().len() > 0,
    {
    }

    fn idx(&self, hash: u64) -> (i: usize)
        requires
            self.wf(),
        ensures
            i == slot_of(hash, self.entries().len() as int),
            i < self.entries().len(),
    {
        (hash % self.slots.len() as u64) as usize
    }

    /// The entry stored for `hash`, if its slot holds that position.
    pub fn probe(&self, hash: u64) -> (r: Option<(Move, i32, i8, u8)>)
        requires
            self.wf(),
        ensures
            r == probe_spec(self.entries(), hash),
    {
        let i = self.idx(hash);
        let e = self.slots[i];
        if e.flag != FLAG_NONE && e.hash == hash {
            Some((e.mv, e.score, e.depth, e.flag))
        } else {
            None
        }
    }

    /// Stores a search result, with depth-preferred replacement and a small
    /// tolerance so fresh best moves still enter the table.
    pub fn store(&mut self, hash: u64, mv: Move, score: i32, depth: i8, flag: u8)
        requires
            old(self).wf(),
            depth <= 125,
        ensures
            final(self).wf(),
            final(self).entries() == store_spec(old(self).entries(), hash, mv, score, depth, flag),
    {
        let i = self.idx(hash);
        let e = self.slots[i];
        if e.flag == FLAG_NONE || e.hash != hash || depth + 2 >= e.depth {
            self.slots.set(i, TTEntry { hash, mv, score, depth, flag });
        }
    }

    /// Permille of the first (at most) 1000 slots in use.
    pub fn hashfull(&self) -> (h: u32)
        requires
            self.wf(),
        ensures
            ({
                let t = self.entries();
                let n = if t.len() < 1000 {
                    t.len() as int
                } else {
                    1000
                };
                h == (count_used(t, n) * 1000) as int / n
            }),
    {
        let n = if self.slots.len() < 1000 {
            self.slots.len()
        } else {
            1000
        };
        let mut used: usize = 0;
        let mut i: usize = 0;
        while i < n
            invariant
                i <= n,
                n <= 1000,
                n <= self.slots@.len(),
                used == count_used(self.slots@, i as int),
                used <= i,
            decreases n - i,
        {
            if self.slots[i].flag != FLAG_NONE {
                used += 1;
            }
            i += 1;
        }
        (used * 1000 / n) as u32
    }
}

/// What is read back for a position right after storing it: the stored
/// A table whose slots are all empty (as after `clear` or `new_mb`) finds
/// nothing, whatever the position.
pub proof fn lemma_probe_after_clear(t: Seq<TTEntry>, hash: u64)
    requires
        t.len() > 0,
        forall|i: int| 0 <= i < t.len() ==> #[trigger] t[i] == empty_entry_spec(),
    ensures
        probe_spec(t, hash) is None,
{
    let k = slot_of(hash, t.len() as int);
    assert(t[k] == empty_entry_spec());
}

/// entry, whenever the store replaced the slot's entry.
pub proof fn lemma_probe_after_store(
    t: Seq<TTEntry>,
    hash: u64,
    mv: Move,
    score: i32,
    depth: i8,
    flag: u8,
)
    requires
        t.len() > 0,
        flag != FLAG_NONE,
        replaces(t[slot_of(hash, t.len() as int)], hash, depth),
    ensures
        probe_spec(store_spec(t, hash, mv, score, depth, flag), hash) == Some(
            (mv, score, depth, flag),
        ),
{
}

/// A store leaves every other slot, and so every position hashing to
/// another slot, as it was.
pub proof fn lemma_store_keeps_other_slots(
    t: Seq<TTEntry>,
    hash: u64,
    mv: Move,
    score: i32,
    depth: i8,
    flag: u8,
    other: u64,
)
    requires
        t.len() > 0,
        slot_of(other, t.len() as int) != slot_of(hash, t.len() as int),
    ensures
        probe_spec(store_spec(t, hash, mv, score, depth, flag), other) == probe_spec(t, other),
{
}


// ---------------------------------------------------------------------------
// Search state
// ---------------------------------------------------------------------------
/// Positions that agree in everything but the halfmove clock.
pub open spec fn same_but_half(a: Pos, b: Pos) -> bool {
    &&& a.sq == b.sq
    &&& a.side == b.side
    &&& a.castling == b.castling
    &&& a.ep == b.ep
    &&& a.full == b.full
    &&& a.king == b.king
}

/// How one search call may leave the halfmove clock: as it was, or one
/// higher when the call tried a null move with the clock below 100 (the
/// null move keeps its increment).
pub open spec fn half_step(h0: u16, h1: u16) -> bool {
    h1 == h0 || (h0 < 100 && h1 == h0 + 1)
}

/// The halfmove clock after any number of search calls: never lower, and
/// never pushed past 100 by the search.
pub open spec fn half_drift(h0: u16, h1: u16) -> bool {
    h0 <= h1 && (h1 <= h0 || h1 <= 100)
}

/// A position a search node `ply` plies from the root can work on: valid,
/// with room on both clocks for the plies left.
pub open spec fn node_ok(p: Pos, ply: int) -> bool {
    &&& valid_pos(p)
    &&& p.half + (MAX_PLY - ply) < 65535
    &&& p.full + (MAX_PLY - ply) < 65535
}

/// Occurrences of `h` among the first `n` entries of `s`.
pub open spec fn count_hash(s: Seq<u64>, h: u64, n: int) -> nat
    decreases n,
{
    if n <= 0 {
        0
    } else {
        count_hash(s, h, n - 1) + if s[n - 1] == h {
            1nat
        } else {
            0nat
        }
    }
}

/// The position is drawn by rule: fifty moves without capture or pawn
/// move, material that cannot mate, or its hash three times in the game
/// (the current occurrence included).
pub open spec fn rule_draw(p: Pos, game: Seq<u64>, h: u64) -> bool {
    p.half >= 100 || insufficient_spec(p.sq) || count_hash(game, h, game.len() as int) >= 3
}

/// The static evaluation from the side to move's point of view.
pub open spec fn side_eval(p: Pos, e: EvalParams, t: Tables) -> int {
    if p.side == WHITE {
        eval_spec(p, e, t)
    } else {
        -eval_spec(p, e, t)
    }
}

/// A score limited to the search's range.
pub open spec fn clamp_score(x: int) -> int {
    if x > SCORE_LIMIT {
        SCORE_LIMIT as int
    } else if x < -SCORE_LIMIT {
        -SCORE_LIMIT
    } else {
        x
    }
}

/// A score as the table keeps it: mate scores measured from the node
/// rather than the root.
pub open spec fn to_tt_spec(score: int, ply: int) -> int {
    clamp_score(
        if score > MATE - 1000 {
            score + ply
        } else if score < -MATE + 1000 {
            score - ply
        } else {
            score
        },
    )
}

/// A score read back from the table at `ply` plies from the root.
pub open spec fn from_tt_spec(score: int, ply: int) -> int {
    clamp_score(
        if score > MATE - 1000 {
            score - ply
        } else if score < -MATE + 1000 {
            score + ply
        } else {
            score
        },
    )
}

/// Reading back a stored score at the ply it was stored from gives the
/// score again, for every score the range leaves room to shift.
pub proof fn lemma_tt_score_roundtrip(score: int, ply: int)
    requires
        0 <= ply < MAX_PLY,
        -SCORE_LIMIT + ply <= score <= SCORE_LIMIT - ply,
    ensures
        from_tt_spec(to_tt_spec(score, ply), ply) == score,
{
}

/// Type of the piece on a square as move ordering reads it; an empty square
/// (a quiet promotion's target) wraps around to type 3.
pub open spec fn victim_type(p: u8) -> u8 {
    (if p == 0 {
        255u8
    } else {
        (p - 1) as u8
    }) % 6
}

fn victim_type_of(p: u8) -> (t: u8)
    ensures
        t == victim_type(p),
        t < 6,
{
    p.wrapping_sub(1) % 6
}

/// Limits of one search; absent fields are not limited.
pub struct SearchLimits {
    pub wtime: Option<u64>,
    pub btime: Option<u64>,
    pub winc: Option<u64>,
    pub binc: Option<u64>,
    pub movestogo: Option<u32>,
    pub movetime: Option<u64>,
    pub depth: Option<u8>,
    pub nodes: Option<u64>,
    pub infinite: bool,
}

impl Clone for SearchLimits {
    fn clone(&self) -> (c: Self)
        ensures
            c == *self,
    {
        SearchLimits {
            wtime: self.wtime,
            btime: self.btime,
            winc: self.winc,
            binc: self.binc,
            movestogo: self.movestogo,
            movetime: self.movetime,
            depth: self.depth,
            nodes: self.nodes,
            infinite: self.infinite,
        }
    }
}

impl Default for SearchLimits {
    fn default() -> (l: Self)
        ensures
            l.wtime is None && l.btime is None && l.winc is None && l.binc is None,
            l.movestogo is None && l.movetime is None && l.depth is None && l.nodes is None,
            !l.infinite,
    {
        SearchLimits {
            wtime: None,
            btime: None,
            winc: None,
            binc: None,
            movestogo: None,
            movetime: None,
            depth: None,
            nodes: None,
            infinite: false,
        }
    }
}

/// The result of a search.
pub struct SearchInfo {
    pub best: Move,
    pub score: i32,
    pub depth_completed: u8,
    pub nodes: u64,
    pub seldepth: u32,
    pub elapsed_ms: u64,
    pub pv: Vec<Move>,
}

/// The search engine: a board, a transposition table and the state of one
/// search.  Killer moves (two per ply), history scores (piece by target
/// square) and the triangular principal-variation table are kept flat.
pub struct Searcher {
    pub board: Board,
    pub tt: TransTable,
    killers: Vec<Move>,
    history: Vec<i32>,
    nodes: u64,
    seldepth: u32,
    stop: Arc<AtomicBool>,
    t0: Instant,
    soft: Option<u64>,
    hard: Option<u64>,
    max_nodes: u64,
    max_depth: u8,
    completed_depth: u8,
    stack: Vec<u64>,
    pv_len: Vec<usize>,
    pv: Vec<Move>,
    aborted: bool,
    params: EvalParams,
    tables: Tables,
    reports: Ghost<Seq<(u8, i32, u64, Seq<Move>)>>,
}

impl Searcher {
    /// Well-formed: a well-formed table, the per-ply arrays at full size,
    /// history scores within their cap and evaluation weights within their
    /// limits.
    pub closed spec fn wf(&self) -> bool {
        &&& self.tt.wf()
        &&& self.killers@.len() == 2 * MAX_PLY
        &&& self.history@.len() == 768
        &&& forall|i: int| 0 <= i < 768 ==> 0 <= #[trigger] self.history@[i] <= 1000000
        &&& self.pv_len@.len() == MAX_PLY
        &&& forall|i: int| 0 <= i < MAX_PLY ==> #[trigger] self.pv_len@[i] <= MAX_PLY
        &&& self.pv@.len() == MAX_PLY * MAX_PLY
        &&& params_bounded(self.params)
        &&& tables_bounded(self.tables)
        &&& self.max_depth <= 64
    }

    /// Hashes of the game's positions before the current one, followed by
    /// those of the positions on the current search path.
    pub closed spec fn game(&self) -> Seq<u64> {
        self.stack@
    }

    /// The board being searched.
    pub closed spec fn cur_board(&self) -> Board {
        self.board
    }

    /// The transposition table.
    pub closed spec fn table(&self) -> TransTable {
        self.tt
    }

    /// Nodes visited so far in this search.
    pub closed spec fn node_count(&self) -> u64 {
        self.nodes
    }

    /// Whether the search has been cut off (stop flag, node or time limit).
    pub closed spec fn cut_off(&self) -> bool {
        self.aborted
    }

    /// Evaluation weights and their tables.
    pub closed spec fn weights(&self) -> EvalParams {
        self.params
    }

    pub closed spec fn weight_tables(&self) -> Tables {
        self.tables
    }

    /// First move of the principal variation, when there is one.
    pub closed spec fn pv_head(&self) -> Option<Move> {
        if self.pv_len@[0] > 0 {
            Some(self.pv@[0])
        } else {
            None
        }
    }

    /// What the last iterative-deepening run handed to its report, call by
    /// call: depth, score, node count and principal variation.
    pub closed spec fn reported(&self) -> Seq<(u8, i32, u64, Seq<Move>)> {
        self.reports@
    }

    /// The history scores used to order quiet moves.
    pub closed spec fn history_table(&self) -> Seq<i32> {
        self.history@
    }

    /// The principal variation recorded at the root.
    pub closed spec fn root_line(&self) -> Seq<Move> {
        self.pv@.subrange(0, self.pv_len@[0] as int)
    }

    /// Where the principal variation recorded at `ply` ends: equal to `ply`
    /// when the node at `ply` left no line below it.
    pub closed spec fn pv_end(&self, ply: int) -> int {
        self.pv_len@[ply] as int
    }

    /// The settings of a search that the nodes never change.
    pub closed spec fn same_setup(a: Searcher, b: Searcher) -> bool {
        &&& a.params == b.params
        &&& a.tables == b.tables
        &&& a.max_nodes == b.max_nodes
        &&& a.max_depth == b.max_depth
        &&& a.soft == b.soft
        &&& a.hard == b.hard
        &&& a.completed_depth == b.completed_depth
        &&& a.t0 == b.t0
        &&& a.stop == b.stop
        &&& a.reports == b.reports
    }

    /// A searcher for `board`, with the game's earlier position hashes and a
    /// flag another thread may set to stop the search.  Evaluation uses the
    /// standard weights.
    pub fn new(board: Board, tt: TransTable, game_hashes: Vec<u64>, stop: Arc<AtomicBool>) -> (s:
        Searcher)
        requires
            tt.wf(),
        ensures
            s.wf(),
            s.cur_board() == board,
            s.table() == tt,
            s.game() == game_hashes@,
            s.weights() == crate::eval::standard_spec(),
            !s.cut_off(),
            s.node_count() == 0,
            s.node_limit() == u64::MAX,
            s.depth_limit() == 64,
            s.time_limits_ms() == (None::<u64>, None::<u64>),
    {
        let params = standard();
        let tables = build_tables(&params);
        let mut killers: Vec<Move> = Vec::new();
        let mut i: usize = 0;
        while i < 2 * MAX_PLY
            invariant
                i <= 2 * MAX_PLY,
                killers@.len() == i,
            decreases 2 * MAX_PLY - i,
        {
            killers.push(Move::null());
            i += 1;
        }
        let mut history: Vec<i32> = Vec::new();
        i = 0;
        while i < 768
            invariant
                i <= 768,
                history@.len() == i,
                forall|j: int| 0 <= j < i ==> #[trigger] history@[j] == 0,
            decreases 768 - i,
        {
            history.push(0);
            i += 1;
        }
        let mut pv_len: Vec<usize> = Vec::new();
        i = 0;
        while i < MAX_PLY
            invariant
                i <= MAX_PLY,
                pv_len@.len() == i,
                forall|j: int| 0 <= j < i ==> #[trigger] pv_len@[j] == 0,
            decreases MAX_PLY - i,
        {
            pv_len.push(0);
            i += 1;
        }
        let mut pv: Vec<Move> = Vec::new();
        i = 0;
        while i < MAX_PLY * MAX_PLY
            invariant
                i <= MAX_PLY * MAX_PLY,
                pv@.len() == i,
            decreases MAX_PLY * MAX_PLY - i,
        {
            pv.push(Move::null());
            i += 1;
        }
        Searcher {
            board,
            tt,
            killers,
            history,
            nodes: 0,
            seldepth: 0,
            stop,
            t0: now(),
            soft: None,
            hard: None,
            max_nodes: u64::MAX,
            max_depth: 64,
            completed_depth: 0,
            stack: game_hashes,
            pv_len,
            pv,
            aborted: false,
            params,
            tables,
            reports: Ghost(Seq::empty()),
        }
    }

    /// Replaces the evaluation weights (and their tables).
    pub fn set_weights(&mut self, p: &EvalParams)
        requires
            old(self).wf(),
            params_bounded(*p),
        ensures
            final(self).wf(),
            final(self).weights() == *p,
            final(self).cur_board() == old(self).cur_board(),
            final(self).game() == old(self).game(),
    {
        self.params = *p;
        self.tables = build_tables(p);
    }

    /// Whether to stop now: once cut off, the search stays cut off; the
    /// stop flag, the node limit and (every 2048 nodes) the time limits
    /// cut it off.  The soft time limit only counts once an iteration has
    /// completed.
    fn should_abort(&mut self) -> (b: bool)
        ensures
            b == final(self).aborted,
            old(self).aborted ==> b,
            old(self).nodes >= old(self).max_nodes ==> b,
            *final(self) == (Searcher { aborted: b, ..*old(self) }),
    {
        if self.aborted {
            return true;
        }
        if self.stop.load(Ordering::Relaxed) {
            self.aborted = true;
            return true;
        }
        if self.nodes >= self.max_nodes {
            self.aborted = true;
            return true;
        }
        if (self.nodes & 2047) == 0 {
            let ms = elapsed_ms(&self.t0);
            if let Some(h) = self.hard {
                if ms >= h {
                    self.aborted = true;
                    return true;
                }
            }
            if let Some(s) = self.soft {
                if ms >= s && self.completed_depth >= 1 {
                    self.aborted = true;
                    return true;
                }
            }
        }
        false
    }

    /// Whether `side` has a knight, bishop, rook or queen.
    fn has_non_pawn(&self, side: u8) -> (b: bool)
        requires
            sane_pos(self.board@),
        ensures
            b == exists|s: int|
                0 <= s < 64 && #[trigger] self.board.sq@[s] != EMPTY && color_spec(
                    self.board.sq@[s],
                ) == side && 1 <= type_spec(self.board.sq@[s]) <= 4,
    {
        let mut s: usize = 0;
        while s < 64
            invariant
                s <= 64,
                forall|j: int|
                    0 <= j < s ==> !(#[trigger] self.board.sq@[j] != EMPTY && color_spec(
                        self.board.sq@[j],
                    ) == side && 1 <= type_spec(self.board.sq@[j]) <= 4),
            decreases 64 - s,
        {
            let p = self.board.sq[s];
            if p != EMPTY && color_of(p) == side {
                let t = type_of(p);
                if t >= 1 && t <= 4 {
                    return true;
                }
            }
            s += 1;
        }
        false
    }

    /// True triple repetition: the current hash is on the stack, so a draw
    /// needs it there three times.
    fn is_repetition(&self) -> (b: bool)
        ensures
            b == (count_hash(self.stack@, self.board.hash, self.stack@.len() as int) >= 3),
    {
        let h = self.board.hash;
        let mut count: u32 = 0;
        let mut i: usize = 0;
        while i < self.stack.len()
            invariant
                i <= self.stack@.len(),
                count == count_hash(self.stack@, h, i as int),
                count < 3,
                h == self.board.hash,
            decreases self.stack@.len() - i,
        {
            if self.stack[i] == h {
                count += 1;
                if count >= 3 {
                    proof {
                        lemma_count_mono(self.stack@, h, i + 1, self.stack@.len() as int);
                    }
                    return true;
                }
            }
            i += 1;
        }
        false
    }

    fn mate_to_tt(score: i32, ply: i32) -> (r: i32)
        requires
            -WINDOW_LIMIT <= score <= WINDOW_LIMIT,
            0 <= ply < MAX_PLY,
        ensures
            r == to_tt_spec(score as int, ply as int),
    {
        let v = if score > MATE - 1000 {
            score + ply
        } else if score < -MATE + 1000 {
            score - ply
        } else {
            score
        };
        clamp(v)
    }

    fn mate_from_tt(score: i32, ply: i32) -> (r: i32)
        requires
            0 <= ply < MAX_PLY,
        ensures
            r == from_tt_spec(score as int, ply as int),
    {
        let v = if score > MATE - 1000 {
            score - ply
        } else if score < -MATE + 1000 {
            score + ply
        } else {
            score
        };
        clamp(v)
    }

    /// Null move: the side to move passes and the en-passant right goes.
    /// Returns the old en-passant square and the new halfmove clock.
    fn make_null(&mut self) -> (r: (u8, u16))
        requires
            old(self).board.half < 65535,
            old(self).board.side <= 1,
        ensures
            final(self).board@ == (Pos {
                side: opp_spec(old(self).board.side),
                ep: NO_SQ,
                half: (old(self).board.half + 1) as u16,
                ..old(self).board@
            }),
            final(self).board.hash == old(self).board.hash ^ (if old(self).board.ep != NO_SQ {
                ep_key(old(self).board.ep & 7)
            } else {
                0
            }) ^ side_key(),
            r == (old(self).board.ep, final(self).board.half),
            *final(self) == (Searcher { board: final(self).board, ..*old(self) }),
    {
        let old_ep = self.board.ep;
        let ek: u64 = if self.board.ep != NO_SQ {
            ep_key_exec(self.board.ep & 7)
        } else {
            0
        };
        self.board.hash = self.board.hash ^ ek;
        self.board.ep = NO_SQ;
        self.board.hash = self.board.hash ^ side_key_exec();
        self.board.side = opp(self.board.side);
        self.board.half = self.board.half + 1;
        proof {
            assert(self.board@ =~= (Pos {
                side: opp_spec(old(self).board.side),
                ep: NO_SQ,
                half: (old(self).board.half + 1) as u16,
                ..old(self).board@
            }));
        }
        (old_ep, self.board.half)
    }

    /// Takes a null move back: side and en-passant square return; the
    /// halfmove clock is set to `old_half`.
    fn unmake_null(&mut self, old_ep: u8, old_half: u16)
        requires
            old(self).board.side <= 1,
        ensures
            final(self).board@ == (Pos {
                side: opp_spec(old(self).board.side),
                ep: old_ep,
                half: old_half,
                ..old(self).board@
            }),
            final(self).board.hash == old(self).board.hash ^ side_key() ^ (if old_ep != NO_SQ {
                ep_key(old_ep & 7)
            } else {
                0
            }),
            *final(self) == (Searcher { board: final(self).board, ..*old(self) }),
    {
        self.board.hash = self.board.hash ^ side_key_exec();
        self.board.side = opp(self.board.side);
        let ek: u64 = if old_ep != NO_SQ {
            ep_key_exec(old_ep & 7)
        } else {
            0
        };
        self.board.hash = self.board.hash ^ ek;
        self.board.ep = old_ep;
        self.board.half = old_half;
        proof {
            assert(self.board@ =~= (Pos {
                side: opp_spec(old(self).board.side),
                ep: old_ep,
                half: old_half,
                ..old(self).board@
            }));
        }
    }
}

fn clamp(v: i32) -> (r: i32)
    ensures
        r == clamp_score(v as int),
{
    if v > SCORE_LIMIT {
        SCORE_LIMIT
    } else if v < -SCORE_LIMIT {
        -SCORE_LIMIT
    } else {
        v
    }
}

proof fn lemma_count_mono(s: Seq<u64>, h: u64, i: int, j: int)
    requires
        i <= j,
    ensures
        count_hash(s, h, i) <= count_hash(s, h, j),
    decreases j - i,
{
    if i < j {
        lemma_count_mono(s, h, i, j - 1);
    }
}


/// The move-ordering score: the table's move first, then captures by most
/// valuable victim and least valuable attacker (promotions on top), quiet
/// promotions, then quiet moves by history.
pub open spec fn order_spec(b: Pos, hist: Seq<i32>, m: Move, tt: Move) -> int {
    if m.from == tt.from && m.to == tt.to && m.promo == tt.promo {
        i32::MAX - 1
    } else if m.capture {
        let victim = if m.en_passant {
            100
        } else {
            piece_value(victim_type(b.sq[m.to as int]) as int) as int
        };
        let attacker = piece_value(type_spec(b.sq[m.from as int]) as int) as int;
        10 * victim - attacker / 16 + 1000000 + if m.promo != 0 {
            800000 + m.promo * 10000
        } else {
            0
        }
    } else if m.promo != 0 {
        900000 + m.promo * 10000
    } else {
        hist[(b.sq[m.from as int] - 1) * 64 + m.to] as int
    }
}

/// The index of the first largest score from `j` on, starting from `best`.
pub open spec fn scan_max(ss: Seq<i32>, best: int, j: int) -> int
    decreases ss.len() - j,
{
    if j >= ss.len() {
        best
    } else {
        scan_max(ss, if ss[j] > ss[best] { j } else { best }, j + 1)
    }
}

/// The first largest score from `j` on lies between `best` and the end.
pub proof fn lemma_scan_max_range(ss: Seq<i32>, best: int, j: int)
    requires
        0 <= best < ss.len(),
        best < j,
    ensures
        best <= scan_max(ss, best, j) < ss.len(),
    decreases ss.len() - j,
{
    if j < ss.len() {
        lemma_scan_max_range(ss, if ss[j] > ss[best] { j } else { best }, j + 1);
    }
}

/// `s` with entries `i` and `k` exchanged.
pub open spec fn swap_at<A>(s: Seq<A>, i: int, k: int) -> Seq<A> {
    s.update(i, s[k]).update(k, s[i])
}

/// Moves the best-scored entry from `start` on to `start` (the first of
/// equal scores wins); returns where it was.
fn pick_next(moves: &mut Vec<Move>, scores: &mut Vec<i32>, start: usize) -> (b: usize)
    requires
        old(moves)@.len() == old(scores)@.len(),
        start < old(moves)@.len(),
    ensures
        start <= b < old(moves)@.len(),
        final(moves)@ == old(moves)@.update(start as int, old(moves)@[b as int]).update(
            b as int,
            old(moves)@[start as int],
        ),
        final(scores)@ == old(scores)@.update(start as int, old(scores)@[b as int]).update(
            b as int,
            old(scores)@[start as int],
        ),
        forall|j: int| start <= j < old(scores)@.len() ==> old(scores)@[j] <= old(scores)@[b as int],
        b == scan_max(old(scores)@, start as int, start + 1),
{
    let n = moves.len();
    let mut best = start;
    let mut i = start + 1;
    while i < moves.len()
        invariant
            start <= best < i <= moves@.len(),
            moves@ == old(moves)@,
            scores@ == old(scores)@,
            moves@.len() == scores@.len(),
            forall|j: int| start <= j < i ==> scores@[j] <= scores@[best as int],
            scan_max(scores@, best as int, i as int) == scan_max(
                scores@,
                start as int,
                start + 1,
            ),
        decreases moves@.len() - i,
    {
        if scores[i] > scores[best] {
            best = i;
        }
        i += 1;
    }
    let mv = moves[start];
    let mb = moves[best];
    moves.set(start, mb);
    moves.set(best, mv);
    let sv = scores[start];
    let sb = scores[best];
    scores.set(start, sb);
    scores.set(best, sv);
    best
}

/// After a selection swap every entry is still one of the listed moves.
proof fn lemma_swap_keeps_members(src: Seq<Move>, old_ms: Seq<Move>, new_ms: Seq<Move>, a: int, b: int)
    requires
        0 <= a < old_ms.len(),
        0 <= b < old_ms.len(),
        new_ms == old_ms.update(a, old_ms[b]).update(b, old_ms[a]),
        forall|j: int| 0 <= j < old_ms.len() ==> src.contains(#[trigger] old_ms[j]),
    ensures
        new_ms.len() == old_ms.len(),
        forall|j: int| 0 <= j < new_ms.len() ==> src.contains(#[trigger] new_ms[j]),
{
    assert forall|j: int| 0 <= j < new_ms.len() implies src.contains(#[trigger] new_ms[j]) by {
        if j == b {
            assert(src.contains(old_ms[a]));
        } else if j == a {
            assert(src.contains(old_ms[b]));
        } else {
            assert(src.contains(old_ms[j]));
        }
    }
}

/// A selection swap keeps every move of the list in the list.
proof fn lemma_swap_covers(old_ms: Seq<Move>, new_ms: Seq<Move>, a: int, b: int)
    requires
        0 <= a < old_ms.len(),
        0 <= b < old_ms.len(),
        new_ms == old_ms.update(a, old_ms[b]).update(b, old_ms[a]),
    ensures
        forall|x: Move| old_ms.contains(x) ==> new_ms.contains(x),
{
    assert forall|x: Move| old_ms.contains(x) implies new_ms.contains(x) by {
        let j = choose|j: int| 0 <= j < old_ms.len() && old_ms[j] == x;
        if j == a {
            assert(new_ms[b] == x);
        } else if j == b {
            assert(new_ms[a] == x);
        } else {
            assert(new_ms[j] == x);
        }
    }
}

proof fn lemma_board_eq(a: Board, b: Board)
    requires
        a@ == b@,
        a.hash == b.hash,
    ensures
        a == b,
{
    assert(a.sq@ =~= b.sq@);
    assert(a.king@ =~= b.king@);
    assert(a.sq =~= b.sq);
    assert(a.king =~= b.king);
}

/// A member of a move list that fits is a move that fits.
proof fn lemma_member_fits(p: Pos, src: Seq<Move>, m: Move)
    requires
        all_fit(p, src),
        src.contains(m),
    ensures
        fits(p, m),
{
    let k = choose|k: int| 0 <= k < src.len() && src[k] == m;
    assert(fits(p, src[k]));
}

/// Taking back a move restores the board even when the halfmove clock was
/// changed in between.
proof fn lemma_restore(b0: Board, m: Move, q: Pos)
    requires
        valid_pos(b0@),
        fits(b0@, m),
        same_but_half(q, apply_move(b0@, m)),
    ensures
        unapply(q, m, undo_of(b0, m)) == b0@,
{
    lemma_unmake_undoes_make(b0, m);
    assert(unapply(q, m, undo_of(b0, m)) =~= unapply(apply_move(b0@, m), m, undo_of(b0, m)));
}

impl Searcher {
    fn order_score(&self, m: &Move, tt_move: &Move) -> (r: i32)
        requires
            self.wf(),
            sane_pos(self.board@),
            m.from < 64,
            m.to < 64,
            self.board.sq@[m.from as int] != EMPTY,
            m.promo <= 4,
        ensures
            r == order_spec(self.board@, self.history@, *m, *tt_move),
    {
        if m.from == tt_move.from && m.to == tt_move.to && m.promo == tt_move.promo {
            return i32::MAX - 1;
        }
        if m.capture {
            let victim = if m.en_passant {
                100
            } else {
                piece_value_of(victim_type_of(self.board.sq[m.to as usize]))
            };
            let attacker = piece_value_of(type_of(self.board.sq[m.from as usize]));
            let mut s = 10 * victim - attacker / 16 + 1000000;
            if m.promo != 0 {
                s = s + 800000 + (m.promo as i32) * 10000;
            }
            return s;
        }
        if m.promo != 0 {
            return 900000 + (m.promo as i32) * 10000;
        }
        let p = self.board.sq[m.from as usize];
        assert(p <= 12);
        self.history[(p as usize - 1) * 64 + m.to as usize]
    }

    /// One move of the quiescence search: plays `m`; when it leaves the
    /// mover's king safe, searches the reply position one ply deeper and
    /// returns the score from the mover's side; takes the move back.
    fn q_child(&mut self, m: &Move, ply: usize, alpha: i32, beta: i32) -> (r: Option<i32>)
        requires
            old(self).wf(),
            ply < MAX_PLY - 1,
            node_ok(old(self).board@, ply as int),
            fits(old(self).board@, *m),
            i32::MIN < alpha < beta,
            !old(self).aborted,
            old(self).nodes < u64::MAX,
        ensures
            final(self).wf(),
            Searcher::same_setup(*old(self), *final(self)),
            final(self).board == old(self).board,
            final(self).stack@ == old(self).stack@,
            r is Some <==> king_safe_after(old(self).board@, *m),
            r matches Some(v) ==> (-SCORE_LIMIT <= v <= SCORE_LIMIT || alpha <= v <= beta),
            r is None ==> !final(self).aborted,
            final(self).nodes >= old(self).nodes,
            !final(self).aborted ==> final(self).nodes < u64::MAX,
            final(self).pv_head() == old(self).pv_head(),
            final(self).history@ == old(self).history@,
            ({
                let b = old(self).board;
                let ch = make_hash(b@, *m, b.hash);
                r is Some && !final(self).aborted ==> r->0 == -qs_value(
                    apply_move(b@, *m),
                    ch,
                    old(self).stack@.push(ch),
                    old(self).params,
                    old(self).tables,
                    old(self).history@,
                    ply + 1,
                    -beta,
                    -alpha,
                )
            }),
        decreases MAX_PLY - ply, 0int,
    {
        let ghost b0 = self.board;
        let ghost p0 = self.board@;
        proof {
            lemma_apply_valid(p0, *m);
            lemma_restore(b0, *m, apply_move(p0, *m));
        }
        let u = self.board.make(m);
        let us = opp(self.board.side);
        if self.board.is_attacked(self.board.king[us as usize], self.board.side) {
            self.board.unmake(m, &u);
            proof {
                lemma_board_eq(self.board, b0);
            }
            None
        } else {
            self.stack.push(self.board.hash);
            let child = self.quiescence(ply + 1, -beta, -alpha);
            self.stack.pop();
            self.board.unmake(m, &u);
            proof {
                lemma_board_eq(self.board, b0);
            }
            Some(-child)
        }
    }

    /// Quiescence search: stand pat, then captures and promotions (with
    /// delta pruning); in check, all evasions.  Returns 0 for a drawn
    /// position, the static evaluation at the ply limit, and a mate score
    /// when in check without a legal move.
    pub fn quiescence(&mut self, ply: usize, alpha: i32, beta: i32) -> (r: i32)
        requires
            old(self).wf(),
            ply < MAX_PLY,
            node_ok(old(self).cur_board()@, ply as int),
            i32::MIN < alpha < beta,
            !old(self).cut_off(),
            old(self).node_count() < u64::MAX,
        ensures
            final(self).wf(),
            Searcher::same_setup(*old(self), *final(self)),
            final(self).cur_board() == old(self).cur_board(),
            final(self).game() == old(self).game(),
            -SCORE_LIMIT <= r <= SCORE_LIMIT || alpha <= r <= beta,
            final(self).node_count() >= old(self).node_count(),
            !final(self).cut_off() ==> final(self).node_count() < u64::MAX,
            ply > 0 ==> final(self).pv_head() == old(self).pv_head(),
            ply == 0 ==> final(self).pv_head() is None,
            ply >= MAX_PLY - 1 ==> r == side_eval(
                old(self).cur_board()@,
                old(self).weights(),
                old(self).weight_tables(),
            ),
            ply < MAX_PLY - 1 && rule_draw(
                old(self).cur_board()@,
                old(self).game(),
                old(self).cur_board().hash,
            ) ==> r == 0,
            ({
                let b = old(self).cur_board();
                let no_escape = ply < MAX_PLY - 1 && !rule_draw(b@, old(self).game(), b.hash)
                    && !final(self).cut_off() && attacked(
                    b.sq@,
                    b.king@[b.side as int] as int,
                    opp_spec(b.side),
                ) && legal_moves(b@).len() == 0;
                no_escape ==> r == -MATE + ply
            }),
            ({
                let b = old(self).cur_board();
                let settled = ply < MAX_PLY - 1 && !rule_draw(b@, old(self).game(), b.hash)
                    && !final(self).cut_off();
                let in_check = attacked(b.sq@, b.king@[b.side as int] as int, opp_spec(b.side));
                settled && !(in_check && legal_moves(b@).len() == 0) ==> alpha <= r <= beta
            }),
            ({
                let b = old(self).cur_board();
                let stand = side_eval(b@, old(self).weights(), old(self).weight_tables());
                let quiet = ply < MAX_PLY - 1 && !rule_draw(b@, old(self).game(), b.hash)
                    && !final(self).cut_off() && !attacked(
                    b.sq@,
                    b.king@[b.side as int] as int,
                    opp_spec(b.side),
                );
                &&& quiet && stand >= beta ==> r == beta
                &&& quiet && stand < beta ==> r >= stand
            }),
            final(self).history_table() == old(self).history_table(),
            !final(self).cut_off() ==> r == qs_value(
                old(self).cur_board()@,
                old(self).cur_board().hash,
                old(self).game(),
                old(self).weights(),
                old(self).weight_tables(),
                old(self).history_table(),
                ply as int,
                alpha as int,
                beta as int,
            ),
        decreases MAX_PLY - ply, 1int,
    {
        if ply >= MAX_PLY - 1 {
            let v = evaluate_with(&self.board, &self.params, &self.tables);
            return if self.board.side == WHITE {
                v
            } else {
                -v
            };
        }
        self.pv_len.set(ply, ply);
        self.nodes = self.nodes + 1;
        if self.should_abort() {
            return 0;
        }
        if self.board.half >= 100 || self.board.insufficient_material() || self.is_repetition() {
            return 0;
        }
        let ghost b0 = self.board;
        let ghost p0 = self.board@;
        let ghost s0 = *self;
        proof {
            lemma_generated_moves_fit(p0);
        }
        let in_check = self.board.in_check(self.board.side);
        if !in_check {
            let v = evaluate_with(&self.board, &self.params, &self.tables);
            let stand = if self.board.side == WHITE {
                v
            } else {
                -v
            };
            if stand >= beta {
                return beta;
            }
            let mut lo = alpha;
            if stand > lo {
                lo = stand;
            }
            let mut moves: Vec<Move> = Vec::new();
            self.board.gen_captures(&mut moves);
            let ghost src = moves@;
            let mut scores: Vec<i32> = Vec::new();
            let tt_null = Move::null();
            let mut k: usize = 0;
            while k < moves.len()
                invariant
                    k <= moves@.len(),
                    scores@.len() == k,
                    moves@ == src,
                    src == tactical_moves(p0),
                    all_fit(p0, src),
                    self.wf(),
                    self.board@ == p0,
                    valid_pos(p0),
                    tt_null == null_spec(),
                    forall|j: int|
                        0 <= j < k ==> #[trigger] scores@[j] == order_spec(
                            p0,
                            self.history@,
                            src[j],
                            null_spec(),
                        ),
                decreases moves@.len() - k,
            {
                let m = moves[k];
                assert(fits(p0, src[k as int]));
                scores.push(self.order_score(&m, &tt_null));
                k += 1;
            }
            proof {
                assert(scores@ =~= Seq::new(
                    src.len(),
                    |j: int| order_spec(p0, old(self).history@, src[j], null_spec()) as i32,
                ));
            }
            let mut i: usize = 0;
            while i < moves.len()
                invariant
                    i <= moves@.len(),
                    moves@.len() == scores@.len(),
                    moves@.len() == src.len(),
                    forall|j: int| 0 <= j < moves@.len() ==> src.contains(#[trigger] moves@[j]),
                    src == tactical_moves(p0),
                    all_fit(p0, src),
                    node_ok(p0, ply as int),
                    ply < MAX_PLY - 1,
                    self.wf(),
                    Searcher::same_setup(*old(self), *self),
                    self.board == b0,
                    b0 == old(self).board,
                    b0@ == p0,
                    self.stack@ == old(self).stack@,
                    i32::MIN < lo < beta,
                    alpha <= lo,
                    stand <= lo,
                    -EVAL_BOUND <= stand <= EVAL_BOUND,
                    stand == side_eval(p0, old(self).params, old(self).tables),
                    self.history@ == old(self).history@,
                    qs_value(
                        p0,
                        b0.hash,
                        old(self).stack@,
                        old(self).params,
                        old(self).tables,
                        old(self).history@,
                        ply as int,
                        alpha as int,
                        beta as int,
                    ) == qs_captures(
                        p0,
                        b0.hash,
                        old(self).stack@,
                        old(self).params,
                        old(self).tables,
                        old(self).history@,
                        ply as int,
                        moves@,
                        scores@,
                        i as int,
                        lo as int,
                        beta as int,
                        stand as int,
                    ),
                    !rule_draw(p0, old(self).stack@, b0.hash),
                    !attacked(p0.sq, p0.king[p0.side as int] as int, opp_spec(p0.side)),
                    !self.aborted,
                    self.nodes >= old(self).nodes,
                    self.nodes < u64::MAX,
                    ply > 0 ==> self.pv_head() == old(self).pv_head(),
                    ply == 0 ==> self.pv_head() is None,
                decreases moves@.len() - i,
            {
                let ghost before = moves@;
                let ghost before_s = scores@;
                let bi = pick_next(&mut moves, &mut scores, i);
                proof {
                    assert(moves@ == swap_at(before, i as int, bi as int));
                    assert(scores@ == swap_at(before_s, i as int, bi as int));
                }
                proof {
                    lemma_swap_keeps_members(src, before, moves@, i as int, bi as int);
                }
                let m = moves[i];
                proof {
                    lemma_member_fits(p0, src, m);
                }
                let victim = if m.en_passant {
                    100
                } else {
                    piece_value_of(victim_type_of(self.board.sq[m.to as usize]))
                };
                let gain = victim + if m.promo == 4 {
                    800
                } else {
                    0
                };
                if stand + gain + 200 >= lo {
                    let res = self.q_child(&m, ply, lo, beta);
                    if let Some(score) = res {
                        if self.aborted {
                            return 0;
                        }
                        if score >= beta {
                            return beta;
                        }
                        if score > lo {
                            lo = score;
                        }
                    }
                }
                i += 1;
            }
            lo
        } else {
            let mut pseudo: Vec<Move> = Vec::new();
            self.board.gen_pseudo(&mut pseudo);
            let mut lo = alpha;
            let mut legal: usize = 0;
            let mut best: i32 = -INF;
            let mut i: usize = 0;
            while i < pseudo.len()
                invariant
                    i <= pseudo@.len(),
                    pseudo@ == pseudo_moves(p0),
                    all_fit(p0, pseudo@),
                    node_ok(p0, ply as int),
                    ply < MAX_PLY - 1,
                    self.wf(),
                    Searcher::same_setup(*old(self), *self),
                    self.board == b0,
                    b0 == old(self).board,
                    b0@ == p0,
                    self.stack@ == old(self).stack@,
                    i32::MIN < lo < beta,
                    legal <= i,
                    legal > 0 ==> legal_moves(p0).len() > 0,
                    legal == 0 ==> forall|j: int|
                        0 <= j < i ==> !king_safe_after(p0, #[trigger] pseudo@[j]),
                    alpha <= lo,
                    self.history@ == old(self).history@,
                    qs_value(
                        p0,
                        b0.hash,
                        old(self).stack@,
                        old(self).params,
                        old(self).tables,
                        old(self).history@,
                        ply as int,
                        alpha as int,
                        beta as int,
                    ) == qs_evasions(
                        p0,
                        b0.hash,
                        old(self).stack@,
                        old(self).params,
                        old(self).tables,
                        old(self).history@,
                        ply as int,
                        i as int,
                        lo as int,
                        beta as int,
                        best as int,
                        legal > 0,
                    ),
                    !rule_draw(p0, old(self).stack@, b0.hash),
                    !self.aborted,
                    self.nodes >= old(self).nodes,
                    self.nodes < u64::MAX,
                    ply > 0 ==> self.pv_head() == old(self).pv_head(),
                    ply == 0 ==> self.pv_head() is None,
                decreases pseudo@.len() - i,
            {
                let m = pseudo[i];
                proof {
                    assert(fits(p0, pseudo@[i as int]));
                }
                let res = self.q_child(&m, ply, lo, beta);
                if let Some(score) = res {
                    proof {
                        pseudo@.lemma_filter_contains(|m: Move| king_safe_after(p0, m), i as int);
                    }
                    legal += 1;
                    if self.aborted {
                        return 0;
                    }
                    if score >= beta {
                        return beta;
                    }
                    if score > best {
                        best = score;
                        if score > lo {
                            lo = score;
                        }
                    }
                }
                i += 1;
            }
            if legal == 0 {
                proof {
                    let lm = legal_moves(p0);
                    if lm.len() > 0 {
                        let f = |m: Move| king_safe_after(p0, m);
                        pseudo@.lemma_filter_pred(f, 0);
                        assert(lm.contains(lm[0]));
                        pseudo@.lemma_filter_contains_rev(f, lm[0]);
                    }
                }
                return -MATE + ply as i32;
            }
            lo
        }
    }
}


/// The material a capture or promotion can at most win, as delta pruning
/// counts it.
pub open spec fn q_gain(p: Pos, m: Move) -> int {
    (if m.en_passant {
        100int
    } else {
        piece_value(victim_type(p.sq[m.to as int]) as int) as int
    }) + if m.promo == 4 {
        800int
    } else {
        0int
    }
}

/// The value quiescence search gives position `p` (hash `h`, positions
/// `game` before and on the path) at `ply` in the window `alpha..beta`:
/// the static score at the ply limit, 0 for a draw by rule, otherwise out
/// of check the stand-pat score raised by the captures and promotions
/// (searched best-ordered first, with delta pruning) and in check the best
/// evasion, or the mate score when there is none; clipped to the window
/// (beta on a cutoff).
pub open spec fn qs_value(
    p: Pos,
    h: u64,
    game: Seq<u64>,
    e: EvalParams,
    t: Tables,
    hist: Seq<i32>,
    ply: int,
    alpha: int,
    beta: int,
) -> int
    decreases MAX_PLY - ply, 2int, 0int,
{
    if ply >= MAX_PLY - 1 {
        side_eval(p, e, t)
    } else if rule_draw(p, game, h) {
        0
    } else if !attacked(p.sq, p.king[p.side as int] as int, opp_spec(p.side)) {
        let stand = side_eval(p, e, t);
        if stand >= beta {
            beta
        } else {
            let ms = tactical_moves(p);
            let ss = Seq::new(ms.len(), |k: int| order_spec(p, hist, ms[k], null_spec()) as i32);
            qs_captures(
                p,
                h,
                game,
                e,
                t,
                hist,
                ply,
                ms,
                ss,
                0,
                if stand > alpha {
                    stand
                } else {
                    alpha
                },
                beta,
                stand,
            )
        }
    } else {
        qs_evasions(p, h, game, e, t, hist, ply, 0, alpha, beta, -INF as int, false)
    }
}

/// The rest of the capture loop of quiescence from entry `i` of the move
/// list `ms` (scored `ss`), with the window raised to `lo`.
pub open spec fn qs_captures(
    p: Pos,
    h: u64,
    game: Seq<u64>,
    e: EvalParams,
    t: Tables,
    hist: Seq<i32>,
    ply: int,
    ms: Seq<Move>,
    ss: Seq<i32>,
    i: int,
    lo: int,
    beta: int,
    stand: int,
) -> int
    decreases MAX_PLY - ply, 1int, ms.len() - i,
{
    if i < 0 || i >= ms.len() || ms.len() != ss.len() || ply >= MAX_PLY - 1 {
        lo
    } else {
        let k = scan_max(ss, i, i + 1);
        let ms2 = swap_at(ms, i, k);
        let ss2 = swap_at(ss, i, k);
        let m = ms2[i];
        proof {
            lemma_scan_max_range(ss, i, i + 1);
            assert(ms2.len() == ms.len());
        }
        if stand + q_gain(p, m) + 200 < lo || !king_safe_after(p, m) {
            qs_captures(p, h, game, e, t, hist, ply, ms2, ss2, i + 1, lo, beta, stand)
        } else {
            let ch = make_hash(p, m, h);
            let c = -qs_value(apply_move(p, m), ch, game.push(ch), e, t, hist, ply + 1, -beta, -lo);
            if c >= beta {
                beta
            } else {
                qs_captures(
                    p,
                    h,
                    game,
                    e,
                    t,
                    hist,
                    ply,
                    ms2,
                    ss2,
                    i + 1,
                    if c > lo {
                        c
                    } else {
                        lo
                    },
                    beta,
                    stand,
                )
            }
        }
    }
}

/// The rest of the evasion loop of quiescence from pseudo-legal move `i`,
/// with the window raised to `lo`, the best evasion score so far `best`,
/// and `any` telling whether a legal evasion was found.
pub open spec fn qs_evasions(
    p: Pos,
    h: u64,
    game: Seq<u64>,
    e: EvalParams,
    t: Tables,
    hist: Seq<i32>,
    ply: int,
    i: int,
    lo: int,
    beta: int,
    best: int,
    any: bool,
) -> int
    decreases MAX_PLY - ply, 1int, pseudo_moves(p).len() - i,
{
    let ms = pseudo_moves(p);
    if i < 0 || i >= ms.len() || ply >= MAX_PLY - 1 {
        if any {
            lo
        } else {
            -MATE + ply
        }
    } else {
        let m = ms[i];
        if !king_safe_after(p, m) {
            qs_evasions(p, h, game, e, t, hist, ply, i + 1, lo, beta, best, any)
        } else {
            let ch = make_hash(p, m, h);
            let c = -qs_value(apply_move(p, m), ch, game.push(ch), e, t, hist, ply + 1, -beta, -lo);
            if c >= beta {
                beta
            } else if c > best {
                qs_evasions(
                    p,
                    h,
                    game,
                    e,
                    t,
                    hist,
                    ply,
                    i + 1,
                    if c > lo {
                        c
                    } else {
                        lo
                    },
                    beta,
                    c,
                    true,
                )
            } else {
                qs_evasions(p, h, game, e, t, hist, ply, i + 1, lo, beta, best, true)
            }
        }
    }
}

/// What a table entry for `h` answers at a node below the root searched to
/// `depth` in the window `lo..beta`: the stored score (rescaled to the
/// ply) when the entry is deep enough and exact, or a bound that already
/// decides the window.
pub open spec fn tt_cut(
    entries: Seq<TTEntry>,
    h: u64,
    ply: int,
    depth: int,
    lo: int,
    beta: int,
) -> Option<int> {
    match probe_spec(entries, h) {
        Some(x) => {
            let sc = from_tt_spec(x.1 as int, ply);
            if ply > 0 && x.2 >= depth && (x.3 == FLAG_EXACT || (x.3 == FLAG_LOWER && sc >= beta) || (
            x.3 == FLAG_UPPER && sc <= lo)) {
                Some(sc)
            } else {
                None
            }
        },
        None => None,
    }
}

/// The value of a negamax node that answers before trying any move, in
/// the order the node checks: the ply limit (quiescence), mate-distance
/// pruning, the fifty-move rule and insufficient material, a repetition
/// below the root, the horizon (quiescence), a table cutoff, and reverse
/// futility pruning; `None` when the node goes on to null-move pruning
/// and its moves.
pub open spec fn node_shortcut(
    p: Pos,
    h: u64,
    game: Seq<u64>,
    e: EvalParams,
    t: Tables,
    hist: Seq<i32>,
    entries: Seq<TTEntry>,
    ply: int,
    depth: int,
    alpha: int,
    beta: int,
) -> Option<int> {
    if ply >= MAX_PLY - 1 {
        Some(qs_value(p, h, game, e, t, hist, ply, alpha, beta))
    } else {
        let mated = -MATE + ply;
        let lo = if mated > alpha {
            mated
        } else {
            alpha
        };
        if mated > alpha && lo >= beta {
            Some(lo)
        } else if p.half >= 100 || insufficient_spec(p.sq) {
            Some(0)
        } else if ply > 0 && count_hash(game, h, game.len() as int) >= 3 {
            Some(0)
        } else if depth <= 0 {
            Some(qs_value(p, h, game, e, t, hist, ply, lo, beta))
        } else if tt_cut(entries, h, ply, depth, lo, beta) is Some {
            tt_cut(entries, h, ply, depth, lo, beta)
        } else {
            let st = side_eval(p, e, t);
            if !attacked(p.sq, p.king[p.side as int] as int, opp_spec(p.side)) && depth <= 4 && st
                - 90 * depth >= beta && st < MATE - 1000 {
                Some(st)
            } else {
                None
            }
        }
    }
}

/// After a node searched its moves: the table holds its position at least
/// as deep as the node searched, and, where the entry is as deep, with the
/// node's score (rescaled for the table).
pub open spec fn tt_holds(entries: Seq<TTEntry>, h: u64, depth: int, ply: int, score: int) -> bool {
    probe_spec(entries, h) matches Some(x) && x.2 >= depth && (x.2 == depth ==> x.1 as int
        == to_tt_spec(score, ply))
}

/// A root restriction as a sequence.
pub open spec fn allow_seq(a: Option<&[Move]>) -> Option<Seq<Move>> {
    match a {
        Some(s) => Some(s@),
        None => None,
    }
}

/// The root's principal move, if any, is legal in `p` and allowed.
pub open spec fn root_pv_ok(head: Option<Move>, p: Pos, allow: Option<Seq<Move>>) -> bool {
    head matches Some(m) ==> legal_moves(p).contains(m) && (allow matches Some(a) ==> a.contains(m))
}

proof fn lemma_xor_back(a: u64, b: u64, c: u64)
    ensures
        ((a ^ b) ^ c) ^ c ^ b == a,
{
    assert(((a ^ b) ^ c) ^ c ^ b == a) by (bit_vector);
}

/// A position with the clock changed and otherwise the same stays valid.
proof fn lemma_valid_half(p: Pos, q: Pos)
    requires
        valid_pos(p),
        same_but_half(p, q),
    ensures
        valid_pos(q),
{
}

impl Searcher {
    /// Records `m` as the best move at `ply`, followed by the line found
    /// one ply deeper.
    fn update_pv(&mut self, ply: usize, m: Move)
        requires
            old(self).wf(),
            ply < MAX_PLY - 1,
        ensures
            final(self).wf(),
            *final(self) == (Searcher { pv: final(self).pv, pv_len: final(self).pv_len, ..*old(self) }),
            ply > 0 ==> final(self).pv_head() == old(self).pv_head(),
            ply == 0 ==> (final(self).pv_head() matches Some(h) ==> h == m),
    {
        self.pv.set(ply * MAX_PLY + ply, m);
        let mut j = ply + 1;
        let end = self.pv_len[ply + 1];
        while j < end
            invariant
                ply + 1 <= j,
                end <= MAX_PLY,
                ply < MAX_PLY - 1,
                self.pv@.len() == MAX_PLY * MAX_PLY,
                self.pv@[0] == (if ply == 0 { m } else { old(self).pv@[0] }),
                *self == (Searcher { pv: self.pv, ..*old(self) }),
            decreases end - j,
        {
            let x = self.pv[(ply + 1) * MAX_PLY + j];
            self.pv.set(ply * MAX_PLY + j, x);
            j += 1;
        }
        let l = self.pv_len[ply + 1];
        self.pv_len.set(ply, l);
    }

    /// A quiet move caused a cutoff: it becomes the first killer of its ply
    /// and gains history (depth squared, capped at 1000000).
    fn note_quiet_cutoff(&mut self, ply: usize, m: Move, depth: i8)
        requires
            old(self).wf(),
            ply < MAX_PLY,
            m.to < 64,
            m.from < 64,
            sane_pos(old(self).board@),
            1 <= depth <= 125,
        ensures
            final(self).wf(),
            *final(self) == (Searcher {
                killers: final(self).killers,
                history: final(self).history,
                ..*old(self)
            }),
            ({
                let k0 = old(self).killers@[2 * ply];
                final(self).killers@ == if k0.from != m.from || k0.to != m.to {
                    old(self).killers@.update(2 * ply + 1, k0).update(2 * ply as int, m)
                } else {
                    old(self).killers@
                }
            }),
            ({
                let pc = old(self).board.sq@[m.from as int];
                let i = (pc - 1) * 64 + m.to;
                let v = old(self).history@[i] + depth * depth;
                final(self).history@ == if pc != EMPTY {
                    old(self).history@.update(i, if v < 1000000 { v as i32 } else { 1000000i32 })
                } else {
                    old(self).history@
                }
            }),
    {
        let k0 = self.killers[2 * ply];
        if k0.from != m.from || k0.to != m.to {
            self.killers.set(2 * ply + 1, k0);
            self.killers.set(2 * ply, m);
        }
        let p = self.board.sq[m.from as usize];
        if p != EMPTY {
            let i = (p as usize - 1) * 64 + m.to as usize;
            let e = self.history[i];
            assert(0 <= self.history@[i as int] <= 1000000);
            let d = depth as i32;
            assert(0 <= d * d <= 15625) by (nonlinear_arith)
                requires
                    1 <= d <= 125,
            ;
            let v = e + d * d;
            self.history.set(
                i,
                if v < 1000000 {
                    v
                } else {
                    1000000
                },
            );
        }
    }

    /// Ordering scores of `moves`: `order_score`, with quiet killer moves of
    /// the ply raised to at least 850000 (first killer) or 840000 (second).
    fn score_moves(&self, moves: &Vec<Move>, tt_move: &Move, ply: usize) -> (scores: Vec<i32>)
        requires
            self.wf(),
            valid_pos(self.board@),
            ply < MAX_PLY,
            all_fit(self.board@, moves@),
        ensures
            scores@.len() == moves@.len(),
    {
        let mut scores: Vec<i32> = Vec::new();
        let k0 = self.killers[2 * ply];
        let k1 = self.killers[2 * ply + 1];
        let mut i: usize = 0;
        while i < moves.len()
            invariant
                i <= moves@.len(),
                scores@.len() == i,
                self.wf(),
                valid_pos(self.board@),
                all_fit(self.board@, moves@),
            decreases moves@.len() - i,
        {
            let m = moves[i];
            assert(fits(self.board@, moves@[i as int]));
            let mut s = self.order_score(&m, tt_move);
            if !m.capture && m.promo == 0 {
                if k0.from == m.from && k0.to == m.to {
                    if s < 850000 {
                        s = 850000;
                    }
                } else if k1.from == m.from && k1.to == m.to {
                    if s < 840000 {
                        s = 840000;
                    }
                }
            }
            scores.push(s);
            i += 1;
        }
        scores
    }

    /// Null-move pruning: the side to move passes and a reduced search
    /// checks whether the opponent still cannot reach `beta`.  Returns the
    /// node's result when the search is cut off (0) or fails high (`beta`);
    /// the null move's increment of the halfmove clock is kept.
    fn null_move_child(&mut self, ply: usize, depth: i8, beta: i32) -> (r: Option<i32>)
        requires
            old(self).wf(),
            ply < MAX_PLY - 1,
            3 <= depth <= 125,
            node_ok(old(self).board@, ply as int),
            old(self).board.half < 100,
            -WINDOW_LIMIT < beta <= WINDOW_LIMIT,
            !old(self).aborted,
            old(self).nodes < u64::MAX,
        ensures
            final(self).wf(),
            Searcher::same_setup(*old(self), *final(self)),
            same_but_half(old(self).board@, final(self).board@),
            final(self).board.half == old(self).board.half + 1,
            final(self).board.hash == old(self).board.hash,
            final(self).stack@ == old(self).stack@,
            final(self).pv_head() == old(self).pv_head(),
            final(self).nodes >= old(self).nodes,
            !final(self).aborted ==> final(self).nodes < u64::MAX,
            r matches Some(v) ==> v == 0 || v == beta,
            r is Some && !final(self).aborted ==> r->0 == beta,
            r is None ==> !final(self).aborted,
        decreases MAX_PLY - ply, 1int,
    {
        let ghost b0 = self.board;
        let rr: i8 = 2 + if depth > 6 {
            1i8
        } else {
            0i8
        };
        let (old_ep, old_half) = self.make_null();
        assert(valid_pos(self.board@));
        self.stack.push(self.board.hash);
        let child = self.negamax_impl(ply + 1, depth - 1 - rr, -beta, -beta + 1, None);
        let score = -child;
        self.stack.pop();
        self.unmake_null(old_ep, old_half);
        proof {
            lemma_xor_back(
                b0.hash,
                if b0.ep != NO_SQ {
                    ep_key(b0.ep & 7)
                } else {
                    0
                },
                side_key(),
            );
        }
        if self.aborted {
            return Some(0);
        }
        if score >= beta {
            return Some(beta);
        }
        None
    }
}


impl Searcher {
    /// One move of the main search: plays `m` (the `nth` legal move of the
    /// node); when it leaves the mover's king safe, searches the reply
    /// position (check extension; the first move with the full window,
    /// later ones by late-move reduction or a null-window probe, re-searched
    /// when they beat `alpha`) and returns the score from the mover's side;
    /// takes the move back.
    #[verifier::rlimit(80)]
    #[verifier::spinoff_prover]
    fn nm_child(
        &mut self,
        m: &Move,
        ply: usize,
        depth: i8,
        alpha: i32,
        beta: i32,
        in_check: bool,
        nth: usize,
    ) -> (r: Option<i32>)
        requires
            old(self).wf(),
            ply < MAX_PLY - 1,
            1 <= depth <= 125,
            node_ok(old(self).board@, ply as int),
            fits(old(self).board@, *m),
            -WINDOW_LIMIT <= alpha < beta <= WINDOW_LIMIT,
            !old(self).aborted,
            old(self).nodes < u64::MAX,
            nth >= 1,
        ensures
            final(self).wf(),
            Searcher::same_setup(*old(self), *final(self)),
            final(self).board == old(self).board,
            final(self).stack@ == old(self).stack@,
            final(self).pv_head() == old(self).pv_head(),
            r is Some <==> king_safe_after(old(self).board@, *m),
            r matches Some(v) ==> (-SCORE_LIMIT <= v <= SCORE_LIMIT || alpha <= v <= beta),
            r is None ==> !final(self).aborted,
            final(self).nodes >= old(self).nodes,
            !final(self).aborted ==> final(self).nodes < u64::MAX,
        decreases MAX_PLY - ply, 0int,
    {
        let ghost b0 = self.board;
        let ghost p0 = self.board@;
        let ghost q = apply_move(p0, *m);
        proof {
            lemma_apply_valid(p0, *m);
            lemma_unmake_undoes_make(b0, *m);
        }
        let u = self.board.make(m);
        let us = opp(self.board.side);
        if self.board.is_attacked(self.board.king[us as usize], self.board.side) {
            self.board.unmake(m, &u);
            proof {
                lemma_board_eq(self.board, b0);
            }
            return None;
        }
        let gives_check = self.board.is_attacked(self.board.king[self.board.side as usize], us);
        let ext: i8 = if gives_check {
            1
        } else {
            0
        };
        self.stack.push(self.board.hash);
        if (ply + 1) as u32 > self.seldepth {
            self.seldepth = (ply + 1) as u32;
        }
        let score: i32;
        if nth == 1 {
            let c = self.negamax_impl(ply + 1, depth - 1 + ext, -beta, -alpha, None);
            score = -c;
        } else {
            let mut red: i8 = 0;
            if depth >= 3 && !in_check && !m.capture && m.promo == 0 && !gives_check && nth > 3 {
                red = 1;
                if depth >= 6 && nth > 8 {
                    red = 2;
                }
            }
            let probe = if red > 0 {
                self.negamax_impl(ply + 1, depth - 1 - red + ext, -alpha - 1, -alpha, None)
            } else {
                self.negamax_impl(ply + 1, depth - 1 + ext, -alpha - 1, -alpha, None)
            };
            let first = -probe;
            if self.aborted {
                self.stack.pop();
                proof {
                    lemma_restore(b0, *m, self.board@);
                }
                self.board.unmake(m, &u);
                proof {
                    lemma_board_eq(self.board, b0);
                }
                return Some(0);
            }
            let again = if red > 0 {
                first > alpha
            } else {
                first > alpha && first < beta
            };
            if again {
                proof {
                    lemma_valid_half(q, self.board@);
                }
                let c = self.negamax_impl(ply + 1, depth - 1 + ext, -beta, -alpha, None);
                score = -c;
            } else {
                score = first;
            }
        }
        self.stack.pop();
        proof {
            lemma_restore(b0, *m, self.board@);
        }
        self.board.unmake(m, &u);
        proof {
            lemma_board_eq(self.board, b0);
        }
        Some(score)
    }

    /// Negamax alpha-beta search of `depth` plies at `ply` from the root.
    pub fn negamax(&mut self, ply: usize, depth: i8, alpha: i32, beta: i32) -> (r: i32)
        requires
            old(self).wf(),
            ply < MAX_PLY,
            depth <= 125,
            node_ok(old(self).cur_board()@, ply as int),
            -WINDOW_LIMIT <= alpha < beta <= WINDOW_LIMIT,
            !old(self).cut_off(),
            old(self).node_count() < u64::MAX,
            ply == 0 ==> root_pv_ok(old(self).pv_head(), old(self).cur_board()@, None),
        ensures
            final(self).wf(),
            Searcher::same_setup(*old(self), *final(self)),
            same_but_half(old(self).cur_board()@, final(self).cur_board()@),
            half_step(old(self).cur_board().half, final(self).cur_board().half),
            final(self).cur_board().hash == old(self).cur_board().hash,
            final(self).game() == old(self).game(),
            -SCORE_LIMIT <= r <= SCORE_LIMIT || alpha <= r <= beta,
            final(self).node_count() >= old(self).node_count(),
            !final(self).cut_off() ==> final(self).node_count() < u64::MAX,
            ply > 0 ==> final(self).pv_head() == old(self).pv_head(),
            ply == 0 ==> root_pv_ok(final(self).pv_head(), old(self).cur_board()@, None),
            ({
                let b = old(self).cur_board();
                (ply < MAX_PLY - 1 && -MATE + ply < beta && (b.half >= 100 || insufficient_spec(b.sq@)
                    || (ply > 0 && count_hash(old(self).game(), b.hash, old(self).game().len() as int)
                    >= 3))) ==> r == 0
            }),
            ({
                let b = old(self).cur_board();
                let settled = ply < MAX_PLY - 1 && !final(self).cut_off() && !rule_draw(
                    b@,
                    old(self).game(),
                    b.hash,
                ) && legal_moves(b@).len() == 0 && (ply == 0 || !tt_deep_hit(
                    old(self).table(),
                    b.hash,
                    depth as int,
                ));
                let in_check = attacked(b.sq@, b.king@[b.side as int] as int, opp_spec(b.side));
                &&& settled && in_check ==> r == -MATE + ply
                &&& settled && !in_check && depth >= 1 && -MATE + ply < beta && side_eval(
                    b@,
                    old(self).weights(),
                    old(self).weight_tables(),
                ) < beta ==> r == 0
            }),
            ({
                let b = old(self).cur_board();
                (ply < MAX_PLY - 1 && -MATE + ply < beta && !final(self).cut_off() && (b.half >= 100
                    || insufficient_spec(b.sq@) || (ply > 0 && count_hash(
                    old(self).game(),
                    b.hash,
                    old(self).game().len() as int,
                ) >= 3))) ==> final(self).pv_end(ply as int) == ply
            }),
            !final(self).cut_off() ==> (node_shortcut(
                old(self).cur_board()@,
                old(self).cur_board().hash,
                old(self).game(),
                old(self).weights(),
                old(self).weight_tables(),
                old(self).history_table(),
                old(self).table().entries(),
                ply as int,
                depth as int,
                alpha as int,
                beta as int,
            ) matches Some(v) ==> r == v),
            ({
                let b = old(self).cur_board();
                let searched = !final(self).cut_off() && node_shortcut(
                    b@,
                    b.hash,
                    old(self).game(),
                    old(self).weights(),
                    old(self).weight_tables(),
                    old(self).history_table(),
                    old(self).table().entries(),
                    ply as int,
                    depth as int,
                    alpha as int,
                    beta as int,
                ) is None && (attacked(b.sq@, b.king@[b.side as int] as int, opp_spec(b.side))
                    || side_eval(b@, old(self).weights(), old(self).weight_tables()) < beta);
                searched && legal_moves(b@).len() > 0 ==> tt_holds(
                    final(self).table().entries(),
                    b.hash,
                    depth as int,
                    ply as int,
                    r as int,
                )
            }),
            ({
                let b = old(self).cur_board();
                let past_shortcuts = !final(self).cut_off() && node_shortcut(
                    b@,
                    b.hash,
                    old(self).game(),
                    old(self).weights(),
                    old(self).weight_tables(),
                    old(self).history_table(),
                    old(self).table().entries(),
                    ply as int,
                    depth as int,
                    alpha as int,
                    beta as int,
                ) is None;
                past_shortcuts && legal_moves(b@).len() > 0 ==> r == beta || tt_holds(
                    final(self).table().entries(),
                    b.hash,
                    depth as int,
                    ply as int,
                    r as int,
                )
            }),
    {
        self.negamax_impl(ply, depth, alpha, beta, None)
    }

    #[verifier::rlimit(60)]
    #[verifier::spinoff_prover]
    fn negamax_impl(
        &mut self,
        ply: usize,
        depth: i8,
        alpha: i32,
        beta: i32,
        root_allow: Option<&[Move]>,
    ) -> (r: i32)
        requires
            old(self).wf(),
            ply < MAX_PLY,
            depth <= 125,
            node_ok(old(self).board@, ply as int),
            -WINDOW_LIMIT <= alpha < beta <= WINDOW_LIMIT,
            !old(self).aborted,
            old(self).nodes < u64::MAX,
            root_allow is Some ==> ply == 0,
            root_allow matches Some(a) ==> forall|i: int|
                0 <= i < a@.len() ==> legal_moves(old(self).board@).contains(#[trigger] a@[i]),
            ply == 0 ==> root_pv_ok(old(self).pv_head(), old(self).board@, allow_seq(root_allow)),
        ensures
            final(self).wf(),
            Searcher::same_setup(*old(self), *final(self)),
            same_but_half(old(self).board@, final(self).board@),
            half_step(old(self).board.half, final(self).board.half),
            final(self).board.hash == old(self).board.hash,
            final(self).stack@ == old(self).stack@,
            -SCORE_LIMIT <= r <= SCORE_LIMIT || alpha <= r <= beta,
            final(self).nodes >= old(self).nodes,
            !final(self).aborted ==> final(self).nodes < u64::MAX,
            ply > 0 ==> final(self).pv_head() == old(self).pv_head(),
            ply == 0 ==> root_pv_ok(final(self).pv_head(), old(self).board@, allow_seq(root_allow)),
            ({
                let b = old(self).board;
                (ply < MAX_PLY - 1 && -MATE + ply < beta && (b.half >= 100 || insufficient_spec(b.sq@)
                    || (ply > 0 && count_hash(old(self).stack@, b.hash, old(self).stack@.len() as int)
                    >= 3))) ==> r == 0
            }),
            ({
                let b = old(self).board;
                let settled = root_allow is None && ply < MAX_PLY - 1 && !final(self).aborted
                    && !rule_draw(b@, old(self).stack@, b.hash) && legal_moves(b@).len() == 0 && (
                ply == 0 || !tt_deep_hit(old(self).tt, b.hash, depth as int));
                let in_check = attacked(b.sq@, b.king@[b.side as int] as int, opp_spec(b.side));
                &&& settled && in_check ==> r == -MATE + ply
                &&& settled && !in_check && depth >= 1 && -MATE + ply < beta && side_eval(
                    b@,
                    old(self).params,
                    old(self).tables,
                ) < beta ==> r == 0
            }),
            ({
                let b = old(self).board;
                (ply < MAX_PLY - 1 && -MATE + ply < beta && !final(self).aborted && (b.half >= 100
                    || insufficient_spec(b.sq@) || (ply > 0 && count_hash(
                    old(self).stack@,
                    b.hash,
                    old(self).stack@.len() as int,
                ) >= 3))) ==> final(self).pv_len@[ply as int] == ply
            }),
            !final(self).aborted ==> (node_shortcut(
                old(self).board@,
                old(self).board.hash,
                old(self).stack@,
                old(self).params,
                old(self).tables,
                old(self).history@,
                old(self).tt.entries(),
                ply as int,
                depth as int,
                alpha as int,
                beta as int,
            ) matches Some(v) ==> r == v),
            ({
                let b = old(self).board;
                let searched = !final(self).aborted && root_allow is None && node_shortcut(
                    b@,
                    b.hash,
                    old(self).stack@,
                    old(self).params,
                    old(self).tables,
                    old(self).history@,
                    old(self).tt.entries(),
                    ply as int,
                    depth as int,
                    alpha as int,
                    beta as int,
                ) is None && (attacked(b.sq@, b.king@[b.side as int] as int, opp_spec(b.side))
                    || side_eval(b@, old(self).params, old(self).tables) < beta);
                searched && legal_moves(b@).len() > 0 ==> tt_holds(
                    final(self).tt.entries(),
                    b.hash,
                    depth as int,
                    ply as int,
                    r as int,
                )
            }),
            ({
                let b = old(self).board;
                let past_shortcuts = !final(self).aborted && root_allow is None && node_shortcut(
                    b@,
                    b.hash,
                    old(self).stack@,
                    old(self).params,
                    old(self).tables,
                    old(self).history@,
                    old(self).tt.entries(),
                    ply as int,
                    depth as int,
                    alpha as int,
                    beta as int,
                ) is None;
                past_shortcuts && legal_moves(b@).len() > 0 ==> r == beta || tt_holds(
                    final(self).tt.entries(),
                    b.hash,
                    depth as int,
                    ply as int,
                    r as int,
                )
            }),
        decreases MAX_PLY - ply, 2int,
    {
        if ply >= MAX_PLY - 1 {
            return self.quiescence(ply, alpha, beta);
        }
        self.nodes = self.nodes + 1;
        if self.should_abort() {
            return 0;
        }
        let mut alpha = alpha;
        let mated = -MATE + ply as i32;
        if mated > alpha {
            alpha = mated;
            if alpha >= beta {
                return alpha;
            }
        }
        if self.board.half >= 100 || self.board.insufficient_material() {
            self.pv_len.set(ply, ply);
            return 0;
        }
        if ply > 0 && self.is_repetition() {
            self.pv_len.set(ply, ply);
            return 0;
        }
        let in_check = self.board.in_check(self.board.side);
        if depth <= 0 {
            return self.quiescence(ply, alpha, beta);
        }
        self.pv_len.set(ply, ply);
        let ghost p0 = self.board@;
        let mut tt_move = Move::null();
        let probe = self.tt.probe(self.board.hash);
        if let Some((mv, s, d, flag)) = probe {
            tt_move = mv;
            if ply > 0 && d as i32 >= depth as i32 {
                let score = Self::mate_from_tt(s, ply as i32);
                if flag == FLAG_EXACT {
                    return score;
                }
                if flag == FLAG_LOWER && score >= beta {
                    return score;
                }
                if flag == FLAG_UPPER && score <= alpha {
                    return score;
                }
            }
        }
        let static_eval: i32 = if in_check {
            -INF
        } else {
            let v = evaluate_with(&self.board, &self.params, &self.tables);
            if self.board.side == WHITE {
                v
            } else {
                -v
            }
        };
        if !in_check && depth <= 4 && static_eval - 90 * depth as i32 >= beta && static_eval < MATE
            - 1000 {
            return static_eval;
        }
        if !in_check && depth >= 3 && static_eval >= beta && self.has_non_pawn(self.board.side)
            && beta < MATE - 1000 {
            let cut = self.null_move_child(ply, depth, beta);
            if let Some(v) = cut {
                return v;
            }
        }
        self.search_moves(ply, depth, alpha, beta, in_check, static_eval, tt_move, root_allow, Ghost(p0))
    }
}


impl Searcher {
    /// The move loop of a node: the moves (the root restriction at the root,
    /// else all pseudo-legal moves) in order of their scores, with futility
    /// pruning of quiet moves at shallow depth, principal-variation and
    /// killer/history updates, and a cutoff at `beta`.  Without a legal move
    /// the result is a mate score in check and 0 otherwise.  The result is
    /// stored in the table unless the search was cut off.
    #[verifier::rlimit(80)]
    #[verifier::spinoff_prover]
    fn search_moves(
        &mut self,
        ply: usize,
        depth: i8,
        alpha: i32,
        beta: i32,
        in_check: bool,
        static_eval: i32,
        tt_move: Move,
        root_allow: Option<&[Move]>,
        Ghost(p0): Ghost<Pos>,
    ) -> (r: i32)
        requires
            old(self).wf(),
            ply < MAX_PLY - 1,
            1 <= depth <= 125,
            node_ok(old(self).board@, ply as int),
            same_but_half(p0, old(self).board@),
            -WINDOW_LIMIT <= alpha < beta <= WINDOW_LIMIT,
            -EVAL_BOUND <= static_eval <= EVAL_BOUND,
            !old(self).aborted,
            old(self).nodes < u64::MAX,
            root_allow is Some ==> ply == 0,
            root_allow matches Some(a) ==> forall|i: int|
                0 <= i < a@.len() ==> legal_moves(p0).contains(#[trigger] a@[i]),
            ply == 0 ==> old(self).pv_head() is None,
            in_check == attacked(
                old(self).board.sq@,
                old(self).board.king@[old(self).board.side as int] as int,
                opp_spec(old(self).board.side),
            ),
        ensures
            final(self).wf(),
            Searcher::same_setup(*old(self), *final(self)),
            final(self).board == old(self).board,
            final(self).stack@ == old(self).stack@,
            -SCORE_LIMIT <= r <= SCORE_LIMIT || alpha <= r <= beta,
            final(self).nodes >= old(self).nodes,
            !final(self).aborted ==> final(self).nodes < u64::MAX,
            ply > 0 ==> final(self).pv_head() == old(self).pv_head(),
            ply == 0 ==> root_pv_ok(final(self).pv_head(), p0, allow_seq(root_allow)),
            !final(self).aborted && legal_moves(p0).len() == 0 ==> r == (if in_check {
                -MATE + ply
            } else {
                0
            }),
            !final(self).aborted && legal_moves(p0).len() > 0 && root_allow is None ==> tt_holds(
                final(self).tt.entries(),
                old(self).board.hash,
                depth as int,
                ply as int,
                r as int,
            ),
        decreases MAX_PLY - ply, 1int,
    {
        let ghost b1 = self.board;
        let ghost p1 = self.board@;
        proof {
            lemma_moves_ignore_clocks(p0, p1);
            lemma_generated_moves_fit(p1);
        }
        let mut moves: Vec<Move> = Vec::new();
        if ply == 0 {
            match root_allow {
                Some(a) => {
                    let mut k: usize = 0;
                    while k < a.len()
                        invariant
                            k <= a@.len(),
                            moves@ == a@.take(k as int),
                        decreases a@.len() - k,
                    {
                        moves.push(a[k]);
                        proof {
                            assert(a@.take(k + 1) =~= a@.take(k as int).push(a@[k as int]));
                        }
                        k += 1;
                    }
                    proof {
                        assert(a@.take(a@.len() as int) =~= a@);
                    }
                },
                None => {
                    self.board.gen_pseudo(&mut moves);
                },
            }
        } else {
            self.board.gen_pseudo(&mut moves);
        }
        let ghost src = moves@;
        proof {
            assert forall|x: Move| #[trigger] src.contains(x) implies pseudo_moves(p0).contains(x)
                && fits(p1, x) && (allow_seq(root_allow) matches Some(a) ==> a.contains(x)) by {
                if root_allow is Some && ply == 0 {
                    let a = allow_seq(root_allow)->0;
                    let k = choose|k: int| 0 <= k < src.len() && src[k] == x;
                    assert(legal_moves(p0).contains(a[k]));
                    lemma_legal_member(p0, x);
                }
                lemma_member_fits(p1, pseudo_moves(p1), x);
            }
            assert forall|j: int| 0 <= j < moves@.len() implies fits(p1, #[trigger] moves@[j]) by {
                assert(src.contains(src[j]));
            }
        }
        let mut scores = self.score_moves(&moves, &tt_move, ply);
        let ghost a0 = alpha;
        let mut alpha = alpha;
        let mut legal: usize = 0;
        let mut best_score: i32 = -INF;
        let mut best_move = Move::null();
        let mut flag: u8 = FLAG_UPPER;
        let futile_base: i32 = if !in_check && depth <= 2 {
            static_eval
        } else {
            -INF
        };
        let fut_margin: i32 = if depth >= 2 {
            250
        } else if depth == 1 {
            150
        } else {
            0
        };
        let mut cut = false;
        let mut i: usize = 0;
        while i < moves.len() && !cut
            invariant
                i <= moves@.len(),
                moves@.len() == scores@.len(),
                moves@.len() == src.len(),
                forall|j: int| 0 <= j < moves@.len() ==> src.contains(#[trigger] moves@[j]),
                forall|x: Move|
                    #[trigger] src.contains(x) ==> pseudo_moves(p0).contains(x) && fits(p1, x) && (
                    allow_seq(root_allow) matches Some(a) ==> a.contains(x)),
                forall|m: Move| #[trigger] king_safe_after(p0, m) == king_safe_after(p1, m),
                ply < MAX_PLY - 1,
                1 <= depth <= 125,
                node_ok(p1, ply as int),
                p1 == b1@,
                self.wf(),
                Searcher::same_setup(*old(self), *self),
                self.board == b1,
                b1 == old(self).board,
                self.stack@ == old(self).stack@,
                -WINDOW_LIMIT <= alpha <= WINDOW_LIMIT,
                a0 <= alpha,
                -WINDOW_LIMIT <= a0,
                !cut ==> alpha < beta,
                beta <= WINDOW_LIMIT,
                -SCORE_LIMIT <= best_score <= SCORE_LIMIT || a0 <= best_score <= beta,
                best_move.from < 64,
                best_move.to < 64,
                legal <= i,
                legal > 0 ==> legal_moves(p0).len() > 0,
                cut ==> legal > 0,
                legal == 0 ==> forall|j: int|
                    0 <= j < i ==> !king_safe_after(p0, #[trigger] moves@[j]),
                forall|x: Move| src.contains(x) ==> moves@.contains(x),
                root_allow is None ==> src == pseudo_moves(p0),
                flag == FLAG_UPPER || flag == FLAG_EXACT || flag == FLAG_LOWER,
                -EVAL_BOUND <= futile_base <= EVAL_BOUND,
                0 <= fut_margin <= 250,
                !self.aborted,
                self.nodes >= old(self).nodes,
                self.nodes < u64::MAX,
                ply > 0 ==> self.pv_head() == old(self).pv_head(),
                ply == 0 ==> root_pv_ok(self.pv_head(), p0, allow_seq(root_allow)),
            decreases moves@.len() - i,
        {
            let ghost before = moves@;
            let bi = pick_next(&mut moves, &mut scores, i);
            proof {
                lemma_swap_keeps_members(src, before, moves@, i as int, bi as int);
                lemma_swap_covers(before, moves@, i as int, bi as int);
            }
            let m = moves[i];
            proof {
                assert(src.contains(moves@[i as int]));
            }
            let is_cap = m.capture;
            let is_promo = m.promo != 0;
            let futile = !in_check && depth <= 2 && legal > 0 && !is_cap && !is_promo && futile_base
                + fut_margin < alpha;
            if !futile {
                let res = self.nm_child(&m, ply, depth, alpha, beta, in_check, legal + 1);
                if let Some(score) = res {
                    proof {
                        assert(pseudo_moves(p0).contains(m));
                        let k = choose|k: int|
                            0 <= k < pseudo_moves(p0).len() && pseudo_moves(p0)[k] == m;
                        pseudo_moves(p0).lemma_filter_contains(|m: Move| king_safe_after(p0, m), k);
                    }
                    legal += 1;
                    if self.aborted {
                        return 0;
                    }
                    if score > best_score {
                        best_score = score;
                        best_move = m;
                        if score > alpha {
                            alpha = score;
                            flag = FLAG_EXACT;
                            proof {
                                if ply == 0 {
                                    assert(pseudo_moves(p0).contains(m));
                                    assert(king_safe_after(p0, m));
                                    let k = choose|k: int|
                                        0 <= k < pseudo_moves(p0).len() && pseudo_moves(p0)[k]
                                            == m;
                                    pseudo_moves(p0).lemma_filter_contains(
                                        |m: Move| king_safe_after(p0, m),
                                        k,
                                    );
                                }
                            }
                            self.update_pv(ply, m);
                            if score >= beta {
                                flag = FLAG_LOWER;
                                if !is_cap && !is_promo {
                                    self.note_quiet_cutoff(ply, m, depth);
                                }
                                cut = true;
                            }
                        }
                    }
                }
            }
            i += 1;
        }
        if legal == 0 {
            proof {
                let lm = legal_moves(p0);
                if lm.len() > 0 && root_allow is None {
                    let f = |m: Move| king_safe_after(p0, m);
                    pseudo_moves(p0).lemma_filter_pred(f, 0);
                    assert(lm.contains(lm[0]));
                    pseudo_moves(p0).lemma_filter_contains_rev(f, lm[0]);
                    assert(moves@.contains(lm[0]));
                    let j = choose|j: int| 0 <= j < moves@.len() && moves@[j] == lm[0];
                    assert(!king_safe_after(p0, moves@[j]));
                }
            }
            self.pv_len.set(ply, ply);
            if in_check {
                return -MATE + ply as i32;
            } else {
                return 0;
            }
        }
        if !self.aborted {
            let st = Self::mate_to_tt(best_score, ply as i32);
            proof {
                self.tt.lemma_has_slots();
            }
            self.tt.store(self.board.hash, best_move, st, depth, flag);
        }
        best_score
    }
}


// ---------------------------------------------------------------------------
// Time management
// ---------------------------------------------------------------------------
pub open spec fn min_int(a: int, b: int) -> int {
    if a < b {
        a
    } else {
        b
    }
}

pub open spec fn max_int(a: int, b: int) -> int {
    if a < b {
        b
    } else {
        a
    }
}

/// Remaining time and increment of the side to move.
pub open spec fn clock_of(us: u8, lim: SearchLimits) -> (Option<u64>, int) {
    if us == WHITE {
        (
            lim.wtime,
            match lim.winc {
                Some(x) => x as int,
                None => 0,
            },
        )
    } else {
        (
            lim.btime,
            match lim.binc {
                Some(x) => x as int,
                None => 0,
            },
        )
    }
}

/// The planned share of the remaining time `r` before the safety margin:
/// `r / movestogo` when the moves to go are given, else `r / 25`, plus
/// half the increment.
pub open spec fn time_share(r: u64, inc: int, movestogo: Option<u32>) -> int {
    match movestogo {
        Some(m) => (r as int) / (if m < 1 {
            1
        } else {
            m as int
        }) + inc / 2,
        None => (r as int) / 25 + inc / 2,
    }
}

/// The soft budget: the share, kept below the remaining time minus the
/// margin (`overhead + 10`), and at least 10 ms when that much is left.
pub open spec fn soft_budget(r: u64, inc: int, movestogo: Option<u32>, overhead: u64) -> int {
    let margin = overhead + 10;
    if r <= margin {
        0
    } else {
        let max_use = r - margin;
        let b = min_int(time_share(r, inc, movestogo), max_use);
        if b < 10 && max_use >= 10 {
            10
        } else {
            b
        }
    }
}

/// Soft and hard time limits in milliseconds from the start of the
/// search: both the move time less the overhead when a move time is given;
/// else, with the side's clock, the soft budget and four times it (never
/// more than the remaining time minus the margin, never less than the
/// soft budget); without a clock, none.
pub open spec fn time_budget(us: u8, lim: SearchLimits, overhead: u64) -> (Option<u64>, Option<u64>) {
    match lim.movetime {
        Some(mt) => {
            let t = (mt - min_int(overhead as int, mt as int)) as u64;
            (Some(t), Some(t))
        },
        None => match clock_of(us, lim).0 {
            None => (None, None),
            Some(r) => {
                let inc = clock_of(us, lim).1;
                let base = soft_budget(r, inc, lim.movestogo, overhead);
                let margin = overhead + 10;
                let rest = if r >= margin {
                    r - margin
                } else {
                    0
                };
                let hard = min_int(base * 4, rest);
                (Some(base as u64), Some(max_int(hard, base) as u64))
            },
        },
    }
}

/// The time formula stays within 64-bit arithmetic.
pub open spec fn time_fits(us: u8, lim: SearchLimits, overhead: u64) -> bool {
    lim.movetime is Some || match clock_of(us, lim).0 {
        None => true,
        Some(r) => {
            let inc = clock_of(us, lim).1;
            &&& time_share(r, inc, lim.movestogo) <= u64::MAX
            &&& overhead + 10 <= u64::MAX
            &&& soft_budget(r, inc, lim.movestogo, overhead) * 4 <= u64::MAX
        },
    }
}

/// Whether the time formula can be evaluated for these limits.
pub fn time_args_ok(us: u8, lim: &SearchLimits, overhead: u64) -> (ok: bool)
    ensures
        ok == time_fits(us, *lim, overhead),
{
    if lim.movetime.is_some() {
        return true;
    }
    let (rem, inc) = if us == WHITE {
        (lim.wtime, lim.winc)
    } else {
        (lim.btime, lim.binc)
    };
    let inc: u64 = match inc {
        Some(x) => x,
        None => 0,
    };
    match rem {
        None => true,
        Some(r) => {
            let q: u64 = match lim.movestogo {
                Some(m) => r / (if m < 1 {
                    1
                } else {
                    m as u64
                }),
                None => r / 25,
            };
            if q > u64::MAX - inc / 2 {
                return false;
            }
            if overhead > u64::MAX - 10 {
                return false;
            }
            let base = soft_exec(r, q + inc / 2, overhead + 10);
            base <= u64::MAX / 4
        },
    }
}

fn soft_exec(r: u64, share: u64, margin: u64) -> (b: u64)
    ensures
        b == (if r <= margin {
            0
        } else {
            let max_use = r - margin;
            let b = min_int(share as int, max_use);
            if b < 10 && max_use >= 10 {
                10
            } else {
                b
            }
        }),
{
    if r <= margin {
        0
    } else {
        let max_use = r - margin;
        let mut base = share;
        if base > max_use {
            base = max_use;
        }
        if base < 10 && max_use >= 10 {
            base = 10;
        }
        base
    }
}

/// Soft and hard time limits (milliseconds from the start of the search).
fn time_limits(us: u8, lim: &SearchLimits, overhead: u64) -> (r: (Option<u64>, Option<u64>))
    requires
        time_fits(us, *lim, overhead),
    ensures
        r == time_budget(us, *lim, overhead),
{
    if let Some(mt) = lim.movetime {
        let o = if overhead < mt {
            overhead
        } else {
            mt
        };
        let t = mt - o;
        return (Some(t), Some(t));
    }
    let (rem, inc) = if us == WHITE {
        (lim.wtime, lim.winc)
    } else {
        (lim.btime, lim.binc)
    };
    let inc: u64 = match inc {
        Some(x) => x,
        None => 0,
    };
    match rem {
        None => (None, None),
        Some(r) => {
            let share: u64 = match lim.movestogo {
                Some(m) => r / (if m < 1 {
                    1
                } else {
                    m as u64
                }) + inc / 2,
                None => r / 25 + inc / 2,
            };
            let margin = overhead + 10;
            let base = soft_exec(r, share, margin);
            let rest = if r >= margin {
                r - margin
            } else {
                0
            };
            let h4 = base * 4;
            let hard = if h4 < rest {
                h4
            } else {
                rest
            };
            (Some(base), Some(
                if hard < base {
                    base
                } else {
                    hard
                },
            ))
        },
    }
}


// ---------------------------------------------------------------------------
// Iterative deepening
// ---------------------------------------------------------------------------
/// Re-searches of one iteration with a widened aspiration window, at most.
pub const MAX_RESEARCH: u32 = 64;

/// Two moves with the same squares and promotion piece.
pub open spec fn same_squares(a: Move, b: Move) -> bool {
    a.from == b.from && a.to == b.to && a.promo == b.promo
}

/// Some entry of `a` names `m` by its squares and promotion piece.
pub open spec fn named_by(a: Seq<Move>, m: Move) -> bool {
    exists|k: int| 0 <= k < a.len() && same_squares(#[trigger] a[k], m)
}

/// Some entry of a root restriction names a legal move.
pub open spec fn restriction_hits(a: Seq<Move>, p: Pos) -> bool {
    exists|k: int, j: int|
        0 <= k < a.len() && 0 <= j < legal_moves(p).len() && same_squares(
            #[trigger] a[k],
            #[trigger] legal_moves(p)[j],
        )
}

/// The position is drawn by the fifty-move rule or by material at the root.
pub open spec fn root_rule_draw(p: Pos) -> bool {
    p.half >= 100 || insufficient_spec(p.sq)
}

/// Positions a search can start from: valid, with room on the clocks.
pub open spec fn searchable(p: Pos) -> bool {
    valid_pos(p) && p.half <= 65000 && p.full <= 65000
}

impl Searcher {
    /// The legal moves named (by squares and promotion piece) by a root
    /// restriction, in its order; all legal moves when it names none.
    fn restrict_root(&mut self, allow: &[Move]) -> (v: Vec<Move>)
        requires
            playable(old(self).board@),
        ensures
            *final(self) == *old(self),
            forall|i: int| 0 <= i < v@.len() ==> legal_moves(old(self).board@).contains(#[trigger] v@[i]),
            restriction_hits(allow@, old(self).board@) ==> v@.len() > 0 && forall|i: int|
                0 <= i < v@.len() ==> named_by(allow@, #[trigger] v@[i]),
            !restriction_hits(allow@, old(self).board@) ==> v@ == legal_moves(old(self).board@),
    {
        let ghost s0 = *self;
        let ghost p0 = self.board@;
        let mut legal: Vec<Move> = Vec::new();
        self.board.gen_legal(&mut legal);
        proof {
            lemma_board_eq(self.board, s0.board);
        }
        let mut out: Vec<Move> = Vec::new();
        let mut i: usize = 0;
        while i < allow.len()
            invariant
                i <= allow@.len(),
                legal@ == legal_moves(p0),
                *self == s0,
                p0 == s0.board@,
                forall|t: int| 0 <= t < out@.len() ==> legal_moves(p0).contains(#[trigger] out@[t]),
                forall|t: int| 0 <= t < out@.len() ==> named_by(allow@, #[trigger] out@[t]),
                (exists|k: int, j: int|
                    0 <= k < i && 0 <= j < legal_moves(p0).len() && same_squares(
                        #[trigger] allow@[k],
                        #[trigger] legal_moves(p0)[j],
                    )) <==> out@.len() > 0,
            decreases allow@.len() - i,
        {
            let m = allow[i];
            let mut j: usize = 0;
            let mut found = false;
            let mut hit = Move::null();
            let ghost mut hj: int = 0;
            while j < legal.len() && !found
                invariant
                    j <= legal@.len(),
                    legal@ == legal_moves(p0),
                    found ==> 0 <= hj < legal@.len() && legal@[hj] == hit && same_squares(m, hit),
                    !found ==> forall|t: int| 0 <= t < j ==> !same_squares(m, #[trigger] legal@[t]),
                decreases legal@.len() - j,
            {
                let x = legal[j];
                if x.from == m.from && x.to == m.to && x.promo == m.promo {
                    found = true;
                    hit = x;
                    proof {
                        hj = j as int;
                    }
                }
                j += 1;
            }
            if found {
                let ghost before = out@;
                out.push(hit);
                proof {
                    assert(allow@[i as int] == m);
                    assert(legal_moves(p0).contains(legal@[hj]));
                    assert(same_squares(allow@[i as int], legal_moves(p0)[hj]));
                    assert forall|t: int| 0 <= t < out@.len() implies named_by(
                        allow@,
                        #[trigger] out@[t],
                    ) by {
                        if t < before.len() {
                            assert(out@[t] == before[t]);
                        } else {
                            assert(same_squares(allow@[i as int], out@[t]));
                        }
                    }
                }
            }
            proof {
                if !found {
                    assert forall|j2: int| 0 <= j2 < legal_moves(p0).len() implies !same_squares(
                        allow@[i as int],
                        #[trigger] legal_moves(p0)[j2],
                    ) by {
                        assert(!same_squares(m, legal@[j2]));
                    }
                }
            }
            i += 1;
        }
        if out.len() == 0 {
            self.board.gen_legal(&mut out);
            proof {
                lemma_board_eq(self.board, s0.board);
                assert forall|t: int| 0 <= t < out@.len() implies legal_moves(p0).contains(
                    #[trigger] out@[t],
                ) by {
                    assert(out@[t] == legal_moves(p0)[t]);
                }
            }
        }
        out
    }

    /// One iteration at `depth`: an aspiration window around the previous
    /// score from depth 4 on (else the full window), widened and searched
    /// again when the score falls outside it, at most `MAX_RESEARCH` times.
    #[verifier::rlimit(40)]
    fn aspiration(
        &mut self,
        depth: u8,
        prev_lo: i32,
        prev_hi: i32,
        allow: Option<&[Move]>,
        Ghost(p0): Ghost<Pos>,
    ) -> (s: i32)
        requires
            old(self).wf(),
            1 <= depth <= 64,
            node_ok(old(self).board@, 0),
            same_but_half(p0, old(self).board@),
            half_drift(p0.half, old(self).board.half),
            -SCORE_LIMIT <= prev_lo <= prev_hi <= SCORE_LIMIT,
            !old(self).aborted,
            old(self).nodes < u64::MAX,
            allow matches Some(a) ==> forall|i: int|
                0 <= i < a@.len() ==> legal_moves(p0).contains(#[trigger] a@[i]),
            root_pv_ok(old(self).pv_head(), p0, allow_seq(allow)),
            root_rule_draw(p0) ==> prev_lo <= 0 <= prev_hi,
        ensures
            final(self).wf(),
            Searcher::same_setup(*old(self), *final(self)),
            same_but_half(old(self).board@, final(self).board@),
            half_drift(old(self).board.half, final(self).board.half),
            final(self).board.hash == old(self).board.hash,
            final(self).stack@ == old(self).stack@,
            -SCORE_LIMIT <= s <= SCORE_LIMIT,
            final(self).nodes >= old(self).nodes,
            !final(self).aborted ==> final(self).nodes < u64::MAX,
            root_pv_ok(final(self).pv_head(), p0, allow_seq(allow)),
            root_rule_draw(p0) ==> s == 0,
    {
        let ghost s0 = *self;
        let mut alpha: i32;
        let mut beta: i32;
        if depth >= 4 {
            alpha = if prev_lo - 25 < -SCORE_LIMIT {
                -SCORE_LIMIT
            } else {
                prev_lo - 25
            };
            beta = if prev_hi + 25 > SCORE_LIMIT {
                SCORE_LIMIT
            } else {
                prev_hi + 25
            };
        } else {
            alpha = -INF;
            beta = INF;
        }
        let mut tries: u32 = 0;
        loop
            invariant
                self.wf(),
                1 <= depth <= 64,
                Searcher::same_setup(s0, *self),
                s0 == *old(self),
                same_but_half(p0, s0.board@),
                half_drift(p0.half, s0.board.half),
                same_but_half(s0.board@, self.board@),
                half_drift(s0.board.half, self.board.half),
                node_ok(s0.board@, 0),
                self.board.hash == s0.board.hash,
                self.stack@ == s0.stack@,
                -SCORE_LIMIT <= alpha < beta <= SCORE_LIMIT,
                !self.aborted,
                self.nodes >= s0.nodes,
                self.nodes < u64::MAX,
                tries < MAX_RESEARCH,
                allow matches Some(a) ==> forall|i: int|
                    0 <= i < a@.len() ==> legal_moves(p0).contains(#[trigger] a@[i]),
                root_pv_ok(self.pv_head(), p0, allow_seq(allow)),
                root_rule_draw(p0) ==> alpha < 0 < beta,
            decreases MAX_RESEARCH - tries,
        {
            proof {
                lemma_moves_ignore_clocks(p0, self.board@);
                assert(node_ok(self.board@, 0));
            }
            let s = self.negamax_impl(0, depth as i8, alpha, beta, allow);
            if self.aborted {
                return s;
            }
            if s <= alpha {
                alpha = if alpha - 120 > -INF {
                    alpha - 120
                } else {
                    -INF
                };
                beta = ((alpha as i64 + beta as i64) / 2) as i32;
            } else if s >= beta {
                beta = if beta + 120 < INF {
                    beta + 120
                } else {
                    INF
                };
            } else {
                return s;
            }
            tries += 1;
            if tries >= MAX_RESEARCH {
                return s;
            }
            if alpha >= beta {
                alpha = -SCORE_LIMIT;
                beta = SCORE_LIMIT;
            }
        }
    }

    /// The principal variation of the last completed iteration.
    fn root_pv(&self) -> (v: Vec<Move>)
        requires
            self.wf(),
        ensures
            v@.len() == 0 <==> self.pv_head() is None,
            self.pv_head() matches Some(m) ==> v@.len() > 0 && v@[0] == m,
            v@ == self.root_line(),
    {
        let mut v: Vec<Move> = Vec::new();
        let n = self.pv_len[0];
        let mut j: usize = 0;
        while j < n
            invariant
                j <= n,
                n <= MAX_PLY,
                n == self.pv_len@[0],
                self.pv@.len() == MAX_PLY * MAX_PLY,
                v@.len() == j,
                v@ == self.pv@.subrange(0, j as int),
            decreases n - j,
        {
            v.push(self.pv[j]);
            j += 1;
        }
        v
    }

    /// Hands one completed iteration to `report` and records what it handed.
    fn report_iteration<F: Fn(u8, i32, u64, u32, &[Move])>(
        &mut self,
        report: &F,
        depth: u8,
        score: i32,
        pv: &Vec<Move>,
    )
        requires
            forall|d: u8, sc: i32, n: u64, sd: u32, l: &[Move]| report.requires((d, sc, n, sd, l)),
        ensures
            *final(self) == (Searcher {
                reports: Ghost(old(self).reports@.push((depth, score, old(self).nodes, pv@))),
                ..*old(self)
            }),
    {
        report(depth, score, self.nodes, self.seldepth, pv.as_slice());
        self.reports = Ghost(self.reports@.push((depth, score, self.nodes, pv@)));
    }
}


/// The deepest iteration the limits allow: the depth limit, at most 64.
pub open spec fn depth_cap(lim: SearchLimits) -> u8 {
    match lim.depth {
        Some(d) => if d < 64 {
            d
        } else {
            64
        },
        None => 64,
    }
}

/// What a search from `p` answers.  Without a legal move: no move, a mate
/// score in check (stalemate scores 0), no iteration and no nodes.  Else a
/// legal move (named by the root restriction when it names a legal move),
/// which opens the principal variation; at most `max_depth` iterations;
/// and 0 when the position is drawn by the fifty-move rule or material.
pub open spec fn search_outcome(info: SearchInfo, p: Pos, allow: Option<Seq<Move>>, max_depth: u8) -> bool {
    &&& -SCORE_LIMIT <= info.score <= SCORE_LIMIT
    &&& legal_moves(p).len() == 0 ==> {
        &&& info.best == null_spec()
        &&& info.score == (if attacked(p.sq, p.king[p.side as int] as int, opp_spec(p.side)) {
            -MATE
        } else {
            0
        })
        &&& info.depth_completed == 0
        &&& info.nodes == 0
        &&& info.pv@.len() == 0
    }
    &&& legal_moves(p).len() > 0 ==> {
        &&& legal_moves(p).contains(info.best)
        &&& info.pv@.len() > 0
        &&& info.pv@[0] == info.best
        &&& info.depth_completed <= max_depth
        &&& root_rule_draw(p) ==> info.score == 0
        &&& match allow {
            Some(a) => restriction_hits(a, p) ==> named_by(a, info.best),
            None => true,
        }
    }
}

/// The report calls of a search that gave `info` at position `p`: one per
/// completed iteration, with depths 1, 2, ..., node counts that never
/// decrease, principal variations that start with a legal (and, under a
/// restriction that names a legal move, allowed) root move, and the last
/// call carrying the result's score and principal variation.
pub open spec fn reports_ok(
    rs: Seq<(u8, i32, u64, Seq<Move>)>,
    info: SearchInfo,
    p: Pos,
    allow: Option<Seq<Move>>,
) -> bool {
    &&& rs.len() == info.depth_completed
    &&& forall|k: int|
        0 <= k < rs.len() ==> {
            &&& (#[trigger] rs[k]).0 == k + 1
            &&& rs[k].3.len() > 0
            &&& legal_moves(p).contains(rs[k].3[0])
            &&& match allow {
                Some(a) => restriction_hits(a, p) ==> named_by(a, rs[k].3[0]),
                None => true,
            }
        }
    &&& forall|j: int, k: int| 0 <= j <= k < rs.len() ==> (#[trigger] rs[j]).2 <= (#[trigger] rs[k]).2
    &&& rs.len() > 0 ==> rs.last().1 == info.score && rs.last().3 == info.pv@ && rs.last().2
        <= info.nodes
}

impl Searcher {
    /// The node limit of the current search.
    pub closed spec fn node_limit(&self) -> u64 {
        self.max_nodes
    }

    /// The depth limit of the current search.
    pub closed spec fn depth_limit(&self) -> u8 {
        self.max_depth
    }

    /// Soft and hard time limits of the current search.
    pub closed spec fn time_limits_ms(&self) -> (Option<u64>, Option<u64>) {
        (self.soft, self.hard)
    }

    /// Prepares a search: clock started, counters reset, node and depth
    /// limits (depth at most 64) and time limits set.
    pub fn setup_limits(&mut self, lim: &SearchLimits, overhead: u64)
        requires
            old(self).wf(),
            time_fits(old(self).cur_board().side, *lim, overhead),
        ensures
            final(self).wf(),
            final(self).cur_board() == old(self).cur_board(),
            final(self).table() == old(self).table(),
            final(self).game() == old(self).game(),
            final(self).weights() == old(self).weights(),
            final(self).node_count() == 0,
            !final(self).cut_off(),
            final(self).node_limit() == (match lim.nodes {
                Some(n) => n,
                None => u64::MAX,
            }),
            final(self).depth_limit() == depth_cap(*lim),
            final(self).time_limits_ms() == time_budget(old(self).cur_board().side, *lim, overhead),
    {
        self.t0 = now();
        self.nodes = 0;
        self.seldepth = 0;
        self.aborted = false;
        self.max_nodes = match lim.nodes {
            Some(n) => n,
            None => u64::MAX,
        };
        let d = match lim.depth {
            Some(d) => d,
            None => 64,
        };
        self.max_depth = if d < 64 {
            d
        } else {
            64
        };
        self.completed_depth = 0;
        let (soft, hard) = time_limits(self.board.side, lim, overhead);
        self.soft = soft;
        self.hard = hard;
    }

    /// Iterative deepening from depth 1 up to the depth limit.  The
    /// current hash is pushed on the game stack for repetition detection;
    /// a root restriction is first resolved to legal moves.  An iteration
    /// cut off by a limit is discarded; new iterations stop once the soft
    /// time limit or the node limit is reached.
    #[verifier::rlimit(60)]
    fn id_loop<F: Fn(u8, i32, u64, u32, &[Move])>(&mut self, allow: Option<&[Move]>, report: &F) -> (info: SearchInfo)
        requires
            old(self).wf(),
            searchable(old(self).board@),
            !old(self).aborted,
            old(self).nodes == 0,
            forall|d: u8, sc: i32, n: u64, sd: u32, pv: &[Move]| report.requires((d, sc, n, sd, pv)),
        ensures
            final(self).wf(),
            same_but_half(old(self).board@, final(self).board@),
            half_drift(old(self).board.half, final(self).board.half),
            final(self).board.hash == old(self).board.hash,
            final(self).stack@ == old(self).stack@,
            search_outcome(info, old(self).board@, allow_seq(allow), old(self).max_depth),
            legal_moves(old(self).board@).len() > 0 && !final(self).aborted && old(self).soft is None
                && old(self).max_nodes == u64::MAX ==> info.depth_completed == old(self).max_depth,
            reports_ok(final(self).reports@, info, old(self).board@, allow_seq(allow)),
            legal_moves(old(self).board@).len() > 0 && !final(self).aborted && old(self).max_depth
                >= 1 ==> info.depth_completed >= 1,
            !final(self).aborted && info.depth_completed > 0 && final(self).pv_head() is Some
                ==> info.pv@ == final(self).root_line(),
    {
        self.reports = Ghost(Seq::empty());
        let ghost p0 = self.board@;
        let ghost b0 = self.board;
        let h = self.board.hash;
        self.stack.push(h);
        let restricted = allow.is_some();
        let mut allowed: Vec<Move> = Vec::new();
        if let Some(a) = allow {
            allowed = self.restrict_root(a);
        }
        let mut root_moves: Vec<Move> = Vec::new();
        self.board.gen_legal(&mut root_moves);
        proof {
            lemma_board_eq(self.board, b0);
        }
        if root_moves.len() == 0 {
            self.stack.pop();
            let sc = if self.board.in_check(self.board.side) {
                -MATE
            } else {
                0
            };
            return SearchInfo {
                best: Move::null(),
                score: sc,
                depth_completed: 0,
                nodes: 0,
                seldepth: 0,
                elapsed_ms: 0,
                pv: Vec::new(),
            };
        }
        proof {
            assert(legal_moves(p0).contains(root_moves@[0]));
        }
        let allow_ref: Option<&[Move]> = if restricted {
            Some(allowed.as_slice())
        } else {
            None
        };
        let mut best = if restricted && allowed.len() > 0 {
            allowed[0]
        } else {
            root_moves[0]
        };
        let mut best_score: i32 = 0;
        let mut completed: u8 = 0;
        let mut completed_pv: Vec<Move> = Vec::new();
        completed_pv.push(best);
        let mut alpha0: i32 = -INF;
        let mut beta0: i32 = INF;
        let max_depth = self.max_depth;
        let mut depth: u8 = 1;
        let mut done = false;
        while !done && depth <= max_depth
            invariant
                self.wf(),
                searchable(p0),
                same_but_half(p0, self.board@),
                half_drift(p0.half, self.board.half),
                self.board.hash == b0.hash,
                b0@ == p0,
                self.stack@ == old(self).stack@.push(h),
                1 <= depth <= 65,
                max_depth <= 64,
                max_depth == old(self).max_depth,
                completed <= max_depth,
                !done ==> !self.aborted && self.nodes < u64::MAX,
                legal_moves(p0).len() > 0,
                legal_moves(p0).contains(best),
                completed_pv@.len() > 0,
                completed_pv@[0] == best,
                allow_seq(allow_ref) == (if restricted {
                    Some(allowed@)
                } else {
                    None::<Seq<Move>>
                }),
                restricted == (allow is Some),
                restricted ==> forall|i: int|
                    0 <= i < allowed@.len() ==> legal_moves(p0).contains(#[trigger] allowed@[i]),
                match allow {
                    Some(a) => restriction_hits(a@, p0) ==> (forall|i: int|
                        0 <= i < allowed@.len() ==> named_by(a@, #[trigger] allowed@[i]))
                        && named_by(a@, best),
                    None => true,
                },
                -SCORE_LIMIT <= alpha0 <= beta0 <= SCORE_LIMIT,
                -SCORE_LIMIT <= best_score <= SCORE_LIMIT,
                root_rule_draw(p0) ==> best_score == 0 && alpha0 <= 0 <= beta0,
                forall|d: u8, sc: i32, n: u64, sd: u32, pv: &[Move]| report.requires((d, sc, n, sd, pv)),
                self.soft == old(self).soft,
                self.max_nodes == old(self).max_nodes,
                !self.aborted && self.soft is None && self.max_nodes == u64::MAX ==> !done && completed
                    as int == depth as int - 1,
                completed as int == depth as int - 1,
                depth > 1 ==> completed >= 1,
                done ==> self.aborted || depth > 1,
                completed > 0 && !self.aborted && self.pv_head() is Some ==> completed_pv@
                    == self.root_line(),
                self.reports@.len() == completed,
                forall|k: int|
                    0 <= k < self.reports@.len() ==> {
                        &&& (#[trigger] self.reports@[k]).0 == k + 1
                        &&& self.reports@[k].3.len() > 0
                        &&& legal_moves(p0).contains(self.reports@[k].3[0])
                        &&& match allow_seq(allow) {
                            Some(a) => restriction_hits(a, p0) ==> named_by(a, self.reports@[k].3[0]),
                            None => true,
                        }
                    },
                forall|j: int, k: int|
                    0 <= j <= k < self.reports@.len() ==> (#[trigger] self.reports@[j]).2 <= (
                    #[trigger] self.reports@[k]).2,
                self.reports@.len() > 0 ==> self.reports@.last().1 == best_score
                    && self.reports@.last().3 == completed_pv@ && self.reports@.last().2 <= self.nodes,
            decreases 65 - depth + if done {
                0int
            } else {
                1int
            },
        {
            self.pv_len.set(0, 0);
            let score = self.aspiration(depth, alpha0, beta0, allow_ref, Ghost(p0));
            if self.aborted {
                done = true;
            } else {
                let mut pv_moves = self.root_pv();
                if pv_moves.len() > 0 {
                    best = pv_moves[0];
                } else {
                    pv_moves.push(best);
                }
                best_score = score;
                alpha0 = score;
                beta0 = score;
                completed = depth;
                self.completed_depth = depth;
                self.report_iteration(report, depth, score, &pv_moves);
                completed_pv = pv_moves;
                if let Some(soft) = self.soft {
                    if elapsed_ms(&self.t0) >= soft {
                        done = true;
                    }
                }
                if self.nodes >= self.max_nodes {
                    done = true;
                }
                depth += 1;
            }
        }
        self.stack.pop();
        let elapsed = elapsed_ms(&self.t0);
        SearchInfo {
            best,
            score: best_score,
            depth_completed: completed,
            nodes: self.nodes,
            seldepth: self.seldepth,
            elapsed_ms: elapsed,
            pv: completed_pv,
        }
    }

    /// Searches the board within the limits (`overhead`: milliseconds kept
    /// back from the time budget).
    pub fn search(&mut self, lim: &SearchLimits, overhead: u64) -> (info: SearchInfo)
        requires
            old(self).wf(),
            searchable(old(self).cur_board()@),
            time_fits(old(self).cur_board().side, *lim, overhead),
        ensures
            final(self).wf(),
            same_but_half(old(self).cur_board()@, final(self).cur_board()@),
            half_drift(old(self).cur_board().half, final(self).cur_board().half),
            final(self).cur_board().hash == old(self).cur_board().hash,
            final(self).game() == old(self).game(),
            search_outcome(info, old(self).cur_board()@, None, depth_cap(*lim)),
            reports_ok(final(self).reported(), info, old(self).cur_board()@, None),
            legal_moves(old(self).cur_board()@).len() > 0 && !final(self).cut_off() && depth_cap(*lim)
                >= 1 ==> info.depth_completed >= 1,
            !final(self).cut_off() && info.depth_completed > 0 && final(self).pv_head() is Some
                ==> info.pv@ == final(self).root_line(),
            legal_moves(old(self).cur_board()@).len() > 0 && !final(self).cut_off() && lim.nodes is None
                && lim.movetime is None && clock_of(old(self).cur_board().side, *lim).0 is None
                ==> info.depth_completed == depth_cap(*lim),
    {
        self.setup_limits(lim, overhead);
        let noop = |_d: u8, _s: i32, _n: u64, _sd: u32, _pv: &[Move]| {};
        self.id_loop(None, &noop)
    }

    /// Like `search`, calling `report` with depth, score, nodes, selective
    /// depth and principal variation after each completed iteration.
    pub fn search_report<F: Fn(u8, i32, u64, u32, &[Move])>(
        &mut self,
        lim: &SearchLimits,
        overhead: u64,
        report: &F,
    ) -> (info: SearchInfo)
        requires
            old(self).wf(),
            searchable(old(self).cur_board()@),
            time_fits(old(self).cur_board().side, *lim, overhead),
            forall|d: u8, sc: i32, n: u64, sd: u32, pv: &[Move]| report.requires((d, sc, n, sd, pv)),
        ensures
            final(self).wf(),
            same_but_half(old(self).cur_board()@, final(self).cur_board()@),
            half_drift(old(self).cur_board().half, final(self).cur_board().half),
            final(self).cur_board().hash == old(self).cur_board().hash,
            final(self).game() == old(self).game(),
            search_outcome(info, old(self).cur_board()@, None, depth_cap(*lim)),
            reports_ok(final(self).reported(), info, old(self).cur_board()@, None),
            legal_moves(old(self).cur_board()@).len() > 0 && !final(self).cut_off() && depth_cap(*lim)
                >= 1 ==> info.depth_completed >= 1,
            !final(self).cut_off() && info.depth_completed > 0 && final(self).pv_head() is Some
                ==> info.pv@ == final(self).root_line(),
            legal_moves(old(self).cur_board()@).len() > 0 && !final(self).cut_off() && lim.nodes is None
                && lim.movetime is None && clock_of(old(self).cur_board().side, *lim).0 is None
                ==> info.depth_completed == depth_cap(*lim),
    {
        self.setup_limits(lim, overhead);
        self.id_loop(None, report)
    }

    /// Like `search_report`, with the root moves restricted to those that
    /// `allow` names (all legal moves when it names none).
    pub fn search_root_restricted<F: Fn(u8, i32, u64, u32, &[Move])>(
        &mut self,
        lim: &SearchLimits,
        overhead: u64,
        allow: &[Move],
        report: &F,
    ) -> (info: SearchInfo)
        requires
            old(self).wf(),
            searchable(old(self).cur_board()@),
            time_fits(old(self).cur_board().side, *lim, overhead),
            forall|d: u8, sc: i32, n: u64, sd: u32, pv: &[Move]| report.requires((d, sc, n, sd, pv)),
        ensures
            final(self).wf(),
            same_but_half(old(self).cur_board()@, final(self).cur_board()@),
            half_drift(old(self).cur_board().half, final(self).cur_board().half),
            final(self).cur_board().hash == old(self).cur_board().hash,
            final(self).game() == old(self).game(),
            search_outcome(info, old(self).cur_board()@, Some(allow@), depth_cap(*lim)),
            reports_ok(final(self).reported(), info, old(self).cur_board()@, Some(allow@)),
            legal_moves(old(self).cur_board()@).len() > 0 && !final(self).cut_off() && depth_cap(*lim)
                >= 1 ==> info.depth_completed >= 1,
            !final(self).cut_off() && info.depth_completed > 0 && final(self).pv_head() is Some
                ==> info.pv@ == final(self).root_line(),
            legal_moves(old(self).cur_board()@).len() > 0 && !final(self).cut_off() && lim.nodes is None
                && lim.movetime is None && clock_of(old(self).cur_board().side, *lim).0 is None
                ==> info.depth_completed == depth_cap(*lim),
    {
        self.setup_limits(lim, overhead);
        self.id_loop(Some(allow), report)
    }
}

} // verus!
