//! The computable parts of the UCI protocol: engine options, positions
//! built from `position` commands, search limits read from `go` commands,
//! and move, score and principal-variation notation.
use vstd::prelude::*;
use crate::chess::{
    Board, Move, Pos, hash_of, apply_move, make_hash, uci_spec, opp, fits, valid_pos,
    lemma_apply_valid, square_name, promo_char,
};
use crate::movegen::{
    legal_moves, king_safe_after, playable, pseudo_moves, all_fit, lemma_legal_member,
    lemma_generated_moves_fit,
};
use crate::fen::{words, split_words, is_ws, is_ws_exec, fen_parse, start_pos};
use crate::search::{SearchLimits, MATE};
use crate::text::{
    chars_of, string_from_chars, push_all, parse_unsigned, parse_unsigned_spec, int_dec_chars,
    int_dec_spec,
};
use crate::eval::trunc_div;

verus! {

/// Engine options a GUI can set.
pub struct UciOptions {
    pub hash_mb: usize,
    pub move_overhead_ms: u64,
}

impl Default for UciOptions {
    fn default() -> (o: Self)
        ensures
            o.hash_mb == 64,
            o.move_overhead_ms == 100,
    {
        UciOptions { hash_mb: 64, move_overhead_ms: 100 }
    }
}

/// What one completed search iteration reports.
pub struct IterInfo {
    pub depth: u8,
    pub score: i32,
    pub nodes: u64,
    pub seldepth: u32,
    pub ms: u64,
    pub pv: Vec<Move>,
}

/// A game position: the board and the hashes of all earlier positions of
/// the game (for repetition detection).
pub struct Position {
    pub board: Board,
    pub history: Vec<u64>,
}

impl Position {
    /// The starting position with no history.
    pub fn startpos() -> (p: Position)
        ensures
            p.board@ == start_pos(),
            p.board.hash == hash_of(start_pos()),
            p.history@ == Seq::<u64>::empty(),
    {
        Position { board: Board::startpos(), history: Vec::new() }
    }
}

// ---------------------------------------------------------------------------
// Character helpers
// ---------------------------------------------------------------------------
/// Index of the first character at or after `i` that is not white space.
pub open spec fn skip_ws(s: Seq<char>, i: int) -> int
    decreases s.len() - i,
{
    if i < 0 || i >= s.len() || !is_ws(s[i]) {
        i
    } else {
        skip_ws(s, i + 1)
    }
}

/// End of `s[lo..j]` with trailing white space removed.
pub open spec fn back_ws(s: Seq<char>, lo: int, j: int) -> int
    decreases j,
{
    if j <= lo || j <= 0 || j > s.len() || !is_ws(s[j - 1]) {
        j
    } else {
        back_ws(s, lo, j - 1)
    }
}

/// `s` without leading and trailing white space (`str::trim`).
pub open spec fn trim_chars(s: Seq<char>) -> Seq<char> {
    let lo = skip_ws(s, 0);
    s.subrange(lo, back_ws(s, lo, s.len() as int))
}

pub open spec fn starts_with(s: Seq<char>, p: Seq<char>) -> bool {
    p.len() <= s.len() && s.subrange(0, p.len() as int) == p
}

/// Words joined by single spaces.
pub open spec fn join_words(ws: Seq<Seq<char>>) -> Seq<char>
    decreases ws.len(),
{
    if ws.len() == 0 {
        seq![]
    } else if ws.len() == 1 {
        ws[0]
    } else {
        join_words(ws.drop_last()) + seq![' '] + ws.last()
    }
}

/// Index of the first entry at or after `i` equal to `w` (the length when
/// there is none).
pub open spec fn index_from(ws: Seq<Seq<char>>, w: Seq<char>, i: int) -> int
    decreases ws.len() - i,
{
    if i < 0 || i >= ws.len() {
        ws.len() as int
    } else if ws[i] == w {
        i
    } else {
        index_from(ws, w, i + 1)
    }
}

pub(crate) fn subvec(s: &Vec<char>, lo: usize, hi: usize) -> (v: Vec<char>)
    requires
        lo <= hi <= s@.len(),
    ensures
        v@ == s@.subrange(lo as int, hi as int),
{
    let mut v: Vec<char> = Vec::new();
    let mut i = lo;
    while i < hi
        invariant
            lo <= i <= hi,
            hi <= s@.len(),
            v@ == s@.subrange(lo as int, i as int),
        decreases hi - i,
    {
        v.push(s[i]);
        i += 1;
        assert(v@ =~= s@.subrange(lo as int, i as int));
    }
    v
}

fn trim_vec(s: &Vec<char>) -> (t: Vec<char>)
    ensures
        t@ == trim_chars(s@),
{
    let mut lo: usize = 0;
    while lo < s.len() && is_ws_exec(s[lo])
        invariant
            lo <= s@.len(),
            skip_ws(s@, 0) == skip_ws(s@, lo as int),
        decreases s@.len() - lo,
    {
        lo += 1;
    }
    let mut hi: usize = s.len();
    while hi > lo && is_ws_exec(s[hi - 1])
        invariant
            lo <= hi <= s@.len(),
            skip_ws(s@, 0) == lo,
            back_ws(s@, lo as int, s@.len() as int) == back_ws(s@, lo as int, hi as int),
        decreases hi,
    {
        hi -= 1;
    }
    subvec(s, lo, hi)
}

pub(crate) fn eq_vec(a: &Vec<char>, b: &Vec<char>) -> (r: bool)
    ensures
        r == (a@ == b@),
{
    if a.len() != b.len() {
        return false;
    }
    let mut i: usize = 0;
    while i < a.len()
        invariant
            i <= a@.len(),
            a@.len() == b@.len(),
            forall|j: int| 0 <= j < i ==> a@[j] == b@[j],
        decreases a@.len() - i,
    {
        if a[i] != b[i] {
            return false;
        }
        i += 1;
    }
    assert(a@ =~= b@);
    true
}

fn starts_with_vec(s: &Vec<char>, p: &Vec<char>) -> (r: bool)
    ensures
        r == starts_with(s@, p@),
{
    if p.len() > s.len() {
        return false;
    }
    let head = subvec(s, 0, p.len());
    eq_vec(&head, p)
}

/// The words `ws[lo..hi]` joined by single spaces.
pub(crate) fn join_range(ws: &Vec<Vec<char>>, lo: usize, hi: usize, Ghost(target): Ghost<Seq<Seq<char>>>) -> (v:
    Vec<char>)
    requires
        lo <= hi <= ws@.len(),
        ws@.len() == target.len(),
        forall|k: int| 0 <= k < ws@.len() ==> #[trigger] ws@[k]@ == target[k],
    ensures
        v@ == join_words(target.subrange(lo as int, hi as int)),
{
    let mut v: Vec<char> = Vec::new();
    let mut i = lo;
    proof {
        assert(target.subrange(lo as int, lo as int) =~= Seq::<Seq<char>>::empty());
    }
    while i < hi
        invariant
            lo <= i <= hi,
            hi <= ws@.len(),
            ws@.len() == target.len(),
            forall|k: int| 0 <= k < ws@.len() ==> #[trigger] ws@[k]@ == target[k],
            v@ == join_words(target.subrange(lo as int, i as int)),
        decreases hi - i,
    {
        let ghost next = target.subrange(lo as int, i + 1);
        proof {
            assert(next.drop_last() =~= target.subrange(lo as int, i as int));
            assert(next.last() == target[i as int]);
            assert(ws@[i as int]@ == target[i as int]);
        }
        if i > lo {
            v.push(' ');
        }
        push_all(&mut v, &ws[i]);
        proof {
            if i == lo {
                assert(next.len() == 1);
                assert(v@ =~= next[0]);
            } else {
                assert(v@ =~= join_words(next.drop_last()) + seq![' '] + next.last());
            }
        }
        i += 1;
    }
    v
}

proof fn lemma_board_same(a: Board, b: Board)
    requires
        a@ == b@,
        a.hash == b.hash,
    ensures
        a == b,
{
    assert(a.sq@ =~= b.sq@);
    assert(a.king@ =~= b.king@);
    assert(a.sq =~= b.sq);
    assert(a.king =~= b.king);
}

// ---------------------------------------------------------------------------
// Moves in long algebraic notation
// ---------------------------------------------------------------------------
pub open spec fn file_index(c: char) -> int {
    c as int - 97
}

pub open spec fn rank_index(c: char) -> int {
    c as int - 49
}

pub open spec fn promo_piece(c: char) -> Option<u8> {
    if c == 'n' {
        Some(1u8)
    } else if c == 'b' {
        Some(2u8)
    } else if c == 'r' {
        Some(3u8)
    } else if c == 'q' {
        Some(4u8)
    } else {
        None
    }
}

/// The first move of `ms` from `from` to `to` with promotion piece `promo`.
pub open spec fn find_move(ms: Seq<Move>, from: int, to: int, promo: u8) -> Option<Move>
    decreases ms.len(),
{
    if ms.len() == 0 {
        None
    } else if ms[0].from == from && ms[0].to == to && ms[0].promo == promo {
        Some(ms[0])
    } else {
        find_move(ms.drop_first(), from, to, promo)
    }
}

/// The legal move that a word in long algebraic notation ("e2e4",
/// "e7e8q") names in `p`: four characters naming two squares, an optional
/// promotion letter, and a legal move with those squares and promotion.
pub open spec fn uci_move_spec(p: Pos, s: Seq<char>) -> Option<Move> {
    if s.len() < 4 {
        None
    } else {
        let ff = file_index(s[0]);
        let rf = rank_index(s[1]);
        let tf = file_index(s[2]);
        let rt = rank_index(s[3]);
        if !(0 <= ff < 8 && 0 <= rf < 8 && 0 <= tf < 8 && 0 <= rt < 8) {
            None
        } else {
            let promo = if s.len() >= 5 {
                promo_piece(s[4])
            } else {
                Some(0u8)
            };
            match promo {
                None => None,
                Some(pr) => find_move(legal_moves(p), rf * 8 + ff, rt * 8 + tf, pr),
            }
        }
    }
}

proof fn lemma_find_move(ms: Seq<Move>, from: int, to: int, promo: u8, k: int)
    requires
        0 <= k <= ms.len(),
        forall|j: int|
            0 <= j < k ==> !(#[trigger] ms[j].from == from && ms[j].to == to && ms[j].promo == promo),
    ensures
        k < ms.len() && ms[k].from == from && ms[k].to == to && ms[k].promo == promo ==> find_move(
            ms,
            from,
            to,
            promo,
        ) == Some(ms[k]),
        k == ms.len() ==> find_move(ms, from, to, promo) is None,
    decreases k,
{
    if k > 0 {
        let rest = ms.drop_first();
        assert forall|j: int|
            0 <= j < k - 1 implies !(#[trigger] rest[j].from == from && rest[j].to == to
            && rest[j].promo == promo) by {
            assert(rest[j] == ms[j + 1]);
        }
        lemma_find_move(rest, from, to, promo, k - 1);
        assert(!(ms[0].from == from && ms[0].to == to && ms[0].promo == promo));
        if k < ms.len() {
            assert(rest[k - 1] == ms[k]);
        }
    }
}

pub(crate) proof fn lemma_find_some(ms: Seq<Move>, m: Move)
    requires
        exists|from: int, to: int, promo: u8| find_move(ms, from, to, promo) == Some(m),
    ensures
        ms.contains(m),
{
    let (from, to, promo) = choose|from: int, to: int, promo: u8| find_move(ms, from, to, promo) == Some(m);
    lemma_find_member(ms, from, to, promo);
}

/// The move `find_move` finds is one of the listed moves.
pub proof fn lemma_find_member(ms: Seq<Move>, from: int, to: int, promo: u8)
    ensures
        find_move(ms, from, to, promo) matches Some(m) ==> ms.contains(m),
    decreases ms.len(),
{
    if ms.len() > 0 && !(ms[0].from == from && ms[0].to == to && ms[0].promo == promo) {
        lemma_find_member(ms.drop_first(), from, to, promo);
        if let Some(m) = find_move(ms, from, to, promo) {
            let j = choose|j: int| 0 <= j < ms.drop_first().len() && ms.drop_first()[j] == m;
            assert(ms[j + 1] == m);
        }
    } else if ms.len() > 0 {
        assert(ms[0] == ms[0]);
    }
}

proof fn lemma_find_present(ms: Seq<Move>, m: Move)
    requires
        ms.contains(m),
    ensures
        find_move(ms, m.from as int, m.to as int, m.promo) matches Some(m2) && m2.from == m.from
            && m2.to == m.to && m2.promo == m.promo && ms.contains(m2),
    decreases ms.len(),
{
    if !(ms[0].from == m.from && ms[0].to == m.to && ms[0].promo == m.promo) {
        let k = choose|k: int| 0 <= k < ms.len() && ms[k] == m;
        assert(k != 0);
        assert(ms.drop_first()[k - 1] == m);
        lemma_find_present(ms.drop_first(), m);
        let m2 = find_move(ms, m.from as int, m.to as int, m.promo)->0;
        let j = choose|j: int| 0 <= j < ms.drop_first().len() && ms.drop_first()[j] == m2;
        assert(ms[j + 1] == m2);
    } else {
        assert(ms[0] == ms[0]);
    }
}

/// Reading back the long algebraic notation of a legal move names a legal
/// move with the same squares and promotion piece.
pub proof fn lemma_notation_reads_back(p: Pos, m: Move)
    requires
        valid_pos(p),
        p.half < 65535,
        p.full < 65535,
        legal_moves(p).contains(m),
    ensures
        uci_move_spec(p, uci_spec(m)) matches Some(m2) && legal_moves(p).contains(m2) && m2.from
            == m.from && m2.to == m.to && m2.promo == m.promo,
{
    lemma_legal_member(p, m);
    lemma_generated_moves_fit(p);
    let k = choose|k: int| 0 <= k < pseudo_moves(p).len() && pseudo_moves(p)[k] == m;
    assert(fits(p, pseudo_moves(p)[k]));
    let s = uci_spec(m);
    let f = m.from as int;
    let t = m.to as int;
    assert(file_index(s[0]) == f % 8);
    assert(rank_index(s[1]) == f / 8);
    assert(file_index(s[2]) == t % 8);
    assert(rank_index(s[3]) == t / 8);
    assert((f / 8) * 8 + f % 8 == f);
    assert((t / 8) * 8 + t % 8 == t);
    if m.promo != 0 {
        assert(s.len() == 5);
        assert(promo_piece(s[4]) == Some(m.promo));
    } else {
        assert(s.len() == 4);
    }
    lemma_find_present(legal_moves(p), m);
}

fn char_code(c: char) -> (n: u32)
    ensures
        n == c as int,
{
    c as u32
}

/// Reads a move in long algebraic notation; `None` unless it names a
/// legal move.  The board is left as it was.
pub fn parse_uci_chars(board: &mut Board, s: &Vec<char>) -> (r: Option<Move>)
    requires
        playable(old(board)@),
    ensures
        *final(board) == *old(board),
        r == uci_move_spec(old(board)@, s@),
{
    if s.len() < 4 {
        return None;
    }
    let ff = char_code(s[0]) as i64 - 97;
    let rf = char_code(s[1]) as i64 - 49;
    let tf = char_code(s[2]) as i64 - 97;
    let rt = char_code(s[3]) as i64 - 49;
    if !(0 <= ff && ff < 8 && 0 <= rf && rf < 8 && 0 <= tf && tf < 8 && 0 <= rt && rt < 8) {
        return None;
    }
    let from = (rf * 8 + ff) as u8;
    let to = (rt * 8 + tf) as u8;
    let promo: u8 = if s.len() >= 5 {
        let c = s[4];
        if c == 'n' {
            1
        } else if c == 'b' {
            2
        } else if c == 'r' {
            3
        } else if c == 'q' {
            4
        } else {
            return None;
        }
    } else {
        0
    };
    let ghost b0 = *board;
    let mut legal: Vec<Move> = Vec::new();
    board.gen_legal(&mut legal);
    proof {
        lemma_board_same(*board, b0);
        assert(uci_move_spec(b0@, s@) == find_move(legal_moves(b0@), from as int, to as int, promo));
    }
    let mut i: usize = 0;
    while i < legal.len()
        invariant
            i <= legal@.len(),
            legal@ == legal_moves(b0@),
            *board == b0,
            b0 == *old(board),
            uci_move_spec(b0@, s@) == find_move(legal_moves(b0@), from as int, to as int, promo),
            forall|j: int|
                0 <= j < i ==> !(#[trigger] legal@[j].from == from && legal@[j].to == to
                    && legal@[j].promo == promo),
        decreases legal@.len() - i,
    {
        let m = legal[i];
        if m.from == from && m.to == to && m.promo == promo {
            proof {
                lemma_find_move(legal@, from as int, to as int, promo, i as int);
            }
            return Some(m);
        }
        i += 1;
    }
    proof {
        lemma_find_move(legal@, from as int, to as int, promo, i as int);
    }
    None
}

/// Reads a move in long algebraic notation; `None` unless it names a
/// legal move.  The board is left as it was.
pub fn parse_uci_move(board: &mut Board, s: &str) -> (r: Option<Move>)
    requires
        playable(old(board)@),
    ensures
        *final(board) == *old(board),
        r == uci_move_spec(old(board)@, s@),
{
    let cs = chars_of(s);
    parse_uci_chars(board, &cs)
}

// ---------------------------------------------------------------------------
// The `position` command
// ---------------------------------------------------------------------------
/// One move of a `position` command: the word must name a legal move of a
/// playable position; the move is played and the old hash recorded.
pub open spec fn play_one_spec(p: Pos, h: u64, hist: Seq<u64>, w: Seq<char>) -> Option<
    (Pos, u64, Seq<u64>),
> {
    if !playable(p) {
        None
    } else {
        match uci_move_spec(p, w) {
            None => None,
            Some(m) => if !king_safe_after(p, m) {
                None
            } else {
                Some((apply_move(p, m), make_hash(p, m, h), hist.push(h)))
            },
        }
    }
}

/// Plays the moves named by `ws` from the position `p` (hash `h`, earlier
/// hashes `hist`).
pub open spec fn play_moves(p: Pos, h: u64, hist: Seq<u64>, ws: Seq<Seq<char>>) -> Option<
    (Pos, u64, Seq<u64>),
>
    decreases ws.len(),
{
    if ws.len() == 0 {
        Some((p, h, hist))
    } else {
        match play_one_spec(p, h, hist, ws[0]) {
            None => None,
            Some(t) => play_moves(t.0, t.1, t.2, ws.drop_first()),
        }
    }
}

/// The game a `position` command describes, or `None` for a command that
/// is malformed or names an illegal move: `position startpos [moves ...]`
/// or `position fen <fields> [moves ...]` (at least four FEN fields).
pub open spec fn position_spec(cmd: Seq<char>) -> Option<(Pos, u64, Seq<u64>)> {
    let t = trim_chars(cmd);
    if !starts_with(t, "position"@) {
        None
    } else {
        let rest = trim_chars(t.subrange("position"@.len() as int, t.len() as int));
        if starts_with(rest, "startpos"@) {
            let w = words(rest);
            let p = start_pos();
            if w.len() > 1 && w[1] == "moves"@ {
                play_moves(p, hash_of(p), seq![], w.subrange(2, w.len() as int))
            } else {
                Some((p, hash_of(p), seq![]))
            }
        } else if starts_with(rest, "fen"@) {
            let parts = words(rest.subrange("fen"@.len() as int, rest.len() as int));
            let i = index_from(parts, "moves"@, 0);
            if i < 4 {
                None
            } else {
                match fen_parse(join_words(parts.subrange(0, i))) {
                    Err(_) => None,
                    Ok(p) => play_moves(
                        p,
                        hash_of(p),
                        seq![],
                        if i < parts.len() {
                            parts.subrange(i + 1, parts.len() as int)
                        } else {
                            seq![]
                        },
                    ),
                }
            }
        } else {
            None
        }
    }
}

/// A position as the triple the specification speaks of.
pub open spec fn position_view(r: Option<Position>) -> Option<(Pos, u64, Seq<u64>)> {
    match r {
        Some(p) => Some((p.board@, p.board.hash, p.history@)),
        None => None,
    }
}

/// Plays the move a word names on `pos`; false when the word does not name
/// a legal move of a playable position.
fn play_one(pos: &mut Position, w: &Vec<char>) -> (ok: bool)
    ensures
        play_one_spec(old(pos).board@, old(pos).board.hash, old(pos).history@, w@) == (if ok {
            Some((final(pos).board@, final(pos).board.hash, final(pos).history@))
        } else {
            None
        }),
{
    let ghost p = pos.board@;
    if !(pos.board.is_valid() && pos.board.half < 65535 && pos.board.full < 65535) {
        return false;
    }
    pos.history.push(pos.board.hash);
    let mv = parse_uci_chars(&mut pos.board, w);
    let m = match mv {
        Some(m) => m,
        None => {
            return false;
        },
    };
    proof {
        lemma_find_some(legal_moves(p), m);
        lemma_legal_member(p, m);
        lemma_generated_moves_fit(p);
        let k3 = choose|k3: int| 0 <= k3 < pseudo_moves(p).len() && pseudo_moves(p)[k3] == m;
        assert(fits(p, pseudo_moves(p)[k3]));
        lemma_apply_valid(p, m);
    }
    let u = pos.board.make(&m);
    let us = opp(pos.board.side);
    if pos.board.is_attacked(pos.board.king[us as usize], pos.board.side) {
        pos.board.unmake(&m, &u);
        pos.history.pop();
        return false;
    }
    true
}

/// Plays the words `ws[from..]` as moves on `pos`; false (and `pos` of no
/// further use) when one is not a legal move of a playable position.
fn play_words(pos: &mut Position, ws: &Vec<Vec<char>>, from: usize, Ghost(target): Ghost<
    Seq<Seq<char>>,
>) -> (ok: bool)
    requires
        from <= ws@.len(),
        ws@.len() == target.len(),
        forall|k: int| 0 <= k < ws@.len() ==> #[trigger] ws@[k]@ == target[k],
    ensures
        ok ==> play_moves(
            old(pos).board@,
            old(pos).board.hash,
            old(pos).history@,
            target.subrange(from as int, target.len() as int),
        ) == Some((final(pos).board@, final(pos).board.hash, final(pos).history@)),
        !ok ==> play_moves(
            old(pos).board@,
            old(pos).board.hash,
            old(pos).history@,
            target.subrange(from as int, target.len() as int),
        ) is None,
{
    let mut k = from;
    while k < ws.len()
        invariant
            from <= k <= ws@.len(),
            ws@.len() == target.len(),
            forall|j: int| 0 <= j < ws@.len() ==> #[trigger] ws@[j]@ == target[j],
            play_moves(
                old(pos).board@,
                old(pos).board.hash,
                old(pos).history@,
                target.subrange(from as int, target.len() as int),
            ) == play_moves(
                pos.board@,
                pos.board.hash,
                pos.history@,
                target.subrange(k as int, target.len() as int),
            ),
        decreases ws@.len() - k,
    {
        let ghost rest = target.subrange(k as int, target.len() as int);
        proof {
            assert(rest[0] == target[k as int]);
            assert(rest.drop_first() =~= target.subrange(k + 1, target.len() as int));
        }
        if !play_one(pos, &ws[k]) {
            return false;
        }
        k += 1;
    }
    proof {
        assert(target.subrange(k as int, target.len() as int).len() == 0);
    }
    true
}

/// The game a `position` command describes (see `position_spec`).
pub fn apply_position(cmd: &str) -> (r: Option<Position>)
    ensures
        position_view(r) == position_spec(cmd@),
{
    let c = chars_of(cmd);
    let t = trim_vec(&c);
    let kw_position = chars_of("position");
    if !starts_with_vec(&t, &kw_position) {
        return None;
    }
    let after = subvec(&t, kw_position.len(), t.len());
    let rest = trim_vec(&after);
    let kw_start = chars_of("startpos");
    let kw_fen = chars_of("fen");
    let kw_moves = chars_of("moves");
    if starts_with_vec(&rest, &kw_start) {
        let mut pos = Position::startpos();
        let w = split_words(&rest);
        let ghost target = words(rest@);
        if w.len() > 1 && eq_vec(&w[1], &kw_moves) {
            if !play_words(&mut pos, &w, 2, Ghost(target)) {
                return None;
            }
        }
        Some(pos)
    } else if starts_with_vec(&rest, &kw_fen) {
        let r = subvec(&rest, kw_fen.len(), rest.len());
        let parts = split_words(&r);
        let ghost target = words(r@);
        let mut i: usize = 0;
        while i < parts.len() && !eq_vec(&parts[i], &kw_moves)
            invariant
                i <= parts@.len(),
                parts@.len() == target.len(),
                forall|k: int| 0 <= k < parts@.len() ==> #[trigger] parts@[k]@ == target[k],
                kw_moves@ == "moves"@,
                index_from(target, "moves"@, 0) == index_from(target, "moves"@, i as int),
            decreases parts@.len() - i,
        {
            i += 1;
        }
        if i < 4 {
            return None;
        }
        let fen = join_range(&parts, 0, i, Ghost(target));
        let fen_s = string_from_chars(&fen);
        match Board::from_fen(fen_s.as_str()) {
            Err(_) => None,
            Ok(b) => {
                let mut pos = Position { board: b, history: Vec::new() };
                if i < parts.len() {
                    if !play_words(&mut pos, &parts, i + 1, Ghost(target)) {
                        return None;
                    }
                } else {
                    proof {
                        assert(target.subrange(i as int, target.len() as int).len() == 0);
                    }
                }
                Some(pos)
            },
        }
    } else {
        None
    }
}


// ---------------------------------------------------------------------------
// The `go` command
// ---------------------------------------------------------------------------
/// Limits with nothing set.
pub open spec fn no_limits() -> SearchLimits {
    SearchLimits {
        wtime: None,
        btime: None,
        winc: None,
        binc: None,
        movestogo: None,
        movetime: None,
        depth: None,
        nodes: None,
        infinite: false,
    }
}

/// The number in word `j`, as `str::parse` reads it for a type whose
/// largest value is `max`; none when there is no such word.
pub open spec fn num_at(ws: Seq<Seq<char>>, j: int, max: nat) -> Option<nat> {
    if 0 <= j < ws.len() {
        parse_unsigned_spec(ws[j], max)
    } else {
        None
    }
}

pub open spec fn as_u64(o: Option<nat>) -> Option<u64> {
    match o {
        Some(v) => Some(v as u64),
        None => None,
    }
}

pub open spec fn as_u32(o: Option<nat>) -> Option<u32> {
    match o {
        Some(v) => Some(v as u32),
        None => None,
    }
}

pub open spec fn as_u8(o: Option<nat>) -> Option<u8> {
    match o {
        Some(v) => Some(v as u8),
        None => None,
    }
}

/// Reads `go` parameters from word `i` on: each limit keyword takes the
/// number in the next word (absent or malformed: unset), `infinite` and
/// `ponder` set an infinite search, `searchmoves` takes all remaining
/// words; other words are skipped.  Returns the limits and where the
/// search moves start.
pub open spec fn go_fold(ws: Seq<Seq<char>>, i: int, lim: SearchLimits) -> (SearchLimits, int)
    decreases ws.len() + 1 - i,
{
    if i < 0 || i >= ws.len() {
        (lim, ws.len() as int)
    } else {
        let w = ws[i];
        if w == "wtime"@ {
            go_fold(ws, i + 2, SearchLimits { wtime: as_u64(num_at(ws, i + 1, u64::MAX as nat)), ..lim })
        } else if w == "btime"@ {
            go_fold(ws, i + 2, SearchLimits { btime: as_u64(num_at(ws, i + 1, u64::MAX as nat)), ..lim })
        } else if w == "winc"@ {
            go_fold(ws, i + 2, SearchLimits { winc: as_u64(num_at(ws, i + 1, u64::MAX as nat)), ..lim })
        } else if w == "binc"@ {
            go_fold(ws, i + 2, SearchLimits { binc: as_u64(num_at(ws, i + 1, u64::MAX as nat)), ..lim })
        } else if w == "movestogo"@ {
            go_fold(
                ws,
                i + 2,
                SearchLimits { movestogo: as_u32(num_at(ws, i + 1, u32::MAX as nat)), ..lim },
            )
        } else if w == "movetime"@ {
            go_fold(
                ws,
                i + 2,
                SearchLimits { movetime: as_u64(num_at(ws, i + 1, u64::MAX as nat)), ..lim },
            )
        } else if w == "depth"@ {
            go_fold(ws, i + 2, SearchLimits { depth: as_u8(num_at(ws, i + 1, u8::MAX as nat)), ..lim })
        } else if w == "nodes"@ {
            go_fold(ws, i + 2, SearchLimits { nodes: as_u64(num_at(ws, i + 1, u64::MAX as nat)), ..lim })
        } else if w == "infinite"@ || w == "ponder"@ {
            go_fold(ws, i + 1, SearchLimits { infinite: true, ..lim })
        } else if w == "searchmoves"@ {
            (lim, i + 1)
        } else {
            go_fold(ws, i + 1, lim)
        }
    }
}

/// The limits and search moves of a `go` command given as words (the
/// leading `go` is optional).
pub open spec fn go_spec(ws: Seq<Seq<char>>) -> (SearchLimits, Seq<Seq<char>>) {
    let start: int = if ws.len() > 0 && ws[0] == "go"@ {
        1
    } else {
        0
    };
    let r = go_fold(ws, start, no_limits());
    (r.0, ws.subrange(r.1, ws.len() as int))
}

/// The index after a keyword at `i` and its value (at most `n`).
fn past_value(i: usize, n: usize) -> (j: usize)
    requires
        i < n,
    ensures
        j == (if i + 2 <= n {
            i + 2
        } else {
            n as int
        }),
{
    if i + 1 < n {
        i + 2
    } else {
        n
    }
}

pub(crate) fn word_is(w: &Vec<char>, lit: &str) -> (b: bool)
    ensures
        b == (w@ == lit@),
{
    let l = chars_of(lit);
    eq_vec(w, &l)
}

fn number_at(ws: &Vec<Vec<char>>, j: usize, max: u64) -> (r: Option<u64>)
    requires
        j <= ws@.len(),
    ensures
        r == as_u64(num_at(ws@.map_values(|w: Vec<char>| w@), j as int, max as nat)),
{
    if j < ws.len() {
        let r = parse_unsigned(&ws[j], max);
        proof {
            assert(ws@.map_values(|w: Vec<char>| w@)[j as int] == ws@[j as int]@);
        }
        r
    } else {
        None
    }
}

/// Reads the search limits of a `go` command given as words, and where
/// its search moves start (see `go_fold`).
pub fn parse_go_words(ws: &Vec<Vec<char>>) -> (r: (SearchLimits, usize))
    ensures
        ({
            let target = ws@.map_values(|w: Vec<char>| w@);
            let start: int = if target.len() > 0 && target[0] == "go"@ {
                1
            } else {
                0
            };
            (r.0, r.1 as int) == go_fold(target, start, no_limits())
        }),
        r.1 <= ws@.len(),
{
    let ghost target = ws@.map_values(|w: Vec<char>| w@);
    proof {
        assert forall|j: int| 0 <= j < ws@.len() implies #[trigger] ws@[j]@ == target[j] by {}
    }
    let mut lim = SearchLimits::default();
    assert(lim == no_limits());
    let mut i: usize = if ws.len() > 0 && word_is(&ws[0], "go") {
        1
    } else {
        0
    };
    let ghost start = i as int;
    let mut sm_start: usize = ws.len();
    let mut done = false;
    while !done && i < ws.len()
        invariant
            i <= ws@.len(),
            sm_start <= ws@.len(),
            ws@.map_values(|w: Vec<char>| w@) == target,
            ws@.len() == target.len(),
            forall|j: int| 0 <= j < ws@.len() ==> #[trigger] ws@[j]@ == target[j],
            !done ==> go_fold(target, start, no_limits()) == go_fold(target, i as int, lim),
            done ==> go_fold(target, start, no_limits()) == (lim, sm_start as int),
            !done ==> sm_start == ws@.len(),
        decreases ws@.len() + 1 - i + if done {
            0int
        } else {
            1int
        },
    {
        let w = &ws[i];
        assert(target[i as int] == w@);
        let ghost oi = i as int;
        let ghost olim = lim;
        if word_is(w, "wtime") {
            lim.wtime = number_at(ws, i + 1, u64::MAX);
            i = past_value(i, ws.len());
            assert(go_fold(target, oi + 2, lim) == go_fold(target, i as int, lim));
        } else if word_is(w, "btime") {
            lim.btime = number_at(ws, i + 1, u64::MAX);
            i = past_value(i, ws.len());
            assert(go_fold(target, oi + 2, lim) == go_fold(target, i as int, lim));
        } else if word_is(w, "winc") {
            lim.winc = number_at(ws, i + 1, u64::MAX);
            i = past_value(i, ws.len());
            assert(go_fold(target, oi + 2, lim) == go_fold(target, i as int, lim));
        } else if word_is(w, "binc") {
            lim.binc = number_at(ws, i + 1, u64::MAX);
            i = past_value(i, ws.len());
            assert(go_fold(target, oi + 2, lim) == go_fold(target, i as int, lim));
        } else if word_is(w, "movestogo") {
            let n = number_at(ws, i + 1, u32::MAX as u64);
            lim.movestogo = match n {
                Some(v) => Some(v as u32),
                None => None,
            };
            i = past_value(i, ws.len());
            assert(go_fold(target, oi + 2, lim) == go_fold(target, i as int, lim));
        } else if word_is(w, "movetime") {
            lim.movetime = number_at(ws, i + 1, u64::MAX);
            i = past_value(i, ws.len());
            assert(go_fold(target, oi + 2, lim) == go_fold(target, i as int, lim));
        } else if word_is(w, "depth") {
            let n = number_at(ws, i + 1, u8::MAX as u64);
            lim.depth = match n {
                Some(v) => Some(v as u8),
                None => None,
            };
            i = past_value(i, ws.len());
            assert(lim == SearchLimits { depth: as_u8(num_at(target, oi + 1, u8::MAX as nat)), ..olim });
            assert(go_fold(target, oi + 2, lim) == go_fold(target, i as int, lim));
        } else if word_is(w, "nodes") {
            lim.nodes = number_at(ws, i + 1, u64::MAX);
            i = past_value(i, ws.len());
            assert(go_fold(target, oi + 2, lim) == go_fold(target, i as int, lim));
        } else if word_is(w, "infinite") || word_is(w, "ponder") {
            lim.infinite = true;
            i += 1;
        } else if word_is(w, "searchmoves") {
            sm_start = i + 1;
            done = true;
        } else {
            i += 1;
        }
    }
    (lim, sm_start)
}

/// Reads the search limits and search moves of a `go` command.
pub fn parse_go(words: &[&str]) -> (r: (SearchLimits, Vec<String>))
    ensures
        ({
            let g = go_spec(words@.map_values(|w: &str| w@));
            &&& r.0 == g.0
            &&& r.1@.len() == g.1.len()
            &&& forall|k: int| 0 <= k < r.1@.len() ==> #[trigger] r.1@[k]@ == g.1[k]
        }),
{
    let ghost target = words@.map_values(|w: &str| w@);
    let mut ws: Vec<Vec<char>> = Vec::new();
    let mut k: usize = 0;
    while k < words.len()
        invariant
            k <= words@.len(),
            ws@.len() == k,
            target == words@.map_values(|w: &str| w@),
            forall|j: int| 0 <= j < k ==> #[trigger] ws@[j]@ == target[j],
        decreases words@.len() - k,
    {
        let w = chars_of(words[k]);
        ws.push(w);
        k += 1;
    }
    proof {
        assert(ws@.map_values(|w: Vec<char>| w@) =~= target);
    }
    let (lim, sm_start) = parse_go_words(&ws);
    let mut moves: Vec<String> = Vec::new();
    let mut j = sm_start;
    while j < ws.len()
        invariant
            sm_start <= j <= ws@.len(),
            ws@.len() == target.len(),
            forall|t: int| 0 <= t < ws@.len() ==> #[trigger] ws@[t]@ == target[t],
            moves@.len() == j - sm_start,
            forall|t: int| 0 <= t < moves@.len() ==> #[trigger] moves@[t]@ == target[sm_start + t],
        decreases ws@.len() - j,
    {
        let s = string_from_chars(&ws[j]);
        moves.push(s);
        j += 1;
    }
    (lim, moves)
}

// ---------------------------------------------------------------------------
// Scores and principal variations
// ---------------------------------------------------------------------------
/// A score in UCI notation: `mate N` (moves to mate, negative when being
/// mated) for mate scores, else `cp N`.
pub open spec fn score_text(score: int) -> Seq<char> {
    if score > MATE - 1000 {
        "mate "@ + int_dec_spec(trunc_div(MATE - score + 1, 2))
    } else if score < -MATE + 1000 {
        "mate "@ + int_dec_spec(-trunc_div(MATE + score + 1, 2))
    } else {
        "cp "@ + int_dec_spec(score)
    }
}

fn half_trunc(x: i64) -> (r: i64)
    requires
        x > i64::MIN,
    ensures
        r == trunc_div(x as int, 2),
{
    if x >= 0 {
        x / 2
    } else {
        -((-x) / 2)
    }
}

/// A score in UCI notation (see `score_text`).
pub fn score_to_uci(score: i32) -> (s: String)
    ensures
        s@ == score_text(score as int),
{
    let mut v: Vec<char>;
    if score > MATE - 1000 {
        let plies = MATE as i64 - score as i64;
        let moves = half_trunc(plies + 1);
        v = chars_of("mate ");
        let d = int_dec_chars(moves);
        push_all(&mut v, &d);
    } else if score < -MATE + 1000 {
        let plies = MATE as i64 + score as i64;
        let moves = -half_trunc(plies + 1);
        v = chars_of("mate ");
        let d = int_dec_chars(moves);
        push_all(&mut v, &d);
    } else {
        v = chars_of("cp ");
        let d = int_dec_chars(score as i64);
        push_all(&mut v, &d);
    }
    string_from_chars(&v)
}

/// Moves in long algebraic notation, separated by single spaces.
pub open spec fn pv_text(pv: Seq<Move>) -> Seq<char>
    decreases pv.len(),
{
    if pv.len() == 0 {
        seq![]
    } else if pv.len() == 1 {
        uci_spec(pv[0])
    } else {
        pv_text(pv.drop_last()) + seq![' '] + uci_spec(pv.last())
    }
}

/// A principal variation in UCI notation (see `pv_text`).
pub fn pv_to_string(pv: &[Move]) -> (s: String)
    ensures
        s@ == pv_text(pv@),
{
    let mut v: Vec<char> = Vec::new();
    let mut i: usize = 0;
    while i < pv.len()
        invariant
            i <= pv@.len(),
            v@ == pv_text(pv@.take(i as int)),
        decreases pv@.len() - i,
    {
        let ghost next = pv@.take(i + 1);
        proof {
            assert(next.drop_last() =~= pv@.take(i as int));
            assert(next.last() == pv@[i as int]);
        }
        if i > 0 {
            v.push(' ');
        }
        let m = pv[i];
        let u = m.uci_chars();
        push_all(&mut v, &u);
        proof {
            if i == 0 {
                assert(v@ =~= pv_text(next));
            } else {
                assert(v@ =~= pv_text(next.drop_last()) + seq![' '] + uci_spec(next.last()));
            }
        }
        i += 1;
    }
    proof {
        assert(pv@.take(pv@.len() as int) =~= pv@);
    }
    string_from_chars(&v)
}

/// The `go` keywords that take the next word as their value.
pub open spec fn takes_value(w: Seq<char>) -> bool {
    ||| w == "wtime"@
    ||| w == "btime"@
    ||| w == "winc"@
    ||| w == "binc"@
    ||| w == "movestogo"@
    ||| w == "movetime"@
    ||| w == "depth"@
    ||| w == "nodes"@
}

/// Once the search is unlimited, later words do not limit it again.
proof fn lemma_go_fold_keeps_infinite(ws: Seq<Seq<char>>, i: int)
    ensures
        forall|lim: SearchLimits| lim.infinite ==> (#[trigger] go_fold(ws, i, lim)).0.infinite,
    decreases ws.len() + 1 - i,
{
    if 0 <= i < ws.len() {
        lemma_go_fold_keeps_infinite(ws, i + 1);
        lemma_go_fold_keeps_infinite(ws, i + 2);
        assert forall|lim: SearchLimits| lim.infinite implies (#[trigger] go_fold(
            ws,
            i,
            lim,
        )).0.infinite by {
            let w = ws[i];
            let u64m = u64::MAX as nat;
            let l1 = SearchLimits { infinite: true, ..lim };
            assert(go_fold(ws, i + 1, l1).0.infinite);
            assert(go_fold(ws, i + 1, lim).0.infinite);
            assert(go_fold(ws, i + 2, SearchLimits { wtime: as_u64(num_at(ws, i + 1, u64m)), ..lim }).0.infinite);
            assert(go_fold(ws, i + 2, SearchLimits { btime: as_u64(num_at(ws, i + 1, u64m)), ..lim }).0.infinite);
            assert(go_fold(ws, i + 2, SearchLimits { winc: as_u64(num_at(ws, i + 1, u64m)), ..lim }).0.infinite);
            assert(go_fold(ws, i + 2, SearchLimits { binc: as_u64(num_at(ws, i + 1, u64m)), ..lim }).0.infinite);
            assert(go_fold(
                ws,
                i + 2,
                SearchLimits { movestogo: as_u32(num_at(ws, i + 1, u32::MAX as nat)), ..lim },
            ).0.infinite);
            assert(go_fold(ws, i + 2, SearchLimits { movetime: as_u64(num_at(ws, i + 1, u64m)), ..lim }).0.infinite);
            assert(go_fold(ws, i + 2, SearchLimits { depth: as_u8(num_at(ws, i + 1, u8::MAX as nat)), ..lim }).0.infinite);
            assert(go_fold(ws, i + 2, SearchLimits { nodes: as_u64(num_at(ws, i + 1, u64m)), ..lim }).0.infinite);
        }
    }
}

/// The `go` words begin with different letters from `infinite`.
proof fn lemma_go_words_differ()
    ensures
        "infinite"@ != "wtime"@,
        "infinite"@ != "btime"@,
        "infinite"@ != "winc"@,
        "infinite"@ != "binc"@,
        "infinite"@ != "movestogo"@,
        "infinite"@ != "movetime"@,
        "infinite"@ != "depth"@,
        "infinite"@ != "nodes"@,
        "infinite"@ != "searchmoves"@,
        "infinite"@ != "go"@,
{
    reveal_strlit("infinite");
    reveal_strlit("searchmoves");
    reveal_strlit("wtime");
    reveal_strlit("btime");
    reveal_strlit("winc");
    reveal_strlit("binc");
    reveal_strlit("movestogo");
    reveal_strlit("movetime");
    reveal_strlit("depth");
    reveal_strlit("nodes");
    reveal_strlit("go");
    assert("infinite"@[0] == 'i');
    assert("wtime"@[0] == 'w');
    assert("btime"@[0] == 'b');
    assert("winc"@[0] == 'w');
    assert("binc"@[0] == 'b');
    assert("movestogo"@[0] == 'm');
    assert("movetime"@[0] == 'm');
    assert("depth"@[0] == 'd');
    assert("nodes"@[0] == 'n');
    assert("searchmoves"@[0] == 's');
    assert("go"@[0] == 'g');
}

proof fn lemma_go_fold_sees_infinite(ws: Seq<Seq<char>>, c: int, i: int)
    requires
        0 <= c <= i < ws.len(),
        ws[i] == "infinite"@,
        c == i || !takes_value(ws[i - 1]),
        forall|j: int| c <= j < i ==> ws[j] != "searchmoves"@,
    ensures
        forall|lim: SearchLimits| (#[trigger] go_fold(ws, c, lim)).0.infinite,
    decreases i - c,
{
    lemma_go_words_differ();
    lemma_go_fold_keeps_infinite(ws, c + 1);
    if c < i {
        let w = ws[c];
        if takes_value(w) {
            assert(c + 1 != i);
            lemma_go_fold_sees_infinite(ws, c + 2, i);
            assert forall|lim: SearchLimits| (#[trigger] go_fold(ws, c, lim)).0.infinite by {
                let u64m = u64::MAX as nat;
                assert(go_fold(ws, c + 2, SearchLimits { wtime: as_u64(num_at(ws, c + 1, u64m)), ..lim }).0.infinite);
                assert(go_fold(ws, c + 2, SearchLimits { btime: as_u64(num_at(ws, c + 1, u64m)), ..lim }).0.infinite);
                assert(go_fold(ws, c + 2, SearchLimits { winc: as_u64(num_at(ws, c + 1, u64m)), ..lim }).0.infinite);
                assert(go_fold(ws, c + 2, SearchLimits { binc: as_u64(num_at(ws, c + 1, u64m)), ..lim }).0.infinite);
                assert(go_fold(
                    ws,
                    c + 2,
                    SearchLimits { movestogo: as_u32(num_at(ws, c + 1, u32::MAX as nat)), ..lim },
                ).0.infinite);
                assert(go_fold(ws, c + 2, SearchLimits { movetime: as_u64(num_at(ws, c + 1, u64m)), ..lim }).0.infinite);
                assert(go_fold(ws, c + 2, SearchLimits { depth: as_u8(num_at(ws, c + 1, u8::MAX as nat)), ..lim }).0.infinite);
                assert(go_fold(ws, c + 2, SearchLimits { nodes: as_u64(num_at(ws, c + 1, u64m)), ..lim }).0.infinite);
            }
        } else if w != "infinite"@ && w != "ponder"@ {
            assert(w != "searchmoves"@);
            lemma_go_fold_sees_infinite(ws, c + 1, i);
            assert forall|lim: SearchLimits| (#[trigger] go_fold(ws, c, lim)).0.infinite by {
                assert(go_fold(ws, c + 1, lim).0.infinite);
            }
        } else {
            assert forall|lim: SearchLimits| (#[trigger] go_fold(ws, c, lim)).0.infinite by {
                assert(go_fold(ws, c + 1, SearchLimits { infinite: true, ..lim }).0.infinite);
            }
        }
    } else {
        assert forall|lim: SearchLimits| (#[trigger] go_fold(ws, c, lim)).0.infinite by {
            assert(go_fold(ws, c + 1, SearchLimits { infinite: true, ..lim }).0.infinite);
        }
    }
}

/// `go ... infinite` searches without limit: a word `infinite` that stands
/// before any `searchmoves` and is not the value of a keyword that takes
/// one makes the limits unlimited, whatever the other words are.
pub proof fn lemma_go_infinite(ws: Seq<Seq<char>>, i: int)
    requires
        0 <= i < ws.len(),
        ws[i] == "infinite"@,
        i == 0 || !takes_value(ws[i - 1]),
        forall|j: int| 0 <= j < i ==> ws[j] != "searchmoves"@,
    ensures
        go_spec(ws).0.infinite,
{
    lemma_go_words_differ();
    let start: int = if ws.len() > 0 && ws[0] == "go"@ {
        1
    } else {
        0
    };
    if start == 1 {
        assert(i != 0);
    }
    lemma_go_fold_sees_infinite(ws, start, i);
    assert(go_fold(ws, start, no_limits()).0.infinite);
}

} // verus!
