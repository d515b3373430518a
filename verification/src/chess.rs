//! Chess core: mailbox board, attack detection, move generation, make/unmake,
//! FEN, Zobrist hashing, perft.
//!
//! Squares a1 = 0 .. h8 = 63, file = sq & 7, rank = sq >> 3.
//! Pieces: 0 empty, 1..6 white P N B R Q K, 7..12 black P N B R Q K.
use vstd::prelude::*;
use crate::zobrist::{piece_key, side_key, castle_key, ep_key, piece_key_exec, side_key_exec, castle_key_exec, ep_key_exec};
use crate::text::string_from_chars;

verus! {

pub const EMPTY: u8 = 0;
pub const WP: u8 = 1;
pub const WN: u8 = 2;
pub const WB: u8 = 3;
pub const WR: u8 = 4;
pub const WQ: u8 = 5;
pub const WK: u8 = 6;
pub const BP: u8 = 7;
pub const BN: u8 = 8;
pub const BB: u8 = 9;
pub const BR: u8 = 10;
pub const BQ: u8 = 11;
pub const BK: u8 = 12;

pub const WHITE: u8 = 0;
pub const BLACK: u8 = 1;

pub const NO_SQ: u8 = 64;

pub const CR_WK: u8 = 1;
pub const CR_WQ: u8 = 2;
pub const CR_BK: u8 = 4;
pub const CR_BQ: u8 = 8;

/// Piece values (centipawns) shared by evaluation and move ordering.
pub const PIECE_VALUE: [i32; 6] = [100, 320, 330, 500, 900, 20000];

pub open spec fn piece_value(t: int) -> i32 {
    if t == 0 {
        100
    } else if t == 1 {
        320
    } else if t == 2 {
        330
    } else if t == 3 {
        500
    } else if t == 4 {
        900
    } else {
        20000
    }
}

pub fn piece_value_of(t: u8) -> (v: i32)
    requires
        t < 6,
    ensures
        v == piece_value(t as int),
{
    if t == 0 {
        100
    } else if t == 1 {
        320
    } else if t == 2 {
        330
    } else if t == 3 {
        500
    } else if t == 4 {
        900
    } else {
        20000
    }
}

// ---------------------------------------------------------------------------
// Small helpers
// ---------------------------------------------------------------------------
pub open spec fn color_spec(p: u8) -> u8 {
    ((p - 1) / 6) as u8
}

pub open spec fn type_spec(p: u8) -> u8 {
    ((p - 1) % 6) as u8
}

pub open spec fn piece_spec(color: u8, ptype: u8) -> u8 {
    (color * 6 + ptype + 1) as u8
}

pub open spec fn on_board(f: int, r: int) -> bool {
    0 <= f < 8 && 0 <= r < 8
}

pub open spec fn idx(f: int, r: int) -> int {
    r * 8 + f
}

pub open spec fn file_spec(s: int) -> int {
    s % 8
}

pub open spec fn rank_spec(s: int) -> int {
    s / 8
}

/// Color of a piece (0 white, 1 black).
pub fn color_of(p: u8) -> (c: u8)
    requires
        p >= 1,
    ensures
        c == color_spec(p),
{
    (p - 1) / 6
}

/// Type of a piece: 0 pawn, 1 knight, 2 bishop, 3 rook, 4 queen, 5 king.
pub fn type_of(p: u8) -> (t: u8)
    requires
        p >= 1,
    ensures
        t == type_spec(p),
{
    (p - 1) % 6
}

pub fn make_piece(color: u8, ptype: u8) -> (p: u8)
    requires
        color * 6 + ptype + 1 <= 255,
    ensures
        p == piece_spec(color, ptype),
{
    color * 6 + ptype + 1
}

pub fn file_of(sq: u8) -> (f: i8)
    ensures
        f == sq % 8,
{
    assert(sq & 7 == sq % 8) by (bit_vector);
    (sq & 7) as i8
}

pub fn rank_of(sq: u8) -> (r: i8)
    ensures
        r == sq / 8,
{
    assert(sq >> 3 == sq / 8) by (bit_vector);
    (sq >> 3) as i8
}

pub fn sq_at(file: i8, rank: i8) -> (s: u8)
    requires
        0 <= file < 8,
        0 <= rank < 8,
    ensures
        s == idx(file as int, rank as int),
{
    (rank as u8) * 8 + (file as u8)
}

pub open spec fn opp_spec(c: u8) -> u8 {
    (1 - c) as u8
}

/// The other color.
pub fn opp(color: u8) -> (o: u8)
    ensures
        o == color ^ 1,
        color <= 1 ==> o == opp_spec(color),
{
    let o = color ^ 1;
    assert(color <= 1 ==> color ^ 1 == 1 - color) by (bit_vector);
    o
}

// ---------------------------------------------------------------------------
// Moves
// ---------------------------------------------------------------------------
#[derive(Clone, Copy, PartialEq, Eq, Structural, Debug)]
pub struct Move {
    pub from: u8,
    pub to: u8,
    /// 0 = none, else 1..4 = N/B/R/Q (knight..queen)
    pub promo: u8,
    pub capture: bool,
    pub double_push: bool,
    pub en_passant: bool,
    pub castle_k: bool,
    pub castle_q: bool,
}

pub open spec fn quiet_spec(from: u8, to: u8) -> Move {
    Move {
        from,
        to,
        promo: 0,
        capture: false,
        double_push: false,
        en_passant: false,
        castle_k: false,
        castle_q: false,
    }
}

pub open spec fn capture_spec(from: u8, to: u8) -> Move {
    Move { capture: true, ..quiet_spec(from, to) }
}

pub open spec fn null_spec() -> Move {
    quiet_spec(0, 0)
}

pub open spec fn is_null_spec(m: Move) -> bool {
    m.from == m.to && m.promo == 0 && !m.capture && !m.castle_k && !m.castle_q && !m.en_passant
        && !m.double_push
}

pub open spec fn square_name(s: int) -> Seq<char> {
    seq![((97 + s % 8) as u8) as char, ((49 + s / 8) as u8) as char]
}

pub open spec fn promo_char(p: u8) -> char {
    if p == 1 {
        'n'
    } else if p == 2 {
        'b'
    } else if p == 3 {
        'r'
    } else if p == 4 {
        'q'
    } else {
        '?'
    }
}

/// Long algebraic notation of a move ("e2e4", "a7a8q").
pub open spec fn uci_spec(m: Move) -> Seq<char> {
    let base = square_name(m.from as int) + square_name(m.to as int);
    if m.promo != 0 {
        base.push(promo_char(m.promo))
    } else {
        base
    }
}

fn push_square(v: &mut Vec<char>, s: u8)
    ensures
        final(v)@ == old(v)@ + square_name(s as int),
{
    assert(s & 7 == s % 8) by (bit_vector);
    assert(s >> 3 == s / 8) by (bit_vector);
    assert(s / 8 <= 31);
    v.push((97u8 + (s & 7)) as char);
    v.push((49u8 + (s >> 3)) as char);
    assert(final(v)@ =~= old(v)@ + square_name(s as int));
}

impl Move {
    pub fn quiet(from: u8, to: u8) -> (m: Move)
        ensures
            m == quiet_spec(from, to),
    {
        Move {
            from,
            to,
            promo: 0,
            capture: false,
            double_push: false,
            en_passant: false,
            castle_k: false,
            castle_q: false,
        }
    }

    pub fn null() -> (m: Move)
        ensures
            m == null_spec(),
    {
        Move::quiet(0, 0)
    }

    pub fn is_null(&self) -> (b: bool)
        ensures
            b == is_null_spec(*self),
    {
        self.from == self.to && self.promo == 0 && !self.capture && !self.castle_k && !self.castle_q
            && !self.en_passant && !self.double_push
    }

    /// Characters of the move in long algebraic notation.
    pub fn uci_chars(&self) -> (v: Vec<char>)
        ensures
            v@ == uci_spec(*self),
    {
        let mut v = Vec::new();
        push_square(&mut v, self.from);
        push_square(&mut v, self.to);
        if self.promo != 0 {
            let c = if self.promo == 1 {
                'n'
            } else if self.promo == 2 {
                'b'
            } else if self.promo == 3 {
                'r'
            } else if self.promo == 4 {
                'q'
            } else {
                '?'
            };
            v.push(c);
        }
        v
    }

    pub fn to_uci(&self) -> (s: String)
        ensures
            s@ == uci_spec(*self),
    {
        let v = self.uci_chars();
        string_from_chars(&v)
    }
}

#[derive(Clone, Copy)]
pub struct Undo {
    pub captured: u8,
    pub castling: u8,
    pub ep: u8,
    pub half: u16,
    pub full: u16,
    pub hash: u64,
}

// ---------------------------------------------------------------------------
// Board and its mathematical model
// ---------------------------------------------------------------------------
#[derive(Clone, Copy)]
pub struct Board {
    pub sq: [u8; 64],
    pub side: u8,
    pub castling: u8,
    pub ep: u8,
    pub half: u16,
    pub full: u16,
    pub hash: u64,
    pub king: [u8; 2],
}

/// The position a board describes (everything but the hash).
#[verifier::ext_equal]
pub struct Pos {
    pub sq: Seq<u8>,
    pub side: u8,
    pub castling: u8,
    pub ep: u8,
    pub half: u16,
    pub full: u16,
    pub king: Seq<u8>,
}

impl View for Board {
    type V = Pos;

    open spec fn view(&self) -> Pos {
        Pos {
            sq: self.sq@,
            side: self.side,
            castling: self.castling,
            ep: self.ep,
            half: self.half,
            full: self.full,
            king: self.king@,
        }
    }
}

pub open spec fn pawn_of(c: u8) -> u8 {
    if c == 0 {
        WP
    } else {
        BP
    }
}

pub open spec fn rook_of(c: u8) -> u8 {
    if c == 0 {
        WR
    } else {
        BR
    }
}

pub open spec fn king_of(c: u8) -> u8 {
    if c == 0 {
        WK
    } else {
        BK
    }
}

pub open spec fn has_right(c: u8, bit: u8) -> bool {
    c & bit != 0
}

/// The positions the engine works on: pieces in range, the king squares
/// recorded for each king on the board, rooks standing on the corners that
/// castling rights refer to, and an empty en-passant square.
pub open spec fn valid_pos(p: Pos) -> bool {
    &&& p.sq.len() == 64
    &&& p.king.len() == 2
    &&& forall|s: int| 0 <= s < 64 ==> #[trigger] p.sq[s] <= 12
    &&& p.side <= 1
    &&& p.castling < 16
    &&& p.ep <= 64
    &&& (p.ep < 64 ==> p.sq[p.ep as int] == EMPTY)
    &&& p.king[0] < 64
    &&& p.king[1] < 64
    &&& forall|s: int| 0 <= s < 64 && #[trigger] p.sq[s] == WK ==> p.king[0] == s
    &&& forall|s: int| 0 <= s < 64 && #[trigger] p.sq[s] == BK ==> p.king[1] == s
    &&& (has_right(p.castling, CR_WK) ==> p.sq[7] == WR)
    &&& (has_right(p.castling, CR_WQ) ==> p.sq[0] == WR)
    &&& (has_right(p.castling, CR_BK) ==> p.sq[63] == BR)
    &&& (has_right(p.castling, CR_BQ) ==> p.sq[56] == BR)
}

/// The basic shape of a board: pieces in range and indices within bounds.
pub open spec fn sane_pos(p: Pos) -> bool {
    &&& p.sq.len() == 64
    &&& p.king.len() == 2
    &&& forall|s: int| 0 <= s < 64 ==> #[trigger] p.sq[s] <= 12
    &&& p.side <= 1
    &&& p.castling < 16
    &&& p.ep <= 64
    &&& p.king[0] < 64
    &&& p.king[1] < 64
}

// --- hashing ---------------------------------------------------------------
pub open spec fn psq(p: u8, s: int) -> u64 {
    if p == EMPTY {
        0
    } else {
        piece_key(p, s)
    }
}

/// XOR of the piece-square keys of squares `0..n`.
pub open spec fn sq_hash(sq: Seq<u8>, n: nat) -> u64
    decreases n,
{
    if n == 0 {
        0
    } else {
        sq_hash(sq, (n - 1) as nat) ^ psq(sq[n - 1], n - 1)
    }
}

/// The Zobrist hash of a position.
pub open spec fn hash_of(p: Pos) -> u64 {
    sq_hash(p.sq, 64) ^ (if p.side == BLACK {
        side_key()
    } else {
        0
    }) ^ castle_key(p.castling) ^ (if p.ep != NO_SQ {
        ep_key(p.ep & 7)
    } else {
        0
    })
}

pub proof fn lemma_xor_swap(a: u64, b: u64, c: u64)
    ensures
        (a ^ b) ^ c == (a ^ c) ^ b,
        (a ^ b) ^ b == a,
        a ^ 0 == a,
        (a ^ b) ^ c == a ^ (b ^ c),
{
    assert((a ^ b) ^ c == (a ^ c) ^ b) by (bit_vector);
    assert((a ^ b) ^ b == a) by (bit_vector);
    assert(a ^ 0 == a) by (bit_vector);
    assert((a ^ b) ^ c == a ^ (b ^ c)) by (bit_vector);
}

/// Changing one square changes the square hash by the old and new keys.
pub proof fn lemma_sq_hash_update(sq: Seq<u8>, i: int, v: u8, n: nat)
    requires
        0 <= i < n <= sq.len(),
    ensures
        sq_hash(sq.update(i, v), n) == sq_hash(sq, n) ^ psq(sq[i], i) ^ psq(v, i),
    decreases n,
{
    let sq2 = sq.update(i, v);
    if i == n - 1 {
        assert(sq_hash(sq2, (n - 1) as nat) == sq_hash(sq, (n - 1) as nat)) by {
            lemma_sq_hash_prefix(sq, sq2, (n - 1) as nat);
        }
        let a = sq_hash(sq, (n - 1) as nat);
        lemma_xor_swap(a, psq(sq[i], i), psq(sq[i], i));
        lemma_xor_swap(a ^ psq(sq[i], i), psq(sq[i], i), psq(v, i));
    } else {
        lemma_sq_hash_update(sq, i, v, (n - 1) as nat);
        let a = sq_hash(sq, (n - 1) as nat);
        let x = psq(sq[i], i);
        let y = psq(v, i);
        let z = psq(sq[n - 1], n - 1);
        assert(((a ^ x) ^ y) ^ z == ((a ^ z) ^ x) ^ y) by (bit_vector);
    }
}

pub proof fn lemma_sq_hash_prefix(a: Seq<u8>, b: Seq<u8>, n: nat)
    requires
        n <= a.len(),
        n <= b.len(),
        forall|j: int| 0 <= j < n ==> a[j] == b[j],
    ensures
        sq_hash(a, n) == sq_hash(b, n),
    decreases n,
{
    if n > 0 {
        lemma_sq_hash_prefix(a, b, (n - 1) as nat);
    }
}


// ---------------------------------------------------------------------------
// Attack detection
// ---------------------------------------------------------------------------
/// The square at offset (df, dr) from (f, r) is on the board and holds `pc`.
pub open spec fn off_has(sq: Seq<u8>, f: int, r: int, df: int, dr: int, pc: u8) -> bool {
    on_board(f + df, r + dr) && sq[idx(f + df, r + dr)] == pc
}

/// The first piece met walking from (f, r) in steps of (df, dr), or EMPTY if
/// the walk leaves the board first (any walk leaves it within 8 steps).
pub open spec fn ray_first(sq: Seq<u8>, f: int, r: int, df: int, dr: int, fuel: nat) -> u8
    decreases fuel,
{
    if fuel == 0 || !on_board(f, r) {
        EMPTY
    } else if sq[idx(f, r)] != EMPTY {
        sq[idx(f, r)]
    } else {
        ray_first(sq, f + df, r + dr, df, dr, (fuel - 1) as nat)
    }
}

/// A slider of kind `a` or `b` sees (f, r) along direction (df, dr).
pub open spec fn ray_hits(sq: Seq<u8>, f: int, r: int, df: int, dr: int, a: u8, b: u8) -> bool {
    let x = ray_first(sq, f + df, r + dr, df, dr, 8);
    x == a || x == b
}

pub open spec fn knight_hits(sq: Seq<u8>, f: int, r: int, n: u8) -> bool {
    ||| off_has(sq, f, r, 1, 2, n)
    ||| off_has(sq, f, r, 2, 1, n)
    ||| off_has(sq, f, r, 2, -1, n)
    ||| off_has(sq, f, r, 1, -2, n)
    ||| off_has(sq, f, r, -1, -2, n)
    ||| off_has(sq, f, r, -2, -1, n)
    ||| off_has(sq, f, r, -2, 1, n)
    ||| off_has(sq, f, r, -1, 2, n)
}

pub open spec fn king_hits(sq: Seq<u8>, f: int, r: int, k: u8) -> bool {
    ||| off_has(sq, f, r, -1, -1, k)
    ||| off_has(sq, f, r, -1, 0, k)
    ||| off_has(sq, f, r, -1, 1, k)
    ||| off_has(sq, f, r, 0, -1, k)
    ||| off_has(sq, f, r, 0, 1, k)
    ||| off_has(sq, f, r, 1, -1, k)
    ||| off_has(sq, f, r, 1, 0, k)
    ||| off_has(sq, f, r, 1, 1, k)
}

/// Square `t` is attacked by a piece of color `by` (0 white, otherwise black).
pub open spec fn attacked(sq: Seq<u8>, t: int, by: u8) -> bool {
    let f = t % 8;
    let r = t / 8;
    let white = by == WHITE;
    let pawn_hit = if white {
        off_has(sq, f, r, -1, -1, WP) || off_has(sq, f, r, 1, -1, WP)
    } else {
        off_has(sq, f, r, -1, 1, BP) || off_has(sq, f, r, 1, 1, BP)
    };
    let n = if white { WN } else { BN };
    let k = if white { WK } else { BK };
    let rk = if white { WR } else { BR };
    let bi = if white { WB } else { BB };
    let qu = if white { WQ } else { BQ };
    ||| pawn_hit
    ||| knight_hits(sq, f, r, n)
    ||| king_hits(sq, f, r, k)
    ||| ray_hits(sq, f, r, 1, 0, rk, qu)
    ||| ray_hits(sq, f, r, -1, 0, rk, qu)
    ||| ray_hits(sq, f, r, 0, 1, rk, qu)
    ||| ray_hits(sq, f, r, 0, -1, rk, qu)
    ||| ray_hits(sq, f, r, 1, 1, bi, qu)
    ||| ray_hits(sq, f, r, 1, -1, bi, qu)
    ||| ray_hits(sq, f, r, -1, 1, bi, qu)
    ||| ray_hits(sq, f, r, -1, -1, bi, qu)
}

impl Board {
    /// The piece at offset (df, dr) from (f, r) is `pc` (false off the board).
    fn off_is(&self, f: i8, r: i8, df: i8, dr: i8, pc: u8) -> (b: bool)
        requires
            0 <= f < 8,
            0 <= r < 8,
            -2 <= df <= 2,
            -2 <= dr <= 2,
        ensures
            b == off_has(self.sq@, f as int, r as int, df as int, dr as int, pc),
    {
        let ff = f + df;
        let rr = r + dr;
        if 0 <= ff && ff < 8 && 0 <= rr && rr < 8 {
            self.sq[sq_at(ff, rr) as usize] == pc
        } else {
            false
        }
    }

    /// The first piece seen from (f, r) along (df, dr), EMPTY if none.
    fn ray_first_from(&self, f: i8, r: i8, df: i8, dr: i8) -> (p: u8)
        requires
            0 <= f < 8,
            0 <= r < 8,
            -1 <= df <= 1,
            -1 <= dr <= 1,
        ensures
            p == ray_first(self.sq@, f + df, r + dr, df as int, dr as int, 8),
    {
        let mut ff = f + df;
        let mut rr = r + dr;
        let mut k: u8 = 0;
        while k < 8
            invariant
                k <= 8,
                -1 <= ff <= 8,
                -1 <= rr <= 8,
                -1 <= df <= 1,
                -1 <= dr <= 1,
                ray_first(self.sq@, f + df, r + dr, df as int, dr as int, 8) == ray_first(
                    self.sq@,
                    ff as int,
                    rr as int,
                    df as int,
                    dr as int,
                    (8 - k) as nat,
                ),
            decreases 8 - k,
        {
            if !(0 <= ff && ff < 8 && 0 <= rr && rr < 8) {
                return EMPTY;
            }
            let p = self.sq[sq_at(ff, rr) as usize];
            if p != EMPTY {
                return p;
            }
            ff = ff + df;
            rr = rr + dr;
            k += 1;
        }
        EMPTY
    }

    /// Whether square `target` is attacked by a piece of color `by`.
    pub fn is_attacked(&self, target: u8, by: u8) -> (b: bool)
        requires
            target < 64,
        ensures
            b == attacked(self.sq@, target as int, by),
    {
        let f = file_of(target);
        let r = rank_of(target);
        let white = by == WHITE;
        // pawns
        if white {
            if self.off_is(f, r, -1, -1, WP) || self.off_is(f, r, 1, -1, WP) {
                return true;
            }
        } else {
            if self.off_is(f, r, -1, 1, BP) || self.off_is(f, r, 1, 1, BP) {
                return true;
            }
        }
        // knights
        let n = if white { WN } else { BN };
        if self.off_is(f, r, 1, 2, n) || self.off_is(f, r, 2, 1, n) || self.off_is(f, r, 2, -1, n)
            || self.off_is(f, r, 1, -2, n) || self.off_is(f, r, -1, -2, n) || self.off_is(
            f,
            r,
            -2,
            -1,
            n,
        ) || self.off_is(f, r, -2, 1, n) || self.off_is(f, r, -1, 2, n) {
            return true;
        }
        // king
        let k = if white { WK } else { BK };
        if self.off_is(f, r, -1, -1, k) || self.off_is(f, r, -1, 0, k) || self.off_is(f, r, -1, 1, k)
            || self.off_is(f, r, 0, -1, k) || self.off_is(f, r, 0, 1, k) || self.off_is(
            f,
            r,
            1,
            -1,
            k,
        ) || self.off_is(f, r, 1, 0, k) || self.off_is(f, r, 1, 1, k) {
            return true;
        }
        // sliders
        let rk = if white { WR } else { BR };
        let bi = if white { WB } else { BB };
        let qu = if white { WQ } else { BQ };
        let x = self.ray_first_from(f, r, 1, 0);
        if x == rk || x == qu {
            return true;
        }
        let x = self.ray_first_from(f, r, -1, 0);
        if x == rk || x == qu {
            return true;
        }
        let x = self.ray_first_from(f, r, 0, 1);
        if x == rk || x == qu {
            return true;
        }
        let x = self.ray_first_from(f, r, 0, -1);
        if x == rk || x == qu {
            return true;
        }
        let x = self.ray_first_from(f, r, 1, 1);
        if x == bi || x == qu {
            return true;
        }
        let x = self.ray_first_from(f, r, 1, -1);
        if x == bi || x == qu {
            return true;
        }
        let x = self.ray_first_from(f, r, -1, 1);
        if x == bi || x == qu {
            return true;
        }
        let x = self.ray_first_from(f, r, -1, -1);
        if x == bi || x == qu {
            return true;
        }
        false
    }

    /// Whether the king of `color` stands attacked.
    pub fn in_check(&self, color: u8) -> (b: bool)
        requires
            color <= 1,
            self.king@[color as int] < 64,
        ensures
            b == attacked(self.sq@, self.king@[color as int] as int, opp_spec(color)),
    {
        self.is_attacked(self.king[color as usize], opp(color))
    }
}


// ---------------------------------------------------------------------------
// Making and unmaking moves
// ---------------------------------------------------------------------------
/// The square of the pawn taken en passant.
pub open spec fn ep_victim(side: u8, to: u8) -> int {
    if side == WHITE {
        to - 8
    } else {
        to + 8
    }
}

/// The square a capture empties (NO_SQ for a quiet move).
pub open spec fn cap_square(p: Pos, m: Move) -> int {
    if m.en_passant {
        ep_victim(p.side, m.to)
    } else if p.sq[m.to as int] != EMPTY {
        m.to as int
    } else {
        NO_SQ as int
    }
}

pub open spec fn captured_piece(p: Pos, m: Move) -> u8 {
    if m.en_passant {
        p.sq[ep_victim(p.side, m.to)]
    } else {
        p.sq[m.to as int]
    }
}

/// The piece that stands on the target square after the move.
pub open spec fn moved_piece(p: Pos, m: Move) -> u8 {
    if m.promo != 0 {
        piece_spec(p.side, m.promo)
    } else {
        p.sq[m.from as int]
    }
}

/// Rook squares (from, to) of a castling move of `side`.
pub open spec fn castle_rook_from(side: u8, kingside: bool) -> int {
    if kingside {
        if side == WHITE { 7 } else { 63 }
    } else {
        if side == WHITE { 0 } else { 56 }
    }
}

pub open spec fn castle_rook_to(side: u8, kingside: bool) -> int {
    if kingside {
        if side == WHITE { 5 } else { 61 }
    } else {
        if side == WHITE { 3 } else { 59 }
    }
}

pub open spec fn is_castle(m: Move) -> bool {
    m.castle_k || m.castle_q
}

pub open spec fn apply_squares(p: Pos, m: Move) -> Seq<u8> {
    let s1 = if m.en_passant {
        p.sq.update(ep_victim(p.side, m.to), EMPTY)
    } else {
        p.sq
    };
    let s2 = s1.update(m.from as int, EMPTY).update(m.to as int, moved_piece(p, m));
    if is_castle(m) {
        s2.update(castle_rook_from(p.side, m.castle_k), EMPTY).update(
            castle_rook_to(p.side, m.castle_k),
            rook_of(p.side),
        )
    } else {
        s2
    }
}

pub open spec fn new_castling(p: Pos, m: Move) -> u8 {
    let moved = moved_piece(p, m);
    let cap = cap_square(p, m);
    let c0 = p.castling;
    let c1 = if type_spec(moved) == 5 {
        if p.side == WHITE {
            c0 & 252u8
        } else {
            c0 & 243u8
        }
    } else {
        c0
    };
    let c2 = if m.from == 0 || cap == 0 { c1 & 253u8 } else { c1 };
    let c3 = if m.from == 7 || cap == 7 { c2 & 254u8 } else { c2 };
    let c4 = if m.from == 56 || cap == 56 { c3 & 247u8 } else { c3 };
    if m.from == 63 || cap == 63 { c4 & 251u8 } else { c4 }
}

pub open spec fn new_ep(p: Pos, m: Move) -> u8 {
    if m.double_push {
        if p.side == WHITE {
            (m.from + 8) as u8
        } else {
            (m.from - 8) as u8
        }
    } else {
        NO_SQ
    }
}

/// The position after playing `m` in `p`.
pub open spec fn apply_move(p: Pos, m: Move) -> Pos {
    let moved = moved_piece(p, m);
    Pos {
        sq: apply_squares(p, m),
        side: opp_spec(p.side),
        castling: new_castling(p, m),
        ep: new_ep(p, m),
        half: if type_spec(moved) == 0 || captured_piece(p, m) != EMPTY {
            0
        } else {
            (p.half + 1) as u16
        },
        full: if p.side == BLACK {
            (p.full + 1) as u16
        } else {
            p.full
        },
        king: if type_spec(moved) == 5 {
            p.king.update(p.side as int, m.to)
        } else {
            p.king
        },
    }
}

/// After a move the other side is to move, and the full-move number grows
/// after Black's move only.
pub proof fn lemma_move_turn(p: Pos, m: Move)
    requires
        p.side <= 1,
        p.full < 65535,
    ensures
        apply_move(p, m).side != p.side,
        apply_move(p, m).side <= 1,
        apply_move(p, m).full as int == if p.side == BLACK {
            p.full + 1
        } else {
            p.full as int
        },
{
}

/// The halfmove clock after a move: back to 0 when the move captures a
/// piece (on the target square, or behind it en passant) or moves a pawn
/// that stays a pawn; otherwise one more than before.  (A promotion that
/// captures nothing counts the promoted piece, as the piece now moving.)
pub proof fn lemma_halfmove_clock(p: Pos, m: Move)
    requires
        p.side <= 1,
        m.promo <= 4,
        p.half < 65535,
    ensures
        apply_move(p, m).half as int == (if (m.promo == 0 && type_spec(p.sq[m.from as int]) == 0)
            || (m.en_passant && p.sq[if p.side == WHITE {
            m.to - 8
        } else {
            m.to + 8
        }] != EMPTY) || (!m.en_passant && p.sq[m.to as int] != EMPTY) {
            0
        } else {
            p.half + 1
        }),
{
    if m.promo != 0 {
        assert(type_spec(piece_spec(p.side, m.promo)) == m.promo);
    }
}

/// The hash value `make` leaves, from the hash `h0` before the move.
pub open spec fn make_hash(p: Pos, m: Move, h0: u64) -> u64 {
    let moved = moved_piece(p, m);
    let cap_piece = captured_piece(p, m);
    let h1 = if p.ep != NO_SQ {
        h0 ^ ep_key(p.ep & 7)
    } else {
        h0
    };
    let h2 = h1 ^ castle_key(p.castling);
    let h3 = if m.en_passant {
        h2 ^ piece_key(cap_piece, ep_victim(p.side, m.to))
    } else if cap_piece != EMPTY {
        h2 ^ piece_key(cap_piece, m.to as int)
    } else {
        h2
    };
    let h4 = h3 ^ piece_key(p.sq[m.from as int], m.from as int) ^ piece_key(moved, m.to as int);
    let h5 = if is_castle(m) {
        h4 ^ piece_key(rook_of(p.side), castle_rook_from(p.side, m.castle_k)) ^ piece_key(
            rook_of(p.side),
            castle_rook_to(p.side, m.castle_k),
        )
    } else {
        h4
    };
    let h6 = h5 ^ castle_key(new_castling(p, m));
    let h7 = if m.double_push {
        h6 ^ ep_key(new_ep(p, m) & 7)
    } else {
        h6
    };
    h7 ^ side_key()
}

pub open spec fn undo_of(b: Board, m: Move) -> Undo {
    Undo {
        captured: captured_piece(b@, m),
        castling: b.castling,
        ep: b.ep,
        half: b.half,
        full: b.full,
        hash: b.hash,
    }
}

/// What `make` needs of a move: squares on the board, a piece on the
/// origin, and the counters below their limits.
pub open spec fn make_ok(p: Pos, m: Move) -> bool {
    &&& sane_pos(p)
    &&& m.from < 64
    &&& m.to < 64
    &&& p.sq[m.from as int] != EMPTY
    &&& m.promo <= 4
    &&& (m.en_passant ==> if p.side == WHITE { m.to >= 8 } else { m.to < 56 })
    &&& (m.double_push ==> if p.side == WHITE { m.from < 56 } else { m.from >= 8 })
    &&& p.half < 65535
    &&& p.full < 65535
}

/// A move that fits the position: it moves a piece of the side to move
/// and the squares it empties or fills hold what the move assumes.  Every
/// move the generator produces in a valid position fits.
pub open spec fn fits(p: Pos, m: Move) -> bool {
    &&& make_ok(p, m)
    &&& m.from != m.to
    &&& color_spec(p.sq[m.from as int]) == p.side
    &&& (m.promo != 0 ==> p.sq[m.from as int] == pawn_of(p.side))
    &&& (type_spec(p.sq[m.from as int]) == 5 ==> p.king[p.side as int] == m.from)
    &&& (m.en_passant ==> {
        &&& p.sq[m.to as int] == EMPTY
        &&& ep_victim(p.side, m.to) != m.from
        &&& p.sq[ep_victim(p.side, m.to)] != EMPTY
    })
    &&& (m.double_push ==> {
        &&& p.sq[new_ep(p, m) as int] == EMPTY
        &&& new_ep(p, m) != m.to
        &&& !is_castle(m)
    })
    &&& (is_castle(m) ==> {
        let rf = castle_rook_from(p.side, m.castle_k);
        let rt = castle_rook_to(p.side, m.castle_k);
        &&& p.sq[rf] == rook_of(p.side)
        &&& p.sq[rt] == EMPTY
        &&& rf != m.from
        &&& rf != m.to
        &&& rt != m.from
        &&& rt != m.to
        &&& !m.en_passant
        &&& type_spec(p.sq[m.from as int]) == 5
    })
}

/// The position `unmake` restores from `q`, the position after the move.
pub open spec fn unapply(q: Pos, m: Move, u: Undo) -> Pos {
    let us = opp_spec(q.side);
    let moving = if m.promo != 0 {
        piece_spec(us, 0)
    } else {
        q.sq[m.to as int]
    };
    let s1 = q.sq.update(m.to as int, EMPTY).update(m.from as int, moving);
    let s2 = if is_castle(m) {
        s1.update(castle_rook_from(us, m.castle_k), rook_of(us)).update(
            castle_rook_to(us, m.castle_k),
            EMPTY,
        )
    } else {
        s1
    };
    let s3 = if m.en_passant {
        s2.update(ep_victim(us, m.to), u.captured)
    } else if u.captured != EMPTY {
        s2.update(m.to as int, u.captured)
    } else {
        s2
    };
    Pos {
        sq: s3,
        side: us,
        castling: u.castling,
        ep: u.ep,
        half: u.half,
        full: u.full,
        king: if type_spec(moving) == 5 {
            q.king.update(us as int, m.from)
        } else {
            q.king
        },
    }
}

/// Castling rights after a move: a king move drops both rights of its side;
/// a move from, or a capture on, a corner drops the right of that corner.
fn castling_after(c0: u8, mtype: u8, us: u8, from: u8, cap_sq: u8) -> (cr: u8)
    ensures
        ({
            let c1 = if mtype == 5 {
                if us == WHITE {
                    c0 & 252u8
                } else {
                    c0 & 243u8
                }
            } else {
                c0
            };
            let c2 = if from == 0 || cap_sq == 0 { c1 & 253u8 } else { c1 };
            let c3 = if from == 7 || cap_sq == 7 { c2 & 254u8 } else { c2 };
            let c4 = if from == 56 || cap_sq == 56 { c3 & 247u8 } else { c3 };
            cr == if from == 63 || cap_sq == 63 { c4 & 251u8 } else { c4 }
        }),
{
    let mut cr = c0;
    if mtype == 5 {
        cr = cr & if us == WHITE {
            252u8
        } else {
            243u8
        };
    }
    if from == 0 || cap_sq == 0 {
        cr = cr & 253u8;
    }
    if from == 7 || cap_sq == 7 {
        cr = cr & 254u8;
    }
    if from == 56 || cap_sq == 56 {
        cr = cr & 247u8;
    }
    if from == 63 || cap_sq == 63 {
        cr = cr & 251u8;
    }
    cr
}

impl Board {
    /// Plays `m` and returns what `unmake` needs to take it back.
    #[verifier::rlimit(50)]
    pub fn make(&mut self, m: &Move) -> (u: Undo)
        requires
            make_ok(old(self)@, *m),
        ensures
            final(self)@ == apply_move(old(self)@, *m),
            final(self).hash == make_hash(old(self)@, *m, old(self).hash),
            u == undo_of(*old(self), *m),
    {
        let ghost p = self@;
        let u = Undo {
            captured: EMPTY,
            castling: self.castling,
            ep: self.ep,
            half: self.half,
            full: self.full,
            hash: self.hash,
        };
        let us = self.side;
        let them = opp(us);
        if self.ep != NO_SQ {
            self.hash = self.hash ^ ep_key_exec(self.ep & 7);
        }
        self.hash = self.hash ^ castle_key_exec(self.castling);
        let mut moving = self.sq[m.from as usize];
        let captured: u8;
        let mut cap_sq: u8 = NO_SQ;
        if m.en_passant {
            cap_sq = if us == WHITE {
                m.to - 8
            } else {
                m.to + 8
            };
            captured = self.sq[cap_sq as usize];
            self.hash = self.hash ^ piece_key_exec(captured, cap_sq);
            self.sq[cap_sq as usize] = EMPTY;
        } else {
            captured = self.sq[m.to as usize];
            if captured != EMPTY {
                cap_sq = m.to;
                self.hash = self.hash ^ piece_key_exec(captured, m.to);
            }
        }
        // move the piece
        self.hash = self.hash ^ piece_key_exec(moving, m.from);
        self.sq[m.from as usize] = EMPTY;
        if m.promo != 0 {
            moving = make_piece(us, m.promo);
        }
        self.hash = self.hash ^ piece_key_exec(moving, m.to);
        self.sq[m.to as usize] = moving;
        // castling rook
        if m.castle_k {
            if us == WHITE {
                self.hash = self.hash ^ piece_key_exec(WR, 7);
                self.hash = self.hash ^ piece_key_exec(WR, 5);
                self.sq[7] = EMPTY;
                self.sq[5] = WR;
            } else {
                self.hash = self.hash ^ piece_key_exec(BR, 63);
                self.hash = self.hash ^ piece_key_exec(BR, 61);
                self.sq[63] = EMPTY;
                self.sq[61] = BR;
            }
        } else if m.castle_q {
            if us == WHITE {
                self.hash = self.hash ^ piece_key_exec(WR, 0);
                self.hash = self.hash ^ piece_key_exec(WR, 3);
                self.sq[0] = EMPTY;
                self.sq[3] = WR;
            } else {
                self.hash = self.hash ^ piece_key_exec(BR, 56);
                self.hash = self.hash ^ piece_key_exec(BR, 59);
                self.sq[56] = EMPTY;
                self.sq[59] = BR;
            }
        }
        let mtype = type_of(moving);
        // king square
        if mtype == 5 {
            self.king[us as usize] = m.to;
        }
        // castling rights
        let cr = castling_after(self.castling, mtype, us, m.from, cap_sq);
        self.castling = cr;
        self.hash = self.hash ^ castle_key_exec(self.castling);
        // en-passant square
        self.ep = NO_SQ;
        if m.double_push {
            self.ep = if us == WHITE {
                m.from + 8
            } else {
                m.from - 8
            };
            self.hash = self.hash ^ ep_key_exec(self.ep & 7);
        }
        // clocks
        if mtype == 0 || captured != EMPTY {
            self.half = 0;
        } else {
            self.half = self.half + 1;
        }
        if us == BLACK {
            self.full = self.full + 1;
        }
        self.hash = self.hash ^ side_key_exec();
        self.side = them;
        let mut uu = u;
        uu.captured = captured;
        proof {
            assert(self.sq@ =~= apply_squares(p, *m));
            assert(self@ =~= apply_move(p, *m));
        }
        uu
    }

    /// Takes back `m`, given the undo record `make` returned for it.
    pub fn unmake(&mut self, m: &Move, u: &Undo)
        requires
            sane_pos(old(self)@),
            m.from < 64,
            m.to < 64,
            m.promo != 0 || old(self).sq@[m.to as int] != EMPTY,
            m.en_passant ==> 0 <= ep_victim(opp_spec(old(self).side), m.to) < 64,
        ensures
            final(self)@ == unapply(old(self)@, *m, *u),
            final(self).hash == u.hash,
    {
        let ghost q = self@;
        let us = opp(self.side);
        let mut moving = self.sq[m.to as usize];
        self.sq[m.to as usize] = EMPTY;
        if m.promo != 0 {
            moving = make_piece(us, 0);
        }
        self.sq[m.from as usize] = moving;
        if type_of(moving) == 5 {
            self.king[us as usize] = m.from;
        }
        if m.castle_k {
            if us == WHITE {
                self.sq[7] = WR;
                self.sq[5] = EMPTY;
            } else {
                self.sq[63] = BR;
                self.sq[61] = EMPTY;
            }
        } else if m.castle_q {
            if us == WHITE {
                self.sq[0] = WR;
                self.sq[3] = EMPTY;
            } else {
                self.sq[56] = BR;
                self.sq[59] = EMPTY;
            }
        }
        if m.en_passant {
            let cap_sq = if us == WHITE {
                m.to - 8
            } else {
                m.to + 8
            };
            self.sq[cap_sq as usize] = u.captured;
        } else if u.captured != EMPTY {
            self.sq[m.to as usize] = u.captured;
        }
        self.side = us;
        self.castling = u.castling;
        self.ep = u.ep;
        self.half = u.half;
        self.full = u.full;
        self.hash = u.hash;
        proof {
            assert(self@ =~= unapply(q, *m, *u));
        }
    }
}


// ---------------------------------------------------------------------------
// Laws of make / unmake
// ---------------------------------------------------------------------------
/// Taking a move back restores the position it was played in.
pub proof fn lemma_unmake_undoes_make(b: Board, m: Move)
    requires
        fits(b@, m),
    ensures
        unapply(apply_move(b@, m), m, undo_of(b, m)) == b@,
{
    let p = b@;
    let q = apply_move(p, m);
    let r = unapply(q, m, undo_of(b, m));
    assert(q.side == opp_spec(p.side));
    assert(opp_spec(q.side) == p.side);
    let moving = p.sq[m.from as int];
    assert(moving >= 1 && moving <= 12);
    assert(q.sq[m.to as int] == moved_piece(p, m));
    if m.promo != 0 {
        assert(piece_spec(p.side, 0) == moving);
        assert(type_spec(moving) == 0);
        assert(type_spec(moved_piece(p, m)) != 5);
    }
    assert(r.sq =~= p.sq);
    assert(r.king =~= p.king);
    assert(r =~= p);
}

pub proof fn lemma_psq_nonempty(p: u8, s: int)
    requires
        p != EMPTY,
    ensures
        psq(p, s) == piece_key(p, s),
{
}

pub open spec fn cap_delta(p: Pos, m: Move) -> u64 {
    let cp = captured_piece(p, m);
    if m.en_passant {
        piece_key(cp, ep_victim(p.side, m.to))
    } else if cp != EMPTY {
        piece_key(cp, m.to as int)
    } else {
        0
    }
}

pub open spec fn move_delta(p: Pos, m: Move) -> u64 {
    piece_key(p.sq[m.from as int], m.from as int) ^ piece_key(moved_piece(p, m), m.to as int)
}

pub open spec fn rook_delta(p: Pos, m: Move) -> u64 {
    if is_castle(m) {
        piece_key(rook_of(p.side), castle_rook_from(p.side, m.castle_k)) ^ piece_key(
            rook_of(p.side),
            castle_rook_to(p.side, m.castle_k),
        )
    } else {
        0
    }
}

proof fn lemma_squares_capture_and_move(p: Pos, m: Move)
    requires
        fits(p, m),
    ensures
        ({
            let s1 = if m.en_passant {
                p.sq.update(ep_victim(p.side, m.to), EMPTY)
            } else {
                p.sq
            };
            let s3 = s1.update(m.from as int, EMPTY).update(m.to as int, moved_piece(p, m));
            sq_hash(s3, 64) == (sq_hash(p.sq, 64) ^ cap_delta(p, m)) ^ move_delta(p, m)
        }),
{
    let s0 = p.sq;
    let cp = captured_piece(p, m);
    let moved = moved_piece(p, m);
    let s1 = if m.en_passant {
        s0.update(ep_victim(p.side, m.to), EMPTY)
    } else {
        s0
    };
    let h0 = sq_hash(s0, 64);
    let x1 = if m.en_passant {
        piece_key(cp, ep_victim(p.side, m.to))
    } else {
        0u64
    };
    if m.en_passant {
        lemma_sq_hash_update(s0, ep_victim(p.side, m.to), EMPTY, 64);
        assert(h0 ^ x1 ^ 0u64 == h0 ^ x1) by (bit_vector);
    } else {
        assert(h0 ^ 0u64 == h0) by (bit_vector);
    }
    let h1 = sq_hash(s1, 64);
    assert(h1 == h0 ^ x1);
    let s2 = s1.update(m.from as int, EMPTY);
    lemma_sq_hash_update(s1, m.from as int, EMPTY, 64);
    let kf = piece_key(p.sq[m.from as int], m.from as int);
    assert(s1[m.from as int] == p.sq[m.from as int]);
    let h2 = sq_hash(s2, 64);
    assert(h2 == h1 ^ kf ^ 0u64);
    let s3 = s2.update(m.to as int, moved);
    lemma_sq_hash_update(s2, m.to as int, moved, 64);
    let x3 = if !m.en_passant && cp != EMPTY {
        piece_key(cp, m.to as int)
    } else {
        0u64
    };
    assert(s2[m.to as int] == if m.en_passant { EMPTY } else { cp });
    assert(psq(s2[m.to as int], m.to as int) == x3);
    let kt = piece_key(moved, m.to as int);
    assert(psq(moved, m.to as int) == kt);
    let h3 = sq_hash(s3, 64);
    assert(h3 == h2 ^ x3 ^ kt);
    if m.en_passant {
        assert(cap_delta(p, m) == x1);
        assert(((((h0 ^ x1) ^ kf) ^ 0u64) ^ 0u64) ^ kt == (h0 ^ x1) ^ (kf ^ kt)) by (bit_vector);
    } else {
        assert(cap_delta(p, m) == x3);
        assert(((((h0 ^ 0u64) ^ kf) ^ 0u64) ^ x3) ^ kt == (h0 ^ x3) ^ (kf ^ kt)) by (bit_vector);
    }
}

proof fn lemma_squares_rook(p: Pos, m: Move, s3: Seq<u8>)
    requires
        fits(p, m),
        s3.len() == 64,
        is_castle(m) ==> s3[castle_rook_from(p.side, m.castle_k)] == rook_of(p.side),
        is_castle(m) ==> s3[castle_rook_to(p.side, m.castle_k)] == EMPTY,
    ensures
        ({
            let s4 = if is_castle(m) {
                s3.update(castle_rook_from(p.side, m.castle_k), EMPTY).update(
                    castle_rook_to(p.side, m.castle_k),
                    rook_of(p.side),
                )
            } else {
                s3
            };
            sq_hash(s4, 64) == sq_hash(s3, 64) ^ rook_delta(p, m)
        }),
{
    let h3 = sq_hash(s3, 64);
    if is_castle(m) {
        let rf = castle_rook_from(p.side, m.castle_k);
        let rt = castle_rook_to(p.side, m.castle_k);
        let sa = s3.update(rf, EMPTY);
        lemma_sq_hash_update(s3, rf, EMPTY, 64);
        lemma_sq_hash_update(sa, rt, rook_of(p.side), 64);
        let ka = piece_key(rook_of(p.side), rf);
        let kb = piece_key(rook_of(p.side), rt);
        assert(sq_hash(sa, 64) == h3 ^ ka ^ 0u64);
        assert(((h3 ^ ka) ^ 0u64) ^ 0u64 ^ kb == h3 ^ (ka ^ kb)) by (bit_vector);
    } else {
        assert(h3 ^ 0u64 == h3) by (bit_vector);
    }
}

/// The square part of the hash after a move.
proof fn lemma_squares_hash(p: Pos, m: Move)
    requires
        fits(p, m),
    ensures
        sq_hash(apply_squares(p, m), 64) == ((sq_hash(p.sq, 64) ^ cap_delta(p, m)) ^ move_delta(
            p,
            m,
        )) ^ rook_delta(p, m),
{
    let s1 = if m.en_passant {
        p.sq.update(ep_victim(p.side, m.to), EMPTY)
    } else {
        p.sq
    };
    let s3 = s1.update(m.from as int, EMPTY).update(m.to as int, moved_piece(p, m));
    lemma_squares_capture_and_move(p, m);
    lemma_squares_rook(p, m, s3);
}

proof fn lemma_make_hash_unfold(p: Pos, m: Move, h0: u64)
    ensures
        make_hash(p, m, h0) == ((((((((h0 ^ (if p.ep != NO_SQ {
            ep_key(p.ep & 7)
        } else {
            0u64
        })) ^ castle_key(p.castling)) ^ cap_delta(p, m)) ^ move_delta(p, m)) ^ rook_delta(p, m))
            ^ castle_key(new_castling(p, m))) ^ (if m.double_push {
            ep_key(new_ep(p, m) & 7)
        } else {
            0u64
        })) ^ side_key()),
{
    let e0 = if p.ep != NO_SQ {
        ep_key(p.ep & 7)
    } else {
        0u64
    };
    let e1 = if m.double_push {
        ep_key(new_ep(p, m) & 7)
    } else {
        0u64
    };
    let ck0 = castle_key(p.castling);
    let ck1 = castle_key(new_castling(p, m));
    let cd = cap_delta(p, m);
    let a = piece_key(p.sq[m.from as int], m.from as int);
    let b = piece_key(moved_piece(p, m), m.to as int);
    let rd = rook_delta(p, m);
    let sk = side_key();
    assert(forall|x: u64| #[trigger] (x ^ 0u64) == x) by {
        assert(forall|x: u64| #[trigger] (x ^ 0u64) == x) by (bit_vector);
    }
    assert(forall|x: u64, y: u64, z: u64| #[trigger] ((x ^ y) ^ z) == x ^ (y ^ z)) by {
        assert(forall|x: u64, y: u64, z: u64| #[trigger] ((x ^ y) ^ z) == x ^ (y ^ z))
            by (bit_vector);
    }
    if is_castle(m) {
    }
}

/// The hash `make` computes incrementally is the hash of the new position.
pub proof fn lemma_make_hash(b: Board, m: Move)
    requires
        fits(b@, m),
        b.hash == hash_of(b@),
    ensures
        make_hash(b@, m, b.hash) == hash_of(apply_move(b@, m)),
{
    let p = b@;
    let q = apply_move(p, m);
    lemma_squares_hash(p, m);
    lemma_make_hash_unfold(p, m, b.hash);
    let hs0 = sq_hash(p.sq, 64);
    let sk0 = if p.side == BLACK {
        side_key()
    } else {
        0u64
    };
    let sk1 = if q.side == BLACK {
        side_key()
    } else {
        0u64
    };
    let sk = side_key();
    assert(sk1 == sk0 ^ sk) by {
        assert(0u64 ^ sk == sk) by (bit_vector);
        assert(sk ^ sk == 0u64) by (bit_vector);
    }
    let e0 = if p.ep != NO_SQ {
        ep_key(p.ep & 7)
    } else {
        0u64
    };
    let e1 = if m.double_push {
        ep_key(new_ep(p, m) & 7)
    } else {
        0u64
    };
    assert(q.ep != NO_SQ <==> m.double_push);
    let ck0 = castle_key(p.castling);
    let ck1 = castle_key(q.castling);
    let cd = cap_delta(p, m);
    let md = move_delta(p, m);
    let rd = rook_delta(p, m);
    assert(((((((((((hs0 ^ sk0) ^ ck0) ^ e0) ^ e0) ^ ck0) ^ cd) ^ md) ^ rd) ^ ck1) ^ e1) ^ sk
        == (((((((hs0 ^ cd) ^ md) ^ rd) ^ (sk0 ^ sk)) ^ ck1) ^ e1))) by (bit_vector);
}


proof fn lemma_mask_bits(c: u8, m: u8, bit: u8)
    requires
        bit == 1 || bit == 2 || bit == 4 || bit == 8,
    ensures
        (c & m) & bit != 0 <==> (c & bit != 0 && m & bit != 0),
        c < 16 ==> c & m < 16,
{
    assert((c & m) & bit != 0 <==> (c & bit != 0 && m & bit != 0)) by (bit_vector)
        requires
            bit == 1 || bit == 2 || bit == 4 || bit == 8,
    ;
    assert(c < 16 ==> c & m < 16) by (bit_vector);
}

/// A castling right survives a move only if it was there and the move
/// neither starts from nor captures on its corner, nor moves the king.
proof fn lemma_new_castling(p: Pos, m: Move, bit: u8, corner: int, color: u8)
    requires
        p.castling < 16,
        (bit == CR_WK && corner == 7 && color == WHITE) || (bit == CR_WQ && corner == 0 && color
            == WHITE) || (bit == CR_BK && corner == 63 && color == BLACK) || (bit == CR_BQ && corner
            == 56 && color == BLACK),
    ensures
        new_castling(p, m) < 16,
        has_right(new_castling(p, m), bit) ==> {
            &&& has_right(p.castling, bit)
            &&& m.from != corner
            &&& cap_square(p, m) != corner
            &&& !(type_spec(moved_piece(p, m)) == 5 && p.side == color)
        },
{
    let moved = moved_piece(p, m);
    let cap = cap_square(p, m);
    let c0 = p.castling;
    let c1 = if type_spec(moved) == 5 {
        if p.side == WHITE {
            c0 & 252u8
        } else {
            c0 & 243u8
        }
    } else {
        c0
    };
    let c2 = if m.from == 0 || cap == 0 { c1 & 253u8 } else { c1 };
    let c3 = if m.from == 7 || cap == 7 { c2 & 254u8 } else { c2 };
    let c4 = if m.from == 56 || cap == 56 { c3 & 247u8 } else { c3 };
    let c5 = if m.from == 63 || cap == 63 { c4 & 251u8 } else { c4 };
    lemma_mask_bits(c0, 252u8, bit);
    lemma_mask_bits(c0, 243u8, bit);
    lemma_mask_bits(c1, 253u8, bit);
    lemma_mask_bits(c2, 254u8, bit);
    lemma_mask_bits(c3, 247u8, bit);
    lemma_mask_bits(c4, 251u8, bit);
    assert(252u8 & 1u8 == 0u8 && 252u8 & 2u8 == 0u8 && 252u8 & 4u8 != 0u8 && 252u8 & 8u8 != 0u8)
        by (bit_vector);
    assert(243u8 & 1u8 != 0u8 && 243u8 & 2u8 != 0u8 && 243u8 & 4u8 == 0u8 && 243u8 & 8u8 == 0u8)
        by (bit_vector);
    assert(253u8 & 1u8 != 0u8 && 253u8 & 2u8 == 0u8 && 253u8 & 4u8 != 0u8 && 253u8 & 8u8 != 0u8)
        by (bit_vector);
    assert(254u8 & 1u8 == 0u8 && 254u8 & 2u8 != 0u8 && 254u8 & 4u8 != 0u8 && 254u8 & 8u8 != 0u8)
        by (bit_vector);
    assert(247u8 & 1u8 != 0u8 && 247u8 & 2u8 != 0u8 && 247u8 & 4u8 != 0u8 && 247u8 & 8u8 == 0u8)
        by (bit_vector);
    assert(251u8 & 1u8 != 0u8 && 251u8 & 2u8 != 0u8 && 251u8 & 4u8 == 0u8 && 251u8 & 8u8 != 0u8)
        by (bit_vector);
}

/// Playing a fitting move keeps a valid position valid.
pub proof fn lemma_apply_valid(p: Pos, m: Move)
    requires
        valid_pos(p),
        fits(p, m),
    ensures
        valid_pos(apply_move(p, m)),
{
    let q = apply_move(p, m);
    let moved = moved_piece(p, m);
    let moving = p.sq[m.from as int];
    assert(1 <= moving <= 12);
    assert(color_spec(moving) == p.side);
    assert(moved <= 12);
    assert(moved >= 1);
    if m.promo != 0 {
        assert(type_spec(moved) == m.promo);
    }
    assert(type_spec(moved) == 5 ==> type_spec(moving) == 5);
    assert(moved == WK ==> p.side == WHITE);
    assert(moved == BK ==> p.side == BLACK);
    lemma_new_castling(p, m, CR_WK, 7, WHITE);
    lemma_new_castling(p, m, CR_WQ, 0, WHITE);
    lemma_new_castling(p, m, CR_BK, 63, BLACK);
    lemma_new_castling(p, m, CR_BQ, 56, BLACK);
    assert forall|s: int| 0 <= s < 64 implies #[trigger] q.sq[s] <= 12 by {
        assert(p.sq[s] <= 12);
    }
    assert forall|s: int| 0 <= s < 64 && #[trigger] q.sq[s] == WK implies q.king[0] == s by {
        if s != m.to as int {
            assert(p.sq[s] == WK);
            assert(p.king[0] == s);
        }
    }
    assert forall|s: int| 0 <= s < 64 && #[trigger] q.sq[s] == BK implies q.king[1] == s by {
        if s != m.to as int {
            assert(p.sq[s] == BK);
            assert(p.king[1] == s);
        }
    }
    if q.ep < 64 {
        assert(m.double_push);
        assert(q.sq[q.ep as int] == EMPTY);
    }
    if has_right(q.castling, CR_WK) {
        assert(p.sq[7] == WR);
        assert(q.sq[7] == WR);
    }
    if has_right(q.castling, CR_WQ) {
        assert(q.sq[0] == WR);
    }
    if has_right(q.castling, CR_BK) {
        assert(q.sq[63] == BR);
    }
    if has_right(q.castling, CR_BQ) {
        assert(q.sq[56] == BR);
    }
}


impl Board {
    /// The Zobrist hash of the position, computed from scratch.
    pub fn full_hash(&self) -> (h: u64)
        requires
            forall|s: int| 0 <= s < 64 ==> #[trigger] self.sq@[s] <= 12,
            self.castling < 16,
        ensures
            h == hash_of(self@),
    {
        let mut h: u64 = 0;
        let mut s: usize = 0;
        while s < 64
            invariant
                s <= 64,
                h == sq_hash(self.sq@, s as nat),
            decreases 64 - s,
        {
            let p = self.sq[s];
            if p != EMPTY {
                h = h ^ piece_key_exec(p, s as u8);
            } else {
                assert(h ^ 0u64 == h) by (bit_vector);
            }
            s += 1;
        }
        if self.side == BLACK {
            h = h ^ side_key_exec();
        } else {
            assert(h ^ 0u64 == h) by (bit_vector);
        }
        h = h ^ castle_key_exec(self.castling);
        if self.ep != NO_SQ {
            h = h ^ ep_key_exec(self.ep & 7);
        } else {
            assert(h ^ 0u64 == h) by (bit_vector);
        }
        h
    }
}

} // verus!
