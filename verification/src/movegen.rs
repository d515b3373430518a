//! Pseudo-legal move generation (all moves, and captures plus promotions),
//! legal move generation by make / test / unmake, and perft.
use vstd::prelude::*;
use crate::chess::{
    Board, Move, Pos, EMPTY, WHITE, BLACK, NO_SQ, WP, BP, WK, CR_WK, CR_WQ, CR_BK, CR_BQ,
    color_of, type_of, file_of, rank_of, sq_at, opp, color_spec, type_spec, on_board, idx,
    quiet_spec, capture_spec, opp_spec, has_right, attacked, valid_pos, sane_pos, fits, make_ok,
    apply_move, unapply, undo_of, lemma_unmake_undoes_make, lemma_apply_valid, pawn_of,
    castle_rook_from, castle_rook_to, is_castle, new_ep, ep_victim,
};

verus! {

// ---------------------------------------------------------------------------
// Offsets
// ---------------------------------------------------------------------------
pub open spec fn knight_off(i: int) -> (int, int) {
    if i == 0 {
        (1, 2)
    } else if i == 1 {
        (2, 1)
    } else if i == 2 {
        (2, -1)
    } else if i == 3 {
        (1, -2)
    } else if i == 4 {
        (-1, -2)
    } else if i == 5 {
        (-2, -1)
    } else if i == 6 {
        (-2, 1)
    } else {
        (-1, 2)
    }
}

pub open spec fn king_off(i: int) -> (int, int) {
    if i == 0 {
        (1, 0)
    } else if i == 1 {
        (1, 1)
    } else if i == 2 {
        (0, 1)
    } else if i == 3 {
        (-1, 1)
    } else if i == 4 {
        (-1, 0)
    } else if i == 5 {
        (-1, -1)
    } else if i == 6 {
        (0, -1)
    } else {
        (1, -1)
    }
}

/// Step offsets of a knight (`knight`) or a king.
pub open spec fn step_off(knight: bool, i: int) -> (int, int) {
    if knight {
        knight_off(i)
    } else {
        king_off(i)
    }
}

/// Directions of a bishop (kind 2), a rook (kind 3) or a queen (otherwise):
/// the queen takes the rook's four, then the bishop's four.
pub open spec fn diag_dir(i: int) -> (int, int) {
    if i == 0 {
        (1, 1)
    } else if i == 1 {
        (1, -1)
    } else if i == 2 {
        (-1, 1)
    } else {
        (-1, -1)
    }
}

pub open spec fn orth_dir(i: int) -> (int, int) {
    if i == 0 {
        (1, 0)
    } else if i == 1 {
        (-1, 0)
    } else if i == 2 {
        (0, 1)
    } else {
        (0, -1)
    }
}

pub open spec fn slider_dir(kind: int, i: int) -> (int, int) {
    if kind == 2 {
        diag_dir(i)
    } else if kind == 3 {
        orth_dir(i)
    } else if i < 4 {
        orth_dir(i)
    } else {
        diag_dir(i - 4)
    }
}

pub open spec fn n_dirs(kind: int) -> int {
    if kind == 2 || kind == 3 {
        4
    } else {
        8
    }
}

pub(crate) fn step_offset(knight: bool, i: u8) -> (o: (i8, i8))
    requires
        i < 8,
    ensures
        o.0 as int == step_off(knight, i as int).0,
        o.1 as int == step_off(knight, i as int).1,
        -2 <= o.0 <= 2,
        -2 <= o.1 <= 2,
{
    if knight {
        if i == 0 {
            (1, 2)
        } else if i == 1 {
            (2, 1)
        } else if i == 2 {
            (2, -1)
        } else if i == 3 {
            (1, -2)
        } else if i == 4 {
            (-1, -2)
        } else if i == 5 {
            (-2, -1)
        } else if i == 6 {
            (-2, 1)
        } else {
            (-1, 2)
        }
    } else {
        if i == 0 {
            (1, 0)
        } else if i == 1 {
            (1, 1)
        } else if i == 2 {
            (0, 1)
        } else if i == 3 {
            (-1, 1)
        } else if i == 4 {
            (-1, 0)
        } else if i == 5 {
            (-1, -1)
        } else if i == 6 {
            (0, -1)
        } else {
            (1, -1)
        }
    }
}

pub(crate) fn slider_direction(kind: u8, i: u8) -> (o: (i8, i8))
    requires
        i < 8,
        (kind == 2 || kind == 3) ==> i < 4,
    ensures
        o.0 as int == slider_dir(kind as int, i as int).0,
        o.1 as int == slider_dir(kind as int, i as int).1,
        -1 <= o.0 <= 1,
        -1 <= o.1 <= 1,
{
    let j = if kind != 2 && kind != 3 && i >= 4 {
        i - 4
    } else {
        i
    };
    let diag = kind == 2 || (kind != 3 && i >= 4);
    if diag {
        if j == 0 {
            (1, 1)
        } else if j == 1 {
            (1, -1)
        } else if j == 2 {
            (-1, 1)
        } else {
            (-1, -1)
        }
    } else {
        if j == 0 {
            (1, 0)
        } else if j == 1 {
            (-1, 0)
        } else if j == 2 {
            (0, 1)
        } else {
            (0, -1)
        }
    }
}

// ---------------------------------------------------------------------------
// Specification of the generated move lists
// ---------------------------------------------------------------------------
pub open spec fn is_enemy(p: Pos, tp: u8) -> bool {
    tp != EMPTY && color_spec(tp) == (p.side ^ 1u8)
}

/// The move of a stepping piece (knight or king) on `s` by one offset.
pub open spec fn step_move(p: Pos, s: int, df: int, dr: int, caps_only: bool) -> Seq<Move> {
    let f = s % 8;
    let r = s / 8;
    if !on_board(f + df, r + dr) {
        seq![]
    } else {
        let t = idx(f + df, r + dr);
        let tp = p.sq[t];
        if tp == EMPTY {
            if caps_only {
                seq![]
            } else {
                seq![quiet_spec(s as u8, t as u8)]
            }
        } else if color_spec(tp) == (p.side ^ 1u8) {
            seq![capture_spec(s as u8, t as u8)]
        } else {
            seq![]
        }
    }
}

/// The moves over the first `n` offsets of a stepping piece.
pub open spec fn steps_list(p: Pos, s: int, knight: bool, caps_only: bool, n: int) -> Seq<Move>
    decreases n,
{
    if n <= 0 {
        seq![]
    } else {
        steps_list(p, s, knight, caps_only, n - 1) + step_move(
            p,
            s,
            step_off(knight, n - 1).0,
            step_off(knight, n - 1).1,
            caps_only,
        )
    }
}

/// Moves of a slider on `s` along a ray, starting at (f, r).
pub open spec fn ray_list(
    p: Pos,
    s: int,
    f: int,
    r: int,
    df: int,
    dr: int,
    caps_only: bool,
    fuel: nat,
) -> Seq<Move>
    decreases fuel,
{
    if fuel == 0 || !on_board(f, r) {
        seq![]
    } else {
        let t = idx(f, r);
        let tp = p.sq[t];
        if tp == EMPTY {
            let rest = ray_list(p, s, f + df, r + dr, df, dr, caps_only, (fuel - 1) as nat);
            if caps_only {
                rest
            } else {
                seq![quiet_spec(s as u8, t as u8)] + rest
            }
        } else if color_spec(tp) == (p.side ^ 1u8) {
            seq![capture_spec(s as u8, t as u8)]
        } else {
            seq![]
        }
    }
}

/// The moves of a slider of `kind` on `s` over its first `n` directions.
pub open spec fn slider_list(p: Pos, s: int, kind: int, caps_only: bool, n: int) -> Seq<Move>
    decreases n,
{
    if n <= 0 {
        seq![]
    } else {
        let d = slider_dir(kind, n - 1);
        slider_list(p, s, kind, caps_only, n - 1) + ray_list(
            p,
            s,
            s % 8 + d.0,
            s / 8 + d.1,
            d.0,
            d.1,
            caps_only,
            8,
        )
    }
}

pub open spec fn pawn_move(from: int, to: int, promo: u8, cap: bool) -> Move {
    Move {
        from: from as u8,
        to: to as u8,
        promo,
        capture: cap,
        double_push: false,
        en_passant: false,
        castle_k: false,
        castle_q: false,
    }
}

/// A pawn move to `to`: four promotions on the last rank, else one move.
pub open spec fn pawn_moves_to(p: Pos, from: int, to: int, cap: bool) -> Seq<Move> {
    let last: int = if p.side == WHITE {
        7
    } else {
        0
    };
    if to / 8 == last {
        seq![
            pawn_move(from, to, 1, cap),
            pawn_move(from, to, 2, cap),
            pawn_move(from, to, 3, cap),
            pawn_move(from, to, 4, cap),
        ]
    } else {
        seq![pawn_move(from, to, 0, cap)]
    }
}

pub open spec fn ep_move(from: int, to: int) -> Move {
    Move { en_passant: true, ..pawn_move(from, to, 0, true) }
}

pub open spec fn pawn_up(p: Pos) -> int {
    if p.side == WHITE {
        1
    } else {
        -1
    }
}

/// Captures of a pawn on `s` towards file offset `df` (including en passant).
pub open spec fn pawn_caps(p: Pos, s: int, df: int) -> Seq<Move> {
    let f = s % 8;
    let r1 = s / 8 + pawn_up(p);
    if !(0 <= f + df < 8) {
        seq![]
    } else {
        let t = idx(f + df, r1);
        let tp = p.sq[t];
        let normal = if tp != EMPTY && color_spec(tp) == (p.side ^ 1u8) {
            pawn_moves_to(p, s, t, true)
        } else {
            seq![]
        };
        let ep = if t == p.ep as int {
            let cap = if p.side == WHITE {
                t - 8
            } else {
                t + 8
            };
            let ep_pawn = if p.side == WHITE {
                BP
            } else {
                WP
            };
            if p.sq[cap] == ep_pawn {
                seq![ep_move(s, t)]
            } else {
                seq![]
            }
        } else {
            seq![]
        };
        normal + ep
    }
}

/// All pseudo-legal moves of a pawn on `s`.
pub open spec fn pawn_list(p: Pos, s: int) -> Seq<Move> {
    let f = s % 8;
    let r = s / 8;
    let up = pawn_up(p);
    let r1 = r + up;
    if !(0 <= r1 < 8) {
        seq![]
    } else {
        let t = idx(f, r1);
        let pushes = if p.sq[t] == EMPTY {
            let start: int = if p.side == WHITE {
                1
            } else {
                6
            };
            let double = if r == start {
                let t2 = idx(f, r + 2 * up);
                if p.sq[t2] == EMPTY {
                    seq![Move { double_push: true, ..pawn_move(s, t2, 0, false) }]
                } else {
                    seq![]
                }
            } else {
                seq![]
            };
            pawn_moves_to(p, s, t, false) + double
        } else {
            seq![]
        };
        pushes + pawn_caps(p, s, -1) + pawn_caps(p, s, 1)
    }
}

/// Captures and promotions of a pawn on `s` (for quiescence).
pub open spec fn pawn_tactical_list(p: Pos, s: int) -> Seq<Move> {
    let f = s % 8;
    let r1 = s / 8 + pawn_up(p);
    if !(0 <= r1 < 8) {
        seq![]
    } else {
        let t = idx(f, r1);
        let last: int = if p.side == WHITE {
            7
        } else {
            0
        };
        let promos = if p.sq[t] == EMPTY && r1 == last {
            pawn_moves_to(p, s, t, false)
        } else {
            seq![]
        };
        pawn_caps(p, s, -1) + pawn_caps(p, s, 1) + promos
    }
}

pub open spec fn castle_move(from: int, to: int, kingside: bool) -> Move {
    Move {
        from: from as u8,
        to: to as u8,
        promo: 0,
        capture: false,
        double_push: false,
        en_passant: false,
        castle_k: kingside,
        castle_q: !kingside,
    }
}

/// Castling moves of the king on `s`: the right is held, the squares
/// between king and rook are empty, and neither the king's square nor the
/// squares it crosses or lands on are attacked.
pub open spec fn castle_list(p: Pos, s: int) -> Seq<Move> {
    let them = p.side ^ 1u8;
    let sq = p.sq;
    let wk = if p.side == WHITE && s == 4 && has_right(p.castling, CR_WK) && sq[5] == EMPTY && sq[6]
        == EMPTY && !attacked(sq, 4, them) && !attacked(sq, 5, them) && !attacked(sq, 6, them) {
        seq![castle_move(4, 6, true)]
    } else {
        seq![]
    };
    let wq = if p.side == WHITE && s == 4 && has_right(p.castling, CR_WQ) && sq[3] == EMPTY && sq[2]
        == EMPTY && sq[1] == EMPTY && !attacked(sq, 4, them) && !attacked(sq, 3, them) && !attacked(
        sq,
        2,
        them,
    ) {
        seq![castle_move(4, 2, false)]
    } else {
        seq![]
    };
    let bk = if p.side == BLACK && s == 60 && has_right(p.castling, CR_BK) && sq[61] == EMPTY
        && sq[62] == EMPTY && !attacked(sq, 60, them) && !attacked(sq, 61, them) && !attacked(
        sq,
        62,
        them,
    ) {
        seq![castle_move(60, 62, true)]
    } else {
        seq![]
    };
    let bq = if p.side == BLACK && s == 60 && has_right(p.castling, CR_BQ) && sq[59] == EMPTY
        && sq[58] == EMPTY && sq[57] == EMPTY && !attacked(sq, 60, them) && !attacked(sq, 59, them)
        && !attacked(sq, 58, them) {
        seq![castle_move(60, 58, false)]
    } else {
        seq![]
    };
    wk + wq + bk + bq
}

/// The pseudo-legal moves of the piece on `s` (none unless it belongs to the
/// side to move).
pub open spec fn moves_from(p: Pos, s: int) -> Seq<Move> {
    let pc = p.sq[s];
    if pc == EMPTY || color_spec(pc) != p.side {
        seq![]
    } else {
        let t = type_spec(pc);
        if t == 0 {
            pawn_list(p, s)
        } else if t == 1 {
            steps_list(p, s, true, false, 8)
        } else if t == 5 {
            steps_list(p, s, false, false, 8) + castle_list(p, s)
        } else {
            slider_list(p, s, t as int, false, n_dirs(t as int))
        }
    }
}

/// The captures and promotions of the piece on `s`.
pub open spec fn tactical_from(p: Pos, s: int) -> Seq<Move> {
    let pc = p.sq[s];
    if pc == EMPTY || color_spec(pc) != p.side {
        seq![]
    } else {
        let t = type_spec(pc);
        if t == 0 {
            pawn_tactical_list(p, s)
        } else if t == 1 || t == 5 {
            steps_list(p, s, t == 1, true, 8)
        } else {
            slider_list(p, s, t as int, true, n_dirs(t as int))
        }
    }
}

/// Pseudo-legal moves of squares `0..n`, square by square.
pub open spec fn pseudo_prefix(p: Pos, n: int) -> Seq<Move>
    decreases n,
{
    if n <= 0 {
        seq![]
    } else {
        pseudo_prefix(p, n - 1) + moves_from(p, n - 1)
    }
}

pub open spec fn tactical_prefix(p: Pos, n: int) -> Seq<Move>
    decreases n,
{
    if n <= 0 {
        seq![]
    } else {
        tactical_prefix(p, n - 1) + tactical_from(p, n - 1)
    }
}

/// All pseudo-legal moves of a position, in generation order.
pub open spec fn pseudo_moves(p: Pos) -> Seq<Move> {
    pseudo_prefix(p, 64)
}

/// All pseudo-legal captures and promotions of a position.
pub open spec fn tactical_moves(p: Pos) -> Seq<Move> {
    tactical_prefix(p, 64)
}


// ---------------------------------------------------------------------------
// Generation
// ---------------------------------------------------------------------------
impl Board {
    fn push_pawn_moves(&self, out: &mut Vec<Move>, from: u8, to: u8, capture: bool)
        requires
            from < 64,
            to < 64,
        ensures
            final(out)@ == old(out)@ + pawn_moves_to(self@, from as int, to as int, capture),
    {
        let r = rank_of(to);
        let last: i8 = if self.side == WHITE {
            7
        } else {
            0
        };
        let ghost o = out@;
        if r == last {
            let mut pr: u8 = 1;
            while pr <= 4
                invariant
                    1 <= pr <= 5,
                    from < 64,
                    to < 64,
                    out@ == o + pawn_moves_to(self@, from as int, to as int, capture).subrange(
                        0,
                        pr - 1,
                    ),
                    pawn_moves_to(self@, from as int, to as int, capture).len() == 4,
                decreases 5 - pr,
            {
                out.push(
                    Move {
                        from,
                        to,
                        promo: pr,
                        capture,
                        double_push: false,
                        en_passant: false,
                        castle_k: false,
                        castle_q: false,
                    },
                );
                pr += 1;
                assert(out@ =~= o + pawn_moves_to(self@, from as int, to as int, capture).subrange(
                    0,
                    pr - 1,
                ));
            }
            assert(pawn_moves_to(self@, from as int, to as int, capture).subrange(0, 4)
                =~= pawn_moves_to(self@, from as int, to as int, capture));
        } else {
            out.push(
                Move {
                    from,
                    to,
                    promo: 0,
                    capture,
                    double_push: false,
                    en_passant: false,
                    castle_k: false,
                    castle_q: false,
                },
            );
            assert(out@ =~= o + pawn_moves_to(self@, from as int, to as int, capture));
        }
    }

    /// Moves of a knight or king on `s` by single steps.
    fn gen_steps(&self, out: &mut Vec<Move>, s: u8, knight: bool, caps_only: bool)
        requires
            s < 64,
            sane_pos(self@),
        ensures
            final(out)@ == old(out)@ + steps_list(self@, s as int, knight, caps_only, 8),
    {
        let f = file_of(s);
        let r = rank_of(s);
        let them = opp(self.side);
        let ghost o = out@;
        let mut i: u8 = 0;
        while i < 8
            invariant
                i <= 8,
                s < 64,
                f == s % 8,
                r == s / 8,
                them == self.side ^ 1u8,
                sane_pos(self@),
                out@ == o + steps_list(self@, s as int, knight, caps_only, i as int),
            decreases 8 - i,
        {
            let (df, dr) = step_offset(knight, i);
            let ff = f + df;
            let rr = r + dr;
            let ghost pre = out@;
            if 0 <= ff && ff < 8 && 0 <= rr && rr < 8 {
                let t = sq_at(ff, rr);
                let tp = self.sq[t as usize];
                if tp == EMPTY {
                    if !caps_only {
                        out.push(Move::quiet(s, t));
                    }
                } else if color_of(tp) == them {
                    out.push(
                        Move {
                            from: s,
                            to: t,
                            promo: 0,
                            capture: true,
                            double_push: false,
                            en_passant: false,
                            castle_k: false,
                            castle_q: false,
                        },
                    );
                }
            }
            assert(out@ =~= pre + step_move(
                self@,
                s as int,
                step_off(knight, i as int).0,
                step_off(knight, i as int).1,
                caps_only,
            ));
            i += 1;
            assert(out@ =~= o + steps_list(self@, s as int, knight, caps_only, i as int));
        }
    }

    /// Moves of a slider on `s` along one direction.
    fn gen_ray(&self, out: &mut Vec<Move>, s: u8, df: i8, dr: i8, caps_only: bool)
        requires
            s < 64,
            -1 <= df <= 1,
            -1 <= dr <= 1,
            sane_pos(self@),
        ensures
            final(out)@ == old(out)@ + ray_list(
                self@,
                s as int,
                s % 8 + df,
                s / 8 + dr,
                df as int,
                dr as int,
                caps_only,
                8,
            ),
    {
        let them = opp(self.side);
        let mut ff = file_of(s) + df;
        let mut rr = rank_of(s) + dr;
        let ghost o = out@;
        let ghost total = ray_list(
            self@,
            s as int,
            s % 8 + df,
            s / 8 + dr,
            df as int,
            dr as int,
            caps_only,
            8,
        );
        let mut k: u8 = 0;
        while k < 8
            invariant
                k <= 8,
                s < 64,
                -1 <= ff <= 8,
                -1 <= rr <= 8,
                -1 <= df <= 1,
                -1 <= dr <= 1,
                them == self.side ^ 1u8,
                sane_pos(self@),
                o == old(out)@,
                total == ray_list(
                    self@,
                    s as int,
                    s % 8 + df,
                    s / 8 + dr,
                    df as int,
                    dr as int,
                    caps_only,
                    8,
                ),
                o + total == out@ + ray_list(
                    self@,
                    s as int,
                    ff as int,
                    rr as int,
                    df as int,
                    dr as int,
                    caps_only,
                    (8 - k) as nat,
                ),
            decreases 8 - k,
        {
            if !(0 <= ff && ff < 8 && 0 <= rr && rr < 8) {
                assert(out@ + ray_list(
                    self@,
                    s as int,
                    ff as int,
                    rr as int,
                    df as int,
                    dr as int,
                    caps_only,
                    (8 - k) as nat,
                ) =~= out@);
                assert(out@ =~= o + total);
                assert(out@ == o + ray_list(
                    self@,
                    s as int,
                    s % 8 + df,
                    s / 8 + dr,
                    df as int,
                    dr as int,
                    caps_only,
                    8,
                ));
                return;
            }
            let t = sq_at(ff, rr);
            let tp = self.sq[t as usize];
            let ghost pre = out@;
            if tp == EMPTY {
                if !caps_only {
                    out.push(Move::quiet(s, t));
                    assert(seq![quiet_spec(s, t)] + ray_list(
                        self@,
                        s as int,
                        ff + df,
                        rr + dr,
                        df as int,
                        dr as int,
                        caps_only,
                        (8 - k - 1) as nat,
                    ) == ray_list(
                        self@,
                        s as int,
                        ff as int,
                        rr as int,
                        df as int,
                        dr as int,
                        caps_only,
                        (8 - k) as nat,
                    ));
                    assert(pre + ray_list(
                        self@,
                        s as int,
                        ff as int,
                        rr as int,
                        df as int,
                        dr as int,
                        caps_only,
                        (8 - k) as nat,
                    ) =~= out@ + ray_list(
                        self@,
                        s as int,
                        ff + df,
                        rr + dr,
                        df as int,
                        dr as int,
                        caps_only,
                        (8 - k - 1) as nat,
                    ));
                }
            } else {
                if color_of(tp) == them {
                    out.push(
                        Move {
                            from: s,
                            to: t,
                            promo: 0,
                            capture: true,
                            double_push: false,
                            en_passant: false,
                            castle_k: false,
                            castle_q: false,
                        },
                    );
                }
                assert(pre + ray_list(
                    self@,
                    s as int,
                    ff as int,
                    rr as int,
                    df as int,
                    dr as int,
                    caps_only,
                    (8 - k) as nat,
                ) =~= out@);
                assert(out@ =~= o + total);
                assert(out@ == o + ray_list(
                    self@,
                    s as int,
                    s % 8 + df,
                    s / 8 + dr,
                    df as int,
                    dr as int,
                    caps_only,
                    8,
                ));
                return;
            }
            ff = ff + df;
            rr = rr + dr;
            k += 1;
        }
        assert(out@ =~= o + total);
    }

    /// Moves of a slider of `kind` (2 bishop, 3 rook, 4 queen) on `s`.
    fn gen_slider(&self, out: &mut Vec<Move>, s: u8, kind: u8, caps_only: bool)
        requires
            s < 64,
            sane_pos(self@),
        ensures
            final(out)@ == old(out)@ + slider_list(
                self@,
                s as int,
                kind as int,
                caps_only,
                n_dirs(kind as int),
            ),
    {
        let n: u8 = if kind == 2 || kind == 3 {
            4
        } else {
            8
        };
        let ghost o = out@;
        let mut i: u8 = 0;
        while i < n
            invariant
                i <= n,
                n == n_dirs(kind as int),
                s < 64,
                sane_pos(self@),
                out@ == o + slider_list(self@, s as int, kind as int, caps_only, i as int),
            decreases n - i,
        {
            let (df, dr) = slider_direction(kind, i);
            let ghost pre = out@;
            self.gen_ray(out, s, df, dr, caps_only);
            i += 1;
            assert(out@ =~= o + slider_list(self@, s as int, kind as int, caps_only, i as int));
        }
    }

    /// Captures (and en-passant captures) of the pawn on `s` towards `df`.
    fn gen_pawn_caps(&self, out: &mut Vec<Move>, s: u8, df: i8)
        requires
            s < 64,
            df == -1 || df == 1,
            sane_pos(self@),
            0 <= s / 8 + pawn_up(self@) < 8,
        ensures
            final(out)@ == old(out)@ + pawn_caps(self@, s as int, df as int),
    {
        let us = self.side;
        let them = opp(us);
        let up: i8 = if us == WHITE {
            1
        } else {
            -1
        };
        let f = file_of(s);
        let r1 = rank_of(s) + up;
        let ff = f + df;
        let ghost o = out@;
        if !(0 <= ff && ff < 8) {
            assert(out@ =~= o + pawn_caps(self@, s as int, df as int));
            return;
        }
        let t = sq_at(ff, r1);
        let tp = self.sq[t as usize];
        if tp != EMPTY && color_of(tp) == them {
            self.push_pawn_moves(out, s, t, true);
        }
        let ghost mid = out@;
        if t == self.ep {
            let cap = if us == WHITE {
                t - 8
            } else {
                t + 8
            };
            let ep_pawn = if us == WHITE {
                BP
            } else {
                WP
            };
            if self.sq[cap as usize] == ep_pawn {
                out.push(
                    Move {
                        from: s,
                        to: t,
                        promo: 0,
                        capture: true,
                        double_push: false,
                        en_passant: true,
                        castle_k: false,
                        castle_q: false,
                    },
                );
            }
        }
        assert(out@ =~= o + pawn_caps(self@, s as int, df as int));
    }

    /// All pseudo-legal moves of the pawn on `s`.
    fn gen_pawn(&self, out: &mut Vec<Move>, s: u8)
        requires
            s < 64,
            sane_pos(self@),
        ensures
            final(out)@ == old(out)@ + pawn_list(self@, s as int),
    {
        let us = self.side;
        let up: i8 = if us == WHITE {
            1
        } else {
            -1
        };
        let start_rank: i8 = if us == WHITE {
            1
        } else {
            6
        };
        let f = file_of(s);
        let r = rank_of(s);
        let r1 = r + up;
        let ghost o = out@;
        if !(0 <= r1 && r1 < 8) {
            assert(out@ =~= o + pawn_list(self@, s as int));
            return;
        }
        let t = sq_at(f, r1);
        if self.sq[t as usize] == EMPTY {
            self.push_pawn_moves(out, s, t, false);
            if r == start_rank {
                let r2 = r + 2 * up;
                let t2 = sq_at(f, r2);
                if self.sq[t2 as usize] == EMPTY {
                    out.push(
                        Move {
                            from: s,
                            to: t2,
                            promo: 0,
                            capture: false,
                            double_push: true,
                            en_passant: false,
                            castle_k: false,
                            castle_q: false,
                        },
                    );
                }
            }
        }
        let ghost mid = out@;
        self.gen_pawn_caps(out, s, -1);
        self.gen_pawn_caps(out, s, 1);
        assert(out@ =~= o + pawn_list(self@, s as int));
    }

    /// Captures and promotions of the pawn on `s`.
    fn gen_pawn_tactical(&self, out: &mut Vec<Move>, s: u8)
        requires
            s < 64,
            sane_pos(self@),
        ensures
            final(out)@ == old(out)@ + pawn_tactical_list(self@, s as int),
    {
        let us = self.side;
        let up: i8 = if us == WHITE {
            1
        } else {
            -1
        };
        let f = file_of(s);
        let r1 = rank_of(s) + up;
        let ghost o = out@;
        if !(0 <= r1 && r1 < 8) {
            assert(out@ =~= o + pawn_tactical_list(self@, s as int));
            return;
        }
        self.gen_pawn_caps(out, s, -1);
        self.gen_pawn_caps(out, s, 1);
        let ghost mid = out@;
        let t = sq_at(f, r1);
        if self.sq[t as usize] == EMPTY {
            let last: i8 = if us == WHITE {
                7
            } else {
                0
            };
            if r1 == last {
                self.push_pawn_moves(out, s, t, false);
            }
        }
        assert(out@ =~= o + pawn_tactical_list(self@, s as int));
    }

    /// Castling moves of the king on `s`.
    fn gen_castles(&self, out: &mut Vec<Move>, s: u8)
        requires
            s < 64,
            sane_pos(self@),
        ensures
            final(out)@ == old(out)@ + castle_list(self@, s as int),
    {
        let us = self.side;
        let them = opp(us);
        let ghost o = out@;
        if us == WHITE && s == 4 {
            if self.castling & CR_WK != 0 && self.sq[5] == EMPTY && self.sq[6] == EMPTY {
                if !self.is_attacked(4, them) && !self.is_attacked(5, them) && !self.is_attacked(
                    6,
                    them,
                ) {
                    out.push(
                        Move {
                            from: 4,
                            to: 6,
                            promo: 0,
                            capture: false,
                            double_push: false,
                            en_passant: false,
                            castle_k: true,
                            castle_q: false,
                        },
                    );
                }
            }
            if self.castling & CR_WQ != 0 && self.sq[3] == EMPTY && self.sq[2] == EMPTY
                && self.sq[1] == EMPTY {
                if !self.is_attacked(4, them) && !self.is_attacked(3, them) && !self.is_attacked(
                    2,
                    them,
                ) {
                    out.push(
                        Move {
                            from: 4,
                            to: 2,
                            promo: 0,
                            capture: false,
                            double_push: false,
                            en_passant: false,
                            castle_k: false,
                            castle_q: true,
                        },
                    );
                }
            }
        }
        if us == BLACK && s == 60 {
            if self.castling & CR_BK != 0 && self.sq[61] == EMPTY && self.sq[62] == EMPTY {
                if !self.is_attacked(60, them) && !self.is_attacked(61, them) && !self.is_attacked(
                    62,
                    them,
                ) {
                    out.push(
                        Move {
                            from: 60,
                            to: 62,
                            promo: 0,
                            capture: false,
                            double_push: false,
                            en_passant: false,
                            castle_k: true,
                            castle_q: false,
                        },
                    );
                }
            }
            if self.castling & CR_BQ != 0 && self.sq[59] == EMPTY && self.sq[58] == EMPTY
                && self.sq[57] == EMPTY {
                if !self.is_attacked(60, them) && !self.is_attacked(59, them) && !self.is_attacked(
                    58,
                    them,
                ) {
                    out.push(
                        Move {
                            from: 60,
                            to: 58,
                            promo: 0,
                            capture: false,
                            double_push: false,
                            en_passant: false,
                            castle_k: false,
                            castle_q: true,
                        },
                    );
                }
            }
        }
        assert(out@ =~= o + castle_list(self@, s as int));
    }

    /// Pseudo-legal moves: every move of the side to move that obeys piece
    /// movement, without testing whether the own king is left in check
    /// (castling does test the squares the king passes).
    pub fn gen_pseudo(&self, out: &mut Vec<Move>)
        requires
            sane_pos(self@),
        ensures
            final(out)@ == pseudo_moves(self@),
    {
        out.clear();
        let us = self.side;
        let mut s: u8 = 0;
        while s < 64
            invariant
                s <= 64,
                us == self.side,
                sane_pos(self@),
                out@ == pseudo_prefix(self@, s as int),
            decreases 64 - s,
        {
            let p = self.sq[s as usize];
            let ghost pre = out@;
            if p != EMPTY && color_of(p) == us {
                let t = type_of(p);
                if t == 0 {
                    self.gen_pawn(out, s);
                } else if t == 1 {
                    self.gen_steps(out, s, true, false);
                } else if t == 5 {
                    self.gen_steps(out, s, false, false);
                    self.gen_castles(out, s);
                } else {
                    self.gen_slider(out, s, t, false);
                }
            }
            assert(out@ =~= pre + moves_from(self@, s as int));
            s += 1;
        }
    }

    /// Pseudo-legal captures and promotions (quiet promotions included),
    /// used by quiescence search.
    pub fn gen_captures(&self, out: &mut Vec<Move>)
        requires
            sane_pos(self@),
        ensures
            final(out)@ == tactical_moves(self@),
    {
        out.clear();
        let us = self.side;
        let mut s: u8 = 0;
        while s < 64
            invariant
                s <= 64,
                us == self.side,
                sane_pos(self@),
                out@ == tactical_prefix(self@, s as int),
            decreases 64 - s,
        {
            let p = self.sq[s as usize];
            let ghost pre = out@;
            if p != EMPTY && color_of(p) == us {
                let t = type_of(p);
                if t == 0 {
                    self.gen_pawn_tactical(out, s);
                } else if t == 1 || t == 5 {
                    self.gen_steps(out, s, t == 1, true);
                } else {
                    self.gen_slider(out, s, t, true);
                }
            }
            assert(out@ =~= pre + tactical_from(self@, s as int));
            s += 1;
        }
    }
}


// ---------------------------------------------------------------------------
// Every generated move fits its position
// ---------------------------------------------------------------------------
pub open spec fn all_fit(p: Pos, ms: Seq<Move>) -> bool {
    forall|i: int| 0 <= i < ms.len() ==> fits(p, #[trigger] ms[i])
}

/// A position in which moves can be made: valid, with room on the clocks.
pub open spec fn playable(p: Pos) -> bool {
    valid_pos(p) && p.half < 65535 && p.full < 65535
}

proof fn lemma_all_fit_concat(p: Pos, a: Seq<Move>, b: Seq<Move>)
    requires
        all_fit(p, a),
        all_fit(p, b),
    ensures
        all_fit(p, a + b),
{
    assert forall|i: int| 0 <= i < (a + b).len() implies fits(p, #[trigger] (a + b)[i]) by {
        if i < a.len() {
            assert((a + b)[i] == a[i]);
        } else {
            assert((a + b)[i] == b[i - a.len()]);
        }
    }
}

proof fn lemma_plain_move_fits(p: Pos, from: int, to: int)
    requires
        playable(p),
        0 <= from < 64,
        0 <= to < 64,
        from != to,
        p.sq[from] != EMPTY,
        color_spec(p.sq[from]) == p.side,
    ensures
        fits(p, quiet_spec(from as u8, to as u8)),
        fits(p, capture_spec(from as u8, to as u8)),
{
    let pc = p.sq[from];
    assert(pc <= 12);
    if type_spec(pc) == 5 {
        assert(pc == WK || pc == 12u8);
    }
}

proof fn lemma_steps_fit(p: Pos, s: int, knight: bool, caps_only: bool, n: int)
    requires
        playable(p),
        0 <= s < 64,
        p.sq[s] != EMPTY,
        color_spec(p.sq[s]) == p.side,
        n <= 8,
    ensures
        all_fit(p, steps_list(p, s, knight, caps_only, n)),
    decreases n,
{
    if n > 0 {
        lemma_steps_fit(p, s, knight, caps_only, n - 1);
        let d = step_off(knight, n - 1);
        let f = s % 8;
        let r = s / 8;
        if on_board(f + d.0, r + d.1) {
            let t = idx(f + d.0, r + d.1);
            assert(t != s);
            lemma_plain_move_fits(p, s, t);
        }
        lemma_all_fit_concat(
            p,
            steps_list(p, s, knight, caps_only, n - 1),
            step_move(p, s, d.0, d.1, caps_only),
        );
    }
}

proof fn lemma_ray_fit(
    p: Pos,
    s: int,
    f: int,
    r: int,
    df: int,
    dr: int,
    caps_only: bool,
    fuel: nat,
    k: int,
)
    requires
        playable(p),
        0 <= s < 64,
        p.sq[s] != EMPTY,
        color_spec(p.sq[s]) == p.side,
        -1 <= df <= 1,
        -1 <= dr <= 1,
        df != 0 || dr != 0,
        k >= 1,
        f == s % 8 + k * df,
        r == s / 8 + k * dr,
    ensures
        all_fit(p, ray_list(p, s, f, r, df, dr, caps_only, fuel)),
    decreases fuel,
{
    if fuel > 0 && on_board(f, r) {
        let t = idx(f, r);
        assert(t != s) by {
            if df != 0 {
                assert(k * df != 0) by (nonlinear_arith)
                    requires
                        k >= 1,
                        df != 0,
                ;
            } else {
                assert(k * dr != 0) by (nonlinear_arith)
                    requires
                        k >= 1,
                        dr != 0,
                ;
            }
        }
        lemma_plain_move_fits(p, s, t);
        assert(f + df == s % 8 + (k + 1) * df) by (nonlinear_arith)
            requires
                f == s % 8 + k * df,
        ;
        assert(r + dr == s / 8 + (k + 1) * dr) by (nonlinear_arith)
            requires
                r == s / 8 + k * dr,
        ;
        lemma_ray_fit(p, s, f + df, r + dr, df, dr, caps_only, (fuel - 1) as nat, k + 1);
        let rest = ray_list(p, s, f + df, r + dr, df, dr, caps_only, (fuel - 1) as nat);
        if p.sq[t] == EMPTY && !caps_only {
            lemma_all_fit_concat(p, seq![quiet_spec(s as u8, t as u8)], rest);
        }
    }
}

proof fn lemma_slider_fit(p: Pos, s: int, kind: int, caps_only: bool, n: int)
    requires
        playable(p),
        0 <= s < 64,
        p.sq[s] != EMPTY,
        color_spec(p.sq[s]) == p.side,
        n <= n_dirs(kind),
    ensures
        all_fit(p, slider_list(p, s, kind, caps_only, n)),
    decreases n,
{
    if n > 0 {
        lemma_slider_fit(p, s, kind, caps_only, n - 1);
        let d = slider_dir(kind, n - 1);
        lemma_ray_fit(p, s, s % 8 + d.0, s / 8 + d.1, d.0, d.1, caps_only, 8, 1);
        lemma_all_fit_concat(
            p,
            slider_list(p, s, kind, caps_only, n - 1),
            ray_list(p, s, s % 8 + d.0, s / 8 + d.1, d.0, d.1, caps_only, 8),
        );
    }
}

proof fn lemma_pawn_to_fit(p: Pos, s: int, t: int, cap: bool)
    requires
        playable(p),
        0 <= s < 64,
        0 <= t < 64,
        s != t,
        p.sq[s] == pawn_of(p.side),
    ensures
        all_fit(p, pawn_moves_to(p, s, t, cap)),
{
}

proof fn lemma_pawn_caps_fit(p: Pos, s: int, df: int)
    requires
        playable(p),
        0 <= s < 64,
        p.sq[s] == pawn_of(p.side),
        df == -1 || df == 1,
        0 <= s / 8 + pawn_up(p) < 8,
    ensures
        all_fit(p, pawn_caps(p, s, df)),
{
    let f = s % 8;
    let r1 = s / 8 + pawn_up(p);
    if 0 <= f + df < 8 {
        let t = idx(f + df, r1);
        lemma_pawn_to_fit(p, s, t, true);
        let normal = if p.sq[t] != EMPTY && color_spec(p.sq[t]) == (p.side ^ 1u8) {
            pawn_moves_to(p, s, t, true)
        } else {
            seq![]
        };
        let epl = if t == p.ep as int {
            let cap = if p.side == WHITE {
                t - 8
            } else {
                t + 8
            };
            let ep_pawn = if p.side == WHITE {
                BP
            } else {
                WP
            };
            if p.sq[cap] == ep_pawn {
                seq![ep_move(s, t)]
            } else {
                seq![]
            }
        } else {
            seq![]
        };
        if t == p.ep as int {
            assert(p.sq[p.ep as int] == EMPTY);
            assert(ep_victim(p.side, t as u8) != s);
        }
        assert(all_fit(p, epl));
        lemma_all_fit_concat(p, normal, epl);
    }
}

proof fn lemma_pawn_fit(p: Pos, s: int)
    requires
        playable(p),
        0 <= s < 64,
        p.sq[s] == pawn_of(p.side),
    ensures
        all_fit(p, pawn_list(p, s)),
        all_fit(p, pawn_tactical_list(p, s)),
{
    let f = s % 8;
    let r = s / 8;
    let up = pawn_up(p);
    let r1 = r + up;
    if 0 <= r1 < 8 {
        let t = idx(f, r1);
        lemma_pawn_to_fit(p, s, t, false);
        let start: int = if p.side == WHITE {
            1
        } else {
            6
        };
        let double = if r == start {
            let t2 = idx(f, r + 2 * up);
            if p.sq[t2] == EMPTY {
                seq![Move { double_push: true, ..pawn_move(s, t2, 0, false) }]
            } else {
                seq![]
            }
        } else {
            seq![]
        };
        if p.sq[t] == EMPTY {
            lemma_all_fit_concat(p, pawn_moves_to(p, s, t, false), double);
        }
        lemma_pawn_caps_fit(p, s, -1);
        lemma_pawn_caps_fit(p, s, 1);
        let pushes = if p.sq[t] == EMPTY {
            pawn_moves_to(p, s, t, false) + double
        } else {
            seq![]
        };
        lemma_all_fit_concat(p, pushes, pawn_caps(p, s, -1));
        lemma_all_fit_concat(p, pushes + pawn_caps(p, s, -1), pawn_caps(p, s, 1));
        lemma_all_fit_concat(p, pawn_caps(p, s, -1), pawn_caps(p, s, 1));
        let last: int = if p.side == WHITE {
            7
        } else {
            0
        };
        let promos = if p.sq[t] == EMPTY && r1 == last {
            pawn_moves_to(p, s, t, false)
        } else {
            seq![]
        };
        lemma_all_fit_concat(p, pawn_caps(p, s, -1) + pawn_caps(p, s, 1), promos);
    }
}

proof fn lemma_castle_fit(p: Pos, s: int)
    requires
        playable(p),
        0 <= s < 64,
        p.sq[s] != EMPTY,
        color_spec(p.sq[s]) == p.side,
        type_spec(p.sq[s]) == 5,
    ensures
        all_fit(p, castle_list(p, s)),
{
    let pc = p.sq[s];
    assert(pc == WK || pc == 12u8);
    let l = castle_list(p, s);
    assert forall|i: int| 0 <= i < l.len() implies fits(p, #[trigger] l[i]) by {
        assert(p.king[p.side as int] == s);
    }
}

proof fn lemma_moves_from_fit(p: Pos, s: int)
    requires
        playable(p),
        0 <= s < 64,
    ensures
        all_fit(p, moves_from(p, s)),
        all_fit(p, tactical_from(p, s)),
{
    let pc = p.sq[s];
    if pc != EMPTY && color_spec(pc) == p.side {
        let t = type_spec(pc);
        assert(pc <= 12);
        if t == 0 {
            assert(pc == pawn_of(p.side));
            lemma_pawn_fit(p, s);
        } else if t == 1 {
            lemma_steps_fit(p, s, true, false, 8);
            lemma_steps_fit(p, s, true, true, 8);
        } else if t == 5 {
            lemma_steps_fit(p, s, false, false, 8);
            lemma_steps_fit(p, s, false, true, 8);
            lemma_castle_fit(p, s);
            lemma_all_fit_concat(p, steps_list(p, s, false, false, 8), castle_list(p, s));
        } else {
            lemma_slider_fit(p, s, t as int, false, n_dirs(t as int));
            lemma_slider_fit(p, s, t as int, true, n_dirs(t as int));
        }
    }
}

proof fn lemma_prefix_fit(p: Pos, n: int)
    requires
        playable(p),
        n <= 64,
    ensures
        all_fit(p, pseudo_prefix(p, n)),
        all_fit(p, tactical_prefix(p, n)),
    decreases n,
{
    if n > 0 {
        lemma_prefix_fit(p, n - 1);
        lemma_moves_from_fit(p, n - 1);
        lemma_all_fit_concat(p, pseudo_prefix(p, n - 1), moves_from(p, n - 1));
        lemma_all_fit_concat(p, tactical_prefix(p, n - 1), tactical_from(p, n - 1));
    }
}

/// Every move the generators produce fits the position: so making and
/// unmaking it restores the position, keeps it valid, and keeps the hash.
pub proof fn lemma_generated_moves_fit(p: Pos)
    requires
        playable(p),
    ensures
        all_fit(p, pseudo_moves(p)),
        all_fit(p, tactical_moves(p)),
{
    lemma_prefix_fit(p, 64);
}


// ---------------------------------------------------------------------------
// Legal moves and perft
// ---------------------------------------------------------------------------
/// After `m` the mover's king is not attacked.
pub open spec fn king_safe_after(p: Pos, m: Move) -> bool {
    let q = apply_move(p, m);
    !attacked(q.sq, q.king[p.side as int] as int, q.side)
}

/// The legal moves of a position: the pseudo-legal moves that do not leave
/// the mover's king attacked, in generation order.
pub open spec fn legal_moves(p: Pos) -> Seq<Move> {
    pseudo_moves(p).filter(|m: Move| king_safe_after(p, m))
}

/// Valid, with room on the clocks for `d` more moves.
pub open spec fn playable_for(p: Pos, d: int) -> bool {
    valid_pos(p) && p.half + d < 65535 && p.full + d < 65535
}

/// Number of legal move sequences of length `depth` (leaf nodes of the
/// legal game tree).
pub open spec fn perft_spec(p: Pos, depth: nat) -> nat
    decreases depth, 1int, 0int,
{
    if depth == 0 {
        1
    } else {
        perft_sum(p, depth, pseudo_moves(p).len() as int)
    }
}

/// The perft contributions of the first `n` pseudo-legal moves.
pub open spec fn perft_sum(p: Pos, depth: nat, n: int) -> nat
    decreases depth, 0int, n,
{
    if n <= 0 || depth == 0 {
        0
    } else {
        let m = pseudo_moves(p)[n - 1];
        let here: nat = if !king_safe_after(p, m) {
            0
        } else if depth == 1 {
            1
        } else {
            perft_spec(apply_move(p, m), (depth - 1) as nat)
        };
        perft_sum(p, depth, n - 1) + here
    }
}

proof fn lemma_perft_sum_mono(p: Pos, depth: nat, i: int, j: int)
    requires
        i <= j,
    ensures
        perft_sum(p, depth, i) <= perft_sum(p, depth, j),
    decreases j - i,
{
    if i < j {
        lemma_perft_sum_mono(p, depth, i, j - 1);
    }
}

proof fn lemma_step_playable(b: Board, m: Move, d: int)
    requires
        playable_for(b@, d),
        d >= 1,
        fits(b@, m),
    ensures
        playable_for(apply_move(b@, m), d - 1),
        unapply(apply_move(b@, m), m, undo_of(b, m)) == b@,
{
    lemma_apply_valid(b@, m);
    lemma_unmake_undoes_make(b, m);
}

impl Board {
    /// Whether `m` leaves the mover's king unattacked (by make, test, unmake).
    pub fn king_safe_test(&mut self, m: &Move) -> (ok: bool)
        requires
            playable(old(self)@),
            fits(old(self)@, *m),
        ensures
            *final(self) == *old(self),
            ok == king_safe_after(old(self)@, *m),
    {
        let ghost b0 = *self;
        proof {
            lemma_unmake_undoes_make(b0, *m);
            lemma_apply_valid(b0@, *m);
        }
        let u = self.make(m);
        let us = opp(self.side);
        let ok = !self.is_attacked(self.king[us as usize], self.side);
        self.unmake(m, &u);
        proof {
            Self::lemma_board_eq(*self, b0);
        }
        ok
    }

    /// The legal moves of the side to move.  The board is left as it was.
    pub fn gen_legal(&mut self, out: &mut Vec<Move>)
        requires
            playable(old(self)@),
        ensures
            final(self)@ == old(self)@,
            final(self).hash == old(self).hash,
            final(out)@ == legal_moves(old(self)@),
    {
        let ghost p0 = self@;
        let ghost b0 = *self;
        let mut pseudo: Vec<Move> = Vec::new();
        self.gen_pseudo(&mut pseudo);
        proof {
            lemma_generated_moves_fit(p0);
        }
        out.clear();
        let mut i: usize = 0;
        while i < pseudo.len()
            invariant
                i <= pseudo.len(),
                pseudo@ == pseudo_moves(p0),
                all_fit(p0, pseudo@),
                playable(p0),
                self@ == p0,
                *self == b0,
                out@ == pseudo@.take(i as int).filter(|m: Move| king_safe_after(p0, m)),
            decreases pseudo.len() - i,
        {
            let m = pseudo[i];
            proof {
                assert(fits(p0, m));
                assert(pseudo@.take(i + 1) =~= pseudo@.take(i as int).push(m));
                pseudo@.take(i as int).lemma_filter_push(m, |m: Move| king_safe_after(p0, m));
            }
            let ok = self.king_safe_test(&m);
            if ok {
                out.push(m);
            }
            i += 1;
        }
        proof {
            assert(pseudo@.take(i as int) =~= pseudo@);
        }
    }

    proof fn lemma_board_eq(a: Board, b: Board)
        requires
            a@ == b@,
            a.hash == b.hash,
        ensures
            a == b,
    {
        assert(a.sq@ =~= b.sq@);
        assert(a.king@ =~= b.king@);
        assert(a.sq =~= b.sq);
        assert(a.king =~= b.king);
    }

    /// The perft contribution of one pseudo-legal move.
    fn perft_child(&mut self, m: &Move, depth: u32) -> (n: u64)
        requires
            depth >= 1,
            fits(old(self)@, *m),
            playable_for(old(self)@, depth as int),
            (if !king_safe_after(old(self)@, *m) {
                0
            } else if depth == 1 {
                1
            } else {
                perft_spec(apply_move(old(self)@, *m), (depth - 1) as nat)
            }) <= u64::MAX,
        ensures
            *final(self) == *old(self),
            n == (if !king_safe_after(old(self)@, *m) {
                0
            } else if depth == 1 {
                1
            } else {
                perft_spec(apply_move(old(self)@, *m), (depth - 1) as nat)
            }),
        decreases depth, 0int,
    {
        let ghost b0 = *self;
        proof {
            lemma_step_playable(b0, *m, depth as int);
        }
        let u = self.make(m);
        let us = opp(self.side);
        let mut n: u64 = 0;
        if !self.is_attacked(self.king[us as usize], self.side) {
            n = if depth == 1 {
                1
            } else {
                self.perft(depth - 1)
            };
        }
        self.unmake(m, &u);
        proof {
            Self::lemma_board_eq(*self, b0);
        }
        n
    }

    fn perft_child_checked(&mut self, m: &Move, depth: u32) -> (r: Option<u64>)
        requires
            depth >= 1,
            fits(old(self)@, *m),
            playable_for(old(self)@, depth as int),
        ensures
            *final(self) == *old(self),
            ({
                let here = if !king_safe_after(old(self)@, *m) {
                    0
                } else if depth == 1 {
                    1
                } else {
                    perft_spec(apply_move(old(self)@, *m), (depth - 1) as nat)
                };
                match r {
                    Some(n) => n == here,
                    None => here > u64::MAX,
                }
            }),
        decreases depth, 0int,
    {
        let ghost b0 = *self;
        proof {
            lemma_step_playable(b0, *m, depth as int);
        }
        let u = self.make(m);
        let us = opp(self.side);
        let mut n: Option<u64> = Some(0);
        if !self.is_attacked(self.king[us as usize], self.side) {
            n = if depth == 1 {
                Some(1)
            } else {
                self.perft_checked(depth - 1)
            };
        }
        self.unmake(m, &u);
        proof {
            Self::lemma_board_eq(*self, b0);
        }
        n
    }

    /// Number of leaf nodes of the legal move tree of the given depth, or
    /// `None` when that number does not fit in 64 bits.
    pub fn perft_checked(&mut self, depth: u32) -> (r: Option<u64>)
        requires
            playable_for(old(self)@, depth as int),
        ensures
            final(self)@ == old(self)@,
            final(self).hash == old(self).hash,
            match r {
                Some(n) => n == perft_spec(old(self)@, depth as nat),
                None => perft_spec(old(self)@, depth as nat) > u64::MAX,
            },
        decreases depth, 1int,
    {
        if depth == 0 {
            return Some(1);
        }
        let ghost p0 = self@;
        let ghost b0 = *self;
        let mut pseudo: Vec<Move> = Vec::new();
        self.gen_pseudo(&mut pseudo);
        proof {
            lemma_generated_moves_fit(p0);
        }
        let mut nodes: u64 = 0;
        let mut i: usize = 0;
        while i < pseudo.len()
            invariant
                i <= pseudo.len(),
                depth >= 1,
                pseudo@ == pseudo_moves(p0),
                all_fit(p0, pseudo@),
                playable_for(p0, depth as int),
                self@ == p0,
                *self == b0,
                b0 == *old(self),
                nodes == perft_sum(p0, depth as nat, i as int),
            decreases pseudo.len() - i,
        {
            let m = pseudo[i];
            proof {
                assert(fits(p0, m));
                lemma_perft_sum_mono(p0, depth as nat, i + 1, pseudo@.len() as int);
            }
            let c = self.perft_child_checked(&m, depth);
            match c {
                None => {
                    return None;
                },
                Some(add) => {
                    match nodes.checked_add(add) {
                        None => {
                            return None;
                        },
                        Some(v) => {
                            nodes = v;
                        },
                    }
                },
            }
            i += 1;
        }
        Some(nodes)
    }

    /// Number of leaf nodes of the legal move tree of the given depth.
    pub fn perft(&mut self, depth: u32) -> (nodes: u64)
        requires
            playable_for(old(self)@, depth as int),
            perft_spec(old(self)@, depth as nat) <= u64::MAX,
        ensures
            final(self)@ == old(self)@,
            final(self).hash == old(self).hash,
            nodes == perft_spec(old(self)@, depth as nat),
        decreases depth, 1int,
    {
        if depth == 0 {
            return 1;
        }
        let ghost p0 = self@;
        let ghost b0 = *self;
        let mut pseudo: Vec<Move> = Vec::new();
        self.gen_pseudo(&mut pseudo);
        proof {
            lemma_generated_moves_fit(p0);
        }
        let mut nodes: u64 = 0;
        let mut i: usize = 0;
        while i < pseudo.len()
            invariant
                i <= pseudo.len(),
                depth >= 1,
                pseudo@ == pseudo_moves(p0),
                all_fit(p0, pseudo@),
                playable_for(p0, depth as int),
                perft_spec(p0, depth as nat) <= u64::MAX,
                self@ == p0,
                *self == b0,
                nodes == perft_sum(p0, depth as nat, i as int),
            decreases pseudo.len() - i,
        {
            let m = pseudo[i];
            proof {
                assert(fits(p0, m));
                lemma_perft_sum_mono(p0, depth as nat, i + 1, pseudo@.len() as int);
            }
            let add = self.perft_child(&m, depth);
            nodes = nodes + add;
            i += 1;
        }
        nodes
    }
}


// ---------------------------------------------------------------------------
// Move generation does not read the clocks
// ---------------------------------------------------------------------------
/// Positions that differ at most in their move clocks.
pub open spec fn same_but_clocks(p: Pos, q: Pos) -> bool {
    &&& p.sq == q.sq
    &&& p.side == q.side
    &&& p.castling == q.castling
    &&& p.ep == q.ep
    &&& p.king == q.king
}

proof fn lemma_steps_clocks(p: Pos, q: Pos, s: int, knight: bool, caps_only: bool, n: int)
    requires
        same_but_clocks(p, q),
    ensures
        steps_list(p, s, knight, caps_only, n) == steps_list(q, s, knight, caps_only, n),
    decreases n,
{
    if n > 0 {
        lemma_steps_clocks(p, q, s, knight, caps_only, n - 1);
    }
}

proof fn lemma_ray_clocks(
    p: Pos,
    q: Pos,
    s: int,
    f: int,
    r: int,
    df: int,
    dr: int,
    caps_only: bool,
    fuel: nat,
)
    requires
        same_but_clocks(p, q),
    ensures
        ray_list(p, s, f, r, df, dr, caps_only, fuel) == ray_list(q, s, f, r, df, dr, caps_only, fuel),
    decreases fuel,
{
    if fuel > 0 {
        lemma_ray_clocks(p, q, s, f + df, r + dr, df, dr, caps_only, (fuel - 1) as nat);
    }
}

proof fn lemma_slider_clocks(p: Pos, q: Pos, s: int, kind: int, caps_only: bool, n: int)
    requires
        same_but_clocks(p, q),
    ensures
        slider_list(p, s, kind, caps_only, n) == slider_list(q, s, kind, caps_only, n),
    decreases n,
{
    if n > 0 {
        lemma_slider_clocks(p, q, s, kind, caps_only, n - 1);
        let d = slider_dir(kind, n - 1);
        lemma_ray_clocks(p, q, s, s % 8 + d.0, s / 8 + d.1, d.0, d.1, caps_only, 8);
    }
}

#[verifier::spinoff_prover]
#[verifier::rlimit(40)]
proof fn lemma_prefix_clocks(p: Pos, q: Pos, n: int)
    requires
        same_but_clocks(p, q),
    ensures
        pseudo_prefix(p, n) == pseudo_prefix(q, n),
    decreases n,
{
    if n > 0 {
        lemma_prefix_clocks(p, q, n - 1);
        let s = n - 1;
        lemma_steps_clocks(p, q, s, true, false, 8);
        lemma_steps_clocks(p, q, s, false, false, 8);
        let t = type_spec(p.sq[s]) as int;
        lemma_slider_clocks(p, q, s, t, false, n_dirs(t));
        assert(pawn_list(p, s) == pawn_list(q, s));
        assert(castle_list(p, s) == castle_list(q, s));
        assert(moves_from(p, s) == moves_from(q, s));
    }
}

proof fn lemma_filter_member(s: Seq<Move>, pred: spec_fn(Move) -> bool, x: Move)
    requires
        s.filter(pred).contains(x),
    ensures
        s.contains(x),
        pred(x),
    decreases s.len(),
{
    reveal(Seq::filter);
    if s.len() > 0 {
        let init = s.drop_last();
        let last = s.last();
        let k = choose|k: int| 0 <= k < s.filter(pred).len() && s.filter(pred)[k] == x;
        if pred(last) && k == s.filter(pred).len() - 1 {
            assert(s[s.len() - 1] == x);
        } else {
            assert(init.filter(pred)[k] == x);
            assert(init.filter(pred).contains(x));
            lemma_filter_member(init, pred, x);
            let j = choose|j: int| 0 <= j < init.len() && init[j] == x;
            assert(s[j] == x);
        }
    }
}

/// A legal move is a pseudo-legal move that leaves the king safe.
pub proof fn lemma_legal_member(p: Pos, m: Move)
    requires
        legal_moves(p).contains(m),
    ensures
        pseudo_moves(p).contains(m),
        king_safe_after(p, m),
{
    lemma_filter_member(pseudo_moves(p), |m: Move| king_safe_after(p, m), m);
}

/// The pseudo-legal and the legal moves of a position do not depend on its
/// move clocks.
pub proof fn lemma_moves_ignore_clocks(p: Pos, q: Pos)
    requires
        same_but_clocks(p, q),
    ensures
        pseudo_moves(p) == pseudo_moves(q),
        legal_moves(p) == legal_moves(q),
        forall|m: Move| #[trigger] king_safe_after(p, m) == king_safe_after(q, m),
{
    lemma_prefix_clocks(p, q, 64);
    assert forall|m: Move| #[trigger] king_safe_after(p, m) == king_safe_after(q, m) by {
        let a = apply_move(p, m);
        let b = apply_move(q, m);
        assert(a.sq == b.sq);
        assert(a.king == b.king);
        assert(a.side == b.side);
    }
    assert((|m: Move| king_safe_after(p, m)) =~= (|m: Move| king_safe_after(q, m)));
}


// ---------------------------------------------------------------------------
// Insufficient material
// ---------------------------------------------------------------------------
/// Some square below `n` holds a pawn, rook or queen.
pub open spec fn has_heavy(sq: Seq<u8>, n: int) -> bool {
    exists|s: int|
        0 <= s < n && #[trigger] sq[s] != EMPTY && (type_spec(sq[s]) == 0 || type_spec(sq[s]) == 3
            || type_spec(sq[s]) == 4)
}

/// Number of pieces of type `t` on squares below `n`.
pub open spec fn count_type(sq: Seq<u8>, n: int, t: u8) -> nat
    decreases n,
{
    if n <= 0 {
        0
    } else {
        count_type(sq, n - 1, t) + if sq[n - 1] != EMPTY && type_spec(sq[n - 1]) == t {
            1nat
        } else {
            0nat
        }
    }
}

/// Some bishop below square `n` stands on a square of color `col`
/// ((rank + file) mod 2).
pub open spec fn bishop_on_color(sq: Seq<u8>, n: int, col: int) -> bool {
    exists|s: int|
        0 <= s < n && #[trigger] sq[s] != EMPTY && type_spec(sq[s]) == 2 && (s / 8 + s % 8) % 2
            == col
}

/// No side can mate: only kings and minor pieces, and either at most one
/// minor piece or only bishops, all on squares of one color.
pub open spec fn insufficient_spec(sq: Seq<u8>) -> bool {
    let minors = count_type(sq, 64, 1) + count_type(sq, 64, 2);
    &&& !has_heavy(sq, 64)
    &&& (minors <= 1 || (count_type(sq, 64, 1) == 0 && bishop_on_color(sq, 64, 0) != bishop_on_color(
        sq,
        64,
        1,
    )))
}

/// A position declared drawn for lack of material holds no pawn, rook or
/// queen: only kings, knights and bishops.
pub proof fn lemma_insufficient_only_minors(sq: Seq<u8>)
    requires
        insufficient_spec(sq),
    ensures
        forall|s: int|
            0 <= s < 64 && #[trigger] sq[s] != EMPTY ==> type_spec(sq[s]) == 1 || type_spec(sq[s])
                == 2 || type_spec(sq[s]) == 5,
{
    assert forall|s: int| 0 <= s < 64 && #[trigger] sq[s] != EMPTY implies type_spec(sq[s]) == 1
        || type_spec(sq[s]) == 2 || type_spec(sq[s]) == 5 by {
        if type_spec(sq[s]) == 0 || type_spec(sq[s]) == 3 || type_spec(sq[s]) == 4 {
            assert(has_heavy(sq, 64));
        }
    }
}

/// Two bare kings (or any board holding only kings) cannot mate: such a
/// position is a draw by insufficient material.
pub proof fn lemma_bare_kings_insufficient(sq: Seq<u8>)
    requires
        forall|s: int| 0 <= s < 64 && #[trigger] sq[s] != EMPTY ==> type_spec(sq[s]) == 5,
    ensures
        insufficient_spec(sq),
{
    assert forall|n: int| 0 <= n <= 64 implies #[trigger] count_type(sq, n, 1) == 0 && count_type(
        sq,
        n,
        2,
    ) == 0 by {
        lemma_count_no_minor(sq, n);
    }
}

proof fn lemma_count_no_minor(sq: Seq<u8>, n: int)
    requires
        0 <= n <= 64,
        forall|s: int| 0 <= s < 64 && #[trigger] sq[s] != EMPTY ==> type_spec(sq[s]) == 5,
    ensures
        count_type(sq, n, 1) == 0,
        count_type(sq, n, 2) == 0,
    decreases n,
{
    if n > 0 {
        lemma_count_no_minor(sq, n - 1);
    }
}

impl Board {
    /// Automatic draw by material: K vs K, K + minor vs K, or only bishops
    /// all on squares of one color.
    pub fn insufficient_material(&self) -> (r: bool)
        ensures
            r == insufficient_spec(self.sq@),
    {
        let mut minors: u32 = 0;
        let mut knights: u32 = 0;
        let mut dark = false;
        let mut light = false;
        let mut s: usize = 0;
        while s < 64
            invariant
                s <= 64,
                !has_heavy(self.sq@, s as int),
                knights == count_type(self.sq@, s as int, 1),
                minors == count_type(self.sq@, s as int, 1) + count_type(self.sq@, s as int, 2),
                minors <= s,
                dark == bishop_on_color(self.sq@, s as int, 0),
                light == bishop_on_color(self.sq@, s as int, 1),
            decreases 64 - s,
        {
            let p = self.sq[s];
            assert((s / 8 + s % 8) % 2 == 0 || (s / 8 + s % 8) % 2 == 1);
            if p != EMPTY && type_of(p) != 5 {
                let t = type_of(p);
                if t == 0 || t == 3 || t == 4 {
                    assert(has_heavy(self.sq@, 64));
                    return false;
                }
                if t == 1 {
                    knights += 1;
                    minors += 1;
                } else {
                    minors += 1;
                    assert(s >> 3 == s / 8) by (bit_vector);
                    assert(s & 7 == s % 8) by (bit_vector);
                    let col = ((s >> 3) + (s & 7)) % 2;
                    if col == 0 {
                        dark = true;
                    } else {
                        light = true;
                    }
                }
            }
            s += 1;
            proof {
                if bishop_on_color(self.sq@, s as int, 0) {
                    let w = choose|w: int|
                        0 <= w < s && #[trigger] self.sq@[w] != EMPTY && type_spec(self.sq@[w]) == 2
                            && (w / 8 + w % 8) % 2 == 0;
                    assert(w < s - 1 ==> bishop_on_color(self.sq@, s - 1, 0));
                }
                if bishop_on_color(self.sq@, s as int, 1) {
                    let w = choose|w: int|
                        0 <= w < s && #[trigger] self.sq@[w] != EMPTY && type_spec(self.sq@[w]) == 2
                            && (w / 8 + w % 8) % 2 == 1;
                    assert(w < s - 1 ==> bishop_on_color(self.sq@, s - 1, 1));
                }
                if has_heavy(self.sq@, s as int) {
                    let w = choose|w: int|
                        0 <= w < s && #[trigger] self.sq@[w] != EMPTY && (type_spec(self.sq@[w])
                            == 0 || type_spec(self.sq@[w]) == 3 || type_spec(self.sq@[w]) == 4);
                    assert(w < s - 1 ==> has_heavy(self.sq@, s - 1));
                }
            }
        }
        if minors <= 1 {
            return true;
        }
        if knights == 0 && (dark != light) {
            return true;
        }
        false
    }
}


// ---------------------------------------------------------------------------
// Castling is never generated out of, through or into check
// ---------------------------------------------------------------------------
/// A castling move leaves from a king of the side to move, and neither the
/// king's square, nor the square it crosses, nor the square it lands on is
/// attacked by the opponent.
pub open spec fn castle_ok(p: Pos, m: Move) -> bool {
    is_castle(m) ==> {
        let them = p.side ^ 1u8;
        &&& (m.from == 4 || m.from == 60)
        &&& p.sq[m.from as int] != EMPTY
        &&& color_spec(p.sq[m.from as int]) == p.side
        &&& type_spec(p.sq[m.from as int]) == 5
        &&& !attacked(p.sq, m.from as int, them)
        &&& !attacked(p.sq, (m.from + m.to) / 2, them)
        &&& !attacked(p.sq, m.to as int, them)
        &&& (m.from == 4 && m.to == 6 ==> has_right(p.castling, CR_WK) && p.sq[5] == EMPTY
            && p.sq[6] == EMPTY)
        &&& (m.from == 4 && m.to == 2 ==> has_right(p.castling, CR_WQ) && p.sq[3] == EMPTY
            && p.sq[2] == EMPTY && p.sq[1] == EMPTY)
        &&& (m.from == 60 && m.to == 62 ==> has_right(p.castling, CR_BK) && p.sq[61] == EMPTY
            && p.sq[62] == EMPTY)
        &&& (m.from == 60 && m.to == 58 ==> has_right(p.castling, CR_BQ) && p.sq[59] == EMPTY
            && p.sq[58] == EMPTY && p.sq[57] == EMPTY)
        &&& (m.to == 6 || m.to == 2 || m.to == 62 || m.to == 58)
    }
}

pub open spec fn all_castle_ok(p: Pos, ms: Seq<Move>) -> bool {
    forall|i: int| 0 <= i < ms.len() ==> castle_ok(p, #[trigger] ms[i])
}

proof fn lemma_castle_ok_concat(p: Pos, a: Seq<Move>, b: Seq<Move>)
    requires
        all_castle_ok(p, a),
        all_castle_ok(p, b),
    ensures
        all_castle_ok(p, a + b),
{
    assert forall|i: int| 0 <= i < (a + b).len() implies castle_ok(p, #[trigger] (a + b)[i]) by {
        if i < a.len() {
            assert((a + b)[i] == a[i]);
        } else {
            assert((a + b)[i] == b[i - a.len()]);
        }
    }
}

proof fn lemma_steps_castle_ok(p: Pos, s: int, knight: bool, caps_only: bool, n: int)
    ensures
        all_castle_ok(p, steps_list(p, s, knight, caps_only, n)),
    decreases n,
{
    if n > 0 {
        lemma_steps_castle_ok(p, s, knight, caps_only, n - 1);
        let d = step_off(knight, n - 1);
        lemma_castle_ok_concat(
            p,
            steps_list(p, s, knight, caps_only, n - 1),
            step_move(p, s, d.0, d.1, caps_only),
        );
    }
}

proof fn lemma_ray_castle_ok(
    p: Pos,
    s: int,
    f: int,
    r: int,
    df: int,
    dr: int,
    caps_only: bool,
    fuel: nat,
)
    ensures
        all_castle_ok(p, ray_list(p, s, f, r, df, dr, caps_only, fuel)),
    decreases fuel,
{
    if fuel > 0 && on_board(f, r) {
        let rest = ray_list(p, s, f + df, r + dr, df, dr, caps_only, (fuel - 1) as nat);
        lemma_ray_castle_ok(p, s, f + df, r + dr, df, dr, caps_only, (fuel - 1) as nat);
        let t = idx(f, r);
        lemma_castle_ok_concat(p, seq![quiet_spec(s as u8, t as u8)], rest);
    }
}

proof fn lemma_slider_castle_ok(p: Pos, s: int, kind: int, caps_only: bool, n: int)
    ensures
        all_castle_ok(p, slider_list(p, s, kind, caps_only, n)),
    decreases n,
{
    if n > 0 {
        lemma_slider_castle_ok(p, s, kind, caps_only, n - 1);
        let d = slider_dir(kind, n - 1);
        lemma_ray_castle_ok(p, s, s % 8 + d.0, s / 8 + d.1, d.0, d.1, caps_only, 8);
        lemma_castle_ok_concat(
            p,
            slider_list(p, s, kind, caps_only, n - 1),
            ray_list(p, s, s % 8 + d.0, s / 8 + d.1, d.0, d.1, caps_only, 8),
        );
    }
}

proof fn lemma_pawn_castle_ok(p: Pos, s: int)
    ensures
        all_castle_ok(p, pawn_list(p, s)),
{
    let l = pawn_list(p, s);
    assert forall|i: int| 0 <= i < l.len() implies castle_ok(p, #[trigger] l[i]) by {
        let f = s % 8;
        let r1 = s / 8 + pawn_up(p);
        let t = idx(f, r1);
        let start: int = if p.side == WHITE {
            1
        } else {
            6
        };
        let double = if s / 8 == start && p.sq[idx(f, s / 8 + 2 * pawn_up(p))] == EMPTY {
            seq![Move { double_push: true, ..pawn_move(s, idx(f, s / 8 + 2 * pawn_up(p)), 0, false) }]
        } else {
            seq![]
        };
        let pushes = if p.sq[t] == EMPTY {
            pawn_moves_to(p, s, t, false) + double
        } else {
            seq![]
        };
        let a = pawn_caps(p, s, -1);
        let b = pawn_caps(p, s, 1);
        assert(all_castle_ok(p, pawn_moves_to(p, s, t, false)));
        assert(all_castle_ok(p, double));
        lemma_castle_ok_concat(p, pawn_moves_to(p, s, t, false), double);
        assert(all_castle_ok(p, pushes));
        assert forall|df: int| df == -1 || df == 1 implies all_castle_ok(p, #[trigger] pawn_caps(p, s, df)) by {
            let tt = idx(f + df, r1);
            assert(all_castle_ok(p, pawn_moves_to(p, s, tt, true)));
            lemma_castle_ok_concat(
                p,
                if p.sq[tt] != EMPTY && color_spec(p.sq[tt]) == (p.side ^ 1u8) {
                    pawn_moves_to(p, s, tt, true)
                } else {
                    seq![]
                },
                if tt == p.ep as int && p.sq[if p.side == WHITE {
                    tt - 8
                } else {
                    tt + 8
                }] == (if p.side == WHITE {
                    BP
                } else {
                    WP
                }) {
                    seq![ep_move(s, tt)]
                } else {
                    seq![]
                },
            );
        }
        if 0 <= r1 < 8 {
            lemma_castle_ok_concat(p, pushes, a);
            lemma_castle_ok_concat(p, pushes + a, b);
        }
    }
}

proof fn lemma_castle_list_ok(p: Pos, s: int)
    requires
        0 <= s < 64,
        p.sq[s] != EMPTY,
        color_spec(p.sq[s]) == p.side,
        type_spec(p.sq[s]) == 5,
    ensures
        all_castle_ok(p, castle_list(p, s)),
{
}

proof fn lemma_moves_from_castle_ok(p: Pos, s: int)
    requires
        0 <= s < 64,
    ensures
        all_castle_ok(p, moves_from(p, s)),
{
    let pc = p.sq[s];
    if pc != EMPTY && color_spec(pc) == p.side {
        let t = type_spec(pc);
        if t == 0 {
            lemma_pawn_castle_ok(p, s);
        } else if t == 1 {
            lemma_steps_castle_ok(p, s, true, false, 8);
        } else if t == 5 {
            lemma_steps_castle_ok(p, s, false, false, 8);
            lemma_castle_list_ok(p, s);
            lemma_castle_ok_concat(p, steps_list(p, s, false, false, 8), castle_list(p, s));
        } else {
            lemma_slider_castle_ok(p, s, t as int, false, n_dirs(t as int));
        }
    }
}

proof fn lemma_prefix_castle_ok(p: Pos, n: int)
    requires
        n <= 64,
    ensures
        all_castle_ok(p, pseudo_prefix(p, n)),
    decreases n,
{
    if n > 0 {
        lemma_prefix_castle_ok(p, n - 1);
        lemma_moves_from_castle_ok(p, n - 1);
        lemma_castle_ok_concat(p, pseudo_prefix(p, n - 1), moves_from(p, n - 1));
    }
}

/// Castling is generated only for the king of the side to move, with the
/// right held and the squares between king and rook empty, and never out
/// of check, through an attacked square or into check; in a valid
/// position the king's square is the recorded one, so the side to move is
/// not in check.
pub proof fn lemma_castling_never_through_check(p: Pos, m: Move)
    requires
        pseudo_moves(p).contains(m),
        is_castle(m),
    ensures
        p.sq[m.from as int] != EMPTY,
        color_spec(p.sq[m.from as int]) == p.side,
        type_spec(p.sq[m.from as int]) == 5,
        !attacked(p.sq, m.from as int, p.side ^ 1u8),
        !attacked(p.sq, (m.from + m.to) / 2, p.side ^ 1u8),
        !attacked(p.sq, m.to as int, p.side ^ 1u8),
        valid_pos(p) ==> !attacked(p.sq, p.king[p.side as int] as int, p.side ^ 1u8),
        castle_ok(p, m),
{
    lemma_prefix_castle_ok(p, 64);
    let i = choose|i: int| 0 <= i < pseudo_moves(p).len() && pseudo_moves(p)[i] == m;
    assert(castle_ok(p, pseudo_moves(p)[i]));
    if valid_pos(p) {
        let pc = p.sq[m.from as int];
        if p.side == WHITE {
            assert(pc == WK);
        } else {
            assert(pc == 12u8);
        }
    }
}


/// A legal castling move is never made out of, through or into check.
pub proof fn lemma_legal_castling_safe(p: Pos, m: Move)
    requires
        legal_moves(p).contains(m),
        is_castle(m),
    ensures
        !attacked(p.sq, m.from as int, p.side ^ 1u8),
        !attacked(p.sq, (m.from + m.to) / 2, p.side ^ 1u8),
        !attacked(p.sq, m.to as int, p.side ^ 1u8),
        valid_pos(p) ==> !attacked(p.sq, p.king[p.side as int] as int, p.side ^ 1u8),
{
    pseudo_moves(p).lemma_filter_contains_rev(|m: Move| king_safe_after(p, m), m);
    lemma_castling_never_through_check(p, m);
}

} // verus!
