//! Tapered evaluation: material, generated piece-square tables, pawn
//! structure, mobility, bishop pair, rook files, king shield and tempo.
//! Scores are in centipawns from White's point of view.
use vstd::prelude::*;
use crate::chess::{
    Board, EMPTY, WHITE, BLACK, WP, BP, color_spec, type_spec, idx, on_board, piece_value,
    piece_value_of, color_of, type_of, file_of, rank_of, sq_at, sane_pos,
};
use crate::text::{
    chars_of, push_all, int_dec_chars, int_dec_spec, string_from_chars, parse_signed,
    parse_signed_spec, is_digit, lemma_int_dec_reads_back,
};
use crate::fen::{
    words, split_words, is_ws, no_ws, lemma_words_nonempty, lemma_words_one, lemma_words_space,
};
use crate::movegen::{knight_off, slider_dir, n_dirs, step_offset, slider_direction};
use crate::tune::{
    N_NAMES, param_set, param_get, param_name, name_index, name_of, find_name, with_named,
    lemma_name_index, lemma_name_shape, lemma_with_named, lemma_params_ext,
};

verus! {

/// Tunable evaluation weights.
#[derive(Clone, Copy)]
pub struct EvalParams {
    pub pawn_adv_sq_mg: i32,
    pub pawn_adv_sq_eg: i32,
    pub pawn_center: i32,
    pub pawn_base: i32,
    pub knight_base_mg: i32,
    pub knight_slope_mg: i32,
    pub knight_base_eg: i32,
    pub knight_slope_eg: i32,
    pub bishop_base_mg: i32,
    pub bishop_slope_mg: i32,
    pub bishop_base_eg: i32,
    pub bishop_slope_eg: i32,
    pub rook_seventh: i32,
    pub rook_center_mg: i32,
    pub rook_center_eg: i32,
    pub queen_base_mg: i32,
    pub queen_base_eg: i32,
    pub king_base_mg: i32,
    pub king_slope_mg: i32,
    pub king_base_eg: i32,
    pub king_slope_eg: i32,
    pub mob: [i32; 6],
    pub doubled_mg: i32,
    pub doubled_eg: i32,
    pub isolated_mg: i32,
    pub isolated_eg: i32,
    pub passed_base_mg: i32,
    pub passed_adv_mg: i32,
    pub passed_base_eg: i32,
    pub passed_adv_eg: i32,
    pub bishop_pair_mg: i32,
    pub bishop_pair_eg: i32,
    pub rook_open: i32,
    pub rook_half: i32,
    pub shield: i32,
    pub tempo: i32,
}

/// The standard weights (Texel-tuned on own self-play positions).
pub open spec fn standard_spec() -> EvalParams {
    EvalParams {
        pawn_adv_sq_mg: 1i32,
        pawn_adv_sq_eg: 1i32,
        pawn_center: -1i32,
        pawn_base: -15i32,
        knight_base_mg: 24i32,
        knight_slope_mg: 13i32,
        knight_base_eg: 5i32,
        knight_slope_eg: 12i32,
        bishop_base_mg: 4i32,
        bishop_slope_mg: 9i32,
        bishop_base_eg: -14i32,
        bishop_slope_eg: 4i32,
        rook_seventh: 60i32,
        rook_center_mg: -46i32,
        rook_center_eg: -24i32,
        queen_base_mg: 50i32,
        queen_base_eg: 52i32,
        king_base_mg: 10i32,
        king_slope_mg: 21i32,
        king_base_eg: 12i32,
        king_slope_eg: 7i32,
        mob: [0i32, 5, 11, 10, 10, 0],
        doubled_mg: 3i32,
        doubled_eg: 33i32,
        isolated_mg: 14i32,
        isolated_eg: 9i32,
        passed_base_mg: 1i32,
        passed_adv_mg: -2i32,
        passed_base_eg: -29i32,
        passed_adv_eg: 28i32,
        bishop_pair_mg: 32i32,
        bishop_pair_eg: 52i32,
        rook_open: 55i32,
        rook_half: 30i32,
        shield: 12i32,
        tempo: 8i32,
    }
}

/// The standard weights.
pub fn standard() -> (p: EvalParams)
    ensures
        p == standard_spec(),
{
    EvalParams {
        pawn_adv_sq_mg: 1,
        pawn_adv_sq_eg: 1,
        pawn_center: -1,
        pawn_base: -15,
        knight_base_mg: 24,
        knight_slope_mg: 13,
        knight_base_eg: 5,
        knight_slope_eg: 12,
        bishop_base_mg: 4,
        bishop_slope_mg: 9,
        bishop_base_eg: -14,
        bishop_slope_eg: 4,
        rook_seventh: 60,
        rook_center_mg: -46,
        rook_center_eg: -24,
        queen_base_mg: 50,
        queen_base_eg: 52,
        king_base_mg: 10,
        king_slope_mg: 21,
        king_base_eg: 12,
        king_slope_eg: 7,
        mob: [0, 5, 11, 10, 10, 0],
        doubled_mg: 3,
        doubled_eg: 33,
        isolated_mg: 14,
        isolated_eg: 9,
        passed_base_mg: 1,
        passed_adv_mg: -2,
        passed_base_eg: -29,
        passed_adv_eg: 28,
        bishop_pair_mg: 32,
        bishop_pair_eg: 52,
        rook_open: 55,
        rook_half: 30,
        shield: 12,
        tempo: 8,
    }
}

/// Largest magnitude of a weight the evaluation accepts: with weights and
/// table entries in range, no intermediate sum leaves `i32`.
pub const WEIGHT_LIMIT: i32 = 10000;

pub const TABLE_LIMIT: i32 = 600000;

/// No evaluation with bounded weights and tables exceeds this magnitude.
pub const EVAL_BOUND: i32 = 1737610000;

pub open spec fn in_limit(x: i32) -> bool {
    -WEIGHT_LIMIT <= x <= WEIGHT_LIMIT
}

pub open spec fn params_bounded(p: EvalParams) -> bool {
    &&& in_limit(p.pawn_adv_sq_mg)
    &&& in_limit(p.pawn_adv_sq_eg)
    &&& in_limit(p.pawn_center)
    &&& in_limit(p.pawn_base)
    &&& in_limit(p.knight_base_mg)
    &&& in_limit(p.knight_slope_mg)
    &&& in_limit(p.knight_base_eg)
    &&& in_limit(p.knight_slope_eg)
    &&& in_limit(p.bishop_base_mg)
    &&& in_limit(p.bishop_slope_mg)
    &&& in_limit(p.bishop_base_eg)
    &&& in_limit(p.bishop_slope_eg)
    &&& in_limit(p.rook_seventh)
    &&& in_limit(p.rook_center_mg)
    &&& in_limit(p.rook_center_eg)
    &&& in_limit(p.queen_base_mg)
    &&& in_limit(p.queen_base_eg)
    &&& in_limit(p.king_base_mg)
    &&& in_limit(p.king_slope_mg)
    &&& in_limit(p.king_base_eg)
    &&& in_limit(p.king_slope_eg)
    &&& in_limit(p.doubled_mg)
    &&& in_limit(p.doubled_eg)
    &&& in_limit(p.isolated_mg)
    &&& in_limit(p.isolated_eg)
    &&& in_limit(p.passed_base_mg)
    &&& in_limit(p.passed_adv_mg)
    &&& in_limit(p.passed_base_eg)
    &&& in_limit(p.passed_adv_eg)
    &&& in_limit(p.bishop_pair_mg)
    &&& in_limit(p.bishop_pair_eg)
    &&& in_limit(p.rook_open)
    &&& in_limit(p.rook_half)
    &&& in_limit(p.shield)
    &&& in_limit(p.tempo)
    &&& forall|i: int| 0 <= i < 6 ==> #[trigger] in_limit(p.mob@[i])
}

pub fn params_in_limits(p: &EvalParams) -> (b: bool)
    ensures
        b == params_bounded(*p),
{
    let mut i: usize = 0;
    while i < 6
        invariant
            i <= 6,
            forall|j: int| 0 <= j < i ==> #[trigger] in_limit(p.mob@[j]),
        decreases 6 - i,
    {
        if !(-WEIGHT_LIMIT <= p.mob[i] && p.mob[i] <= WEIGHT_LIMIT) {
            assert(!in_limit(p.mob@[i as int]));
            return false;
        }
        i += 1;
    }
    -WEIGHT_LIMIT <= p.pawn_adv_sq_mg && p.pawn_adv_sq_mg <= WEIGHT_LIMIT && -WEIGHT_LIMIT <= p.pawn_adv_sq_eg && p.pawn_adv_sq_eg <= WEIGHT_LIMIT && -WEIGHT_LIMIT <= p.pawn_center && p.pawn_center <= WEIGHT_LIMIT && -WEIGHT_LIMIT <= p.pawn_base && p.pawn_base <= WEIGHT_LIMIT && -WEIGHT_LIMIT <= p.knight_base_mg && p.knight_base_mg <= WEIGHT_LIMIT && -WEIGHT_LIMIT <= p.knight_slope_mg && p.knight_slope_mg <= WEIGHT_LIMIT && -WEIGHT_LIMIT <= p.knight_base_eg && p.knight_base_eg <= WEIGHT_LIMIT && -WEIGHT_LIMIT <= p.knight_slope_eg && p.knight_slope_eg <= WEIGHT_LIMIT && -WEIGHT_LIMIT <= p.bishop_base_mg && p.bishop_base_mg <= WEIGHT_LIMIT && -WEIGHT_LIMIT <= p.bishop_slope_mg && p.bishop_slope_mg <= WEIGHT_LIMIT && -WEIGHT_LIMIT <= p.bishop_base_eg && p.bishop_base_eg <= WEIGHT_LIMIT && -WEIGHT_LIMIT <= p.bishop_slope_eg && p.bishop_slope_eg <= WEIGHT_LIMIT && -WEIGHT_LIMIT <= p.rook_seventh && p.rook_seventh <= WEIGHT_LIMIT && -WEIGHT_LIMIT <= p.rook_center_mg && p.rook_center_mg <= WEIGHT_LIMIT && -WEIGHT_LIMIT <= p.rook_center_eg && p.rook_center_eg <= WEIGHT_LIMIT && -WEIGHT_LIMIT <= p.queen_base_mg && p.queen_base_mg <= WEIGHT_LIMIT && -WEIGHT_LIMIT <= p.queen_base_eg && p.queen_base_eg <= WEIGHT_LIMIT && -WEIGHT_LIMIT <= p.king_base_mg && p.king_base_mg <= WEIGHT_LIMIT && -WEIGHT_LIMIT <= p.king_slope_mg && p.king_slope_mg <= WEIGHT_LIMIT && -WEIGHT_LIMIT <= p.king_base_eg && p.king_base_eg <= WEIGHT_LIMIT && -WEIGHT_LIMIT <= p.king_slope_eg && p.king_slope_eg <= WEIGHT_LIMIT && -WEIGHT_LIMIT <= p.doubled_mg && p.doubled_mg <= WEIGHT_LIMIT && -WEIGHT_LIMIT <= p.doubled_eg && p.doubled_eg <= WEIGHT_LIMIT && -WEIGHT_LIMIT <= p.isolated_mg && p.isolated_mg <= WEIGHT_LIMIT && -WEIGHT_LIMIT <= p.isolated_eg && p.isolated_eg <= WEIGHT_LIMIT && -WEIGHT_LIMIT <= p.passed_base_mg && p.passed_base_mg <= WEIGHT_LIMIT && -WEIGHT_LIMIT <= p.passed_adv_mg && p.passed_adv_mg <= WEIGHT_LIMIT && -WEIGHT_LIMIT <= p.passed_base_eg && p.passed_base_eg <= WEIGHT_LIMIT && -WEIGHT_LIMIT <= p.passed_adv_eg && p.passed_adv_eg <= WEIGHT_LIMIT && -WEIGHT_LIMIT <= p.bishop_pair_mg && p.bishop_pair_mg <= WEIGHT_LIMIT && -WEIGHT_LIMIT <= p.bishop_pair_eg && p.bishop_pair_eg <= WEIGHT_LIMIT && -WEIGHT_LIMIT <= p.rook_open && p.rook_open <= WEIGHT_LIMIT && -WEIGHT_LIMIT <= p.rook_half && p.rook_half <= WEIGHT_LIMIT && -WEIGHT_LIMIT <= p.shield && p.shield <= WEIGHT_LIMIT && -WEIGHT_LIMIT <= p.tempo && p.tempo <= WEIGHT_LIMIT
}


// ---------------------------------------------------------------------------
// Piece-square tables, indexed [rank][file] from White's side
// ---------------------------------------------------------------------------
pub open spec fn absi(x: int) -> int {
    if x < 0 {
        -x
    } else {
        x
    }
}

pub open spec fn mini(a: int, b: int) -> int {
    if a < b {
        a
    } else {
        b
    }
}

pub open spec fn maxi(a: int, b: int) -> int {
    if a > b {
        a
    } else {
        b
    }
}

/// Distance of a file or rank to the two central ones.
pub open spec fn center_dist(x: int) -> int {
    mini(absi(x - 3), absi(x - 4))
}

/// Distance of a file or rank to the central block, counted from outside.
pub open spec fn block_dist(x: int) -> int {
    if x < 3 {
        3 - x
    } else if x > 4 {
        x - 4
    } else {
        0
    }
}

/// Middlegame table entry of piece type `pt` on (rank `r`, file `f`).
pub open spec fn table_mg(p: EvalParams, pt: int, r: int, f: int) -> int {
    if pt == 0 {
        p.pawn_adv_sq_mg * r * r + p.pawn_center * (3 - center_dist(f)) + p.pawn_base
    } else if pt == 1 {
        p.knight_base_mg - p.knight_slope_mg * maxi(block_dist(f), block_dist(r))
    } else if pt == 2 {
        p.bishop_base_mg - p.bishop_slope_mg * (center_dist(f) + center_dist(r))
    } else if pt == 3 {
        (if r == 6 {
            p.rook_seventh as int
        } else {
            0
        }) + p.rook_center_mg - center_dist(f)
    } else if pt == 4 {
        p.queen_base_mg - (center_dist(f) + center_dist(r))
    } else {
        p.king_base_mg - p.king_slope_mg * mini(absi(f - 6) + absi(r), absi(f - 2) + absi(r))
    }
}

/// Endgame table entry of piece type `pt` on (rank `r`, file `f`).
pub open spec fn table_eg(p: EvalParams, pt: int, r: int, f: int) -> int {
    if pt == 0 {
        p.pawn_adv_sq_eg * r * r + p.pawn_center * (3 - center_dist(f)) + p.pawn_base
    } else if pt == 1 {
        p.knight_base_eg - p.knight_slope_eg * maxi(block_dist(f), block_dist(r))
    } else if pt == 2 {
        p.bishop_base_eg - p.bishop_slope_eg * (center_dist(f) + center_dist(r))
    } else if pt == 3 {
        p.rook_center_eg - center_dist(f)
    } else if pt == 4 {
        p.queen_base_eg - (center_dist(f) + center_dist(r)) / 2
    } else {
        p.king_base_eg - p.king_slope_eg * (center_dist(f) + center_dist(r))
    }
}

pub struct Tables {
    pub mg: [[[i32; 8]; 8]; 6],
    pub eg: [[[i32; 8]; 8]; 6],
}

pub open spec fn tab(t: [[[i32; 8]; 8]; 6], pt: int, r: int, f: int) -> i32 {
    t@[pt]@[r]@[f]
}

/// The tables hold exactly the entries the rules give for `p`.
pub open spec fn tables_for(t: Tables, p: EvalParams) -> bool {
    forall|pt: int, r: int, f: int|
        0 <= pt < 6 && 0 <= r < 8 && 0 <= f < 8 ==> tab(t.mg, pt, r, f) == table_mg(p, pt, r, f)
            && #[trigger] tab(t.eg, pt, r, f) == table_eg(p, pt, r, f)
}

pub open spec fn tables_bounded(t: Tables) -> bool {
    forall|pt: int, r: int, f: int|
        0 <= pt < 6 && 0 <= r < 8 && 0 <= f < 8 ==> -TABLE_LIMIT <= #[trigger] tab(t.mg, pt, r, f)
            <= TABLE_LIMIT && -TABLE_LIMIT <= tab(t.eg, pt, r, f) <= TABLE_LIMIT
}

fn abs_i32(x: i32) -> (r: i32)
    requires
        x > i32::MIN,
    ensures
        r == absi(x as int),
{
    if x < 0 {
        -x
    } else {
        x
    }
}

fn center_dist_exec(x: i32) -> (d: i32)
    requires
        0 <= x < 8,
    ensures
        d == center_dist(x as int),
        0 <= d <= 3,
{
    let a = abs_i32(x - 3);
    let b = abs_i32(x - 4);
    if a < b {
        a
    } else {
        b
    }
}

proof fn lemma_mul_bound(a: int, b: int, la: int, lb: int)
    requires
        -la <= a <= la,
        -lb <= b <= lb,
        la >= 0,
        lb >= 0,
    ensures
        -(la * lb) <= a * b <= la * lb,
{
    assert(-(la * lb) <= a * b <= la * lb) by (nonlinear_arith)
        requires
            -la <= a <= la,
            -lb <= b <= lb,
            la >= 0,
            lb >= 0,
    ;
}

/// One table entry, middlegame (`mg`) or endgame.
fn entry(p: &EvalParams, pt: u8, r: i32, f: i32, mg: bool) -> (v: i32)
    requires
        params_bounded(*p),
        pt < 6,
        0 <= r < 8,
        0 <= f < 8,
    ensures
        v == if mg {
            table_mg(*p, pt as int, r as int, f as int)
        } else {
            table_eg(*p, pt as int, r as int, f as int)
        },
        -TABLE_LIMIT <= v <= TABLE_LIMIT,
{
    let cf = center_dist_exec(f);
    let cr = center_dist_exec(r);
    if pt == 0 {
        let adv = r;
        let center = 3 - cf;
        let a = if mg {
            p.pawn_adv_sq_mg
        } else {
            p.pawn_adv_sq_eg
        };
        proof {
            assert(0 <= adv * adv <= 49) by (nonlinear_arith)
                requires
                    0 <= adv < 8,
            ;
            lemma_mul_bound(a as int, adv * adv, 10000, 49);
            lemma_mul_bound(p.pawn_center as int, center as int, 10000, 3);
            assert((a * adv) * adv == a * (adv * adv)) by (nonlinear_arith);
            lemma_mul_bound(a as int, adv as int, 10000, 7);
        }
        a * adv * adv + p.pawn_center * center + p.pawn_base
    } else if pt == 1 {
        let df: i32 = if f < 3 {
            3 - f
        } else if f > 4 {
            f - 4
        } else {
            0
        };
        let dr: i32 = if r < 3 {
            3 - r
        } else if r > 4 {
            r - 4
        } else {
            0
        };
        let d = if df > dr {
            df
        } else {
            dr
        };
        if mg {
            proof {
                lemma_mul_bound(p.knight_slope_mg as int, d as int, 10000, 3);
            }
            p.knight_base_mg - p.knight_slope_mg * d
        } else {
            proof {
                lemma_mul_bound(p.knight_slope_eg as int, d as int, 10000, 3);
            }
            p.knight_base_eg - p.knight_slope_eg * d
        }
    } else if pt == 2 {
        if mg {
            proof {
                lemma_mul_bound(p.bishop_slope_mg as int, (cf + cr) as int, 10000, 6);
            }
            p.bishop_base_mg - p.bishop_slope_mg * (cf + cr)
        } else {
            proof {
                lemma_mul_bound(p.bishop_slope_eg as int, (cf + cr) as int, 10000, 6);
            }
            p.bishop_base_eg - p.bishop_slope_eg * (cf + cr)
        }
    } else if pt == 3 {
        if mg {
            let seventh = if r == 6 {
                p.rook_seventh
            } else {
                0
            };
            seventh + p.rook_center_mg - cf
        } else {
            p.rook_center_eg - cf
        }
    } else if pt == 4 {
        if mg {
            p.queen_base_mg - (cf + cr)
        } else {
            p.queen_base_eg - (cf + cr) / 2
        }
    } else {
        if mg {
            let dg = abs_i32(f - 6) + abs_i32(r);
            let dc = abs_i32(f - 2) + abs_i32(r);
            let d = if dg < dc {
                dg
            } else {
                dc
            };
            proof {
                lemma_mul_bound(p.king_slope_mg as int, d as int, 10000, 14);
            }
            p.king_base_mg - p.king_slope_mg * d
        } else {
            proof {
                lemma_mul_bound(p.king_slope_eg as int, (cf + cr) as int, 10000, 6);
            }
            p.king_base_eg - p.king_slope_eg * (cf + cr)
        }
    }
}

/// Fills the two tables of piece type `pt`.
fn build_piece(p: &EvalParams, pt: u8, mg: &mut [[i32; 8]; 8], eg: &mut [[i32; 8]; 8])
    requires
        params_bounded(*p),
        pt < 6,
    ensures
        forall|r: int, f: int|
            0 <= r < 8 && 0 <= f < 8 ==> #[trigger] final(mg)@[r]@[f] == table_mg(*p, pt as int, r, f),
        forall|r: int, f: int|
            0 <= r < 8 && 0 <= f < 8 ==> #[trigger] final(eg)@[r]@[f] == table_eg(*p, pt as int, r, f),
        forall|r: int, f: int|
            0 <= r < 8 && 0 <= f < 8 ==> -TABLE_LIMIT <= #[trigger] final(mg)@[r]@[f] <= TABLE_LIMIT,
        forall|r: int, f: int|
            0 <= r < 8 && 0 <= f < 8 ==> -TABLE_LIMIT <= #[trigger] final(eg)@[r]@[f] <= TABLE_LIMIT,
{
    let mut r: usize = 0;
    while r < 8
        invariant
            r <= 8,
            params_bounded(*p),
            pt < 6,
            forall|q: int, f: int|
                0 <= q < r && 0 <= f < 8 ==> #[trigger] mg@[q]@[f] == table_mg(*p, pt as int, q, f),
            forall|q: int, f: int|
                0 <= q < r && 0 <= f < 8 ==> #[trigger] eg@[q]@[f] == table_eg(*p, pt as int, q, f),
            forall|q: int, f: int|
                0 <= q < r && 0 <= f < 8 ==> -TABLE_LIMIT <= #[trigger] mg@[q]@[f] <= TABLE_LIMIT,
            forall|q: int, f: int|
                0 <= q < r && 0 <= f < 8 ==> -TABLE_LIMIT <= #[trigger] eg@[q]@[f] <= TABLE_LIMIT,
        decreases 8 - r,
    {
        let mut row_mg = [0i32; 8];
        let mut row_eg = [0i32; 8];
        let mut f: usize = 0;
        while f < 8
            invariant
                f <= 8,
                r < 8,
                params_bounded(*p),
                pt < 6,
                forall|g: int|
                    0 <= g < f ==> #[trigger] row_mg@[g] == table_mg(*p, pt as int, r as int, g),
                forall|g: int|
                    0 <= g < f ==> #[trigger] row_eg@[g] == table_eg(*p, pt as int, r as int, g),
                forall|g: int| 0 <= g < f ==> -TABLE_LIMIT <= #[trigger] row_mg@[g] <= TABLE_LIMIT,
                forall|g: int| 0 <= g < f ==> -TABLE_LIMIT <= #[trigger] row_eg@[g] <= TABLE_LIMIT,
            decreases 8 - f,
        {
            let a = entry(p, pt, r as i32, f as i32, true);
            let b = entry(p, pt, r as i32, f as i32, false);
            row_mg[f] = a;
            row_eg[f] = b;
            f += 1;
        }
        mg[r] = row_mg;
        eg[r] = row_eg;
        r += 1;
    }
}

/// The piece-square tables for weights `p`.
pub fn build_tables(p: &EvalParams) -> (t: Tables)
    requires
        params_bounded(*p),
    ensures
        tables_for(t, *p),
        tables_bounded(t),
{
    let mut t = Tables { mg: [[[0i32; 8]; 8]; 6], eg: [[[0i32; 8]; 8]; 6] };
    let mut pt: u8 = 0;
    while pt < 6
        invariant
            pt <= 6,
            params_bounded(*p),
            forall|q: int, r: int, f: int|
                0 <= q < pt && 0 <= r < 8 && 0 <= f < 8 ==> #[trigger] tab(t.mg, q, r, f) == table_mg(
                    *p,
                    q,
                    r,
                    f,
                ),
            forall|q: int, r: int, f: int|
                0 <= q < pt && 0 <= r < 8 && 0 <= f < 8 ==> #[trigger] tab(t.eg, q, r, f) == table_eg(
                    *p,
                    q,
                    r,
                    f,
                ),
            forall|q: int, r: int, f: int|
                0 <= q < pt && 0 <= r < 8 && 0 <= f < 8 ==> -TABLE_LIMIT <= #[trigger] tab(
                    t.mg,
                    q,
                    r,
                    f,
                ) <= TABLE_LIMIT,
            forall|q: int, r: int, f: int|
                0 <= q < pt && 0 <= r < 8 && 0 <= f < 8 ==> -TABLE_LIMIT <= #[trigger] tab(
                    t.eg,
                    q,
                    r,
                    f,
                ) <= TABLE_LIMIT,
        decreases 6 - pt,
    {
        let mut mg = [[0i32; 8]; 8];
        let mut eg = [[0i32; 8]; 8];
        build_piece(p, pt, &mut mg, &mut eg);
        let ghost t0 = t;
        t.mg[pt as usize] = mg;
        t.eg[pt as usize] = eg;
        proof {
            assert forall|q: int, r: int, f: int|
                0 <= q <= pt && 0 <= r < 8 && 0 <= f < 8 implies #[trigger] tab(t.mg, q, r, f)
                == table_mg(*p, q, r, f) by {
                if q == pt {
                    assert(t.mg@[q] == mg);
                    assert(mg@[r]@[f] == table_mg(*p, pt as int, r, f));
                } else {
                    assert(t.mg@[q] == t0.mg@[q]);
                    assert(tab(t0.mg, q, r, f) == table_mg(*p, q, r, f));
                }
            }
            assert forall|q: int, r: int, f: int|
                0 <= q <= pt && 0 <= r < 8 && 0 <= f < 8 implies #[trigger] tab(t.eg, q, r, f)
                == table_eg(*p, q, r, f) by {
                if q == pt {
                    assert(t.eg@[q] == eg);
                    assert(eg@[r]@[f] == table_eg(*p, pt as int, r, f));
                } else {
                    assert(t.eg@[q] == t0.eg@[q]);
                    assert(tab(t0.eg, q, r, f) == table_eg(*p, q, r, f));
                }
            }
            assert forall|q: int, r: int, f: int|
                0 <= q <= pt && 0 <= r < 8 && 0 <= f < 8 implies -TABLE_LIMIT <= #[trigger] tab(
                t.mg,
                q,
                r,
                f,
            ) <= TABLE_LIMIT by {
                if q == pt {
                    assert(t.mg@[q] == mg);
                    assert(-TABLE_LIMIT <= mg@[r]@[f] <= TABLE_LIMIT);
                } else {
                    assert(t.mg@[q] == t0.mg@[q]);
                    assert(-TABLE_LIMIT <= tab(t0.mg, q, r, f) <= TABLE_LIMIT);
                }
            }
            assert forall|q: int, r: int, f: int|
                0 <= q <= pt && 0 <= r < 8 && 0 <= f < 8 implies -TABLE_LIMIT <= #[trigger] tab(
                t.eg,
                q,
                r,
                f,
            ) <= TABLE_LIMIT by {
                if q == pt {
                    assert(t.eg@[q] == eg);
                    assert(-TABLE_LIMIT <= eg@[r]@[f] <= TABLE_LIMIT);
                } else {
                    assert(t.eg@[q] == t0.eg@[q]);
                    assert(-TABLE_LIMIT <= tab(t0.eg, q, r, f) <= TABLE_LIMIT);
                }
            }
        }
        pt += 1;
    }
    t
}

/// The tables of the standard weights.
pub fn tables() -> (t: Tables)
    ensures
        tables_for(t, standard_spec()),
        tables_bounded(t),
{
    let p = standard();
    build_tables(&p)
}


// ---------------------------------------------------------------------------
// Mobility
// ---------------------------------------------------------------------------
/// The target at offset (df, dr) is on the board and not own.
pub open spec fn mob_step(sq: Seq<u8>, f: int, r: int, df: int, dr: int, color: u8) -> int {
    if on_board(f + df, r + dr) && (sq[idx(f + df, r + dr)] == EMPTY || color_spec(
        sq[idx(f + df, r + dr)],
    ) != color) {
        1
    } else {
        0
    }
}

pub open spec fn knight_mob(sq: Seq<u8>, f: int, r: int, color: u8, n: int) -> int
    decreases n,
{
    if n <= 0 {
        0
    } else {
        knight_mob(sq, f, r, color, n - 1) + mob_step(
            sq,
            f,
            r,
            knight_off(n - 1).0,
            knight_off(n - 1).1,
            color,
        )
    }
}

/// Squares a slider reaches along a ray: empty ones, plus a first enemy.
pub open spec fn ray_mob(sq: Seq<u8>, f: int, r: int, df: int, dr: int, color: u8, fuel: nat) -> int
    decreases fuel,
{
    if fuel == 0 || !on_board(f, r) {
        0
    } else if sq[idx(f, r)] == EMPTY {
        1 + ray_mob(sq, f + df, r + dr, df, dr, color, (fuel - 1) as nat)
    } else if color_spec(sq[idx(f, r)]) != color {
        1
    } else {
        0
    }
}

pub open spec fn slider_mob(sq: Seq<u8>, s: int, kind: int, color: u8, n: int) -> int
    decreases n,
{
    if n <= 0 {
        0
    } else {
        let d = slider_dir(kind, n - 1);
        slider_mob(sq, s, kind, color, n - 1) + ray_mob(
            sq,
            s % 8 + d.0,
            s / 8 + d.1,
            d.0,
            d.1,
            color,
            8,
        )
    }
}

/// Number of squares a knight, bishop, rook or queen of `color` on `s`
/// attacks, own pieces blocking and not counted (0 for other types).
pub open spec fn mobility_spec(sq: Seq<u8>, s: int, pt: int, color: u8) -> int {
    if pt == 1 {
        knight_mob(sq, s % 8, s / 8, color, 8)
    } else if pt == 2 || pt == 3 || pt == 4 {
        slider_mob(sq, s, pt, color, n_dirs(pt))
    } else {
        0
    }
}

proof fn lemma_ray_mob_bound(sq: Seq<u8>, f: int, r: int, df: int, dr: int, color: u8, fuel: nat)
    ensures
        0 <= ray_mob(sq, f, r, df, dr, color, fuel) <= fuel,
    decreases fuel,
{
    if fuel > 0 {
        lemma_ray_mob_bound(sq, f + df, r + dr, df, dr, color, (fuel - 1) as nat);
    }
}

fn ray_mobility(b: &Board, s: u8, df: i8, dr: i8, color: u8) -> (n: i32)
    requires
        s < 64,
        -1 <= df <= 1,
        -1 <= dr <= 1,
        sane_pos(b@),
    ensures
        n == ray_mob(b.sq@, s % 8 + df, s / 8 + dr, df as int, dr as int, color, 8),
        0 <= n <= 8,
{
    proof {
        lemma_ray_mob_bound(b.sq@, s % 8 + df, s / 8 + dr, df as int, dr as int, color, 8);
    }
    let mut ff = file_of(s) + df;
    let mut rr = rank_of(s) + dr;
    let mut n: i32 = 0;
    let mut k: u8 = 0;
    while k < 8
        invariant
            k <= 8,
            n == k,
            -1 <= ff <= 8,
            -1 <= rr <= 8,
            -1 <= df <= 1,
            -1 <= dr <= 1,
            sane_pos(b@),
            ray_mob(b.sq@, s % 8 + df, s / 8 + dr, df as int, dr as int, color, 8) == n + ray_mob(
                b.sq@,
                ff as int,
                rr as int,
                df as int,
                dr as int,
                color,
                (8 - k) as nat,
            ),
        decreases 8 - k,
    {
        if !(0 <= ff && ff < 8 && 0 <= rr && rr < 8) {
            return n;
        }
        let q = b.sq[sq_at(ff, rr) as usize];
        if q == EMPTY {
            n += 1;
        } else {
            if color_of(q) != color {
                n += 1;
            }
            return n;
        }
        ff = ff + df;
        rr = rr + dr;
        k += 1;
    }
    n
}

/// Count of squares a piece attacks (own pieces block, enemy squares count).
pub fn mobility_of(b: &Board, s: usize, ptype: u8, color: u8) -> (n: i32)
    requires
        s < 64,
        sane_pos(b@),
    ensures
        n == mobility_spec(b.sq@, s as int, ptype as int, color),
        0 <= n <= 64,
{
    let f = file_of(s as u8);
    let r = rank_of(s as u8);
    if ptype == 1 {
        let mut n: i32 = 0;
        let mut i: u8 = 0;
        while i < 8
            invariant
                i <= 8,
                s < 64,
                sane_pos(b@),
                0 <= n <= i,
                f == s % 8,
                r == s / 8,
                n == knight_mob(b.sq@, f as int, r as int, color, i as int),
            decreases 8 - i,
        {
            let (df, dr) = step_offset(true, i);
            let ff = f + df;
            let rr = r + dr;
            if 0 <= ff && ff < 8 && 0 <= rr && rr < 8 {
                let q = b.sq[sq_at(ff, rr) as usize];
                if q == EMPTY || color_of(q) != color {
                    n += 1;
                }
            }
            i += 1;
        }
        return n;
    }
    if !(ptype == 2 || ptype == 3 || ptype == 4) {
        return 0;
    }
    let nd: u8 = if ptype == 2 || ptype == 3 {
        4
    } else {
        8
    };
    let mut n: i32 = 0;
    let mut i: u8 = 0;
    while i < nd
        invariant
            i <= nd,
            nd == n_dirs(ptype as int),
            ptype == 2 || ptype == 3 || ptype == 4,
            s < 64,
            sane_pos(b@),
            0 <= n <= 8 * i,
            n == slider_mob(b.sq@, s as int, ptype as int, color, i as int),
        decreases nd - i,
    {
        let (df, dr) = slider_direction(ptype, i);
        let m = ray_mobility(b, s as u8, df, dr, color);
        n += m;
        i += 1;
    }
    n
}


// ---------------------------------------------------------------------------
// Specification of the evaluation
// ---------------------------------------------------------------------------
pub open spec fn sgn(c: u8) -> int {
    if c == WHITE {
        1
    } else {
        -1
    }
}

/// Integer division rounding toward zero (as `/` on `i32` does).
pub open spec fn trunc_div(a: int, d: int) -> int {
    if a >= 0 {
        a / d
    } else {
        -((-a) / d)
    }
}

/// Rank seen from the side of color `c` (White's ranks as they are).
pub open spec fn rel_rank(c: u8, r: int) -> int {
    if c == WHITE {
        r
    } else {
        7 - r
    }
}

/// Game-phase weight of a piece type: N = B = 1, R = 2, Q = 4.
pub open spec fn phase_weight(pt: int) -> int {
    if pt == 1 || pt == 2 {
        1
    } else if pt == 3 {
        2
    } else if pt == 4 {
        4
    } else {
        0
    }
}

pub open spec fn mob_term(sq: Seq<u8>, p: EvalParams, s: int) -> int {
    let pc = sq[s];
    let pt = type_spec(pc) as int;
    let c = color_spec(pc);
    if p.mob@[pt] != 0 {
        trunc_div(sgn(c) * mobility_spec(sq, s, pt, c) * p.mob@[pt], 2)
    } else {
        0
    }
}

/// Material, table entry and mobility of the piece on `s`, signed by color.
pub open spec fn piece_term(sq: Seq<u8>, p: EvalParams, t: Tables, s: int, mg: bool) -> int {
    let pc = sq[s];
    if pc == EMPTY {
        0
    } else {
        let pt = type_spec(pc) as int;
        let c = color_spec(pc);
        let pst = if mg {
            tab(t.mg, pt, rel_rank(c, s / 8), s % 8)
        } else {
            tab(t.eg, pt, rel_rank(c, s / 8), s % 8)
        };
        sgn(c) * (piece_value(pt) + pst) + mob_term(sq, p, s)
    }
}

pub open spec fn piece_sum(sq: Seq<u8>, p: EvalParams, t: Tables, n: int, mg: bool) -> int
    decreases n,
{
    if n <= 0 {
        0
    } else {
        piece_sum(sq, p, t, n - 1, mg) + piece_term(sq, p, t, n - 1, mg)
    }
}

pub open spec fn phase_sum(sq: Seq<u8>, n: int) -> int
    decreases n,
{
    if n <= 0 {
        0
    } else {
        phase_sum(sq, n - 1) + if sq[n - 1] == EMPTY {
            0
        } else {
            phase_weight(type_spec(sq[n - 1]) as int)
        }
    }
}

/// Number of squares below `n` holding `pc`.
pub open spec fn count_piece(sq: Seq<u8>, pc: u8, n: int) -> int
    decreases n,
{
    if n <= 0 {
        0
    } else {
        count_piece(sq, pc, n - 1) + if sq[n - 1] == pc {
            1int
        } else {
            0
        }
    }
}

/// Number of pawns `pawn` on ranks below `n` of file `f`.
pub open spec fn file_pawns(sq: Seq<u8>, f: int, pawn: u8, n: int) -> int
    decreases n,
{
    if n <= 0 {
        0
    } else {
        file_pawns(sq, f, pawn, n - 1) + if sq[idx(f, n - 1)] == pawn {
            1int
        } else {
            0
        }
    }
}

pub open spec fn has_file_pawn(sq: Seq<u8>, f: int, pawn: u8) -> bool {
    0 <= f < 8 && file_pawns(sq, f, pawn, 8) > 0
}

/// Doubled and isolated pawns on file `f` (White negative, Black positive).
pub open spec fn struct_term(sq: Seq<u8>, p: EvalParams, f: int, mg: bool) -> int {
    let w = file_pawns(sq, f, WP, 8);
    let bl = file_pawns(sq, f, BP, 8);
    let d = if mg {
        p.doubled_mg
    } else {
        p.doubled_eg
    };
    let iso = if mg {
        p.isolated_mg
    } else {
        p.isolated_eg
    };
    let w_adj = has_file_pawn(sq, f - 1, WP) || has_file_pawn(sq, f + 1, WP);
    let b_adj = has_file_pawn(sq, f - 1, BP) || has_file_pawn(sq, f + 1, BP);
    (if w > 1 {
        -(d * (w - 1))
    } else {
        0
    }) + (if bl > 1 {
        d * (bl - 1)
    } else {
        0
    }) + (if w > 0 && !w_adj {
        -iso
    } else {
        0
    }) + (if bl > 0 && !b_adj {
        iso as int
    } else {
        0
    })
}

pub open spec fn struct_sum(sq: Seq<u8>, p: EvalParams, n: int, mg: bool) -> int
    decreases n,
{
    if n <= 0 {
        0
    } else {
        struct_sum(sq, p, n - 1, mg) + struct_term(sq, p, n - 1, mg)
    }
}

/// An `enemy` pawn stands in front of (f, r) on its file or a neighbour
/// file: above it for a white pawn (`up`), below it for a black one.
pub open spec fn blocked(sq: Seq<u8>, f: int, r: int, enemy: u8, up: bool) -> bool {
    exists|ff: int, rr: int|
        f - 1 <= ff <= f + 1 && 0 <= ff < 8 && (if up {
            r < rr < 8
        } else {
            0 <= rr < r
        }) && #[trigger] sq[idx(ff, rr)] == enemy
}

/// Passed-pawn bonus of square number `k` (file `k / 8`, rank `k % 8`).
pub open spec fn passed_term(sq: Seq<u8>, p: EvalParams, k: int, mg: bool) -> int {
    let f = k / 8;
    let r = k % 8;
    let base = if mg {
        p.passed_base_mg
    } else {
        p.passed_base_eg
    };
    let adv = if mg {
        p.passed_adv_mg
    } else {
        p.passed_adv_eg
    };
    (if sq[idx(f, r)] == WP && !blocked(sq, f, r, BP, true) {
        base + adv * r
    } else {
        0
    }) - (if sq[idx(f, r)] == BP && !blocked(sq, f, r, WP, false) {
        base + adv * (7 - r)
    } else {
        0
    })
}

pub open spec fn passed_sum(sq: Seq<u8>, p: EvalParams, n: int, mg: bool) -> int
    decreases n,
{
    if n <= 0 {
        0
    } else {
        passed_sum(sq, p, n - 1, mg) + passed_term(sq, p, n - 1, mg)
    }
}

pub open spec fn pair_term(sq: Seq<u8>, bonus: i32) -> int {
    (if count_piece(sq, crate::chess::WB, 64) >= 2 {
        bonus as int
    } else {
        0
    }) - (if count_piece(sq, crate::chess::BB, 64) >= 2 {
        bonus as int
    } else {
        0
    })
}

/// Open or half-open file bonus of a rook on `s`.
pub open spec fn rook_term(sq: Seq<u8>, p: EvalParams, s: int) -> int {
    let pc = sq[s];
    if pc == EMPTY || type_spec(pc) != 3 {
        0
    } else {
        let c = color_spec(pc);
        let own = file_pawns(sq, s % 8, if c == WHITE { WP } else { BP }, 8);
        let foe = file_pawns(sq, s % 8, if c == WHITE { BP } else { WP }, 8);
        if own == 0 {
            sgn(c) * if foe == 0 {
                p.rook_open
            } else {
                p.rook_half
            }
        } else {
            0
        }
    }
}

pub open spec fn rook_sum(sq: Seq<u8>, p: EvalParams, n: int) -> int
    decreases n,
{
    if n <= 0 {
        0
    } else {
        rook_sum(sq, p, n - 1) + rook_term(sq, p, n - 1)
    }
}

/// The last square (in index order) holding `pc`, or 0 if none.
pub open spec fn last_square(sq: Seq<u8>, pc: u8, n: int) -> int
    decreases n,
{
    if n <= 0 {
        0
    } else if sq[n - 1] == pc {
        n - 1
    } else {
        last_square(sq, pc, n - 1)
    }
}

pub open spec fn shield_pawn(sq: Seq<u8>, f: int, r: int, c: u8) -> int {
    if on_board(f, r) && sq[idx(f, r)] != EMPTY && color_spec(sq[idx(f, r)]) == c && type_spec(
        sq[idx(f, r)],
    ) == 0 {
        1
    } else {
        0
    }
}

/// Middlegame penalty for missing pawns in front of a king on its first two
/// ranks (White negative, Black positive).
pub open spec fn shield_term(sq: Seq<u8>, p: EvalParams, c: u8) -> int {
    let k = last_square(sq, if c == WHITE { crate::chess::WK } else { crate::chess::BK }, 64);
    let kf = k % 8;
    let kr = k / 8;
    let home = if c == WHITE {
        kr <= 1
    } else {
        kr >= 6
    };
    let ahead = if c == WHITE {
        1int
    } else {
        -1
    };
    if !home {
        0
    } else {
        let n = shield_pawn(sq, kf - 1, kr + ahead, c) + shield_pawn(sq, kf, kr + ahead, c)
            + shield_pawn(sq, kf + 1, kr + ahead, c);
        if c == WHITE {
            -(p.shield * (3 - n))
        } else {
            p.shield * (3 - n)
        }
    }
}

/// The evaluation in centipawns from White's point of view.
pub open spec fn eval_spec(b: crate::chess::Pos, p: EvalParams, t: Tables) -> int {
    let sq = b.sq;
    let mg = piece_sum(sq, p, t, 64, true) + struct_sum(sq, p, 8, true) + passed_sum(sq, p, 64, true)
        + pair_term(sq, p.bishop_pair_mg) + rook_sum(sq, p, 64) + shield_term(sq, p, WHITE)
        + shield_term(sq, p, BLACK);
    let eg = piece_sum(sq, p, t, 64, false) + struct_sum(sq, p, 8, false) + passed_sum(
        sq,
        p,
        64,
        false,
    ) + pair_term(sq, p.bishop_pair_eg);
    let ph = mini(phase_sum(sq, 64), 24);
    trunc_div(mg * ph + eg * (24 - ph), 24) + if b.side == WHITE {
        p.tempo as int
    } else {
        -p.tempo
    }
}


// ---------------------------------------------------------------------------
// Evaluation
// ---------------------------------------------------------------------------
/// Largest magnitude of one square's piece term.
pub open spec fn piece_term_limit() -> int {
    940000
}

fn div_trunc(x: i32, d: i32) -> (q: i32)
    requires
        x > i32::MIN,
        d > 0,
    ensures
        q == trunc_div(x as int, d as int),
{
    if x >= 0 {
        x / d
    } else {
        -((-x) / d)
    }
}

proof fn lemma_trunc_div_bound(a: int, d: int, l: int)
    requires
        d > 0,
        -l <= a <= l,
    ensures
        -l <= trunc_div(a, d) <= l,
{
    if a >= 0 {
        assert(a / d <= a) by (nonlinear_arith)
            requires
                a >= 0,
                d > 0,
        ;
        assert(a / d >= 0) by (nonlinear_arith)
            requires
                a >= 0,
                d > 0,
        ;
    } else {
        assert((-a) / d <= -a) by (nonlinear_arith)
            requires
                -a > 0,
                d > 0,
        ;
        assert((-a) / d >= 0) by (nonlinear_arith)
            requires
                -a > 0,
                d > 0,
        ;
    }
}

fn phase_weight_of(pt: u8) -> (w: i32)
    ensures
        w == phase_weight(pt as int),
{
    if pt == 1 || pt == 2 {
        1
    } else if pt == 3 {
        2
    } else if pt == 4 {
        4
    } else {
        0
    }
}

/// Material, tables, mobility and phase over all squares.
#[verifier::spinoff_prover]
fn piece_pass(b: &Board, p: &EvalParams, t: &Tables) -> (res: (i32, i32, i32))
    requires
        sane_pos(b@),
        params_bounded(*p),
        tables_bounded(*t),
    ensures
        res.0 == piece_sum(b.sq@, *p, *t, 64, true),
        res.1 == piece_sum(b.sq@, *p, *t, 64, false),
        res.2 == phase_sum(b.sq@, 64),
        -64 * piece_term_limit() <= res.0 <= 64 * piece_term_limit(),
        -64 * piece_term_limit() <= res.1 <= 64 * piece_term_limit(),
        0 <= res.2 <= 256,
{
    let mut mg: i32 = 0;
    let mut eg: i32 = 0;
    let mut phase: i32 = 0;
    let mut s: usize = 0;
    while s < 64
        invariant
            s <= 64,
            sane_pos(b@),
            params_bounded(*p),
            tables_bounded(*t),
            mg == piece_sum(b.sq@, *p, *t, s as int, true),
            eg == piece_sum(b.sq@, *p, *t, s as int, false),
            phase == phase_sum(b.sq@, s as int),
            -(s * piece_term_limit()) <= mg <= s * piece_term_limit(),
            -(s * piece_term_limit()) <= eg <= s * piece_term_limit(),
            0 <= phase <= 4 * s,
        decreases 64 - s,
    {
        let pc = b.sq[s];
        if pc != EMPTY {
            let c = color_of(pc);
            let pt = type_of(pc);
            let f = file_of(s as u8) as usize;
            let r = rank_of(s as u8) as usize;
            let tr: usize = if c == WHITE {
                r
            } else {
                7 - r
            };
            let sign: i32 = if c == WHITE {
                1
            } else {
                -1
            };
            let pv = piece_value_of(pt);
            let tm = t.mg[pt as usize][tr][f];
            let te = t.eg[pt as usize][tr][f];
            proof {
                assert(-TABLE_LIMIT <= tab(t.mg, pt as int, tr as int, f as int) <= TABLE_LIMIT);
                assert(-TABLE_LIMIT <= tab(t.eg, pt as int, tr as int, f as int) <= TABLE_LIMIT);
            }
            assert(0 < pv <= 20000);
            assert(sign == 1 || sign == -1);
            let mut xm = sign * (pv + tm);
            let mut xe = sign * (pv + te);
            let mw = p.mob[pt as usize];
            if mw != 0 {
                let m = mobility_of(b, s, pt, c);
                proof {
                    assert(in_limit(p.mob@[pt as int]));
                    assert(-64 <= sign * m <= 64);
                    lemma_mul_bound((sign * m) as int, mw as int, 64, 10000);
                }
                let x = div_trunc(sign * m * mw, 2);
                proof {
                    lemma_trunc_div_bound((sign * m * mw) as int, 2, 640000);
                }
                xm = xm + x;
                xe = xe + x;
            }
            proof {
                assert(xm == piece_term(b.sq@, *p, *t, s as int, true));
                assert(xe == piece_term(b.sq@, *p, *t, s as int, false));
            }
            mg = mg + xm;
            eg = eg + xe;
            phase = phase + phase_weight_of(pt);
        }
        proof {
            assert((s + 1) * piece_term_limit() == s * piece_term_limit() + piece_term_limit())
                by (nonlinear_arith);
        }
        s += 1;
    }
    (mg, eg, phase)
}


fn count_file_pawns(b: &Board, f: usize, pawn: u8) -> (n: i32)
    requires
        f < 8,
    ensures
        n == file_pawns(b.sq@, f as int, pawn, 8),
        0 <= n <= 8,
{
    let mut n: i32 = 0;
    let mut r: usize = 0;
    while r < 8
        invariant
            r <= 8,
            f < 8,
            n == file_pawns(b.sq@, f as int, pawn, r as int),
            0 <= n <= r,
        decreases 8 - r,
    {
        if b.sq[r * 8 + f] == pawn {
            n += 1;
        }
        r += 1;
    }
    n
}

fn has_pawn_on(b: &Board, f: i32, pawn: u8) -> (h: bool)
    requires
        -1 <= f <= 8,
    ensures
        h == has_file_pawn(b.sq@, f as int, pawn),
{
    if 0 <= f && f < 8 {
        count_file_pawns(b, f as usize, pawn) > 0
    } else {
        false
    }
}

/// Doubled and isolated pawns.
fn structure(b: &Board, p: &EvalParams) -> (res: (i32, i32))
    requires
        params_bounded(*p),
    ensures
        res.0 == struct_sum(b.sq@, *p, 8, true),
        res.1 == struct_sum(b.sq@, *p, 8, false),
        -1280000 <= res.0 <= 1280000,
        -1280000 <= res.1 <= 1280000,
{
    let mut smg: i32 = 0;
    let mut seg: i32 = 0;
    let mut f: usize = 0;
    while f < 8
        invariant
            f <= 8,
            params_bounded(*p),
            smg == struct_sum(b.sq@, *p, f as int, true),
            seg == struct_sum(b.sq@, *p, f as int, false),
            -160000 * f <= smg <= 160000 * f,
            -160000 * f <= seg <= 160000 * f,
        decreases 8 - f,
    {
        let w = count_file_pawns(b, f, WP);
        let bl = count_file_pawns(b, f, BP);
        let w_adj = has_pawn_on(b, f as i32 - 1, WP) || has_pawn_on(b, f as i32 + 1, WP);
        let b_adj = has_pawn_on(b, f as i32 - 1, BP) || has_pawn_on(b, f as i32 + 1, BP);
        let mut tm: i32 = 0;
        let mut te: i32 = 0;
        proof {
            lemma_mul_bound(p.doubled_mg as int, (w - 1) as int, 10000, 7);
            lemma_mul_bound(p.doubled_eg as int, (w - 1) as int, 10000, 7);
            lemma_mul_bound(p.doubled_mg as int, (bl - 1) as int, 10000, 7);
            lemma_mul_bound(p.doubled_eg as int, (bl - 1) as int, 10000, 7);
        }
        if w > 1 {
            tm = tm - p.doubled_mg * (w - 1);
            te = te - p.doubled_eg * (w - 1);
        }
        if bl > 1 {
            tm = tm + p.doubled_mg * (bl - 1);
            te = te + p.doubled_eg * (bl - 1);
        }
        if w > 0 && !w_adj {
            tm = tm - p.isolated_mg;
            te = te - p.isolated_eg;
        }
        if bl > 0 && !b_adj {
            tm = tm + p.isolated_mg;
            te = te + p.isolated_eg;
        }
        proof {
            assert(tm == struct_term(b.sq@, *p, f as int, true));
            assert(te == struct_term(b.sq@, *p, f as int, false));
        }
        smg = smg + tm;
        seg = seg + te;
        f += 1;
    }
    (smg, seg)
}

/// Whether an `enemy` pawn stands in front of (f, r) on the file or a
/// neighbour file (above for `up`, below otherwise).
fn is_blocked(b: &Board, f: usize, r: usize, enemy: u8, up: bool) -> (res: bool)
    requires
        f < 8,
        r < 8,
    ensures
        res == blocked(b.sq@, f as int, r as int, enemy, up),
{
    let lo = if f > 0 {
        f - 1
    } else {
        0
    };
    let hi = if f + 1 < 7 {
        f + 1
    } else {
        7
    };
    let mut ff = lo;
    while ff <= hi
        invariant
            lo <= ff <= hi + 1,
            hi <= 7,
            f < 8,
            r < 8,
            lo == if f > 0 { f - 1 } else { 0 },
            hi == if f + 1 < 7 { f + 1 } else { 7 },
            forall|x: int, y: int|
                f - 1 <= x < ff && 0 <= x < 8 && (if up {
                    r < y < 8
                } else {
                    0 <= y < r
                }) ==> #[trigger] b.sq@[idx(x, y)] != enemy,
        decreases hi + 1 - ff,
    {
        let (start, end) = if up {
            (r + 1, 8)
        } else {
            (0, r)
        };
        let mut rr = start;
        while rr < end
            invariant
                start <= rr <= end,
                end <= 8,
                ff <= 7,
                f < 8,
                r < 8,
                lo <= ff <= hi,
                lo == if f > 0 { f - 1 } else { 0 },
                hi == if f + 1 < 7 { f + 1 } else { 7 },
                start == if up { r + 1 } else { 0 },
                end == if up { 8 } else { r },
                forall|y: int| start <= y < rr ==> #[trigger] b.sq@[idx(ff as int, y)] != enemy,
            decreases end - rr,
        {
            if b.sq[rr * 8 + ff] == enemy {
                assert(b.sq@[idx(ff as int, rr as int)] == enemy);
                assert(f - 1 <= ff <= f + 1);
                return true;
            }
            rr += 1;
        }
        ff += 1;
    }
    false
}

/// Passed pawns.
fn passed(b: &Board, p: &EvalParams) -> (res: (i32, i32))
    requires
        params_bounded(*p),
    ensures
        res.0 == passed_sum(b.sq@, *p, 64, true),
        res.1 == passed_sum(b.sq@, *p, 64, false),
        -10240000 <= res.0 <= 10240000,
        -10240000 <= res.1 <= 10240000,
{
    let mut smg: i32 = 0;
    let mut seg: i32 = 0;
    let mut k: usize = 0;
    while k < 64
        invariant
            k <= 64,
            params_bounded(*p),
            smg == passed_sum(b.sq@, *p, k as int, true),
            seg == passed_sum(b.sq@, *p, k as int, false),
            -160000 * k <= smg <= 160000 * k,
            -160000 * k <= seg <= 160000 * k,
        decreases 64 - k,
    {
        let f = k / 8;
        let r = k % 8;
        let q = b.sq[r * 8 + f];
        let mut tm: i32 = 0;
        let mut te: i32 = 0;
        proof {
            lemma_mul_bound(p.passed_adv_mg as int, r as int, 10000, 7);
            lemma_mul_bound(p.passed_adv_eg as int, r as int, 10000, 7);
            lemma_mul_bound(p.passed_adv_mg as int, (7 - r) as int, 10000, 7);
            lemma_mul_bound(p.passed_adv_eg as int, (7 - r) as int, 10000, 7);
        }
        if q == WP && !is_blocked(b, f, r, BP, true) {
            let adv = r as i32;
            tm = tm + (p.passed_base_mg + p.passed_adv_mg * adv);
            te = te + (p.passed_base_eg + p.passed_adv_eg * adv);
        }
        if q == BP && !is_blocked(b, f, r, WP, false) {
            let adv = (7 - r) as i32;
            tm = tm - (p.passed_base_mg + p.passed_adv_mg * adv);
            te = te - (p.passed_base_eg + p.passed_adv_eg * adv);
        }
        proof {
            assert(tm == passed_term(b.sq@, *p, k as int, true));
            assert(te == passed_term(b.sq@, *p, k as int, false));
        }
        smg = smg + tm;
        seg = seg + te;
        k += 1;
    }
    (smg, seg)
}

fn count_piece_exec(b: &Board, pc: u8) -> (n: i32)
    ensures
        n == count_piece(b.sq@, pc, 64),
        0 <= n <= 64,
{
    let mut n: i32 = 0;
    let mut s: usize = 0;
    while s < 64
        invariant
            s <= 64,
            n == count_piece(b.sq@, pc, s as int),
            0 <= n <= s,
        decreases 64 - s,
    {
        if b.sq[s] == pc {
            n += 1;
        }
        s += 1;
    }
    n
}

/// Rooks on open and half-open files.
fn rook_files(b: &Board, p: &EvalParams) -> (res: i32)
    requires
        params_bounded(*p),
        sane_pos(b@),
    ensures
        res == rook_sum(b.sq@, *p, 64),
        -640000 <= res <= 640000,
{
    let mut x: i32 = 0;
    let mut s: usize = 0;
    while s < 64
        invariant
            s <= 64,
            params_bounded(*p),
            sane_pos(b@),
            x == rook_sum(b.sq@, *p, s as int),
            -10000 * s <= x <= 10000 * s,
        decreases 64 - s,
    {
        let pc = b.sq[s];
        if pc != EMPTY && type_of(pc) == 3 {
            let c = color_of(pc);
            let f = s % 8;
            let own = count_file_pawns(b, f, if c == WHITE { WP } else { BP });
            let foe = count_file_pawns(b, f, if c == WHITE { BP } else { WP });
            let sign: i32 = if c == WHITE {
                1
            } else {
                -1
            };
            if own == 0 {
                if foe == 0 {
                    x = x + sign * p.rook_open;
                } else {
                    x = x + sign * p.rook_half;
                }
            }
        }
        s += 1;
    }
    x
}

fn last_square_exec(b: &Board, pc: u8) -> (k: usize)
    ensures
        k == last_square(b.sq@, pc, 64),
        k < 64,
{
    let mut k: usize = 0;
    let mut s: usize = 0;
    while s < 64
        invariant
            s <= 64,
            k == last_square(b.sq@, pc, s as int),
            k < 64,
        decreases 64 - s,
    {
        if b.sq[s] == pc {
            k = s;
        }
        s += 1;
    }
    k
}

fn shield_pawn_exec(b: &Board, f: i8, r: i8, c: u8) -> (n: i32)
    requires
        -1 <= f <= 8,
        -1 <= r <= 8,
    ensures
        n == shield_pawn(b.sq@, f as int, r as int, c),
{
    if 0 <= f && f < 8 && 0 <= r && r < 8 {
        let q = b.sq[sq_at(f, r) as usize];
        if q != EMPTY && color_of(q) == c && type_of(q) == 0 {
            return 1;
        }
    }
    0
}

/// King pawn shield of color `c` (middlegame only).
fn king_shield(b: &Board, p: &EvalParams, c: u8) -> (res: i32)
    requires
        params_bounded(*p),
    ensures
        res == shield_term(b.sq@, *p, c),
        -30000 <= res <= 30000,
{
    let k = last_square_exec(b, if c == WHITE { crate::chess::WK } else { crate::chess::BK });
    let kf = file_of(k as u8);
    let kr = rank_of(k as u8);
    let home = if c == WHITE {
        kr <= 1
    } else {
        kr >= 6
    };
    if !home {
        return 0;
    }
    let ahead: i8 = if c == WHITE {
        1
    } else {
        -1
    };
    let n = shield_pawn_exec(b, kf - 1, kr + ahead, c) + shield_pawn_exec(b, kf, kr + ahead, c)
        + shield_pawn_exec(b, kf + 1, kr + ahead, c);
    let missing = 3 - n;
    proof {
        lemma_mul_bound(p.shield as int, missing as int, 10000, 3);
        let kk = last_square(b.sq@, if c == WHITE { crate::chess::WK } else { crate::chess::BK }, 64);
        assert(kk == k);
        assert(kf == kk % 8);
        assert(kr == kk / 8);
        let ah: int = if c == WHITE { 1 } else { -1 };
        assert(n == shield_pawn(b.sq@, kk % 8 - 1, kk / 8 + ah, c) + shield_pawn(b.sq@, kk % 8, kk / 8 + ah, c) + shield_pawn(b.sq@, kk % 8 + 1, kk / 8 + ah, c));
    }
    if c == WHITE {
        -(p.shield * missing)
    } else {
        p.shield * missing
    }
}


/// The evaluation (centipawns, White's point of view) with weights `p` and
/// their tables `t`: material and tables with mobility, pawn structure,
/// passed pawns, bishop pair, rook files and king shield, tapered between
/// middlegame and endgame by the remaining material, plus a tempo bonus for
/// the side to move.
pub fn evaluate_with(b: &Board, p: &EvalParams, t: &Tables) -> (v: i32)
    requires
        sane_pos(b@),
        params_bounded(*p),
        tables_bounded(*t),
    ensures
        v == eval_spec(b@, *p, *t),
        -EVAL_BOUND <= v <= EVAL_BOUND,
{
    let (pmg, peg, phase) = piece_pass(b, p, t);
    let (smg, seg) = structure(b, p);
    let (amg, aeg) = passed(b, p);
    let wb = count_piece_exec(b, crate::chess::WB);
    let bb = count_piece_exec(b, crate::chess::BB);
    let mut extra_mg: i32 = 0;
    let mut extra_eg: i32 = 0;
    if wb >= 2 {
        extra_mg = extra_mg + p.bishop_pair_mg;
        extra_eg = extra_eg + p.bishop_pair_eg;
    }
    if bb >= 2 {
        extra_mg = extra_mg - p.bishop_pair_mg;
        extra_eg = extra_eg - p.bishop_pair_eg;
    }
    let rk = rook_files(b, p);
    let sw = king_shield(b, p, WHITE);
    let sb = king_shield(b, p, BLACK);
    let mg = pmg + smg + amg + extra_mg + rk + sw + sb;
    let eg = peg + seg + aeg + extra_eg;
    let ph = if phase < 24 {
        phase
    } else {
        24
    };
    proof {
        lemma_mul_bound(mg as int, ph as int, 72400000, 24);
        lemma_mul_bound(eg as int, (24 - ph) as int, 72400000, 24);
        assert(-1737600000 <= mg * ph + eg * (24 - ph) <= 1737600000) by (nonlinear_arith)
            requires
                -72400000 <= mg <= 72400000,
                -72400000 <= eg <= 72400000,
                0 <= ph <= 24,
        ;
    }
    let q = div_trunc(mg * ph + eg * (24 - ph), 24);
    proof {
        lemma_trunc_div_bound((mg * ph + eg * (24 - ph)) as int, 24, 1737600000);
    }
    q + if b.side == WHITE {
        p.tempo
    } else {
        -p.tempo
    }
}

/// Tables built for the same weights are the same tables.
pub proof fn lemma_tables_unique(t: Tables, u: Tables, p: EvalParams)
    requires
        tables_for(t, p),
        tables_for(u, p),
    ensures
        t == u,
{
    assert forall|pt: int| 0 <= pt < 6 implies t.mg@[pt] == u.mg@[pt] && t.eg@[pt] == u.eg@[pt] by {
        assert forall|r: int| 0 <= r < 8 implies t.mg@[pt]@[r] == u.mg@[pt]@[r] && t.eg@[pt]@[r]
            == u.eg@[pt]@[r] by {
            assert forall|f: int| 0 <= f < 8 implies t.mg@[pt]@[r]@[f] == u.mg@[pt]@[r]@[f]
                && t.eg@[pt]@[r]@[f] == u.eg@[pt]@[r]@[f] by {
                assert(tab(t.eg, pt, r, f) == table_eg(p, pt, r, f));
                assert(tab(u.eg, pt, r, f) == table_eg(p, pt, r, f));
            }
            assert(t.mg@[pt]@[r] =~= u.mg@[pt]@[r]);
            assert(t.eg@[pt]@[r] =~= u.eg@[pt]@[r]);
        }
        assert(t.mg@[pt] =~= u.mg@[pt]);
        assert(t.eg@[pt] =~= u.eg@[pt]);
    }
    assert(t.mg =~= u.mg);
    assert(t.eg =~= u.eg);
}

/// The evaluation with the standard weights and their tables.
pub fn evaluate(b: &Board) -> (v: i32)
    requires
        sane_pos(b@),
    ensures
        forall|t: Tables| tables_for(t, standard_spec()) ==> v == eval_spec(b@, standard_spec(), t),
{
    let p = standard();
    let t = build_tables(&p);
    let v = evaluate_with(b, &p, &t);
    proof {
        assert forall|u: Tables| tables_for(u, standard_spec()) implies v == eval_spec(
            b@,
            standard_spec(),
            u,
        ) by {
            lemma_tables_unique(t, u, standard_spec());
        }
    }
    v
}


// ---------------------------------------------------------------------------
// Weights as text: one `name value` per line
// ---------------------------------------------------------------------------
/// Sets the weight called `name` to `v`; false (and nothing changed) for an
/// unknown name.
pub fn param_field(p: &mut EvalParams, name: &Vec<char>, v: i32) -> (known: bool)
    ensures
        match name_index(name@) {
            Some(i) => known && *final(p) == param_set(*old(p), i, v),
            None => !known && *final(p) == *old(p),
        },
{
    match find_name(name) {
        Some(i) => {
            crate::tune::set(p, i, v);
            true
        },
        None => false,
    }
}

/// The text split at line feeds (a final empty piece when it ends with one).
pub open spec fn text_lines(s: Seq<char>) -> Seq<Seq<char>>
    decreases s.len(),
{
    if s.len() == 0 {
        seq![seq![]]
    } else {
        let r = text_lines(s.drop_last());
        if s.last() == '\n' {
            r.push(seq![])
        } else {
            r.update(r.len() - 1, r.last().push(s.last()))
        }
    }
}

proof fn lemma_text_lines_len(s: Seq<char>)
    ensures
        text_lines(s).len() >= 1,
    decreases s.len(),
{
    if s.len() > 0 {
        lemma_text_lines_len(s.drop_last());
    }
}

/// One line of a weights text: blank lines and lines starting with '#' are
/// skipped; otherwise the first two words are a known name and an `i32`.
pub open spec fn apply_line(acc: Option<EvalParams>, line: Seq<char>) -> Option<EvalParams> {
    match acc {
        None => None,
        Some(q) => {
            let w = words(line);
            if w.len() == 0 || w[0][0] == '#' {
                Some(q)
            } else if w.len() < 2 {
                None
            } else {
                match parse_signed_spec(w[1], -2147483648, 2147483647) {
                    None => None,
                    Some(v) => match name_index(w[0]) {
                        None => None,
                        Some(i) => Some(param_set(q, i, v as i32)),
                    },
                }
            }
        },
    }
}

pub open spec fn apply_lines(acc: Option<EvalParams>, lines: Seq<Seq<char>>) -> Option<
    EvalParams,
>
    decreases lines.len(),
{
    if lines.len() == 0 {
        acc
    } else {
        apply_line(apply_lines(acc, lines.drop_last()), lines.last())
    }
}

/// The weights a text describes, starting from the standard ones.
pub open spec fn params_text_spec(text: Seq<char>) -> Option<EvalParams> {
    apply_lines(Some(standard_spec()), text_lines(text))
}

proof fn lemma_apply_lines_none(lines: Seq<Seq<char>>)
    ensures
        apply_lines(None, lines) is None,
    decreases lines.len(),
{
    if lines.len() > 0 {
        lemma_apply_lines_none(lines.drop_last());
    }
}

fn apply_line_exec(acc: &mut EvalParams, line: &Vec<char>) -> (ok: bool)
    ensures
        apply_line(Some(*old(acc)), line@) == if ok {
            Some(*final(acc))
        } else {
            None::<EvalParams>
        },
{
    let w = split_words(line);
    if w.len() == 0 {
        return true;
    }
    proof {
        assert(w@[0]@ == words(line@)[0]);
    }
    if w[0].len() > 0 && w[0][0] == '#' {
        return true;
    }
    proof {
        if words(line@)[0].len() == 0 {
            lemma_words_nonempty(line@, 0);
        }
    }
    if w.len() < 2 {
        return false;
    }
    proof {
        assert(w@[1]@ == words(line@)[1]);
    }
    match parse_signed(&w[1], 2147483648, 2147483647) {
        None => false,
        Some(v) => {
            let vv = v as i32;
            param_field(acc, &w[0], vv)
        },
    }
}


/// Reads weights from text (`name value` per line, '#' comments, blank
/// lines skipped), starting from the standard weights.  `None` when a line
/// has fewer than two words, a value is not an `i32`, or a name is unknown.
pub fn params_from_text(text: &str) -> (r: Option<EvalParams>)
    ensures
        r == params_text_spec(text@),
{
    let cs = chars_of(text);
    let mut acc = standard();
    let mut cur: Vec<char> = Vec::new();
    let mut i: usize = 0;
    while i < cs.len()
        invariant
            i <= cs@.len(),
            cs@ == text@,
            text_lines(cs@.take(i as int)).len() >= 1,
            cur@ == text_lines(cs@.take(i as int)).last(),
            apply_lines(Some(standard_spec()), text_lines(cs@.take(i as int)).drop_last()) == Some(
                acc,
            ),
        decreases cs.len() - i,
    {
        let c = cs[i];
        let ghost pre = cs@.take(i as int);
        let ghost nxt = cs@.take(i + 1);
        proof {
            assert(nxt.drop_last() =~= pre);
            assert(nxt.last() == c);
            lemma_text_lines_len(pre);
        }
        if c == '\n' {
            let ghost done = text_lines(pre);
            let ok = apply_line_exec(&mut acc, &cur);
            proof {
                assert(text_lines(nxt) == done.push(seq![]));
                assert(text_lines(nxt).drop_last() =~= done);
                assert(done.drop_last().push(done.last()) =~= done);
            }
            if !ok {
                proof {
                    lemma_apply_lines_none(text_lines(cs@).subrange(0, 0));
                    lemma_lines_prefix_none(cs@, i + 1);
                }
                return None;
            }
            cur = Vec::new();
        } else {
            cur.push(c);
            proof {
                let done = text_lines(pre);
                assert(text_lines(nxt) == done.update(done.len() - 1, done.last().push(c)));
                assert(text_lines(nxt).drop_last() =~= done.drop_last());
            }
        }
        i += 1;
    }
    let ghost all = text_lines(cs@);
    proof {
        assert(cs@.take(i as int) =~= cs@);
        assert(all.drop_last().push(all.last()) =~= all);
    }
    let ok = apply_line_exec(&mut acc, &cur);
    if ok {
        Some(acc)
    } else {
        None
    }
}

/// Once a prefix of the lines fails, the whole text fails.
proof fn lemma_lines_prefix_none(cs: Seq<char>, k: int)
    requires
        0 <= k <= cs.len(),
        apply_lines(Some(standard_spec()), text_lines(cs.take(k)).drop_last()) is None,
    ensures
        apply_lines(Some(standard_spec()), text_lines(cs)) is None,
    decreases cs.len() - k,
{
    let pre = cs.take(k);
    lemma_text_lines_len(pre);
    if k < cs.len() {
        let nxt = cs.take(k + 1);
        assert(nxt.drop_last() =~= pre);
        let done = text_lines(pre);
        if cs[k] == '\n' {
            assert(text_lines(nxt).drop_last() =~= done);
            assert(done.drop_last().push(done.last()) =~= done);
            lemma_apply_lines_none(seq![]);
            assert(apply_lines(Some(standard_spec()), done) is None);
        } else {
            assert(text_lines(nxt).drop_last() =~= done.drop_last());
        }
        lemma_lines_prefix_none(cs, k + 1);
    } else {
        assert(pre =~= cs);
        let all = text_lines(cs);
        assert(all.drop_last().push(all.last()) =~= all);
    }
}

/// Weight `i` as text: its name, a space, its value.
pub open spec fn param_line_body(p: EvalParams, i: int) -> Seq<char> {
    param_name(i) + seq![' '] + int_dec_spec(param_get(p, i) as int)
}

/// The text line of weight `i`: name, a space, the value, a line feed.
pub open spec fn param_line(p: EvalParams, i: int) -> Seq<char> {
    param_line_body(p, i) + seq!['\n']
}

pub open spec fn params_text(p: EvalParams, n: int) -> Seq<char>
    decreases n,
{
    if n <= 0 {
        seq![]
    } else {
        params_text(p, n - 1) + param_line(p, n - 1)
    }
}

/// The weights as text, one `name value` line per named weight, in the
/// order `params_from_text` reads back.
pub fn params_to_text(p: &EvalParams) -> (s: String)
    ensures
        s@ == params_text(*p, 39),
{
    let mut v: Vec<char> = Vec::new();
    let mut i: usize = 0;
    while i < N_NAMES
        invariant
            i <= N_NAMES,
            v@ == params_text(*p, i as int),
        decreases N_NAMES - i,
    {
        let ghost pre = v@;
        let name = chars_of(name_of(i));
        push_all(&mut v, &name);
        v.push(' ');
        let d = int_dec_chars(crate::tune::get(p, i) as i64);
        push_all(&mut v, &d);
        v.push('\n');
        assert(v@ =~= pre + param_line(*p, i as int));
        i += 1;
    }
    string_from_chars(&v)
}

/// Appending text without a line feed extends the last line.
proof fn lemma_text_lines_extend(s: Seq<char>, t: Seq<char>)
    requires
        forall|k: int| 0 <= k < t.len() ==> t[k] != '\n',
    ensures
        text_lines(s + t) == text_lines(s).update(
            text_lines(s).len() - 1,
            text_lines(s).last() + t,
        ),
    decreases t.len(),
{
    lemma_text_lines_len(s);
    let r0 = text_lines(s);
    if t.len() == 0 {
        assert(s + t =~= s);
        assert(r0.last() + t =~= r0.last());
        assert(r0.update(r0.len() - 1, r0.last()) =~= r0);
    } else {
        let u = t.drop_last();
        lemma_text_lines_extend(s, u);
        assert((s + t).drop_last() =~= s + u);
        assert((s + t).last() == t.last());
        let r = text_lines(s + u);
        assert(r.last().push(t.last()) =~= r0.last() + t);
        assert(text_lines(s + t) =~= r0.update(r0.len() - 1, r0.last() + t));
    }
}

/// The weights text lines (without line feeds) of the first `n` weights.
pub open spec fn body_lines(p: EvalParams, n: int) -> Seq<Seq<char>> {
    Seq::new(n as nat, |i: int| param_line_body(p, i))
}

/// Weight `i` as text is two words: its name and its value.
proof fn lemma_body_words(p: EvalParams, i: int)
    requires
        0 <= i < 39,
    ensures
        words(param_line_body(p, i)) == seq![param_name(i), int_dec_spec(param_get(p, i) as int)],
        forall|k: int|
            0 <= k < param_line_body(p, i).len() ==> #[trigger] param_line_body(p, i)[k] != '\n',
{
    let name = param_name(i);
    let d = int_dec_spec(param_get(p, i) as int);
    lemma_name_shape(i);
    lemma_int_dec_reads_back(param_get(p, i) as int, -2147483648, 2147483647);
    assert(no_ws(d)) by {
        assert forall|k: int| 0 <= k < d.len() implies !is_ws(#[trigger] d[k]) by {
            assert(is_digit(d[k]) || d[k] == '-');
        }
    }
    lemma_words_one(name);
    lemma_words_space(name, d);
    let b = param_line_body(p, i);
    assert forall|k: int| 0 <= k < b.len() implies #[trigger] b[k] != '\n' by {
        if k < name.len() {
            assert(b[k] == name[k]);
            assert(!is_ws(name[k]));
        } else if k > name.len() {
            assert(b[k] == d[k - name.len() - 1]);
            assert(is_digit(d[k - name.len() - 1]) || d[k - name.len() - 1] == '-');
        }
    }
}

/// The weights text of the first `n` weights splits into their lines and
/// a final empty piece.
proof fn lemma_params_lines(p: EvalParams, n: int)
    requires
        0 <= n <= 39,
    ensures
        text_lines(params_text(p, n)) == body_lines(p, n).push(Seq::<char>::empty()),
    decreases n,
{
    if n == 0 {
        assert(params_text(p, 0) =~= Seq::<char>::empty());
        assert(body_lines(p, 0).push(Seq::<char>::empty()) =~= seq![Seq::<char>::empty()]);
    } else {
        lemma_params_lines(p, n - 1);
        let s = params_text(p, n - 1);
        let b = param_line_body(p, n - 1);
        lemma_body_words(p, n - 1);
        lemma_text_lines_extend(s, b);
        let whole = params_text(p, n);
        assert(whole =~= (s + b).push('\n'));
        assert(whole.drop_last() =~= s + b);
        let r0 = text_lines(s);
        assert(r0.last() + b =~= b);
        assert(r0.update(r0.len() - 1, b) =~= body_lines(p, n));
    }
}

/// Reading the lines of the first `n` weights over `base` sets those
/// weights in order.
proof fn lemma_apply_body_lines(base: EvalParams, p: EvalParams, n: int)
    requires
        0 <= n <= 39,
    ensures
        apply_lines(Some(base), body_lines(p, n)) == Some(with_named(base, p, n)),
    decreases n,
{
    if n > 0 {
        lemma_apply_body_lines(base, p, n - 1);
        assert(body_lines(p, n).drop_last() =~= body_lines(p, n - 1));
        let i = n - 1;
        let v = param_get(p, i);
        lemma_body_words(p, i);
        lemma_name_shape(i);
        lemma_name_index(i);
        lemma_int_dec_reads_back(v as int, -2147483648, 2147483647);
        let w = words(param_line_body(p, i));
        assert(w[0] == param_name(i));
        assert(w[1] == int_dec_spec(v as int));
    } else {
        assert(body_lines(p, 0) =~= Seq::<Seq<char>>::empty());
    }
}

/// Weights written as text read back as those weights; only the two
/// unnamed mobility entries, which the text does not carry, come back as
/// the standard ones.
pub proof fn lemma_params_text_roundtrip(p: EvalParams)
    ensures
        params_text_spec(params_text(p, 39)) == Some(with_named(standard_spec(), p, 39)),
        p.mob[0] == standard_spec().mob[0] && p.mob[5] == standard_spec().mob[5]
            ==> params_text_spec(params_text(p, 39)) == Some(p),
{
    lemma_params_lines(p, 39);
    lemma_apply_body_lines(standard_spec(), p, 39);
    let ls = body_lines(p, 39).push(Seq::<char>::empty());
    assert(ls.drop_last() =~= body_lines(p, 39));
    assert(words(Seq::<char>::empty()) =~= Seq::<Seq<char>>::empty());
    let q = with_named(standard_spec(), p, 39);
    if p.mob[0] == standard_spec().mob[0] && p.mob[5] == standard_spec().mob[5] {
        lemma_with_named(standard_spec(), p, 39);
        assert forall|j: int| 0 <= j < 41 implies #[trigger] param_get(q, j) == param_get(p, j) by {
            if j >= 39 {
                assert(param_get(standard_spec(), j) == param_get(p, j));
            }
        }
        lemma_params_ext(q, p);
    }
}

// ---------------------------------------------------------------------------
// Colour symmetry of the passed-pawn bonus
// ---------------------------------------------------------------------------
/// The piece of the other colour (empty stays empty).
pub open spec fn mirror_piece(pc: u8) -> u8 {
    if pc == EMPTY {
        EMPTY
    } else if pc <= 6 {
        (pc + 6) as u8
    } else {
        (pc - 6) as u8
    }
}

/// The board seen from the other side: ranks flipped, colours swapped.
pub open spec fn mirror_squares(sq: Seq<u8>) -> Seq<u8> {
    Seq::new(64, |s: int| mirror_piece(sq[idx(s % 8, 7 - s / 8)]))
}

proof fn lemma_mirror_at(sq: Seq<u8>, f: int, r: int)
    requires
        sq.len() == 64,
        forall|t: int| 0 <= t < 64 ==> #[trigger] sq[t] <= 12,
        0 <= f < 8,
        0 <= r < 8,
    ensures
        mirror_squares(sq)[idx(f, r)] == mirror_piece(sq[idx(f, 7 - r)]),
        (mirror_squares(sq)[idx(f, r)] == WP) == (sq[idx(f, 7 - r)] == BP),
        (mirror_squares(sq)[idx(f, r)] == BP) == (sq[idx(f, 7 - r)] == WP),
{
    let s = idx(f, r);
    assert(s % 8 == f && s / 8 == r) by {
        assert(s == 8 * r + f);
    }
}

/// Blocking pawns ahead of a pawn swap sides with the board.
proof fn lemma_blocked_mirror(sq: Seq<u8>, f: int, r: int)
    requires
        sq.len() == 64,
        forall|t: int| 0 <= t < 64 ==> #[trigger] sq[t] <= 12,
        0 <= f < 8,
        0 <= r < 8,
    ensures
        blocked(mirror_squares(sq), f, r, BP, true) == blocked(sq, f, 7 - r, WP, false),
        blocked(mirror_squares(sq), f, r, WP, false) == blocked(sq, f, 7 - r, BP, true),
{
    let m = mirror_squares(sq);
    if blocked(m, f, r, BP, true) {
        let (ff, rr) = choose|ff: int, rr: int|
            f - 1 <= ff <= f + 1 && 0 <= ff < 8 && r < rr < 8 && #[trigger] m[idx(ff, rr)] == BP;
        lemma_mirror_at(sq, ff, rr);
        assert(sq[idx(ff, 7 - rr)] == WP);
    }
    if blocked(sq, f, 7 - r, WP, false) {
        let (ff, rr) = choose|ff: int, rr: int|
            f - 1 <= ff <= f + 1 && 0 <= ff < 8 && 0 <= rr < 7 - r && #[trigger] sq[idx(ff, rr)] == WP;
        lemma_mirror_at(sq, ff, 7 - rr);
        assert(m[idx(ff, 7 - rr)] == BP);
    }
    if blocked(m, f, r, WP, false) {
        let (ff, rr) = choose|ff: int, rr: int|
            f - 1 <= ff <= f + 1 && 0 <= ff < 8 && 0 <= rr < r && #[trigger] m[idx(ff, rr)] == WP;
        lemma_mirror_at(sq, ff, rr);
        assert(sq[idx(ff, 7 - rr)] == BP);
    }
    if blocked(sq, f, 7 - r, BP, true) {
        let (ff, rr) = choose|ff: int, rr: int|
            f - 1 <= ff <= f + 1 && 0 <= ff < 8 && 7 - r < rr < 8 && #[trigger] sq[idx(ff, rr)] == BP;
        lemma_mirror_at(sq, ff, 7 - rr);
        assert(m[idx(ff, 7 - rr)] == WP);
    }
}

proof fn lemma_passed_term_mirror(sq: Seq<u8>, p: EvalParams, f: int, r: int, mg: bool)
    requires
        sq.len() == 64,
        forall|t: int| 0 <= t < 64 ==> #[trigger] sq[t] <= 12,
        0 <= f < 8,
        0 <= r < 8,
    ensures
        passed_term(mirror_squares(sq), p, 8 * f + r, mg) == -passed_term(sq, p, 8 * f + 7 - r, mg),
{
    let k1 = 8 * f + r;
    let k2 = 8 * f + 7 - r;
    assert(k1 / 8 == f && k1 % 8 == r);
    assert(k2 / 8 == f && k2 % 8 == 7 - r);
    lemma_mirror_at(sq, f, r);
    lemma_blocked_mirror(sq, f, r);
    assert(7 - (7 - r) == r);
}

proof fn lemma_passed_step(sq: Seq<u8>, p: EvalParams, n: int, mg: bool)
    requires
        n >= 0,
    ensures
        passed_sum(sq, p, n + 1, mg) == passed_sum(sq, p, n, mg) + passed_term(sq, p, n, mg),
{
}

/// The passed-pawn terms of one file, summed.
proof fn lemma_file_sum(sq: Seq<u8>, p: EvalParams, f: int, mg: bool)
    requires
        0 <= f,
    ensures
        passed_sum(sq, p, 8 * f + 8, mg) - passed_sum(sq, p, 8 * f, mg) == passed_term(
            sq,
            p,
            8 * f,
            mg,
        ) + passed_term(sq, p, 8 * f + 1, mg) + passed_term(sq, p, 8 * f + 2, mg) + passed_term(
            sq,
            p,
            8 * f + 3,
            mg,
        ) + passed_term(sq, p, 8 * f + 4, mg) + passed_term(sq, p, 8 * f + 5, mg) + passed_term(
            sq,
            p,
            8 * f + 6,
            mg,
        ) + passed_term(sq, p, 8 * f + 7, mg),
{
    lemma_passed_step(sq, p, 8 * f, mg);
    lemma_passed_step(sq, p, 8 * f + 1, mg);
    lemma_passed_step(sq, p, 8 * f + 2, mg);
    lemma_passed_step(sq, p, 8 * f + 3, mg);
    lemma_passed_step(sq, p, 8 * f + 4, mg);
    lemma_passed_step(sq, p, 8 * f + 5, mg);
    lemma_passed_step(sq, p, 8 * f + 6, mg);
    lemma_passed_step(sq, p, 8 * f + 7, mg);
}

proof fn lemma_passed_file_mirror(sq: Seq<u8>, p: EvalParams, f: int, mg: bool)
    requires
        sq.len() == 64,
        forall|t: int| 0 <= t < 64 ==> #[trigger] sq[t] <= 12,
        0 <= f < 8,
    ensures
        passed_sum(mirror_squares(sq), p, 8 * f + 8, mg) - passed_sum(mirror_squares(sq), p, 8 * f, mg)
            == -(passed_sum(sq, p, 8 * f + 8, mg) - passed_sum(sq, p, 8 * f, mg)),
{
    let m = mirror_squares(sq);
    lemma_file_sum(m, p, f, mg);
    lemma_file_sum(sq, p, f, mg);
    lemma_passed_term_mirror(sq, p, f, 0, mg);
    lemma_passed_term_mirror(sq, p, f, 1, mg);
    lemma_passed_term_mirror(sq, p, f, 2, mg);
    lemma_passed_term_mirror(sq, p, f, 3, mg);
    lemma_passed_term_mirror(sq, p, f, 4, mg);
    lemma_passed_term_mirror(sq, p, f, 5, mg);
    lemma_passed_term_mirror(sq, p, f, 6, mg);
    lemma_passed_term_mirror(sq, p, f, 7, mg);
}

proof fn lemma_passed_files_mirror(sq: Seq<u8>, p: EvalParams, n: int, mg: bool)
    requires
        sq.len() == 64,
        forall|t: int| 0 <= t < 64 ==> #[trigger] sq[t] <= 12,
        0 <= n <= 8,
    ensures
        passed_sum(mirror_squares(sq), p, 8 * n, mg) == -passed_sum(sq, p, 8 * n, mg),
    decreases n,
{
    if n > 0 {
        lemma_passed_files_mirror(sq, p, n - 1, mg);
        lemma_passed_file_mirror(sq, p, n - 1, mg);
    }
}

/// The passed-pawn bonus is colour-symmetric: on the board seen from the
/// other side (ranks flipped, colours swapped) it is the negation, so a
/// black passed pawn on rank `r` counts exactly as a white one on rank
/// `7 - r`.
pub proof fn lemma_passed_bonus_mirror(sq: Seq<u8>, p: EvalParams, mg: bool)
    requires
        sq.len() == 64,
        forall|t: int| 0 <= t < 64 ==> #[trigger] sq[t] <= 12,
    ensures
        passed_sum(mirror_squares(sq), p, 64, mg) == -passed_sum(sq, p, 64, mg),
{
    lemma_passed_files_mirror(sq, p, 8, mg);
}

// ---------------------------------------------------------------------------
// Colour symmetry of the whole evaluation
// ---------------------------------------------------------------------------
/// The square seen from the other side: same file, rank flipped.
pub open spec fn mirror_index(s: int) -> int {
    idx(s % 8, 7 - s / 8)
}

/// Pieces in range on a 64-square board.
pub open spec fn board_ok(sq: Seq<u8>) -> bool {
    &&& sq.len() == 64
    &&& forall|t: int| 0 <= t < 64 ==> #[trigger] sq[t] <= 12
}

proof fn lemma_mirror_piece(pc: u8)
    requires
        pc <= 12,
    ensures
        mirror_piece(pc) <= 12,
        (mirror_piece(pc) == EMPTY) == (pc == EMPTY),
        pc != EMPTY ==> type_spec(mirror_piece(pc)) == type_spec(pc),
        pc != EMPTY ==> color_spec(mirror_piece(pc)) == 1 - color_spec(pc),
        pc != EMPTY ==> color_spec(pc) <= 1,
        mirror_piece(mirror_piece(pc)) == pc,
{
}

proof fn lemma_mirror_index(s: int)
    requires
        0 <= s < 64,
    ensures
        0 <= mirror_index(s) < 64,
        mirror_index(s) % 8 == s % 8,
        mirror_index(s) / 8 == 7 - s / 8,
        mirror_index(mirror_index(s)) == s,
{
    assert(s == 8 * (s / 8) + s % 8);
    let t = mirror_index(s);
    assert(t == 8 * (7 - s / 8) + s % 8);
}

proof fn lemma_mirror_square(sq: Seq<u8>, s: int)
    requires
        board_ok(sq),
        0 <= s < 64,
    ensures
        mirror_squares(sq)[mirror_index(s)] == mirror_piece(sq[s]),
        mirror_squares(sq)[s] == mirror_piece(sq[mirror_index(s)]),
{
    lemma_mirror_index(s);
    lemma_mirror_at(sq, s % 8, 7 - s / 8);
    assert(idx(s % 8, 7 - (7 - s / 8)) == s) by {
        assert(s == 8 * (s / 8) + s % 8);
    }
    lemma_mirror_at(sq, s % 8, s / 8);
}

proof fn lemma_mob_step_mirror(sq: Seq<u8>, f: int, r: int, df: int, dr: int, c: u8)
    requires
        board_ok(sq),
        c <= 1,
    ensures
        mob_step(mirror_squares(sq), f, 7 - r, df, -dr, (1 - c) as u8) == mob_step(sq, f, r, df, dr, c),
{
    if on_board(f + df, r + dr) {
        lemma_mirror_at(sq, f + df, 7 - (r + dr));
        lemma_mirror_piece(sq[idx(f + df, r + dr)]);
        assert(7 - r + -dr == 7 - (r + dr));
    }
}

proof fn lemma_ray_mob_mirror(
    sq: Seq<u8>,
    f: int,
    r: int,
    df: int,
    dr: int,
    c: u8,
    fuel: nat,
)
    requires
        board_ok(sq),
        c <= 1,
    ensures
        ray_mob(mirror_squares(sq), f, 7 - r, df, -dr, (1 - c) as u8, fuel) == ray_mob(
            sq,
            f,
            r,
            df,
            dr,
            c,
            fuel,
        ),
    decreases fuel,
{
    if fuel > 0 && on_board(f, r) {
        lemma_mirror_at(sq, f, 7 - r);
        assert(7 - (7 - r) == r);
        lemma_mirror_piece(sq[idx(f, r)]);
        lemma_ray_mob_mirror(sq, f + df, r + dr, df, dr, c, (fuel - 1) as nat);
        assert(7 - r + -dr == 7 - (r + dr));
    }
}

proof fn lemma_knight_mob_step(sq: Seq<u8>, f: int, r: int, c: u8, n: int)
    requires
        n >= 0,
    ensures
        knight_mob(sq, f, r, c, n + 1) == knight_mob(sq, f, r, c, n) + mob_step(
            sq,
            f,
            r,
            knight_off(n).0,
            knight_off(n).1,
            c,
        ),
{
}

proof fn lemma_knight_mob_mirror(sq: Seq<u8>, f: int, r: int, c: u8)
    requires
        board_ok(sq),
        c <= 1,
    ensures
        knight_mob(mirror_squares(sq), f, 7 - r, (1 - c) as u8, 8) == knight_mob(sq, f, r, c, 8),
{
    let m = mirror_squares(sq);
    let c2 = (1 - c) as u8;
    lemma_knight_mob_step(sq, f, r, c, 0);
    lemma_knight_mob_step(m, f, 7 - r, c2, 0);
    lemma_knight_mob_step(sq, f, r, c, 1);
    lemma_knight_mob_step(m, f, 7 - r, c2, 1);
    lemma_knight_mob_step(sq, f, r, c, 2);
    lemma_knight_mob_step(m, f, 7 - r, c2, 2);
    lemma_knight_mob_step(sq, f, r, c, 3);
    lemma_knight_mob_step(m, f, 7 - r, c2, 3);
    lemma_knight_mob_step(sq, f, r, c, 4);
    lemma_knight_mob_step(m, f, 7 - r, c2, 4);
    lemma_knight_mob_step(sq, f, r, c, 5);
    lemma_knight_mob_step(m, f, 7 - r, c2, 5);
    lemma_knight_mob_step(sq, f, r, c, 6);
    lemma_knight_mob_step(m, f, 7 - r, c2, 6);
    lemma_knight_mob_step(sq, f, r, c, 7);
    lemma_knight_mob_step(m, f, 7 - r, c2, 7);
    assert forall|i: int| 0 <= i < 8 implies #[trigger] mob_step(
        m,
        f,
        7 - r,
        knight_off(i).0,
        knight_off(i).1,
        c2,
    ) == mob_step(sq, f, r, knight_off(i).0, -knight_off(i).1, c) by {
        lemma_mob_step_mirror(sq, f, r, knight_off(i).0, -knight_off(i).1, c);
    }
    assert(mob_step(m, f, 7 - r, knight_off(0).0, knight_off(0).1, c2) == mob_step(sq, f, r, knight_off(3).0, knight_off(3).1, c));
    assert(mob_step(m, f, 7 - r, knight_off(3).0, knight_off(3).1, c2) == mob_step(sq, f, r, knight_off(0).0, knight_off(0).1, c));
    assert(mob_step(m, f, 7 - r, knight_off(1).0, knight_off(1).1, c2) == mob_step(sq, f, r, knight_off(2).0, knight_off(2).1, c));
    assert(mob_step(m, f, 7 - r, knight_off(2).0, knight_off(2).1, c2) == mob_step(sq, f, r, knight_off(1).0, knight_off(1).1, c));
    assert(mob_step(m, f, 7 - r, knight_off(4).0, knight_off(4).1, c2) == mob_step(sq, f, r, knight_off(7).0, knight_off(7).1, c));
    assert(mob_step(m, f, 7 - r, knight_off(7).0, knight_off(7).1, c2) == mob_step(sq, f, r, knight_off(4).0, knight_off(4).1, c));
    assert(mob_step(m, f, 7 - r, knight_off(5).0, knight_off(5).1, c2) == mob_step(sq, f, r, knight_off(6).0, knight_off(6).1, c));
    assert(mob_step(m, f, 7 - r, knight_off(6).0, knight_off(6).1, c2) == mob_step(sq, f, r, knight_off(5).0, knight_off(5).1, c));
}

proof fn lemma_slider_mob_step(sq: Seq<u8>, s: int, kind: int, c: u8, n: int)
    requires
        n >= 0,
    ensures
        slider_mob(sq, s, kind, c, n + 1) == slider_mob(sq, s, kind, c, n) + ray_mob(
            sq,
            s % 8 + slider_dir(kind, n).0,
            s / 8 + slider_dir(kind, n).1,
            slider_dir(kind, n).0,
            slider_dir(kind, n).1,
            c,
            8,
        ),
{
}

proof fn lemma_dir_mirror(sq: Seq<u8>, s: int, dx: int, dy: int, c: u8)
    requires
        board_ok(sq),
        c <= 1,
        0 <= s < 64,
    ensures
        ray_mob(
            mirror_squares(sq),
            mirror_index(s) % 8 + dx,
            mirror_index(s) / 8 + dy,
            dx,
            dy,
            (1 - c) as u8,
            8,
        ) == ray_mob(sq, s % 8 + dx, s / 8 + -dy, dx, -dy, c, 8),
{
    lemma_mirror_index(s);
    lemma_ray_mob_mirror(sq, s % 8 + dx, s / 8 - dy, dx, -dy, c, 8);
    assert(7 - (s / 8 - dy) == mirror_index(s) / 8 + dy);
    assert(-(-dy) == dy);
}

proof fn lemma_slider_mob_mirror(sq: Seq<u8>, s: int, kind: int, c: u8)
    requires
        board_ok(sq),
        c <= 1,
        0 <= s < 64,
        kind == 2 || kind == 3 || kind == 4,
    ensures
        slider_mob(mirror_squares(sq), mirror_index(s), kind, (1 - c) as u8, n_dirs(kind))
            == slider_mob(sq, s, kind, c, n_dirs(kind)),
{
    let m = mirror_squares(sq);
    let ms = mirror_index(s);
    let c2 = (1 - c) as u8;
    lemma_slider_mob_step(sq, s, kind, c, 0);
    lemma_slider_mob_step(m, ms, kind, c2, 0);
    lemma_dir_mirror(sq, s, slider_dir(kind, 0).0, slider_dir(kind, 0).1, c);
    lemma_slider_mob_step(sq, s, kind, c, 1);
    lemma_slider_mob_step(m, ms, kind, c2, 1);
    lemma_dir_mirror(sq, s, slider_dir(kind, 1).0, slider_dir(kind, 1).1, c);
    lemma_slider_mob_step(sq, s, kind, c, 2);
    lemma_slider_mob_step(m, ms, kind, c2, 2);
    lemma_dir_mirror(sq, s, slider_dir(kind, 2).0, slider_dir(kind, 2).1, c);
    lemma_slider_mob_step(sq, s, kind, c, 3);
    lemma_slider_mob_step(m, ms, kind, c2, 3);
    lemma_dir_mirror(sq, s, slider_dir(kind, 3).0, slider_dir(kind, 3).1, c);
    lemma_slider_mob_step(sq, s, kind, c, 4);
    lemma_slider_mob_step(m, ms, kind, c2, 4);
    lemma_dir_mirror(sq, s, slider_dir(kind, 4).0, slider_dir(kind, 4).1, c);
    lemma_slider_mob_step(sq, s, kind, c, 5);
    lemma_slider_mob_step(m, ms, kind, c2, 5);
    lemma_dir_mirror(sq, s, slider_dir(kind, 5).0, slider_dir(kind, 5).1, c);
    lemma_slider_mob_step(sq, s, kind, c, 6);
    lemma_slider_mob_step(m, ms, kind, c2, 6);
    lemma_dir_mirror(sq, s, slider_dir(kind, 6).0, slider_dir(kind, 6).1, c);
    lemma_slider_mob_step(sq, s, kind, c, 7);
    lemma_slider_mob_step(m, ms, kind, c2, 7);
    lemma_dir_mirror(sq, s, slider_dir(kind, 7).0, slider_dir(kind, 7).1, c);
}

proof fn lemma_mobility_mirror(sq: Seq<u8>, s: int, pt: int, c: u8)
    requires
        board_ok(sq),
        c <= 1,
        0 <= s < 64,
    ensures
        mobility_spec(mirror_squares(sq), mirror_index(s), pt, (1 - c) as u8) == mobility_spec(
            sq,
            s,
            pt,
            c,
        ),
{
    lemma_mirror_index(s);
    if pt == 1 {
        lemma_knight_mob_mirror(sq, s % 8, s / 8, c);
    } else if pt == 2 || pt == 3 || pt == 4 {
        lemma_slider_mob_mirror(sq, s, pt, c);
    }
}

proof fn lemma_trunc_div_neg(a: int, d: int)
    requires
        d > 0,
    ensures
        trunc_div(-a, d) == -trunc_div(a, d),
{
}

proof fn lemma_piece_term_mirror(sq: Seq<u8>, p: EvalParams, t: Tables, s: int, mg: bool)
    requires
        board_ok(sq),
        0 <= s < 64,
    ensures
        piece_term(mirror_squares(sq), p, t, mirror_index(s), mg) == -piece_term(sq, p, t, s, mg),
{
    let m = mirror_squares(sq);
    let ms = mirror_index(s);
    let pc = sq[s];
    lemma_mirror_index(s);
    lemma_mirror_square(sq, s);
    lemma_mirror_piece(pc);
    if pc != EMPTY {
        let pt = type_spec(pc) as int;
        let c = color_spec(pc);
        let c2 = color_spec(m[ms]);
        assert(c2 == (1 - c) as u8);
        lemma_mobility_mirror(sq, s, pt, c);
        let mob = mobility_spec(sq, s, pt, c);
        let w = p.mob@[pt];
        assert(sgn(c2) * mob * w == -(sgn(c) * mob * w)) by (nonlinear_arith)
            requires
                sgn(c2) == -sgn(c),
        ;
        lemma_trunc_div_neg(sgn(c) * mob * w, 2);
        assert(rel_rank(c2, ms / 8) == rel_rank(c, s / 8));
        assert(mob_term(m, p, ms) == -mob_term(sq, p, s));
        let pst = if mg {
            tab(t.mg, pt, rel_rank(c, s / 8), s % 8)
        } else {
            tab(t.eg, pt, rel_rank(c, s / 8), s % 8)
        };
        let x = piece_value(pt) + pst;
        assert(sgn(c2) * x == -(sgn(c) * x)) by (nonlinear_arith)
            requires
                sgn(c2) == -sgn(c),
        ;
    }
}

/// The sum of `g` over `0..n`.
pub open spec fn sum_to(g: spec_fn(int) -> int, n: int) -> int
    decreases n,
{
    if n <= 0 {
        0
    } else {
        sum_to(g, n - 1) + g(n - 1)
    }
}

proof fn lemma_sum_neg(a: spec_fn(int) -> int, b: spec_fn(int) -> int, n: int)
    requires
        forall|s: int| 0 <= s < n ==> #[trigger] a(s) == -b(s),
    ensures
        sum_to(a, n) == -sum_to(b, n),
    decreases n,
{
    if n > 0 {
        lemma_sum_neg(a, b, n - 1);
    }
}

proof fn lemma_sum_same(a: spec_fn(int) -> int, b: spec_fn(int) -> int, n: int)
    requires
        forall|s: int| 0 <= s < n ==> #[trigger] a(s) == b(s),
    ensures
        sum_to(a, n) == sum_to(b, n),
    decreases n,
{
    if n > 0 {
        lemma_sum_same(a, b, n - 1);
    }
}

proof fn lemma_sum_block(g: spec_fn(int) -> int, r: int)
    requires
        r >= 0,
    ensures
        sum_to(g, 8 * r + 8) - sum_to(g, 8 * r) == g(8 * r + 0) + g(8 * r + 1) + g(8 * r + 2) + g(8 * r + 3) + g(8 * r + 4) + g(8 * r + 5) + g(8 * r + 6) + g(8 * r + 7),
{
    assert(sum_to(g, 8 * r + 1) == sum_to(g, 8 * r + 0) + g(8 * r + 0));
    assert(sum_to(g, 8 * r + 2) == sum_to(g, 8 * r + 1) + g(8 * r + 1));
    assert(sum_to(g, 8 * r + 3) == sum_to(g, 8 * r + 2) + g(8 * r + 2));
    assert(sum_to(g, 8 * r + 4) == sum_to(g, 8 * r + 3) + g(8 * r + 3));
    assert(sum_to(g, 8 * r + 5) == sum_to(g, 8 * r + 4) + g(8 * r + 4));
    assert(sum_to(g, 8 * r + 6) == sum_to(g, 8 * r + 5) + g(8 * r + 5));
    assert(sum_to(g, 8 * r + 7) == sum_to(g, 8 * r + 6) + g(8 * r + 6));
    assert(sum_to(g, 8 * r + 8) == sum_to(g, 8 * r + 7) + g(8 * r + 7));
}

proof fn lemma_block_mirror(g: spec_fn(int) -> int, r: int)
    requires
        0 <= r < 8,
    ensures
        ({
            let h = |s: int| g(mirror_index(s));
            sum_to(h, 8 * r + 8) - sum_to(h, 8 * r) == sum_to(g, 8 * (7 - r) + 8) - sum_to(
                g,
                8 * (7 - r),
            )
        }),
{
    let h = |s: int| g(mirror_index(s));
    lemma_sum_block(h, r);
    lemma_sum_block(g, 7 - r);
    assert forall|f: int| 0 <= f < 8 implies #[trigger] mirror_index(8 * r + f) == 8 * (7 - r) + f by {
        let x = 8 * r + f;
        assert(x / 8 == r && x % 8 == f);
    }
    assert(h(8 * r + 0) == g(8 * (7 - r) + 0)) by {
        assert(mirror_index(8 * r + 0) == 8 * (7 - r) + 0);
    }
    assert(h(8 * r + 1) == g(8 * (7 - r) + 1)) by {
        assert(mirror_index(8 * r + 1) == 8 * (7 - r) + 1);
    }
    assert(h(8 * r + 2) == g(8 * (7 - r) + 2)) by {
        assert(mirror_index(8 * r + 2) == 8 * (7 - r) + 2);
    }
    assert(h(8 * r + 3) == g(8 * (7 - r) + 3)) by {
        assert(mirror_index(8 * r + 3) == 8 * (7 - r) + 3);
    }
    assert(h(8 * r + 4) == g(8 * (7 - r) + 4)) by {
        assert(mirror_index(8 * r + 4) == 8 * (7 - r) + 4);
    }
    assert(h(8 * r + 5) == g(8 * (7 - r) + 5)) by {
        assert(mirror_index(8 * r + 5) == 8 * (7 - r) + 5);
    }
    assert(h(8 * r + 6) == g(8 * (7 - r) + 6)) by {
        assert(mirror_index(8 * r + 6) == 8 * (7 - r) + 6);
    }
    assert(h(8 * r + 7) == g(8 * (7 - r) + 7)) by {
        assert(mirror_index(8 * r + 7) == 8 * (7 - r) + 7);
    }
}

/// Summing over the board seen from the other side sums the same squares.
proof fn lemma_sum_mirror(g: spec_fn(int) -> int)
    ensures
        sum_to(|s: int| g(mirror_index(s)), 64) == sum_to(g, 64),
{
    let h = |s: int| g(mirror_index(s));
    lemma_block_mirror(g, 0);
    lemma_block_mirror(g, 1);
    lemma_block_mirror(g, 2);
    lemma_block_mirror(g, 3);
    lemma_block_mirror(g, 4);
    lemma_block_mirror(g, 5);
    lemma_block_mirror(g, 6);
    lemma_block_mirror(g, 7);
    assert(sum_to(h, 0) == 0 && sum_to(g, 0) == 0);
}

proof fn lemma_piece_sum_is(sq: Seq<u8>, p: EvalParams, t: Tables, n: int, mg: bool)
    ensures
        piece_sum(sq, p, t, n, mg) == sum_to(|s: int| piece_term(sq, p, t, s, mg), n),
    decreases n,
{
    if n > 0 {
        lemma_piece_sum_is(sq, p, t, n - 1, mg);
    }
}

proof fn lemma_rook_sum_is(sq: Seq<u8>, p: EvalParams, n: int)
    ensures
        rook_sum(sq, p, n) == sum_to(|s: int| rook_term(sq, p, s), n),
    decreases n,
{
    if n > 0 {
        lemma_rook_sum_is(sq, p, n - 1);
    }
}

proof fn lemma_count_piece_is(sq: Seq<u8>, pc: u8, n: int)
    ensures
        count_piece(sq, pc, n) == sum_to(|s: int| if sq[s] == pc { 1int } else { 0int }, n),
    decreases n,
{
    if n > 0 {
        lemma_count_piece_is(sq, pc, n - 1);
    }
}

proof fn lemma_phase_sum_is(sq: Seq<u8>, n: int)
    ensures
        phase_sum(sq, n) == sum_to(
            |s: int|
                if sq[s] == EMPTY {
                    0int
                } else {
                    phase_weight(type_spec(sq[s]) as int)
                },
            n,
        ),
    decreases n,
{
    if n > 0 {
        lemma_phase_sum_is(sq, n - 1);
    }
}

/// The piece terms (material, tables, mobility) negate on the mirrored board.
proof fn lemma_piece_sum_mirror(sq: Seq<u8>, p: EvalParams, t: Tables, mg: bool)
    requires
        board_ok(sq),
    ensures
        piece_sum(mirror_squares(sq), p, t, 64, mg) == -piece_sum(sq, p, t, 64, mg),
{
    let m = mirror_squares(sq);
    let gm = |s: int| piece_term(m, p, t, s, mg);
    let gs = |s: int| piece_term(sq, p, t, s, mg);
    lemma_piece_sum_is(m, p, t, 64, mg);
    lemma_piece_sum_is(sq, p, t, 64, mg);
    lemma_sum_mirror(gm);
    let hm = |x: int| gm(mirror_index(x));
    assert forall|s: int| 0 <= s < 64 implies #[trigger] hm(s) == -gs(s) by {
        lemma_piece_term_mirror(sq, p, t, s, mg);
    }
    lemma_sum_neg(hm, gs, 64);
}

/// The number of pieces of one kind equals, on the mirrored board, that of
/// the same kind in the other colour.
proof fn lemma_count_piece_mirror(sq: Seq<u8>, pc: u8)
    requires
        board_ok(sq),
        1 <= pc <= 12,
    ensures
        count_piece(mirror_squares(sq), mirror_piece(pc), 64) == count_piece(sq, pc, 64),
{
    let m = mirror_squares(sq);
    let q = mirror_piece(pc);
    let gm = |s: int| if m[s] == q { 1int } else { 0int };
    let gs = |s: int| if sq[s] == pc { 1int } else { 0int };
    lemma_count_piece_is(m, q, 64);
    lemma_count_piece_is(sq, pc, 64);
    lemma_sum_mirror(gm);
    let hm = |x: int| gm(mirror_index(x));
    assert forall|s: int| 0 <= s < 64 implies #[trigger] hm(s) == gs(s) by {
        lemma_mirror_square(sq, s);
        lemma_mirror_piece(sq[s]);
        lemma_mirror_piece(pc);
    }
    lemma_sum_same(hm, gs, 64);
}

proof fn lemma_phase_sum_mirror(sq: Seq<u8>)
    requires
        board_ok(sq),
    ensures
        phase_sum(mirror_squares(sq), 64) == phase_sum(sq, 64),
{
    let m = mirror_squares(sq);
    let gm = |s: int|
        if m[s] == EMPTY {
            0int
        } else {
            phase_weight(type_spec(m[s]) as int)
        };
    let gs = |s: int|
        if sq[s] == EMPTY {
            0int
        } else {
            phase_weight(type_spec(sq[s]) as int)
        };
    lemma_phase_sum_is(m, 64);
    lemma_phase_sum_is(sq, 64);
    lemma_sum_mirror(gm);
    let hm = |x: int| gm(mirror_index(x));
    assert forall|s: int| 0 <= s < 64 implies #[trigger] hm(s) == gs(s) by {
        lemma_mirror_square(sq, s);
        lemma_mirror_piece(sq[s]);
    }
    lemma_sum_same(hm, gs, 64);
}

proof fn lemma_file_pawns_eight(x: Seq<u8>, f: int, pc: u8)
    ensures
        file_pawns(x, f, pc, 8) == (if x[idx(f, 0)] == pc { 1int } else { 0int }) + (if x[idx(f, 1)] == pc { 1int } else { 0int }) + (if x[idx(f, 2)] == pc { 1int } else { 0int }) + (if x[idx(f, 3)] == pc { 1int } else { 0int }) + (if x[idx(f, 4)] == pc { 1int } else { 0int }) + (if x[idx(f, 5)] == pc { 1int } else { 0int }) + (if x[idx(f, 6)] == pc { 1int } else { 0int }) + (if x[idx(f, 7)] == pc { 1int } else { 0int }),
{
    assert(file_pawns(x, f, pc, 1) == file_pawns(x, f, pc, 0) + (if x[idx(f, 0)] == pc { 1int } else { 0int }));
    assert(file_pawns(x, f, pc, 2) == file_pawns(x, f, pc, 1) + (if x[idx(f, 1)] == pc { 1int } else { 0int }));
    assert(file_pawns(x, f, pc, 3) == file_pawns(x, f, pc, 2) + (if x[idx(f, 2)] == pc { 1int } else { 0int }));
    assert(file_pawns(x, f, pc, 4) == file_pawns(x, f, pc, 3) + (if x[idx(f, 3)] == pc { 1int } else { 0int }));
    assert(file_pawns(x, f, pc, 5) == file_pawns(x, f, pc, 4) + (if x[idx(f, 4)] == pc { 1int } else { 0int }));
    assert(file_pawns(x, f, pc, 6) == file_pawns(x, f, pc, 5) + (if x[idx(f, 5)] == pc { 1int } else { 0int }));
    assert(file_pawns(x, f, pc, 7) == file_pawns(x, f, pc, 6) + (if x[idx(f, 6)] == pc { 1int } else { 0int }));
    assert(file_pawns(x, f, pc, 8) == file_pawns(x, f, pc, 7) + (if x[idx(f, 7)] == pc { 1int } else { 0int }));
}

proof fn lemma_file_pawns_mirror(sq: Seq<u8>, f: int, pc: u8)
    requires
        board_ok(sq),
        0 <= f < 8,
        1 <= pc <= 12,
    ensures
        file_pawns(mirror_squares(sq), f, mirror_piece(pc), 8) == file_pawns(sq, f, pc, 8),
{
    let m = mirror_squares(sq);
    lemma_file_pawns_eight(m, f, mirror_piece(pc));
    lemma_file_pawns_eight(sq, f, pc);
    lemma_mirror_piece(pc);
    lemma_mirror_at(sq, f, 0);
    lemma_mirror_piece(sq[idx(f, 7)]);
    lemma_mirror_at(sq, f, 1);
    lemma_mirror_piece(sq[idx(f, 6)]);
    lemma_mirror_at(sq, f, 2);
    lemma_mirror_piece(sq[idx(f, 5)]);
    lemma_mirror_at(sq, f, 3);
    lemma_mirror_piece(sq[idx(f, 4)]);
    lemma_mirror_at(sq, f, 4);
    lemma_mirror_piece(sq[idx(f, 3)]);
    lemma_mirror_at(sq, f, 5);
    lemma_mirror_piece(sq[idx(f, 2)]);
    lemma_mirror_at(sq, f, 6);
    lemma_mirror_piece(sq[idx(f, 1)]);
    lemma_mirror_at(sq, f, 7);
    lemma_mirror_piece(sq[idx(f, 0)]);
}

proof fn lemma_has_file_pawn_mirror(sq: Seq<u8>, f: int, pc: u8)
    requires
        board_ok(sq),
        1 <= pc <= 12,
    ensures
        has_file_pawn(mirror_squares(sq), f, mirror_piece(pc)) == has_file_pawn(sq, f, pc),
{
    if 0 <= f < 8 {
        lemma_file_pawns_mirror(sq, f, pc);
    }
}

proof fn lemma_struct_term_mirror(sq: Seq<u8>, p: EvalParams, f: int, mg: bool)
    requires
        board_ok(sq),
        0 <= f < 8,
    ensures
        struct_term(mirror_squares(sq), p, f, mg) == -struct_term(sq, p, f, mg),
{
    assert(mirror_piece(WP) == BP && mirror_piece(BP) == WP);
    lemma_file_pawns_mirror(sq, f, WP);
    lemma_file_pawns_mirror(sq, f, BP);
    lemma_has_file_pawn_mirror(sq, f - 1, WP);
    lemma_has_file_pawn_mirror(sq, f - 1, BP);
    lemma_has_file_pawn_mirror(sq, f + 1, WP);
    lemma_has_file_pawn_mirror(sq, f + 1, BP);
}

proof fn lemma_struct_sum_mirror(sq: Seq<u8>, p: EvalParams, n: int, mg: bool)
    requires
        board_ok(sq),
        0 <= n <= 8,
    ensures
        struct_sum(mirror_squares(sq), p, n, mg) == -struct_sum(sq, p, n, mg),
    decreases n,
{
    if n > 0 {
        lemma_struct_sum_mirror(sq, p, n - 1, mg);
        lemma_struct_term_mirror(sq, p, n - 1, mg);
    }
}

proof fn lemma_rook_term_mirror(sq: Seq<u8>, p: EvalParams, s: int)
    requires
        board_ok(sq),
        0 <= s < 64,
    ensures
        rook_term(mirror_squares(sq), p, mirror_index(s)) == -rook_term(sq, p, s),
{
    let m = mirror_squares(sq);
    lemma_mirror_index(s);
    lemma_mirror_square(sq, s);
    lemma_mirror_piece(sq[s]);
    assert(mirror_piece(WP) == BP && mirror_piece(BP) == WP);
    lemma_file_pawns_mirror(sq, s % 8, WP);
    lemma_file_pawns_mirror(sq, s % 8, BP);
}

proof fn lemma_rook_sum_mirror(sq: Seq<u8>, p: EvalParams)
    requires
        board_ok(sq),
    ensures
        rook_sum(mirror_squares(sq), p, 64) == -rook_sum(sq, p, 64),
{
    let m = mirror_squares(sq);
    let gm = |s: int| rook_term(m, p, s);
    let gs = |s: int| rook_term(sq, p, s);
    lemma_rook_sum_is(m, p, 64);
    lemma_rook_sum_is(sq, p, 64);
    lemma_sum_mirror(gm);
    let hm = |x: int| gm(mirror_index(x));
    assert forall|s: int| 0 <= s < 64 implies #[trigger] hm(s) == -gs(s) by {
        lemma_rook_term_mirror(sq, p, s);
    }
    lemma_sum_neg(hm, gs, 64);
}

proof fn lemma_pair_term_mirror(sq: Seq<u8>, bonus: i32)
    requires
        board_ok(sq),
    ensures
        pair_term(mirror_squares(sq), bonus) == -pair_term(sq, bonus),
{
    lemma_count_piece_mirror(sq, crate::chess::WB);
    lemma_count_piece_mirror(sq, crate::chess::BB);
    assert(mirror_piece(crate::chess::WB) == crate::chess::BB);
    assert(mirror_piece(crate::chess::BB) == crate::chess::WB);
}

/// Exactly one piece `pc` stands on the board.
pub open spec fn one_piece(sq: Seq<u8>, pc: u8) -> bool {
    exists|s: int|
        0 <= s < 64 && #[trigger] sq[s] == pc && forall|t: int| 0 <= t < 64 && sq[t] == pc ==> t == s
}

proof fn lemma_last_square_unique(sq: Seq<u8>, pc: u8, n: int, s0: int)
    requires
        0 <= s0 < n <= 64,
        sq[s0] == pc,
        forall|t: int| 0 <= t < 64 && sq[t] == pc ==> t == s0,
    ensures
        last_square(sq, pc, n) == s0,
    decreases n,
{
    if sq[n - 1] != pc {
        lemma_last_square_unique(sq, pc, n - 1, s0);
    }
}

proof fn lemma_shield_pawn_mirror(sq: Seq<u8>, f: int, r: int, c: u8)
    requires
        board_ok(sq),
        c <= 1,
    ensures
        shield_pawn(mirror_squares(sq), f, 7 - r, (1 - c) as u8) == shield_pawn(sq, f, r, c),
{
    if on_board(f, r) {
        lemma_mirror_at(sq, f, 7 - r);
        assert(7 - (7 - r) == r);
        lemma_mirror_piece(sq[idx(f, r)]);
    }
}

proof fn lemma_shield_mirror(sq: Seq<u8>, p: EvalParams, c: u8)
    requires
        board_ok(sq),
        c <= 1,
        one_piece(sq, if c == WHITE { crate::chess::WK } else { crate::chess::BK }),
    ensures
        shield_term(mirror_squares(sq), p, (1 - c) as u8) == -shield_term(sq, p, c),
{
    let m = mirror_squares(sq);
    let pc = if c == WHITE { crate::chess::WK } else { crate::chess::BK };
    let q = mirror_piece(pc);
    let s0 = choose|s: int|
        0 <= s < 64 && #[trigger] sq[s] == pc && forall|t: int| 0 <= t < 64 && sq[t] == pc ==> t == s;
    lemma_last_square_unique(sq, pc, 64, s0);
    let k = mirror_index(s0);
    lemma_mirror_index(s0);
    lemma_mirror_square(sq, s0);
    assert forall|t: int| 0 <= t < 64 && m[t] == q implies t == k by {
        lemma_mirror_square(sq, t);
        lemma_mirror_index(t);
        lemma_mirror_piece(sq[mirror_index(t)]);
        lemma_mirror_piece(pc);
        assert(sq[mirror_index(t)] == pc);
    }
    lemma_last_square_unique(m, q, 64, k);
    let kf = s0 % 8;
    let kr = s0 / 8;
    let ahead: int = if c == WHITE { 1 } else { -1 };
    lemma_shield_pawn_mirror(sq, kf - 1, kr + ahead, c);
    lemma_shield_pawn_mirror(sq, kf, kr + ahead, c);
    lemma_shield_pawn_mirror(sq, kf + 1, kr + ahead, c);
    assert(7 - (kr + ahead) == k / 8 - ahead);
}

/// The position seen from the other side: ranks flipped, colours, side to
/// move, castling rights, en-passant square and king squares swapped.
pub open spec fn mirror_pos(b: crate::chess::Pos) -> crate::chess::Pos {
    crate::chess::Pos {
        sq: mirror_squares(b.sq),
        side: (1 - b.side) as u8,
        castling: ((b.castling % 4) * 4 + (b.castling / 4) % 4) as u8,
        ep: if b.ep < 64 {
            mirror_index(b.ep as int) as u8
        } else {
            b.ep
        },
        half: b.half,
        full: b.full,
        king: seq![mirror_index(b.king[1] as int) as u8, mirror_index(b.king[0] as int) as u8],
    }
}

/// The evaluation is colour-symmetric: the position seen from the other
/// side (ranks flipped, colours and side to move swapped) scores exactly
/// the negation, for any weights and tables; so every term treats a black
/// piece on rank `r` as a white one on rank `7 - r`.
pub proof fn lemma_eval_mirror(b: crate::chess::Pos, e: EvalParams, t: Tables)
    requires
        board_ok(b.sq),
        b.side <= 1,
        one_piece(b.sq, crate::chess::WK),
        one_piece(b.sq, crate::chess::BK),
    ensures
        eval_spec(mirror_pos(b), e, t) == -eval_spec(b, e, t),
{
    let sq = b.sq;
    let m = mirror_squares(sq);
    lemma_piece_sum_mirror(sq, e, t, true);
    lemma_piece_sum_mirror(sq, e, t, false);
    lemma_struct_sum_mirror(sq, e, 8, true);
    lemma_struct_sum_mirror(sq, e, 8, false);
    lemma_passed_bonus_mirror(sq, e, true);
    lemma_passed_bonus_mirror(sq, e, false);
    lemma_pair_term_mirror(sq, e.bishop_pair_mg);
    lemma_pair_term_mirror(sq, e.bishop_pair_eg);
    lemma_rook_sum_mirror(sq, e);
    lemma_shield_mirror(sq, e, WHITE);
    lemma_shield_mirror(sq, e, BLACK);
    lemma_phase_sum_mirror(sq);
    let mg = piece_sum(sq, e, t, 64, true) + struct_sum(sq, e, 8, true) + passed_sum(sq, e, 64, true)
        + pair_term(sq, e.bishop_pair_mg) + rook_sum(sq, e, 64) + shield_term(sq, e, WHITE)
        + shield_term(sq, e, BLACK);
    let eg = piece_sum(sq, e, t, 64, false) + struct_sum(sq, e, 8, false) + passed_sum(
        sq,
        e,
        64,
        false,
    ) + pair_term(sq, e.bishop_pair_eg);
    let ph = mini(phase_sum(sq, 64), 24);
    let x = mg * ph + eg * (24 - ph);
    assert((-mg) * ph + (-eg) * (24 - ph) == -x) by (nonlinear_arith)
        requires
            x == mg * ph + eg * (24 - ph),
    ;
    lemma_trunc_div_neg(x, 24);
}

} // verus!
