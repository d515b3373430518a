//! Named access to the evaluation weights, as used by tuning and by the
//! weights file format.
use vstd::prelude::*;
use crate::eval::EvalParams;
use crate::text::chars_of;
use crate::fen::{no_ws, is_ws};

verus! {

/// Number of named weights.
pub const N_NAMES: usize = 39;

/// The name of weight `i`.
pub open spec fn param_name(i: int) -> Seq<char> {
    if i == 0 {
        "pawn_adv_sq_mg"@
    } else if i == 1 {
        "pawn_adv_sq_eg"@
    } else if i == 2 {
        "pawn_center"@
    } else if i == 3 {
        "pawn_base"@
    } else if i == 4 {
        "knight_base_mg"@
    } else if i == 5 {
        "knight_slope_mg"@
    } else if i == 6 {
        "knight_base_eg"@
    } else if i == 7 {
        "knight_slope_eg"@
    } else if i == 8 {
        "bishop_base_mg"@
    } else if i == 9 {
        "bishop_slope_mg"@
    } else if i == 10 {
        "bishop_base_eg"@
    } else if i == 11 {
        "bishop_slope_eg"@
    } else if i == 12 {
        "rook_seventh"@
    } else if i == 13 {
        "rook_center_mg"@
    } else if i == 14 {
        "rook_center_eg"@
    } else if i == 15 {
        "queen_base_mg"@
    } else if i == 16 {
        "queen_base_eg"@
    } else if i == 17 {
        "king_base_mg"@
    } else if i == 18 {
        "king_slope_mg"@
    } else if i == 19 {
        "king_base_eg"@
    } else if i == 20 {
        "king_slope_eg"@
    } else if i == 21 {
        "mob_n"@
    } else if i == 22 {
        "mob_b"@
    } else if i == 23 {
        "mob_r"@
    } else if i == 24 {
        "mob_q"@
    } else if i == 25 {
        "doubled_mg"@
    } else if i == 26 {
        "doubled_eg"@
    } else if i == 27 {
        "isolated_mg"@
    } else if i == 28 {
        "isolated_eg"@
    } else if i == 29 {
        "passed_base_mg"@
    } else if i == 30 {
        "passed_adv_mg"@
    } else if i == 31 {
        "passed_base_eg"@
    } else if i == 32 {
        "passed_adv_eg"@
    } else if i == 33 {
        "bishop_pair_mg"@
    } else if i == 34 {
        "bishop_pair_eg"@
    } else if i == 35 {
        "rook_open"@
    } else if i == 36 {
        "rook_half"@
    } else if i == 37 {
        "shield"@
    } else {
        "tempo"@
    }
}

/// Weight `i` of `p`: the named weights 0..39, then the unnamed mobility
/// weights of pawns (39) and kings (40).
pub open spec fn param_get(p: EvalParams, i: int) -> i32 {
    if i == 0 {
        p.pawn_adv_sq_mg
    } else if i == 1 {
        p.pawn_adv_sq_eg
    } else if i == 2 {
        p.pawn_center
    } else if i == 3 {
        p.pawn_base
    } else if i == 4 {
        p.knight_base_mg
    } else if i == 5 {
        p.knight_slope_mg
    } else if i == 6 {
        p.knight_base_eg
    } else if i == 7 {
        p.knight_slope_eg
    } else if i == 8 {
        p.bishop_base_mg
    } else if i == 9 {
        p.bishop_slope_mg
    } else if i == 10 {
        p.bishop_base_eg
    } else if i == 11 {
        p.bishop_slope_eg
    } else if i == 12 {
        p.rook_seventh
    } else if i == 13 {
        p.rook_center_mg
    } else if i == 14 {
        p.rook_center_eg
    } else if i == 15 {
        p.queen_base_mg
    } else if i == 16 {
        p.queen_base_eg
    } else if i == 17 {
        p.king_base_mg
    } else if i == 18 {
        p.king_slope_mg
    } else if i == 19 {
        p.king_base_eg
    } else if i == 20 {
        p.king_slope_eg
    } else if i == 21 {
        p.mob@[1]
    } else if i == 22 {
        p.mob@[2]
    } else if i == 23 {
        p.mob@[3]
    } else if i == 24 {
        p.mob@[4]
    } else if i == 25 {
        p.doubled_mg
    } else if i == 26 {
        p.doubled_eg
    } else if i == 27 {
        p.isolated_mg
    } else if i == 28 {
        p.isolated_eg
    } else if i == 29 {
        p.passed_base_mg
    } else if i == 30 {
        p.passed_adv_mg
    } else if i == 31 {
        p.passed_base_eg
    } else if i == 32 {
        p.passed_adv_eg
    } else if i == 33 {
        p.bishop_pair_mg
    } else if i == 34 {
        p.bishop_pair_eg
    } else if i == 35 {
        p.rook_open
    } else if i == 36 {
        p.rook_half
    } else if i == 37 {
        p.shield
    } else if i == 38 {
        p.tempo
    } else if i == 39 {
        p.mob@[0]
    } else {
        p.mob@[5]
    }
}

/// `q` is `p` with weight `i` set to `v` and every other weight kept.
pub open spec fn param_set_spec(p: EvalParams, q: EvalParams, i: int, v: i32) -> bool {
    forall|j: int| 0 <= j < 41 ==> #[trigger] param_get(q, j) == if j == i {
        v
    } else {
        param_get(p, j)
    }
}

/// The name of weight `i`.
pub fn name_of(i: usize) -> (s: &'static str)
    requires
        i < N_NAMES,
    ensures
        s@ == param_name(i as int),
{
    if i == 0 {
        "pawn_adv_sq_mg"
    } else if i == 1 {
        "pawn_adv_sq_eg"
    } else if i == 2 {
        "pawn_center"
    } else if i == 3 {
        "pawn_base"
    } else if i == 4 {
        "knight_base_mg"
    } else if i == 5 {
        "knight_slope_mg"
    } else if i == 6 {
        "knight_base_eg"
    } else if i == 7 {
        "knight_slope_eg"
    } else if i == 8 {
        "bishop_base_mg"
    } else if i == 9 {
        "bishop_slope_mg"
    } else if i == 10 {
        "bishop_base_eg"
    } else if i == 11 {
        "bishop_slope_eg"
    } else if i == 12 {
        "rook_seventh"
    } else if i == 13 {
        "rook_center_mg"
    } else if i == 14 {
        "rook_center_eg"
    } else if i == 15 {
        "queen_base_mg"
    } else if i == 16 {
        "queen_base_eg"
    } else if i == 17 {
        "king_base_mg"
    } else if i == 18 {
        "king_slope_mg"
    } else if i == 19 {
        "king_base_eg"
    } else if i == 20 {
        "king_slope_eg"
    } else if i == 21 {
        "mob_n"
    } else if i == 22 {
        "mob_b"
    } else if i == 23 {
        "mob_r"
    } else if i == 24 {
        "mob_q"
    } else if i == 25 {
        "doubled_mg"
    } else if i == 26 {
        "doubled_eg"
    } else if i == 27 {
        "isolated_mg"
    } else if i == 28 {
        "isolated_eg"
    } else if i == 29 {
        "passed_base_mg"
    } else if i == 30 {
        "passed_adv_mg"
    } else if i == 31 {
        "passed_base_eg"
    } else if i == 32 {
        "passed_adv_eg"
    } else if i == 33 {
        "bishop_pair_mg"
    } else if i == 34 {
        "bishop_pair_eg"
    } else if i == 35 {
        "rook_open"
    } else if i == 36 {
        "rook_half"
    } else if i == 37 {
        "shield"
    } else {
        "tempo"
    }
}

/// Weight `i` of `p`.
pub fn get(p: &EvalParams, i: usize) -> (v: i32)
    requires
        i < N_NAMES,
    ensures
        v == param_get(*p, i as int),
{
    if i == 0 {
        p.pawn_adv_sq_mg
    } else if i == 1 {
        p.pawn_adv_sq_eg
    } else if i == 2 {
        p.pawn_center
    } else if i == 3 {
        p.pawn_base
    } else if i == 4 {
        p.knight_base_mg
    } else if i == 5 {
        p.knight_slope_mg
    } else if i == 6 {
        p.knight_base_eg
    } else if i == 7 {
        p.knight_slope_eg
    } else if i == 8 {
        p.bishop_base_mg
    } else if i == 9 {
        p.bishop_slope_mg
    } else if i == 10 {
        p.bishop_base_eg
    } else if i == 11 {
        p.bishop_slope_eg
    } else if i == 12 {
        p.rook_seventh
    } else if i == 13 {
        p.rook_center_mg
    } else if i == 14 {
        p.rook_center_eg
    } else if i == 15 {
        p.queen_base_mg
    } else if i == 16 {
        p.queen_base_eg
    } else if i == 17 {
        p.king_base_mg
    } else if i == 18 {
        p.king_slope_mg
    } else if i == 19 {
        p.king_base_eg
    } else if i == 20 {
        p.king_slope_eg
    } else if i == 21 {
        p.mob[1]
    } else if i == 22 {
        p.mob[2]
    } else if i == 23 {
        p.mob[3]
    } else if i == 24 {
        p.mob[4]
    } else if i == 25 {
        p.doubled_mg
    } else if i == 26 {
        p.doubled_eg
    } else if i == 27 {
        p.isolated_mg
    } else if i == 28 {
        p.isolated_eg
    } else if i == 29 {
        p.passed_base_mg
    } else if i == 30 {
        p.passed_adv_mg
    } else if i == 31 {
        p.passed_base_eg
    } else if i == 32 {
        p.passed_adv_eg
    } else if i == 33 {
        p.bishop_pair_mg
    } else if i == 34 {
        p.bishop_pair_eg
    } else if i == 35 {
        p.rook_open
    } else if i == 36 {
        p.rook_half
    } else if i == 37 {
        p.shield
    } else {
        p.tempo
    }
}

/// `p` with weight `i` (a named one) set to `v`.
pub open spec fn param_set(p: EvalParams, i: int, v: i32) -> EvalParams {
    if i == 0 {
        EvalParams { pawn_adv_sq_mg: v, ..p }
    } else if i == 1 {
        EvalParams { pawn_adv_sq_eg: v, ..p }
    } else if i == 2 {
        EvalParams { pawn_center: v, ..p }
    } else if i == 3 {
        EvalParams { pawn_base: v, ..p }
    } else if i == 4 {
        EvalParams { knight_base_mg: v, ..p }
    } else if i == 5 {
        EvalParams { knight_slope_mg: v, ..p }
    } else if i == 6 {
        EvalParams { knight_base_eg: v, ..p }
    } else if i == 7 {
        EvalParams { knight_slope_eg: v, ..p }
    } else if i == 8 {
        EvalParams { bishop_base_mg: v, ..p }
    } else if i == 9 {
        EvalParams { bishop_slope_mg: v, ..p }
    } else if i == 10 {
        EvalParams { bishop_base_eg: v, ..p }
    } else if i == 11 {
        EvalParams { bishop_slope_eg: v, ..p }
    } else if i == 12 {
        EvalParams { rook_seventh: v, ..p }
    } else if i == 13 {
        EvalParams { rook_center_mg: v, ..p }
    } else if i == 14 {
        EvalParams { rook_center_eg: v, ..p }
    } else if i == 15 {
        EvalParams { queen_base_mg: v, ..p }
    } else if i == 16 {
        EvalParams { queen_base_eg: v, ..p }
    } else if i == 17 {
        EvalParams { king_base_mg: v, ..p }
    } else if i == 18 {
        EvalParams { king_slope_mg: v, ..p }
    } else if i == 19 {
        EvalParams { king_base_eg: v, ..p }
    } else if i == 20 {
        EvalParams { king_slope_eg: v, ..p }
    } else if i == 21 {
        EvalParams { mob: vstd::array::spec_array_update(p.mob, 1, v), ..p }
    } else if i == 22 {
        EvalParams { mob: vstd::array::spec_array_update(p.mob, 2, v), ..p }
    } else if i == 23 {
        EvalParams { mob: vstd::array::spec_array_update(p.mob, 3, v), ..p }
    } else if i == 24 {
        EvalParams { mob: vstd::array::spec_array_update(p.mob, 4, v), ..p }
    } else if i == 25 {
        EvalParams { doubled_mg: v, ..p }
    } else if i == 26 {
        EvalParams { doubled_eg: v, ..p }
    } else if i == 27 {
        EvalParams { isolated_mg: v, ..p }
    } else if i == 28 {
        EvalParams { isolated_eg: v, ..p }
    } else if i == 29 {
        EvalParams { passed_base_mg: v, ..p }
    } else if i == 30 {
        EvalParams { passed_adv_mg: v, ..p }
    } else if i == 31 {
        EvalParams { passed_base_eg: v, ..p }
    } else if i == 32 {
        EvalParams { passed_adv_eg: v, ..p }
    } else if i == 33 {
        EvalParams { bishop_pair_mg: v, ..p }
    } else if i == 34 {
        EvalParams { bishop_pair_eg: v, ..p }
    } else if i == 35 {
        EvalParams { rook_open: v, ..p }
    } else if i == 36 {
        EvalParams { rook_half: v, ..p }
    } else if i == 37 {
        EvalParams { shield: v, ..p }
    } else {
        EvalParams { tempo: v, ..p }
    }
}

/// The first weight called `name` from index `i` on.
pub open spec fn first_name_from(name: Seq<char>, i: int) -> Option<int>
    decreases 39 - i,
{
    if i >= 39 || i < 0 {
        None
    } else if param_name(i) == name {
        Some(i)
    } else {
        first_name_from(name, i + 1)
    }
}

/// The weight called `name`, if any.
pub open spec fn name_index(name: Seq<char>) -> Option<int> {
    first_name_from(name, 0)
}

/// Sets weight `i` of `p` to `v`.
pub fn set(p: &mut EvalParams, i: usize, v: i32)
    requires
        i < N_NAMES,
    ensures
        param_set_spec(*old(p), *final(p), i as int, v),
        *final(p) == param_set(*old(p), i as int, v),
{
    let ghost p0 = *p;
    if i == 0 {
        p.pawn_adv_sq_mg = v;
    } else if i == 1 {
        p.pawn_adv_sq_eg = v;
    } else if i == 2 {
        p.pawn_center = v;
    } else if i == 3 {
        p.pawn_base = v;
    } else if i == 4 {
        p.knight_base_mg = v;
    } else if i == 5 {
        p.knight_slope_mg = v;
    } else if i == 6 {
        p.knight_base_eg = v;
    } else if i == 7 {
        p.knight_slope_eg = v;
    } else if i == 8 {
        p.bishop_base_mg = v;
    } else if i == 9 {
        p.bishop_slope_mg = v;
    } else if i == 10 {
        p.bishop_base_eg = v;
    } else if i == 11 {
        p.bishop_slope_eg = v;
    } else if i == 12 {
        p.rook_seventh = v;
    } else if i == 13 {
        p.rook_center_mg = v;
    } else if i == 14 {
        p.rook_center_eg = v;
    } else if i == 15 {
        p.queen_base_mg = v;
    } else if i == 16 {
        p.queen_base_eg = v;
    } else if i == 17 {
        p.king_base_mg = v;
    } else if i == 18 {
        p.king_slope_mg = v;
    } else if i == 19 {
        p.king_base_eg = v;
    } else if i == 20 {
        p.king_slope_eg = v;
    } else if i == 21 {
        p.mob[1] = v;
    } else if i == 22 {
        p.mob[2] = v;
    } else if i == 23 {
        p.mob[3] = v;
    } else if i == 24 {
        p.mob[4] = v;
    } else if i == 25 {
        p.doubled_mg = v;
    } else if i == 26 {
        p.doubled_eg = v;
    } else if i == 27 {
        p.isolated_mg = v;
    } else if i == 28 {
        p.isolated_eg = v;
    } else if i == 29 {
        p.passed_base_mg = v;
    } else if i == 30 {
        p.passed_adv_mg = v;
    } else if i == 31 {
        p.passed_base_eg = v;
    } else if i == 32 {
        p.passed_adv_eg = v;
    } else if i == 33 {
        p.bishop_pair_mg = v;
    } else if i == 34 {
        p.bishop_pair_eg = v;
    } else if i == 35 {
        p.rook_open = v;
    } else if i == 36 {
        p.rook_half = v;
    } else if i == 37 {
        p.shield = v;
    } else {
        p.tempo = v;
    }
    assert forall|j: int| 0 <= j < 41 implies #[trigger] param_get(*p, j) == if j == i {
        v
    } else {
        param_get(p0, j)
    } by {}
}

/// Whether two character sequences are equal.
fn same_chars(a: &Vec<char>, b: &Vec<char>) -> (r: bool)
    ensures
        r == (a@ == b@),
{
    if a.len() != b.len() {
        return false;
    }
    let mut i: usize = 0;
    while i < a.len()
        invariant
            i <= a@.len(),
            a@.len() == b@.len(),
            forall|j: int| 0 <= j < i ==> a@[j] == b@[j],
        decreases a.len() - i,
    {
        if a[i] != b[i] {
            return false;
        }
        i += 1;
    }
    assert(a@ =~= b@);
    true
}

/// The index of the weight called `name`, if any.
pub fn find_name(name: &Vec<char>) -> (r: Option<usize>)
    ensures
        match r {
            Some(i) => i < N_NAMES && name_index(name@) == Some(i as int),
            None => name_index(name@) is None,
        },
{
    let mut i: usize = 0;
    while i < N_NAMES
        invariant
            i <= N_NAMES,
            name_index(name@) == first_name_from(name@, i as int),
        decreases N_NAMES - i,
    {
        let nm = chars_of(name_of(i));
        if same_chars(&nm, name) {
            return Some(i);
        }
        i += 1;
    }
    None
}

} // verus!
verus! {

/// Two different weights have different names.
proof fn lemma_names_differ(j: int, i: int)
    requires
        0 <= j < i < 39,
    ensures
        param_name(j) != param_name(i),
{
        reveal_strlit("pawn_adv_sq_mg");
        reveal_strlit("pawn_adv_sq_eg");
        reveal_strlit("pawn_center");
        reveal_strlit("pawn_base");
        reveal_strlit("knight_base_mg");
        reveal_strlit("knight_slope_mg");
        reveal_strlit("knight_base_eg");
        reveal_strlit("knight_slope_eg");
        reveal_strlit("bishop_base_mg");
        reveal_strlit("bishop_slope_mg");
        reveal_strlit("bishop_base_eg");
        reveal_strlit("bishop_slope_eg");
        reveal_strlit("rook_seventh");
        reveal_strlit("rook_center_mg");
        reveal_strlit("rook_center_eg");
        reveal_strlit("queen_base_mg");
        reveal_strlit("queen_base_eg");
        reveal_strlit("king_base_mg");
        reveal_strlit("king_slope_mg");
        reveal_strlit("king_base_eg");
        reveal_strlit("king_slope_eg");
        reveal_strlit("mob_n");
        reveal_strlit("mob_b");
        reveal_strlit("mob_r");
        reveal_strlit("mob_q");
        reveal_strlit("doubled_mg");
        reveal_strlit("doubled_eg");
        reveal_strlit("isolated_mg");
        reveal_strlit("isolated_eg");
        reveal_strlit("passed_base_mg");
        reveal_strlit("passed_adv_mg");
        reveal_strlit("passed_base_eg");
        reveal_strlit("passed_adv_eg");
        reveal_strlit("bishop_pair_mg");
        reveal_strlit("bishop_pair_eg");
        reveal_strlit("rook_open");
        reveal_strlit("rook_half");
        reveal_strlit("shield");
        reveal_strlit("tempo");
    let a = param_name(j);
    let b = param_name(i);
    assert(a.len() != b.len() || a[a.len() - 7] != b[b.len() - 7] || a[a.len() - 2] != b[b.len()
        - 2] || a[4] != b[4]);
}

proof fn lemma_first_from(i: int, j: int)
    requires
        0 <= j <= i < 39,
    ensures
        first_name_from(param_name(i), j) == Some(i),
    decreases i - j,
{
    if j < i {
        lemma_names_differ(j, i);
        lemma_first_from(i, j + 1);
    }
}

/// The name of weight `i` finds weight `i`.
pub proof fn lemma_name_index(i: int)
    requires
        0 <= i < 39,
    ensures
        name_index(param_name(i)) == Some(i),
{
    lemma_first_from(i, 0);
}

/// A weight's name is one nonempty word that does not start a comment.
pub proof fn lemma_name_shape(i: int)
    requires
        0 <= i < 39,
    ensures
        param_name(i).len() > 0,
        param_name(i)[0] != '#',
        no_ws(param_name(i)),
{
        reveal_strlit("pawn_adv_sq_mg");
        reveal_strlit("pawn_adv_sq_eg");
        reveal_strlit("pawn_center");
        reveal_strlit("pawn_base");
        reveal_strlit("knight_base_mg");
        reveal_strlit("knight_slope_mg");
        reveal_strlit("knight_base_eg");
        reveal_strlit("knight_slope_eg");
        reveal_strlit("bishop_base_mg");
        reveal_strlit("bishop_slope_mg");
        reveal_strlit("bishop_base_eg");
        reveal_strlit("bishop_slope_eg");
        reveal_strlit("rook_seventh");
        reveal_strlit("rook_center_mg");
        reveal_strlit("rook_center_eg");
        reveal_strlit("queen_base_mg");
        reveal_strlit("queen_base_eg");
        reveal_strlit("king_base_mg");
        reveal_strlit("king_slope_mg");
        reveal_strlit("king_base_eg");
        reveal_strlit("king_slope_eg");
        reveal_strlit("mob_n");
        reveal_strlit("mob_b");
        reveal_strlit("mob_r");
        reveal_strlit("mob_q");
        reveal_strlit("doubled_mg");
        reveal_strlit("doubled_eg");
        reveal_strlit("isolated_mg");
        reveal_strlit("isolated_eg");
        reveal_strlit("passed_base_mg");
        reveal_strlit("passed_adv_mg");
        reveal_strlit("passed_base_eg");
        reveal_strlit("passed_adv_eg");
        reveal_strlit("bishop_pair_mg");
        reveal_strlit("bishop_pair_eg");
        reveal_strlit("rook_open");
        reveal_strlit("rook_half");
        reveal_strlit("shield");
        reveal_strlit("tempo");
    let a = param_name(i);
    assert forall|k: int| 0 <= k < a.len() implies !is_ws(#[trigger] a[k]) by {
        assert('a' <= a[k] <= 'z' || a[k] == '_');
    }
}

/// Setting weight `i` changes that weight and no other.
pub proof fn lemma_param_set(q: EvalParams, i: int, v: i32)
    requires
        0 <= i < 39,
    ensures
        param_set_spec(q, param_set(q, i, v), i, v),
{
    let r = param_set(q, i, v);
    assert forall|j: int| 0 <= j < 41 implies #[trigger] param_get(r, j) == if j == i {
        v
    } else {
        param_get(q, j)
    } by {}
}

/// Weights that agree on every weight are equal.
pub proof fn lemma_params_ext(a: EvalParams, b: EvalParams)
    requires
        forall|j: int| 0 <= j < 41 ==> #[trigger] param_get(a, j) == param_get(b, j),
    ensures
        a == b,
{
    assert(param_get(a, 0) == param_get(b, 0));
    assert(param_get(a, 1) == param_get(b, 1));
    assert(param_get(a, 2) == param_get(b, 2));
    assert(param_get(a, 3) == param_get(b, 3));
    assert(param_get(a, 4) == param_get(b, 4));
    assert(param_get(a, 5) == param_get(b, 5));
    assert(param_get(a, 6) == param_get(b, 6));
    assert(param_get(a, 7) == param_get(b, 7));
    assert(param_get(a, 8) == param_get(b, 8));
    assert(param_get(a, 9) == param_get(b, 9));
    assert(param_get(a, 10) == param_get(b, 10));
    assert(param_get(a, 11) == param_get(b, 11));
    assert(param_get(a, 12) == param_get(b, 12));
    assert(param_get(a, 13) == param_get(b, 13));
    assert(param_get(a, 14) == param_get(b, 14));
    assert(param_get(a, 15) == param_get(b, 15));
    assert(param_get(a, 16) == param_get(b, 16));
    assert(param_get(a, 17) == param_get(b, 17));
    assert(param_get(a, 18) == param_get(b, 18));
    assert(param_get(a, 19) == param_get(b, 19));
    assert(param_get(a, 20) == param_get(b, 20));
    assert(param_get(a, 21) == param_get(b, 21));
    assert(param_get(a, 22) == param_get(b, 22));
    assert(param_get(a, 23) == param_get(b, 23));
    assert(param_get(a, 24) == param_get(b, 24));
    assert(param_get(a, 25) == param_get(b, 25));
    assert(param_get(a, 26) == param_get(b, 26));
    assert(param_get(a, 27) == param_get(b, 27));
    assert(param_get(a, 28) == param_get(b, 28));
    assert(param_get(a, 29) == param_get(b, 29));
    assert(param_get(a, 30) == param_get(b, 30));
    assert(param_get(a, 31) == param_get(b, 31));
    assert(param_get(a, 32) == param_get(b, 32));
    assert(param_get(a, 33) == param_get(b, 33));
    assert(param_get(a, 34) == param_get(b, 34));
    assert(param_get(a, 35) == param_get(b, 35));
    assert(param_get(a, 36) == param_get(b, 36));
    assert(param_get(a, 37) == param_get(b, 37));
    assert(param_get(a, 38) == param_get(b, 38));
    assert(param_get(a, 39) == param_get(b, 39));
    assert(param_get(a, 40) == param_get(b, 40));
    assert(a.mob =~= b.mob);
}

/// `base` with its first `n` named weights taken from `p`, in order.
pub open spec fn with_named(base: EvalParams, p: EvalParams, n: int) -> EvalParams
    decreases n,
{
    if n <= 0 {
        base
    } else {
        param_set(with_named(base, p, n - 1), n - 1, param_get(p, n - 1))
    }
}

/// After taking the first `n` named weights from `p`, those are `p`'s and
/// the rest are still `base`'s.
pub proof fn lemma_with_named(base: EvalParams, p: EvalParams, n: int)
    requires
        0 <= n <= 39,
    ensures
        forall|j: int|
            0 <= j < 41 ==> #[trigger] param_get(with_named(base, p, n), j) == if j < n {
                param_get(p, j)
            } else {
                param_get(base, j)
            },
    decreases n,
{
    if n > 0 {
        lemma_with_named(base, p, n - 1);
        lemma_param_set(with_named(base, p, n - 1), n - 1, param_get(p, n - 1));
    }
}

} // verus!
