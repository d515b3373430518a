//! FEN reading and writing, the starting position, and whitespace-separated
//! words.
use vstd::prelude::*;
use crate::chess::{
    Board, Pos, EMPTY, WP, WN, WB, WR, WQ, WK, BP, BN, BB, BR, BQ, BK, WHITE, BLACK, NO_SQ, CR_WK,
    CR_WQ, CR_BK, CR_BQ, idx, sane_pos, valid_pos, hash_of, square_name,
};
use crate::text::{
    string_from_chars, chars_of, push_all, dec_spec, dec_chars, parse_unsigned,
    parse_unsigned_spec, lemma_dec_digits, lemma_dec_reads_back, digit_char, all_digits, is_digit,
};

verus! {

// ---------------------------------------------------------------------------
// Words
// ---------------------------------------------------------------------------
/// Unicode white space, as `char::is_whitespace` of std defines it.
pub open spec fn is_ws(c: char) -> bool {
    ||| c == ' '
    ||| ('\t' <= c <= '\r')
    ||| c == '\u{85}'
    ||| c == '\u{a0}'
    ||| c == '\u{1680}'
    ||| ('\u{2000}' <= c <= '\u{200a}')
    ||| c == '\u{2028}'
    ||| c == '\u{2029}'
    ||| c == '\u{202f}'
    ||| c == '\u{205f}'
    ||| c == '\u{3000}'
}

pub fn is_ws_exec(c: char) -> (b: bool)
    ensures
        b == is_ws(c),
{
    c == ' ' || ('\t' <= c && c <= '\r') || c == '\u{85}' || c == '\u{a0}' || c == '\u{1680}' || (
    '\u{2000}' <= c && c <= '\u{200a}') || c == '\u{2028}' || c == '\u{2029}' || c == '\u{202f}'
        || c == '\u{205f}' || c == '\u{3000}'
}

/// The maximal runs of non-white-space characters, in order (what
/// `str::split_whitespace` of std yields).
pub open spec fn words(s: Seq<char>) -> Seq<Seq<char>>
    decreases s.len(),
{
    if s.len() == 0 {
        seq![]
    } else {
        let rest = words(s.drop_last());
        let c = s.last();
        if is_ws(c) {
            rest
        } else if s.len() >= 2 && !is_ws(s[s.len() - 2]) {
            rest.update(rest.len() - 1, rest.last().push(c))
        } else {
            rest.push(seq![c])
        }
    }
}

proof fn lemma_words_nonempty_last(s: Seq<char>)
    requires
        s.len() > 0,
        !is_ws(s.last()),
    ensures
        words(s).len() > 0,
    decreases s.len(),
{
    if s.len() >= 2 && !is_ws(s[s.len() - 2]) {
        assert(s.drop_last().last() == s[s.len() - 2]);
        lemma_words_nonempty_last(s.drop_last());
    }
}

/// Every word is nonempty.
pub proof fn lemma_words_nonempty(s: Seq<char>, i: int)
    requires
        0 <= i < words(s).len(),
    ensures
        words(s)[i].len() > 0,
    decreases s.len(),
{
    if s.len() > 0 {
        let rest = words(s.drop_last());
        let c = s.last();
        if is_ws(c) {
            lemma_words_nonempty(s.drop_last(), i);
        } else if s.len() >= 2 && !is_ws(s[s.len() - 2]) {
            if i < rest.len() - 1 {
                lemma_words_nonempty(s.drop_last(), i);
            } else {
                assert(s.drop_last().last() == s[s.len() - 2]);
                lemma_words_nonempty_last(s.drop_last());
            }
        } else {
            if i < rest.len() {
                lemma_words_nonempty(s.drop_last(), i);
            }
        }
    }
}

/// Splits a character sequence at white space.
pub fn split_words(s: &Vec<char>) -> (ws: Vec<Vec<char>>)
    ensures
        ws@.len() == words(s@).len(),
        forall|i: int| 0 <= i < ws@.len() ==> #[trigger] ws@[i]@ == words(s@)[i],
{
    let mut ws: Vec<Vec<char>> = Vec::new();
    let mut cur: Vec<char> = Vec::new();
    let mut i: usize = 0;
    while i < s.len()
        invariant
            i <= s@.len(),
            ({
                let w = words(s@.take(i as int));
                &&& (cur@.len() > 0 ==> w.len() == ws@.len() + 1 && w.last() == cur@)
                &&& (cur@.len() == 0 ==> w.len() == ws@.len())
                &&& forall|j: int| 0 <= j < ws@.len() ==> #[trigger] ws@[j]@ == w[j]
                &&& (i > 0 && !is_ws(s@[i - 1]) <==> cur@.len() > 0)
            }),
        decreases s.len() - i,
    {
        let c = s[i];
        let ghost pre = s@.take(i as int);
        let ghost nxt = s@.take(i + 1);
        proof {
            assert(nxt.drop_last() =~= pre);
            assert(nxt.last() == c);
            if i > 0 {
                assert(nxt[nxt.len() - 2] == s@[i - 1]);
            }
        }
        if is_ws_exec(c) {
            if cur.len() > 0 {
                ws.push(cur);
                cur = Vec::new();
            }
        } else {
            cur.push(c);
        }
        i += 1;
    }
    if cur.len() > 0 {
        ws.push(cur);
    }
    proof {
        assert(s@.take(i as int) =~= s@);
    }
    ws
}

// ---------------------------------------------------------------------------
// FEN specification
// ---------------------------------------------------------------------------
pub open spec fn piece_of_char(c: char) -> Option<u8> {
    if c == 'P' {
        Some(WP)
    } else if c == 'N' {
        Some(WN)
    } else if c == 'B' {
        Some(WB)
    } else if c == 'R' {
        Some(WR)
    } else if c == 'Q' {
        Some(WQ)
    } else if c == 'K' {
        Some(WK)
    } else if c == 'p' {
        Some(BP)
    } else if c == 'n' {
        Some(BN)
    } else if c == 'b' {
        Some(BB)
    } else if c == 'r' {
        Some(BR)
    } else if c == 'q' {
        Some(BQ)
    } else if c == 'k' {
        Some(BK)
    } else {
        None
    }
}

pub open spec fn char_of_piece(p: u8) -> char {
    if p == WP {
        'P'
    } else if p == WN {
        'N'
    } else if p == WB {
        'B'
    } else if p == WR {
        'R'
    } else if p == WQ {
        'Q'
    } else if p == WK {
        'K'
    } else if p == BP {
        'p'
    } else if p == BN {
        'n'
    } else if p == BB {
        'b'
    } else if p == BR {
        'r'
    } else if p == BQ {
        'q'
    } else if p == BK {
        'k'
    } else {
        '?'
    }
}

pub open spec fn digit_value(c: char) -> int {
    c as int - '0' as int
}

/// Reads the piece-placement field from character `i` on, with the cursor
/// at (`file`, `rank`), placing pieces into `sq` and recording king squares.
/// Ranks run from 8 down to 1, separated by '/'; a digit skips that many
/// files; a rank must be complete before a '/'.
pub open spec fn read_placement(
    cs: Seq<char>,
    i: int,
    rank: int,
    file: int,
    sq: Seq<u8>,
    king: Seq<u8>,
) -> Result<(Seq<u8>, Seq<u8>), Seq<char>>
    decreases cs.len() - i,
{
    if i >= cs.len() || i < 0 {
        Ok((sq, king))
    } else {
        let c = cs[i];
        if c == '/' {
            if file != 8 {
                Err("FEN rank not complete"@)
            } else if rank - 1 < 0 {
                Err("too many ranks"@)
            } else {
                read_placement(cs, i + 1, rank - 1, 0, sq, king)
            }
        } else if '0' <= c <= '9' {
            if file + digit_value(c) > 8 {
                Err("FEN file overflow"@)
            } else {
                read_placement(cs, i + 1, rank, file + digit_value(c), sq, king)
            }
        } else if file >= 8 {
            Err("FEN file overflow"@)
        } else {
            match piece_of_char(c) {
                None => Err("bad FEN char "@.push(c)),
                Some(p) => {
                    let s = idx(file, rank);
                    let king2 = if p == WK {
                        king.update(0, s as u8)
                    } else if p == BK {
                        king.update(1, s as u8)
                    } else {
                        king
                    };
                    read_placement(cs, i + 1, rank, file + 1, sq.update(s, p), king2)
                },
            }
        }
    }
}

/// Castling field: '-' or a sequence of K, Q, k, q.
pub open spec fn read_castling(cs: Seq<char>) -> Option<u8>
    decreases cs.len(),
{
    if cs.len() == 0 {
        Some(0)
    } else {
        match read_castling(cs.drop_last()) {
            None => None,
            Some(c) => {
                let x = cs.last();
                if x == 'K' {
                    Some(c | CR_WK)
                } else if x == 'Q' {
                    Some(c | CR_WQ)
                } else if x == 'k' {
                    Some(c | CR_BK)
                } else if x == 'q' {
                    Some(c | CR_BQ)
                } else {
                    None
                }
            },
        }
    }
}

/// The low byte of a character (what `char as i8` keeps), as a signed value.
pub open spec fn low_byte(c: char) -> int {
    let b = (c as u32) % 256;
    if b >= 128 {
        b - 256
    } else {
        b as int
    }
}

/// En-passant field: '-' or file letter and rank digit.
pub open spec fn read_ep(cs: Seq<char>) -> Result<u8, Seq<char>> {
    if cs == "-"@ {
        Ok(NO_SQ)
    } else if cs.len() != 2 {
        Err("bad ep"@)
    } else {
        let f = low_byte(cs[0]) - 97;
        let r = low_byte(cs[1]) - 49;
        if !(0 <= f < 8) || !(0 <= r < 8) {
            Err("bad ep square"@)
        } else {
            Ok(idx(f, r) as u8)
        }
    }
}

pub open spec fn empty_squares() -> Seq<u8> {
    Seq::new(64, |i: int| EMPTY)
}

/// The position a FEN describes, or the error `from_fen` reports.
pub open spec fn fen_parse(fen: Seq<char>) -> Result<Pos, Seq<char>> {
    let parts = words(fen);
    if parts.len() < 4 {
        Err("FEN needs at least 4 fields"@)
    } else {
        match read_placement(parts[0], 0, 7, 0, empty_squares(), seq![4u8, 60u8]) {
            Err(e) => Err(e),
            Ok(placed) => {
                if parts[1] != "w"@ && parts[1] != "b"@ {
                    Err("bad side"@)
                } else {
                    let castling = if parts[2] == "-"@ {
                        Some(0u8)
                    } else {
                        read_castling(parts[2])
                    };
                    match castling {
                        None => Err("bad castling"@),
                        Some(cr) => match read_ep(parts[3]) {
                            Err(e) => Err(e),
                            Ok(ep) => {
                                let half = if parts.len() > 4 {
                                    parse_unsigned_spec(parts[4], 65535)
                                } else {
                                    Some(0)
                                };
                                let full = if parts.len() > 5 {
                                    parse_unsigned_spec(parts[5], 65535)
                                } else {
                                    Some(1)
                                };
                                if half is None {
                                    Err("bad halfmove"@)
                                } else if full is None {
                                    Err("bad fullmove"@)
                                } else {
                                    Ok(
                                        Pos {
                                            sq: placed.0,
                                            side: if parts[1] == "w"@ {
                                                WHITE
                                            } else {
                                                BLACK
                                            },
                                            castling: cr,
                                            ep,
                                            half: half.unwrap() as u16,
                                            full: full.unwrap() as u16,
                                            king: placed.1,
                                        },
                                    )
                                }
                            },
                        },
                    }
                }
            },
        }
    }
}

// ---------------------------------------------------------------------------
// FEN writing specification
// ---------------------------------------------------------------------------
pub open spec fn digit_of(n: int) -> char {
    ((48 + n) as u8) as char
}

/// One rank of the placement field, from file `f` on, with `empty` empty
/// squares pending before it.
pub open spec fn rank_text(sq: Seq<u8>, r: int, f: int, empty: int) -> Seq<char>
    decreases 8 - f,
{
    if f >= 8 {
        if empty > 0 {
            seq![digit_of(empty)]
        } else {
            seq![]
        }
    } else {
        let p = sq[idx(f, r)];
        if p == EMPTY {
            rank_text(sq, r, f + 1, empty + 1)
        } else {
            (if empty > 0 {
                seq![digit_of(empty)]
            } else {
                seq![]
            }) + seq![char_of_piece(p)] + rank_text(sq, r, f + 1, 0)
        }
    }
}

/// Ranks 8 down to `r` of the placement field.
pub open spec fn placement_text(sq: Seq<u8>, r: int) -> Seq<char>
    decreases 8 - r,
{
    if r >= 8 || r < 0 {
        seq![]
    } else {
        placement_text(sq, r + 1) + rank_text(sq, r, 0, 0) + (if r > 0 {
            seq!['/']
        } else {
            seq![]
        })
    }
}

pub open spec fn castling_text(c: u8) -> Seq<char> {
    if c == 0 {
        seq!['-']
    } else {
        (if c & CR_WK != 0 {
            seq!['K']
        } else {
            seq![]
        }) + (if c & CR_WQ != 0 {
            seq!['Q']
        } else {
            seq![]
        }) + (if c & CR_BK != 0 {
            seq!['k']
        } else {
            seq![]
        }) + (if c & CR_BQ != 0 {
            seq!['q']
        } else {
            seq![]
        })
    }
}

/// The FEN of a position with the given clocks.
pub open spec fn fen_text(p: Pos) -> Seq<char> {
    placement_text(p.sq, 0) + seq![' ', if p.side == WHITE {
        'w'
    } else {
        'b'
    }, ' '] + castling_text(p.castling) + seq![' '] + (if p.ep == NO_SQ {
        seq!['-']
    } else {
        square_name(p.ep as int)
    }) + seq![' '] + dec_spec(p.half as nat) + seq![' '] + dec_spec(p.full as nat)
}

// ---------------------------------------------------------------------------
// The starting position
// ---------------------------------------------------------------------------
pub open spec fn back_rank(f: int) -> u8 {
    if f == 0 || f == 7 {
        WR
    } else if f == 1 || f == 6 {
        WN
    } else if f == 2 || f == 5 {
        WB
    } else if f == 3 {
        WQ
    } else {
        WK
    }
}

pub open spec fn start_square(s: int) -> u8 {
    let r = s / 8;
    let f = s % 8;
    if r == 0 {
        back_rank(f)
    } else if r == 1 {
        WP
    } else if r == 6 {
        BP
    } else if r == 7 {
        (back_rank(f) + 6) as u8
    } else {
        EMPTY
    }
}

pub open spec fn start_pos() -> Pos {
    Pos {
        sq: Seq::new(64, |s: int| start_square(s)),
        side: WHITE,
        castling: 15,
        ep: NO_SQ,
        half: 0,
        full: 1,
        king: seq![4u8, 60u8],
    }
}


// ---------------------------------------------------------------------------
// Reading
// ---------------------------------------------------------------------------
fn piece_from_char(c: char) -> (p: Option<u8>)
    ensures
        p == piece_of_char(c),
{
    if c == 'P' {
        Some(WP)
    } else if c == 'N' {
        Some(WN)
    } else if c == 'B' {
        Some(WB)
    } else if c == 'R' {
        Some(WR)
    } else if c == 'Q' {
        Some(WQ)
    } else if c == 'K' {
        Some(WK)
    } else if c == 'p' {
        Some(BP)
    } else if c == 'n' {
        Some(BN)
    } else if c == 'b' {
        Some(BB)
    } else if c == 'r' {
        Some(BR)
    } else if c == 'q' {
        Some(BQ)
    } else if c == 'k' {
        Some(BK)
    } else {
        None
    }
}

fn err_string(s: &str) -> (e: String)
    ensures
        e@ == s@,
{
    String::from_str(s)
}

fn chars_eq(a: &Vec<char>, b: &str) -> (r: bool)
    ensures
        r == (a@ == b@),
{
    let bv = chars_of(b);
    if a.len() != bv.len() {
        return false;
    }
    let mut i: usize = 0;
    while i < a.len()
        invariant
            i <= a@.len(),
            a@.len() == bv@.len(),
            bv@ == b@,
            forall|j: int| 0 <= j < i ==> a@[j] == bv@[j],
        decreases a.len() - i,
    {
        if a[i] != bv[i] {
            return false;
        }
        i += 1;
    }
    assert(a@ =~= bv@);
    true
}

fn read_placement_exec(cs: &Vec<char>, sq: &mut [u8; 64], king: &mut [u8; 2]) -> (r: Result<
    (),
    String,
>)
    requires
        forall|s: int| 0 <= s < 64 ==> #[trigger] old(sq)@[s] <= 12,
        old(king)@[0] < 64,
        old(king)@[1] < 64,
    ensures
        match read_placement(cs@, 0, 7, 0, old(sq)@, old(king)@) {
            Ok(res) => r is Ok && final(sq)@ == res.0 && final(king)@ == res.1,
            Err(e) => r matches Err(msg) && msg@ == e,
        },
        forall|s: int| 0 <= s < 64 ==> #[trigger] final(sq)@[s] <= 12,
        final(king)@[0] < 64,
        final(king)@[1] < 64,
{
    let ghost total = read_placement(cs@, 0, 7, 0, old(sq)@, old(king)@);
    let mut rank: i8 = 7;
    let mut file: i8 = 0;
    let mut i: usize = 0;
    while i < cs.len()
        invariant
            i <= cs@.len(),
            0 <= rank <= 7,
            0 <= file <= 8,
            total == read_placement(cs@, 0, 7, 0, old(sq)@, old(king)@),
            total == read_placement(cs@, i as int, rank as int, file as int, sq@, king@),
            forall|s: int| 0 <= s < 64 ==> #[trigger] sq@[s] <= 12,
            king@[0] < 64,
            king@[1] < 64,
        decreases cs.len() - i,
    {
        let c = cs[i];
        if c == '/' {
            if file != 8 {
                return Err(err_string("FEN rank not complete"));
            }
            if rank - 1 < 0 {
                return Err(err_string("too many ranks"));
            }
            rank = rank - 1;
            file = 0;
        } else if '0' <= c && c <= '9' {
            let d = (c as u32 - '0' as u32) as i8;
            if file + d > 8 {
                return Err(err_string("FEN file overflow"));
            }
            file = file + d;
        } else {
            if file >= 8 {
                return Err(err_string("FEN file overflow"));
            }
            match piece_from_char(c) {
                None => {
                    let mut v = chars_of("bad FEN char ");
                    v.push(c);
                    proof {
                        assert(v@ == "bad FEN char "@.push(c));
                    }
                    return Err(string_from_chars(&v));
                },
                Some(p) => {
                    let s = (rank as u8) * 8 + (file as u8);
                    sq[s as usize] = p;
                    if p == WK {
                        king[0] = s;
                    }
                    if p == BK {
                        king[1] = s;
                    }
                    file = file + 1;
                },
            }
        }
        i += 1;
    }
    Ok(())
}

proof fn lemma_or_bit(c: u8, bit: u8)
    requires
        c < 16,
        bit == 1 || bit == 2 || bit == 4 || bit == 8,
    ensures
        c | bit < 16,
{
    assert(c | bit < 16) by (bit_vector)
        requires
            c < 16,
            bit == 1 || bit == 2 || bit == 4 || bit == 8,
    ;
}

fn or_bit(c: u8, bit: u8) -> (r: u8)
    requires
        c < 16,
        bit == 1 || bit == 2 || bit == 4 || bit == 8,
    ensures
        r == c | bit,
        r < 16,
{
    proof {
        lemma_or_bit(c, bit);
    }
    c | bit
}

/// Castling rights read from text are four bits.
proof fn lemma_read_castling_small(cs: Seq<char>)
    ensures
        read_castling(cs) matches Some(c) ==> c < 16,
    decreases cs.len(),
{
    if cs.len() > 0 {
        lemma_read_castling_small(cs.drop_last());
        if let Some(c) = read_castling(cs.drop_last()) {
            lemma_or_bit(c, CR_WK);
            lemma_or_bit(c, CR_WQ);
            lemma_or_bit(c, CR_BK);
            lemma_or_bit(c, CR_BQ);
        }
    }
}

proof fn lemma_read_castling_none(cs: Seq<char>, k: int)
    requires
        0 <= k <= cs.len(),
        read_castling(cs.take(k)) is None,
    ensures
        read_castling(cs) is None,
    decreases cs.len() - k,
{
    if k < cs.len() {
        assert(cs.take(k + 1).drop_last() =~= cs.take(k));
        lemma_read_castling_none(cs, k + 1);
    } else {
        assert(cs.take(k) =~= cs);
    }
}

fn read_castling_exec(cs: &Vec<char>) -> (r: Option<u8>)
    ensures
        r == read_castling(cs@),
        r matches Some(c) ==> c < 16,
{
    let mut c: u8 = 0;
    let mut i: usize = 0;
    while i < cs.len()
        invariant
            i <= cs@.len(),
            read_castling(cs@.take(i as int)) == Some(c),
            c < 16,
        decreases cs.len() - i,
    {
        let x = cs[i];
        proof {
            assert(cs@.take(i + 1).drop_last() =~= cs@.take(i as int));
        }
        if x == 'K' {
            c = or_bit(c, CR_WK);
        } else if x == 'Q' {
            c = or_bit(c, CR_WQ);
        } else if x == 'k' {
            c = or_bit(c, CR_BK);
        } else if x == 'q' {
            c = or_bit(c, CR_BQ);
        } else {
            proof {
                lemma_read_castling_none(cs@, i + 1);
            }
            return None;
        }
        i += 1;
    }
    proof {
        assert(cs@.take(i as int) =~= cs@);
    }
    Some(c)
}


fn low_byte_exec(c: char) -> (v: i32)
    ensures
        v == low_byte(c),
{
    let b = (c as u32) % 256;
    if b >= 128 {
        b as i32 - 256
    } else {
        b as i32
    }
}

fn read_ep_exec(cs: &Vec<char>) -> (r: Result<u8, String>)
    ensures
        match read_ep(cs@) {
            Ok(e) => r matches Ok(x) && x == e,
            Err(e) => r matches Err(x) && x@ == e,
        },
        r matches Ok(x) ==> x <= 64,
{
    if chars_eq(cs, "-") {
        return Ok(NO_SQ);
    }
    if cs.len() != 2 {
        return Err(err_string("bad ep"));
    }
    let f = low_byte_exec(cs[0]) - 97;
    let r = low_byte_exec(cs[1]) - 49;
    if !(0 <= f && f < 8) || !(0 <= r && r < 8) {
        return Err(err_string("bad ep square"));
    }
    Ok((r * 8 + f) as u8)
}

impl Board {
    /// An empty board, white to move, no rights, clocks 0 and 1.
    pub fn empty() -> (b: Board)
        ensures
            b.sq@ == empty_squares(),
            b.side == WHITE,
            b.castling == 0,
            b.ep == NO_SQ,
            b.half == 0,
            b.full == 1,
            b.hash == 0,
            b.king@ == seq![4u8, 60u8],
    {
        let b = Board {
            sq: [EMPTY; 64],
            side: WHITE,
            castling: 0,
            ep: NO_SQ,
            half: 0,
            full: 1,
            hash: 0,
            king: [4, 60],
        };
        assert(b.sq@ =~= empty_squares());
        assert(b.king@ =~= seq![4u8, 60u8]);
        b
    }

    /// Reads a position in Forsyth-Edwards Notation.  At least four fields
    /// are needed; the halfmove and fullmove clocks default to 0 and 1.
    pub fn from_fen(fen: &str) -> (r: Result<Board, String>)
        ensures
            match fen_parse(fen@) {
                Ok(p) => r matches Ok(b) && b@ == p && b.hash == hash_of(b@) && sane_pos(b@),
                Err(e) => r matches Err(x) && x@ == e,
            },
    {
        let mut b = Board::empty();
        let chars = chars_of(fen);
        let parts = split_words(&chars);
        if parts.len() < 4 {
            return Err(err_string("FEN needs at least 4 fields"));
        }
        let ghost ws = words(fen@);
        proof {
            assert(parts@[0]@ == ws[0]);
            assert(parts@[1]@ == ws[1]);
            assert(parts@[2]@ == ws[2]);
            assert(parts@[3]@ == ws[3]);
        }
        match read_placement_exec(&parts[0], &mut b.sq, &mut b.king) {
            Err(e) => {
                return Err(e);
            },
            Ok(()) => {},
        }
        let side = if chars_eq(&parts[1], "w") {
            WHITE
        } else if chars_eq(&parts[1], "b") {
            BLACK
        } else {
            return Err(err_string("bad side"));
        };
        b.side = side;
        let castling = if chars_eq(&parts[2], "-") {
            0u8
        } else {
            match read_castling_exec(&parts[2]) {
                Some(c) => c,
                None => {
                    return Err(err_string("bad castling"));
                },
            }
        };
        b.castling = castling;
        let ep = match read_ep_exec(&parts[3]) {
            Ok(e) => e,
            Err(e) => {
                return Err(e);
            },
        };
        b.ep = ep;
        let half: u16 = if parts.len() > 4 {
            proof {
                assert(parts@[4]@ == ws[4]);
            }
            match parse_unsigned(&parts[4], 65535) {
                Some(v) => v as u16,
                None => {
                    return Err(err_string("bad halfmove"));
                },
            }
        } else {
            0
        };
        let full: u16 = if parts.len() > 5 {
            proof {
                assert(parts@[5]@ == ws[5]);
            }
            match parse_unsigned(&parts[5], 65535) {
                Some(v) => v as u16,
                None => {
                    return Err(err_string("bad fullmove"));
                },
            }
        } else {
            1
        };
        b.half = half;
        b.full = full;
        b.hash = b.full_hash();
        proof {
            let p = fen_parse(fen@)->Ok_0;
            assert(b.sq@ =~= p.sq);
            assert(b.king@ =~= p.king);
            assert(b@ =~= p);
        }
        Ok(b)
    }
}


// ---------------------------------------------------------------------------
// Writing
// ---------------------------------------------------------------------------
fn piece_char(p: u8) -> (c: char)
    ensures
        c == char_of_piece(p),
{
    if p == WP {
        'P'
    } else if p == WN {
        'N'
    } else if p == WB {
        'B'
    } else if p == WR {
        'R'
    } else if p == WQ {
        'Q'
    } else if p == WK {
        'K'
    } else if p == BP {
        'p'
    } else if p == BN {
        'n'
    } else if p == BB {
        'b'
    } else if p == BR {
        'r'
    } else if p == BQ {
        'q'
    } else if p == BK {
        'k'
    } else {
        '?'
    }
}

fn digit(n: u8) -> (c: char)
    requires
        n <= 9,
    ensures
        c == digit_of(n as int),
{
    (48u8 + n) as char
}

impl Board {
    fn push_rank(&self, v: &mut Vec<char>, r: u8)
        requires
            r < 8,
        ensures
            final(v)@ == old(v)@ + rank_text(self.sq@, r as int, 0, 0),
    {
        let ghost v0 = v@;
        let mut empty: u8 = 0;
        let mut f: u8 = 0;
        while f < 8
            invariant
                f <= 8,
                r < 8,
                empty <= f,
                v0 + rank_text(self.sq@, r as int, 0, 0) == v@ + rank_text(
                    self.sq@,
                    r as int,
                    f as int,
                    empty as int,
                ),
            decreases 8 - f,
        {
            let p = self.sq[(r * 8 + f) as usize];
            let ghost e0 = empty;
            let ghost pre = v@;
            if p == EMPTY {
                empty += 1;
            } else {
                if empty > 0 {
                    v.push(digit(empty));
                    empty = 0;
                }
                v.push(piece_char(p));
                proof {
                    let rest = rank_text(self.sq@, r as int, f + 1, 0);
                    let head = if e0 > 0 {
                        seq![digit_of(e0 as int)]
                    } else {
                        seq![]
                    };
                    assert(rank_text(self.sq@, r as int, f as int, e0 as int) == head + seq![
                        char_of_piece(p),
                    ] + rest);
                    assert(pre + (head + seq![char_of_piece(p)] + rest) =~= v@ + rest);
                }
            }
            f += 1;
        }
        let ghost pre = v@;
        if empty > 0 {
            v.push(digit(empty));
        }
        assert(v@ =~= v0 + rank_text(self.sq@, r as int, 0, 0));
    }
}


impl Board {
    fn push_placement(&self, v: &mut Vec<char>)
        ensures
            final(v)@ == old(v)@ + placement_text(self.sq@, 0),
    {
        let ghost v0 = v@;
        let mut i: u8 = 0;
        while i < 8
            invariant
                i <= 8,
                v@ == v0 + placement_text(self.sq@, 8 - i),
            decreases 8 - i,
        {
            let r = 7 - i;
            self.push_rank(v, r);
            if r > 0 {
                v.push('/');
            }
            proof {
                assert(placement_text(self.sq@, r as int) == placement_text(self.sq@, r + 1)
                    + rank_text(self.sq@, r as int, 0, 0) + (if r > 0 {
                    seq!['/']
                } else {
                    seq![]
                }));
            }
            i += 1;
            assert(v@ =~= v0 + placement_text(self.sq@, 8 - i));
        }
    }

    fn push_castling(&self, v: &mut Vec<char>)
        ensures
            final(v)@ == old(v)@ + castling_text(self.castling),
    {
        let ghost b = v@;
        if self.castling == 0 {
            v.push('-');
        } else {
            if self.castling & CR_WK != 0 {
                v.push('K');
            }
            if self.castling & CR_WQ != 0 {
                v.push('Q');
            }
            if self.castling & CR_BK != 0 {
                v.push('k');
            }
            if self.castling & CR_BQ != 0 {
                v.push('q');
            }
        }
        assert(v@ =~= b + castling_text(self.castling));
    }

    fn push_ep(&self, v: &mut Vec<char>)
        ensures
            final(v)@ == old(v)@ + (if self.ep == NO_SQ {
                seq!['-']
            } else {
                square_name(self.ep as int)
            }),
    {
        let ghost b = v@;
        if self.ep == NO_SQ {
            v.push('-');
        } else {
            let e = self.ep;
            assert(e & 7 == e % 8) by (bit_vector);
            assert(e >> 3 == e / 8) by (bit_vector);
            assert(e >> 3 <= 31) by (bit_vector);
            v.push((97u8 + (e & 7)) as char);
            v.push((49u8 + (e >> 3)) as char);
        }
        assert(v@ =~= b + (if self.ep == NO_SQ {
            seq!['-']
        } else {
            square_name(self.ep as int)
        }));
    }

    /// The position in Forsyth-Edwards Notation.
    pub fn to_fen(&self) -> (s: String)
        ensures
            s@ == fen_text(self@),
    {
        let mut v: Vec<char> = Vec::new();
        self.push_placement(&mut v);
        v.push(' ');
        v.push(
            if self.side == WHITE {
                'w'
            } else {
                'b'
            },
        );
        v.push(' ');
        self.push_castling(&mut v);
        v.push(' ');
        self.push_ep(&mut v);
        v.push(' ');
        let hv = dec_chars(self.half as u64);
        push_all(&mut v, &hv);
        v.push(' ');
        let fv = dec_chars(self.full as u64);
        push_all(&mut v, &fv);
        assert(v@ =~= fen_text(self@));
        string_from_chars(&v)
    }

    /// The standard starting position.
    pub fn startpos() -> (b: Board)
        ensures
            b@ == start_pos(),
            b.hash == hash_of(b@),
    {
        let mut b = Board::empty();
        let back: [u8; 8] = [WR, WN, WB, WQ, WK, WB, WN, WR];
        let mut f: usize = 0;
        while f < 8
            invariant
                f <= 8,
                back@ == seq![WR, WN, WB, WQ, WK, WB, WN, WR],
                forall|s: int|
                    0 <= s < 64 ==> #[trigger] b.sq@[s] == if s % 8 < f {
                        start_square(s)
                    } else {
                        EMPTY
                    },
                b.side == WHITE,
                b.castling == 0,
                b.ep == NO_SQ,
                b.half == 0,
                b.full == 1,
                b.king@ == seq![4u8, 60u8],
            decreases 8 - f,
        {
            b.sq[f] = back[f];
            b.sq[8 + f] = WP;
            b.sq[48 + f] = BP;
            b.sq[56 + f] = back[f] + 6;
            f += 1;
        }
        b.castling = 15;
        proof {
            assert(b.sq@ =~= start_pos().sq);
            assert(b.king@ =~= start_pos().king);
        }
        b.hash = b.full_hash();
        assert(b@ =~= start_pos());
        b
    }

    /// Whether the board is a valid position (see `valid_pos`).
    pub fn is_valid(&self) -> (ok: bool)
        ensures
            ok == valid_pos(self@),
    {
        let mut s: usize = 0;
        while s < 64
            invariant
                s <= 64,
                forall|t: int| 0 <= t < s ==> #[trigger] self.sq@[t] <= 12,
                forall|t: int| 0 <= t < s && #[trigger] self.sq@[t] == WK ==> self.king@[0] == t,
                forall|t: int| 0 <= t < s && #[trigger] self.sq@[t] == BK ==> self.king@[1] == t,
            decreases 64 - s,
        {
            let p = self.sq[s];
            if p > 12 {
                return false;
            }
            if p == WK && self.king[0] as usize != s {
                return false;
            }
            if p == BK && self.king[1] as usize != s {
                return false;
            }
            s += 1;
        }
        if self.side > 1 || self.castling >= 16 || self.ep > 64 {
            return false;
        }
        if self.ep < 64 && self.sq[self.ep as usize] != EMPTY {
            return false;
        }
        if self.king[0] >= 64 || self.king[1] >= 64 {
            return false;
        }
        if self.castling & CR_WK != 0 && self.sq[7] != WR {
            return false;
        }
        if self.castling & CR_WQ != 0 && self.sq[0] != WR {
            return false;
        }
        if self.castling & CR_BK != 0 && self.sq[63] != BR {
            return false;
        }
        if self.castling & CR_BQ != 0 && self.sq[56] != BR {
            return false;
        }
        true
    }
}


// ---------------------------------------------------------------------------
// Reading back what was written
// ---------------------------------------------------------------------------
/// No character of `t` is white space.
pub open spec fn no_ws(t: Seq<char>) -> bool {
    forall|i: int| 0 <= i < t.len() ==> !is_ws(#[trigger] t[i])
}

pub(crate) proof fn lemma_words_one(t: Seq<char>)
    requires
        t.len() > 0,
        no_ws(t),
    ensures
        words(t) == seq![t],
    decreases t.len(),
{
    let d = t.drop_last();
    assert(!is_ws(t.last()));
    if t.len() == 1 {
        assert(d =~= Seq::<char>::empty());
        assert(words(d) =~= Seq::<Seq<char>>::empty());
        assert(words(t) == words(d).push(seq![t.last()]));
        assert(t =~= seq![t.last()]);
        assert(words(t) =~= seq![t]);
    } else {
        assert(no_ws(d)) by {
            assert forall|i: int| 0 <= i < d.len() implies !is_ws(#[trigger] d[i]) by {
                assert(d[i] == t[i]);
            }
        }
        lemma_words_one(d);
        assert(!is_ws(t[t.len() - 2]));
        let w = words(d);
        assert(words(t) == w.update(w.len() - 1, w.last().push(t.last())));
        assert(d.push(t.last()) =~= t);
        assert(words(t) =~= seq![t]);
    }
}

pub(crate) proof fn lemma_words_space(s: Seq<char>, t: Seq<char>)
    requires
        t.len() > 0,
        no_ws(t),
    ensures
        words(s + seq![' '] + t) == words(s).push(t),
    decreases t.len(),
{
    let x = s + seq![' '] + t;
    let sp = s + seq![' '];
    assert(is_ws(' '));
    assert(!is_ws(t.last()));
    assert(x.last() == t.last());
    if t.len() == 1 {
        assert(x.drop_last() =~= sp);
        assert(sp.drop_last() =~= s);
        assert(sp.last() == ' ');
        assert(words(sp) == words(s));
        assert(x[x.len() - 2] == ' ');
        assert(words(x) == words(sp).push(seq![t.last()]));
        assert(t =~= seq![t.last()]);
        assert(words(x) =~= words(s).push(t));
    } else {
        let d = t.drop_last();
        assert(no_ws(d)) by {
            assert forall|i: int| 0 <= i < d.len() implies !is_ws(#[trigger] d[i]) by {
                assert(d[i] == t[i]);
            }
        }
        lemma_words_space(s, d);
        let y = s + seq![' '] + d;
        assert(x.drop_last() =~= y);
        assert(x[x.len() - 2] == t[t.len() - 2]);
        assert(!is_ws(t[t.len() - 2]));
        let w = words(y);
        assert(w == words(s).push(d));
        assert(words(x) == w.update(w.len() - 1, w.last().push(t.last())));
        assert(d.push(t.last()) =~= t);
        assert(words(x) =~= words(s).push(t));
    }
}

/// The squares of rank `r` from file `f` on, copied from `src` into `acc`
/// where `src` holds a piece.
pub open spec fn fill_rank(acc: Seq<u8>, src: Seq<u8>, r: int, f: int) -> Seq<u8>
    decreases 8 - f,
{
    if f >= 8 {
        acc
    } else {
        let p = src[idx(f, r)];
        fill_rank(
            if p == EMPTY {
                acc
            } else {
                acc.update(idx(f, r), p)
            },
            src,
            r,
            f + 1,
        )
    }
}

/// King squares as a reader of rank `r` from file `f` on records them.
pub open spec fn king_rank(king: Seq<u8>, src: Seq<u8>, r: int, f: int) -> Seq<u8>
    decreases 8 - f,
{
    if f >= 8 {
        king
    } else {
        let p = src[idx(f, r)];
        king_rank(
            if p == WK {
                king.update(0, idx(f, r) as u8)
            } else if p == BK {
                king.update(1, idx(f, r) as u8)
            } else {
                king
            },
            src,
            r,
            f + 1,
        )
    }
}

/// Reading one rank as `rank_text` writes it, from the file where its
/// pending empty squares began, fills that rank in.
proof fn lemma_read_rank(
    cs: Seq<char>,
    i: int,
    r: int,
    f: int,
    e: int,
    acc: Seq<u8>,
    king: Seq<u8>,
    src: Seq<u8>,
)
    requires
        0 <= r < 8,
        0 <= e <= f <= 8,
        0 <= i,
        i + rank_text(src, r, f, e).len() <= cs.len(),
        cs.subrange(i, i + rank_text(src, r, f, e).len()) == rank_text(src, r, f, e),
        src.len() == 64,
        acc.len() == 64,
        king.len() == 2,
        forall|t: int| 0 <= t < 64 ==> #[trigger] src[t] <= 12,
    ensures
        read_placement(cs, i, r, f - e, acc, king) == read_placement(
            cs,
            i + rank_text(src, r, f, e).len(),
            r,
            8,
            fill_rank(acc, src, r, f),
            king_rank(king, src, r, f),
        ),
    decreases 8 - f,
{
    let t = rank_text(src, r, f, e);
    if f >= 8 {
        if e > 0 {
            assert(t == seq![digit_of(e)]);
            assert(cs[i] == cs.subrange(i, i + t.len())[0]);
            assert(cs[i] == digit_of(e));
            assert(digit_of(e) as int == 48 + e);
            assert(digit_value(digit_of(e)) == e);
            assert(read_placement(cs, i, r, f - e, acc, king) == read_placement(cs, i + 1, r, 8, acc, king));
        }
    } else {
        let p = src[idx(f, r)];
        if p == EMPTY {
            lemma_read_rank(cs, i, r, f + 1, e + 1, acc, king, src);
        } else {
            let d: Seq<char> = if e > 0 {
                seq![digit_of(e)]
            } else {
                seq![]
            };
            let rest = rank_text(src, r, f + 1, 0);
            assert(t == d + seq![char_of_piece(p)] + rest);
            let j = i + d.len();
            assert forall|k: int| 0 <= k < t.len() implies cs[i + k] == #[trigger] t[k] by {
                assert(cs[i + k] == cs.subrange(i, i + t.len())[k]);
            }
            if e > 0 {
                assert(cs[i] == t[0]);
                assert(t[0] == digit_of(e));
                assert(digit_of(e) as int == 48 + e);
                assert(digit_value(digit_of(e)) == e);
                assert(read_placement(cs, i, r, f - e, acc, king) == read_placement(cs, j, r, f, acc, king));
            }
            assert(cs[j] == t[d.len() as int]);
            assert(t[d.len() as int] == char_of_piece(p));
            assert(1 <= p <= 12);
            let c = char_of_piece(p);
            assert(piece_of_char(c) == Some(p));
            assert(c != '/');
            assert(!('0' <= c <= '9'));
            let acc2 = acc.update(idx(f, r), p);
            let king2 = if p == WK {
                king.update(0, idx(f, r) as u8)
            } else if p == BK {
                king.update(1, idx(f, r) as u8)
            } else {
                king
            };
            assert(read_placement(cs, j, r, f, acc, king) == read_placement(cs, j + 1, r, f + 1, acc2, king2));
            assert(cs.subrange(j + 1, j + 1 + rest.len()) =~= rest) by {
                assert forall|k: int| 0 <= k < rest.len() implies cs.subrange(j + 1, j + 1 + rest.len())[k] == rest[k] by {
                    assert(t[d.len() + 1 + k] == rest[k]);
                    assert(cs[i + (d.len() + 1 + k)] == t[d.len() + 1 + k]);
                }
            }
            lemma_read_rank(cs, j + 1, r, f + 1, 0, acc2, king2, src);
            assert(fill_rank(acc, src, r, f) == fill_rank(acc2, src, r, f + 1));
            assert(king_rank(king, src, r, f) == king_rank(king2, src, r, f + 1));
        }
    }
}


/// Ranks 7 down to `r` filled in from `src`.
pub open spec fn fill_ranks(acc: Seq<u8>, src: Seq<u8>, r: int) -> Seq<u8>
    decreases 8 - r,
{
    if r >= 8 || r < 0 {
        acc
    } else {
        fill_rank(fill_ranks(acc, src, r + 1), src, r, 0)
    }
}

/// King squares recorded over ranks 7 down to `r`.
pub open spec fn king_ranks(king: Seq<u8>, src: Seq<u8>, r: int) -> Seq<u8>
    decreases 8 - r,
{
    if r >= 8 || r < 0 {
        king
    } else {
        king_rank(king_ranks(king, src, r + 1), src, r, 0)
    }
}

proof fn lemma_fill_rank_at(acc: Seq<u8>, src: Seq<u8>, r: int, f: int)
    requires
        0 <= r < 8,
        0 <= f <= 8,
        acc.len() == 64,
        src.len() == 64,
    ensures
        fill_rank(acc, src, r, f).len() == 64,
        forall|t: int|
            0 <= t < 64 ==> #[trigger] fill_rank(acc, src, r, f)[t] == (if t / 8 == r && t % 8 >= f
                && src[t] != EMPTY {
                src[t]
            } else {
                acc[t]
            }),
    decreases 8 - f,
{
    if f < 8 {
        let p = src[idx(f, r)];
        let acc2 = if p == EMPTY {
            acc
        } else {
            acc.update(idx(f, r), p)
        };
        lemma_fill_rank_at(acc2, src, r, f + 1);
        assert forall|t: int| 0 <= t < 64 implies #[trigger] fill_rank(acc, src, r, f)[t] == (if t / 8
            == r && t % 8 >= f && src[t] != EMPTY {
            src[t]
        } else {
            acc[t]
        }) by {
            if t == idx(f, r) {
                assert(t / 8 == r && t % 8 == f);
            } else {
                assert(!(t / 8 == r && t % 8 == f));
            }
        }
    }
}

proof fn lemma_fill_ranks_at(acc: Seq<u8>, src: Seq<u8>, r: int)
    requires
        0 <= r <= 8,
        acc.len() == 64,
        src.len() == 64,
    ensures
        fill_ranks(acc, src, r).len() == 64,
        forall|t: int|
            0 <= t < 64 ==> #[trigger] fill_ranks(acc, src, r)[t] == (if t / 8 >= r && src[t]
                != EMPTY {
                src[t]
            } else {
                acc[t]
            }),
    decreases 8 - r,
{
    if r < 8 {
        lemma_fill_ranks_at(acc, src, r + 1);
        lemma_fill_rank_at(fill_ranks(acc, src, r + 1), src, r, 0);
    }
}


proof fn lemma_fill_len(acc: Seq<u8>, king: Seq<u8>, src: Seq<u8>, r: int)
    requires
        0 <= r <= 8,
        acc.len() == 64,
        king.len() == 2,
        src.len() == 64,
    ensures
        fill_ranks(acc, src, r).len() == 64,
        king_ranks(king, src, r).len() == 2,
    decreases 8 - r,
{
    lemma_fill_ranks_at(acc, src, r);
    if r < 8 {
        lemma_fill_len(acc, king, src, r + 1);
        lemma_king_rank_len(king_ranks(king, src, r + 1), src, r, 0);
    }
}

proof fn lemma_king_rank_len(king: Seq<u8>, src: Seq<u8>, r: int, f: int)
    requires
        0 <= r < 8,
        0 <= f <= 8,
        king.len() == 2,
    ensures
        king_rank(king, src, r, f).len() == 2,
    decreases 8 - f,
{
    if f < 8 {
        let p = src[idx(f, r)];
        let king2 = if p == WK {
            king.update(0, idx(f, r) as u8)
        } else if p == BK {
            king.update(1, idx(f, r) as u8)
        } else {
            king
        };
        lemma_king_rank_len(king2, src, r, f + 1);
    }
}

/// Reading the placement field as `placement_text` writes ranks 8 down to
/// `r + 1` fills those ranks in.
proof fn lemma_read_ranks(cs: Seq<char>, i: int, r: int, acc: Seq<u8>, king: Seq<u8>, src: Seq<u8>)
    requires
        0 <= r <= 7,
        0 <= i,
        i + placement_text(src, r).len() <= cs.len(),
        cs.subrange(i, i + placement_text(src, r).len()) == placement_text(src, r),
        src.len() == 64,
        acc.len() == 64,
        king.len() == 2,
        forall|t: int| 0 <= t < 64 ==> #[trigger] src[t] <= 12,
    ensures
        r > 0 ==> read_placement(cs, i, 7, 0, acc, king) == read_placement(
            cs,
            i + placement_text(src, r).len(),
            r - 1,
            0,
            fill_ranks(acc, src, r),
            king_ranks(king, src, r),
        ),
        r == 0 ==> read_placement(cs, i, 7, 0, acc, king) == read_placement(
            cs,
            i + placement_text(src, r).len(),
            0,
            8,
            fill_ranks(acc, src, 0),
            king_ranks(king, src, 0),
        ),
    decreases 8 - r,
{
    let pt = placement_text(src, r);
    let q = placement_text(src, r + 1);
    let rt = rank_text(src, r, 0, 0);
    let sep: Seq<char> = if r > 0 {
        seq!['/']
    } else {
        seq![]
    };
    assert(pt == q + rt + sep);
    assert forall|k: int| 0 <= k < pt.len() implies cs[i + k] == #[trigger] pt[k] by {
        assert(cs[i + k] == cs.subrange(i, i + pt.len())[k]);
    }
    let j = i + q.len();
    assert(cs.subrange(j, j + rt.len()) =~= rt) by {
        assert forall|k: int| 0 <= k < rt.len() implies cs.subrange(j, j + rt.len())[k] == rt[k] by {
            assert(pt[q.len() + k] == rt[k]);
            assert(cs[i + (q.len() + k)] == pt[q.len() + k]);
        }
    }
    lemma_fill_len(acc, king, src, r + 1);
    let f1 = fill_ranks(acc, src, r + 1);
    let k1 = king_ranks(king, src, r + 1);
    if r == 7 {
        assert(q.len() == 0);
        assert(f1 == acc);
        assert(k1 == king);
    } else {
        assert(cs.subrange(i, i + q.len()) =~= q) by {
            assert forall|k: int| 0 <= k < q.len() implies cs.subrange(i, i + q.len())[k] == q[k] by {
                assert(pt[k] == q[k]);
                assert(cs[i + k] == pt[k]);
            }
        }
        lemma_read_ranks(cs, i, r + 1, acc, king, src);
    }
    lemma_read_rank(cs, j, r, 0, 0, f1, k1, src);
    if r > 0 {
        let e = j + rt.len();
        assert(cs[e] == pt[(q.len() + rt.len()) as int]);
        assert(pt[(q.len() + rt.len()) as int] == '/');
        assert(read_placement(cs, e, r, 8, fill_ranks(acc, src, r), king_ranks(king, src, r))
            == read_placement(cs, e + 1, r - 1, 0, fill_ranks(acc, src, r), king_ranks(king, src, r)));
    }
}

/// No character of a written rank is white space.
proof fn lemma_rank_text_chars(src: Seq<u8>, r: int, f: int, e: int)
    requires
        0 <= r < 8,
        0 <= e <= f <= 8,
        src.len() == 64,
    ensures
        no_ws(rank_text(src, r, f, e)),
    decreases 8 - f,
{
    let t = rank_text(src, r, f, e);
    if f >= 8 {
        if e > 0 {
            assert(digit_of(e) as int == 48 + e);
            assert(!is_ws(t[0]));
        }
    } else {
        let p = src[idx(f, r)];
        if p == EMPTY {
            lemma_rank_text_chars(src, r, f + 1, e + 1);
        } else {
            lemma_rank_text_chars(src, r, f + 1, 0);
            let d: Seq<char> = if e > 0 {
                seq![digit_of(e)]
            } else {
                seq![]
            };
            let rest = rank_text(src, r, f + 1, 0);
            assert(t == d + seq![char_of_piece(p)] + rest);
            assert(digit_of(e) as int == 48 + e);
            assert(!is_ws(char_of_piece(p)));
            assert forall|k: int| 0 <= k < t.len() implies !is_ws(#[trigger] t[k]) by {
                if k < d.len() {
                    assert(t[k] == digit_of(e));
                } else if k == d.len() {
                    assert(t[k] == char_of_piece(p));
                } else {
                    assert(t[k] == rest[k - d.len() - 1]);
                }
            }
        }
    }
}

proof fn lemma_placement_chars(src: Seq<u8>, r: int)
    requires
        0 <= r <= 8,
        src.len() == 64,
    ensures
        no_ws(placement_text(src, r)),
        r <= 7 ==> placement_text(src, r).len() > 0,
    decreases 8 - r,
{
    if r < 8 {
        lemma_placement_chars(src, r + 1);
        lemma_rank_text_chars(src, r, 0, 0);
        let q = placement_text(src, r + 1);
        let rt = rank_text(src, r, 0, 0);
        let sep: Seq<char> = if r > 0 {
            seq!['/']
        } else {
            seq![]
        };
        let t = placement_text(src, r);
        assert(t == q + rt + sep);
        assert forall|k: int| 0 <= k < t.len() implies !is_ws(#[trigger] t[k]) by {
            if k < q.len() {
                assert(t[k] == q[k]);
            } else if k < q.len() + rt.len() {
                assert(t[k] == rt[k - q.len()]);
            } else {
                assert(t[k] == '/');
            }
        }
        if r == 7 {
            assert(t.len() >= 1);
        }
    }
}


proof fn lemma_read_castling_push(s: Seq<char>, x: char)
    ensures
        read_castling(s.push(x)) == match read_castling(s) {
            None => None,
            Some(c) => if x == 'K' {
                Some(c | CR_WK)
            } else if x == 'Q' {
                Some(c | CR_WQ)
            } else if x == 'k' {
                Some(c | CR_BK)
            } else if x == 'q' {
                Some(c | CR_BQ)
            } else {
                None
            },
        },
{
    assert(s.push(x).drop_last() =~= s);
}

/// The castling field of nonzero rights reads back as those rights.
proof fn lemma_castling_reads_back(c: u8)
    requires
        0 < c < 16,
    ensures
        read_castling(castling_text(c)) == Some(c),
        castling_text(c).len() > 0,
        no_ws(castling_text(c)),
        castling_text(c)[0] != '-',
{
    let e: Seq<char> = seq![];
    let t1: Seq<char> = if c & CR_WK != 0 {
        seq!['K']
    } else {
        e
    };
    let t2: Seq<char> = t1 + if c & CR_WQ != 0 {
        seq!['Q']
    } else {
        e
    };
    let t3: Seq<char> = t2 + if c & CR_BK != 0 {
        seq!['k']
    } else {
        e
    };
    let t4: Seq<char> = t3 + if c & CR_BQ != 0 {
        seq!['q']
    } else {
        e
    };
    assert(t4 == castling_text(c));
    assert(read_castling(e) == Some(0u8));
    assert((c & 1u8 != 0u8) ==> (0u8 | 1u8) == (c & 1u8)) by (bit_vector);
    assert(!(c & 1u8 != 0u8) ==> 0u8 == (c & 1u8)) by (bit_vector);
    assert((c & 2u8 != 0u8) ==> ((c & 1u8) | 2u8) == (c & 3u8)) by (bit_vector);
    assert(!(c & 2u8 != 0u8) ==> (c & 1u8) == (c & 3u8)) by (bit_vector);
    assert((c & 4u8 != 0u8) ==> ((c & 3u8) | 4u8) == (c & 7u8)) by (bit_vector);
    assert(!(c & 4u8 != 0u8) ==> (c & 3u8) == (c & 7u8)) by (bit_vector);
    assert((c & 8u8 != 0u8) ==> ((c & 7u8) | 8u8) == (c & 15u8)) by (bit_vector);
    assert(!(c & 8u8 != 0u8) ==> (c & 7u8) == (c & 15u8)) by (bit_vector);
    assert(c < 16u8 ==> (c & 15u8) == c) by (bit_vector);
    assert(c != 0u8 && c < 16u8 ==> (c & 1u8 != 0u8 || c & 2u8 != 0u8 || c & 4u8 != 0u8 || c & 8u8
        != 0u8)) by (bit_vector);
    if c & CR_WK != 0 {
        lemma_read_castling_push(e, 'K');
        assert(e.push('K') =~= t1);
    }
    assert(read_castling(t1) == Some(c & 1u8));
    if c & CR_WQ != 0 {
        lemma_read_castling_push(t1, 'Q');
        assert(t1.push('Q') =~= t2);
    } else {
        assert(t2 =~= t1);
    }
    assert(read_castling(t2) == Some(c & 3u8));
    if c & CR_BK != 0 {
        lemma_read_castling_push(t2, 'k');
        assert(t2.push('k') =~= t3);
    } else {
        assert(t3 =~= t2);
    }
    assert(read_castling(t3) == Some(c & 7u8));
    if c & CR_BQ != 0 {
        lemma_read_castling_push(t3, 'q');
        assert(t3.push('q') =~= t4);
    } else {
        assert(t4 =~= t3);
    }
    assert(read_castling(t4) == Some(c));
    assert forall|k: int| 0 <= k < t4.len() implies !is_ws(#[trigger] t4[k]) && t4[k] != '-' by {
        assert(t4[k] == 'K' || t4[k] == 'Q' || t4[k] == 'k' || t4[k] == 'q');
    }
}

/// A square's name reads back as the en-passant square.
proof fn lemma_ep_reads_back(ep: u8)
    requires
        ep < 64,
    ensures
        read_ep(square_name(ep as int)) == Ok::<u8, Seq<char>>(ep),
        square_name(ep as int).len() == 2,
        no_ws(square_name(ep as int)),
{
    let t = square_name(ep as int);
    reveal_strlit("-");
    assert(t.len() == 2);
    assert(t != "-"@);
    let a = 97 + (ep as int) % 8;
    let b = 49 + (ep as int) / 8;
    assert(t[0] as int == a);
    assert(t[1] as int == b);
    assert(low_byte(t[0]) == a);
    assert(low_byte(t[1]) == b);
    assert(idx((ep as int) % 8, (ep as int) / 8) == ep);
    assert(!is_ws(t[0]) && !is_ws(t[1]));
}

/// The king squares a FEN reader records: each king's square, or e1 and e8
/// for a king that is not on the board.
/// The shape of every position a FEN reader gives: pieces in range, and
/// king squares as a reader records them (the last king of each colour in
/// reading order, or the standard square when there is none).
pub open spec fn fen_shape(p: Pos) -> bool {
    &&& sane_pos(p)
    &&& p.king == king_ranks(seq![4u8, 60u8], p.sq, 0)
}

/// The square read `j`-th (from 0) in a placement field: rank 8 first,
/// files a to h within a rank.
pub open spec fn read_sq(j: int) -> int {
    idx(j % 8, 7 - j / 8)
}

/// King squares recorded by reading the first `n` squares of `sq` in that
/// order, starting from `k`.
pub open spec fn scan_kings(k: Seq<u8>, sq: Seq<u8>, n: int) -> Seq<u8>
    decreases n,
{
    if n <= 0 {
        k
    } else {
        let k1 = scan_kings(k, sq, n - 1);
        let s = read_sq(n - 1);
        if sq[s] == WK {
            k1.update(0, s as u8)
        } else if sq[s] == BK {
            k1.update(1, s as u8)
        } else {
            k1
        }
    }
}

proof fn lemma_read_sq(j: int)
    requires
        0 <= j < 64,
    ensures
        0 <= read_sq(j) < 64,
        read_sq(j) / 8 == 7 - j / 8,
        read_sq(j) % 8 == j % 8,
        forall|i: int| 0 <= i < 64 && i != j ==> read_sq(i) != read_sq(j),
{
    assert forall|i: int| 0 <= i < 64 && i != j implies read_sq(i) != read_sq(j) by {
        assert(i == 8 * (i / 8) + i % 8);
        assert(j == 8 * (j / 8) + j % 8);
    }
}

proof fn lemma_scan_len(k: Seq<u8>, sq: Seq<u8>, n: int)
    requires
        k.len() == 2,
        k[0] < 64,
        k[1] < 64,
        n <= 64,
    ensures
        scan_kings(k, sq, n).len() == 2,
        scan_kings(k, sq, n)[0] < 64,
        scan_kings(k, sq, n)[1] < 64,
    decreases n,
{
    if n > 0 {
        lemma_scan_len(k, sq, n - 1);
        lemma_read_sq(n - 1);
    }
}

/// Empty squares record no king.
proof fn lemma_scan_empties(k: Seq<u8>, sq: Seq<u8>, n: int, m: int)
    requires
        0 <= n <= m <= 64,
        forall|j: int| n <= j < m ==> sq[#[trigger] read_sq(j)] == EMPTY,
    ensures
        scan_kings(k, sq, m) == scan_kings(k, sq, n),
    decreases m - n,
{
    if n < m {
        lemma_scan_empties(k, sq, n, m - 1);
    }
}

/// Changing a square not yet read does not change what was recorded.
proof fn lemma_scan_update(k: Seq<u8>, sq: Seq<u8>, n: int, s: int, p: u8)
    requires
        0 <= n <= 64,
        0 <= s < 64,
        sq.len() == 64,
        forall|j: int| 0 <= j < n ==> read_sq(j) != s,
    ensures
        scan_kings(k, sq.update(s, p), n) == scan_kings(k, sq, n),
    decreases n,
{
    if n > 0 {
        lemma_scan_update(k, sq, n - 1, s, p);
        lemma_read_sq(n - 1);
    }
}

proof fn lemma_king_rank_scan(k: Seq<u8>, src: Seq<u8>, r: int, f: int)
    requires
        0 <= r < 8,
        0 <= f <= 8,
    ensures
        king_rank(scan_kings(k, src, (7 - r) * 8 + f), src, r, f) == scan_kings(
            k,
            src,
            (7 - r) * 8 + 8,
        ),
    decreases 8 - f,
{
    if f < 8 {
        let n = (7 - r) * 8 + f;
        lemma_read_sq(n);
        assert(n / 8 == 7 - r && n % 8 == f) by {
            assert(n == 8 * (7 - r) + f);
        }
        assert(read_sq(n) == idx(f, r));
        lemma_king_rank_scan(k, src, r, f + 1);
    }
}

/// Reading ranks 8 down to `r + 1` records the kings the first squares in
/// reading order hold.
proof fn lemma_king_ranks_scan(k: Seq<u8>, src: Seq<u8>, r: int)
    requires
        0 <= r <= 8,
    ensures
        king_ranks(k, src, r) == scan_kings(k, src, (8 - r) * 8),
    decreases 8 - r,
{
    if r < 8 {
        lemma_king_ranks_scan(k, src, r + 1);
        lemma_king_rank_scan(k, src, r, 0);
    }
}

/// Reading a placement field visits squares in reading order, each once,
/// so the king squares it records are those of the board it builds.
proof fn lemma_read_placement_kings(
    cs: Seq<char>,
    i: int,
    rank: int,
    file: int,
    sq: Seq<u8>,
    king: Seq<u8>,
)
    requires
        0 <= i,
        0 <= rank <= 7,
        0 <= file <= 8,
        sq.len() == 64,
        forall|t: int| 0 <= t < 64 ==> #[trigger] sq[t] <= 12,
        forall|j: int| (7 - rank) * 8 + file <= j < 64 ==> sq[#[trigger] read_sq(j)] == EMPTY,
        king == scan_kings(seq![4u8, 60u8], sq, (7 - rank) * 8 + file),
    ensures
        read_placement(cs, i, rank, file, sq, king) matches Ok(res) ==> {
            &&& res.0.len() == 64
            &&& forall|t: int| 0 <= t < 64 ==> #[trigger] res.0[t] <= 12
            &&& res.1 == scan_kings(seq![4u8, 60u8], res.0, 64)
        },
    decreases cs.len() - i,
{
    let k0: Seq<u8> = seq![4u8, 60u8];
    let n = (7 - rank) * 8 + file;
    if i >= cs.len() {
        lemma_scan_empties(k0, sq, n, 64);
    } else {
        let c = cs[i];
        if c == '/' {
            if file == 8 && rank - 1 >= 0 {
                lemma_read_placement_kings(cs, i + 1, rank - 1, 0, sq, king);
            }
        } else if '0' <= c <= '9' {
            let d = digit_value(c);
            if file + d <= 8 {
                lemma_scan_empties(k0, sq, n, n + d);
                lemma_read_placement_kings(cs, i + 1, rank, file + d, sq, king);
            }
        } else if file < 8 {
            if let Some(p) = piece_of_char(c) {
                let s = idx(file, rank);
                lemma_read_sq(n);
                assert(n / 8 == 7 - rank && n % 8 == file) by {
                    assert(n == 8 * (7 - rank) + file);
                }
                assert(read_sq(n) == s);
                let sq2 = sq.update(s, p);
                lemma_scan_update(k0, sq, n, s, p);
                let king2 = if p == WK {
                    king.update(0, s as u8)
                } else if p == BK {
                    king.update(1, s as u8)
                } else {
                    king
                };
                assert(king2 == scan_kings(k0, sq2, n + 1));
                assert forall|j: int| n + 1 <= j < 64 implies sq2[#[trigger] read_sq(j)] == EMPTY by {
                    lemma_read_sq(j);
                }
                lemma_read_placement_kings(cs, i + 1, rank, file + 1, sq2, king2);
            }
        }
    }
}

/// Every position a FEN reader gives has the shape the round trip needs.
pub proof fn lemma_parsed_shape(fen: Seq<char>)
    ensures
        fen_parse(fen) matches Ok(p) ==> fen_shape(p),
{
    let parts = words(fen);
    if parts.len() >= 4 {
        let k0: Seq<u8> = seq![4u8, 60u8];
        lemma_read_placement_kings(parts[0], 0, 7, 0, empty_squares(), k0);
        lemma_read_castling_small(parts[2]);
        lemma_king_ranks_scan(k0, empty_squares(), 0);
        if let Ok(p) = fen_parse(fen) {
            lemma_king_ranks_scan(k0, p.sq, 0);
            lemma_scan_len(k0, p.sq, 64);
            if p.ep != NO_SQ {
                assert(p.ep < 64);
            }
        }
    }
}

/// Every position read from a FEN is written as a FEN that reads back as
/// the same position.
pub proof fn lemma_fen_reads_back(fen: Seq<char>)
    ensures
        fen_parse(fen) matches Ok(p) ==> fen_parse(fen_text(p)) == Ok::<Pos, Seq<char>>(p),
{
    lemma_parsed_shape(fen);
    if let Ok(p) = fen_parse(fen) {
        lemma_fen_roundtrip(p);
    }
}

pub open spec fn side_text(p: Pos) -> Seq<char> {
    seq![if p.side == WHITE { 'w' } else { 'b' }]
}

pub open spec fn ep_text(p: Pos) -> Seq<char> {
    if p.ep == NO_SQ {
        seq!['-']
    } else {
        square_name(p.ep as int)
    }
}

/// The six fields of a written FEN.
#[verifier::spinoff_prover]
proof fn lemma_fen_fields(p: Pos)
    requires
        fen_shape(p),
    ensures
        words(fen_text(p)) == seq![
            placement_text(p.sq, 0),
            side_text(p),
            castling_text(p.castling),
            ep_text(p),
            dec_spec(p.half as nat),
            dec_spec(p.full as nat),
        ],
{
    let pl = placement_text(p.sq, 0);
    let sd = side_text(p);
    let ca = castling_text(p.castling);
    let ep = ep_text(p);
    let hf = dec_spec(p.half as nat);
    let fl = dec_spec(p.full as nat);
    let sp: Seq<char> = seq![' '];
    lemma_placement_chars(p.sq, 0);
    lemma_words_one(pl);
    assert(no_ws(sd)) by {
        assert(!is_ws(sd[0]));
    }
    if p.castling == 0 {
        assert(ca == seq!['-']);
        assert(no_ws(ca)) by {
            assert(!is_ws(ca[0]));
        }
    } else {
        lemma_castling_reads_back(p.castling);
    }
    if p.ep == NO_SQ {
        assert(no_ws(ep)) by {
            assert(!is_ws(ep[0]));
        }
    } else {
        lemma_ep_reads_back(p.ep);
    }
    lemma_dec_digits(p.half as nat);
    lemma_dec_digits(p.full as nat);
    assert(no_ws(hf)) by {
        assert forall|k: int| 0 <= k < hf.len() implies !is_ws(#[trigger] hf[k]) by {
            assert(is_digit(hf[k]));
        }
    }
    assert(no_ws(fl)) by {
        assert forall|k: int| 0 <= k < fl.len() implies !is_ws(#[trigger] fl[k]) by {
            assert(is_digit(fl[k]));
        }
    }
    let a1 = pl + sp + sd;
    let a2 = a1 + sp + ca;
    let a3 = a2 + sp + ep;
    let a4 = a3 + sp + hf;
    let a5 = a4 + sp + fl;
    assert(fen_text(p) =~= a5);
    lemma_words_space(pl, sd);
    lemma_words_space(a1, ca);
    lemma_words_space(a2, ep);
    lemma_words_space(a3, hf);
    lemma_words_space(a4, fl);
    assert(words(a5) =~= seq![pl, sd, ca, ep, hf, fl]);
}

/// The placement field of a written FEN reads back as the board.
#[verifier::spinoff_prover]
proof fn lemma_fen_placement(p: Pos)
    requires
        fen_shape(p),
    ensures
        read_placement(placement_text(p.sq, 0), 0, 7, 0, empty_squares(), seq![4u8, 60u8])
            == Ok::<(Seq<u8>, Seq<u8>), Seq<char>>((p.sq, p.king)),
{
    let pl = placement_text(p.sq, 0);
    let k0: Seq<u8> = seq![4u8, 60u8];
    assert(pl.subrange(0, pl.len() as int) =~= pl);
    lemma_read_ranks(pl, 0, 0, empty_squares(), k0, p.sq);
    lemma_fill_ranks_at(empty_squares(), p.sq, 0);
    let sq2 = fill_ranks(empty_squares(), p.sq, 0);
    assert(sq2 =~= p.sq) by {
        assert forall|t: int| 0 <= t < 64 implies sq2[t] == p.sq[t] by {
            assert(t / 8 >= 0);
        }
    }
    let kg = king_ranks(k0, p.sq, 0);
    assert(read_placement(pl, pl.len() as int, 0, 8, sq2, kg) == Ok::<(Seq<u8>, Seq<u8>), Seq<char>>(
        (sq2, kg),
    ));
}

/// Writing a position of the shape a FEN reader gives as FEN and reading
/// it back gives the position.
#[verifier::spinoff_prover]
pub proof fn lemma_fen_roundtrip(p: Pos)
    requires
        fen_shape(p),
    ensures
        fen_parse(fen_text(p)) == Ok::<Pos, Seq<char>>(p),
{
    reveal_strlit("-");
    reveal_strlit("w");
    reveal_strlit("b");
    lemma_fen_fields(p);
    lemma_fen_placement(p);
    let parts = words(fen_text(p));
    assert(parts[0] == placement_text(p.sq, 0));
    assert(parts[1] == side_text(p));
    if p.castling == 0 {
        assert(parts[2] =~= "-"@);
    } else {
        lemma_castling_reads_back(p.castling);
        assert(parts[2] != "-"@);
    }
    if p.ep == NO_SQ {
        assert(parts[3] =~= "-"@);
    } else {
        lemma_ep_reads_back(p.ep);
    }
    lemma_dec_reads_back(p.half as nat, 65535);
    lemma_dec_reads_back(p.full as nat, 65535);
    if p.side == WHITE {
        assert(parts[1] =~= "w"@);
    } else {
        assert(parts[1] =~= "b"@);
        assert(parts[1][0] != "w"@[0]);
        assert(parts[1] != "w"@);
    }
}

} // verus!
