//! Conversions between `str`/`String` and character vectors, and decimal
//! rendering and parsing of integers.
use vstd::prelude::*;

verus! {

/// Collects characters into a `String`.
///
/// Trusted: calls `Iterator::collect` of std into a `String`; the contract
/// claims that the resulting string holds exactly the given characters, in
/// order, which is what std documents for `FromIterator<&char> for String`.
#[verifier::external_body]
pub fn string_from_chars(v: &Vec<char>) -> (s: String)
    ensures
        s@ == v@,
{
    v.iter().collect()
}

/// The characters of a string slice, in order.
pub fn chars_of(s: &str) -> (v: Vec<char>)
    ensures
        v@ == s@,
{
    let n = s.unicode_len();
    let mut v: Vec<char> = Vec::new();
    let mut i: usize = 0;
    while i < n
        invariant
            n == s@.len(),
            i <= n,
            v@ == s@.subrange(0, i as int),
        decreases n - i,
    {
        let c = s.get_char(i);
        v.push(c);
        i += 1;
        assert(v@ =~= s@.subrange(0, i as int));
    }
    assert(v@ =~= s@);
    v
}

/// Appends all characters of `extra` to `v`.
pub fn push_all(v: &mut Vec<char>, extra: &Vec<char>)
    ensures
        final(v)@ == old(v)@ + extra@,
{
    let mut i: usize = 0;
    let ghost v0 = v@;
    while i < extra.len()
        invariant
            i <= extra.len(),
            v@ == v0 + extra@.subrange(0, i as int),
        decreases extra.len() - i,
    {
        v.push(extra[i]);
        i += 1;
        assert(v@ =~= v0 + extra@.subrange(0, i as int));
    }
    assert(extra@.subrange(0, i as int) =~= extra@);
}

/// The character of a decimal digit.
pub open spec fn digit_char(d: nat) -> char {
    ((48 + d) as u8) as char
}

/// Decimal rendering of a natural number, most significant digit first.
pub open spec fn dec_spec(n: nat) -> Seq<char>
    decreases n,
{
    if n < 10 {
        seq![digit_char(n)]
    } else {
        dec_spec(n / 10).push(digit_char(n % 10))
    }
}

/// Decimal rendering of an integer with a leading '-' when negative.
pub open spec fn int_dec_spec(n: int) -> Seq<char> {
    if n < 0 {
        seq!['-'] + dec_spec((-n) as nat)
    } else {
        dec_spec(n as nat)
    }
}

fn digit_to_char(d: u64) -> (c: char)
    requires
        d < 10,
    ensures
        c == digit_char(d as nat),
{
    ((48u8 + d as u8) as char)
}

/// Decimal digits of `n`.
pub fn dec_chars(n: u64) -> (v: Vec<char>)
    ensures
        v@ == dec_spec(n as nat),
    decreases n,
{
    if n < 10 {
        let mut v = Vec::new();
        v.push(digit_to_char(n));
        v
    } else {
        let mut v = dec_chars(n / 10);
        v.push(digit_to_char(n % 10));
        v
    }
}

/// Decimal digits of a signed integer, with '-' for negative values.
pub fn int_dec_chars(n: i64) -> (v: Vec<char>)
    ensures
        v@ == int_dec_spec(n as int),
{
    if n < 0 {
        let mag: u64 = if n == i64::MIN {
            9223372036854775808u64
        } else {
            (-n) as u64
        };
        let mut v = Vec::new();
        v.push('-');
        let d = dec_chars(mag);
        push_all(&mut v, &d);
        v
    } else {
        dec_chars(n as u64)
    }
}

pub open spec fn is_digit(c: char) -> bool {
    '0' <= c <= '9'
}

pub open spec fn digit_val(c: char) -> nat {
    (c as u32 - '0' as u32) as nat
}

/// Value of a nonempty run of decimal digits.
pub open spec fn digits_value(s: Seq<char>) -> nat
    decreases s.len(),
{
    if s.len() == 0 {
        0
    } else {
        digits_value(s.drop_last()) * 10 + digit_val(s.last())
    }
}

pub open spec fn all_digits(s: Seq<char>) -> bool {
    forall|i: int| 0 <= i < s.len() ==> is_digit(#[trigger] s[i])
}

/// What `str::parse` of std gives for an unsigned integer type whose largest
/// value is `max`: an optional leading '+', then one or more decimal digits,
/// with a value that fits.
pub open spec fn parse_unsigned_spec(s: Seq<char>, max: nat) -> Option<nat> {
    let body = if s.len() > 0 && s[0] == '+' {
        s.drop_first()
    } else {
        s
    };
    if body.len() > 0 && all_digits(body) && digits_value(body) <= max {
        Some(digits_value(body))
    } else {
        None
    }
}

/// What `str::parse` of std gives for a signed integer type with bounds
/// `min..=max`: an optional sign, then one or more digits, in range.
pub open spec fn parse_signed_spec(s: Seq<char>, min: int, max: int) -> Option<int> {
    if s.len() > 0 && s[0] == '-' {
        let body = s.drop_first();
        if body.len() > 0 && all_digits(body) && -(digits_value(body) as int) >= min {
            Some(-(digits_value(body) as int))
        } else {
            None
        }
    } else {
        let body = if s.len() > 0 && s[0] == '+' {
            s.drop_first()
        } else {
            s
        };
        if body.len() > 0 && all_digits(body) && digits_value(body) <= max {
            Some(digits_value(body) as int)
        } else {
            None
        }
    }
}

proof fn lemma_digits_value_mono(s: Seq<char>, i: int)
    requires
        0 <= i <= s.len(),
        all_digits(s),
    ensures
        digits_value(s.subrange(0, i)) <= digits_value(s),
    decreases s.len() - i,
{
    if i < s.len() {
        lemma_digits_value_mono(s, i + 1);
        let a = s.subrange(0, i + 1);
        assert(a.drop_last() =~= s.subrange(0, i));
        assert(digits_value(a) == digits_value(s.subrange(0, i)) * 10 + digit_val(a.last()));
    } else {
        assert(s.subrange(0, i) =~= s);
    }
}

/// Parses the digits `s[start..]` with a cap: returns `None` as soon as the
/// value exceeds `max`.
fn parse_digits(s: &Vec<char>, start: usize, max: u64) -> (r: Option<u64>)
    requires
        start <= s@.len(),
    ensures
        ({
            let body = s@.subrange(start as int, s@.len() as int);
            match r {
                Some(v) => body.len() > 0 && all_digits(body) && digits_value(body) <= max
                    && v == digits_value(body),
                None => !(body.len() > 0 && all_digits(body) && digits_value(body) <= max),
            }
        }),
{
    let ghost body = s@.subrange(start as int, s@.len() as int);
    if start >= s.len() {
        return None;
    }
    let mut i = start;
    let mut acc: u64 = 0;
    while i < s.len()
        invariant
            start <= i <= s@.len(),
            body == s@.subrange(start as int, s@.len() as int),
            all_digits(s@.subrange(start as int, i as int)),
            acc == digits_value(s@.subrange(start as int, i as int)),
            acc <= max,
        decreases s.len() - i,
    {
        let c = s[i];
        if !('0' <= c && c <= '9') {
            proof {
                assert(!is_digit(body[i - start]));
            }
            return None;
        }
        let d = (c as u32 - '0' as u32) as u64;
        let ghost pre = s@.subrange(start as int, i as int);
        let ghost nxt = s@.subrange(start as int, i + 1);
        proof {
            assert(nxt.drop_last() =~= pre);
            assert(nxt.last() == c);
        }
        if d > max || acc > (max - d) / 10 {
            proof {
                assert(digits_value(nxt) == acc * 10 + d);
                assert(acc * 10 + d > max) by (nonlinear_arith)
                    requires
                        d > max || acc > (max - d) / 10,
                        acc >= 0,
                        d < 10,
                ;
                if all_digits(body) {
                    lemma_digits_value_mono(body, (i + 1 - start) as int);
                    assert(body.subrange(0, (i + 1 - start) as int) =~= nxt);
                }
            }
            return None;
        }
        proof {
            assert(acc * 10 + d <= max) by (nonlinear_arith)
                requires
                    d <= max,
                    acc <= (max - d) / 10,
                    d < 10,
            ;
        }
        acc = acc * 10 + d;
        i += 1;
        proof {
            assert(all_digits(nxt));
        }
    }
    Some(acc)
}

/// Parses an unsigned decimal as `str::parse` of std does, for a type whose
/// largest value is `max`.
pub fn parse_unsigned(s: &Vec<char>, max: u64) -> (r: Option<u64>)
    ensures
        match parse_unsigned_spec(s@, max as nat) {
            Some(v) => r == Some(v as u64),
            None => r is None,
        },
{
    let start: usize = if s.len() > 0 && s[0] == '+' {
        1
    } else {
        0
    };
    proof {
        if start == 1 {
            assert(s@.drop_first() =~= s@.subrange(1, s@.len() as int));
        } else {
            assert(s@ =~= s@.subrange(0, s@.len() as int));
        }
    }
    parse_digits(s, start, max)
}

/// Parses a signed decimal as `str::parse` of std does, for a type with
/// bounds `-(neg_max)..=max`.
pub fn parse_signed(s: &Vec<char>, neg_max: u64, max: u64) -> (r: Option<i64>)
    requires
        neg_max <= 0x8000_0000_0000_0000,
        max < 0x8000_0000_0000_0000,
    ensures
        match parse_signed_spec(s@, -(neg_max as int), max as int) {
            Some(v) => r == Some(v as i64),
            None => r is None,
        },
{
    if s.len() > 0 && s[0] == '-' {
        proof {
            assert(s@.drop_first() =~= s@.subrange(1, s@.len() as int));
        }
        match parse_digits(s, 1, neg_max) {
            Some(v) => {
                if v == 0x8000_0000_0000_0000u64 {
                    Some(i64::MIN)
                } else {
                    Some(-(v as i64))
                }
            },
            None => None,
        }
    } else {
        match parse_unsigned(s, max) {
            Some(v) => Some(v as i64),
            None => None,
        }
    }
}


/// The decimal rendering of a number is a nonempty run of digits that
/// reads back as the number.
pub proof fn lemma_dec_digits(n: nat)
    ensures
        dec_spec(n).len() > 0,
        all_digits(dec_spec(n)),
        digits_value(dec_spec(n)) == n,
    decreases n,
{
    if n < 10 {
        let s = dec_spec(n);
        assert(s.drop_last() =~= Seq::<char>::empty());
        assert(digit_val(digit_char(n)) == n);
        assert(digits_value(s) == digits_value(s.drop_last()) * 10 + digit_val(s.last()));
        assert(digits_value(Seq::<char>::empty()) == 0);
    } else {
        lemma_dec_digits(n / 10);
        let d = dec_spec(n / 10);
        let s = dec_spec(n);
        assert(s == d.push(digit_char(n % 10)));
        assert(s.drop_last() =~= d);
        assert(s.last() == digit_char(n % 10));
        assert(digit_val(digit_char(n % 10)) == n % 10);
        assert(digits_value(s) == digits_value(d) * 10 + digit_val(s.last()));
        assert((n / 10) * 10 + n % 10 == n);
        assert forall|i: int| 0 <= i < s.len() implies is_digit(#[trigger] s[i]) by {
            if i < d.len() {
                assert(s[i] == d[i]);
            }
        }
    }
}

/// Reading back the decimal rendering of a number gives the number, when
/// it fits.
pub proof fn lemma_dec_reads_back(n: nat, max: nat)
    requires
        n <= max,
    ensures
        parse_unsigned_spec(dec_spec(n), max) == Some(n),
{
    lemma_dec_digits(n);
    assert(is_digit(dec_spec(n)[0]));
}

/// Reading back the signed decimal rendering of an integer in `min..=max`
/// gives the integer.
pub proof fn lemma_int_dec_reads_back(n: int, min: int, max: int)
    requires
        min <= n <= max,
    ensures
        parse_signed_spec(int_dec_spec(n), min, max) == Some(n),
        int_dec_spec(n).len() > 0,
        forall|k: int|
            0 <= k < int_dec_spec(n).len() ==> #[trigger] is_digit(int_dec_spec(n)[k])
                || int_dec_spec(n)[k] == '-',
{
    let s = int_dec_spec(n);
    if n < 0 {
        let m = (-n) as nat;
        lemma_dec_digits(m);
        assert(s.drop_first() =~= dec_spec(m));
        assert forall|k: int| 0 <= k < s.len() implies #[trigger] is_digit(s[k]) || s[k] == '-' by {
            if k > 0 {
                assert(s[k] == dec_spec(m)[k - 1]);
            }
        }
    } else {
        lemma_dec_digits(n as nat);
        assert(is_digit(s[0]));
    }
}

} // verus!
