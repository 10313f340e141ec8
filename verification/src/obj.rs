//! Mesh text parsing.
//!
//! A mesh is whitespace-delimited text: lines beginning with the token
//! `v` carry three decimal vertex coordinates, lines beginning with `f`
//! carry three 1-based vertex indices, each the part before the first
//! `/` of its token. Malformed lines — wrong token count, bad numerals,
//! or numerals too large for the machine — are skipped, never fatal.
//! Vertex coordinates are kept as exact rationals: a plain decimal
//! numeral, with an optional sign and fraction part, denotes an exact
//! rational value. Exponent forms, infinities and not-a-number denote
//! no exact rational and are treated as malformed.

use vstd::prelude::*;

verus! {

use crate::rat::{Rat, RatV, rat_eq, rat_neg};
use crate::types::{Face, Vector3};

/// The position of the first occurrence of `b` in `s`, or `s.len()`.
pub open spec fn bpos(s: Seq<u8>, b: u8) -> int
    decreases s.len(),
{
    if s.len() == 0 {
        0
    } else if s[0] == b {
        0
    } else {
        1 + bpos(s.skip(1), b)
    }
}

/// What characterizes `bpos`: it is the first index holding `b`, or the
/// length when there is none.
pub proof fn lemma_bpos_char(s: Seq<u8>, b: u8)
    ensures
        0 <= bpos(s, b) <= s.len(),
        bpos(s, b) < s.len() ==> s[bpos(s, b)] == b,
        forall|j: int| 0 <= j < bpos(s, b) ==> s[j] != b,
    decreases s.len(),
{
    if s.len() == 0 {
    } else if s[0] == b {
    } else {
        lemma_bpos_char(s.skip(1), b);
        assert forall|j: int| 0 <= j < bpos(s, b) implies s[j] != b by {
            if j > 0 {
                assert(s.skip(1)[j - 1] == s[j]);
            }
        }
    }
}

/// Any index with those properties is `bpos`.
pub proof fn lemma_bpos_unique(s: Seq<u8>, b: u8, p: int)
    requires
        0 <= p <= s.len(),
        p < s.len() ==> s[p] == b,
        forall|j: int| 0 <= j < p ==> s[j] != b,
    ensures
        bpos(s, b) == p,
    decreases s.len(),
{
    if s.len() == 0 {
    } else if s[0] == b {
    } else {
        assert(p > 0);
        lemma_bpos_unique(s.skip(1), b, p - 1);
        assert forall|j: int| 0 <= j < p - 1 implies s.skip(1)[j] != b by {
            assert(s.skip(1)[j] == s[j + 1]);
        }
    }
}

/// The tokens of a line, split at single spaces; empty tokens between
/// adjacent spaces are kept.
pub open spec fn tokens(s: Seq<u8>) -> Seq<Seq<u8>>
    decreases s.len(),
{
    let i = bpos(s, 32);
    if 0 <= i && i < s.len() {
        seq![s.take(i)] + tokens(s.skip(i + 1))
    } else {
        seq![s]
    }
}

/// Every byte of the sequence is an ASCII digit.
pub open spec fn all_digits(s: Seq<u8>) -> bool {
    forall|j: int| 0 <= j < s.len() ==> 48 <= #[trigger] s[j] <= 57
}

/// The number denoted by a digit string.
pub open spec fn digits_val(s: Seq<u8>) -> int
    decreases s.len(),
{
    if s.len() == 0 {
        0
    } else {
        digits_val(s.drop_last()) * 10 + (s.last() - 48)
    }
}

/// Ten to the `k`.
pub open spec fn pow10(k: nat) -> int
    decreases k,
{
    if k == 0 {
        1
    } else {
        10 * pow10((k - 1) as nat)
    }
}

/// The digit part of an unsigned integer numeral: an optional `+`, then
/// at least one digit.
pub open spec fn uint_digits(s: Seq<u8>) -> Seq<u8> {
    if s.len() > 0 && s[0] == 43 {
        s.skip(1)
    } else {
        s
    }
}

/// The numeral is a well-formed unsigned integer.
pub open spec fn uint_valid(s: Seq<u8>) -> bool {
    uint_digits(s).len() > 0 && all_digits(uint_digits(s))
}

/// The value of an unsigned integer numeral.
pub open spec fn uint_val(s: Seq<u8>) -> int {
    digits_val(uint_digits(s))
}

/// The digit part of a decimal numeral: an optional sign, then digits
/// with an optional single `.` fraction.
pub open spec fn dec_digits(s: Seq<u8>) -> Seq<u8> {
    if s.len() > 0 && (s[0] == 45 || s[0] == 43) {
        s.skip(1)
    } else {
        s
    }
}

/// The numeral is a well-formed plain decimal: an optional sign, then
/// digits with at most one dot and a digit on at least one of its
/// sides, as in `12`, `12.5`, `12.` or `.5`. Special float spellings —
/// exponents, infinities, not-a-number — denote no exact rational here
/// and make the line malformed.
pub open spec fn dec_valid(s: Seq<u8>) -> bool {
    let d = dec_digits(s);
    let i = bpos(d, 46);
    &&& d.len() > 0
    &&& (i > 0 || (i < d.len() && d.skip(i + 1).len() > 0))
    &&& all_digits(d.take(i))
    &&& (i < d.len() ==> all_digits(d.skip(i + 1)))
}

/// The exact rational value of a decimal numeral: the integer part
/// scaled past the fraction digits, over the matching power of ten.
pub open spec fn dec_val(s: Seq<u8>) -> RatV {
    let d = dec_digits(s);
    let i = bpos(d, 46);
    let frac = if i < d.len() {
        d.skip(i + 1)
    } else {
        Seq::<u8>::empty()
    };
    let mag = RatV {
        n: digits_val(d.take(i)) * pow10(frac.len()) + digits_val(frac),
        d: pow10(frac.len()),
    };
    if s.len() > 0 && s[0] == 45 {
        rat_neg(mag)
    } else {
        mag
    }
}

/// The numeral's value also fits the machine: numerator and denominator
/// in `i64` range.
pub open spec fn dec_fits(s: Seq<u8>) -> bool {
    let d = dec_digits(s);
    let i = bpos(d, 46);
    let frac = if i < d.len() {
        d.skip(i + 1)
    } else {
        Seq::<u8>::empty()
    };
    digits_val(d.take(i)) * pow10(frac.len()) + digits_val(frac) <= 0x7fff_ffff_ffff_ffff
        && pow10(frac.len()) <= 0x7fff_ffff_ffff_ffff
}

/// A face line: `f`, then at least three tokens, each holding a `/` and
/// before it an unsigned index that fits the machine.
pub open spec fn face_of_line(s: Seq<u8>) -> Option<(int, int, int)> {
    let ts = tokens(s);
    if ts.len() >= 4 && face_token_ok(ts[1]) && face_token_ok(ts[2]) && face_token_ok(ts[3]) {
        Some((face_token_val(ts[1]), face_token_val(ts[2]), face_token_val(ts[3])))
    } else {
        None
    }
}

/// The token splits at a `/` and its first part is a machine-sized
/// unsigned integer numeral.
pub open spec fn face_token_ok(t: Seq<u8>) -> bool {
    let i = bpos(t, 47);
    i < t.len() && uint_valid(t.take(i)) && uint_val(t.take(i)) <= usize::MAX
}

/// The index an accepted face token denotes.
pub open spec fn face_token_val(t: Seq<u8>) -> int {
    uint_val(t.take(bpos(t, 47)))
}

/// A vertex line: `v`, then at least three tokens holding plain decimal
/// numerals that fit the machine.
pub open spec fn vertex_of_line(s: Seq<u8>) -> Option<(RatV, RatV, RatV)> {
    let ts = tokens(s);
    if ts.len() >= 4 && dec_valid(ts[1]) && dec_fits(ts[1]) && dec_valid(ts[2]) && dec_fits(ts[2])
        && dec_valid(ts[3]) && dec_fits(ts[3]) {
        Some((dec_val(ts[1]), dec_val(ts[2]), dec_val(ts[3])))
    } else {
        None
    }
}

/// A mesh: vertex positions as exact rationals and triangular faces as
/// 1-based indices, in input order.
pub struct ObjFile {
    pub verticies: Vec<Vector3<Rat>>,
    pub faces: Vec<Face>,
}

/// The position of the first `b` at or after `from`, or the length.
fn find_byte(s: &[u8], from: usize, b: u8) -> (e: usize)
    requires
        from <= s@.len(),
    ensures
        from <= e <= s@.len(),
        e - from == bpos(s@.skip(from as int), b),
{
    let n: usize = s.len();
    let mut i: usize = from;
    while i < n
        invariant
            from <= i <= n,
            n == s@.len(),
            forall|j: int| from <= j < i ==> s@[j] != b,
        decreases n - i,
    {
        if s[i] == b {
            proof {
                assert forall|j: int| 0 <= j < i - from implies s@.skip(from as int)[j] != b by {
                    assert(s@.skip(from as int)[j] == s@[from + j]);
                }
                lemma_bpos_unique(s@.skip(from as int), b, i - from);
            }
            return i;
        }
        i = i + 1;
    }
    proof {
        assert forall|j: int| 0 <= j < n - from implies s@.skip(from as int)[j] != b by {
            assert(s@.skip(from as int)[j] == s@[from + j]);
        }
        lemma_bpos_unique(s@.skip(from as int), b, n - from);
    }
    n
}

/// Digit strings denote non-negative, digit-monotone values: dropping
/// trailing digits never increases the value.
proof fn lemma_digits_val_monotone(s: Seq<u8>, k: int)
    requires
        all_digits(s),
        0 <= k <= s.len(),
    ensures
        digits_val(s) >= digits_val(s.take(k)),
        digits_val(s.take(k)) >= 0,
    decreases s.len() - k,
{
    if k == s.len() {
        assert(s.take(k) =~= s);
        lemma_digits_val_nonneg(s);
    } else {
        lemma_digits_val_monotone(s, k + 1);
        lemma_digits_val_nonneg(s.take(k));
        assert(s.take(k + 1).drop_last() =~= s.take(k));
        assert(digits_val(s.take(k + 1)) == digits_val(s.take(k)) * 10 + (s[k] - 48));
        assert(digits_val(s.take(k)) * 10 >= digits_val(s.take(k))) by (nonlinear_arith)
            requires
                digits_val(s.take(k)) >= 0,
        ;
    }
}

/// A digit string's value is non-negative.
proof fn lemma_digits_val_nonneg(s: Seq<u8>)
    requires
        all_digits(s),
    ensures
        digits_val(s) >= 0,
    decreases s.len(),
{
    if s.len() == 0 {
    } else {
        assert(all_digits(s.drop_last()));
        lemma_digits_val_nonneg(s.drop_last());
        assert(digits_val(s.drop_last()) * 10 >= 0) by (nonlinear_arith)
            requires
                digits_val(s.drop_last()) >= 0,
        ;
    }
}

/// Parses a digit run into a 64-bit word; `None` when a byte is not a
/// digit, the run is empty, or the value does not fit.
fn parse_digits(s: &[u8]) -> (r: Option<u64>)
    ensures
        r is Some <==> s@.len() > 0 && all_digits(s@) && digits_val(s@) <= u64::MAX,
        r matches Some(v) ==> v == digits_val(s@),
{
    let n: usize = s.len();
    if n == 0 {
        return None;
    }
    let mut acc: u64 = 0;
    let mut i: usize = 0;
    while i < n
        invariant
            0 <= i <= n,
            n == s@.len(),
            all_digits(s@.take(i as int)),
            acc == digits_val(s@.take(i as int)),
        decreases n - i,
    {
        let c = s[i];
        if c < 48 || c > 57 {
            proof {
                assert(!all_digits(s@));
            }
            return None;
        }
        let d: u64 = (c - 48) as u64;
        let next = match acc.checked_mul(10) {
            Some(m) => m.checked_add(d),
            None => None,
        };
        match next {
            Some(v) => {
                acc = v;
                proof {
                    assert(s@.take(i + 1).drop_last() =~= s@.take(i as int));
                }
                i = i + 1;
            },
            None => {
                proof {
                    lemma_digits_val_monotone(s@.take(i + 1), i as int);
                    assert(s@.take(i + 1).drop_last() =~= s@.take(i as int));
                    assert(digits_val(s@.take(i + 1)) > u64::MAX);
                    if all_digits(s@) {
                        lemma_digits_val_monotone(s@, i + 1);
                        assert(s@.take(s@.len() as int) =~= s@);
                    }
                }
                return None;
            },
        }
    }
    proof {
        assert(s@.take(n as int) =~= s@);
    }
    Some(acc)
}

/// Parses an unsigned integer numeral (optional `+`, then digits) that
/// fits a machine word.
fn parse_uint(s: &[u8]) -> (r: Option<usize>)
    ensures
        r is Some <==> uint_valid(s@) && uint_val(s@) <= usize::MAX,
        r matches Some(v) ==> v == uint_val(s@),
{
    let wide = if s.len() > 0 && s[0] == 43 {
        let rest = &s[1..s.len()];
        proof {
            assert(rest@ =~= s@.skip(1));
        }
        parse_digits(rest)
    } else {
        parse_digits(s)
    };
    match wide {
        Some(v) => if v <= usize::MAX as u64 {
            Some(v as usize)
        } else {
            None
        },
        None => None,
    }
}

/// Ten to the `k` as a machine integer; `None` when it leaves `i64`
/// range.
fn pow10_i64(k: usize) -> (r: Option<i64>)
    ensures
        r matches Some(v) ==> v == pow10(k as nat) && 1 <= v,
        r is None ==> pow10(k as nat) > 0x7fff_ffff_ffff_ffff,
    decreases k,
{
    let mut acc: i64 = 1;
    let mut i: usize = 0;
    while i < k
        invariant
            0 <= i <= k,
            acc == pow10(i as nat),
            1 <= acc,
        decreases k - i,
    {
        if acc > 922_337_203_685_477_580 {
            proof {
                lemma_pow10_monotone((i + 1) as nat, k as nat);
                assert(pow10((i + 1) as nat) == 10 * pow10(i as nat));
                assert(10 * pow10(i as nat) > 0x7fff_ffff_ffff_ffff) by (nonlinear_arith)
                    requires
                        pow10(i as nat) > 922_337_203_685_477_580,
                ;
            }
            return None;
        }
        acc = acc * 10;
        i = i + 1;
    }
    Some(acc)
}

/// Powers of ten grow with the exponent.
proof fn lemma_pow10_monotone(a: nat, b: nat)
    requires
        a <= b,
    ensures
        pow10(b) >= pow10(a),
        pow10(a) >= 1,
    decreases b,
{
    if a == b {
        lemma_pow10_pos(a);
    } else {
        lemma_pow10_monotone(a, (b - 1) as nat);
        assert(pow10(b) == 10 * pow10((b - 1) as nat));
        assert(10 * pow10((b - 1) as nat) >= pow10((b - 1) as nat)) by (nonlinear_arith)
            requires
                pow10((b - 1) as nat) >= 1,
        ;
    }
}

/// Powers of ten are positive.
proof fn lemma_pow10_pos(a: nat)
    ensures
        pow10(a) >= 1,
    decreases a,
{
    if a == 0 {
    } else {
        lemma_pow10_pos((a - 1) as nat);
        assert(10 * pow10((a - 1) as nat) >= 1) by (nonlinear_arith)
            requires
                pow10((a - 1) as nat) >= 1,
        ;
    }
}

/// Parses a plain decimal numeral into an exact rational; `None` when
/// the numeral is malformed or its exact value cannot be held.
fn parse_dec(s: &[u8]) -> (r: Option<Rat>)
    ensures
        r is Some <==> dec_valid(s@) && dec_fits(s@),
        r matches Some(c) ==> rat_eq(c@, dec_val(s@)),
{
    let neg = s.len() > 0 && s[0] == 45;
    let signed = s.len() > 0 && (s[0] == 45 || s[0] == 43);
    let d: &[u8] = if signed {
        &s[1..s.len()]
    } else {
        &s[0..s.len()]
    };
    proof {
        assert(d@ =~= dec_digits(s@));
    }
    if d.len() == 0 {
        return None;
    }
    let dot: usize = find_byte(d, 0, 46);
    proof {
        assert(d@.skip(0) =~= d@);
    }
    let iv: u64 = if dot == 0 {
        proof {
            assert(dec_digits(s@).take(0) =~= Seq::<u8>::empty());
        }
        0
    } else {
        let ipart = &d[0..dot];
        proof {
            assert(ipart@ =~= dec_digits(s@).take(dot as int));
        }
        match parse_digits(ipart) {
            Some(v) => v,
            None => {
                proof {
                    if dec_valid(s@) && dec_fits(s@) {
                        lemma_dec_too_big(s@, dot as int);
                    }
                }
                return None;
            },
        }
    };
    let (fv, flen): (u64, usize) = if dot < d.len() {
        let fpart = &d[dot + 1..d.len()];
        proof {
            assert(fpart@ =~= dec_digits(s@).skip(dot + 1));
        }
        if fpart.len() == 0 {
            if dot == 0 {
                return None;
            }
            (0, 0)
        } else {
            match parse_digits(fpart) {
                Some(v) => (v, fpart.len()),
                None => {
                    proof {
                        if dec_valid(s@) && dec_fits(s@) {
                            lemma_dec_too_big(s@, dot as int);
                        }
                    }
                    return None;
                },
            }
        }
    } else {
        if dot == 0 {
            return None;
        }
        proof {
            assert(Seq::<u8>::empty().len() == 0);
        }
        (0, 0)
    };
    let p: i64 = match pow10_i64(flen) {
        Some(v) => v,
        None => {
            return None;
        },
    };
    if iv > i64::MAX as u64 || fv > i64::MAX as u64 {
        proof {
            if dec_valid(s@) && dec_fits(s@) {
                lemma_dec_too_big(s@, dot as int);
            }
        }
        return None;
    }
    proof {
        crate::rat::lemma_prod_in_range(iv as int, p as int);
    }
    let num128: i128 = (iv as i128) * (p as i128) + (fv as i128);
    if num128 > i64::MAX as i128 {
        proof {
            if dec_valid(s@) && dec_fits(s@) {
                lemma_dec_too_big(s@, dot as int);
            }
        }
        return None;
    }
    let num: i64 = num128 as i64;
    proof {
        lemma_digits_val_nonneg(dec_digits(s@).take(dot as int));
        if dot < d@.len() {
            lemma_digits_val_nonneg(dec_digits(s@).skip(dot + 1));
        }
        assert(num >= 0) by (nonlinear_arith)
            requires
                num as int == iv as int * p as int + fv as int,
                iv >= 0,
                fv >= 0,
                p >= 1,
        ;
    }
    let signed: i64 = if neg {
        -num
    } else {
        num
    };
    match Rat::new(signed, p) {
        Some(c) => Some(c),
        None => {
            proof {
                assert(false);
            }
            None
        },
    }
}

/// The whole decimal value bounds each of its parts: if the numeral
/// fits the machine, so do its integer part, its fraction part, and the
/// scale.
proof fn lemma_dec_too_big(s: Seq<u8>, dot: int)
    requires
        dot == bpos(dec_digits(s), 46),
        dec_valid(s),
        dec_fits(s),
    ensures
        digits_val(dec_digits(s).take(dot)) <= 0x7fff_ffff_ffff_ffff,
        dot < dec_digits(s).len() ==> digits_val(dec_digits(s).skip(dot + 1))
            <= 0x7fff_ffff_ffff_ffff,
{
    let d = dec_digits(s);
    let frac = if dot < d.len() {
        d.skip(dot + 1)
    } else {
        Seq::<u8>::empty()
    };
    let iv = digits_val(d.take(dot));
    let fv = digits_val(frac);
    let p = pow10(frac.len());
    lemma_pow10_pos(frac.len());
    lemma_digits_val_nonneg(d.take(dot));
    if dot < d.len() {
        lemma_digits_val_nonneg(frac);
    }
    assert(iv <= iv * p && fv <= iv * p + fv) by (nonlinear_arith)
        requires
            iv >= 0,
            fv >= 0,
            p >= 1,
    ;
}

/// The first token of a line: the bytes before the first space.
pub open spec fn first_tok(s: Seq<u8>) -> Seq<u8> {
    s.take(bpos(s, 32))
}

/// A line without its trailing carriage return, if it has one.
pub open spec fn strip_cr(s: Seq<u8>) -> Seq<u8> {
    if s.len() > 0 && s.last() == 13 {
        s.drop_last()
    } else {
        s
    }
}

/// The lines of a text, split at newlines, each without a trailing
/// carriage return; a trailing newline ends the last line rather than
/// opening an empty one.
pub open spec fn split_lines(s: Seq<u8>) -> Seq<Seq<u8>>
    decreases s.len(),
{
    if s.len() == 0 {
        Seq::empty()
    } else {
        let i = bpos(s, 10);
        if 0 <= i && i < s.len() {
            seq![strip_cr(s.take(i))] + split_lines(s.skip(i + 1))
        } else {
            seq![strip_cr(s)]
        }
    }
}

/// The vertices the lines carry, in order: one triple of exact rational
/// values for every well-formed line whose first token is `v`.
pub open spec fn verts_of_lines(ls: Seq<Seq<u8>>) -> Seq<(RatV, RatV, RatV)>
    decreases ls.len(),
{
    if ls.len() == 0 {
        Seq::empty()
    } else {
        let rest = verts_of_lines(ls.skip(1));
        if first_tok(ls[0]) == seq![118u8] && vertex_of_line(ls[0]) is Some {
            seq![vertex_of_line(ls[0]).unwrap()] + rest
        } else {
            rest
        }
    }
}

/// The faces the lines carry, in order: one index triple for every
/// well-formed line whose first token is `f`.
pub open spec fn faces_of_lines(ls: Seq<Seq<u8>>) -> Seq<(int, int, int)>
    decreases ls.len(),
{
    if ls.len() == 0 {
        Seq::empty()
    } else {
        let rest = faces_of_lines(ls.skip(1));
        if first_tok(ls[0]) == seq![102u8] && face_of_line(ls[0]) is Some {
            seq![face_of_line(ls[0]).unwrap()] + rest
        } else {
            rest
        }
    }
}

/// The parsed vertex agrees with the specified triple component-wise.
pub open spec fn vert_match(v: Vector3<Rat>, w: (RatV, RatV, RatV)) -> bool {
    rat_eq(v.x@, w.0) && rat_eq(v.y@, w.1) && rat_eq(v.z@, w.2)
}

/// The boundaries of the second, third and fourth tokens of the line,
/// or `None` when it has fewer than four.
fn token3(line: &[u8]) -> (r: Option<((usize, usize), (usize, usize), (usize, usize))>)
    ensures
        r is Some <==> tokens(line@).len() >= 4,
        r matches Some(b) ==> b.0.0 <= b.0.1 <= line@.len() && b.1.0 <= b.1.1 <= line@.len()
            && b.2.0 <= b.2.1 <= line@.len() && line@.subrange(b.0.0 as int, b.0.1 as int)
            == tokens(line@)[1] && line@.subrange(b.1.0 as int, b.1.1 as int) == tokens(line@)[2]
            && line@.subrange(b.2.0 as int, b.2.1 as int) == tokens(line@)[3],
{
    let n: usize = line.len();
    let e0 = find_byte(line, 0, 32);
    proof {
        assert(line@.skip(0) =~= line@);
        assert(tokens(line@).len() >= 1);
    }
    if e0 == n {
        proof {
            assert(tokens(line@) =~= seq![line@]);
        }
        return None;
    }
    let s1 = e0 + 1;
    let e1 = find_byte(line, s1, 32);
    let ghost rest1 = line@.skip(s1 as int);
    proof {
        assert(tokens(line@) =~= seq![line@.take(e0 as int)] + tokens(rest1));
    }
    if e1 == n {
        proof {
            assert(bpos(rest1, 32) == rest1.len());
            assert(tokens(rest1) =~= seq![rest1]);
            assert(tokens(line@).len() == 2);
        }
        return None;
    }
    let s2 = e1 + 1;
    let e2 = find_byte(line, s2, 32);
    let ghost rest2 = line@.skip(s2 as int);
    proof {
        assert(rest1.take(e1 - s1) =~= line@.subrange(s1 as int, e1 as int));
        assert(rest1.skip(e1 - s1 + 1) =~= rest2);
        assert(tokens(rest1) =~= seq![line@.subrange(s1 as int, e1 as int)] + tokens(rest2));
    }
    if e2 == n {
        proof {
            assert(bpos(rest2, 32) == rest2.len());
            assert(tokens(rest2) =~= seq![rest2]);
            assert(tokens(line@).len() == 3);
        }
        return None;
    }
    let s3 = e2 + 1;
    let e3 = find_byte(line, s3, 32);
    let ghost rest3 = line@.skip(s3 as int);
    proof {
        assert(rest2.take(e2 - s2) =~= line@.subrange(s2 as int, e2 as int));
        assert(rest2.skip(e2 - s2 + 1) =~= rest3);
        assert(tokens(rest2) =~= seq![line@.subrange(s2 as int, e2 as int)] + tokens(rest3));
        assert(tokens(rest3).len() >= 1);
        if e3 == n {
            assert(bpos(rest3, 32) == rest3.len());
            assert(tokens(rest3) =~= seq![rest3]);
            assert(rest3 =~= line@.subrange(s3 as int, e3 as int));
        } else {
            assert(tokens(rest3) =~= seq![rest3.take(e3 - s3)] + tokens(rest3.skip(e3 - s3 + 1)));
            assert(rest3.take(e3 - s3) =~= line@.subrange(s3 as int, e3 as int));
        }
        assert(tokens(line@)[1] == line@.subrange(s1 as int, e1 as int));
        assert(tokens(line@)[2] == line@.subrange(s2 as int, e2 as int));
        assert(tokens(line@)[3] == line@.subrange(s3 as int, e3 as int));
        assert(tokens(line@).len() >= 4);
    }
    Some(((s1, e1), (s2, e2), (s3, e3)))
}

/// Parses a face line: three 1-based vertex indices, each the part of
/// its token before the first `/`. `None` exactly when the line is not
/// a well-formed face line.
pub fn parse_face(line: &[u8]) -> (r: Option<Face>)
    ensures
        r is Some <==> face_of_line(line@) is Some,
        r matches Some(f) ==> face_of_line(line@) == Some(
            (f.one as int, f.two as int, f.three as int),
        ),
{
    let bounds = match token3(line) {
        Some(b) => b,
        None => {
            return None;
        },
    };
    let one = match parse_face_token(line, bounds.0.0, bounds.0.1) {
        Some(v) => v,
        None => {
            return None;
        },
    };
    let two = match parse_face_token(line, bounds.1.0, bounds.1.1) {
        Some(v) => v,
        None => {
            return None;
        },
    };
    let three = match parse_face_token(line, bounds.2.0, bounds.2.1) {
        Some(v) => v,
        None => {
            return None;
        },
    };
    Some(Face { one, two, three })
}

/// Parses one face token between the given line offsets.
fn parse_face_token(line: &[u8], s: usize, e: usize) -> (r: Option<usize>)
    requires
        s <= e <= line@.len(),
    ensures
        r is Some <==> face_token_ok(line@.subrange(s as int, e as int)),
        r matches Some(v) ==> v == face_token_val(line@.subrange(s as int, e as int)),
{
    let tk = &line[s..e];
    proof {
        assert(tk@ =~= line@.subrange(s as int, e as int));
    }
    let slash = find_byte(tk, 0, 47);
    proof {
        assert(tk@.skip(0) =~= tk@);
    }
    if slash == tk.len() {
        return None;
    }
    let num = &tk[0..slash];
    proof {
        assert(num@ =~= tk@.take(slash as int));
    }
    parse_uint(num)
}

/// Parses a vertex line: three plain decimal coordinates as exact
/// rationals. `None` exactly when the line is not a well-formed vertex
/// line.
pub fn parse_vertex(line: &[u8]) -> (r: Option<Vector3<Rat>>)
    ensures
        r is Some <==> vertex_of_line(line@) is Some,
        r matches Some(v) ==> vertex_of_line(line@) matches Some(w) && vert_match(v, w),
{
    let bounds = match token3(line) {
        Some(b) => b,
        None => {
            return None;
        },
    };
    let tx = &line[bounds.0.0..bounds.0.1];
    let ty = &line[bounds.1.0..bounds.1.1];
    let tz = &line[bounds.2.0..bounds.2.1];
    proof {
        assert(tx@ =~= line@.subrange(bounds.0.0 as int, bounds.0.1 as int));
        assert(ty@ =~= line@.subrange(bounds.1.0 as int, bounds.1.1 as int));
        assert(tz@ =~= line@.subrange(bounds.2.0 as int, bounds.2.1 as int));
    }
    let x = match parse_dec(tx) {
        Some(v) => v,
        None => {
            return None;
        },
    };
    let y = match parse_dec(ty) {
        Some(v) => v,
        None => {
            return None;
        },
    };
    let z = match parse_dec(tz) {
        Some(v) => v,
        None => {
            return None;
        },
    };
    Some(Vector3 { x, y, z })
}

/// Parses a whole mesh text: vertex and face lines in order, with
/// malformed lines and lines of other kinds skipped.
#[verifier::rlimit(60)]
pub fn parse_obj_file(text: &[u8]) -> (obj: ObjFile)
    ensures
        obj.verticies@.len() == verts_of_lines(split_lines(text@)).len(),
        forall|k: int|
            0 <= k < obj.verticies@.len() ==> vert_match(
                #[trigger] obj.verticies@[k],
                verts_of_lines(split_lines(text@))[k],
            ),
        obj.faces@.len() == faces_of_lines(split_lines(text@)).len(),
        forall|k: int|
            0 <= k < obj.faces@.len() ==> (#[trigger] obj.faces@[k]).one as int == faces_of_lines(
                split_lines(text@),
            )[k].0 && obj.faces@[k].two as int == faces_of_lines(split_lines(text@))[k].1
                && obj.faces@[k].three as int == faces_of_lines(split_lines(text@))[k].2,
{
    let ghost fullv = verts_of_lines(split_lines(text@));
    let ghost fullf = faces_of_lines(split_lines(text@));
    let n: usize = text.len();
    let mut verts: Vec<Vector3<Rat>> = Vec::new();
    let mut faces: Vec<Face> = Vec::new();
    let mut p: usize = 0;
    proof {
        assert(text@.skip(0) =~= text@);
    }
    while p < n
        invariant
            p <= n,
            n == text@.len(),
            fullv == verts_of_lines(split_lines(text@)),
            fullf == faces_of_lines(split_lines(text@)),
            fullv.len() == verts@.len() + verts_of_lines(split_lines(text@.skip(p as int))).len(),
            forall|k: int|
                0 <= k < verts@.len() ==> vert_match(#[trigger] verts@[k], fullv[k]),
            forall|k: int|
                0 <= k < verts_of_lines(split_lines(text@.skip(p as int))).len() ==> fullv[
                    verts@.len() + k] == #[trigger] verts_of_lines(
                    split_lines(text@.skip(p as int)),
                )[k],
            fullf.len() == faces@.len() + faces_of_lines(split_lines(text@.skip(p as int))).len(),
            forall|k: int|
                0 <= k < faces@.len() ==> (#[trigger] faces@[k]).one as int == fullf[k].0
                    && faces@[k].two as int == fullf[k].1 && faces@[k].three as int == fullf[k].2,
            forall|k: int|
                0 <= k < faces_of_lines(split_lines(text@.skip(p as int))).len() ==> fullf[
                    faces@.len() + k] == #[trigger] faces_of_lines(
                    split_lines(text@.skip(p as int)),
                )[k],
        decreases n - p,
    {
        let ghost suffix = text@.skip(p as int);
        let e = find_byte(text, p, 10);
        let le: usize = if e > p && text[e - 1] == 13 {
            e - 1
        } else {
            e
        };
        let line = &text[p..le];
        let ghost ls = split_lines(suffix);
        let ghost lsrest = if e < n {
            split_lines(text@.skip(e + 1))
        } else {
            Seq::<Seq<u8>>::empty()
        };
        proof {
            assert(suffix.len() > 0);
            assert(bpos(suffix, 10) == e - p);
            if e < n {
                assert(suffix.take(e - p) =~= text@.subrange(p as int, e as int));
                assert(suffix.skip(e - p + 1) =~= text@.skip(e + 1));
                assert(strip_cr(text@.subrange(p as int, e as int)) =~= line@);
                assert(ls =~= seq![line@] + lsrest);
            } else {
                assert(suffix =~= text@.subrange(p as int, e as int));
                assert(strip_cr(text@.subrange(p as int, e as int)) =~= line@);
                assert(ls =~= seq![line@]);
                assert(ls =~= seq![line@] + lsrest);
            }
            assert((seq![line@] + lsrest).skip(1) =~= lsrest);
            assert(verts_of_lines(ls) == (if first_tok(line@) == seq![118u8] && vertex_of_line(
                line@,
            ) is Some {
                seq![vertex_of_line(line@).unwrap()] + verts_of_lines(lsrest)
            } else {
                verts_of_lines(lsrest)
            }));
            assert(faces_of_lines(ls) == (if first_tok(line@) == seq![102u8] && face_of_line(
                line@,
            ) is Some {
                seq![face_of_line(line@).unwrap()] + faces_of_lines(lsrest)
            } else {
                faces_of_lines(lsrest)
            }));
        }
        let t0e = find_byte(line, 0, 32);
        let ghost isv = first_tok(line@) == seq![118u8];
        let ghost isf = first_tok(line@) == seq![102u8];
        proof {
            assert(line@.skip(0) =~= line@);
            lemma_bpos_char(line@, 32);
            assert(first_tok(line@).len() == bpos(line@, 32));
            if t0e == 1 && line@.len() >= 1 && line@[0] == 118 {
                assert(first_tok(line@) =~= seq![118u8]);
            }
            if t0e == 1 && line@.len() >= 1 && line@[0] == 102 {
                assert(first_tok(line@) =~= seq![102u8]);
            }
            if isv {
                assert(bpos(line@, 32) == 1);
                assert(line@[0] == first_tok(line@)[0]);
                assert(line@[0] == 118);
            }
            if isf {
                assert(bpos(line@, 32) == 1);
                assert(line@[0] == first_tok(line@)[0]);
                assert(line@[0] == 102);
            }
            assert(isv <==> (t0e == 1 && line@.len() >= 1 && line@[0] == 118));
            assert(isf <==> (t0e == 1 && line@.len() >= 1 && line@[0] == 102));
        }
        if t0e == 1 && line.len() >= 1 && line[0] == 118 {
            match parse_vertex(line) {
                Some(v) => {
                    verts.push(v);
                },
                None => {},
            }
        } else if t0e == 1 && line.len() >= 1 && line[0] == 102 {
            match parse_face(line) {
                Some(f) => {
                    faces.push(f);
                },
                None => {},
            }
        }
        if e == n {
            p = n;
        } else {
            p = e + 1;
        }
        proof {
            if e == n {
                assert(text@.skip(n as int) =~= Seq::<u8>::empty());
            }
            assert(split_lines(text@.skip(p as int)) == lsrest);
            let vrem = verts_of_lines(ls);
            let vrem2 = verts_of_lines(lsrest);
            let frem = faces_of_lines(ls);
            let frem2 = faces_of_lines(lsrest);
            if isv && vertex_of_line(line@) is Some {
                let w = vertex_of_line(line@).unwrap();
                assert(vrem == seq![w] + vrem2);
                assert(vrem[0] == w);
                assert(forall|k: int| 0 <= k < vrem2.len() ==> vrem[k + 1] == #[trigger] vrem2[k]);
            } else {
                assert(vrem == vrem2);
            }
            if isf && face_of_line(line@) is Some {
                let g = face_of_line(line@).unwrap();
                assert(frem == seq![g] + frem2);
                assert(frem[0] == g);
                assert(forall|k: int| 0 <= k < frem2.len() ==> frem[k + 1] == #[trigger] frem2[k]);
            } else {
                assert(frem == frem2);
            }
        }
    }
    proof {
        assert(text@.skip(n as int) =~= Seq::<u8>::empty());
    }
    ObjFile { verticies: verts, faces }
}

} // verus!
