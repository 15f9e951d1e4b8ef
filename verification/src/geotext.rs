//! The textual geometry format: a GeoJSON geometry object decoded
//! directly into fixed-point shapes.
//!
//! The decoder reads the common serialized form: one object whose
//! members are `"type"` and `"coordinates"`, in that order, with any
//! interleaving whitespace.  Coordinates are decimal numbers, with an
//! optional exponent, read exactly into nano-units; a coordinate that
//! does not fit the fixed-point range fails the whole literal, and the
//! row it came from degrades as the materializer specifies.

use vstd::prelude::*;

use crate::geom::{Coord, GeoShape, PolyShape, ShapeView, COORD_LIMIT};
use crate::numbers::{
    all_digits, digits_val, is_digit, lemma_digits_val_nonneg, lemma_digits_val_take_le, pow10,
    pow10_u64,
};

verus! {

/// Largest mantissa a coordinate may carry.
pub const GEO_MANT_LIMIT: u64 = 1_000_000_000_000_000_000;

/// Largest fractional length or exponent magnitude the decoder reads.
pub const SCALE_LIMIT: u64 = 1_000;

pub open spec fn is_ws(c: char) -> bool {
    c == ' ' || c == '\t' || c == '\n' || c == '\r'
}

/// The first index at or after `pos` holding something besides
/// whitespace.
pub open spec fn ws_end(s: Seq<char>, pos: int) -> int
    decreases s.len() - pos,
{
    if 0 <= pos < s.len() && is_ws(s[pos]) {
        ws_end(s, pos + 1)
    } else {
        pos
    }
}

pub proof fn lemma_ws_end(s: Seq<char>, pos: int)
    requires
        0 <= pos <= s.len(),
    ensures
        pos <= ws_end(s, pos) <= s.len(),
    decreases s.len() - pos,
{
    if pos < s.len() && is_ws(s[pos]) {
        lemma_ws_end(s, pos + 1);
    }
}

fn skip_ws(s: &str, pos: usize) -> (r: usize)
    requires
        pos <= s@.len(),
    ensures
        r == ws_end(s@, pos as int),
        pos <= r <= s@.len(),
    decreases s@.len() - pos,
{
    proof {
        lemma_ws_end(s@, pos as int);
    }
    if pos < s.unicode_len() {
        let c = s.get_char(pos);
        if c == ' ' || c == '\t' || c == '\n' || c == '\r' {
            return skip_ws(s, pos + 1);
        }
    }
    pos
}

/// The first index at or after `pos` holding a non-digit.
pub open spec fn digits_end(s: Seq<char>, pos: int) -> int
    decreases s.len() - pos,
{
    if 0 <= pos < s.len() && is_digit(s[pos]) {
        digits_end(s, pos + 1)
    } else {
        pos
    }
}

pub proof fn lemma_digits_end(s: Seq<char>, pos: int)
    requires
        0 <= pos <= s.len(),
    ensures
        pos <= digits_end(s, pos) <= s.len(),
        all_digits(s.subrange(pos, digits_end(s, pos))),
        digits_end(s, pos) < s.len() ==> !is_digit(s[digits_end(s, pos)]),
    decreases s.len() - pos,
{
    let e = digits_end(s, pos);
    if pos < s.len() && is_digit(s[pos]) {
        lemma_digits_end(s, pos + 1);
        assert forall|i: int| 0 <= i < e - pos implies is_digit(
            #[trigger] s.subrange(pos, e)[i],
        ) by {
            if i > 0 {
                assert(s.subrange(pos + 1, e)[i - 1] == s[pos + i]);
            }
        }
    }
}

fn find_digits_end(s: &str, pos: usize) -> (r: usize)
    requires
        pos <= s@.len(),
    ensures
        r == digits_end(s@, pos as int),
        pos <= r <= s@.len(),
    decreases s@.len() - pos,
{
    proof {
        lemma_digits_end(s@, pos as int);
    }
    if pos < s.unicode_len() {
        let u = s.get_char(pos) as u32;
        if '0' as u32 <= u && u <= '9' as u32 {
            return find_digits_end(s, pos + 1);
        }
    }
    pos
}

/// The fractional part, if a dot stands at `pos`: its digit count, its
/// digits' value, and its end.  A dot without a digit fails.
pub open spec fn frac_spec(s: Seq<char>, pos: int) -> Option<(int, int, int)> {
    if 0 <= pos < s.len() && s[pos] == '.' {
        let e = digits_end(s, pos + 1);
        if e > pos + 1 {
            Some((e - pos - 1, digits_val(s.subrange(pos + 1, e)), e))
        } else {
            None
        }
    } else {
        Some((0, 0, pos))
    }
}

/// The signed exponent, if `e` or `E` stands at `pos`, and its end.
/// An exponent marker without a digit fails.
pub open spec fn exp_spec(s: Seq<char>, pos: int) -> Option<(int, int)> {
    if 0 <= pos < s.len() && (s[pos] == 'e' || s[pos] == 'E') {
        let neg = pos + 1 < s.len() && s[pos + 1] == '-';
        let signed = pos + 1 < s.len() && (s[pos + 1] == '-' || s[pos + 1] == '+');
        let p1 = if signed {
            pos + 2
        } else {
            pos + 1
        };
        let e = digits_end(s, p1);
        if e > p1 {
            let v = digits_val(s.subrange(p1, e));
            Some((
                if neg {
                    -v
                } else {
                    v
                },
                e,
            ))
        } else {
            None
        }
    } else {
        Some((0, pos))
    }
}

/// Scales a nonnegative mantissa onto the nano grid: the number is
/// `mant * 10^tenexp` map units.  A magnitude beyond the coordinate
/// bound fails; precision beyond the grid truncates toward zero.
pub open spec fn nano_of(neg: bool, mant: int, tenexp: int) -> Option<i64> {
    let k = tenexp + 9;
    if k < 0 {
        let mag = mant / pow10((-k) as nat);
        Some(
            (if neg {
                -mag
            } else {
                mag
            }) as i64,
        )
    } else {
        let mag = mant * pow10(k as nat);
        if mag > COORD_LIMIT as int {
            None
        } else {
            Some(
                (if neg {
                    -mag
                } else {
                    mag
                }) as i64,
            )
        }
    }
}

/// One number at `pos`: an optional minus sign, integer digits, an
/// optional dotted fraction, an optional exponent; read exactly into
/// nano-units, and where it ends.
pub open spec fn num_spec(s: Seq<char>, pos: int) -> Option<(i64, int)> {
    let neg = 0 <= pos < s.len() && s[pos] == '-';
    let p1 = if neg {
        pos + 1
    } else {
        pos
    };
    let ie = digits_end(s, p1);
    if !(0 <= pos <= s.len()) || ie == p1 {
        None
    } else {
        match frac_spec(s, ie) {
            None => None,
            Some((fraclen, fv, fe)) => match exp_spec(s, fe) {
                None => None,
                Some((expv, ee)) => {
                    let mant = digits_val(s.subrange(p1, ie)) * pow10(fraclen as nat) + fv;
                    if fraclen > SCALE_LIMIT as int || expv > SCALE_LIMIT as int || expv < -(
                    SCALE_LIMIT as int) || mant > GEO_MANT_LIMIT as int {
                        None
                    } else {
                        match nano_of(neg, mant, expv - fraclen) {
                            None => None,
                            Some(v) => Some((v, ee)),
                        }
                    }
                },
            },
        }
    }
}

/// Reads the digits of `[from, to)`, whose value must stay at or under
/// `cap`.
fn scan_digits(s: &str, from: usize, to: usize, cap: u64) -> (r: Option<u64>)
    requires
        from <= to <= s@.len(),
        all_digits(s@.subrange(from as int, to as int)),
        cap <= GEO_MANT_LIMIT,
    ensures
        match r {
            Some(v) => v == digits_val(s@.subrange(from as int, to as int)) && v <= cap,
            None => digits_val(s@.subrange(from as int, to as int)) > cap,
        },
{
    let ghost sub = s@.subrange(from as int, to as int);
    let mut acc: u64 = 0;
    let mut j = from;
    while j < to
        invariant
            from <= j <= to <= s@.len(),
            sub == s@.subrange(from as int, to as int),
            all_digits(sub),
            cap <= GEO_MANT_LIMIT,
            acc == digits_val(sub.take(j - from)),
            acc <= cap,
        decreases to - j,
    {
        let c = s.get_char(j);
        proof {
            assert(sub[j - from] == s@[j as int]);
            assert(is_digit(sub[j - from]));
        }
        let u = c as u32;
        let d = (u - '0' as u32) as u64;
        let t = acc * 10 + d;
        proof {
            assert(sub.take(j - from + 1).drop_last() =~= sub.take(j - from));
            assert(sub.take(j - from + 1).last() == sub[j - from]);
            assert(digits_val(sub.take(j - from + 1)) == t);
        }
        if t > cap {
            proof {
                lemma_digits_val_take_le(sub, j - from + 1);
            }
            return None;
        }
        acc = t;
        j = j + 1;
    }
    proof {
        assert(sub.take(sub.len() as int) =~= sub);
    }
    Some(acc)
}

proof fn lemma_mant_parts(dvi: int, p: int, fv: int)
    requires
        dvi >= 0,
        p >= 1,
        fv >= 0,
    ensures
        dvi * p + fv >= dvi,
        dvi * p + fv >= fv,
{
    assert(dvi * p >= dvi && dvi * p >= 0) by (nonlinear_arith)
        requires
            dvi >= 0,
            p >= 1,
    ;
}

/// Reads one number; `None` exactly where `num_spec` says so.
#[verifier::rlimit(60)]
fn parse_number(s: &str, pos: usize) -> (r: Option<(i64, usize)>)
    requires
        pos <= s@.len(),
    ensures
        match r {
            Some((v, e)) => num_spec(s@, pos as int) == Some((v, e as int)) && pos < e <= s@.len()
                && -COORD_LIMIT <= v <= COORD_LIMIT,
            None => num_spec(s@, pos as int) is None,
        },
{
    let n = s.unicode_len();
    let mut neg = false;
    let mut p1 = pos;
    if pos < n {
        if s.get_char(pos) == '-' {
            neg = true;
            p1 = pos + 1;
        }
    }
    let ie = find_digits_end(s, p1);
    if ie == p1 {
        return None;
    }
    proof {
        lemma_digits_end(s@, p1 as int);
    }
    let dvi = match scan_digits(s, p1, ie, GEO_MANT_LIMIT) {
        Some(v) => v,
        None => {
            proof {
                match frac_spec(s@, ie as int) {
                    Some((fraclen, fv, _fe)) => {
                        if 0 <= ie < s@.len() && s@[ie as int] == '.' {
                            lemma_digits_end(s@, ie + 1);
                            lemma_digits_val_nonneg(
                                s@.subrange(ie + 1, digits_end(s@, ie + 1)),
                            );
                        }
                        crate::numbers::lemma_pow10_pos(fraclen as nat);
                        lemma_mant_parts(
                            digits_val(s@.subrange(p1 as int, ie as int)),
                            pow10(fraclen as nat),
                            fv,
                        );
                    },
                    None => {},
                }
            }
            return None;
        },
    };
    // Fraction.
    let mut fraclen: usize = 0;
    let mut fv: u64 = 0;
    let mut fe = ie;
    if ie < n {
        if s.get_char(ie) == '.' {
            let de = find_digits_end(s, ie + 1);
            if de == ie + 1 {
                return None;
            }
            proof {
                lemma_digits_end(s@, ie + 1);
            }
            fe = de;
            fraclen = de - (ie + 1);
            fv = match scan_digits(s, ie + 1, de, GEO_MANT_LIMIT) {
                Some(v) => v,
                None => {
                    proof {
                        lemma_digits_val_nonneg(s@.subrange(p1 as int, ie as int));
                        crate::numbers::lemma_pow10_pos(fraclen as nat);
                        lemma_mant_parts(
                            digits_val(s@.subrange(p1 as int, ie as int)),
                            pow10(fraclen as nat),
                            digits_val(s@.subrange(ie + 1, de as int)),
                        );
                    }
                    return None;
                },
            };
        }
    }
    // Exponent.
    let mut expv: u64 = 0;
    let mut expneg = false;
    let mut ee = fe;
    if fe < n {
        let c = s.get_char(fe);
        if c == 'e' || c == 'E' {
            let mut p2 = fe + 1;
            if fe + 1 < n {
                let cs = s.get_char(fe + 1);
                if cs == '-' {
                    expneg = true;
                    p2 = fe + 2;
                } else if cs == '+' {
                    p2 = fe + 2;
                }
            }
            let de = find_digits_end(s, p2);
            if de == p2 {
                return None;
            }
            proof {
                lemma_digits_end(s@, p2 as int);
            }
            ee = de;
            expv = match scan_digits(s, p2, de, SCALE_LIMIT) {
                Some(v) => v,
                None => {
                    return None;
                },
            };
        }
    }
    if fraclen > SCALE_LIMIT as usize {
        return None;
    }
    // Combine the two digit runs into one mantissa.
    let mant: u64 = if dvi == 0 {
        proof {
            assert(digits_val(s@.subrange(p1 as int, ie as int)) * pow10(fraclen as nat)
                == 0) by (nonlinear_arith)
                requires
                    digits_val(s@.subrange(p1 as int, ie as int)) == 0,
            ;
        }
        fv
    } else if fraclen > 18 {
        proof {
            crate::numbers::lemma_pow10_mono(19, fraclen as nat);
            crate::numbers::lemma_pow10_18();
            reveal_with_fuel(pow10, 21);
            assert(pow10(19) == 10_000_000_000_000_000_000);
            let dvii = digits_val(s@.subrange(p1 as int, ie as int));
            assert(dvii * pow10(fraclen as nat) > GEO_MANT_LIMIT as int) by (nonlinear_arith)
                requires
                    dvii >= 1,
                    pow10(fraclen as nat) > GEO_MANT_LIMIT as int,
            ;
            if 0 <= ie < s@.len() && s@[ie as int] == '.' {
                lemma_digits_val_nonneg(s@.subrange(ie + 1, fe as int));
            }
        }
        return None;
    } else {
        let p = pow10_u64(fraclen as u32);
        proof {
            let m = GEO_MANT_LIMIT as int;
            crate::numbers::lemma_pow10_mono(fraclen as nat, 18);
            crate::numbers::lemma_pow10_18();
            assert(dvi * p <= m * m) by (nonlinear_arith)
                requires
                    0 <= dvi as int <= m,
                    0 <= p as int <= m,
            ;
        }
        let wide = (dvi as u128) * (p as u128) + (fv as u128);
        if wide > GEO_MANT_LIMIT as u128 {
            return None;
        }
        wide as u64
    };
    // Scale onto the nano grid.
    let k: i64 = (if expneg {
        -(expv as i64)
    } else {
        expv as i64
    }) - (fraclen as i64) + 9;
    let mag: u64 = if k < 0 {
        if k < -18 {
            proof {
                let nk = (-(k as int)) as nat;
                crate::numbers::lemma_pow10_mono(19, nk);
                crate::numbers::lemma_pow10_18();
                reveal_with_fuel(pow10, 21);
                assert(pow10(19) == 10_000_000_000_000_000_000);
                assert(mant as int / pow10(nk) == 0) by (nonlinear_arith)
                    requires
                        0 <= mant as int,
                        (mant as int) < pow10(nk),
                ;
            }
            0
        } else {
            let p = pow10_u64((-k) as u32);
            proof {
                crate::numbers::lemma_pow10_pos((-(k as int)) as nat);
                assert(0 <= mant as int / p as int <= mant as int) by (nonlinear_arith)
                    requires
                        p as int >= 1,
                        mant as int >= 0,
                ;
            }
            mant / p
        }
    } else {
        if k > 18 {
            if mant == 0 {
                proof {
                    assert(0 * pow10(k as nat) == 0) by (nonlinear_arith);
                }
                0
            } else {
                proof {
                    crate::numbers::lemma_pow10_mono(19, k as nat);
                    crate::numbers::lemma_pow10_18();
                    reveal_with_fuel(pow10, 21);
                    assert(pow10(19) == 10_000_000_000_000_000_000);
                    assert(mant as int * pow10(k as nat) > COORD_LIMIT as int)
                        by (nonlinear_arith)
                        requires
                            mant as int >= 1,
                            pow10(k as nat) > COORD_LIMIT as int,
                    ;
                }
                return None;
            }
        } else {
            let p = pow10_u64(k as u32);
            proof {
                let m = GEO_MANT_LIMIT as int;
                crate::numbers::lemma_pow10_mono(k as nat, 18);
                crate::numbers::lemma_pow10_18();
                assert(mant * p <= m * m) by (nonlinear_arith)
                    requires
                        0 <= mant as int <= m,
                        0 <= p as int <= m,
                ;
            }
            let wide = (mant as u128) * (p as u128);
            if wide > COORD_LIMIT as u128 {
                return None;
            }
            wide as u64
        }
    };
    let v: i64 = if neg {
        -(mag as i64)
    } else {
        mag as i64
    };
    Some((v, ee))
}

/// The extra entries of a position beyond the second: further numbers,
/// read and discarded, as an altitude would be.
pub open spec fn extras_spec(s: Seq<char>, pos: int) -> Option<int>
    decreases s.len() - pos,
{
    if 0 <= pos < s.len() && s[pos] == ',' {
        let q = ws_end(s, pos + 1);
        if !(pos < q <= s.len()) {
            None
        } else {
            match num_spec(s, q) {
                None => None,
                Some((_v, q2)) => {
                    let q3 = ws_end(s, q2);
                    if pos < q3 <= s.len() {
                        extras_spec(s, q3)
                    } else {
                        None
                    }
                },
            }
        }
    } else {
        Some(pos)
    }
}

/// One position: a bracketed list of at least two numbers; the first
/// two are the coordinate, the rest is discarded.
pub open spec fn position_spec(s: Seq<char>, pos: int) -> Option<(Coord, int)> {
    if !(0 <= pos < s.len() && s[pos] == '[') {
        None
    } else {
        let p1 = ws_end(s, pos + 1);
        match num_spec(s, p1) {
            None => None,
            Some((x, p2)) => {
                let p3 = ws_end(s, p2);
                if !(p3 < s.len() && s[p3] == ',') {
                    None
                } else {
                    let p4 = ws_end(s, p3 + 1);
                    match num_spec(s, p4) {
                        None => None,
                        Some((y, p5)) => {
                            let p6 = ws_end(s, p5);
                            match extras_spec(s, p6) {
                                None => None,
                                Some(p7) => if p7 < s.len() && s[p7] == ']' {
                                    Some((Coord { x, y }, p7 + 1))
                                } else {
                                    None
                                },
                            }
                        },
                    }
                }
            },
        }
    }
}

/// A bracketed, comma-separated run of positions, possibly empty.
pub open spec fn positions_spec(s: Seq<char>, pos: int) -> Option<(Seq<Coord>, int)> {
    if !(0 <= pos < s.len() && s[pos] == '[') {
        None
    } else {
        let p1 = ws_end(s, pos + 1);
        if p1 < s.len() && s[p1] == ']' {
            Some((Seq::empty(), p1 + 1))
        } else {
            match position_spec(s, p1) {
                None => None,
                Some((c, p2)) => if pos < p2 <= s.len() {
                    positions_rest(s, p2, seq![c])
                } else {
                    None
                },
            }
        }
    }
}

pub open spec fn positions_rest(s: Seq<char>, pos: int, acc: Seq<Coord>) -> Option<
    (Seq<Coord>, int),
>
    decreases s.len() - pos,
{
    let q = ws_end(s, pos);
    if q < s.len() && s[q] == ']' {
        Some((acc, q + 1))
    } else if q < s.len() && s[q] == ',' {
        let q2 = ws_end(s, q + 1);
        match position_spec(s, q2) {
            None => None,
            Some((c, q3)) => if pos < q3 <= s.len() {
                positions_rest(s, q3, acc.push(c))
            } else {
                None
            },
        }
    } else {
        None
    }
}

/// A bracketed, comma-separated run of rings, possibly empty.
pub open spec fn rings_spec(s: Seq<char>, pos: int) -> Option<(Seq<Seq<Coord>>, int)> {
    if !(0 <= pos < s.len() && s[pos] == '[') {
        None
    } else {
        let p1 = ws_end(s, pos + 1);
        if p1 < s.len() && s[p1] == ']' {
            Some((Seq::empty(), p1 + 1))
        } else {
            match positions_spec(s, p1) {
                None => None,
                Some((c, p2)) => if pos < p2 <= s.len() {
                    rings_rest(s, p2, seq![c])
                } else {
                    None
                },
            }
        }
    }
}

pub open spec fn rings_rest(s: Seq<char>, pos: int, acc: Seq<Seq<Coord>>) -> Option<
    (Seq<Seq<Coord>>, int),
>
    decreases s.len() - pos,
{
    let q = ws_end(s, pos);
    if q < s.len() && s[q] == ']' {
        Some((acc, q + 1))
    } else if q < s.len() && s[q] == ',' {
        let q2 = ws_end(s, q + 1);
        match positions_spec(s, q2) {
            None => None,
            Some((c, q3)) => if pos < q3 <= s.len() {
                rings_rest(s, q3, acc.push(c))
            } else {
                None
            },
        }
    } else {
        None
    }
}

/// A ring list as a polygon: the first ring is the exterior, the rest
/// are interiors; no ring at all leaves both empty.
pub open spec fn poly_of_rings(rs: Seq<Seq<Coord>>) -> crate::geom::PolyView {
    if rs.len() == 0 {
        crate::geom::PolyView { exterior: Seq::empty(), interiors: Seq::empty() }
    } else {
        crate::geom::PolyView { exterior: rs[0], interiors: rs.drop_first() }
    }
}

/// A bracketed, comma-separated run of polygons, possibly empty.
pub open spec fn polys_spec(s: Seq<char>, pos: int) -> Option<(Seq<crate::geom::PolyView>, int)> {
    if !(0 <= pos < s.len() && s[pos] == '[') {
        None
    } else {
        let p1 = ws_end(s, pos + 1);
        if p1 < s.len() && s[p1] == ']' {
            Some((Seq::empty(), p1 + 1))
        } else {
            match rings_spec(s, p1) {
                None => None,
                Some((c, p2)) => if pos < p2 <= s.len() {
                    polys_rest(s, p2, seq![poly_of_rings(c)])
                } else {
                    None
                },
            }
        }
    }
}

pub open spec fn polys_rest(s: Seq<char>, pos: int, acc: Seq<crate::geom::PolyView>) -> Option<
    (Seq<crate::geom::PolyView>, int),
>
    decreases s.len() - pos,
{
    let q = ws_end(s, pos);
    if q < s.len() && s[q] == ']' {
        Some((acc, q + 1))
    } else if q < s.len() && s[q] == ',' {
        let q2 = ws_end(s, q + 1);
        match rings_spec(s, q2) {
            None => None,
            Some((c, q3)) => if pos < q3 <= s.len() {
                polys_rest(s, q3, acc.push(poly_of_rings(c)))
            } else {
                None
            },
        }
    } else {
        None
    }
}

/// Whether the fixed text stands at `pos`, and where it ends.
pub open spec fn lit_end(s: Seq<char>, pos: int, lit: Seq<char>) -> Option<int> {
    if 0 <= pos && pos + lit.len() <= s.len() && s.subrange(pos, pos + lit.len()) == lit {
        Some(pos + lit.len())
    } else {
        None
    }
}

fn expect_lit(s: &str, pos: usize, lit: &str) -> (r: Option<usize>)
    requires
        pos <= s@.len(),
    ensures
        match r {
            Some(e) => lit_end(s@, pos as int, lit@) == Some(e as int) && pos <= e <= s@.len(),
            None => lit_end(s@, pos as int, lit@) is None,
        },
{
    let n = lit.unicode_len();
    let sn = s.unicode_len();
    if n > sn - pos {
        proof {
            assert(pos + lit@.len() > s@.len());
        }
        return None;
    }
    let mut i: usize = 0;
    while i < n
        invariant
            n == lit@.len(),
            pos + n <= s@.len(),
            s@.len() <= usize::MAX,
            i <= n,
            forall|k: int| 0 <= k < i ==> s@[pos + k] == lit@[k],
        decreases n - i,
    {
        let a = s.get_char(pos + i);
        let b = lit.get_char(i);
        if a != b {
            proof {
                assert(s@.subrange(pos as int, pos + n) != lit@) by {
                    assert(s@.subrange(pos as int, pos + n)[i as int] == s@[pos + i]);
                }
            }
            return None;
        }
        i = i + 1;
    }
    proof {
        assert(s@.subrange(pos as int, pos + n) =~= lit@);
    }
    Some(pos + n)
}


/// The recognized geometry kinds.
#[derive(Clone, Copy, Debug, PartialEq, Eq, Structural)]
pub enum GeomKind {
    Point,
    Line,
    Poly,
    MultiPoly,
}

pub open spec fn kind_spec(s: Seq<char>, pos: int) -> Option<(GeomKind, int)> {
    if lit_end(s, pos, "\"Point\""@) is Some {
        Some((GeomKind::Point, lit_end(s, pos, "\"Point\""@)->0))
    } else if lit_end(s, pos, "\"LineString\""@) is Some {
        Some((GeomKind::Line, lit_end(s, pos, "\"LineString\""@)->0))
    } else if lit_end(s, pos, "\"Polygon\""@) is Some {
        Some((GeomKind::Poly, lit_end(s, pos, "\"Polygon\""@)->0))
    } else if lit_end(s, pos, "\"MultiPolygon\""@) is Some {
        Some((GeomKind::MultiPoly, lit_end(s, pos, "\"MultiPolygon\""@)->0))
    } else {
        None
    }
}

pub open spec fn coords_shape_spec(s: Seq<char>, pos: int, kind: GeomKind) -> Option<
    (ShapeView, int),
> {
    match kind {
        GeomKind::Point => match position_spec(s, pos) {
            Some((c, e)) => Some((ShapeView::Point(c), e)),
            None => None,
        },
        GeomKind::Line => match positions_spec(s, pos) {
            Some((cs, e)) => Some((ShapeView::Line(cs), e)),
            None => None,
        },
        GeomKind::Poly => match rings_spec(s, pos) {
            Some((rs, e)) => Some((ShapeView::Polygon(poly_of_rings(rs)), e)),
            None => None,
        },
        GeomKind::MultiPoly => match polys_spec(s, pos) {
            Some((ps, e)) => Some((ShapeView::MultiPolygon(ps), e)),
            None => None,
        },
    }
}

/// The whole literal: one object holding `"type"` and then
/// `"coordinates"`, and nothing but whitespace around or after it.
pub open spec fn geometry_spec(s: Seq<char>) -> Option<ShapeView> {
    let p0 = ws_end(s, 0);
    if !(p0 < s.len() && s[p0] == '{') {
        None
    } else {
        let p1 = ws_end(s, p0 + 1);
        match lit_end(s, p1, "\"type\""@) {
            None => None,
            Some(p2) => {
                let p3 = ws_end(s, p2);
                if !(p3 < s.len() && s[p3] == ':') {
                    None
                } else {
                    let p4 = ws_end(s, p3 + 1);
                    match kind_spec(s, p4) {
                        None => None,
                        Some((kind, p5)) => {
                            let p6 = ws_end(s, p5);
                            if !(p6 < s.len() && s[p6] == ',') {
                                None
                            } else {
                                let p7 = ws_end(s, p6 + 1);
                                match lit_end(s, p7, "\"coordinates\""@) {
                                    None => None,
                                    Some(p8) => {
                                        let p9 = ws_end(s, p8);
                                        if !(p9 < s.len() && s[p9] == ':') {
                                            None
                                        } else {
                                            let p10 = ws_end(s, p9 + 1);
                                            match coords_shape_spec(s, p10, kind) {
                                                None => None,
                                                Some((shape, p11)) => {
                                                    if !(0 <= p11 <= s.len()) {
                                                        None
                                                    } else {
                                                        let p12 = ws_end(s, p11);
                                                        if p12 < s.len() && s[p12] == '}'
                                                            && ws_end(s, p12 + 1) == s.len() {
                                                            Some(shape)
                                                        } else {
                                                            None
                                                        }
                                                    }
                                                },
                                            }
                                        }
                                    },
                                }
                            }
                        },
                    }
                }
            },
        }
    }
}

fn parse_extras(s: &str, pos: usize) -> (r: Option<usize>)
    requires
        pos <= s@.len(),
    ensures
        match r {
            Some(e) => extras_spec(s@, pos as int) == Some(e as int) && pos <= e <= s@.len(),
            None => extras_spec(s@, pos as int) is None,
        },
    decreases s@.len() - pos,
{
    if pos < s.unicode_len() {
        let c = s.get_char(pos);
        if c == ',' {
            let q = skip_ws(s, pos + 1);
            let (_v, q2) = match parse_number(s, q) {
                Some(v) => v,
                None => {
                    return None;
                },
            };
            let q3 = skip_ws(s, q2);
            return parse_extras(s, q3);
        }
    }
    Some(pos)
}

fn parse_position(s: &str, pos: usize) -> (r: Option<(Coord, usize)>)
    requires
        pos <= s@.len(),
    ensures
        match r {
            Some((c, e)) => position_spec(s@, pos as int) == Some((c, e as int)) && pos < e
                <= s@.len() && crate::geom::coord_wf(c),
            None => position_spec(s@, pos as int) is None,
        },
{
    if pos >= s.unicode_len() {
        return None;
    }
    if s.get_char(pos) != '[' {
        return None;
    }
    let p1 = skip_ws(s, pos + 1);
    let (x, p2) = match parse_number(s, p1) {
        Some(v) => v,
        None => {
            return None;
        },
    };
    let p3 = skip_ws(s, p2);
    if p3 >= s.unicode_len() {
        return None;
    }
    if s.get_char(p3) != ',' {
        return None;
    }
    let p4 = skip_ws(s, p3 + 1);
    let (y, p5) = match parse_number(s, p4) {
        Some(v) => v,
        None => {
            return None;
        },
    };
    let p6 = skip_ws(s, p5);
    let p7 = match parse_extras(s, p6) {
        Some(v) => v,
        None => {
            return None;
        },
    };
    if p7 >= s.unicode_len() {
        return None;
    }
    if s.get_char(p7) != ']' {
        return None;
    }
    Some((Coord { x, y }, p7 + 1))
}

fn parse_positions(s: &str, pos: usize) -> (r: Option<(Vec<Coord>, usize)>)
    requires
        pos <= s@.len(),
    ensures
        match r {
            Some((v, e)) => positions_spec(s@, pos as int) == Some((v@, e as int)) && pos < e
                <= s@.len() && crate::geom::coords_wf(v@),
            None => positions_spec(s@, pos as int) is None,
        },
{
    if pos >= s.unicode_len() {
        return None;
    }
    if s.get_char(pos) != '[' {
        return None;
    }
    let p1 = skip_ws(s, pos + 1);
    if p1 < s.unicode_len() {
        if s.get_char(p1) == ']' {
            let out: Vec<Coord> = Vec::new();
            proof {
                assert(out@ =~= Seq::<Coord>::empty());
            }
            return Some((out, p1 + 1));
        }
    }
    let (c, p2) = match parse_position(s, p1) {
        Some(v) => v,
        None => {
            return None;
        },
    };
    let mut acc: Vec<Coord> = Vec::new();
    acc.push(c);
    proof {
        assert(acc@ =~= seq![c]);
    }
    parse_positions_rest(s, p2, acc)
}

fn parse_positions_rest(s: &str, pos: usize, acc: Vec<Coord>) -> (r: Option<(Vec<Coord>, usize)>)
    requires
        pos <= s@.len(),
        crate::geom::coords_wf(acc@),
    ensures
        match r {
            Some((v, e)) => positions_rest(s@, pos as int, acc@) == Some((v@, e as int)) && pos < e
                <= s@.len() && crate::geom::coords_wf(v@),
            None => positions_rest(s@, pos as int, acc@) is None,
        },
    decreases s@.len() - pos,
{
    let q = skip_ws(s, pos);
    if q < s.unicode_len() {
        let ch = s.get_char(q);
        if ch == ']' {
            return Some((acc, q + 1));
        }
        if ch == ',' {
            let q2 = skip_ws(s, q + 1);
            let (c, q3) = match parse_position(s, q2) {
                Some(v) => v,
                None => {
                    return None;
                },
            };
            let mut acc = acc;
            acc.push(c);
            return parse_positions_rest(s, q3, acc);
        }
        return None;
    }
    None
}

fn parse_rings(s: &str, pos: usize) -> (r: Option<(Vec<Vec<Coord>>, usize)>)
    requires
        pos <= s@.len(),
    ensures
        match r {
            Some((v, e)) => rings_spec(s@, pos as int) == Some(
                (v@.map_values(|u: Vec<Coord>| u@), e as int),
            ) && pos < e <= s@.len() && crate::geom::rings_wf(v@.map_values(|u: Vec<Coord>| u@)),
            None => rings_spec(s@, pos as int) is None,
        },
{
    if pos >= s.unicode_len() {
        return None;
    }
    if s.get_char(pos) != '[' {
        return None;
    }
    let p1 = skip_ws(s, pos + 1);
    if p1 < s.unicode_len() {
        if s.get_char(p1) == ']' {
            let out: Vec<Vec<Coord>> = Vec::new();
            proof {
                assert(out@.map_values(|u: Vec<Coord>| u@) =~= Seq::<Seq<Coord>>::empty());
            }
            return Some((out, p1 + 1));
        }
    }
    let (c, p2) = match parse_positions(s, p1) {
        Some(v) => v,
        None => {
            return None;
        },
    };
    let mut acc: Vec<Vec<Coord>> = Vec::new();
    acc.push(c);
    proof {
        assert(acc@.map_values(|u: Vec<Coord>| u@) =~= seq![acc@[0]@]);
    }
    parse_rings_rest(s, p2, acc)
}

fn parse_rings_rest(s: &str, pos: usize, acc: Vec<Vec<Coord>>) -> (r: Option<
    (Vec<Vec<Coord>>, usize),
>)
    requires
        pos <= s@.len(),
        crate::geom::rings_wf(acc@.map_values(|u: Vec<Coord>| u@)),
    ensures
        match r {
            Some((v, e)) => rings_rest(s@, pos as int, acc@.map_values(|u: Vec<Coord>| u@))
                == Some((v@.map_values(|u: Vec<Coord>| u@), e as int)) && pos < e <= s@.len()
                && crate::geom::rings_wf(v@.map_values(|u: Vec<Coord>| u@)),
            None => rings_rest(s@, pos as int, acc@.map_values(|u: Vec<Coord>| u@)) is None,
        },
    decreases s@.len() - pos,
{
    let q = skip_ws(s, pos);
    if q < s.unicode_len() {
        let ch = s.get_char(q);
        if ch == ']' {
            return Some((acc, q + 1));
        }
        if ch == ',' {
            let q2 = skip_ws(s, q + 1);
            let (c, q3) = match parse_positions(s, q2) {
                Some(v) => v,
                None => {
                    return None;
                },
            };
            let ghost pre = acc@.map_values(|u: Vec<Coord>| u@);
            let mut acc = acc;
            acc.push(c);
            proof {
                assert(acc@.map_values(|u: Vec<Coord>| u@) =~= pre.push(c@));
            }
            return parse_rings_rest(s, q3, acc);
        }
        return None;
    }
    None
}

fn poly_from_rings(rs: Vec<Vec<Coord>>) -> (p: PolyShape)
    ensures
        p@ == poly_of_rings(rs@.map_values(|u: Vec<Coord>| u@)),
        crate::geom::rings_wf(rs@.map_values(|u: Vec<Coord>| u@)) ==> crate::geom::poly_wf(p@),
{
    let ghost rviews = rs@.map_values(|u: Vec<Coord>| u@);
    let mut rs = rs;
    if rs.len() == 0 {
        let p = PolyShape { exterior: Vec::new(), interiors: Vec::new() };
        proof {
            assert(p@ =~= poly_of_rings(rviews));
        }
        p
    } else {
        let ghost rs0 = rs@;
        let ext = rs.remove(0);
        proof {
            assert(ext@ == rviews[0]);
            rs0.remove_ensures(0);
        }
        let p = PolyShape { exterior: ext, interiors: rs };
        proof {
            assert forall|k: int| #![trigger rs@[k]] 0 <= k < rs@.len() implies rs@.map_values(
                |u: Vec<Coord>| u@,
            )[k] == rviews.drop_first()[k] by {
                assert(rs@[k] == rs0[k + 1]);
                assert(rviews[k + 1] == rs0[k + 1]@);
            }
            assert(rs@.map_values(|u: Vec<Coord>| u@) =~= rviews.drop_first());
            assert(p@ =~= poly_of_rings(rviews));
        }
        p
    }
}

fn parse_polys(s: &str, pos: usize) -> (r: Option<(Vec<PolyShape>, usize)>)
    requires
        pos <= s@.len(),
    ensures
        match r {
            Some((v, e)) => polys_spec(s@, pos as int) == Some(
                (v@.map_values(|u: PolyShape| u@), e as int),
            ) && pos < e <= s@.len() && crate::geom::polys_wf(v@.map_values(|u: PolyShape| u@)),
            None => polys_spec(s@, pos as int) is None,
        },
{
    if pos >= s.unicode_len() {
        return None;
    }
    if s.get_char(pos) != '[' {
        return None;
    }
    let p1 = skip_ws(s, pos + 1);
    if p1 < s.unicode_len() {
        if s.get_char(p1) == ']' {
            let out: Vec<PolyShape> = Vec::new();
            proof {
                assert(out@.map_values(|u: PolyShape| u@) =~= Seq::<crate::geom::PolyView>::empty());
            }
            return Some((out, p1 + 1));
        }
    }
    let (c, p2) = match parse_rings(s, p1) {
        Some(v) => v,
        None => {
            return None;
        },
    };
    let poly = poly_from_rings(c);
    let mut acc: Vec<PolyShape> = Vec::new();
    acc.push(poly);
    proof {
        assert(acc@.map_values(|u: PolyShape| u@) =~= seq![acc@[0]@]);
    }
    parse_polys_rest(s, p2, acc)
}

fn parse_polys_rest(s: &str, pos: usize, acc: Vec<PolyShape>) -> (r: Option<
    (Vec<PolyShape>, usize),
>)
    requires
        pos <= s@.len(),
        crate::geom::polys_wf(acc@.map_values(|u: PolyShape| u@)),
    ensures
        match r {
            Some((v, e)) => polys_rest(s@, pos as int, acc@.map_values(|u: PolyShape| u@)) == Some(
                (v@.map_values(|u: PolyShape| u@), e as int),
            ) && pos < e <= s@.len() && crate::geom::polys_wf(v@.map_values(|u: PolyShape| u@)),
            None => polys_rest(s@, pos as int, acc@.map_values(|u: PolyShape| u@)) is None,
        },
    decreases s@.len() - pos,
{
    let q = skip_ws(s, pos);
    if q < s.unicode_len() {
        let ch = s.get_char(q);
        if ch == ']' {
            return Some((acc, q + 1));
        }
        if ch == ',' {
            let q2 = skip_ws(s, q + 1);
            let (c, q3) = match parse_rings(s, q2) {
                Some(v) => v,
                None => {
                    return None;
                },
            };
            let poly = poly_from_rings(c);
            let ghost pre = acc@.map_values(|u: PolyShape| u@);
            let mut acc = acc;
            acc.push(poly);
            proof {
                assert(acc@.map_values(|u: PolyShape| u@) =~= pre.push(poly@));
            }
            return parse_polys_rest(s, q3, acc);
        }
        return None;
    }
    None
}

fn parse_kind(s: &str, pos: usize) -> (r: Option<(GeomKind, usize)>)
    requires
        pos <= s@.len(),
    ensures
        match r {
            Some((k, e)) => kind_spec(s@, pos as int) == Some((k, e as int)) && pos < e
                <= s@.len(),
            None => kind_spec(s@, pos as int) is None,
        },
{
    proof {
        reveal_strlit("\"Point\"");
        reveal_strlit("\"LineString\"");
        reveal_strlit("\"Polygon\"");
        reveal_strlit("\"MultiPolygon\"");
    }
    if let Some(e) = expect_lit(s, pos, "\"Point\"") {
        return Some((GeomKind::Point, e));
    }
    if let Some(e) = expect_lit(s, pos, "\"LineString\"") {
        return Some((GeomKind::Line, e));
    }
    if let Some(e) = expect_lit(s, pos, "\"Polygon\"") {
        return Some((GeomKind::Poly, e));
    }
    if let Some(e) = expect_lit(s, pos, "\"MultiPolygon\"") {
        return Some((GeomKind::MultiPoly, e));
    }
    None
}

/// Decodes one geometry literal into a shape, exactly as
/// `geometry_spec` reads it; everything else is `None`.
pub fn parse_geometry(s: &str) -> (r: Option<GeoShape>)
    ensures
        (r is Some) <==> (geometry_spec(s@) is Some),
        r matches Some(g) ==> Some(g@) == geometry_spec(s@) && crate::geom::shape_wf(g@),
{
    let p0 = skip_ws(s, 0);
    if p0 >= s.unicode_len() {
        return None;
    }
    if s.get_char(p0) != '{' {
        return None;
    }
    let p1 = skip_ws(s, p0 + 1);
    let p2 = match expect_lit(s, p1, "\"type\"") {
        Some(v) => v,
        None => {
            return None;
        },
    };
    let p3 = skip_ws(s, p2);
    if p3 >= s.unicode_len() {
        return None;
    }
    if s.get_char(p3) != ':' {
        return None;
    }
    let p4 = skip_ws(s, p3 + 1);
    let (kind, p5) = match parse_kind(s, p4) {
        Some(v) => v,
        None => {
            return None;
        },
    };
    let p6 = skip_ws(s, p5);
    if p6 >= s.unicode_len() {
        return None;
    }
    if s.get_char(p6) != ',' {
        return None;
    }
    let p7 = skip_ws(s, p6 + 1);
    let p8 = match expect_lit(s, p7, "\"coordinates\"") {
        Some(v) => v,
        None => {
            return None;
        },
    };
    let p9 = skip_ws(s, p8);
    if p9 >= s.unicode_len() {
        return None;
    }
    if s.get_char(p9) != ':' {
        return None;
    }
    let p10 = skip_ws(s, p9 + 1);
    let (shape, p11) = match kind {
        GeomKind::Point => {
            match parse_position(s, p10) {
                Some((c, e)) => (GeoShape::Point(c), e),
                None => {
                    return None;
                },
            }
        },
        GeomKind::Line => {
            match parse_positions(s, p10) {
                Some((cs, e)) => (GeoShape::Line(cs), e),
                None => {
                    return None;
                },
            }
        },
        GeomKind::Poly => {
            match parse_rings(s, p10) {
                Some((rs, e)) => (GeoShape::Polygon(poly_from_rings(rs)), e),
                None => {
                    return None;
                },
            }
        },
        GeomKind::MultiPoly => {
            match parse_polys(s, p10) {
                Some((ps, e)) => (GeoShape::MultiPolygon(ps), e),
                None => {
                    return None;
                },
            }
        },
    };
    let p12 = skip_ws(s, p11);
    if p12 >= s.unicode_len() {
        return None;
    }
    if s.get_char(p12) != '}' {
        return None;
    }
    let p13 = skip_ws(s, p12 + 1);
    if p13 != s.unicode_len() {
        return None;
    }
    Some(shape)
}

} // verus!
