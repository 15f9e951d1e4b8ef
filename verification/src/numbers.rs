//! Exact decimal numbers and their parsers.
//!
//! Dimension ranges, dimension values and geometry coordinates are carried as
//! exact decimals (`mant / 10^frac`) instead of machine floats, so every
//! computation over them can be stated and proved exactly.

use vstd::prelude::*;

verus! {

/// Largest mantissa the decimal parser accepts.
pub const MANT_LIMIT: u64 = 1_000_000_000_000_000;

/// Largest count of fractional digits the decimal parser accepts.
pub const FRAC_LIMIT: u32 = 15;

/// A decimal number, exactly `mant / 10^frac`.
#[derive(Clone, Copy, Debug, PartialEq, Eq, Structural)]
pub struct Dec {
    pub mant: i64,
    pub frac: u32,
}

/// The mantissa and the fractional length both stay small enough that
/// products of two of them fit comfortably in an `i128`.
pub open spec fn dec_wf(d: Dec) -> bool {
    &&& -(MANT_LIMIT as int) <= d.mant as int <= MANT_LIMIT as int
    &&& d.frac <= FRAC_LIMIT
}

pub open spec fn pow10(e: nat) -> int
    decreases e,
{
    if e == 0 {
        1
    } else {
        10 * pow10((e - 1) as nat)
    }
}

pub proof fn lemma_pow10_pos(e: nat)
    ensures
        pow10(e) >= 1,
    decreases e,
{
    if e > 0 {
        lemma_pow10_pos((e - 1) as nat);
    }
}

pub proof fn lemma_pow10_mono(a: nat, b: nat)
    requires
        a <= b,
    ensures
        pow10(a) <= pow10(b),
    decreases b,
{
    if a < b {
        lemma_pow10_mono(a, (b - 1) as nat);
        lemma_pow10_pos((b - 1) as nat);
    }
}

/// `pow10` stays within `u64` as long as the exponent is at most 18.
pub proof fn lemma_pow10_18()
    ensures
        pow10(18) == 1_000_000_000_000_000_000,
        pow10(15) == MANT_LIMIT as int,
{
    reveal_with_fuel(pow10, 20);
}

pub fn pow10_u64(e: u32) -> (r: u64)
    requires
        e <= 18,
    ensures
        r == pow10(e as nat),
{
    proof {
        lemma_pow10_18();
    }
    let mut r: u64 = 1;
    let mut i: u32 = 0;
    while i < e
        invariant
            i <= e <= 18,
            r == pow10(i as nat),
        decreases e - i,
    {
        proof {
            lemma_pow10_mono(i as nat, 17);
            reveal_with_fuel(pow10, 20);
        }
        r = r * 10;
        i = i + 1;
    }
    r
}

/// The characters the parsers accept as digits.
pub open spec fn is_digit(c: char) -> bool {
    ('0' as u32) <= (c as u32) && (c as u32) <= ('9' as u32)
}

pub open spec fn digit_val(c: char) -> int {
    (c as u32) - ('0' as u32)
}

pub open spec fn all_digits(s: Seq<char>) -> bool {
    forall|i: int| 0 <= i < s.len() ==> is_digit(#[trigger] s[i])
}

/// The value of a digit string read in base ten.
pub open spec fn digits_val(s: Seq<char>) -> int
    decreases s.len(),
{
    if s.len() == 0 {
        0
    } else {
        10 * digits_val(s.drop_last()) + digit_val(s.last())
    }
}

pub proof fn lemma_digits_val_nonneg(s: Seq<char>)
    requires
        all_digits(s),
    ensures
        digits_val(s) >= 0,
    decreases s.len(),
{
    if s.len() > 0 {
        assert(is_digit(s[s.len() - 1]));
        lemma_digits_val_nonneg(s.drop_last());
    }
}

/// Appending digits never shrinks the value of a digit string.
pub proof fn lemma_digits_val_take_le(s: Seq<char>, k: int)
    requires
        all_digits(s),
        0 <= k <= s.len(),
    ensures
        digits_val(s.take(k)) <= digits_val(s),
    decreases s.len() - k,
{
    if k < s.len() {
        assert(s.take(k + 1).drop_last() =~= s.take(k));
        assert(s.take(k + 1).last() == s[k]);
        assert(is_digit(s[k]));
        assert(all_digits(s.take(k)));
        lemma_digits_val_nonneg(s.take(k));
        lemma_digits_val_take_le(s, k + 1);
    } else {
        assert(s.take(k) =~= s);
    }
}

/// What `parse_u64` returns: the value of a nonempty all-digit string,
/// as long as it fits in a `u64`.
pub open spec fn u64_parse_spec(s: Seq<char>) -> Option<u64> {
    if s.len() >= 1 && all_digits(s) && digits_val(s) <= u64::MAX as int {
        Some(digits_val(s) as u64)
    } else {
        None
    }
}

pub fn parse_u64(s: &str) -> (r: Option<u64>)
    ensures
        r == u64_parse_spec(s@),
{
    let n = s.unicode_len();
    if n == 0 {
        return None;
    }
    let mut acc: u64 = 0;
    let mut i: usize = 0;
    while i < n
        invariant
            0 < n == s@.len(),
            i <= n,
            all_digits(s@.take(i as int)),
            acc == digits_val(s@.take(i as int)),
        decreases n - i,
    {
        let c = s.get_char(i);
        let u = c as u32;
        if u < '0' as u32 || u > '9' as u32 {
            assert(!is_digit(s@[i as int]));
            return None;
        }
        let d = (u - '0' as u32) as u64;
        if acc > (u64::MAX - d) / 10 {
            proof {
                let q = (u64::MAX - d) as int / 10;
                vstd::arithmetic::div_mod::lemma_fundamental_div_mod((u64::MAX - d) as int, 10);
                assert(s@.take(i + 1).drop_last() =~= s@.take(i as int));
                assert(s@.take(i + 1).last() == s@[i as int]);
                assert(digits_val(s@.take(i + 1)) == 10 * acc + d);
                if all_digits(s@) {
                    lemma_digits_val_take_le(s@, i + 1);
                }
            }
            return None;
        }
        proof {
            let q = (u64::MAX - d) as int / 10;
            vstd::arithmetic::div_mod::lemma_fundamental_div_mod((u64::MAX - d) as int, 10);
            assert(s@.take(i + 1).drop_last() =~= s@.take(i as int));
            assert(s@.take(i + 1).last() == s@[i as int]);
        }
        acc = acc * 10 + d;
        i = i + 1;
    }
    proof {
        assert(s@.take(n as int) =~= s@);
    }
    Some(acc)
}

/// What the decimal parser makes of the part after an optional sign:
/// digits split at the first dot, both sides read as one mantissa.
pub open spec fn dec_digits_spec(ip: Seq<char>, fp: Seq<char>, neg: bool) -> Option<Dec> {
    if all_digits(ip) && all_digits(fp) && ip.len() + fp.len() >= 1 && fp.len() <= FRAC_LIMIT as int
        && digits_val(ip + fp) <= MANT_LIMIT as int {
        Some(
            Dec {
                mant: (if neg {
                    -digits_val(ip + fp)
                } else {
                    digits_val(ip + fp)
                }) as i64,
                frac: fp.len() as u32,
            },
        )
    } else {
        None
    }
}

pub open spec fn dec_body_spec(body: Seq<char>, neg: bool) -> Option<Dec> {
    match body.index_of_first('.') {
        Some(p) => dec_digits_spec(body.take(p), body.skip(p + 1), neg),
        None => dec_digits_spec(body, Seq::empty(), neg),
    }
}

/// What `parse_dec` returns: an optional minus sign, then digits with at
/// most one dot among them.  Exponent forms and anything else fail.
pub open spec fn dec_parse_spec(s: Seq<char>) -> Option<Dec> {
    if s.len() > 0 && s[0] == '-' {
        dec_body_spec(s.skip(1), true)
    } else {
        dec_body_spec(s, false)
    }
}

proof fn lemma_all_digits_concat(a: Seq<char>, b: Seq<char>)
    requires
        all_digits(a),
        all_digits(b),
    ensures
        all_digits(a + b),
{
    assert forall|i: int| 0 <= i < (a + b).len() implies is_digit(#[trigger] (a + b)[i]) by {
        if i < a.len() {
            assert((a + b)[i] == a[i]);
        } else {
            assert((a + b)[i] == b[i - a.len()]);
        }
    }
}

proof fn lemma_digit_not_dot(c: char)
    requires
        is_digit(c),
    ensures
        c != '.',
{
    assert(('.' as u32) < ('0' as u32));
}

#[verifier::rlimit(80)]
pub fn parse_dec(s: &str) -> (r: Option<Dec>)
    ensures
        r == dec_parse_spec(s@),
{
    let n = s.unicode_len();
    let mut start: usize = 0;
    let mut neg = false;
    if n > 0 {
        let c0 = s.get_char(0);
        if c0 == '-' {
            neg = true;
            start = 1;
        }
    }
    let ghost body = s@.skip(start as int);
    proof {
        if !neg {
            assert(body =~= s@);
        }
    }
    assert(dec_parse_spec(s@) == dec_body_spec(body, neg));

    // One scan settles where the first dot sits and that everything else
    // is a digit.
    let mut j: usize = start;
    let mut dot: Option<usize> = None;
    while j < n
        invariant
            n == s@.len(),
            start <= j <= n,
            start <= 1,
            body == s@.skip(start as int),
            dec_parse_spec(s@) == dec_body_spec(body, neg),
            match dot {
                None => forall|k: int| start <= k < j ==> is_digit(#[trigger] s@[k]),
                Some(p) => start <= p < j && s@[p as int] == '.' && forall|k: int|
                    start <= k < j && k != p ==> is_digit(#[trigger] s@[k]),
            },
        decreases n - j,
    {
        let c = s.get_char(j);
        if c == '.' {
            match dot {
                None => {
                    dot = Some(j);
                },
                Some(p) => {
                    proof {
                        body.index_of_first_ensures('.');
                        assert(body[p - start] == '.');
                        assert(body.contains('.'));
                        let q = body.index_of_first('.')->0;
                        if q < p - start {
                            assert(is_digit(s@[q + start]));
                            lemma_digit_not_dot(s@[q + start]);
                        }
                        assert(q == p - start);
                        let fp = body.skip(q + 1);
                        assert(fp[j - start - q - 1] == s@[j as int]);
                        assert(!is_digit(fp[j - start - q - 1]));
                    }
                    return None;
                },
            }
        } else {
            let u = c as u32;
            if u < '0' as u32 || u > '9' as u32 {
                proof {
                    assert(!is_digit(s@[j as int]));
                    body.index_of_first_ensures('.');
                    if body.contains('.') {
                        let q = body.index_of_first('.')->0;
                        if q + start < j {
                            match dot {
                                None => {
                                    assert(is_digit(s@[q + start]));
                                    lemma_digit_not_dot(s@[q + start]);
                                    assert(false);
                                },
                                Some(p) => {
                                    if q != p - start {
                                        assert(is_digit(s@[q + start]));
                                        lemma_digit_not_dot(s@[q + start]);
                                    }
                                    assert(q == p - start);
                                    let fp = body.skip(q + 1);
                                    assert(fp[j - start - q - 1] == s@[j as int]);
                                },
                            }
                        } else {
                            assert(q + start != j);
                            let ip = body.take(q);
                            assert(ip[j - start] == s@[j as int]);
                        }
                    } else {
                        assert(body[j - start] == s@[j as int]);
                    }
                }
                return None;
            }
        }
        j = j + 1;
    }

    // Record the split that the scan found.
    let ghost ip = match dot {
        Some(p) => body.take(p - start),
        None => body,
    };
    let ghost fp = match dot {
        Some(p) => body.skip(p + 1 - start),
        None => Seq::<char>::empty(),
    };
    proof {
        body.index_of_first_ensures('.');
        match dot {
            Some(p) => {
                assert(body[p - start] == '.');
                assert(body.contains('.'));
                let q = body.index_of_first('.')->0;
                if q < p - start {
                    assert(is_digit(s@[q + start]));
                    lemma_digit_not_dot(s@[q + start]);
                }
                assert(q == p - start);
                assert(forall|k: int|
                    0 <= k < ip.len() ==> ip[k] == s@[k + start] && is_digit(#[trigger] ip[k]));
                assert(forall|k: int|
                    0 <= k < fp.len() ==> fp[k] == s@[k + p + 1] && is_digit(#[trigger] fp[k]));
            },
            None => {
                if body.contains('.') {
                    let q = body.index_of_first('.')->0;
                    assert(is_digit(s@[q + start]));
                    lemma_digit_not_dot(s@[q + start]);
                }
                assert(body.index_of_first('.') is None);
                assert(forall|k: int|
                    0 <= k < ip.len() ==> ip[k] == s@[k + start] && is_digit(#[trigger] ip[k]));
            },
        }
        assert(dec_body_spec(body, neg) == dec_digits_spec(ip, fp, neg));
        assert(all_digits(ip));
        assert(all_digits(fp));
    }

    let dcount = if dot.is_some() {
        n - start - 1
    } else {
        n - start
    };
    assert(dcount == ip.len() + fp.len());
    if dcount == 0 {
        return None;
    }
    let fraclen: usize = match dot {
        Some(p) => n - p - 1,
        None => 0,
    };
    assert(fraclen == fp.len());
    if fraclen > 15 {
        return None;
    }

    // Read the mantissa: the digits before the dot, then those after it.
    let ip_end = match dot {
        Some(p) => p,
        None => n,
    };
    let mut acc: u64 = 0;
    let mut k: usize = start;
    while k < ip_end
        invariant
            n == s@.len(),
            start <= k <= ip_end <= n,
            ip_end - start == ip.len(),
            all_digits(ip),
            all_digits(fp),
            dec_parse_spec(s@) == dec_digits_spec(ip, fp, neg),
            ip.len() + fp.len() >= 1,
            fp.len() <= FRAC_LIMIT as int,
            fraclen == fp.len(),
            dot matches Some(p) ==> start <= p < n && ip.len() == p - start && fp.len() == n - p
                - 1,
            dot is None ==> fp.len() == 0,
            forall|t: int| 0 <= t < ip.len() ==> #[trigger] ip[t] == s@[t + start],
            acc == digits_val(ip.take(k - start)),
            acc <= MANT_LIMIT,
        decreases ip_end - k,
    {
        let c = s.get_char(k);
        proof {
            assert(ip[k - start] == s@[k as int]);
            assert(is_digit(ip[k - start]));
        }
        let u = c as u32;
        let d = (u - '0' as u32) as u64;
        let t = acc * 10 + d;
        proof {
            assert(ip.take(k - start + 1).drop_last() =~= ip.take(k - start));
            assert(ip.take(k - start + 1).last() == ip[k - start]);
            assert(digits_val(ip.take(k - start + 1)) == t);
        }
        if t > MANT_LIMIT {
            proof {
                lemma_all_digits_concat(ip, fp);
                assert((ip + fp).take(k - start + 1) =~= ip.take(k - start + 1));
                lemma_digits_val_take_le(ip + fp, k - start + 1);
            }
            return None;
        }
        acc = t;
        k = k + 1;
    }
    proof {
        assert(ip.take(ip.len() as int) =~= ip);
    }
    if let Some(p) = dot {
        let mut k: usize = p + 1;
        while k < n
            invariant
                n == s@.len(),
                p + 1 <= k <= n,
                n - p - 1 == fp.len(),
                all_digits(ip),
                all_digits(fp),
                dec_parse_spec(s@) == dec_digits_spec(ip, fp, neg),
                ip.len() + fp.len() >= 1,
                fp.len() <= FRAC_LIMIT as int,
                fraclen == fp.len(),
                forall|t: int| 0 <= t < fp.len() ==> #[trigger] fp[t] == s@[t + p + 1],
                acc == digits_val(ip + fp.take(k - p - 1)),
                acc <= MANT_LIMIT,
            decreases n - k,
        {
            let c = s.get_char(k);
            proof {
                assert(fp[k - p - 1] == s@[k as int]);
                assert(is_digit(fp[k - p - 1]));
            }
            let u = c as u32;
            let d = (u - '0' as u32) as u64;
            let t = acc * 10 + d;
            proof {
                assert((ip + fp.take(k - p)).drop_last() =~= ip + fp.take(k - p - 1));
                assert((ip + fp.take(k - p)).last() == fp[k - p - 1]);
                assert(digits_val(ip + fp.take(k - p)) == t);
            }
            if t > MANT_LIMIT {
                proof {
                    lemma_all_digits_concat(ip, fp);
                    assert((ip + fp).take(ip.len() + (k - p)) =~= ip + fp.take(k - p));
                    lemma_digits_val_take_le(ip + fp, ip.len() + (k - p));
                }
                return None;
            }
            acc = t;
            k = k + 1;
        }
        proof {
            assert(fp.take(fp.len() as int) =~= fp);
        }
    } else {
        proof {
            assert(ip + fp =~= ip);
        }
    }
    proof {
        assert(acc == digits_val(ip + fp));
        lemma_digits_val_nonneg(ip + fp);
    }
    let mant: i64 = if neg {
        -(acc as i64)
    } else {
        acc as i64
    };
    Some(Dec { mant, frac: fraclen as u32 })
}

/// Whatever the decimal parser accepts is well formed.
pub proof fn lemma_dec_parse_wf(s: Seq<char>)
    ensures
        dec_parse_spec(s) matches Some(d) ==> dec_wf(d),
{
    let neg = s.len() > 0 && s[0] == '-';
    let body = if neg {
        s.skip(1)
    } else {
        s
    };
    if dec_body_spec(body, neg) matches Some(d) {
        match body.index_of_first('.') {
            Some(p) => {
                lemma_digits_val_nonneg(body.take(p) + body.skip(p + 1));
            },
            None => {
                lemma_digits_val_nonneg(body + Seq::<char>::empty());
            },
        }
    }
}

} // verus!
