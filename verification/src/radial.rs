//! The dimensional normalizer: descriptors and per-series measurements
//! projected onto a unit radial layout.
//!
//! Points come out in polar form: an axis index `k` out of `N` stands for
//! the `k`-th of `N` directions spread evenly around the circle, starting
//! at the top and proceeding clockwise; the radius is an exact rational.
//! Turning that into cartesian screen positions is the renderer's work.

use vstd::prelude::*;

use crate::models::{DimDesc, DimValue};
use crate::numbers::{dec_wf, pow10, pow10_u64, Dec, MANT_LIMIT};
use crate::sparql::{dim_desc_wf, dim_value_wf};
use crate::text::{
    lemma_sort_by_name_all, lemma_sort_by_name_len, sort_by_name_spec, sort_pairs_by_name,
};

verus! {

/// Where a stable insertion by display order puts a descriptor: after
/// every descriptor whose order does not come strictly later.
pub open spec fn insert_desc(s: Seq<DimDesc>, x: DimDesc) -> Seq<DimDesc>
    decreases s.len(),
{
    if s.len() == 0 {
        seq![x]
    } else if x.order < s.last().order {
        insert_desc(s.drop_last(), x).push(s.last())
    } else {
        s.push(x)
    }
}

/// Stable insertion sort by display order: ascending `order`, ties kept
/// in encounter order.
pub open spec fn sort_descs_spec(s: Seq<DimDesc>) -> Seq<DimDesc>
    decreases s.len(),
{
    if s.len() == 0 {
        Seq::empty()
    } else {
        insert_desc(sort_descs_spec(s.drop_last()), s.last())
    }
}

pub proof fn lemma_insert_desc_len(s: Seq<DimDesc>, x: DimDesc)
    ensures
        insert_desc(s, x).len() == s.len() + 1,
    decreases s.len(),
{
    if s.len() > 0 && x.order < s.last().order {
        lemma_insert_desc_len(s.drop_last(), x);
    }
}

pub proof fn lemma_sort_descs_len(s: Seq<DimDesc>)
    ensures
        sort_descs_spec(s).len() == s.len(),
    decreases s.len(),
{
    if s.len() > 0 {
        lemma_sort_descs_len(s.drop_last());
        lemma_insert_desc_len(sort_descs_spec(s.drop_last()), s.last());
    }
}

/// A property of every descriptor survives the insertion.
pub proof fn lemma_insert_desc_all(s: Seq<DimDesc>, x: DimDesc, p: spec_fn(DimDesc) -> bool)
    requires
        forall|i: int| 0 <= i < s.len() ==> p(#[trigger] s[i]),
        p(x),
    ensures
        forall|i: int| 0 <= i < insert_desc(s, x).len() ==> p(#[trigger] insert_desc(s, x)[i]),
    decreases s.len(),
{
    if s.len() == 0 {
        assert(insert_desc(s, x) =~= seq![x]);
        assert(p(insert_desc(s, x)[0]));
    } else if x.order < s.last().order {
        let dl = s.drop_last();
        assert(forall|i: int| 0 <= i < dl.len() ==> p(#[trigger] dl[i]));
        lemma_insert_desc_all(dl, x, p);
        let inner = insert_desc(dl, x);
        assert(insert_desc(s, x) == inner.push(s.last()));
        assert forall|i: int| 0 <= i < insert_desc(s, x).len() implies p(
            #[trigger] insert_desc(s, x)[i],
        ) by {
            if i < inner.len() {
                assert(inner.push(s.last())[i] == inner[i]);
            } else {
                assert(inner.push(s.last())[i] == s.last());
            }
        }
    } else {
        assert forall|i: int| 0 <= i < insert_desc(s, x).len() implies p(
            #[trigger] insert_desc(s, x)[i],
        ) by {
            if i < s.len() {
                assert(s.push(x)[i] == s[i]);
            } else {
                assert(s.push(x)[i] == x);
            }
        }
    }
}

/// A property of every descriptor survives the sort.
pub proof fn lemma_sort_descs_all(s: Seq<DimDesc>, p: spec_fn(DimDesc) -> bool)
    requires
        forall|i: int| 0 <= i < s.len() ==> p(#[trigger] s[i]),
    ensures
        forall|i: int| 0 <= i < sort_descs_spec(s).len() ==> p(#[trigger] sort_descs_spec(s)[i]),
    decreases s.len(),
{
    if s.len() > 0 {
        assert(forall|i: int| 0 <= i < s.drop_last().len() ==> p(#[trigger] s.drop_last()[i]));
        lemma_sort_descs_all(s.drop_last(), p);
        lemma_insert_desc_all(sort_descs_spec(s.drop_last()), s.last(), p);
    }
}

/// Ascending by display order.
pub open spec fn sorted_by_order(s: Seq<DimDesc>) -> bool {
    forall|i: int, j: int| 0 <= i < j < s.len() ==> (#[trigger] s[i]).order <= (#[trigger] s[j]).order
}

pub proof fn lemma_insert_desc_sorted(s: Seq<DimDesc>, x: DimDesc)
    requires
        sorted_by_order(s),
    ensures
        sorted_by_order(insert_desc(s, x)),
    decreases s.len(),
{
    let r = insert_desc(s, x);
    if s.len() == 0 {
        assert(r =~= seq![x]);
    } else if x.order < s.last().order {
        let dl = s.drop_last();
        let last = s.last();
        assert(forall|i: int, j: int|
            0 <= i < j < dl.len() ==> (#[trigger] dl[i]).order <= (#[trigger] dl[j]).order);
        lemma_insert_desc_sorted(dl, x);
        let inner = insert_desc(dl, x);
        assert(r == inner.push(last));
        let fits = |e: DimDesc| e.order <= last.order;
        assert forall|i: int| 0 <= i < dl.len() implies fits(#[trigger] dl[i]) by {
            assert(dl[i].order == s[i].order && s[i].order <= s[s.len() - 1].order);
        }
        assert(fits(x));
        lemma_insert_desc_all(dl, x, fits);
        assert forall|i: int, j: int| 0 <= i < j < r.len() implies (#[trigger] r[i]).order <= (
        #[trigger] r[j]).order by {
            if j < inner.len() {
                assert(r[i] == inner[i]);
                assert(r[j] == inner[j]);
            } else {
                assert(r[j] == last);
                assert(r[i] == inner[i]);
                assert(fits(inner[i]));
            }
        }
    } else {
        assert(r == s.push(x));
        assert forall|i: int, j: int| 0 <= i < j < r.len() implies (#[trigger] r[i]).order <= (
        #[trigger] r[j]).order by {
            if j < s.len() {
                assert(r[i] == s[i]);
                assert(r[j] == s[j]);
            } else {
                assert(r[j] == x);
                assert(r[i] == s[i]);
                if i < s.len() - 1 {
                    assert(s[i].order <= s[s.len() - 1].order);
                }
            }
        }
    }
}

/// The sorted descriptors are ascending by display order.
pub proof fn lemma_sort_descs_sorted(s: Seq<DimDesc>)
    ensures
        sorted_by_order(sort_descs_spec(s)),
    decreases s.len(),
{
    if s.len() > 0 {
        lemma_sort_descs_sorted(s.drop_last());
        lemma_insert_desc_sorted(sort_descs_spec(s.drop_last()), s.last());
    }
}

pub proof fn lemma_insert_desc_multiset(s: Seq<DimDesc>, x: DimDesc)
    ensures
        insert_desc(s, x).to_multiset() =~= s.to_multiset().insert(x),
    decreases s.len(),
{
    broadcast use vstd::seq_lib::group_to_multiset_ensures;

    if s.len() == 0 {
        assert(insert_desc(s, x) =~= Seq::<DimDesc>::empty().push(x));
    } else if x.order < s.last().order {
        lemma_insert_desc_multiset(s.drop_last(), x);
        assert(s =~= s.drop_last().push(s.last()));
        assert(insert_desc(s, x).to_multiset() =~= insert_desc(
            s.drop_last(),
            x,
        ).to_multiset().insert(s.last()));
        assert(insert_desc(s, x).to_multiset() =~= s.to_multiset().insert(x));
    }
}

/// The sorted descriptors are the given descriptors.
pub proof fn lemma_sort_descs_multiset(s: Seq<DimDesc>)
    ensures
        sort_descs_spec(s).to_multiset() =~= s.to_multiset(),
    decreases s.len(),
{
    broadcast use vstd::seq_lib::group_to_multiset_ensures;

    if s.len() > 0 {
        lemma_sort_descs_multiset(s.drop_last());
        lemma_insert_desc_multiset(sort_descs_spec(s.drop_last()), s.last());
        assert(s =~= s.drop_last().push(s.last()));
    }
}

proof fn lemma_insert_desc_position(s: Seq<DimDesc>, x: DimDesc, j: int)
    requires
        0 <= j <= s.len(),
        forall|k: int| j <= k < s.len() ==> x.order < (#[trigger] s[k]).order,
        j > 0 ==> !(x.order < s[j - 1].order),
    ensures
        insert_desc(s, x) =~= s.take(j) + seq![x] + s.skip(j),
    decreases s.len(),
{
    if j == s.len() {
        if s.len() == 0 {
            assert(insert_desc(s, x) =~= seq![x]);
        } else {
            assert(insert_desc(s, x) == s.push(x));
        }
    } else {
        assert(x.order < s[s.len() - 1].order);
        let dl = s.drop_last();
        assert(forall|k: int| j <= k < dl.len() ==> #[trigger] dl[k] == s[k]);
        if j > 0 {
            assert(dl[j - 1] == s[j - 1]);
        }
        lemma_insert_desc_position(dl, x, j);
        assert(insert_desc(s, x) == insert_desc(dl, x).push(s.last()));
        assert((dl.take(j) + seq![x] + dl.skip(j)).push(s.last()) =~= s.take(j) + seq![x]
            + s.skip(j));
    }
}

/// Sorts descriptors by display order, ties kept in encounter order.
pub fn sort_descs(v: Vec<DimDesc>) -> (r: Vec<DimDesc>)
    ensures
        r@ == sort_descs_spec(v@),
{
    let mut v = v;
    let ghost orig = v@;
    let mut out: Vec<DimDesc> = Vec::new();
    let ghost mut i: int = 0;
    while v.len() > 0
        invariant
            0 <= i,
            i + v.len() == orig.len(),
            v@ == orig.skip(i),
            out@ == sort_descs_spec(orig.take(i)),
        decreases v.len(),
    {
        let x = v.remove(0);
        proof {
            assert(x == orig[i]);
            assert(orig.skip(i).remove(0) =~= orig.skip(i + 1));
        }
        let mut j = out.len();
        while j > 0 && x.order < out[j - 1].order
            invariant
                j <= out@.len(),
                forall|k: int| j <= k < out@.len() ==> x.order < (#[trigger] out@[k]).order,
            decreases j,
        {
            j = j - 1;
        }
        proof {
            lemma_insert_desc_position(out@, x, j as int);
        }
        out.insert(j, x);
        proof {
            assert(orig.take(i + 1).drop_last() =~= orig.take(i));
            assert(orig.take(i + 1).last() == orig[i]);
            i = i + 1;
        }
    }
    proof {
        assert(orig.take(orig.len() as int) =~= orig);
    }
    out
}

/// An exact rational radius.
#[derive(Clone, Copy, Debug, PartialEq, Eq, Structural)]
pub struct Rat {
    pub num: i128,
    pub den: i128,
}

pub open spec fn rat_zero() -> Rat {
    Rat { num: 0, den: 1 }
}

pub open spec fn rat_one() -> Rat {
    Rat { num: 1, den: 1 }
}

/// `v / t` as an exact rational, the denominator kept positive.
pub open spec fn div_dec_spec(v: Dec, t: Dec) -> Rat {
    let n = v.mant * pow10(t.frac as nat);
    let d = t.mant * pow10(v.frac as nat);
    if d < 0 {
        Rat { num: (-n) as i128, den: (-d) as i128 }
    } else {
        Rat { num: n as i128, den: d as i128 }
    }
}

/// The scale formula of the source, `radius = value * (1 / (t/r * r))`,
/// carried out in exact rational arithmetic, reduces to `value / t` for
/// every nonzero native range end `r`: written as numerator/denominator
/// pairs, the two sides cross-multiply to the same product.
pub proof fn lemma_unreduced_scale_cancels(vn: int, vd: int, tn: int, td: int, rn: int, rd: int)
    requires
        rn != 0,
        rd != 0,
        vd != 0,
        td != 0,
    ensures
        (vn * (td * (rn * rd))) * (vd * tn) == (vn * td) * ((vd * (tn * (rd * rn)))),
{
    assert((vn * (td * (rn * rd))) * (vd * tn) == (vn * td) * ((vd * (tn * (rd * rn)))))
        by (nonlinear_arith);
}

/// Divides two well-formed decimals exactly.  This quotient is the
/// whole scale computation: `lemma_unreduced_scale_cancels` shows the
/// longer form equal to it.
pub fn div_dec(v: Dec, t: Dec) -> (r: Rat)
    requires
        dec_wf(v),
        dec_wf(t),
        t.mant != 0,
    ensures
        r == div_dec_spec(v, t),
        r.den > 0,
{
    proof {
        crate::numbers::lemma_pow10_18();
        crate::numbers::lemma_pow10_mono(t.frac as nat, 15);
        crate::numbers::lemma_pow10_mono(v.frac as nat, 15);
        crate::numbers::lemma_pow10_pos(t.frac as nat);
        crate::numbers::lemma_pow10_pos(v.frac as nat);
    }
    let pt = pow10_u64(t.frac);
    let pv = pow10_u64(v.frac);
    proof {
        let m = MANT_LIMIT as int;
        assert(-(m * m) <= v.mant * pow10(t.frac as nat) <= m * m) by (nonlinear_arith)
            requires
                -m <= v.mant <= m,
                1 <= pow10(t.frac as nat) <= m,
        ;
        assert(-(m * m) <= t.mant * pow10(v.frac as nat) <= m * m) by (nonlinear_arith)
            requires
                -m <= t.mant <= m,
                1 <= pow10(v.frac as nat) <= m,
        ;
        assert(t.mant * pow10(v.frac as nat) != 0) by (nonlinear_arith)
            requires
                t.mant != 0,
                pow10(v.frac as nat) >= 1,
        ;
    }
    let n: i128 = (v.mant as i128) * (pt as i128);
    let d: i128 = (t.mant as i128) * (pv as i128);
    if d < 0 {
        Rat { num: -n, den: -d }
    } else {
        Rat { num: n, den: d }
    }
}

/// The range a value is scaled against: the target range where one was
/// given, the native range otherwise.
pub open spec fn eff_target(d: DimDesc) -> Dec {
    match d.target_range_end {
        Some(t) => t,
        None => d.range_end,
    }
}

/// A descriptor takes part in series projection only when neither its
/// native range end nor its effective target end is zero, so no scale
/// computation ever divides by zero.
pub open spec fn dim_usable(d: DimDesc) -> bool {
    &&& d.range_end.mant != 0
    &&& eff_target(d).mant != 0
}

fn eff_target_exec(d: &DimDesc) -> (r: Dec)
    ensures
        r == eff_target(*d),
{
    match d.target_range_end {
        Some(t) => t,
        None => d.range_end,
    }
}

fn dim_usable_exec(d: &DimDesc) -> (r: bool)
    ensures
        r == dim_usable(*d),
{
    let t = eff_target_exec(d);
    d.range_end.mant != 0 && t.mant != 0
}

/// The first measurement in a series carrying this dimension name.
pub open spec fn first_match(dvs: Seq<DimValue>, name: Seq<char>) -> Option<Dec>
    decreases dvs.len(),
{
    if dvs.len() == 0 {
        None
    } else if dvs.first().d@ == name {
        Some(dvs.first().v)
    } else {
        first_match(dvs.drop_first(), name)
    }
}

pub proof fn lemma_first_match_wf(dvs: Seq<DimValue>, name: Seq<char>)
    requires
        forall|i: int| 0 <= i < dvs.len() ==> dim_value_wf(#[trigger] dvs[i]),
    ensures
        first_match(dvs, name) matches Some(v) ==> dec_wf(v),
    decreases dvs.len(),
{
    if dvs.len() > 0 && dvs.first().d@ != name {
        assert(forall|i: int|
            0 <= i < dvs.drop_first().len() ==> dim_value_wf(#[trigger] dvs.drop_first()[i]));
        lemma_first_match_wf(dvs.drop_first(), name);
    }
}

fn find_value(dvs: &Vec<DimValue>, name: &str) -> (r: Option<Dec>)
    ensures
        r == first_match(dvs@, name@),
{
    proof {
        assert(dvs@.skip(0) =~= dvs@);
    }
    let mut i: usize = 0;
    while i < dvs.len()
        invariant
            i <= dvs.len(),
            first_match(dvs@, name@) == first_match(dvs@.skip(i as int), name@),
        decreases dvs.len() - i,
    {
        proof {
            assert(dvs@.skip(i as int).first() == dvs@[i as int]);
            assert(dvs@.skip(i as int).drop_first() =~= dvs@.skip(i + 1));
        }
        if crate::text::str_eq(dvs[i].d.as_str(), name) {
            return Some(dvs[i].v);
        }
        i = i + 1;
    }
    proof {
        assert(dvs@.skip(dvs@.len() as int).len() == 0);
    }
    None
}

/// One point of the label ring, in polar form.
#[derive(Debug)]
pub struct RingPoint {
    pub axis: usize,
    pub radius: Rat,
    pub label: Option<String>,
}

/// One data point of a series polygon, in polar form.
#[derive(Clone, Copy, Debug, PartialEq, Eq, Structural)]
pub struct DataPoint {
    pub axis: usize,
    pub radius: Rat,
}

/// A normalized radial chart: the axis count, the label ring, and one
/// closed polygon per series, in alphabetical series order.
#[derive(Debug)]
pub struct RadialChart {
    pub axes: usize,
    pub label_ring: Vec<RingPoint>,
    pub series: Vec<(String, Vec<DataPoint>)>,
}

/// The label ring: for each descriptor a unit-radius labeled point on
/// its axis, a degenerate center point, and the labeled point again, so
/// a stroked path renders as disconnected spokes.
pub open spec fn ring_spec(s: Seq<DimDesc>) -> Seq<RingPoint>
    decreases s.len(),
{
    if s.len() == 0 {
        Seq::empty()
    } else {
        let k = s.len() - 1;
        let lab = RingPoint { axis: k as usize, radius: rat_one(), label: Some(s.last().name) };
        let ctr = RingPoint { axis: k as usize, radius: rat_zero(), label: None };
        ring_spec(s.drop_last()) + seq![lab, ctr, lab]
    }
}

/// The ring of `N` descriptors holds exactly `3 N` points in the
/// pattern label, center, label, the two labels of each axis identical.
pub proof fn lemma_ring_structure(s: Seq<DimDesc>)
    ensures
        ring_spec(s).len() == 3 * s.len(),
        forall|k: int|
            0 <= k < s.len() ==> {
                &&& (#[trigger] ring_spec(s)[3 * k]) == RingPoint {
                    axis: k as usize,
                    radius: rat_one(),
                    label: Some(s[k].name),
                }
                &&& ring_spec(s)[3 * k + 1] == RingPoint {
                    axis: k as usize,
                    radius: rat_zero(),
                    label: None,
                }
                &&& ring_spec(s)[3 * k + 2] == ring_spec(s)[3 * k]
            },
    decreases s.len(),
{
    if s.len() > 0 {
        lemma_ring_structure(s.drop_last());
        assert forall|k: int| 0 <= k < s.len() implies {
            &&& (#[trigger] ring_spec(s)[3 * k]) == RingPoint {
                axis: k as usize,
                radius: rat_one(),
                label: Some(s[k].name),
            }
            &&& ring_spec(s)[3 * k + 1] == RingPoint {
                axis: k as usize,
                radius: rat_zero(),
                label: None,
            }
            &&& ring_spec(s)[3 * k + 2] == ring_spec(s)[3 * k]
        } by {
            let dl = s.drop_last();
            if k < s.len() - 1 {
                assert(ring_spec(s)[3 * k] == ring_spec(dl)[3 * k]);
                assert(ring_spec(s)[3 * k + 1] == ring_spec(dl)[3 * k + 1]);
                assert(ring_spec(s)[3 * k + 2] == ring_spec(dl)[3 * k + 2]);
                assert(dl[k] == s[k]);
            } else {
                assert(ring_spec(s)[3 * k] == ring_spec(s)[ring_spec(dl).len() as int]);
            }
        }
    }
}

fn label_ring(sorted: &Vec<DimDesc>) -> (r: Vec<RingPoint>)
    ensures
        r@ == ring_spec(sorted@),
{
    let mut out: Vec<RingPoint> = Vec::new();
    let mut k: usize = 0;
    while k < sorted.len()
        invariant
            k <= sorted.len(),
            out@ == ring_spec(sorted@.take(k as int)),
        decreases sorted.len() - k,
    {
        proof {
            assert(sorted@.take(k + 1).drop_last() =~= sorted@.take(k as int));
            assert(sorted@.take(k + 1).last() == sorted@[k as int]);
        }
        let name = sorted[k].name.clone();
        out.push(RingPoint { axis: k, radius: Rat { num: 1, den: 1 }, label: Some(name) });
        out.push(RingPoint { axis: k, radius: Rat { num: 0, den: 1 }, label: None });
        let name2 = sorted[k].name.clone();
        out.push(RingPoint { axis: k, radius: Rat { num: 1, den: 1 }, label: Some(name2) });
        proof {
            assert(out@ =~= ring_spec(sorted@.take(k + 1)));
        }
        k = k + 1;
    }
    proof {
        assert(sorted@.take(sorted@.len() as int) =~= sorted@);
    }
    out
}

/// The polygon of one series: for each usable descriptor, in sorted
/// order, the first matching measurement scaled onto that descriptor's
/// axis; descriptors without a measurement are skipped.
pub open spec fn series_points_spec(sorted: Seq<DimDesc>, dvs: Seq<DimValue>) -> Seq<DataPoint>
    decreases sorted.len(),
{
    if sorted.len() == 0 {
        Seq::empty()
    } else {
        let rest = series_points_spec(sorted.drop_last(), dvs);
        let d = sorted.last();
        let k = sorted.len() - 1;
        if dim_usable(d) {
            match first_match(dvs, d.name@) {
                Some(v) => rest.push(
                    DataPoint { axis: k as usize, radius: div_dec_spec(v, eff_target(d)) },
                ),
                None => rest,
            }
        } else {
            rest
        }
    }
}

/// Every emitted point cites a usable descriptor of the sorted list:
/// a descriptor whose native range ends at zero contributes no point to
/// any series, and no scale computation divides by zero.
pub proof fn lemma_zero_range_excluded(sorted: Seq<DimDesc>, dvs: Seq<DimValue>)
    requires
        sorted.len() <= usize::MAX,
    ensures
        forall|i: int|
            0 <= i < series_points_spec(sorted, dvs).len() ==> {
                let p = #[trigger] series_points_spec(sorted, dvs)[i];
                &&& 0 <= p.axis < sorted.len()
                &&& dim_usable(sorted[p.axis as int])
                &&& sorted[p.axis as int].range_end.mant != 0
            },
    decreases sorted.len(),
{
    if sorted.len() > 0 {
        lemma_zero_range_excluded(sorted.drop_last(), dvs);
        let dl = sorted.drop_last();
        assert forall|i: int| 0 <= i < series_points_spec(sorted, dvs).len() implies {
            let p = #[trigger] series_points_spec(sorted, dvs)[i];
            &&& 0 <= p.axis < sorted.len()
            &&& dim_usable(sorted[p.axis as int])
            &&& sorted[p.axis as int].range_end.mant != 0
        } by {
            let rest = series_points_spec(dl, dvs);
            let d = sorted.last();
            if i < rest.len() {
                if dim_usable(d) {
                    match first_match(dvs, d.name@) {
                        Some(v) => {
                            assert(series_points_spec(sorted, dvs)[i] == rest.push(
                                DataPoint {
                                    axis: (sorted.len() - 1) as usize,
                                    radius: div_dec_spec(v, eff_target(d)),
                                },
                            )[i]);
                        },
                        None => {},
                    }
                }
                assert(series_points_spec(sorted, dvs)[i] == rest[i]);
                let p = rest[i];
                assert(dl[p.axis as int] == sorted[p.axis as int]);
            } else {
                assert(dim_usable(d) && first_match(dvs, d.name@) is Some);
                let v = first_match(dvs, d.name@)->0;
                let pushed = DataPoint {
                    axis: (sorted.len() - 1) as usize,
                    radius: div_dec_spec(v, eff_target(d)),
                };
                assert(series_points_spec(sorted, dvs) == rest.push(pushed));
                assert(series_points_spec(sorted, dvs)[i] == pushed);
                assert(sorted[pushed.axis as int] == d);
            }
        }
    }
}

fn series_points(sorted: &Vec<DimDesc>, dvs: &Vec<DimValue>) -> (r: Vec<DataPoint>)
    requires
        forall|i: int| 0 <= i < sorted@.len() ==> dim_desc_wf(#[trigger] sorted@[i]),
        forall|i: int| 0 <= i < dvs@.len() ==> dim_value_wf(#[trigger] dvs@[i]),
    ensures
        r@ == series_points_spec(sorted@, dvs@),
{
    let mut out: Vec<DataPoint> = Vec::new();
    let mut k: usize = 0;
    while k < sorted.len()
        invariant
            k <= sorted.len(),
            forall|i: int| 0 <= i < sorted@.len() ==> dim_desc_wf(#[trigger] sorted@[i]),
            forall|i: int| 0 <= i < dvs@.len() ==> dim_value_wf(#[trigger] dvs@[i]),
            out@ == series_points_spec(sorted@.take(k as int), dvs@),
        decreases sorted.len() - k,
    {
        proof {
            assert(sorted@.take(k + 1).drop_last() =~= sorted@.take(k as int));
            assert(sorted@.take(k + 1).last() == sorted@[k as int]);
        }
        let d = &sorted[k];
        if dim_usable_exec(d) {
            match find_value(dvs, d.name.as_str()) {
                Some(v) => {
                    proof {
                        lemma_first_match_wf(dvs@, d.name@);
                    }
                    let t = eff_target_exec(d);
                    let radius = div_dec(v, t);
                    out.push(DataPoint { axis: k, radius });
                },
                None => {},
            }
        }
        k = k + 1;
    }
    proof {
        assert(sorted@.take(sorted@.len() as int) =~= sorted@);
    }
    out
}

pub open spec fn dim_values_wf(dvs: Seq<DimValue>) -> bool {
    forall|i: int| 0 <= i < dvs.len() ==> dim_value_wf(#[trigger] dvs[i])
}

pub open spec fn series_input_wf(s: Seq<(String, Vec<DimValue>)>) -> bool {
    forall|i: int| 0 <= i < s.len() ==> dim_values_wf((#[trigger] s[i]).1@)
}

/// Normalizes descriptors and per-series measurements into a radial
/// chart.  Descriptors sort by display order; series come out sorted
/// alphabetically by name so stacking order is deterministic.  With no
/// descriptors there is nothing to lay out and no chart is produced.
pub fn normalize(descs: Vec<DimDesc>, series: Vec<(String, Vec<DimValue>)>) -> (r: Option<
    RadialChart,
>)
    requires
        forall|i: int| 0 <= i < descs@.len() ==> dim_desc_wf(#[trigger] descs@[i]),
        series_input_wf(series@),
    ensures
        (r is Some) <==> descs@.len() > 0,
        r matches Some(c) ==> {
            &&& c.axes == descs@.len()
            &&& c.label_ring@ == ring_spec(sort_descs_spec(descs@))
            &&& c.series@.len() == series@.len()
            &&& forall|j: int|
                0 <= j < c.series@.len() ==> {
                    &&& (#[trigger] c.series@[j]).0 == sort_by_name_spec(series@)[j].0
                    &&& c.series@[j].1@ == series_points_spec(
                        sort_descs_spec(descs@),
                        sort_by_name_spec(series@)[j].1@,
                    )
                }
        },
{
    if descs.is_empty() {
        return None;
    }
    let ghost dorig = descs@;
    let ghost sorig = series@;
    proof {
        lemma_sort_descs_len(dorig);
        lemma_sort_descs_all(dorig, |d: DimDesc| dim_desc_wf(d));
        lemma_sort_by_name_len::<Vec<DimValue>>(sorig);
        lemma_sort_by_name_all::<Vec<DimValue>>(
            sorig,
            |p: (String, Vec<DimValue>)| dim_values_wf(p.1@),
        );
    }
    let sorted = sort_descs(descs);
    let axes = sorted.len();
    let ring = label_ring(&sorted);
    let mut named = sort_pairs_by_name(series);
    let mut out_series: Vec<(String, Vec<DataPoint>)> = Vec::new();
    let ghost mut i: int = 0;
    while named.len() > 0
        invariant
            0 <= i,
            i + named.len() == sorig.len(),
            named@ == sort_by_name_spec(sorig).skip(i),
            sort_by_name_spec(sorig).len() == sorig.len(),
            sorted@ == sort_descs_spec(dorig),
            forall|k: int| 0 <= k < sorted@.len() ==> dim_desc_wf(#[trigger] sorted@[k]),
            forall|k: int|
                0 <= k < sort_by_name_spec(sorig).len() ==> dim_values_wf(
                    (#[trigger] sort_by_name_spec(sorig)[k]).1@,
                ),
            out_series@.len() == i,
            forall|j: int|
                0 <= j < i ==> {
                    &&& (#[trigger] out_series@[j]).0 == sort_by_name_spec(sorig)[j].0
                    &&& out_series@[j].1@ == series_points_spec(
                        sort_descs_spec(dorig),
                        sort_by_name_spec(sorig)[j].1@,
                    )
                },
        decreases named.len(),
    {
        let ghost named_pre = named@;
        let (name, dvs) = named.remove(0);
        proof {
            assert(named_pre[0] == sort_by_name_spec(sorig)[i]);
            assert(named@ == named_pre.remove(0));
            assert(named@ =~= sort_by_name_spec(sorig).skip(i + 1));
            assert(dim_values_wf(dvs@));
        }
        let pts = series_points(&sorted, &dvs);
        out_series.push((name, pts));
        proof {
            i = i + 1;
        }
    }
    Some(RadialChart { axes, label_ring: ring, series: out_series })
}

} // verus!
