//! Planar geometry in fixed-point coordinates.
//!
//! A coordinate is a pair of signed nano-units (a billionth of a map unit),
//! bounded so that every computation of the compositor stays inside `i64`.

use vstd::prelude::*;

verus! {

/// Bound on both coordinate axes, in nano-units.
pub const COORD_LIMIT: i64 = 1_000_000_000_000_000_000;

/// A planar position in nano-units.
#[derive(Clone, Copy, Debug, PartialEq, Eq, Structural)]
pub struct Coord {
    pub x: i64,
    pub y: i64,
}

pub open spec fn coord_wf(c: Coord) -> bool {
    &&& -COORD_LIMIT <= c.x <= COORD_LIMIT
    &&& -COORD_LIMIT <= c.y <= COORD_LIMIT
}

/// An axis-aligned rectangle, kept normalized: `min` at or below `max` on
/// both axes.
#[derive(Clone, Copy, Debug, PartialEq, Eq, Structural)]
pub struct Rect {
    pub min: Coord,
    pub max: Coord,
}

pub open spec fn rect_wf(r: Rect) -> bool {
    &&& coord_wf(r.min)
    &&& coord_wf(r.max)
    &&& r.min.x <= r.max.x
    &&& r.min.y <= r.max.y
}

/// A polygon: one exterior ring and any number of interior rings.
#[derive(Debug)]
pub struct PolyShape {
    pub exterior: Vec<Coord>,
    pub interiors: Vec<Vec<Coord>>,
}

/// A planar shape owned by an entity record.
#[derive(Debug)]
pub enum GeoShape {
    Point(Coord),
    Line(Vec<Coord>),
    Polygon(PolyShape),
    MultiPolygon(Vec<PolyShape>),
}

#[verifier::ext_equal]
pub ghost struct PolyView {
    pub exterior: Seq<Coord>,
    pub interiors: Seq<Seq<Coord>>,
}

#[verifier::ext_equal]
pub ghost enum ShapeView {
    Point(Coord),
    Line(Seq<Coord>),
    Polygon(PolyView),
    MultiPolygon(Seq<PolyView>),
}

impl View for PolyShape {
    type V = PolyView;

    open spec fn view(&self) -> PolyView {
        PolyView {
            exterior: self.exterior@,
            interiors: self.interiors@.map_values(|v: Vec<Coord>| v@),
        }
    }
}

impl View for GeoShape {
    type V = ShapeView;

    open spec fn view(&self) -> ShapeView {
        match *self {
            GeoShape::Point(c) => ShapeView::Point(c),
            GeoShape::Line(cs) => ShapeView::Line(cs@),
            GeoShape::Polygon(p) => ShapeView::Polygon(p@),
            GeoShape::MultiPolygon(ps) => ShapeView::MultiPolygon(
                ps@.map_values(|q: PolyShape| q@),
            ),
        }
    }
}

pub open spec fn coords_wf(cs: Seq<Coord>) -> bool {
    forall|i: int| 0 <= i < cs.len() ==> coord_wf(#[trigger] cs[i])
}

pub open spec fn rings_wf(rs: Seq<Seq<Coord>>) -> bool {
    forall|i: int| 0 <= i < rs.len() ==> coords_wf(#[trigger] rs[i])
}

pub open spec fn poly_wf(p: PolyView) -> bool {
    &&& coords_wf(p.exterior)
    &&& rings_wf(p.interiors)
}

pub open spec fn polys_wf(ps: Seq<PolyView>) -> bool {
    forall|i: int| 0 <= i < ps.len() ==> poly_wf(#[trigger] ps[i])
}

pub open spec fn shape_wf(s: ShapeView) -> bool {
    match s {
        ShapeView::Point(c) => coord_wf(c),
        ShapeView::Line(cs) => coords_wf(cs),
        ShapeView::Polygon(p) => poly_wf(p),
        ShapeView::MultiPolygon(ps) => polys_wf(ps),
    }
}

/// The coordinate correction: the vertical axis is negated, turning the
/// north-up convention into the top-down rendering convention.
pub open spec fn flip_coord(c: Coord) -> Coord {
    Coord { x: c.x, y: (-(c.y as int)) as i64 }
}

pub open spec fn flip_coords(cs: Seq<Coord>) -> Seq<Coord> {
    cs.map_values(|c: Coord| flip_coord(c))
}

pub open spec fn flip_poly(p: PolyView) -> PolyView {
    PolyView {
        exterior: flip_coords(p.exterior),
        interiors: p.interiors.map_values(|cs: Seq<Coord>| flip_coords(cs)),
    }
}

pub open spec fn flip_shape(s: ShapeView) -> ShapeView {
    match s {
        ShapeView::Point(c) => ShapeView::Point(flip_coord(c)),
        ShapeView::Line(cs) => ShapeView::Line(flip_coords(cs)),
        ShapeView::Polygon(p) => ShapeView::Polygon(flip_poly(p)),
        ShapeView::MultiPolygon(ps) => ShapeView::MultiPolygon(
            ps.map_values(|p: PolyView| flip_poly(p)),
        ),
    }
}

/// Flipping a normalized rectangle swaps which edge is lowest.
pub open spec fn flip_rect(r: Rect) -> Rect {
    Rect {
        min: Coord { x: r.min.x, y: (-(r.max.y as int)) as i64 },
        max: Coord { x: r.max.x, y: (-(r.min.y as int)) as i64 },
    }
}

pub fn flip_rect_exec(r: &Rect) -> (f: Rect)
    requires
        rect_wf(*r),
    ensures
        f == flip_rect(*r),
        rect_wf(f),
{
    Rect {
        min: Coord { x: r.min.x, y: -r.max.y },
        max: Coord { x: r.max.x, y: -r.min.y },
    }
}

fn flip_coords_exec(cs: Vec<Coord>) -> (r: Vec<Coord>)
    requires
        coords_wf(cs@),
    ensures
        r@ == flip_coords(cs@),
        coords_wf(r@),
{
    let mut out: Vec<Coord> = Vec::new();
    let mut i: usize = 0;
    while i < cs.len()
        invariant
            i <= cs.len(),
            coords_wf(cs@),
            out@ == flip_coords(cs@.take(i as int)),
            coords_wf(out@),
        decreases cs.len() - i,
    {
        let c = cs[i];
        out.push(Coord { x: c.x, y: -c.y });
        proof {
            assert(flip_coords(cs@.take(i + 1)) =~= flip_coords(cs@.take(i as int)).push(
                flip_coord(cs@[i as int]),
            ));
        }
        i = i + 1;
    }
    proof {
        assert(cs@.take(cs@.len() as int) =~= cs@);
    }
    out
}

fn flip_rings_exec(rs: Vec<Vec<Coord>>) -> (r: Vec<Vec<Coord>>)
    requires
        rings_wf(rs@.map_values(|v: Vec<Coord>| v@)),
    ensures
        r@.map_values(|v: Vec<Coord>| v@) == rs@.map_values(|v: Vec<Coord>| v@).map_values(
            |cs: Seq<Coord>| flip_coords(cs),
        ),
        rings_wf(r@.map_values(|v: Vec<Coord>| v@)),
{
    let ghost orig = rs@.map_values(|v: Vec<Coord>| v@);
    let mut rs = rs;
    let mut out: Vec<Vec<Coord>> = Vec::new();
    let ghost mut i: int = 0;
    while rs.len() > 0
        invariant
            0 <= i,
            i + rs.len() == orig.len(),
            rs@.map_values(|v: Vec<Coord>| v@) =~= orig.skip(i),
            rings_wf(orig),
            out@.map_values(|v: Vec<Coord>| v@) =~= orig.take(i).map_values(
                |cs: Seq<Coord>| flip_coords(cs),
            ),
            rings_wf(out@.map_values(|v: Vec<Coord>| v@)),
        decreases rs.len(),
    {
        let ghost rs_pre = rs@;
        let ring = rs.remove(0);
        proof {
            assert(ring@ == rs_pre.map_values(|v: Vec<Coord>| v@)[0]);
            assert(ring@ == orig[i]);
            assert(rs@ == rs_pre.remove(0));
            rs_pre.remove_ensures(0);
            assert forall|k: int| #![trigger rs@[k]] 0 <= k < rs@.len() implies rs@.map_values(
                |v: Vec<Coord>| v@,
            )[k] == orig.skip(i + 1)[k] by {
                assert(rs@[k] == rs_pre[k + 1]);
                assert(rs_pre.map_values(|v: Vec<Coord>| v@)[k + 1] == rs_pre[k + 1]@);
            }
            assert(rs@.map_values(|v: Vec<Coord>| v@) =~= orig.skip(i + 1));
            assert(coords_wf(ring@));
        }
        let flipped = flip_coords_exec(ring);
        out.push(flipped);
        proof {
            assert(orig.take(i + 1).drop_last() =~= orig.take(i));
            assert(orig.take(i + 1).last() == orig[i]);
            assert(out@.map_values(|v: Vec<Coord>| v@) =~= orig.take(i).map_values(
                |cs: Seq<Coord>| flip_coords(cs),
            ).push(flip_coords(orig[i])));
            assert(orig.take(i + 1).map_values(|cs: Seq<Coord>| flip_coords(cs)) =~= orig.take(
                i,
            ).map_values(|cs: Seq<Coord>| flip_coords(cs)).push(flip_coords(orig[i])));
            i = i + 1;
        }
    }
    proof {
        assert(orig.take(orig.len() as int) =~= orig);
    }
    out
}

fn flip_poly_exec(p: PolyShape) -> (r: PolyShape)
    requires
        poly_wf(p@),
    ensures
        r@ =~= flip_poly(p@),
        poly_wf(r@),
{
    let PolyShape { exterior, interiors } = p;
    let fe = flip_coords_exec(exterior);
    let fi = flip_rings_exec(interiors);
    PolyShape { exterior: fe, interiors: fi }
}

/// Applies the coordinate correction to a whole shape.
pub fn flip_shape_exec(s: GeoShape) -> (r: GeoShape)
    requires
        shape_wf(s@),
    ensures
        r@ =~~= flip_shape(s@),
        shape_wf(r@),
{
    match s {
        GeoShape::Point(c) => GeoShape::Point(Coord { x: c.x, y: -c.y }),
        GeoShape::Line(cs) => GeoShape::Line(flip_coords_exec(cs)),
        GeoShape::Polygon(p) => GeoShape::Polygon(flip_poly_exec(p)),
        GeoShape::MultiPolygon(ps) => {
            let ghost orig = ps@.map_values(|q: PolyShape| q@);
            let mut ps = ps;
            let mut out: Vec<PolyShape> = Vec::new();
            let ghost mut i: int = 0;
            while ps.len() > 0
                invariant
                    0 <= i,
                    i + ps.len() == orig.len(),
                    ps@.map_values(|q: PolyShape| q@) =~= orig.skip(i),
                    polys_wf(orig),
                    out@.map_values(|q: PolyShape| q@) =~= orig.take(i).map_values(
                        |p: PolyView| flip_poly(p),
                    ),
                    polys_wf(out@.map_values(|q: PolyShape| q@)),
                decreases ps.len(),
            {
                let ghost ps_pre = ps@;
                let p = ps.remove(0);
                proof {
                    assert(p@ == ps_pre.map_values(|q: PolyShape| q@)[0]);
                    assert(p@ == orig[i]);
                    assert(ps@ == ps_pre.remove(0));
                    ps_pre.remove_ensures(0);
                    assert forall|k: int| #![trigger ps@[k]] 0 <= k < ps@.len() implies
                        ps@.map_values(|q: PolyShape| q@)[k] == orig.skip(i + 1)[k] by {
                        assert(ps@[k] == ps_pre[k + 1]);
                        assert(ps_pre.map_values(|q: PolyShape| q@)[k + 1] == ps_pre[k + 1]@);
                    }
                    assert(ps@.map_values(|q: PolyShape| q@) =~= orig.skip(i + 1));
                }
                let fp = flip_poly_exec(p);
                out.push(fp);
                proof {
                    assert(orig.take(i + 1).drop_last() =~= orig.take(i));
                    assert(orig.take(i + 1).last() == orig[i]);
                    assert(orig.take(i + 1).map_values(|p: PolyView| flip_poly(p)) =~= orig.take(
                        i,
                    ).map_values(|p: PolyView| flip_poly(p)).push(flip_poly(orig[i])));
                    i = i + 1;
                }
            }
            proof {
                assert(orig.take(orig.len() as int) =~= orig);
            }
            GeoShape::MultiPolygon(out)
        },
    }
}

/// The smallest rectangle holding both arguments.
pub open spec fn rect_union(a: Rect, b: Rect) -> Rect {
    Rect {
        min: Coord {
            x: if b.min.x < a.min.x {
                b.min.x
            } else {
                a.min.x
            },
            y: if b.min.y < a.min.y {
                b.min.y
            } else {
                a.min.y
            },
        },
        max: Coord {
            x: if b.max.x > a.max.x {
                b.max.x
            } else {
                a.max.x
            },
            y: if b.max.y > a.max.y {
                b.max.y
            } else {
                a.max.y
            },
        },
    }
}

pub fn rect_union_exec(a: &Rect, b: &Rect) -> (r: Rect)
    ensures
        r == rect_union(*a, *b),
{
    Rect {
        min: Coord {
            x: if b.min.x < a.min.x {
                b.min.x
            } else {
                a.min.x
            },
            y: if b.min.y < a.min.y {
                b.min.y
            } else {
                a.min.y
            },
        },
        max: Coord {
            x: if b.max.x > a.max.x {
                b.max.x
            } else {
                a.max.x
            },
            y: if b.max.y > a.max.y {
                b.max.y
            } else {
                a.max.y
            },
        },
    }
}

pub open spec fn expand_rect(r: Rect, c: Coord) -> Rect {
    rect_union(r, Rect { min: c, max: c })
}

/// The bounding rectangle of a coordinate run, if it has any point.
pub open spec fn bbox_coords(cs: Seq<Coord>) -> Option<Rect>
    decreases cs.len(),
{
    if cs.len() == 0 {
        None
    } else {
        match bbox_coords(cs.drop_last()) {
            None => Some(Rect { min: cs.last(), max: cs.last() }),
            Some(r) => Some(expand_rect(r, cs.last())),
        }
    }
}

/// The bounding rectangle of a shape.  A polygon is bounded by its
/// exterior ring alone; a multi-polygon by all its exterior rings.
pub open spec fn bbox_polys(ps: Seq<PolyView>) -> Option<Rect>
    decreases ps.len(),
{
    if ps.len() == 0 {
        None
    } else {
        match (bbox_polys(ps.drop_last()), bbox_coords(ps.last().exterior)) {
            (None, b) => b,
            (Some(r), None) => Some(r),
            (Some(r), Some(b)) => Some(rect_union(r, b)),
        }
    }
}

pub open spec fn bbox_shape(s: ShapeView) -> Option<Rect> {
    match s {
        ShapeView::Point(c) => Some(Rect { min: c, max: c }),
        ShapeView::Line(cs) => bbox_coords(cs),
        ShapeView::Polygon(p) => bbox_coords(p.exterior),
        ShapeView::MultiPolygon(ps) => bbox_polys(ps),
    }
}

pub proof fn lemma_bbox_coords_wf(cs: Seq<Coord>)
    requires
        coords_wf(cs),
    ensures
        bbox_coords(cs) matches Some(r) ==> rect_wf(r),
    decreases cs.len(),
{
    if cs.len() > 0 {
        assert(coord_wf(cs[cs.len() - 1]));
        assert(coords_wf(cs.drop_last()));
        lemma_bbox_coords_wf(cs.drop_last());
    }
}

pub proof fn lemma_bbox_polys_wf(ps: Seq<PolyView>)
    requires
        polys_wf(ps),
    ensures
        bbox_polys(ps) matches Some(r) ==> rect_wf(r),
    decreases ps.len(),
{
    if ps.len() > 0 {
        assert(poly_wf(ps[ps.len() - 1]));
        assert(polys_wf(ps.drop_last()));
        lemma_bbox_coords_wf(ps.last().exterior);
        lemma_bbox_polys_wf(ps.drop_last());
    }
}

pub proof fn lemma_bbox_shape_wf(s: ShapeView)
    requires
        shape_wf(s),
    ensures
        bbox_shape(s) matches Some(r) ==> rect_wf(r),
{
    match s {
        ShapeView::Point(c) => {},
        ShapeView::Line(cs) => {
            lemma_bbox_coords_wf(cs);
        },
        ShapeView::Polygon(p) => {
            lemma_bbox_coords_wf(p.exterior);
        },
        ShapeView::MultiPolygon(ps) => {
            lemma_bbox_polys_wf(ps);
        },
    }
}

fn bbox_coords_exec(cs: &Vec<Coord>) -> (r: Option<Rect>)
    ensures
        r == bbox_coords(cs@),
{
    let mut r: Option<Rect> = None;
    let mut i: usize = 0;
    while i < cs.len()
        invariant
            i <= cs.len(),
            r == bbox_coords(cs@.take(i as int)),
        decreases cs.len() - i,
    {
        let c = cs[i];
        let pt = Rect { min: c, max: c };
        r = match r {
            None => Some(pt),
            Some(b) => Some(rect_union_exec(&b, &pt)),
        };
        proof {
            assert(cs@.take(i + 1).drop_last() =~= cs@.take(i as int));
            assert(cs@.take(i + 1).last() == cs@[i as int]);
        }
        i = i + 1;
    }
    proof {
        assert(cs@.take(cs@.len() as int) =~= cs@);
    }
    r
}

/// The bounding rectangle of a shape, as `bbox_shape` of its view.
pub fn bbox_shape_exec(s: &GeoShape) -> (r: Option<Rect>)
    ensures
        r == bbox_shape(s@),
{
    match s {
        GeoShape::Point(c) => Some(Rect { min: *c, max: *c }),
        GeoShape::Line(cs) => bbox_coords_exec(cs),
        GeoShape::Polygon(p) => bbox_coords_exec(&p.exterior),
        GeoShape::MultiPolygon(ps) => {
            let ghost pviews = ps@.map_values(|q: PolyShape| q@);
            let mut r: Option<Rect> = None;
            let mut i: usize = 0;
            while i < ps.len()
                invariant
                    i <= ps.len(),
                    pviews == ps@.map_values(|q: PolyShape| q@),
                    r == bbox_polys(pviews.take(i as int)),
                decreases ps.len() - i,
            {
                let b = bbox_coords_exec(&ps[i].exterior);
                proof {
                    assert(pviews[i as int] == ps@[i as int]@);
                    assert(pviews.take(i + 1).drop_last() =~= pviews.take(i as int));
                    assert(pviews.take(i + 1).last() == pviews[i as int]);
                }
                r = match (r, b) {
                    (None, b) => b,
                    (Some(r0), None) => Some(r0),
                    (Some(r0), Some(b0)) => Some(rect_union_exec(&r0, &b0)),
                };
                i = i + 1;
            }
            proof {
                assert(pviews.take(pviews.len() as int) =~= pviews);
            }
            r
        },
    }
}

} // verus!
