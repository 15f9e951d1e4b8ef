//! The spatial compositor: entity shapes over a reference raster, in one
//! vertically-flipped frame, with a computed viewport.

use vstd::prelude::*;

use crate::geom::{
    bbox_shape, flip_rect, flip_rect_exec, flip_shape, flip_shape_exec, rect_union,
    rect_union_exec, rect_wf, bbox_shape_exec, lemma_bbox_shape_wf, shape_wf, Coord, GeoShape,
    PolyShape, PolyView, Rect, ShapeView,
};
use crate::models::Entity;
use crate::seqs::{lemma_pick_map_permutation, pick_map};
use crate::text::{
    lemma_sort_by_name_all, lemma_sort_by_name_len, sort_by_name_spec, sort_pairs_by_name,
};

verus! {

/// The reference raster and the rectangle it covers, in the same
/// coordinate space as the entity shapes.
#[derive(Debug)]
pub struct MapReference {
    pub image_reference: String,
    pub extent: Rect,
}

/// One drawing primitive of a vector path, in absolute coordinates.
#[derive(Clone, Copy, Debug, PartialEq, Eq, Structural)]
pub enum PathOp {
    MoveTo(Coord),
    LineTo(Coord),
    Close,
}

/// A run of points: move to the first, lines to the rest.
pub open spec fn line_ops(cs: Seq<Coord>) -> Seq<PathOp> {
    if cs.len() == 0 {
        Seq::empty()
    } else {
        seq![PathOp::MoveTo(cs[0])] + cs.drop_first().map_values(|c: Coord| PathOp::LineTo(c))
    }
}

/// A closed ring: the run of its points, then a close.
pub open spec fn ring_ops(cs: Seq<Coord>) -> Seq<PathOp> {
    if cs.len() == 0 {
        Seq::empty()
    } else {
        line_ops(cs) + seq![PathOp::Close]
    }
}

pub open spec fn rings_ops(rs: Seq<Seq<Coord>>) -> Seq<PathOp>
    decreases rs.len(),
{
    if rs.len() == 0 {
        Seq::empty()
    } else {
        rings_ops(rs.drop_last()) + ring_ops(rs.last())
    }
}

pub open spec fn poly_ops(p: PolyView) -> Seq<PathOp> {
    ring_ops(p.exterior) + rings_ops(p.interiors)
}

pub open spec fn polys_ops(ps: Seq<PolyView>) -> Seq<PathOp>
    decreases ps.len(),
{
    if ps.len() == 0 {
        Seq::empty()
    } else {
        polys_ops(ps.drop_last()) + poly_ops(ps.last())
    }
}

/// The drawing primitives of a shape: a point is a bare move, a line a
/// run, a polygon its rings closed in order, a multi-polygon the
/// concatenation of its polygons.
pub open spec fn shape_ops(s: ShapeView) -> Seq<PathOp> {
    match s {
        ShapeView::Point(c) => seq![PathOp::MoveTo(c)],
        ShapeView::Line(cs) => line_ops(cs),
        ShapeView::Polygon(p) => poly_ops(p),
        ShapeView::MultiPolygon(ps) => polys_ops(ps),
    }
}

proof fn lemma_line_ops_step(cs: Seq<Coord>, i: int)
    requires
        0 <= i < cs.len(),
    ensures
        i == 0 ==> line_ops(cs.take(1)) =~= seq![PathOp::MoveTo(cs[0])],
        i > 0 ==> line_ops(cs.take(i + 1)) =~= line_ops(cs.take(i)).push(
            PathOp::LineTo(cs[i]),
        ),
{
    let a = cs.take(i + 1);
    if i == 0 {
        assert(a[0] == cs[0]);
        assert(a.drop_first().len() == 0);
        assert(line_ops(a) =~= seq![PathOp::MoveTo(cs[0])]);
    } else {
        let b = cs.take(i);
        let lhs = line_ops(a);
        let rhs = line_ops(b).push(PathOp::LineTo(cs[i]));
        assert(lhs.len() == i + 1);
        assert(rhs.len() == i + 1);
        assert forall|j: int| #![trigger lhs[j]] 0 <= j < lhs.len() implies lhs[j] == rhs[j] by {
            if j == 0 {
                assert(a[0] == cs[0]);
                assert(b[0] == cs[0]);
            } else {
                assert(lhs[j] == PathOp::LineTo(a.drop_first()[j - 1]));
                assert(a.drop_first()[j - 1] == a[j]);
                if j < i {
                    assert(rhs[j] == line_ops(b)[j]);
                    assert(line_ops(b)[j] == PathOp::LineTo(b.drop_first()[j - 1]));
                    assert(b.drop_first()[j - 1] == b[j]);
                } else {
                    assert(rhs[j] == PathOp::LineTo(cs[i]));
                }
            }
        }
        assert(lhs =~= rhs);
    }
}

fn line_ops_exec(cs: &Vec<Coord>) -> (r: Vec<PathOp>)
    ensures
        r@ == line_ops(cs@),
{
    let mut out: Vec<PathOp> = Vec::new();
    let mut i: usize = 0;
    while i < cs.len()
        invariant
            i <= cs.len(),
            out@ == line_ops(cs@.take(i as int)),
        decreases cs.len() - i,
    {
        if i == 0 {
            out.push(PathOp::MoveTo(cs[0]));
        } else {
            out.push(PathOp::LineTo(cs[i]));
        }
        proof {
            lemma_line_ops_step(cs@, i as int);
            if i == 0 {
                assert(line_ops(cs@.take(0)).len() == 0);
            }
        }
        i = i + 1;
    }
    proof {
        assert(cs@.take(cs@.len() as int) =~= cs@);
    }
    out
}

fn ring_ops_exec(cs: &Vec<Coord>) -> (r: Vec<PathOp>)
    ensures
        r@ == ring_ops(cs@),
{
    let mut out = line_ops_exec(cs);
    if out.len() > 0 {
        out.push(PathOp::Close);
        proof {
            assert(out@ =~= line_ops(cs@) + seq![PathOp::Close]);
        }
    }
    out
}

fn rings_ops_exec(rs: &Vec<Vec<Coord>>) -> (r: Vec<PathOp>)
    ensures
        r@ == rings_ops(rs@.map_values(|v: Vec<Coord>| v@)),
{
    let ghost rviews = rs@.map_values(|v: Vec<Coord>| v@);
    let mut out: Vec<PathOp> = Vec::new();
    let mut i: usize = 0;
    while i < rs.len()
        invariant
            i <= rs.len(),
            rviews == rs@.map_values(|v: Vec<Coord>| v@),
            out@ == rings_ops(rviews.take(i as int)),
        decreases rs.len() - i,
    {
        let mut ring = ring_ops_exec(&rs[i]);
        proof {
            assert(rviews[i as int] == rs@[i as int]@);
            assert(rviews.take(i + 1).drop_last() =~= rviews.take(i as int));
            assert(rviews.take(i + 1).last() == rviews[i as int]);
        }
        out.append(&mut ring);
        i = i + 1;
    }
    proof {
        assert(rviews.take(rviews.len() as int) =~= rviews);
    }
    out
}

fn poly_ops_exec(p: &PolyShape) -> (r: Vec<PathOp>)
    ensures
        r@ == poly_ops(p@),
{
    let mut out = ring_ops_exec(&p.exterior);
    let mut inner = rings_ops_exec(&p.interiors);
    out.append(&mut inner);
    out
}

/// Serializes a shape into its drawing primitives.
pub fn shape_ops_exec(s: &GeoShape) -> (r: Vec<PathOp>)
    ensures
        r@ == shape_ops(s@),
{
    match s {
        GeoShape::Point(c) => {
            let mut out: Vec<PathOp> = Vec::new();
            out.push(PathOp::MoveTo(*c));
            proof {
                assert(out@ =~= seq![PathOp::MoveTo(*c)]);
            }
            out
        },
        GeoShape::Line(cs) => line_ops_exec(cs),
        GeoShape::Polygon(p) => poly_ops_exec(p),
        GeoShape::MultiPolygon(ps) => {
            let ghost pviews = ps@.map_values(|q: PolyShape| q@);
            let mut out: Vec<PathOp> = Vec::new();
            let mut i: usize = 0;
            while i < ps.len()
                invariant
                    i <= ps.len(),
                    pviews == ps@.map_values(|q: PolyShape| q@),
                    out@ == polys_ops(pviews.take(i as int)),
                decreases ps.len() - i,
            {
                let mut one = poly_ops_exec(&ps[i]);
                proof {
                    assert(pviews[i as int] == ps@[i as int]@);
                    assert(pviews.take(i + 1).drop_last() =~= pviews.take(i as int));
                    assert(pviews.take(i + 1).last() == pviews[i as int]);
                }
                out.append(&mut one);
                i = i + 1;
            }
            proof {
                assert(pviews.take(pviews.len() as int) =~= pviews);
            }
            out
        },
    }
}

/// The union of a run of rectangles, folded in order.
pub open spec fn union_of(rs: Seq<Rect>) -> Option<Rect>
    decreases rs.len(),
{
    if rs.len() == 0 {
        None
    } else {
        match union_of(rs.drop_last()) {
            None => Some(rs.last()),
            Some(u) => Some(rect_union(u, rs.last())),
        }
    }
}

/// `outer` holds `inner` on both axes.
pub open spec fn rect_covers(outer: Rect, inner: Rect) -> bool {
    &&& outer.min.x <= inner.min.x
    &&& outer.min.y <= inner.min.y
    &&& inner.max.x <= outer.max.x
    &&& inner.max.y <= outer.max.y
}

pub proof fn lemma_union_contains_all(rs: Seq<Rect>)
    requires
        rs.len() > 0,
    ensures
        union_of(rs) is Some,
        forall|i: int| 0 <= i < rs.len() ==> rect_covers(union_of(rs)->0, #[trigger] rs[i]),
    decreases rs.len(),
{
    if rs.len() == 1 {
    } else {
        lemma_union_contains_all(rs.drop_last());
        let dl = rs.drop_last();
        let u0 = union_of(dl)->0;
        let u = union_of(rs)->0;
        assert(u == rect_union(u0, rs.last()));
        assert forall|i: int| 0 <= i < rs.len() implies rect_covers(u, #[trigger] rs[i]) by {
            if i < rs.len() - 1 {
                assert(rect_covers(u0, dl[i]));
                assert(dl[i] == rs[i]);
            }
        }
    }
}

pub proof fn lemma_union_least(rs: Seq<Rect>, r: Rect)
    requires
        rs.len() > 0,
        forall|i: int| 0 <= i < rs.len() ==> rect_covers(r, #[trigger] rs[i]),
    ensures
        union_of(rs) is Some,
        rect_covers(r, union_of(rs)->0),
    decreases rs.len(),
{
    assert(rect_covers(r, rs[rs.len() - 1]));
    if rs.len() > 1 {
        let dl = rs.drop_last();
        assert forall|i: int| 0 <= i < dl.len() implies rect_covers(r, #[trigger] dl[i]) by {
            assert(dl[i] == rs[i]);
        }
        lemma_union_least(dl, r);
    }
}

/// The pre-padding viewport of the dynamic mode does not depend on the
/// order the rectangles were folded in: any permutation unions to the
/// same rectangle.
pub proof fn lemma_union_permutation(rs1: Seq<Rect>, rs2: Seq<Rect>)
    requires
        rs1.to_multiset() == rs2.to_multiset(),
    ensures
        union_of(rs1) == union_of(rs2),
{
    broadcast use vstd::seq_lib::group_to_multiset_ensures;

    rs1.to_multiset_ensures();
    rs2.to_multiset_ensures();
    assert(rs1.len() == rs2.len());
    if rs1.len() == 0 {
    } else {
        lemma_union_contains_all(rs1);
        lemma_union_contains_all(rs2);
        let u1 = union_of(rs1)->0;
        let u2 = union_of(rs2)->0;
        assert forall|i: int| 0 <= i < rs1.len() implies rect_covers(u2, #[trigger] rs1[i]) by {
            assert(rs1.contains(rs1[i]));
            assert(rs1.to_multiset().count(rs1[i]) > 0);
            assert(rs2.contains(rs1[i]));
            let j = choose|j: int| 0 <= j < rs2.len() && rs2[j] == rs1[i];
            assert(rect_covers(u2, rs2[j]));
        }
        lemma_union_least(rs1, u2);
        assert forall|i: int| 0 <= i < rs2.len() implies rect_covers(u1, #[trigger] rs2[i]) by {
            assert(rs2.contains(rs2[i]));
            assert(rs2.to_multiset().count(rs2[i]) > 0);
            assert(rs1.contains(rs2[i]));
            let j = choose|j: int| 0 <= j < rs1.len() && rs1[j] == rs2[i];
            assert(rect_covers(u1, rs1[j]));
        }
        lemma_union_least(rs2, u1);
        assert(u1.min.x == u2.min.x && u1.min.y == u2.min.y && u1.max.x == u2.max.x && u1.max.y
            == u2.max.y);
        assert(u1 == u2);
    }
}

/// The padding margin of the dynamic viewport: an eighth of the width
/// and of the height added on each side, which scales the rectangle by
/// one and a quarter about its own center, up to the truncation of the
/// integer division.
pub open spec fn pad_viewport(r: Rect) -> Rect {
    let wpad = (r.max.x - r.min.x) / 8;
    let hpad = (r.max.y - r.min.y) / 8;
    Rect {
        min: Coord { x: (r.min.x - wpad) as i64, y: (r.min.y - hpad) as i64 },
        max: Coord { x: (r.max.x + wpad) as i64, y: (r.max.y + hpad) as i64 },
    }
}

pub fn pad_viewport_exec(r: &Rect) -> (p: Rect)
    requires
        rect_wf(*r),
    ensures
        p == pad_viewport(*r),
        p.min.x <= p.max.x,
        p.min.y <= p.max.y,
{
    let wpad = (r.max.x - r.min.x) / 8;
    let hpad = (r.max.y - r.min.y) / 8;
    Rect {
        min: Coord { x: r.min.x - wpad, y: r.min.y - hpad },
        max: Coord { x: r.max.x + wpad, y: r.max.y + hpad },
    }
}

/// The bounding rectangles contributed by entities with a shape, in
/// order: each is the box of the flipped shape, where one exists.
pub open spec fn entity_boxes(es: Seq<(String, Entity)>) -> Seq<Rect>
    decreases es.len(),
{
    if es.len() == 0 {
        Seq::empty()
    } else {
        let rest = entity_boxes(es.drop_last());
        match es.last().1.geometry {
            Some(g) => match bbox_shape(flip_shape(g@)) {
                Some(b) => rest.push(b),
                None => rest,
            },
            None => rest,
        }
    }
}

/// The rule that cuts a bounding rectangle out of one entity.
pub open spec fn box_pick() -> spec_fn((String, Entity)) -> Option<Rect> {
    |p: (String, Entity)|
        match p.1.geometry {
            Some(g) => bbox_shape(flip_shape(g@)),
            None => None,
        }
}

proof fn lemma_entity_boxes_is_pick(es: Seq<(String, Entity)>)
    ensures
        entity_boxes(es) == pick_map(es, box_pick()),
    decreases es.len(),
{
    if es.len() > 0 {
        lemma_entity_boxes_is_pick(es.drop_last());
        assert(box_pick()(es.last()) == (match es.last().1.geometry {
            Some(g) => bbox_shape(flip_shape(g@)),
            None => None::<Rect>,
        }));
    }
}

/// Composing any permutation of the same entities produces the same
/// pre-padding union rectangle: the rectangles collected are the same
/// multiset, and their union ignores order.
pub proof fn lemma_dynamic_union_permutation(
    es1: Seq<(String, Entity)>,
    es2: Seq<(String, Entity)>,
)
    requires
        es1.to_multiset() == es2.to_multiset(),
    ensures
        union_of(entity_boxes(sort_by_name_spec(es1))) == union_of(
            entity_boxes(sort_by_name_spec(es2)),
        ),
{
    crate::text::lemma_sort_by_name_multiset::<Entity>(es1);
    crate::text::lemma_sort_by_name_multiset::<Entity>(es2);
    lemma_entity_boxes_is_pick(sort_by_name_spec(es1));
    lemma_entity_boxes_is_pick(sort_by_name_spec(es2));
    lemma_pick_map_permutation(sort_by_name_spec(es1), sort_by_name_spec(es2), box_pick());
    lemma_union_permutation(
        entity_boxes(sort_by_name_spec(es1)),
        entity_boxes(sort_by_name_spec(es2)),
    );
}

/// One renderable region: the index of its entity in the sorted list,
/// the entity's identifier, and the drawing primitives of its flipped
/// shape.
#[derive(Debug)]
pub struct EntityPath {
    pub region: usize,
    pub id: String,
    pub ops: Vec<PathOp>,
}

/// The regions owed to the sorted entities: entities without a shape
/// are omitted but still consume their region index.
pub open spec fn path_items(es: Seq<(String, Entity)>) -> Seq<(int, String, ShapeView)>
    decreases es.len(),
{
    if es.len() == 0 {
        Seq::empty()
    } else {
        let rest = path_items(es.drop_last());
        let k = es.len() - 1;
        match es.last().1.geometry {
            Some(g) => rest.push((k, es.last().0, flip_shape(g@))),
            None => rest,
        }
    }
}

pub open spec fn paths_match(out: Seq<EntityPath>, items: Seq<(int, String, ShapeView)>) -> bool {
    &&& out.len() == items.len()
    &&& forall|j: int|
        0 <= j < out.len() ==> {
            &&& (#[trigger] out[j]).region as int == items[j].0
            &&& out[j].id == items[j].1
            &&& out[j].ops@ == shape_ops(items[j].2)
        }
}

/// A composed scene: the viewport to show, the frame the raster covers
/// in the flipped coordinate space, and the entity regions in drawing
/// order.
#[derive(Debug)]
pub struct Scene {
    pub viewport: Rect,
    pub map_frame: Rect,
    pub paths: Vec<EntityPath>,
}

pub open spec fn entities_wf(es: Seq<(String, Entity)>) -> bool {
    forall|i: int|
        0 <= i < es.len() ==> ((#[trigger] es[i]).1.geometry matches Some(g) ==> shape_wf(g@))
}

/// Composes entity shapes over the reference raster.
///
/// Entities sort by identifier, fixing drawing order and region
/// indices.  Every shape and the raster extent are corrected into the
/// flipped frame.  The static viewport is the flipped extent and exists
/// whenever the entity list is nonempty; the dynamic viewport is the
/// union of the flipped bounding rectangles, padded, and exists
/// whenever some entity has a rectangle.  Without a viewport nothing is
/// rendered.
pub fn compose(entities: Vec<(String, Entity)>, map_ref: &MapReference, dynamic_viewport: bool)
    -> (r: Option<Scene>)
    requires
        rect_wf(map_ref.extent),
        entities_wf(entities@),
    ensures
        dynamic_viewport ==> ((r is Some) <==> union_of(
            entity_boxes(sort_by_name_spec(entities@)),
        ) is Some),
        dynamic_viewport && r is Some ==> r->0.viewport == pad_viewport(
            union_of(entity_boxes(sort_by_name_spec(entities@)))->0,
        ),
        !dynamic_viewport ==> ((r is Some) <==> entities@.len() > 0),
        r is Some ==> r->0.map_frame == flip_rect(map_ref.extent),
        !dynamic_viewport && r is Some ==> r->0.viewport == flip_rect(map_ref.extent),
        r is Some ==> paths_match(r->0.paths@, path_items(sort_by_name_spec(entities@))),
{
    let n = entities.len();
    let ghost svals = sort_by_name_spec(entities@);
    proof {
        lemma_sort_by_name_len::<Entity>(entities@);
        lemma_sort_by_name_all::<Entity>(
            entities@,
            |p: (String, Entity)| (p.1.geometry matches Some(g) ==> shape_wf(g@)),
        );
    }
    let mut sorted = sort_pairs_by_name(entities);
    let mut union_acc: Option<Rect> = None;
    let mut paths: Vec<EntityPath> = Vec::new();
    let mut k: usize = 0;
    while sorted.len() > 0
        invariant
            k + sorted.len() == n,
            svals.len() == n,
            sorted@ == svals.skip(k as int),
            forall|i: int|
                0 <= i < svals.len() ==> ((#[trigger] svals[i]).1.geometry matches Some(g)
                    ==> shape_wf(g@)),
            union_acc == union_of(entity_boxes(svals.take(k as int))),
            union_acc matches Some(u) ==> rect_wf(u),
            paths_match(paths@, path_items(svals.take(k as int))),
        decreases sorted.len(),
    {
        let ghost sorted_pre = sorted@;
        let (id, e) = sorted.remove(0);
        proof {
            assert(sorted_pre[0] == svals[k as int]);
            assert(sorted@ == sorted_pre.remove(0));
            assert(sorted@ =~= svals.skip(k + 1));
            assert(svals.take(k + 1).drop_last() =~= svals.take(k as int));
            assert(svals.take(k + 1).last() == svals[k as int]);
        }
        match e.geometry {
            Some(g) => {
                proof {
                    assert(shape_wf(g@));
                }
                let fg = flip_shape_exec(g);
                let bb = bbox_shape_exec(&fg);
                proof {
                    lemma_bbox_shape_wf(fg@);
                    assert(bbox_shape(fg@) == bbox_shape(flip_shape(g@)));
                }
                match bb {
                    Some(b) => {
                        proof {
                            let boxes = entity_boxes(svals.take(k as int));
                            assert(entity_boxes(svals.take(k + 1)) == boxes.push(b));
                            assert(boxes.push(b).drop_last() =~= boxes);
                            assert(boxes.push(b).last() == b);
                        }
                        union_acc = match union_acc {
                            None => Some(b),
                            Some(u) => Some(rect_union_exec(&u, &b)),
                        };
                    },
                    None => {},
                }
                let ops = shape_ops_exec(&fg);
                paths.push(EntityPath { region: k, id, ops });
            },
            None => {},
        }
        k = k + 1;
    }
    proof {
        assert(svals.take(svals.len() as int) =~= svals);
    }
    let map_frame = flip_rect_exec(&map_ref.extent);
    if dynamic_viewport {
        match union_acc {
            Some(u) => Some(Scene { viewport: pad_viewport_exec(&u), map_frame, paths }),
            None => None,
        }
    } else {
        if n > 0 {
            Some(Scene { viewport: map_frame, map_frame, paths })
        } else {
            None
        }
    }
}

/// Where a label for a lone shape anchors: the center of the shape's
/// bounding rectangle carried into the flipped frame, or the origin for
/// a shape with no rectangle.
pub open spec fn label_anchor_spec(s: ShapeView) -> Coord {
    match bbox_shape(s) {
        Some(r) => {
            let f = flip_rect(r);
            Coord {
                x: (f.min.x + (f.max.x - f.min.x) / 2) as i64,
                y: (f.min.y + (f.max.y - f.min.y) / 2) as i64,
            }
        },
        None => Coord { x: 0, y: 0 },
    }
}

pub fn label_anchor(shape: &GeoShape) -> (c: Coord)
    requires
        shape_wf(shape@),
    ensures
        c == label_anchor_spec(shape@),
{
    match bbox_shape_exec(shape) {
        Some(r) => {
            proof {
                lemma_bbox_shape_wf(shape@);
            }
            let f = flip_rect_exec(&r);
            Coord { x: f.min.x + (f.max.x - f.min.x) / 2, y: f.min.y + (f.max.y - f.min.y) / 2 }
        },
        None => Coord { x: 0, y: 0 },
    }
}

} // verus!
