//! Region boundaries: polygons on the integer grid, their extent, and the
//! point-in-boundary test.

use crate::coord::{BoundingBox, Coord};
use geo::Contains;
use vstd::prelude::*;

verus! {

/// One polygon of a boundary: an outer ring and the rings of its holes.
/// A ring lists its vertices in order; the closing edge back to the first
/// vertex is implied when the last vertex differs from the first.
#[derive(Clone, Debug)]
pub struct Polygon {
    pub exterior: Vec<Coord>,
    pub interiors: Vec<Vec<Coord>>,
}

/// The mathematical content of a [`Polygon`].
pub struct PolygonShape {
    pub exterior: Seq<Coord>,
    pub interiors: Seq<Seq<Coord>>,
}

impl View for Polygon {
    type V = PolygonShape;

    open spec fn view(&self) -> PolygonShape {
        PolygonShape {
            exterior: self.exterior@,
            interiors: Seq::new(self.interiors.len() as nat, |i: int| self.interiors[i]@),
        }
    }
}

/// The boundary of a region: one polygon or several.
#[derive(Clone, Debug)]
pub struct Boundary {
    pub polygons: Vec<Polygon>,
}

impl View for Boundary {
    type V = Seq<PolygonShape>;

    open spec fn view(&self) -> Seq<PolygonShape> {
        Seq::new(self.polygons.len() as nat, |i: int| self.polygons[i]@)
    }
}

/// What `geo`'s `Contains<Point<i128>>` for `MultiPolygon<i128>` answers for
/// the multi-polygon with these rings and the point `p`.
pub uninterp spec fn geo_contains(shape: Seq<PolygonShape>, p: Coord) -> bool;

/// `v` is the `j`-th vertex of the outer ring of polygon `i`.
pub open spec fn outer_vertex(shape: Seq<PolygonShape>, i: int, j: int, v: Coord) -> bool {
    0 <= i < shape.len() && 0 <= j < shape[i].exterior.len() && shape[i].exterior[j] == v
}

/// `bb` is the bounding box of the outer rings of `shape`: it holds every
/// outer vertex, and each of its four edges passes through one.
pub open spec fn is_extent(bb: BoundingBox, shape: Seq<PolygonShape>) -> bool {
    &&& forall|i: int, j: int|
        0 <= i < shape.len() && 0 <= j < shape[i].exterior.len() ==> bb.holds(
            #[trigger] shape[i].exterior[j],
        )
    &&& exists|i: int, j: int, v: Coord| #[trigger] outer_vertex(shape, i, j, v) && v.lon == bb.min_lon
    &&& exists|i: int, j: int, v: Coord| #[trigger] outer_vertex(shape, i, j, v) && v.lon == bb.max_lon
    &&& exists|i: int, j: int, v: Coord| #[trigger] outer_vertex(shape, i, j, v) && v.lat == bb.min_lat
    &&& exists|i: int, j: int, v: Coord| #[trigger] outer_vertex(shape, i, j, v) && v.lat == bb.max_lat
}

/// `shape` has no outer vertex at all.
pub open spec fn has_no_outer_vertex(shape: Seq<PolygonShape>) -> bool {
    forall|i: int| 0 <= i < shape.len() ==> (#[trigger] shape[i]).exterior.len() == 0
}

/// `p` lies in the bounding box of the outer rings of `shape`.
pub open spec fn within_extent(shape: Seq<PolygonShape>, p: Coord) -> bool {
    exists|bb: BoundingBox| #[trigger] is_extent(bb, shape) && bb.holds(p)
}

/// `p` is inside the boundary: within its extent, and placed inside by the
/// exact polygon test. For polygons the second implies the first; stating
/// both lets a search discard by extent before it runs the exact test.
pub open spec fn covers(shape: Seq<PolygonShape>, p: Coord) -> bool {
    within_extent(shape, p) && geo_contains(shape, p)
}

/// A boundary has at most one extent.
pub proof fn lemma_extent_unique(a: BoundingBox, b: BoundingBox, shape: Seq<PolygonShape>)
    requires
        is_extent(a, shape),
        is_extent(b, shape),
    ensures
        a == b,
{
    let (i1, j1, v1) = choose|i: int, j: int, v: Coord| #[trigger]
        outer_vertex(shape, i, j, v) && v.lon == a.min_lon;
    assert(b.holds(shape[i1].exterior[j1]));
    let (i2, j2, v2) = choose|i: int, j: int, v: Coord| #[trigger]
        outer_vertex(shape, i, j, v) && v.lon == b.min_lon;
    assert(a.holds(shape[i2].exterior[j2]));
    let (i3, j3, v3) = choose|i: int, j: int, v: Coord| #[trigger]
        outer_vertex(shape, i, j, v) && v.lon == a.max_lon;
    assert(b.holds(shape[i3].exterior[j3]));
    let (i4, j4, v4) = choose|i: int, j: int, v: Coord| #[trigger]
        outer_vertex(shape, i, j, v) && v.lon == b.max_lon;
    assert(a.holds(shape[i4].exterior[j4]));
    let (i5, j5, v5) = choose|i: int, j: int, v: Coord| #[trigger]
        outer_vertex(shape, i, j, v) && v.lat == a.min_lat;
    assert(b.holds(shape[i5].exterior[j5]));
    let (i6, j6, v6) = choose|i: int, j: int, v: Coord| #[trigger]
        outer_vertex(shape, i, j, v) && v.lat == b.min_lat;
    assert(a.holds(shape[i6].exterior[j6]));
    let (i7, j7, v7) = choose|i: int, j: int, v: Coord| #[trigger]
        outer_vertex(shape, i, j, v) && v.lat == a.max_lat;
    assert(b.holds(shape[i7].exterior[j7]));
    let (i8, j8, v8) = choose|i: int, j: int, v: Coord| #[trigger]
        outer_vertex(shape, i, j, v) && v.lat == b.max_lat;
    assert(a.holds(shape[i8].exterior[j8]));
}

/// With the extent `bb` of a boundary in hand, the extent test is `bb.holds`.
pub proof fn lemma_within_extent(bb: BoundingBox, shape: Seq<PolygonShape>, p: Coord)
    requires
        is_extent(bb, shape),
    ensures
        within_extent(shape, p) == bb.holds(p),
{
    if within_extent(shape, p) {
        let other = choose|other: BoundingBox| #[trigger] is_extent(other, shape) && other.holds(p);
        lemma_extent_unique(bb, other, shape);
    }
}

/// A boundary without outer vertices has no extent, so it covers nothing.
pub proof fn lemma_no_vertex_no_extent(shape: Seq<PolygonShape>, p: Coord)
    requires
        has_no_outer_vertex(shape),
    ensures
        !within_extent(shape, p),
        !covers(shape, p),
{
    if within_extent(shape, p) {
        let bb = choose|bb: BoundingBox| #[trigger] is_extent(bb, shape) && bb.holds(p);
        let (i, j, v) = choose|i: int, j: int, v: Coord| #[trigger]
            outer_vertex(shape, i, j, v) && v.lon == bb.min_lon;
        assert(shape[i].exterior.len() == 0);
    }
}

/// Asks `geo` whether the boundary contains the point: builds a
/// `MultiPolygon<i128>` from the rings (`Polygon::new` adds the closing
/// vertex to a ring that lacks it) and calls `Contains::contains` with the
/// point. The contract names the answer and says nothing else of it. `geo`
/// answers from the signs of cross products of coordinate differences; with
/// 32-bit coordinates widened to `i128` these do not overflow.
#[verifier::external_body]
fn multi_polygon_contains(boundary: &Boundary, p: Coord) -> (inside: bool)
    ensures
        inside == geo_contains(boundary@, p),
{
    let ring = |r: &Vec<Coord>|
        geo::LineString::from(
            r.iter().map(|c| (i128::from(c.lon), i128::from(c.lat))).collect::<Vec<_>>(),
        );
    let polygons = boundary.polygons.iter().map(
        |poly| geo::Polygon::new(ring(&poly.exterior), poly.interiors.iter().map(ring).collect()),
    ).collect();
    geo::MultiPolygon::new(polygons).contains(
        &geo::Point::new(i128::from(p.lon), i128::from(p.lat)),
    )
}

impl Boundary {
    /// The bounding box of the outer rings, if they have any vertex.
    pub fn bounding_box(&self) -> (r: Option<BoundingBox>)
        ensures
            match r {
                Some(bb) => is_extent(bb, self@),
                None => has_no_outer_vertex(self@),
            },
    {
        let mut acc: Option<BoundingBox> = None;
        let mut i: usize = 0;
        while i < self.polygons.len()
            invariant
                i <= self.polygons.len(),
                match acc {
                    Some(bb) => is_extent(bb, self@.take(i as int)),
                    None => has_no_outer_vertex(self@.take(i as int)),
                },
            decreases self.polygons.len() - i,
        {
            let ring = &self.polygons[i].exterior;
            let ghost before = self@.take(i as int);
            let ghost after = self@.take(i as int + 1);
            assert(after[i as int].exterior == ring@);
            assert(forall|k: int| 0 <= k < i ==> after[k] == before[k]);
            proof {
                if let Some(bb) = acc {
                    let (a1, b1, v1) = choose|a: int, b: int, v: Coord| #[trigger]
                        outer_vertex(before, a, b, v) && v.lon == bb.min_lon;
                    assert(outer_vertex(self@, a1, b1, v1));
                    let (a2, b2, v2) = choose|a: int, b: int, v: Coord| #[trigger]
                        outer_vertex(before, a, b, v) && v.lon == bb.max_lon;
                    assert(outer_vertex(self@, a2, b2, v2));
                    let (a3, b3, v3) = choose|a: int, b: int, v: Coord| #[trigger]
                        outer_vertex(before, a, b, v) && v.lat == bb.min_lat;
                    assert(outer_vertex(self@, a3, b3, v3));
                    let (a4, b4, v4) = choose|a: int, b: int, v: Coord| #[trigger]
                        outer_vertex(before, a, b, v) && v.lat == bb.max_lat;
                    assert(outer_vertex(self@, a4, b4, v4));
                }
            }
            let mut j: usize = 0;
            while j < ring.len()
                invariant
                    j <= ring.len(),
                    i < self.polygons.len(),
                    ring@ == self@[i as int].exterior,
                    before == self@.take(i as int),
                    match acc {
                        Some(bb) => {
                            &&& forall|a: int, b: int|
                                0 <= a < before.len() && 0 <= b < before[a].exterior.len()
                                    ==> bb.holds(#[trigger] before[a].exterior[b])
                            &&& forall|b: int| 0 <= b < j ==> bb.holds(#[trigger] ring@[b])
                            &&& exists|a: int, b: int, v: Coord| #[trigger]
                                outer_vertex(self@, a, b, v) && v.lon == bb.min_lon && (a < i || (a
                                    == i && b < j))
                            &&& exists|a: int, b: int, v: Coord| #[trigger]
                                outer_vertex(self@, a, b, v) && v.lon == bb.max_lon && (a < i || (a
                                    == i && b < j))
                            &&& exists|a: int, b: int, v: Coord| #[trigger]
                                outer_vertex(self@, a, b, v) && v.lat == bb.min_lat && (a < i || (a
                                    == i && b < j))
                            &&& exists|a: int, b: int, v: Coord| #[trigger]
                                outer_vertex(self@, a, b, v) && v.lat == bb.max_lat && (a < i || (a
                                    == i && b < j))
                        },
                        None => has_no_outer_vertex(before) && j == 0,
                    },
                decreases ring.len() - j,
            {
                let v = ring[j];
                assert(outer_vertex(self@, i as int, j as int, v));
                acc =
                match acc {
                    Some(bb) => Some(bb.extended(v)),
                    None => Some(BoundingBox::at(v)),
                };
                j += 1;
            }
            proof {
                match acc {
                    Some(bb) => {
                        assert forall|a: int, b: int|
                            0 <= a < after.len() && 0 <= b < after[a].exterior.len() implies bb.holds(
                            #[trigger] after[a].exterior[b],
                        ) by {
                            if a < i {
                                assert(bb.holds(before[a].exterior[b]));
                            }
                        }
                        let (a1, b1, v1) = choose|a: int, b: int, v: Coord| #[trigger]
                            outer_vertex(self@, a, b, v) && v.lon == bb.min_lon && (a < i || (a == i
                                && b < j));
                        assert(outer_vertex(after, a1, b1, v1));
                        let (a2, b2, v2) = choose|a: int, b: int, v: Coord| #[trigger]
                            outer_vertex(self@, a, b, v) && v.lon == bb.max_lon && (a < i || (a == i
                                && b < j));
                        assert(outer_vertex(after, a2, b2, v2));
                        let (a3, b3, v3) = choose|a: int, b: int, v: Coord| #[trigger]
                            outer_vertex(self@, a, b, v) && v.lat == bb.min_lat && (a < i || (a == i
                                && b < j));
                        assert(outer_vertex(after, a3, b3, v3));
                        let (a4, b4, v4) = choose|a: int, b: int, v: Coord| #[trigger]
                            outer_vertex(self@, a, b, v) && v.lat == bb.max_lat && (a < i || (a == i
                                && b < j));
                        assert(outer_vertex(after, a4, b4, v4));
                    },
                    None => {},
                }
            }
            i += 1;
        }
        assert(self@.take(i as int) == self@);
        acc
    }

    /// Whether `p` is inside the boundary, for a caller that has kept the
    /// boundary's extent.
    pub(crate) fn contains_within(&self, extent: &BoundingBox, p: Coord) -> (r: bool)
        requires
            is_extent(*extent, self@),
        ensures
            r == covers(self@, p),
    {
        proof {
            lemma_within_extent(*extent, self@, p);
        }
        extent.contains(p) && multi_polygon_contains(self, p)
    }

    /// Whether `p` is inside the boundary.
    pub fn contains(&self, p: Coord) -> (r: bool)
        ensures
            r == covers(self@, p),
    {
        match self.bounding_box() {
            Some(bb) => self.contains_within(&bb, p),
            None => {
                proof {
                    lemma_no_vertex_no_extent(self@, p);
                }
                false
            },
        }
    }
}

} // verus!
