use crate::axis::bound;
use crate::game::{body_of, coord, deployed_id, Axis, CharacterMobility, Game, GameError};
use crate::geometry::{
    inside, is_intersect, lemma_inside_near_center, lemma_meets_grows_with_radius, lemma_touching_circle_meets,
    rect_meets_circle, Circle, Point, MAX_RADIUS,
};
use std::collections::HashSet;
use vstd::prelude::*;

verus! {

/// Whether unit `id` has its center in the box that a query about
/// `target` and `radius` searches: `radius + max_extent` on every side of
/// `target`, the low edges included and the high edges not.
pub open spec fn in_query_box(g: Game, target: Point, radius: int, id: usize) -> bool {
    let m = radius + g.max_extent;
    let x = coord(g.units(), id, Axis::X);
    let y = coord(g.units(), id, Axis::Y);
    &&& target.x - m <= x < target.x + m
    &&& target.y - m <= y < target.y + m
}

/// The units that `estimate_nearby_units(target, radius)` reports: the
/// deployed units in the query's box whose bodies meet the circle.
pub open spec fn nearby_units(g: Game, target: Point, radius: int) -> Set<usize> {
    Set::new(
        |id: usize|
            deployed_id(g.units(), id) && in_query_box(g, target, radius, id) && rect_meets_circle(
                body_of(g.units()[id as int]),
                Circle { center: target, radius: radius as i64 },
            ),
    )
}

/// The ids between positions `lo` and `hi` of `ids`.
pub open spec fn ids_between(ids: Seq<usize>, lo: int, hi: int) -> Set<usize> {
    Set::new(|id: usize| exists|k: int| lo <= k < hi && ids[k] == id)
}

impl Game {
    /// The units whose bodies meet the circle about `target` of `radius`.
    /// Each axis is searched by binary search for the units whose centers
    /// lie within `radius + max_extent` of `target`; the units found on both
    /// axes are then tested against the circle exactly.  Fails with
    /// `Unsorted` when a unit was deployed since the axes were last sorted.
    pub fn estimate_nearby_units(&self, target: Point, radius: i64) -> (r: Result<HashSet<usize>, GameError>)
        requires
            self.wf(),
            target.in_range(),
            0 <= radius <= MAX_RADIUS,
        ensures
            !self.axes_sorted ==> r == Err::<HashSet<usize>, GameError>(GameError::Unsorted),
            self.axes_sorted ==> r is Ok && r->Ok_0@ == nearby_units(*self, target, radius as int),
            self.axes_sorted ==> forall|id: usize|
                #[trigger] r->Ok_0@.contains(id) ==> self.unit_x_axis@.contains(id) && self.unit_y_axis@.contains(id),
    {
        broadcast use vstd::std_specs::hash::group_hash_axioms;

        if !self.axes_sorted {
            return Err(GameError::Unsorted);
        }
        let ghost units = self.units();
        let m = radius + self.max_extent;
        let x_lower = bound(&self.entities, &self.unit_x_axis, Axis::X, target.x - m);
        let x_upper = bound(&self.entities, &self.unit_x_axis, Axis::X, target.x + m);
        let y_lower = bound(&self.entities, &self.unit_y_axis, Axis::Y, target.y - m);
        let y_upper = bound(&self.entities, &self.unit_y_axis, Axis::Y, target.y + m);
        proof {
            self.lemma_window(Axis::X, target.x - m, target.x + m, x_lower as int, x_upper as int);
            self.lemma_window(Axis::Y, target.y - m, target.y + m, y_lower as int, y_upper as int);
        }
        let mut found: HashSet<usize> = HashSet::new();
        if x_upper - x_lower == 0 || y_upper - y_lower == 0 {
            proof {
                assert(found@ =~= nearby_units(*self, target, radius as int)) by {
                    assert forall|id: usize| !nearby_units(*self, target, radius as int).contains(id) by {
                        if nearby_units(*self, target, radius as int).contains(id) {
                            assert(ids_between(self.unit_x_axis@, x_lower as int, x_upper as int).contains(id));
                            assert(ids_between(self.unit_y_axis@, y_lower as int, y_upper as int).contains(id));
                        }
                    }
                }
            }
            return Ok(found);
        }
        let mut xs: HashSet<usize> = HashSet::new();
        let mut k: usize = x_lower;
        while k < x_upper
            invariant
                x_lower <= k <= x_upper <= self.unit_x_axis@.len(),
                xs@ == ids_between(self.unit_x_axis@, x_lower as int, k as int),
            decreases x_upper - k,
        {
            let id = self.unit_x_axis[k];
            xs.insert(id);
            proof {
                assert(xs@ =~= ids_between(self.unit_x_axis@, x_lower as int, k + 1)) by {
                    assert(self.unit_x_axis@[k as int] == id);
                }
            }
            k = k + 1;
        }
        let circle = Circle { center: target, radius };
        let mut k: usize = y_lower;
        while k < y_upper
            invariant
                self.wf(),
                units == self.units(),
                y_lower <= k <= y_upper <= self.unit_y_axis@.len(),
                xs@ == ids_between(self.unit_x_axis@, x_lower as int, x_upper as int),
                circle == (Circle { center: target, radius }),
                circle.wf(),
                forall|id: usize|
                    #[trigger] found@.contains(id) <==> ids_between(self.unit_y_axis@, y_lower as int, k as int).contains(id)
                        && xs@.contains(id) && rect_meets_circle(body_of(units[id as int]), circle),
            decreases y_upper - k,
        {
            let id = self.unit_y_axis[k];
            assert(self.unit_y_axis@.contains(id));
            assert(deployed_id(units, id));
            if xs.contains(&id) {
                let meets = match &self.entities.characters[id].mobility {
                    CharacterMobility::Unit { body, .. } => {
                        assert(units[id as int].wf(self.nodes@.len(), self.max_extent as int));
                        is_intersect(body, &circle)
                    },
                    CharacterMobility::Parked { .. } => false,
                };
                if meets {
                    found.insert(id);
                }
            }
            proof {
                assert forall|x: usize| ids_between(self.unit_y_axis@, y_lower as int, k + 1).contains(x) <==> (ids_between(
                    self.unit_y_axis@,
                    y_lower as int,
                    k as int,
                ).contains(x) || x == id) by {
                    if x == id {
                        assert(self.unit_y_axis@[k as int] == id);
                    }
                }
            }
            k = k + 1;
        }
        proof {
            assert(found@ =~= nearby_units(*self, target, radius as int));
        }
        Ok(found)
    }

    /// Positions `lo..hi` of the axis hold exactly the deployed units whose
    /// coordinate lies in `[low, high)`.
    proof fn lemma_window(self, axis: Axis, low: int, high: int, lo: int, hi: int)
        requires
            self.wf(),
            self.axes_sorted,
            low <= high,
            ({
                let ids = self.axis_ids(axis);
                &&& 0 <= lo <= ids.len()
                &&& 0 <= hi <= ids.len()
                &&& forall|k: int| 0 <= k < lo ==> coord(self.units(), #[trigger] ids[k], axis) < low
                &&& forall|k: int| lo <= k < ids.len() ==> coord(self.units(), #[trigger] ids[k], axis) >= low
                &&& forall|k: int| 0 <= k < hi ==> coord(self.units(), #[trigger] ids[k], axis) < high
                &&& forall|k: int| hi <= k < ids.len() ==> coord(self.units(), #[trigger] ids[k], axis) >= high
            }),
        ensures
            lo <= hi,
            forall|id: usize|
                #[trigger] ids_between(self.axis_ids(axis), lo, hi).contains(id)
                    <==> deployed_id(self.units(), id) && low <= coord(self.units(), id, axis) < high,
    {
        let ids = self.axis_ids(axis);
        if hi < lo {
            assert(coord(self.units(), ids[hi], axis) >= high);
            assert(coord(self.units(), ids[hi], axis) < low);
        }
        assert forall|id: usize|
            #[trigger] ids_between(ids, lo, hi).contains(id)
                <==> deployed_id(self.units(), id) && low <= coord(self.units(), id, axis) < high by {
            if ids_between(ids, lo, hi).contains(id) {
                let k = choose|k: int| lo <= k < hi && ids[k] == id;
                assert(ids.contains(id));
            }
            if deployed_id(self.units(), id) && low <= coord(self.units(), id, axis) < high {
                assert(ids.contains(id));
                let k = choose|k: int| 0 <= k < ids.len() && ids[k] == id;
                assert(lo <= k < hi);
            }
        }
    }
}

/// The units that a brute-force scan of every deployed unit finds to meet
/// the circle about `target` of `radius`.
pub open spec fn scanned_units(g: Game, target: Point, radius: int) -> Set<usize> {
    Set::new(
        |id: usize|
            deployed_id(g.units(), id) && rect_meets_circle(
                body_of(g.units()[id as int]),
                Circle { center: target, radius: radius as i64 },
            ),
    )
}

/// The query answers exactly as a scan of every deployed unit does, for
/// every configuration in which each unit that meets the circle has its
/// center within the query's box.  (The edges of a body are taken as
/// infinite lines, so a unit far along the line of one of its edges can
/// meet the circle from outside the box; such configurations are the ones
/// left out.)
pub proof fn lemma_query_matches_scan(g: Game, target: Point, radius: int)
    requires
        g.wf(),
        forall|id: usize|
            deployed_id(g.units(), id) && #[trigger] rect_meets_circle(
                body_of(g.units()[id as int]),
                Circle { center: target, radius: radius as i64 },
            ) ==> in_query_box(g, target, radius, id),
    ensures
        nearby_units(g, target, radius) == scanned_units(g, target, radius),
{
    assert(nearby_units(g, target, radius) =~= scanned_units(g, target, radius));
}

/// Widening the radius of a query about a fixed center, on a fixed
/// configuration, never drops a unit from its answer.
pub proof fn lemma_query_monotone(g: Game, target: Point, r1: int, r2: int)
    requires
        g.wf(),
        0 <= r1 <= r2 <= MAX_RADIUS,
    ensures
        nearby_units(g, target, r1).subset_of(nearby_units(g, target, r2)),
{
    assert forall|id: usize| nearby_units(g, target, r1).contains(id) implies nearby_units(g, target, r2).contains(id) by {
        let body = body_of(g.units()[id as int]);
        assert(g.units()[id as int].wf(g.nodes@.len(), g.max_extent as int));
        lemma_meets_grows_with_radius(
            body,
            Circle { center: target, radius: r1 as i64 },
            Circle { center: target, radius: r2 as i64 },
        );
    }
}

/// The query never misses a unit that touches the circle: when some point
/// `q` of a deployed unit's body lies within `radius` of `target`, the
/// unit is in the answer.
pub proof fn lemma_query_finds_touching_units(g: Game, target: Point, radius: int, id: usize, q: Point)
    requires
        g.wf(),
        0 <= radius <= MAX_RADIUS,
        deployed_id(g.units(), id),
        inside(body_of(g.units()[id as int]), q),
        (q.x - target.x) * (q.x - target.x) + (q.y - target.y) * (q.y - target.y) <= radius * radius,
    ensures
        nearby_units(g, target, radius).contains(id),
{
    let body = body_of(g.units()[id as int]);
    let circle = Circle { center: target, radius: radius as i64 };
    assert(g.units()[id as int].wf(g.nodes@.len(), g.max_extent as int));
    lemma_touching_circle_meets(body, circle, q);
    lemma_inside_near_center(body, q, g.max_extent as int);
    let zx = q.x - target.x;
    let zy = q.y - target.y;
    assert(-radius <= zx <= radius && -radius <= zy <= radius) by (nonlinear_arith)
        requires zx * zx + zy * zy <= radius * radius, radius >= 0;
}

} // verus!
