use crate::axis::{lemma_rearranged_index, remove_parked, resort};
use crate::game::{
    axis_sorted, body_of, deployed_id, is_deployed, Axis, Character, CharacterMobility, Game, Node, MAX_SPEED,
};
use crate::geometry::{Point, Rectangle, MAX_COORD};
use vstd::prelude::*;

verus! {

/// `r` is the integer square root of `n`, rounded down.
pub open spec fn is_floor_sqrt(r: int, n: int) -> bool {
    0 <= r && r * r <= n < (r + 1) * (r + 1)
}

/// The integer square root of `n`, rounded down.
pub open spec fn floor_sqrt(n: int) -> int {
    choose|r: int| is_floor_sqrt(r, n)
}

proof fn lemma_floor_sqrt_unique(r: int, q: int, n: int)
    requires
        is_floor_sqrt(r, n),
        is_floor_sqrt(q, n),
    ensures
        r == q,
{
    if r < q {
        assert((r + 1) * (r + 1) <= q * q) by (nonlinear_arith)
            requires 0 <= r < q;
    }
    if q < r {
        assert((q + 1) * (q + 1) <= r * r) by (nonlinear_arith)
            requires 0 <= q < r;
    }
}

/// The truncated square root, `r² ≤ x < (r + 1)²`, by bisection.
fn sqrt_floor(x: u64) -> (r: u64)
    ensures
        is_floor_sqrt(r as int, x as int),
{
    let mut lo: u128 = 0;
    let mut hi: u128 = 0x1_0000_0000;
    assert(hi * hi > 0xffff_ffff_ffff_ffff) by (nonlinear_arith)
        requires hi == 0x1_0000_0000;
    while hi - lo > 1
        invariant
            lo < hi <= 0x1_0000_0000,
            lo * lo <= x,
            x < hi * hi,
        decreases hi - lo,
    {
        let mid = lo + (hi - lo) / 2;
        assert(mid * mid <= 0x1_0000_0000 * 0x1_0000_0000) by (nonlinear_arith)
            requires mid <= 0x1_0000_0000;
        if mid * mid <= x as u128 {
            lo = mid;
        } else {
            hi = mid;
        }
    }
    assert(hi == lo + 1);
    lo as u64
}

/// The squared distance between two points.
pub open spec fn dist2(p: Point, q: Point) -> int {
    (q.x - p.x) * (q.x - p.x) + (q.y - p.y) * (q.y - p.y)
}

/// One component of a step of length `speed` along a vector of length
/// `root` whose component is `d`: `d · speed / root`, rounded toward zero;
/// no step along a vector of length zero.
pub open spec fn step_component(d: int, speed: int, root: int) -> int {
    if root == 0 {
        0
    } else if d >= 0 {
        d * speed / root
    } else {
        -((-d) * speed / root)
    }
}

/// Where a unit at `p` moving at `speed` toward `q` is after one tick in
/// which it did not arrive.
pub open spec fn step_toward(p: Point, q: Point, speed: int) -> Point {
    let root = floor_sqrt(dist2(p, q));
    Point {
        x: (p.x + step_component(q.x - p.x, speed, root)) as i64,
        y: (p.y + step_component(q.y - p.y, speed, root)) as i64,
    }
}

/// A unit at `p` moving at `speed` reaches `q` in this tick.
pub open spec fn arrives(p: Point, q: Point, speed: int) -> bool {
    dist2(p, q) < speed * speed
}

/// `after` is character `before` after one tick of moving toward node
/// `dest` (if any) of `nodes`: it parks at the node on arrival, and
/// otherwise moves its body's center one step toward it.
pub open spec fn ticked(before: Character, after: Character, dest: Option<usize>, nodes: Seq<Node>) -> bool {
    &&& after.speed == before.speed
    &&& after.children == before.children
    &&& after.strength == before.strength
    &&& after.dexterity == before.dexterity
    &&& after.intelligence == before.intelligence
    &&& after.charisma == before.charisma
    &&& match dest {
        None => after.mobility == before.mobility,
        Some(node_idx) => {
            let p = body_of(before).center;
            let q = nodes[node_idx as int].coor;
            if arrives(p, q, before.speed as int) {
                after.mobility == (CharacterMobility::Parked { node_idx })
            } else {
                after.mobility == (CharacterMobility::Unit {
                    body: Rectangle { center: step_toward(p, q, before.speed as int), ..body_of(before) },
                    character_idx: before.mobility->Unit_character_idx,
                })
            }
        },
    }
}

/// `step_component` on machine integers.
fn step_part(d: i64, speed: i64, root: u64) -> (r: i64)
    requires
        -2 * MAX_COORD <= d <= 2 * MAX_COORD,
        0 <= speed <= root,
        speed <= MAX_SPEED,
    ensures
        r == step_component(d as int, speed as int, root as int),
        d >= 0 ==> 0 <= r <= d,
        d < 0 ==> d <= r <= 0,
{
    if root == 0 {
        return 0;
    }
    let m: i128 = if d >= 0 { d as i128 } else { -(d as i128) };
    assert(0 <= m * (speed as i128) <= m * (root as i128)) by (nonlinear_arith)
        requires 0 <= m, 0 <= speed <= root;
    assert(m * (speed as i128) <= 2 * MAX_COORD * MAX_SPEED) by (nonlinear_arith)
        requires 0 <= m <= 2 * MAX_COORD, 0 <= speed <= MAX_SPEED;
    let num = m * (speed as i128);
    let den = root as i128;
    let q = num / den;
    assert(q <= m) by (nonlinear_arith)
        requires q == num / den, num <= m * den, den > 0, m >= 0;
    assert(q >= 0) by (nonlinear_arith)
        requires q == num / den, num >= 0, den > 0;
    if d >= 0 {
        q as i64
    } else {
        -(q as i64)
    }
}

/// One tick of a unit at `p` moving at `speed` toward `q`: `None` when it
/// arrives, else where it is after the step.
pub fn step_unit(p: Point, q: Point, speed: i64) -> (r: Option<Point>)
    requires
        p.in_range(),
        q.in_range(),
        0 <= speed <= MAX_SPEED,
    ensures
        r is None <==> arrives(p, q, speed as int),
        r matches Some(c) ==> c == step_toward(p, q, speed as int) && c.in_range(),
{
    let dx = q.x - p.x;
    let dy = q.y - p.y;
    let wx = dx as i128;
    let wy = dy as i128;
    assert(0 <= wx * wx <= 4 * MAX_COORD * MAX_COORD) by (nonlinear_arith)
        requires -2 * MAX_COORD <= wx <= 2 * MAX_COORD;
    assert(0 <= wy * wy <= 4 * MAX_COORD * MAX_COORD) by (nonlinear_arith)
        requires -2 * MAX_COORD <= wy <= 2 * MAX_COORD;
    let dx2 = wx * wx;
    let dy2 = wy * wy;
    let d2 = dx2 + dy2;
    assert(d2 == dist2(p, q));
    assert(0 <= (speed as i128) * (speed as i128) <= MAX_SPEED * MAX_SPEED) by (nonlinear_arith)
        requires 0 <= speed <= MAX_SPEED;
    if d2 < (speed as i128) * (speed as i128) {
        return None;
    }
    let root = sqrt_floor(d2 as u64);
    proof {
        assert(is_floor_sqrt(floor_sqrt(d2 as int), d2 as int));
        lemma_floor_sqrt_unique(root as int, floor_sqrt(d2 as int), d2 as int);
        if (root as int) < speed {
            assert((root + 1) * (root + 1) <= speed * speed) by (nonlinear_arith)
                requires 0 <= root < speed;
        }
    }
    let sx = step_part(dx, speed, root);
    let sy = step_part(dy, speed, root);
    Some(Point { x: p.x + sx, y: p.y + sy })
}

/// What a character's destination becomes after one tick: cleared on
/// arrival, kept otherwise.
pub open spec fn destination_after_tick(before: Character, dest: Option<usize>, nodes: Seq<Node>) -> Option<usize> {
    match dest {
        None => None,
        Some(node_idx) => if arrives(body_of(before).center, nodes[node_idx as int].coor, before.speed as int) {
            None
        } else {
            dest
        },
    }
}

impl Game {
    /// Advances the simulation by one tick.  Each unit with a destination
    /// either arrives there (it parks at the node and its destination is
    /// cleared) or moves one step toward it.  Then the units that parked
    /// leave both axes, and both axes are sorted again.
    pub fn update_state(&mut self)
        requires
            old(self).wf(),
        ensures
            final(self).wf(),
            final(self).axes_sorted,
            final(self).nodes@ == old(self).nodes@,
            final(self).max_extent == old(self).max_extent,
            final(self).units().len() == old(self).units().len(),
            forall|i: int|
                0 <= i < old(self).units().len() ==> ticked(
                    old(self).units()[i],
                    #[trigger] final(self).units()[i],
                    old(self).unit_destinations@[i],
                    old(self).nodes@,
                ),
            forall|i: int|
                0 <= i < old(self).units().len() ==> #[trigger] final(self).unit_destinations@[i] == destination_after_tick(
                    old(self).units()[i],
                    old(self).unit_destinations@[i],
                    old(self).nodes@,
                ),
            forall|id: usize| final(self).unit_x_axis@.contains(id) <==> final(self).unit_y_axis@.contains(id),
            forall|id: usize| final(self).unit_x_axis@.contains(id) <==> deployed_id(final(self).units(), id),
            axis_sorted(final(self).units(), final(self).unit_x_axis@, Axis::X),
            axis_sorted(final(self).units(), final(self).unit_y_axis@, Axis::Y),
    {
        let ghost old_units = self.units();
        let ghost old_dest = self.unit_destinations@;
        let ghost nodes = self.nodes@;
        let n = self.entities.characters.len();
        let mut i: usize = 0;
        while i < n
            invariant
                self.units().len() == n,
                old_units.len() == n,
                self.unit_destinations@.len() == n,
                old_dest.len() == n,
                self.nodes@ == nodes,
                self.max_extent == old(self).max_extent,
                self.unit_x_axis@ == old(self).unit_x_axis@,
                self.unit_y_axis@ == old(self).unit_y_axis@,
                old_units == old(self).units(),
                old_dest == old(self).unit_destinations@,
                nodes == old(self).nodes@,
                old(self).wf(),
                i <= n,
                forall|k: int| 0 <= k < i ==> ticked(old_units[k], #[trigger] self.units()[k], old_dest[k], nodes),
                forall|k: int| 0 <= k < i ==> #[trigger] self.unit_destinations@[k] == destination_after_tick(
                    old_units[k],
                    old_dest[k],
                    nodes,
                ),
                forall|k: int| i <= k < n ==> #[trigger] self.units()[k] == old_units[k],
                forall|k: int| i <= k < n ==> #[trigger] self.unit_destinations@[k] == old_dest[k],
                forall|k: int| 0 <= k < n ==> (#[trigger] self.units()[k]).wf(nodes.len(), self.max_extent as int),
                forall|k: int|
                    0 <= k < n && (#[trigger] self.unit_destinations@[k]) is Some ==> {
                        &&& self.unit_destinations@[k]->0 < nodes.len()
                        &&& is_deployed(self.units()[k])
                    },
                forall|id: usize| deployed_id(self.units(), id) ==> deployed_id(old_units, id),
            decreases n - i,
        {
            if let Some(node_idx) = self.unit_destinations[i] {
                assert(is_deployed(self.units()[i as int]));
                let speed = self.entities.characters[i].speed;
                let unit = match &self.entities.characters[i].mobility {
                    CharacterMobility::Unit { body, character_idx } => Some((*body, *character_idx)),
                    CharacterMobility::Parked { .. } => None,
                };
                if let Some((body, character_idx)) = unit {
                    let goal = self.nodes[node_idx].coor;
                    assert(nodes[node_idx as int].coor.in_range());
                    let ghost before = self.units();
                    match step_unit(body.center, goal, speed) {
                        None => {
                            self.entities.characters[i].mobility = CharacterMobility::Parked { node_idx };
                            self.unit_destinations.set(i, None);
                        },
                        Some(center) => {
                            self.entities.characters[i].mobility = CharacterMobility::Unit {
                                body: Rectangle { center, length: body.length, width: body.width, rotation: body.rotation },
                                character_idx,
                            };
                        },
                    }
                    proof {
                        assert forall|k: int| 0 <= k < n && k != i implies #[trigger] self.units()[k] == before[k] by {}
                        assert forall|id: usize| deployed_id(self.units(), id) implies deployed_id(old_units, id) by {
                            if id != i {
                                assert(self.units()[id as int] == before[id as int]);
                            }
                        }
                    }
                }
            }
            i = i + 1;
        }
        let ghost moved = self.units();
        proof {
            assert forall|k: int| 0 <= k < self.unit_x_axis@.len() implies #[trigger] self.unit_x_axis@[k] < moved.len() by {
                assert(old(self).unit_x_axis@.contains(self.unit_x_axis@[k]));
            }
            assert forall|k: int| 0 <= k < self.unit_y_axis@.len() implies #[trigger] self.unit_y_axis@[k] < moved.len() by {
                assert(old(self).unit_y_axis@.contains(self.unit_y_axis@[k]));
            }
        }
        let kept_x = remove_parked(&self.entities, &self.unit_x_axis);
        let kept_y = remove_parked(&self.entities, &self.unit_y_axis);
        proof {
            assert forall|id: usize| kept_x@.contains(id) <==> deployed_id(moved, id) by {
                if deployed_id(moved, id) {
                    assert(deployed_id(old_units, id));
                }
            }
            assert forall|id: usize| kept_y@.contains(id) <==> deployed_id(moved, id) by {
                if deployed_id(moved, id) {
                    assert(deployed_id(old_units, id));
                }
            }
        }
        self.unit_x_axis = kept_x;
        self.unit_y_axis = kept_y;
        let ghost before_x = self.unit_x_axis@;
        let ghost before_y = self.unit_y_axis@;
        resort(&self.entities, &mut self.unit_x_axis, Axis::X);
        resort(&self.entities, &mut self.unit_y_axis, Axis::Y);
        self.axes_sorted = true;
        proof {
            lemma_rearranged_index(moved, before_x, self.unit_x_axis@);
            lemma_rearranged_index(moved, before_y, self.unit_y_axis@);
        }
    }
}

} // verus!
