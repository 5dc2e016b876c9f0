use crate::game::{Character, CharacterMobility, Game, GameError, Node};
use crate::geometry::Point;
use crate::kinds::{BuildingId, ColonyShipLanding, Farm, Nation, Warehouse};
use vstd::prelude::*;

verus! {

/// Coordinate units per tile of the building grid.
pub const TILE: i64 = 1000;

/// How far from a node's center its tiles reach.
pub const CITY_RADIUS: i64 = 10000;

/// `CITY_RADIUS` squared.
pub const CITY_RADIUS_SQUARED: i64 = 100000000;

/// Whether the point `(px, py)` lies strictly within `CITY_RADIUS` of the
/// node's center.
pub open spec fn near(node: Node, px: int, py: int) -> bool {
    (node.coor.x - px) * (node.coor.x - px) + (node.coor.y - py) * (node.coor.y - py) < CITY_RADIUS_SQUARED
}

/// The first node from index `i` on that the point is near.
pub open spec fn node_near_from(nodes: Seq<Node>, px: int, py: int, i: int) -> Option<usize>
    decreases nodes.len() - i,
{
    if i < 0 || i >= nodes.len() {
        None
    } else if near(nodes[i], px, py) {
        Some(i as usize)
    } else {
        node_near_from(nodes, px, py, i + 1)
    }
}

/// The first node that the point is near.
pub open spec fn node_near(nodes: Seq<Node>, px: int, py: int) -> Option<usize> {
    node_near_from(nodes, px, py, 0)
}

/// The node that tile `(x, y)` belongs to: the first node near the tile's
/// corner.
pub open spec fn tile_node(nodes: Seq<Node>, x: int, y: int) -> Option<usize> {
    node_near(nodes, x * TILE, y * TILE)
}

/// The key of tile `(x, y)` in the building grid.
pub open spec fn tile_key(x: int, y: int) -> int {
    x * 0x1_0000_0000 + y
}

/// Whether grid key `k` names a tile of the `w` by `h` block whose top left
/// tile is `(x, y)`.
pub open spec fn key_in_block(k: int, x: int, y: int, w: int, h: int) -> bool {
    &&& x <= k / 0x1_0000_0000 < x + w
    &&& y <= k % 0x1_0000_0000 < y + h
}

/// Every tile of the block belongs to node `target`.
pub open spec fn block_in_node(nodes: Seq<Node>, x: int, y: int, w: int, h: int, target: usize) -> bool {
    forall|tx: int, ty: int| x <= tx < x + w && y <= ty < y + h ==> #[trigger] tile_node(nodes, tx, ty) == Some(target)
}

/// No tile of the block holds a building.
pub open spec fn block_free(grid: Map<u64, BuildingId>, x: int, y: int, w: int, h: int) -> bool {
    forall|k: u64| key_in_block(k as int, x, y, w, h) ==> !#[trigger] grid.contains_key(k)
}

/// The block's tiles have coordinates that fit in `u32`.
pub open spec fn block_fits(x: int, y: int, w: int, h: int) -> bool {
    x + w <= 0x1_0000_0000 && y + h <= 0x1_0000_0000
}

/// A `w` by `h` building can stand with its top left tile at `(x, y)`: the
/// block fits, all its tiles belong to the node of its top left tile, and
/// none is taken.
pub open spec fn can_build(g: Game, x: int, y: int, w: int, h: int) -> bool {
    &&& block_fits(x, y, w, h)
    &&& match tile_node(g.nodes@, x, y) {
        Some(t) => block_in_node(g.nodes@, x, y, w, h, t) && block_free(g.building_grid@, x, y, w, h),
        None => false,
    }
}

proof fn lemma_node_near_from(nodes: Seq<Node>, px: int, py: int, i: int)
    requires
        nodes.len() <= usize::MAX,
    ensures
        node_near_from(nodes, px, py, i) matches Some(t) ==> i <= t < nodes.len() && near(nodes[t as int], px, py),
    decreases nodes.len() - i,
{
    if 0 <= i < nodes.len() && !near(nodes[i], px, py) {
        lemma_node_near_from(nodes, px, py, i + 1);
    }
}

proof fn lemma_tile_key(x: int, y: int)
    requires
        0 <= x < 0x1_0000_0000,
        0 <= y < 0x1_0000_0000,
    ensures
        tile_key(x, y) / 0x1_0000_0000 == x,
        tile_key(x, y) % 0x1_0000_0000 == y,
        0 <= tile_key(x, y) <= u64::MAX,
{
    assert(tile_key(x, y) / 0x1_0000_0000 == x) by (nonlinear_arith)
        requires 0 <= y < 0x1_0000_0000, tile_key(x, y) == x * 0x1_0000_0000 + y;
    assert(tile_key(x, y) % 0x1_0000_0000 == y) by (nonlinear_arith)
        requires 0 <= y < 0x1_0000_0000, tile_key(x, y) == x * 0x1_0000_0000 + y;
    assert(0 <= tile_key(x, y) <= u64::MAX) by (nonlinear_arith)
        requires 0 <= x < 0x1_0000_0000, 0 <= y < 0x1_0000_0000, tile_key(x, y) == x * 0x1_0000_0000 + y;
}

impl Game {
    /// The first node whose center lies strictly within `CITY_RADIUS` of
    /// `p`.
    pub fn search_node_by_coor(&self, p: Point) -> (r: Option<usize>)
        requires
            self.wf(),
            -0x4_0000_0000_0000 <= p.x <= 0x4_0000_0000_0000,
            -0x4_0000_0000_0000 <= p.y <= 0x4_0000_0000_0000,
        ensures
            r == node_near(self.nodes@, p.x as int, p.y as int),
    {
        let mut i: usize = 0;
        while i < self.nodes.len()
            invariant
                i <= self.nodes@.len(),
                self.wf(),
                -0x4_0000_0000_0000 <= p.x <= 0x4_0000_0000_0000,
                -0x4_0000_0000_0000 <= p.y <= 0x4_0000_0000_0000,
                node_near(self.nodes@, p.x as int, p.y as int) == node_near_from(self.nodes@, p.x as int, p.y as int, i as int),
            decreases self.nodes@.len() - i,
        {
            let coor = self.nodes[i].coor;
            assert(self.nodes@[i as int].coor.in_range());
            let dx = (coor.x as i128) - (p.x as i128);
            let dy = (coor.y as i128) - (p.y as i128);
            assert(0 <= dx * dx < 0x100_0000_0000_0000_0000_0000_0000) by (nonlinear_arith)
                requires -0x8_0000_0000_0000 < dx < 0x8_0000_0000_0000;
            assert(0 <= dy * dy < 0x100_0000_0000_0000_0000_0000_0000) by (nonlinear_arith)
                requires -0x8_0000_0000_0000 < dy < 0x8_0000_0000_0000;
            if dx * dx + dy * dy < CITY_RADIUS_SQUARED as i128 {
                return Some(i);
            }
            i = i + 1;
        }
        None
    }

    /// Whether every tile of the `width` by `height` block at `top_left`
    /// belongs to node `target_node_idx`.
    pub fn are_tiles_in_same_node(&self, top_left: [u32; 2], target_node_idx: usize, width: u32, height: u32) -> (r: bool)
        requires
            self.wf(),
        ensures
            r == block_in_node(self.nodes@, top_left[0] as int, top_left[1] as int, width as int, height as int, target_node_idx),
    {
        let tl_x = top_left[0];
        let tl_y = top_left[1];
        let ghost x0 = tl_x as int;
        let ghost y0 = tl_y as int;
        let mut dx: u32 = 0;
        while dx < width
            invariant
                dx <= width,
                x0 == tl_x,
                y0 == tl_y,
                tl_x == top_left[0],
                tl_y == top_left[1],
                self.wf(),
                forall|tx: int, ty: int| x0 <= tx < x0 + dx && y0 <= ty < y0 + height ==> #[trigger] tile_node(self.nodes@, tx, ty) == Some(target_node_idx),
            decreases width - dx,
        {
            let mut dy: u32 = 0;
            while dy < height
                invariant
                    dx < width,
                    dy <= height,
                    x0 == tl_x,
                    y0 == tl_y,
                    tl_x == top_left[0],
                    tl_y == top_left[1],
                    self.wf(),
                    forall|tx: int, ty: int| x0 <= tx < x0 + dx && y0 <= ty < y0 + height ==> #[trigger] tile_node(self.nodes@, tx, ty) == Some(target_node_idx),
                    forall|ty: int| y0 <= ty < y0 + dy ==> #[trigger] tile_node(self.nodes@, x0 + dx, ty) == Some(target_node_idx),
                decreases height - dy,
            {
                let x = (tl_x as i64 + dx as i64) * TILE;
                let y = (tl_y as i64 + dy as i64) * TILE;
                let ghost tx = x0 + dx;
                let ghost ty = y0 + dy;
                assert(tile_node(self.nodes@, tx, ty) == node_near(self.nodes@, x as int, y as int));
                match self.search_node_by_coor(Point { x, y }) {
                    Some(n) => {
                        if n != target_node_idx {
                            assert(tile_node(self.nodes@, tx, ty) != Some(target_node_idx));
                            assert(!block_in_node(self.nodes@, x0, y0, width as int, height as int, target_node_idx));
                            return false;
                        }
                    },
                    None => {
                        assert(tile_node(self.nodes@, tx, ty) != Some(target_node_idx));
                        assert(!block_in_node(self.nodes@, x0, y0, width as int, height as int, target_node_idx));
                        return false;
                    },
                }
                dy = dy + 1;
            }
            dx = dx + 1;
        }
        true
    }

    /// Whether a `width` by `height` building can stand with its top left
    /// tile at `top_left` (see `can_build`).
    pub fn can_build_at(&self, top_left: [u32; 2], width: u32, height: u32) -> (r: bool)
        requires
            self.wf(),
        ensures
            r == can_build(*self, top_left[0] as int, top_left[1] as int, width as int, height as int),
    {
        broadcast use vstd::std_specs::hash::group_hash_axioms;

        let tl_x = top_left[0];
        let tl_y = top_left[1];
        let ghost x0 = tl_x as int;
        let ghost y0 = tl_y as int;
        if tl_x as u64 + width as u64 > 0x1_0000_0000 || tl_y as u64 + height as u64 > 0x1_0000_0000 {
            return false;
        }
        let target = match self.search_node_by_coor(Point { x: tl_x as i64 * TILE, y: tl_y as i64 * TILE }) {
            Some(t) => t,
            None => {
                return false;
            },
        };
        if !self.are_tiles_in_same_node(top_left, target, width, height) {
            return false;
        }
        let mut dx: u32 = 0;
        while dx < width
            invariant
                dx <= width,
                x0 == tl_x,
                y0 == tl_y,
                tl_x == top_left[0],
                tl_y == top_left[1],
                x0 + width <= 0x1_0000_0000,
                y0 + height <= 0x1_0000_0000,
                forall|k: u64| key_in_block(k as int, x0, y0, dx as int, height as int) ==> !#[trigger] self.building_grid@.contains_key(k),
            decreases width - dx,
        {
            let mut dy: u32 = 0;
            while dy < height
                invariant
                    dx < width,
                    dy <= height,
                    x0 == tl_x,
                    y0 == tl_y,
                    tl_x == top_left[0],
                    tl_y == top_left[1],
                    x0 + width <= 0x1_0000_0000,
                    y0 + height <= 0x1_0000_0000,
                    forall|k: u64| key_in_block(k as int, x0, y0, dx as int, height as int) ==> !#[trigger] self.building_grid@.contains_key(k),
                    forall|k: u64| key_in_block(k as int, x0 + dx, y0, 1, dy as int) ==> !#[trigger] self.building_grid@.contains_key(k),
                decreases height - dy,
            {
                let x = tl_x as u64 + dx as u64;
                let y = tl_y as u64 + dy as u64;
                proof {
                    lemma_tile_key(x as int, y as int);
                }
                let key = x * 0x1_0000_0000 + y;
                if self.building_grid.contains_key(&key) {
                    proof {
                        assert(key_in_block(key as int, x0, y0, width as int, height as int));
                        assert(self.building_grid@.contains_key(key));
                        assert(!block_free(self.building_grid@, x0, y0, width as int, height as int));
                    }
                    return false;
                }
                dy = dy + 1;
            }
            dx = dx + 1;
        }
        true
    }
}

/// Number of characters that arrive with a colony ship.
pub const NUM_STARTING_COLONISTS: usize = 10;

/// Speed of a new character, in coordinate units per tick.
pub const DEFAULT_SPEED: i64 = 10000;

/// `new` is `old` with every key that `covered` accepts mapped to `id`.
pub open spec fn grid_extends(
    old: Map<u64, BuildingId>,
    new: Map<u64, BuildingId>,
    covered: spec_fn(int) -> bool,
    id: BuildingId,
) -> bool {
    &&& forall|k: u64| #[trigger] new.contains_key(k) <==> old.contains_key(k) || covered(k as int)
    &&& forall|k: u64| covered(k as int) ==> #[trigger] new[k] == id
    &&& forall|k: u64| !covered(k as int) && old.contains_key(k) ==> #[trigger] new[k] == old[k]
}

/// The tile coordinate of a coordinate: whole tiles toward zero, and zero
/// for a negative coordinate.
pub open spec fn tile_of(c: int) -> int {
    if c < 0 {
        0
    } else {
        c / (TILE as int)
    }
}

/// The top left tile of a landing centered on the tile of coordinate `c`.
pub open spec fn landing_corner(c: int) -> int {
    if tile_of(c) == 0 {
        0
    } else {
        tile_of(c) - 1
    }
}

/// `new` is `old` with building `id` placed on the block: the grid maps the
/// block's tiles to it, and node `t` lists it last.
pub open spec fn placed(old: Game, new: Game, x: int, y: int, w: int, h: int, id: BuildingId, t: usize) -> bool {
    &&& t == tile_node(old.nodes@, x, y)->0
    &&& grid_extends(old.building_grid@, new.building_grid@, |k: int| key_in_block(k, x, y, w, h), id)
    &&& new.nodes@.len() == old.nodes@.len()
    &&& new.nodes@[t as int].buildings@ == old.nodes@[t as int].buildings@.push(id)
    &&& new.nodes@[t as int].coor == old.nodes@[t as int].coor
    &&& new.nodes@[t as int].population == old.nodes@[t as int].population
    &&& forall|n: int| 0 <= n < old.nodes@.len() && n != t ==> #[trigger] new.nodes@[n] == old.nodes@[n]
}

impl Game {
    /// Records `building_id` on every tile of the `width` by `height` block
    /// at `top_left`.
    pub fn bulk_insert_building_grid(&mut self, top_left: [u32; 2], building_id: BuildingId, width: u32, height: u32)
        requires
            block_fits(top_left[0] as int, top_left[1] as int, width as int, height as int),
        ensures
            grid_extends(
                old(self).building_grid@,
                final(self).building_grid@,
                |k: int| key_in_block(k, top_left[0] as int, top_left[1] as int, width as int, height as int),
                building_id,
            ),
            final(self).entities == old(self).entities,
            final(self).nodes == old(self).nodes,
            final(self).nations == old(self).nations,
            final(self).unit_destinations == old(self).unit_destinations,
            final(self).unit_x_axis == old(self).unit_x_axis,
            final(self).unit_y_axis == old(self).unit_y_axis,
            final(self).max_extent == old(self).max_extent,
            final(self).axes_sorted == old(self).axes_sorted,
    {
        broadcast use vstd::std_specs::hash::group_hash_axioms;

        let tl_x = top_left[0];
        let tl_y = top_left[1];
        let ghost x0 = tl_x as int;
        let ghost y0 = tl_y as int;
        let ghost h = height as int;
        let ghost start = self.building_grid@;
        let mut dx: u32 = 0;
        while dx < width
            invariant
                dx <= width,
                x0 == tl_x,
                y0 == tl_y,
                h == height,
                tl_x == top_left[0],
                tl_y == top_left[1],
                x0 + width <= 0x1_0000_0000,
                y0 + height <= 0x1_0000_0000,
                start == old(self).building_grid@,
                grid_extends(start, self.building_grid@, |k: int| key_in_block(k, x0, y0, dx as int, h), building_id),
                self.entities == old(self).entities,
                self.nodes == old(self).nodes,
                self.nations == old(self).nations,
                self.unit_destinations == old(self).unit_destinations,
                self.unit_x_axis == old(self).unit_x_axis,
                self.unit_y_axis == old(self).unit_y_axis,
                self.max_extent == old(self).max_extent,
                self.axes_sorted == old(self).axes_sorted,
            decreases width - dx,
        {
            let mut dy: u32 = 0;
            while dy < height
                invariant
                    dx < width,
                    dy <= height,
                    x0 == tl_x,
                    y0 == tl_y,
                    h == height,
                    x0 + width <= 0x1_0000_0000,
                    y0 + height <= 0x1_0000_0000,
                    start == old(self).building_grid@,
                    grid_extends(
                        start,
                        self.building_grid@,
                        |k: int| key_in_block(k, x0, y0, dx as int, h) || key_in_block(k, x0 + dx, y0, 1, dy as int),
                        building_id,
                    ),
                    self.entities == old(self).entities,
                    self.nodes == old(self).nodes,
                    self.nations == old(self).nations,
                    self.unit_destinations == old(self).unit_destinations,
                    self.unit_x_axis == old(self).unit_x_axis,
                    self.unit_y_axis == old(self).unit_y_axis,
                    self.max_extent == old(self).max_extent,
                    self.axes_sorted == old(self).axes_sorted,
                decreases height - dy,
            {
                let x = tl_x as u64 + dx as u64;
                let y = tl_y as u64 + dy as u64;
                proof {
                    lemma_tile_key(x as int, y as int);
                }
                let key = x * 0x1_0000_0000 + y;
                self.building_grid.insert(key, building_id);
                proof {
                    assert forall|k: u64|
                        key_in_block(k as int, x0, y0, dx as int, h) || key_in_block(k as int, x0 + dx, y0, 1, dy + 1)
                            <==> (key_in_block(k as int, x0, y0, dx as int, h) || key_in_block(k as int, x0 + dx, y0, 1, dy as int)
                            || k == key) by {
                        if k == key {
                            assert(key_in_block(k as int, x0 + dx, y0, 1, dy + 1));
                        }
                        if key_in_block(k as int, x0 + dx, y0, 1, dy + 1) && !key_in_block(k as int, x0 + dx, y0, 1, dy as int) {
                            let kx = k as int / 0x1_0000_0000;
                            let ky = k as int % 0x1_0000_0000;
                            assert(k as int == kx * 0x1_0000_0000 + ky) by (nonlinear_arith)
                                requires kx == k as int / 0x1_0000_0000, ky == k as int % 0x1_0000_0000;
                        }
                    }
                }
                dy = dy + 1;
            }
            proof {
                assert forall|k: int|
                    key_in_block(k, x0, y0, dx + 1, h) <==> (key_in_block(k, x0, y0, dx as int, h) || key_in_block(
                        k,
                        x0 + dx,
                        y0,
                        1,
                        h,
                    )) by {}
            }
            dx = dx + 1;
        }
    }

    /// Places `building_id` on the `width` by `height` block at `top_left`
    /// when a building can stand there, and returns the node that the block
    /// belongs to.
    fn claim_block(&mut self, top_left: [u32; 2], width: u32, height: u32, building_id: BuildingId) -> (r: Option<usize>)
        requires
            old(self).wf(),
        ensures
            final(self).wf(),
            r is Some <==> can_build(*old(self), top_left[0] as int, top_left[1] as int, width as int, height as int),
            r is None ==> *final(self) == *old(self),
            r matches Some(t) ==> placed(
                *old(self),
                *final(self),
                top_left[0] as int,
                top_left[1] as int,
                width as int,
                height as int,
                building_id,
                t,
            ),
            final(self).entities == old(self).entities,
            final(self).nations == old(self).nations,
            final(self).unit_destinations == old(self).unit_destinations,
            final(self).unit_x_axis == old(self).unit_x_axis,
            final(self).unit_y_axis == old(self).unit_y_axis,
            final(self).max_extent == old(self).max_extent,
            final(self).axes_sorted == old(self).axes_sorted,
    {
        if !self.can_build_at(top_left, width, height) {
            return None;
        }
        let target = match self.search_node_by_coor(Point { x: top_left[0] as i64 * TILE, y: top_left[1] as i64 * TILE }) {
            Some(t) => t,
            None => {
                return None;
            },
        };
        let ghost before = *self;
        let num_nodes = self.nodes.len();
        proof {
            lemma_node_near_from(self.nodes@, top_left[0] as i64 * TILE, top_left[1] as i64 * TILE, 0);
        }
        self.bulk_insert_building_grid(top_left, building_id, width, height);
        let ghost middle = self.nodes@;
        self.nodes[target].buildings.push(building_id);
        proof {
            assert forall|n: int| 0 <= n < self.nodes@.len() && n != target implies #[trigger] self.nodes@[n] == before.nodes@[n] by {
                assert(self.nodes@[n] == middle[n]);
            }
            assert forall|n: int| 0 <= n < self.nodes@.len() implies (#[trigger] self.nodes@[n]).coor.in_range() by {
                if n != target {
                    assert(self.nodes@[n] == before.nodes@[n]);
                }
            }
            assert(self.units() == before.units());
        }
        Some(target)
    }

    /// Builds a 2 by 2 farm with its top left tile at `top_left`, if a
    /// building can stand there.
    pub fn create_farm(&mut self, top_left: [u32; 2]) -> (r: Option<BuildingId>)
        requires
            old(self).wf(),
        ensures
            final(self).wf(),
            r is Some <==> can_build(*old(self), top_left[0] as int, top_left[1] as int, 2, 2),
            r is None ==> *final(self) == *old(self),
            r is Some ==> {
                let id = BuildingId::Farm(old(self).entities.buildings.farms@.len() as usize);
                &&& r == Some(id)
                &&& placed(*old(self), *final(self), top_left[0] as int, top_left[1] as int, 2, 2, id, tile_node(old(self).nodes@, top_left[0] as int, top_left[1] as int)->0)
                &&& final(self).entities.buildings.farms@.len() == old(self).entities.buildings.farms@.len() + 1
                &&& final(self).entities.characters@ == old(self).entities.characters@
            },
    {
        let id = BuildingId::Farm(self.entities.buildings.farms.len());
        match self.claim_block(top_left, 2, 2, id) {
            Some(_) => {
                self.entities.buildings.farms.push(Farm { output: 0 });
                Some(id)
            },
            None => None,
        }
    }

    /// Builds a 2 by 2 warehouse with its top left tile at `top_left`, if a
    /// building can stand there.
    pub fn create_warehouse(&mut self, top_left: [u32; 2]) -> (r: Option<BuildingId>)
        requires
            old(self).wf(),
        ensures
            final(self).wf(),
            r is Some <==> can_build(*old(self), top_left[0] as int, top_left[1] as int, 2, 2),
            r is None ==> *final(self) == *old(self),
            r is Some ==> {
                let id = BuildingId::Warehouse(old(self).entities.buildings.warehouses@.len() as usize);
                &&& r == Some(id)
                &&& placed(*old(self), *final(self), top_left[0] as int, top_left[1] as int, 2, 2, id, tile_node(old(self).nodes@, top_left[0] as int, top_left[1] as int)->0)
                &&& final(self).entities.buildings.warehouses@.len() == old(self).entities.buildings.warehouses@.len() + 1
                &&& final(self).entities.characters@ == old(self).entities.characters@
            },
    {
        let id = BuildingId::Warehouse(self.entities.buildings.warehouses.len());
        match self.claim_block(top_left, 2, 2, id) {
            Some(_) => {
                self.entities.buildings.warehouses.push(Warehouse::new());
                Some(id)
            },
            None => None,
        }
    }

    /// Lands a colony ship on node `node_idx`: a 3 by 3 landing centered on
    /// the tile of the node's center, if a building can stand there.
    pub fn place_colony_ship_landing(&mut self, node_idx: usize) -> (r: Option<BuildingId>)
        requires
            old(self).wf(),
            node_idx < old(self).nodes@.len(),
        ensures
            final(self).wf(),
            ({
                let c = old(self).nodes@[node_idx as int].coor;
                let x = landing_corner(c.x as int);
                let y = landing_corner(c.y as int);
                let id = BuildingId::ColonyShipLanding(old(self).entities.buildings.landings@.len() as usize);
                &&& r is Some <==> can_build(*old(self), x, y, 3, 3)
                &&& r is None ==> *final(self) == *old(self)
                &&& r is Some ==> {
                    &&& r == Some(id)
                    &&& placed(*old(self), *final(self), x, y, 3, 3, id, tile_node(old(self).nodes@, x, y)->0)
                    &&& final(self).entities.buildings.landings@.len() == old(self).entities.buildings.landings@.len() + 1
                    &&& final(self).entities.characters@ == old(self).entities.characters@
                }
            }),
            final(self).nations == old(self).nations,
            final(self).unit_x_axis == old(self).unit_x_axis,
            final(self).unit_y_axis == old(self).unit_y_axis,
    {
        let c = self.nodes[node_idx].coor;
        assert(self.nodes@[node_idx as int].coor.in_range());
        let tx: i64 = if c.x < 0 { 0 } else { c.x / TILE };
        let ty: i64 = if c.y < 0 { 0 } else { c.y / TILE };
        let x: u32 = if tx == 0 { 0 } else { (tx - 1) as u32 };
        let y: u32 = if ty == 0 { 0 } else { (ty - 1) as u32 };
        let id = BuildingId::ColonyShipLanding(self.entities.buildings.landings.len());
        match self.claim_block([x, y], 3, 3, id) {
            Some(_) => {
                self.entities.buildings.landings.push(ColonyShipLanding {});
                Some(id)
            },
            None => None,
        }
    }
}

impl Game {
    /// The nodes without any building, in increasing order.
    pub fn uncolonized_nodes(&self) -> (r: Vec<usize>)
        ensures
            forall|n: usize| r@.contains(n) <==> n < self.nodes@.len() && self.nodes@[n as int].buildings@.len() == 0,
            forall|a: int, b: int| 0 <= a < b < r@.len() ==> r@[a] < r@[b],
    {
        let mut r: Vec<usize> = Vec::new();
        let mut i: usize = 0;
        while i < self.nodes.len()
            invariant
                i <= self.nodes@.len(),
                forall|n: usize| r@.contains(n) <==> n < i && self.nodes@[n as int].buildings@.len() == 0,
                forall|a: int, b: int| 0 <= a < b < r@.len() ==> r@[a] < r@[b],
                forall|a: int| 0 <= a < r@.len() ==> r@[a] < i,
            decreases self.nodes@.len() - i,
        {
            if self.nodes[i].buildings.len() == 0 {
                let ghost before = r@;
                r.push(i);
                proof {
                    assert forall|n: usize| r@.contains(n) <==> n < i + 1 && self.nodes@[n as int].buildings@.len() == 0 by {
                        if n == i {
                            assert(r@[r@.len() - 1] == n);
                        }
                        if before.contains(n) {
                            let k = choose|k: int| 0 <= k < before.len() && before[k] == n;
                            assert(r@[k] == n);
                        }
                        if r@.contains(n) && n != i {
                            let k = choose|k: int| 0 <= k < r@.len() && r@[k] == n;
                            assert(before[k] == n);
                        }
                    }
                }
            }
            i = i + 1;
        }
        r
    }

    /// Founds a colony on node `node_idx`: lands a colony ship there, adds a
    /// nation, and parks `NUM_STARTING_COLONISTS` new characters at the
    /// node.  Returns the landing.
    pub fn colonize(&mut self, node_idx: usize) -> (r: Result<BuildingId, GameError>)
        requires
            old(self).wf(),
        ensures
            final(self).wf(),
            r is Err ==> *final(self) == *old(self),
            node_idx >= old(self).nodes@.len() ==> r == Err::<BuildingId, GameError>(GameError::UnknownNode),
            node_idx < old(self).nodes@.len() && old(self).nodes@[node_idx as int].buildings@.len() > 0
                ==> r == Err::<BuildingId, GameError>(GameError::AlreadyColonized),
            node_idx < old(self).nodes@.len() && old(self).nodes@[node_idx as int].buildings@.len() == 0
                && old(self).units().len() + NUM_STARTING_COLONISTS > usize::MAX
                ==> r == Err::<BuildingId, GameError>(GameError::TooManyCharacters),
            node_idx < old(self).nodes@.len() && old(self).nodes@[node_idx as int].buildings@.len() == 0
                && old(self).units().len() + NUM_STARTING_COLONISTS <= usize::MAX ==> ({
                let c = old(self).nodes@[node_idx as int].coor;
                let x = landing_corner(c.x as int);
                let y = landing_corner(c.y as int);
                let id = BuildingId::ColonyShipLanding(old(self).entities.buildings.landings@.len() as usize);
                &&& !can_build(*old(self), x, y, 3, 3) ==> r == Err::<BuildingId, GameError>(GameError::NoRoom)
                &&& can_build(*old(self), x, y, 3, 3) ==> {
                    &&& r == Ok::<BuildingId, GameError>(id)
                    &&& final(self).nations@.len() == old(self).nations@.len() + 1
                    &&& final(self).units().len() == old(self).units().len() + NUM_STARTING_COLONISTS
                    &&& forall|i: int| 0 <= i < old(self).units().len() ==> #[trigger] final(self).units()[i] == old(self).units()[i]
                    &&& forall|i: int|
                        old(self).units().len() <= i < final(self).units().len() ==> {
                            &&& (#[trigger] final(self).units()[i]).mobility == (CharacterMobility::Parked { node_idx })
                            &&& final(self).units()[i].speed == DEFAULT_SPEED
                        }
                    &&& final(self).entities.buildings.landings@.len() == old(self).entities.buildings.landings@.len() + 1
                    &&& final(self).unit_x_axis@ == old(self).unit_x_axis@
                    &&& final(self).unit_y_axis@ == old(self).unit_y_axis@
                }
            }),
    {
        if node_idx >= self.nodes.len() {
            return Err(GameError::UnknownNode);
        }
        if self.nodes[node_idx].buildings.len() > 0 {
            return Err(GameError::AlreadyColonized);
        }
        if self.entities.characters.len() > usize::MAX - NUM_STARTING_COLONISTS {
            return Err(GameError::TooManyCharacters);
        }
        let landing = match self.place_colony_ship_landing(node_idx) {
            Some(id) => id,
            None => {
                return Err(GameError::NoRoom);
            },
        };
        self.nations.push(Nation::new());
        let ghost start = self.units();
        let mut k: usize = 0;
        while k < NUM_STARTING_COLONISTS
            invariant
                k <= NUM_STARTING_COLONISTS,
                self.wf(),
                node_idx < self.nodes@.len(),
                start.len() + NUM_STARTING_COLONISTS <= usize::MAX,
                self.units().len() == start.len() + k,
                forall|i: int| 0 <= i < start.len() ==> #[trigger] self.units()[i] == start[i],
                forall|i: int|
                    start.len() <= i < self.units().len() ==> {
                        &&& (#[trigger] self.units()[i]).mobility == (CharacterMobility::Parked { node_idx })
                        &&& self.units()[i].speed == DEFAULT_SPEED
                    },
                self.unit_x_axis@ == old(self).unit_x_axis@,
                self.unit_y_axis@ == old(self).unit_y_axis@,
                self.nations@.len() == old(self).nations@.len() + 1,
                self.entities.buildings.landings@.len() == old(self).entities.buildings.landings@.len() + 1,
            decreases NUM_STARTING_COLONISTS - k,
        {
            let ghost before = self.units();
            let added = self.add_character(node_idx, DEFAULT_SPEED);
            proof {
                assert forall|i: int| 0 <= i < start.len() implies #[trigger] self.units()[i] == start[i] by {
                    assert(self.units().drop_last()[i] == before[i]);
                }
                assert forall|i: int| start.len() <= i < self.units().len() implies {
                    &&& (#[trigger] self.units()[i]).mobility == (CharacterMobility::Parked { node_idx })
                    &&& self.units()[i].speed == DEFAULT_SPEED
                } by {
                    if i < self.units().len() - 1 {
                        assert(self.units().drop_last()[i] == before[i]);
                    }
                }
            }
            k = k + 1;
        }
        Ok(landing)
    }
}

/// Whether `p` lies strictly within `CITY_RADIUS` of `site`.
pub open spec fn site_near(site: Point, p: Point) -> bool {
    (site.x - p.x) * (site.x - p.x) + (site.y - p.y) * (site.y - p.y) < CITY_RADIUS_SQUARED
}

/// Whether `p` lies strictly within `CITY_RADIUS` of one of `sites`: a
/// node placed at `p` would overlap it.
pub fn is_site_taken(sites: &Vec<Point>, p: Point) -> (r: bool)
    requires
        p.in_range(),
        forall|i: int| 0 <= i < sites@.len() ==> (#[trigger] sites@[i]).in_range(),
    ensures
        r == exists|i: int| 0 <= i < sites@.len() && site_near(#[trigger] sites@[i], p),
{
    let mut i: usize = 0;
    while i < sites.len()
        invariant
            i <= sites@.len(),
            p.in_range(),
            forall|k: int| 0 <= k < sites@.len() ==> (#[trigger] sites@[k]).in_range(),
            forall|k: int| 0 <= k < i ==> !site_near(#[trigger] sites@[k], p),
        decreases sites@.len() - i,
    {
        let s = sites[i];
        assert(s.in_range());
        let dx = s.x - p.x;
        let dy = s.y - p.y;
        assert(0 <= dx * dx <= 0x10_0000_0000_0000_0000) by (nonlinear_arith)
            requires -0x8000_0000 <= dx <= 0x8000_0000;
        assert(0 <= dy * dy <= 0x10_0000_0000_0000_0000) by (nonlinear_arith)
            requires -0x8000_0000 <= dy <= 0x8000_0000;
        let d2 = (dx as i128) * (dx as i128) + (dy as i128) * (dy as i128);
        if d2 < CITY_RADIUS_SQUARED as i128 {
            return true;
        }
        i = i + 1;
    }
    false
}

} // verus!
