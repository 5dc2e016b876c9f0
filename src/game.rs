use crate::geometry::{Point, Rectangle, Rotation, MAX_SIDE};
use crate::kinds::{BuildingId, Buildings, Nation, Projectile};
use std::cmp::Ordering;
use std::collections::HashMap;
use vstd::prelude::*;

verus! {

/// Largest speed of a character, in coordinate units per tick.
pub const MAX_SPEED: i64 = 1073741824;

/// Where a character is: parked at a node, or deployed on the map as a unit
/// with a rectangular body.
pub enum CharacterMobility {
    Parked { node_idx: usize },
    Unit { body: Rectangle, character_idx: usize },
}

pub struct Character {
    pub children: Vec<usize>,
    pub strength: u32,
    pub dexterity: u32,
    pub intelligence: u32,
    pub charisma: u32,
    /// Distance covered in one tick.
    pub speed: i64,
    pub mobility: CharacterMobility,
}

pub struct Entities {
    pub projectiles: Vec<Projectile>,
    pub buildings: Buildings,
    pub characters: Vec<Character>,
}

/// A city site on the map.
pub struct Node {
    pub coor: Point,
    pub population: usize,
    pub buildings: Vec<BuildingId>,
}

/// What can go wrong when the game is asked to act.
#[derive(Clone, Copy, Debug, PartialEq, Eq, Structural)]
pub enum GameError {
    /// No character has this index.
    UnknownCharacter,
    /// No node has this index.
    UnknownNode,
    /// The character is parked, and the action needs a deployed unit.
    NotDeployed,
    /// The character is deployed, and the action needs a parked one.
    NotParked,
    /// The body is larger than the index's margin allows, or a size is out
    /// of range.
    BadBody,
    /// The speed is out of range.
    BadSpeed,
    /// No index is left for another character.
    TooManyCharacters,
    /// A unit was deployed since the axes were last sorted.
    Unsorted,
    /// The node already has a building.
    AlreadyColonized,
    /// No building can stand where it was asked for.
    NoRoom,
}

/// One of the two axes of the map.
#[derive(Clone, Copy, Debug, PartialEq, Eq, Structural)]
pub enum Axis {
    X,
    Y,
}

/// The spatial index and everything it reads: characters, their
/// destinations, the nodes, and one sorted list of unit ids per axis.
pub struct Game {
    pub entities: Entities,
    pub nodes: Vec<Node>,
    pub nations: Vec<Nation>,
    /// For each character, the node it is heading to.
    pub unit_destinations: Vec<Option<usize>>,
    pub unit_x_axis: Vec<usize>,
    pub unit_y_axis: Vec<usize>,
    /// The margin added on every side of a query's box: no deployed body
    /// reaches farther than this from its center.
    pub max_extent: i64,
    /// Whether both axes have been sorted since the last deployment.
    pub axes_sorted: bool,
    /// The building on each occupied tile, keyed by `tile_key`.
    pub building_grid: HashMap<u64, BuildingId>,
}

pub open spec fn is_deployed(c: Character) -> bool {
    c.mobility is Unit
}

/// The body of a deployed character.
pub open spec fn body_of(c: Character) -> Rectangle {
    match c.mobility {
        CharacterMobility::Unit { body, .. } => body,
        CharacterMobility::Parked { .. } => vstd::pervasive::arbitrary(),
    }
}

/// Whether `id` names a deployed character of `units`.
pub open spec fn deployed_id(units: Seq<Character>, id: usize) -> bool {
    id < units.len() && is_deployed(units[id as int])
}

/// The coordinate of unit `id` on `axis` (zero for an id that names no
/// deployed character).
pub open spec fn coord(units: Seq<Character>, id: usize, axis: Axis) -> int {
    if deployed_id(units, id) {
        match axis {
            Axis::X => body_of(units[id as int]).center.x as int,
            Axis::Y => body_of(units[id as int]).center.y as int,
        }
    } else {
        0
    }
}

/// Orders unit ids by their coordinate on `axis`.
pub open spec fn by_coord(units: Seq<Character>, axis: Axis) -> spec_fn(usize, usize) -> bool {
    |a: usize, b: usize| coord(units, a, axis) <= coord(units, b, axis)
}

/// The ids of `ids` are the deployed characters of `units`, each once.
pub open spec fn indexes_deployed(units: Seq<Character>, ids: Seq<usize>) -> bool {
    &&& ids.no_duplicates()
    &&& forall|id: usize| ids.contains(id) <==> deployed_id(units, id)
}

/// `ids` is non-decreasing by coordinate on `axis`.
pub open spec fn axis_sorted(units: Seq<Character>, ids: Seq<usize>, axis: Axis) -> bool {
    crate::sort::sorted_by(by_coord(units, axis), ids)
}

impl Character {
    pub open spec fn wf(self, num_nodes: nat, max_extent: int) -> bool {
        &&& 0 <= self.speed <= MAX_SPEED
        &&& match self.mobility {
            CharacterMobility::Parked { node_idx } => node_idx < num_nodes,
            CharacterMobility::Unit { body, .. } => body.wf() && fits_extent(body, max_extent),
        }
    }
}

/// Every point of the body is nearer than `e` to its center: half the
/// diagonal is below `e`.
pub open spec fn fits_extent(body: Rectangle, e: int) -> bool {
    body.length * body.length + body.width * body.width < 4 * e * e
}

impl Game {
    pub open spec fn units(self) -> Seq<Character> {
        self.entities.characters@
    }

    /// The ids held by the index of `axis`.
    pub open spec fn axis_ids(self, axis: Axis) -> Seq<usize> {
        match axis {
            Axis::X => self.unit_x_axis@,
            Axis::Y => self.unit_y_axis@,
        }
    }

    pub open spec fn wf(self) -> bool {
        &&& 0 <= self.max_extent <= MAX_SIDE
        &&& forall|n: int| 0 <= n < self.nodes@.len() ==> (#[trigger] self.nodes@[n]).coor.in_range()
        &&& forall|i: int| 0 <= i < self.units().len() ==> (#[trigger] self.units()[i]).wf(
            self.nodes@.len(),
            self.max_extent as int,
        )
        &&& self.unit_destinations@.len() == self.units().len()
        &&& forall|i: int|
            0 <= i < self.units().len() && (#[trigger] self.unit_destinations@[i]) is Some ==> {
                &&& self.unit_destinations@[i]->0 < self.nodes@.len()
                &&& is_deployed(self.units()[i])
            }
        &&& indexes_deployed(self.units(), self.unit_x_axis@)
        &&& indexes_deployed(self.units(), self.unit_y_axis@)
        &&& self.axes_sorted ==> axis_sorted(self.units(), self.unit_x_axis@, Axis::X)
        &&& self.axes_sorted ==> axis_sorted(self.units(), self.unit_y_axis@, Axis::Y)
    }
}

/// The three-way comparison of two integers.
pub open spec fn int_order(a: int, b: int) -> Ordering {
    if a < b {
        Ordering::Less
    } else if a == b {
        Ordering::Equal
    } else {
        Ordering::Greater
    }
}

pub(crate) proof fn lemma_by_coord_is_comparator_order(units: Seq<Character>, axis: Axis, a: usize, b: usize)
    ensures
        crate::sort::order_of(by_coord(units, axis), a, b) == int_order(coord(units, a, axis), coord(units, b, axis)),
{
}

pub(crate) proof fn lemma_by_coord_total(units: Seq<Character>, axis: Axis)
    ensures
        crate::sort::is_total_preorder(by_coord(units, axis)),
{
}

impl Character {
    /// The x coordinate of a deployed character's center.
    pub fn get_x(&self) -> (x: i64)
        requires
            is_deployed(*self),
        ensures
            x == body_of(*self).center.x,
    {
        match &self.mobility {
            CharacterMobility::Unit { body, .. } => body.center.x,
            CharacterMobility::Parked { .. } => 0,
        }
    }

    /// The y coordinate of a deployed character's center.
    pub fn get_y(&self) -> (y: i64)
        requires
            is_deployed(*self),
        ensures
            y == body_of(*self).center.y,
    {
        match &self.mobility {
            CharacterMobility::Unit { body, .. } => body.center.y,
            CharacterMobility::Parked { .. } => 0,
        }
    }
}

impl Entities {
    /// The coordinate of unit `id` on `axis`.
    pub fn coordinate(&self, id: usize, axis: Axis) -> (c: i64)
        requires
            deployed_id(self.characters@, id),
        ensures
            c == coord(self.characters@, id, axis),
    {
        match axis {
            Axis::X => self.characters[id].get_x(),
            Axis::Y => self.characters[id].get_y(),
        }
    }

    /// Compares two units by the coordinate of their centers on `axis`.
    pub fn unit_comparator(&self, a: usize, b: usize, axis: Axis) -> (r: Ordering)
        requires
            deployed_id(self.characters@, a),
            deployed_id(self.characters@, b),
        ensures
            r == int_order(coord(self.characters@, a, axis), coord(self.characters@, b, axis)),
    {
        let ca = self.coordinate(a, axis);
        let cb = self.coordinate(b, axis);
        if ca < cb {
            Ordering::Less
        } else if ca == cb {
            Ordering::Equal
        } else {
            Ordering::Greater
        }
    }

    /// Compares two units by the x coordinate of their centers.
    pub fn unit_comparator_by_x(&self, a: usize, b: usize) -> (r: Ordering)
        requires
            deployed_id(self.characters@, a),
            deployed_id(self.characters@, b),
        ensures
            r == int_order(coord(self.characters@, a, Axis::X), coord(self.characters@, b, Axis::X)),
    {
        self.unit_comparator(a, b, Axis::X)
    }

    /// Compares two units by the y coordinate of their centers.
    pub fn unit_comparator_by_y(&self, a: usize, b: usize) -> (r: Ordering)
        requires
            deployed_id(self.characters@, a),
            deployed_id(self.characters@, b),
        ensures
            r == int_order(coord(self.characters@, a, Axis::Y), coord(self.characters@, b, Axis::Y)),
    {
        self.unit_comparator(a, b, Axis::Y)
    }
}

impl Game {
    /// A game on the given nodes, with no characters.  `max_extent` is how
    /// far a deployed body may reach from its center.
    pub fn new(nodes: Vec<Node>, max_extent: i64) -> (g: Game)
        requires
            0 <= max_extent <= MAX_SIDE,
            forall|n: int| 0 <= n < nodes@.len() ==> (#[trigger] nodes@[n]).coor.in_range(),
        ensures
            g.wf(),
            g.units().len() == 0,
            g.nodes@ == nodes@,
            g.max_extent == max_extent,
            g.axes_sorted,
            g.building_grid@.len() == 0,
            g.nations@.len() == 0,
    {
        Game {
            entities: Entities { projectiles: Vec::new(), buildings: Buildings::new(), characters: Vec::new() },
            nodes,
            nations: Vec::new(),
            unit_destinations: Vec::new(),
            unit_x_axis: Vec::new(),
            unit_y_axis: Vec::new(),
            max_extent,
            axes_sorted: true,
            building_grid: HashMap::new(),
        }
    }

    /// Adds a character parked at node `node_idx`, moving `speed` per tick
    /// once deployed, and returns its index.
    pub fn add_character(&mut self, node_idx: usize, speed: i64) -> (r: Result<usize, GameError>)
        requires
            old(self).wf(),
        ensures
            final(self).wf(),
            node_idx >= old(self).nodes@.len() ==> r == Err::<usize, GameError>(GameError::UnknownNode),
            node_idx < old(self).nodes@.len() && !(0 <= speed <= MAX_SPEED) ==> r == Err::<usize, GameError>(GameError::BadSpeed),
            r is Err ==> *final(self) == *old(self),
            node_idx < old(self).nodes@.len() && 0 <= speed <= MAX_SPEED && old(self).units().len() == usize::MAX
                ==> r == Err::<usize, GameError>(GameError::TooManyCharacters),
            node_idx < old(self).nodes@.len() && 0 <= speed <= MAX_SPEED && old(self).units().len() < usize::MAX ==> {
                &&& r == Ok::<usize, GameError>(old(self).units().len() as usize)
                &&& final(self).units().len() == old(self).units().len() + 1
                &&& final(self).units().drop_last() == old(self).units()
                &&& final(self).units().last().mobility == (CharacterMobility::Parked { node_idx })
                &&& final(self).units().last().speed == speed
                &&& final(self).unit_destinations@.last() is None
                &&& final(self).nodes@ == old(self).nodes@
                &&& final(self).unit_x_axis@ == old(self).unit_x_axis@
                &&& final(self).unit_y_axis@ == old(self).unit_y_axis@
                &&& final(self).axes_sorted == old(self).axes_sorted
                &&& final(self).nations == old(self).nations
                &&& final(self).entities.buildings == old(self).entities.buildings
            },
    {
        if node_idx >= self.nodes.len() {
            return Err(GameError::UnknownNode);
        }
        if speed < 0 || speed > MAX_SPEED {
            return Err(GameError::BadSpeed);
        }
        if self.entities.characters.len() == usize::MAX {
            return Err(GameError::TooManyCharacters);
        }
        let idx = self.entities.characters.len();
        let ghost old_units = self.units();
        self.entities.characters.push(
            Character {
                children: Vec::new(),
                strength: 0,
                dexterity: 0,
                intelligence: 0,
                charisma: 0,
                speed,
                mobility: CharacterMobility::Parked { node_idx },
            },
        );
        self.unit_destinations.push(None);
        proof {
            assert(self.units().drop_last() =~= old_units);
            assert forall|id: usize| deployed_id(self.units(), id) <==> deployed_id(old_units, id) by {
                if id < old_units.len() {
                    assert(self.units()[id as int] == old_units[id as int]);
                }
            }
            assert forall|id: usize| coord(self.units(), id, Axis::X) == coord(old_units, id, Axis::X) && coord(
                self.units(),
                id,
                Axis::Y,
            ) == coord(old_units, id, Axis::Y) by {
                if id < old_units.len() {
                    assert(self.units()[id as int] == old_units[id as int]);
                }
            }
            assert(by_coord(self.units(), Axis::X) =~= by_coord(old_units, Axis::X));
            assert(by_coord(self.units(), Axis::Y) =~= by_coord(old_units, Axis::Y));
            assert forall|i: int| 0 <= i < self.units().len() && (#[trigger] self.unit_destinations@[i]) is Some implies {
                &&& self.unit_destinations@[i]->0 < self.nodes@.len()
                &&& is_deployed(self.units()[i])
            } by {
                if i < old_units.len() {
                    assert(self.units()[i] == old_units[i]);
                }
            }
            assert forall|i: int| 0 <= i < self.units().len() implies (#[trigger] self.units()[i]).wf(
                self.nodes@.len(),
                self.max_extent as int,
            ) by {
                if i < old_units.len() {
                    assert(self.units()[i] == old_units[i]);
                }
            }
        }
        Ok(idx)
    }
}

impl Game {
    /// Puts parked character `character_idx` on the map as a unit: a
    /// `width` by `length` body, unrotated, centered on its node.  The unit
    /// joins both axes at their ends; they count as unsorted until the next
    /// tick sorts them.
    pub fn deploy_character(&mut self, character_idx: usize, length: i64, width: i64) -> (r: Result<(), GameError>)
        requires
            old(self).wf(),
        ensures
            final(self).wf(),
            r is Err ==> *final(self) == *old(self),
            character_idx >= old(self).units().len() ==> r == Err::<(), GameError>(GameError::UnknownCharacter),
            character_idx < old(self).units().len() && is_deployed(old(self).units()[character_idx as int])
                ==> r == Err::<(), GameError>(GameError::NotParked),
            character_idx < old(self).units().len() && !is_deployed(old(self).units()[character_idx as int]) ==> {
                let ok_size = 0 <= length <= MAX_SIDE && 0 <= width <= MAX_SIDE;
                let body = Rectangle {
                    center: old(self).nodes@[old(self).units()[character_idx as int].mobility->Parked_node_idx as int].coor,
                    length,
                    width,
                    rotation: Rotation { cos: 1, sin: 0, hyp: 1 },
                };
                &&& !(ok_size && fits_extent(body, old(self).max_extent as int)) ==> r == Err::<(), GameError>(GameError::BadBody)
                &&& ok_size && fits_extent(body, old(self).max_extent as int) ==> {
                    &&& r is Ok
                    &&& final(self).units()[character_idx as int].mobility == (CharacterMobility::Unit { body, character_idx })
                    &&& final(self).units()[character_idx as int].speed == old(self).units()[character_idx as int].speed
                    &&& final(self).units().len() == old(self).units().len()
                    &&& forall|j: int| 0 <= j < old(self).units().len() && j != character_idx
                        ==> final(self).units()[j] == old(self).units()[j]
                    &&& final(self).unit_x_axis@ == old(self).unit_x_axis@.push(character_idx)
                    &&& final(self).unit_y_axis@ == old(self).unit_y_axis@.push(character_idx)
                    &&& final(self).unit_destinations@ == old(self).unit_destinations@
                    &&& final(self).nodes@ == old(self).nodes@
                    &&& !final(self).axes_sorted
                }
            },
    {
        if character_idx >= self.entities.characters.len() {
            return Err(GameError::UnknownCharacter);
        }
        let node_idx = match &self.entities.characters[character_idx].mobility {
            CharacterMobility::Parked { node_idx } => *node_idx,
            CharacterMobility::Unit { .. } => {
                return Err(GameError::NotParked);
            },
        };
        if length < 0 || length > MAX_SIDE || width < 0 || width > MAX_SIDE {
            return Err(GameError::BadBody);
        }
        let e = self.max_extent;
        assert(0 <= length * length <= MAX_SIDE * MAX_SIDE) by (nonlinear_arith)
            requires 0 <= length <= MAX_SIDE;
        assert(0 <= width * width <= MAX_SIDE * MAX_SIDE) by (nonlinear_arith)
            requires 0 <= width <= MAX_SIDE;
        assert(0 <= 4 * e * e <= 4 * MAX_SIDE * MAX_SIDE) by (nonlinear_arith)
            requires 0 <= e <= MAX_SIDE;
        if length * length + width * width >= 4 * e * e {
            return Err(GameError::BadBody);
        }
        let body = Rectangle { center: self.nodes[node_idx].coor, length, width, rotation: Rotation::identity() };
        let ghost old_self = *self;
        let ghost old_units = self.units();
        self.entities.characters[character_idx].mobility = CharacterMobility::Unit { body, character_idx };
        self.unit_x_axis.push(character_idx);
        self.unit_y_axis.push(character_idx);
        self.axes_sorted = false;
        proof {
            assert(self.units().len() == old_units.len());
            assert forall|id: usize| #[trigger] deployed_id(self.units(), id) <==> (deployed_id(old_units, id) || id
                == character_idx) by {
                if id < old_units.len() && id != character_idx {
                    assert(self.units()[id as int] == old_units[id as int]);
                }
            }
            assert(!old_self.unit_x_axis@.contains(character_idx));
            assert(!old_self.unit_y_axis@.contains(character_idx));
            assert forall|id: usize| self.unit_x_axis@.contains(id) <==> deployed_id(self.units(), id) by {
                assert(self.unit_x_axis@.contains(id) <==> (old_self.unit_x_axis@.contains(id) || id == character_idx)) by {
                    if id == character_idx {
                        assert(self.unit_x_axis@[self.unit_x_axis@.len() - 1] == id);
                    }
                    if old_self.unit_x_axis@.contains(id) {
                        let k = choose|k: int| 0 <= k < old_self.unit_x_axis@.len() && old_self.unit_x_axis@[k] == id;
                        assert(self.unit_x_axis@[k] == id);
                    }
                }
            }
            assert forall|id: usize| self.unit_y_axis@.contains(id) <==> deployed_id(self.units(), id) by {
                assert(self.unit_y_axis@.contains(id) <==> (old_self.unit_y_axis@.contains(id) || id == character_idx)) by {
                    if id == character_idx {
                        assert(self.unit_y_axis@[self.unit_y_axis@.len() - 1] == id);
                    }
                    if old_self.unit_y_axis@.contains(id) {
                        let k = choose|k: int| 0 <= k < old_self.unit_y_axis@.len() && old_self.unit_y_axis@[k] == id;
                        assert(self.unit_y_axis@[k] == id);
                    }
                }
            }
            assert forall|i: int| 0 <= i < self.units().len() implies (#[trigger] self.units()[i]).wf(
                self.nodes@.len(),
                self.max_extent as int,
            ) by {
                if i != character_idx {
                    assert(self.units()[i] == old_units[i]);
                } else {
                    assert(self.nodes@[node_idx as int].coor.in_range());
                }
            }
            assert forall|i: int| 0 <= i < self.units().len() && (#[trigger] self.unit_destinations@[i]) is Some implies {
                &&& self.unit_destinations@[i]->0 < self.nodes@.len()
                &&& is_deployed(self.units()[i])
            } by {
                if i != character_idx {
                    assert(self.units()[i] == old_units[i]);
                } else {
                    assert(!is_deployed(old_units[i]));
                }
            }
        }
        Ok(())
    }

    /// Sends deployed unit `character_idx` toward node `city_idx`.
    pub fn set_unit_destination(&mut self, character_idx: usize, city_idx: usize) -> (r: Result<(), GameError>)
        requires
            old(self).wf(),
        ensures
            final(self).wf(),
            r is Err ==> *final(self) == *old(self),
            character_idx >= old(self).units().len() ==> r == Err::<(), GameError>(GameError::UnknownCharacter),
            character_idx < old(self).units().len() && city_idx >= old(self).nodes@.len() ==> r == Err::<(), GameError>(GameError::UnknownNode),
            character_idx < old(self).units().len() && city_idx < old(self).nodes@.len() && !is_deployed(old(self).units()[character_idx as int])
                ==> r == Err::<(), GameError>(GameError::NotDeployed),
            character_idx < old(self).units().len() && city_idx < old(self).nodes@.len() && is_deployed(old(self).units()[character_idx as int])
                ==> {
                &&& r is Ok
                &&& final(self).unit_destinations@ == old(self).unit_destinations@.update(character_idx as int, Some(city_idx))
                &&& final(self).entities.characters@ == old(self).entities.characters@
                &&& final(self).nodes@ == old(self).nodes@
                &&& final(self).unit_x_axis@ == old(self).unit_x_axis@
                &&& final(self).unit_y_axis@ == old(self).unit_y_axis@
                &&& final(self).axes_sorted == old(self).axes_sorted
            },
    {
        if character_idx >= self.entities.characters.len() {
            return Err(GameError::UnknownCharacter);
        }
        if city_idx >= self.nodes.len() {
            return Err(GameError::UnknownNode);
        }
        match &self.entities.characters[character_idx].mobility {
            CharacterMobility::Parked { .. } => {
                return Err(GameError::NotDeployed);
            },
            CharacterMobility::Unit { .. } => {},
        }
        self.unit_destinations.set(character_idx, Some(city_idx));
        Ok(())
    }

    /// The center of deployed unit `idx`.
    pub fn get_unit_coor(&self, idx: usize) -> (p: Point)
        requires
            deployed_id(self.units(), idx),
        ensures
            p == body_of(self.units()[idx as int]).center,
    {
        match &self.entities.characters[idx].mobility {
            CharacterMobility::Unit { body, .. } => body.center,
            CharacterMobility::Parked { .. } => Point { x: 0, y: 0 },
        }
    }

    /// Whether node `node_idx` has any building.
    pub fn is_colonized(&self, node_idx: usize) -> (r: bool)
        requires
            node_idx < self.nodes@.len(),
        ensures
            r == (self.nodes@[node_idx as int].buildings@.len() > 0),
    {
        self.nodes[node_idx].buildings.len() > 0
    }
}

} // verus!
