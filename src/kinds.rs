use crate::geometry::Point;
use vstd::prelude::*;

verus! {

/// A building, by kind and index among the buildings of that kind.
#[derive(Clone, Copy, Debug, PartialEq, Eq, Hash, Structural)]
pub enum BuildingId {
    Warehouse(usize),
    Market(usize),
    ColonyShipLanding(usize),
    AssemblyHall(usize),
    CorpHQ(usize),
    Farm(usize),
    Mine(usize),
    Workshop(usize),
    Factory(usize),
    House(usize),
    Skyscraper(usize),
}

pub struct Farm {
    pub output: u32,
}

/// A warehouse: per commodity, the quantity stored and the quantity wanted.
pub struct Warehouse {
    pub storage: Vec<u32>,
    pub demand_qtys: Vec<u32>,
}

impl Warehouse {
    /// An empty warehouse.
    pub fn new() -> (w: Warehouse)
        ensures
            w.storage@.len() == 0,
            w.demand_qtys@.len() == 0,
    {
        Warehouse { storage: Vec::new(), demand_qtys: Vec::new() }
    }
}

/// A market: per commodity, the quantity stored.
pub struct Market {
    pub storage: Vec<u32>,
}

pub struct Household {
    pub num_people: u32,
}

pub struct ColonyShipLanding {}

/// The buildings of the map, by kind; a `BuildingId` indexes into these.
pub struct Buildings {
    pub farms: Vec<Farm>,
    pub warehouses: Vec<Warehouse>,
    pub households: Vec<Household>,
    pub landings: Vec<ColonyShipLanding>,
}

impl Buildings {
    pub fn new() -> (b: Buildings)
        ensures
            b.farms@.len() == 0,
            b.warehouses@.len() == 0,
            b.households@.len() == 0,
            b.landings@.len() == 0,
    {
        Buildings { farms: Vec::new(), warehouses: Vec::new(), households: Vec::new(), landings: Vec::new() }
    }
}

/// A nation: the indices of its cities.
pub struct Nation {
    pub cities: Vec<usize>,
}

impl Nation {
    pub fn new() -> (n: Nation)
        ensures
            n.cities@.len() == 0,
    {
        Nation { cities: Vec::new() }
    }
}

#[derive(Clone, Copy, Debug, PartialEq, Eq, Hash, Structural)]
pub enum Institution {
    Health,
    Welfare,
    Saftely,
    Law,
    Education,
    Research,
    Military,
}

pub struct InstitutionData {
    pub capacity: usize,
    pub actual: usize,
    pub budget_rate: usize,
}

#[derive(Clone, Copy, Debug, PartialEq, Eq, Hash, Structural)]
pub enum EntityId {
    Island(usize),
    Unit(usize),
    Character(usize),
}

#[derive(Clone, Copy, Debug, PartialEq, Eq, Hash, Structural)]
pub enum Commodity {
    Sand,
    Wood,
    Cotton,
    Hemp,
    Sugar,
    Cocoa,
    Diamond,
    Chemical,
    Rubber,
    Steel,
    Aluminum,
    Oil,
    Uranium,
    Deuterium,
    Grain,
    Fruit,
    Coffee,
    Spice,
    Tea,
    Gold,
    Silicon,
    Glass,
    Fat,
    Computer,
    Plastic,
    Candy,
    Cake,
    Meat,
    Milk,
    Egg,
    Chocolate,
    Wine,
    Gadget,
    Jewelry,
    Apparel,
    Furniture,
    Vehicle,
    Medicine,
}

/// Something fired across the map, moving `speed` per tick.
#[derive(Clone, Copy, Debug, PartialEq, Eq, Structural)]
pub enum Projectile {
    Bullet { coor: Point, destination: Point, speed: i64 },
    Beam { fire_unit: EntityId, destination: Point, speed: i64 },
}

#[derive(Clone, Copy, Debug, PartialEq, Eq, Hash, Structural)]
pub enum Gun {
    Gun,
    Artillery,
    EnergyBeam,
}

} // verus!
