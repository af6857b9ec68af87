//! The simulated world: bodies, the controlling client's inputs, and the
//! snapshot sent to observers.
//!
//! Every real quantity (mass, coordinates, angles, thrust, throttle) is stored
//! as the bit pattern of its IEEE-754 value: `u64` for a binary64 and `u32` for
//! a binary32. The values are moved and transferred here, never computed on.
use vstd::prelude::*;

verus! {

/// How the ship's heading is controlled. Only manual control exists.
#[derive(Clone, Copy, Debug, PartialEq, Eq, Structural)]
pub enum NavMode {
    MAN,
}

/// The latest control directive of the controlling client.
#[derive(Clone, Copy, Debug, PartialEq, Eq, Structural)]
pub struct Inputs {
    pub navmode: NavMode,
    /// Throttle, as the bits of a binary32; not clamped to any range.
    pub throttle: u32,
}

impl Inputs {
    /// Manual navigation and a throttle of +0.0.
    pub fn default() -> (r: Inputs)
        ensures
            r == (Inputs { navmode: NavMode::MAN, throttle: 0 }),
    {
        Inputs { navmode: NavMode::MAN, throttle: 0 }
    }
}

/// A 2-vector, each component the bits of a binary64.
#[derive(Clone, Copy, Debug, PartialEq, Eq, Structural)]
pub struct Vec2 {
    pub x: u64,
    pub y: u64,
}

/// A physical body.
#[derive(Clone, Copy, Debug, PartialEq, Eq, Structural)]
pub struct Object {
    /// Mass in kilograms.
    pub mass: u64,
    /// Position in meters.
    pub position: Vec2,
    /// Velocity in meters per second.
    pub velocity: Vec2,
    /// Acceleration in meters per second squared, as computed at the last step.
    pub acceleration: Vec2,
    /// Heading in radians.
    pub heading: u64,
    /// Spin in radians per second.
    pub spin: u64,
}

/// A massive body; it attracts every other body.
#[derive(Clone, Copy, Debug, PartialEq, Eq, Structural)]
pub struct Planet {
    pub object: Object,
    pub radius: u64,
}

/// Propulsion data of a HAB ship.
#[derive(Clone, Copy, Debug, PartialEq, Eq, Structural)]
pub struct HabData {
    /// Engine acceleration at full throttle, as the bits of a binary32.
    pub thrust: u32,
}

/// The kind of a ship, with the data that its propulsion needs.
#[derive(Clone, Copy, Debug, PartialEq, Eq, Structural)]
pub enum ShipType {
    HAB(HabData),
}

/// A player-controlled vehicle; it is pulled by planets and pushed by its engine.
#[derive(Clone, Copy, Debug, PartialEq, Eq, Structural)]
pub struct Ship {
    pub object: Object,
    pub ship_type: ShipType,
}

/// The mutable world: ships and planets, each in a stable order.
pub type Objects = (Vec<Ship>, Vec<Planet>);

/// A snapshot of the world and of the inputs, the unit sent to observers.
#[derive(Clone, Debug)]
pub struct State {
    pub ships: Vec<Ship>,
    pub planets: Vec<Planet>,
    pub inputs: Inputs,
}

/// What a [`State`] holds, with its sequences as mathematical sequences.
pub ghost struct StateView {
    pub ships: Seq<Ship>,
    pub planets: Seq<Planet>,
    pub inputs: Inputs,
}

impl StateView {
    /// The sequences are short enough for a `Vec` to hold them.
    pub open spec fn fits(&self) -> bool {
        self.ships.len() <= usize::MAX && self.planets.len() <= usize::MAX
    }
}

impl View for State {
    type V = StateView;

    open spec fn view(&self) -> StateView {
        StateView { ships: self.ships@, planets: self.planets@, inputs: self.inputs }
    }
}

/// The bodies of a world, ships first, then planets, each group in its order.
pub open spec fn objects_of(ships: Seq<Ship>, planets: Seq<Planet>) -> Seq<Object> {
    ships.map_values(|s: Ship| s.object) + planets.map_values(|p: Planet| p.object)
}

impl State {
    /// Takes a snapshot of the world and of the inputs.
    pub fn snapshot(objects: &Objects, inputs: &Inputs) -> (r: State)
        ensures
            r.ships@ == objects.0@,
            r.planets@ == objects.1@,
            r.inputs == *inputs,
    {
        State { ships: objects.0.clone(), planets: objects.1.clone(), inputs: *inputs }
    }

    /// The bodies of the snapshot: the ships' first, then the planets'.
    pub fn objects(&self) -> (r: Vec<Object>)
        ensures
            r@ == objects_of(self.ships@, self.planets@),
    {
        let mut r: Vec<Object> = Vec::new();
        let mut i: usize = 0;
        while i < self.ships.len()
            invariant
                i <= self.ships@.len(),
                r@ == self.ships@.subrange(0, i as int).map_values(|s: Ship| s.object),
            decreases self.ships@.len() - i,
        {
            r.push(self.ships[i].object);
            i += 1;
            assert(r@ =~= self.ships@.subrange(0, i as int).map_values(|s: Ship| s.object));
        }
        proof {
            assert(self.ships@.subrange(0, i as int) =~= self.ships@);
            assert(self.planets@.subrange(0, 0) =~= Seq::<Planet>::empty());
        }
        let mut j: usize = 0;
        while j < self.planets.len()
            invariant
                j <= self.planets@.len(),
                i == self.ships@.len(),
                r@ == self.ships@.map_values(|s: Ship| s.object) + self.planets@.subrange(
                    0,
                    j as int,
                ).map_values(|p: Planet| p.object),
            decreases self.planets@.len() - j,
        {
            r.push(self.planets[j].object);
            j += 1;
            assert(r@ =~= self.ships@.map_values(|s: Ship| s.object) + self.planets@.subrange(
                0,
                j as int,
            ).map_values(|p: Planet| p.object));
        }
        proof {
            assert(self.planets@.subrange(0, j as int) =~= self.planets@);
        }
        r
    }
}

} // verus!
