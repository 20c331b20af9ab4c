//! The material state of one grid slot: a species tag with optional payload,
//! a signed heat value, the per-tick clock flag, and the rendering grain.

use vstd::prelude::*;
use crate::rng::ambient_byte;

verus! {

/// Wetness payload of Mud.
pub type Wetness = u8;
/// Height payload of WaterGrass.
pub type Height = u8;
/// Identifier of a remembered species in the clone registry.
pub type CloneId = u16;

/// A flower's display color. The simulation only ever compares colors for
/// equality; the actual pixel value is the front end's concern.
#[derive(Clone, Copy, Debug, PartialEq, Eq, Hash, Structural)]
pub enum FlowerColor {
    Red,
    Blue,
    Yellow,
    Magenta,
    White,
}

/// The material kind of a cell, one tag per species, some carrying a payload.
#[derive(Clone, Copy, Debug, PartialEq, Eq, Hash, Structural)]
pub enum Species {
    Empty,
    Border,
    Wall,
    Sand,
    Water,
    Mud(Wetness),
    Acid,
    Soil,
    Grass,
    GrassTip,
    WaterGrass(Height),
    Flower(FlowerColor),
    Salt,
    SaltWater,
    Steam,
    Lava,
    Stone,
    Fire,
    BlueFire,
    Ice,
    Clone(Option<CloneId>),
}

/// A Mud cell converts to Soil at this wetness.
pub const MAX_WETNESS: u8 = 2;
/// A WaterGrass cell stops growing at this height.
pub const MAX_WATER_GRASS_HEIGHT: u8 = 30;

impl Species {
    /// The value `decr` leaves behind: a payload-carrying species with its
    /// payload lowered by one, floored at zero.
    pub open spec fn spec_decr(self) -> Species {
        match self {
            Species::Mud(w) => if w > 0 { Species::Mud((w - 1) as u8) } else { self },
            Species::WaterGrass(h) => if h > 0 { Species::WaterGrass((h - 1) as u8) } else { self },
            _ => self,
        }
    }

    /// The value `incr` leaves behind: a payload-carrying species with its
    /// payload raised by one, capped at 255.
    pub open spec fn spec_incr(self) -> Species {
        match self {
            Species::Mud(w) => if w < 255 { Species::Mud((w + 1) as u8) } else { self },
            Species::WaterGrass(h) => if h < 255 { Species::WaterGrass((h + 1) as u8) } else { self },
            _ => self,
        }
    }

    /// Lowers a Mud or WaterGrass payload by one, floored at zero.
    pub fn decr(&mut self)
        ensures
            *final(self) == old(self).spec_decr(),
    {
        match self {
            Species::Mud(wetness) => {
                if *wetness > 0 {
                    *wetness = *wetness - 1;
                }
            }
            Species::WaterGrass(height) => {
                if *height > 0 {
                    *height = *height - 1;
                }
            }
            _ => {}
        }
    }

    /// Raises a Mud or WaterGrass payload by one, capped at 255.
    pub fn incr(&mut self)
        ensures
            *final(self) == old(self).spec_incr(),
    {
        match self {
            Species::Mud(wetness) => {
                if *wetness < 255 {
                    *wetness = *wetness + 1;
                }
            }
            Species::WaterGrass(height) => {
                if *height < 255 {
                    *height = *height + 1;
                }
            }
            _ => {}
        }
    }

    /// The species' ambient equilibrium heat, toward which an isolated cell
    /// drifts, and the heat a freshly constructed cell starts with.
    pub open spec fn spec_starting_temp(&self) -> i16 {
        match self {
            Species::Lava => 5000i16,
            Species::Fire => 800i16,
            Species::BlueFire => 3000i16,
            Species::Ice => -160i16,
            _ => 20i16,
        }
    }

    /// The species' ambient/starting heat.
    #[verifier::when_used_as_spec(spec_starting_temp)]
    pub fn starting_temp(&self) -> (r: i16)
        ensures
            r == self.spec_starting_temp(),
    {
        match self {
            Species::Lava => 5000,
            Species::Fire => 800,
            Species::BlueFire => 3000,
            Species::Ice => -160,
            _ => 20,
        }
    }
}

/// One grid slot's material state.
#[derive(Clone, Copy, Debug, PartialEq, Eq, Structural)]
pub struct Cell {
    pub species: Species,
    pub clock: bool,
    pub heat: i16,
    pub grain: u8,
}

/// The construction-time default cell filling a fresh grid: Empty species,
/// clock clear, zero heat, zero grain.
pub open spec fn spec_empty() -> Cell {
    Cell { species: Species::Empty, clock: false, heat: 0, grain: 0 }
}

/// The construction-time default cell filling a fresh grid.
#[verifier::when_used_as_spec(spec_empty)]
pub fn empty_cell() -> (r: Cell)
    ensures
        r == spec_empty(),
{
    Cell { species: Species::Empty, clock: false, heat: 0, grain: 0 }
}

impl Cell {
    /// `c` with only the species replaced.
    pub open spec fn spec_with_species(self, s: Species) -> Cell {
        Cell { species: s, clock: self.clock, heat: self.heat, grain: self.grain }
    }

    /// A fresh, unclocked cell of the given species at its starting heat.
    /// The grain is a random byte from the ambient source.
    pub fn new(species: Species) -> (r: Cell)
        ensures
            r.species == species,
            r.clock == false,
            r.heat == species.spec_starting_temp(),
    {
        let heat = species.starting_temp();
        Cell { species, clock: false, heat, grain: ambient_byte() }
    }

    pub open spec fn spec_is_liquid(&self) -> bool {
        matches!(self.species, Species::Water | Species::Acid | Species::Lava | Species::SaltWater)
    }

    /// Liquids share the lateral-flow movement rule.
    #[verifier::when_used_as_spec(spec_is_liquid)]
    pub fn is_liquid(&self) -> (r: bool)
        ensures
            r == self.spec_is_liquid(),
    {
        matches!(self.species, Species::Water | Species::Acid | Species::Lava | Species::SaltWater)
    }

    pub open spec fn spec_is_gas(&self) -> bool {
        matches!(self.species, Species::Steam)
    }

    /// Gases diffuse over the whole Moore neighborhood.
    #[verifier::when_used_as_spec(spec_is_gas)]
    pub fn is_gas(&self) -> (r: bool)
        ensures
            r == self.spec_is_gas(),
    {
        matches!(self.species, Species::Steam)
    }

    pub open spec fn spec_is_fluid(&self) -> bool {
        self.spec_is_liquid() || self.spec_is_gas() || matches!(self.species, Species::Empty)
    }

    /// A fluid cell (liquid, gas or empty space) can be displaced by a
    /// falling cell.
    #[verifier::when_used_as_spec(spec_is_fluid)]
    pub fn is_fluid(&self) -> (r: bool)
        ensures
            r == self.spec_is_fluid(),
    {
        if self.is_liquid() || self.is_gas() {
            return true;
        }
        matches!(self.species, Species::Empty)
    }

    pub open spec fn spec_is_solid(&self) -> bool {
        matches!(self.species, Species::Wall | Species::Border | Species::Stone | Species::Ice)
    }

    /// Immobile solids: walls, borders, stone and ice.
    #[verifier::when_used_as_spec(spec_is_solid)]
    pub fn is_solid(&self) -> (r: bool)
        ensures
            r == self.spec_is_solid(),
    {
        matches!(self.species, Species::Wall | Species::Border | Species::Stone | Species::Ice)
    }

    pub open spec fn spec_is_corrodable(&self) -> bool {
        !self.spec_is_gas() && !matches!(
            self.species,
            Species::Empty | Species::Wall | Species::Border | Species::Acid | Species::Clone(_),
        )
    }

    /// Whether acid can eat this cell away.
    #[verifier::when_used_as_spec(spec_is_corrodable)]
    pub fn is_corrodable(&self) -> (r: bool)
        ensures
            r == self.spec_is_corrodable(),
    {
        !self.is_gas() && !matches!(
            self.species,
            Species::Empty | Species::Wall | Species::Border | Species::Acid | Species::Clone(_),
        )
    }

    pub open spec fn spec_liquid_destroyable(&self) -> bool {
        matches!(self.species, Species::Grass | Species::GrassTip | Species::Flower(_))
    }

    /// Growth that an adjacent liquid washes away.
    #[verifier::when_used_as_spec(spec_liquid_destroyable)]
    pub fn liquid_destroyable(&self) -> (r: bool)
        ensures
            r == self.spec_liquid_destroyable(),
    {
        matches!(self.species, Species::Grass | Species::GrassTip | Species::Flower(_))
    }

    pub open spec fn spec_turns_to_lava(&self) -> bool {
        matches!(
            self.species,
            Species::Sand | Species::Mud(_) | Species::Salt | Species::Soil | Species::Stone,
        )
    }

    /// Minerals that may melt into Lava under extreme heat.
    #[verifier::when_used_as_spec(spec_turns_to_lava)]
    pub fn turns_to_lava(&self) -> (r: bool)
        ensures
            r == self.spec_turns_to_lava(),
    {
        matches!(
            self.species,
            Species::Sand | Species::Mud(_) | Species::Salt | Species::Soil | Species::Stone,
        )
    }

    pub open spec fn spec_is_flammable(&self) -> bool {
        matches!(self.species, Species::Grass | Species::GrassTip | Species::Flower(_))
    }

    /// Growth that ignites under an ignition-threshold heat.
    #[verifier::when_used_as_spec(spec_is_flammable)]
    pub fn is_flammable(&self) -> (r: bool)
        ensures
            r == self.spec_is_flammable(),
    {
        matches!(self.species, Species::Grass | Species::GrassTip | Species::Flower(_))
    }

    pub open spec fn spec_douses_fire(&self) -> bool {
        !self.spec_is_solid() && !self.spec_is_flammable() && !matches!(
            self.species,
            Species::Empty | Species::Fire | Species::BlueFire,
        )
    }

    /// A cell of this kind directly above a fire puts it out.
    #[verifier::when_used_as_spec(spec_douses_fire)]
    pub fn douses_fire(&self) -> (r: bool)
        ensures
            r == self.spec_douses_fire(),
    {
        !self.is_solid() && !self.is_flammable() && !matches!(
            self.species,
            Species::Empty | Species::Fire | Species::BlueFire,
        )
    }

    pub open spec fn spec_is_cold(&self) -> bool {
        matches!(self.species, Species::Ice)
    }

    /// Species whose equilibrium lies below the freezing point.
    #[verifier::when_used_as_spec(spec_is_cold)]
    pub fn is_cold(&self) -> (r: bool)
        ensures
            r == self.spec_is_cold(),
    {
        matches!(self.species, Species::Ice)
    }

    /// Draws a fresh grain from the ambient source. Used only by painting, so
    /// that a stroke of one brush cell does not look uniform.
    pub fn regrain(&mut self)
        ensures
            final(self).species == old(self).species,
            final(self).clock == old(self).clock,
            final(self).heat == old(self).heat,
    {
        self.grain = ambient_byte();
    }

    /// A fully dry Mud cell.
    pub fn mud() -> (r: Cell)
        ensures
            r.species == Species::Mud(0),
            r.clock == false,
            r.heat == Species::Mud(0).spec_starting_temp(),
    {
        Cell::new(Species::Mud(0))
    }

    /// An unbound Clone cell, ready to register its first eligible neighbor.
    pub fn unbound_clone() -> (r: Cell)
        ensures
            r.species == Species::Clone(None),
            r.clock == false,
            r.heat == Species::Clone(None).spec_starting_temp(),
    {
        Cell::new(Species::Clone(None))
    }

    /// A Flower cell of a color drawn from the ambient source.
    pub fn flower() -> (r: Cell)
        ensures
            r.species matches Species::Flower(_),
            r.clock == false,
            r.heat == 20,
    {
        let pick = crate::rng::ambient_color_pick();
        let color = if pick == 0 {
            FlowerColor::Red
        } else if pick == 1 {
            FlowerColor::Blue
        } else if pick == 2 {
            FlowerColor::Yellow
        } else if pick == 3 {
            FlowerColor::Magenta
        } else {
            FlowerColor::White
        };
        Cell::new(Species::Flower(color))
    }

    /// A zero-height WaterGrass cell.
    pub fn water_grass() -> (r: Cell)
        ensures
            r.species == Species::WaterGrass(0),
            r.clock == false,
            r.heat == Species::WaterGrass(0).spec_starting_temp(),
    {
        Cell::new(Species::WaterGrass(0))
    }
}

/// Clips an unbounded heat value into the representable range: heat
/// arithmetic saturates at the type's limits instead of wrapping.
pub open spec fn sat_heat(v: int) -> i16 {
    if v > 32767 {
        32767i16
    } else if v < -32768 {
        -32768i16
    } else {
        v as i16
    }
}

/// Saturating heat addition.
pub fn heat_add(h: i16, d: i16) -> (r: i16)
    ensures
        r == sat_heat(h as int + d as int),
{
    let v: i32 = h as i32 + d as i32;
    if v > 32767 {
        32767
    } else if v < -32768 {
        -32768
    } else {
        v as i16
    }
}

/// What the ignition check makes of a cell, before the heat exchange:
/// flammable material becomes BlueFire at the higher threshold, Fire at the
/// lower one, and anything else is untouched.
pub open spec fn spec_ignite(c: Cell) -> Cell {
    if c.spec_is_flammable() && c.heat >= 3000 {
        c.spec_with_species(Species::BlueFire)
    } else if c.spec_is_flammable() && c.heat >= 800 {
        c.spec_with_species(Species::Fire)
    } else {
        c
    }
}

/// The isolated cell's drift toward its species' ambient temperature: cool
/// by three above ambient, warm by one below it.
pub open spec fn spec_ambient_drift(c: Cell) -> Cell {
    let ambient = c.species.spec_starting_temp();
    if c.heat > ambient {
        Cell { species: c.species, clock: c.clock, heat: (c.heat - 3) as i16, grain: c.grain }
    } else if c.heat < ambient {
        Cell { species: c.species, clock: c.clock, heat: (c.heat + 1) as i16, grain: c.grain }
    } else {
        c
    }
}

/// `c` with its clock flag set: the value handed to a species rule.
pub open spec fn spec_clocked(c: Cell) -> Cell {
    Cell { species: c.species, clock: true, heat: c.heat, grain: c.grain }
}

/// `c` with its heat replaced.
pub open spec fn spec_with_heat(c: Cell, heat: i16) -> Cell {
    Cell { species: c.species, clock: c.clock, heat, grain: c.grain }
}

/// Adds a cell's grain texture to one color channel: the channel value is
/// first capped so that the addition cannot overflow, then raised by the
/// grain modulo the maximum grain amount.
pub fn apply_grain(value: u8, grain: u8, max_grain_amount: u8) -> (r: u8)
    requires
        max_grain_amount >= 1,
    ensures
        r == (if value > 255 - max_grain_amount {
            (255 - max_grain_amount) as int
        } else {
            value as int
        }) + (grain as int) % (max_grain_amount as int),
{
    let mut value = value;
    if value > 255 - max_grain_amount {
        value = 255 - max_grain_amount;
    }
    value + grain % max_grain_amount
}

/// Saturating heat subtraction.
pub fn heat_sub(h: i16, d: i16) -> (r: i16)
    ensures
        r == sat_heat(h as int - d as int),
{
    let v: i32 = h as i32 - d as i32;
    if v > 32767 {
        32767
    } else if v < -32768 {
        -32768
    } else {
        v as i16
    }
}

impl Default for Cell {
    /// The default cell is the Empty cell at its starting heat.
    fn default() -> (r: Cell)
        ensures
            r.species == Species::Empty,
            r.clock == false,
            r.heat == 20,
    {
        Cell::new(Species::Empty)
    }
}

} // verus!
