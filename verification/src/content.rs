//! Content data: blocks and units by their numbers.
//!
//! Numbers with a fraction are the bits of single-precision values. Liquid amounts are those
//! of one craft: the rate of a tick times the craft time.

use crate::float_bits::ZERO;
use vstd::prelude::*;

verus! {

// ---------------------------------------------------------------------------
// Transport.

/// The blocks whose transport speed this table holds. Other blocks move items too.
pub open spec fn speed_is_listed(block: i16) -> bool {
    block == 257 || block == 258 || block == 260 || block == 266
}

/// How far a block moves its items in a tick, as a part of the way through it.
pub open spec fn listed_speed(block: i16) -> u32 {
    if block == 257 {
        0x3D3C_6A7F
    } else if block == 258 {
        0x3DA4_0B78
    } else if block == 260 {
        0x3DA3_D70A
    } else {
        0x3E00_0000
    }
}

/// Whether the table holds the transport speed of a block.
pub fn has_listed_speed(block: i16) -> (r: bool)
    ensures
        r == speed_is_listed(block),
{
    matches!(block, 257 | 258 | 260 | 266)
}

/// How far a block moves its items in a tick: 0.046, 0.0801 and 0.08 of a belt, and an
/// eighth of a router, which an item leaves every eight ticks.
pub fn item_transport_speed(block: i16) -> (r: Option<u32>)
    requires
        speed_is_listed(block),
    ensures
        r == Some(listed_speed(block)),
{
    match block {
        257 => Some(0x3D3C_6A7F),
        258 => Some(0x3DA4_0B78),
        260 => Some(0x3DA3_D70A),
        _ => Some(0x3E00_0000),
    }
}

pub open spec fn erekir_duct(block: i16) -> bool {
    272 <= block <= 278 || block == 280
}

/// Whether a block is a duct or a duct-like router.
pub fn is_erekir_duct_block(block: i16) -> (r: bool)
    ensures
        r == erekir_duct(block),
{
    (272 <= block && block <= 278) || block == 280
}

/// Whether a block is the surge conveyor.
pub fn is_erekir_conveyor_block(block: i16) -> (r: bool)
    ensures
        r == (block == 279),
{
    block == 279
}

/// How many ticks a duct takes for an item.
pub open spec fn duct_ticks(block: i16) -> u32 {
    if block == 280 { 0x40C0_0000 } else { 0x4080_0000 }
}

/// How many ticks a duct takes for an item: four, and six for the surge router.
pub fn duct_speed(block: i16) -> (r: u32)
    requires
        erekir_duct(block),
    ensures
        r == duct_ticks(block),
{
    if block == 280 { 0x40C0_0000 } else { 0x4080_0000 }
}

// ---------------------------------------------------------------------------
// Crafters with liquids.

/// What a crafter takes and gives of liquids in one craft, and the item it makes. A crafter
/// that takes no liquid has an input of 0.
#[derive(Clone, Copy, Debug, PartialEq, Eq)]
pub struct LiquidFactoryRecipe {
    pub craft_time: u32,
    pub item_output: Option<i16>,
    pub liquid_input: (i16, u32),
    pub liquid_output: Option<(i16, u32)>,
}

pub open spec fn spec_liquid_factory_recipe(block: i16) -> Option<LiquidFactoryRecipe> {
    if block == 182 {
        Some(
            LiquidFactoryRecipe {
                craft_time: 0x41F0_0000,
                item_output: Some(3),
                liquid_input: (0, 0x4040_0000),
                liquid_output: None,
            },
        )
    } else if block == 186 {
        Some(
            LiquidFactoryRecipe {
                craft_time: 0x4270_0000,
                item_output: Some(10),
                liquid_input: (2, 0x4170_0000),
                liquid_output: None,
            },
        )
    } else if block == 189 {
        Some(
            LiquidFactoryRecipe {
                craft_time: 0x42F0_0000,
                item_output: None,
                liquid_input: (0, 0x41C0_0000),
                liquid_output: Some((3, 0x41C0_0000)),
            },
        )
    } else if block == 192 {
        Some(
            LiquidFactoryRecipe {
                craft_time: 0x4120_0000,
                item_output: None,
                liquid_input: (-1i16, ZERO),
                liquid_output: Some((1, 0x4000_0000)),
            },
        )
    } else if block == 195 {
        Some(
            LiquidFactoryRecipe {
                craft_time: 0x41A0_0000,
                item_output: None,
                liquid_input: (-1i16, ZERO),
                liquid_output: Some((2, 0x40C0_0000)),
            },
        )
    } else if block == 197 {
        Some(
            LiquidFactoryRecipe {
                craft_time: 0x41F0_0000,
                item_output: Some(5),
                liquid_input: (2, 0x4040_0000),
                liquid_output: None,
            },
        )
    } else if block == 211 {
        Some(
            LiquidFactoryRecipe {
                craft_time: 0x42F0_0000,
                item_output: None,
                liquid_input: (1, 0x42A0_0000),
                liquid_output: Some((5, 0x4000_0000)),
            },
        )
    } else if block == 330 {
        Some(
            LiquidFactoryRecipe {
                craft_time: 0x42C8_0000,
                item_output: Some(13),
                liquid_input: (0, 0x41F0_0001),
                liquid_output: None,
            },
        )
    } else if block == 331 {
        Some(
            LiquidFactoryRecipe {
                craft_time: 0x4270_0000,
                item_output: None,
                liquid_input: (0, 0x4110_0000),
                liquid_output: Some((2, 0x4170_0000)),
            },
        )
    } else {
        None
    }
}

/// The crafters with liquids that this table holds. Others may have a recipe too.
pub open spec fn liquid_factory_is_listed(block: i16) -> bool {
    spec_liquid_factory_recipe(block) is Some
}

/// The recipe of a crafter with liquids.
pub fn liquid_factory_recipe(block: i16) -> (r: Option<LiquidFactoryRecipe>)
    requires
        liquid_factory_is_listed(block),
    ensures
        r == spec_liquid_factory_recipe(block),
{
    match block {
        // multi press
        182 => Some(
            LiquidFactoryRecipe {
                craft_time: 0x41F0_0000,
                item_output: Some(3),
                liquid_input: (0, 0x4040_0000),
                liquid_output: None,
            },
        ),
        // plastanium compressor
        186 => Some(
            LiquidFactoryRecipe {
                craft_time: 0x4270_0000,
                item_output: Some(10),
                liquid_input: (2, 0x4170_0000),
                liquid_output: None,
            },
        ),
        // cryofluid mixer
        189 => Some(
            LiquidFactoryRecipe {
                craft_time: 0x42F0_0000,
                item_output: None,
                liquid_input: (0, 0x41C0_0000),
                liquid_output: Some((3, 0x41C0_0000)),
            },
        ),
        // melter
        192 => Some(
            LiquidFactoryRecipe {
                craft_time: 0x4120_0000,
                item_output: None,
                liquid_input: (-1i16, ZERO),
                liquid_output: Some((1, 0x4000_0000)),
            },
        ),
        // spore press
        195 => Some(
            LiquidFactoryRecipe {
                craft_time: 0x41A0_0000,
                item_output: None,
                liquid_input: (-1i16, ZERO),
                liquid_output: Some((2, 0x40C0_0000)),
            },
        ),
        // coal centrifuge
        197 => Some(
            LiquidFactoryRecipe {
                craft_time: 0x41F0_0000,
                item_output: Some(5),
                liquid_input: (2, 0x4040_0000),
                liquid_output: None,
            },
        ),
        // slag centrifuge
        211 => Some(
            LiquidFactoryRecipe {
                craft_time: 0x42F0_0000,
                item_output: None,
                liquid_input: (1, 0x42A0_0000),
                liquid_output: Some((5, 0x4000_0000)),
            },
        ),
        // cultivator
        330 => Some(
            LiquidFactoryRecipe {
                craft_time: 0x42C8_0000,
                item_output: Some(13),
                liquid_input: (0, 0x41F0_0001),
                liquid_output: None,
            },
        ),
        // oil extractor
        331 => Some(
            LiquidFactoryRecipe {
                craft_time: 0x4270_0000,
                item_output: None,
                liquid_input: (0, 0x4110_0000),
                liquid_output: Some((2, 0x4170_0000)),
            },
        ),
        _ => None,
    }
}

// ---------------------------------------------------------------------------
// Separators.

/// What a separator takes and gives. A result comes up as often as its weight says.
pub struct SeparatorSpec {
    pub craft_time: u32,
    pub results: Vec<(i16, i32)>,
    pub liquid_input: (i16, u32),
    pub item_input: Option<i16>,
}

/// The contents of a [`SeparatorSpec`].
pub struct SeparatorView {
    pub craft_time: u32,
    pub results: Seq<(i16, i32)>,
    pub liquid_input: (i16, u32),
    pub item_input: Option<i16>,
}

impl View for SeparatorSpec {
    type V = SeparatorView;

    open spec fn view(&self) -> SeparatorView {
        SeparatorView {
            craft_time: self.craft_time,
            results: self.results@,
            liquid_input: self.liquid_input,
            item_input: self.item_input,
        }
    }
}

pub open spec fn spec_separator(block: i16) -> Option<SeparatorView> {
    if block == 193 {
        Some(
            SeparatorView {
                craft_time: 0x420C_0000,
                results: seq![(0i16, 5i32), (1i16, 3i32), (3i16, 2i32), (6i16, 2i32)],
                liquid_input: (1, 0x4015_5556),
                item_input: None,
            },
        )
    } else if block == 194 {
        Some(
            SeparatorView {
                craft_time: 0x4170_0000,
                results: seq![(4i16, 2i32), (3i16, 1i32), (6i16, 1i32), (7i16, 1i32)],
                liquid_input: (1, 0x3FE6_6666),
                item_input: Some(8),
            },
        )
    } else {
        None
    }
}

/// The separators that this table holds.
pub open spec fn separator_is_listed(block: i16) -> bool {
    spec_separator(block) is Some
}

/// The data of a separator.
pub fn separator_spec(block: i16) -> (r: Option<SeparatorSpec>)
    requires
        separator_is_listed(block),
    ensures
        r matches Some(out) && Some(out@) == spec_separator(block),
{
    let r = match block {
        193 => Some(
            SeparatorSpec {
                craft_time: 0x420C_0000,
                results: vec![(0, 5), (1, 3), (3, 2), (6, 2)],
                liquid_input: (1, 0x4015_5556),
                item_input: None,
            },
        ),
        194 => Some(
            SeparatorSpec {
                craft_time: 0x4170_0000,
                results: vec![(4, 2), (3, 1), (6, 1), (7, 1)],
                liquid_input: (1, 0x3FE6_6666),
                item_input: Some(8),
            },
        ),
        _ => None,
    };
    assert(block == 193 ==> r->Some_0.results@ =~= seq![(0i16, 5i32), (1i16, 3i32), (3i16, 2i32), (6i16, 2i32)]);
    assert(block == 194 ==> r->Some_0.results@ =~= seq![(4i16, 2i32), (3i16, 1i32), (6i16, 1i32), (7i16, 1i32)]);
    r
}

// ---------------------------------------------------------------------------
// Heat.

/// What a block does with heat.
#[derive(Clone, Copy, Debug, PartialEq, Eq, Structural)]
pub enum HeatKind {
    Producer,
    Consumer,
    Conductor,
}

/// A block that makes, needs or leads heat.
pub struct HeatBlockSpec {
    pub kind: HeatKind,
    pub size: u8,
    /// Whether a conductor splits its heat among its sides.
    pub split: bool,
    pub heat_output: u32,
    pub heat_requirement: u32,
    pub craft_time: u32,
    pub item_inputs: Vec<(i16, i32)>,
    pub liquid_input: Option<(i16, u32)>,
    pub item_output: Option<(i16, i32)>,
    pub liquid_output: Option<(i16, u32)>,
    pub power_demand: u32,
}

/// The contents of a [`HeatBlockSpec`].
pub struct HeatBlockView {
    pub kind: HeatKind,
    pub size: u8,
    pub split: bool,
    pub heat_output: u32,
    pub heat_requirement: u32,
    pub craft_time: u32,
    pub item_inputs: Seq<(i16, i32)>,
    pub liquid_input: Option<(i16, u32)>,
    pub item_output: Option<(i16, i32)>,
    pub liquid_output: Option<(i16, u32)>,
    pub power_demand: u32,
}

impl View for HeatBlockSpec {
    type V = HeatBlockView;

    open spec fn view(&self) -> HeatBlockView {
        HeatBlockView {
            kind: self.kind,
            size: self.size,
            split: self.split,
            heat_output: self.heat_output,
            heat_requirement: self.heat_requirement,
            craft_time: self.craft_time,
            item_inputs: self.item_inputs@,
            liquid_input: self.liquid_input,
            item_output: self.item_output,
            liquid_output: self.liquid_output,
            power_demand: self.power_demand,
        }
    }
}

pub open spec fn spec_heat_block(block: i16) -> Option<HeatBlockView> {
    if block == 201 {
        Some(
            HeatBlockView {
                kind: HeatKind::Consumer,
                size: 3,
                split: false,
                heat_output: ZERO,
                heat_requirement: 0x41C0_0000,
                craft_time: 0x42A0_0000,
                item_inputs: Seq::empty(),
                liquid_input: None,
                item_output: None,
                liquid_output: Some((9, 0x41AA_AAAB)),
                power_demand: 0x4000_0000,
            },
        )
    } else if block == 202 {
        Some(
            HeatBlockView {
                kind: HeatKind::Producer,
                size: 3,
                split: false,
                heat_output: 0x40A0_0000,
                heat_requirement: ZERO,
                craft_time: 0x42F0_0000,
                item_inputs: seq![(16i16, 1i32)],
                liquid_input: Some((7, 0x4080_0000)),
                item_output: Some((18, 1)),
                liquid_output: None,
                power_demand: 0x3F00_0000,
            },
        )
    } else if block == 203 {
        Some(
            HeatBlockView {
                kind: HeatKind::Producer,
                size: 2,
                split: false,
                heat_output: 0x4040_0000,
                heat_requirement: ZERO,
                craft_time: ZERO,
                item_inputs: Seq::empty(),
                liquid_input: None,
                item_output: None,
                liquid_output: None,
                power_demand: 0x3FD5_5555,
            },
        )
    } else if block == 204 {
        Some(
            HeatBlockView {
                kind: HeatKind::Producer,
                size: 3,
                split: false,
                heat_output: 0x4100_0000,
                heat_requirement: ZERO,
                craft_time: 0x42A0_0000,
                item_inputs: Seq::empty(),
                liquid_input: Some((1, 0x4255_5556)),
                item_output: None,
                liquid_output: None,
                power_demand: ZERO,
            },
        )
    } else if block == 205 {
        Some(
            HeatBlockView {
                kind: HeatKind::Producer,
                size: 2,
                split: false,
                heat_output: 0x4170_0000,
                heat_requirement: ZERO,
                craft_time: 0x43F0_0000,
                item_inputs: seq![(11i16, 1i32)],
                liquid_input: None,
                item_output: None,
                liquid_output: None,
                power_demand: ZERO,
            },
        )
    } else if block == 206 {
        Some(
            HeatBlockView {
                kind: HeatKind::Conductor,
                size: 3,
                split: false,
                heat_output: ZERO,
                heat_requirement: ZERO,
                craft_time: ZERO,
                item_inputs: Seq::empty(),
                liquid_input: None,
                item_output: None,
                liquid_output: None,
                power_demand: ZERO,
            },
        )
    } else if block == 207 {
        Some(
            HeatBlockView {
                kind: HeatKind::Conductor,
                size: 2,
                split: false,
                heat_output: ZERO,
                heat_requirement: ZERO,
                craft_time: ZERO,
                item_inputs: Seq::empty(),
                liquid_input: None,
                item_output: None,
                liquid_output: None,
                power_demand: ZERO,
            },
        )
    } else if block == 208 {
        Some(
            HeatBlockView {
                kind: HeatKind::Conductor,
                size: 3,
                split: true,
                heat_output: ZERO,
                heat_requirement: ZERO,
                craft_time: ZERO,
                item_inputs: Seq::empty(),
                liquid_input: None,
                item_output: None,
                liquid_output: None,
                power_demand: ZERO,
            },
        )
    } else if block == 210 {
        Some(
            HeatBlockView {
                kind: HeatKind::Consumer,
                size: 3,
                split: false,
                heat_output: ZERO,
                heat_requirement: 0x4220_0000,
                craft_time: 0x4207_0000,
                item_inputs: seq![(17i16, 2i32), (3i16, 3i32)],
                liquid_input: None,
                item_output: Some((19, 1)),
                liquid_output: None,
                power_demand: 0x4000_0000,
            },
        )
    } else if block == 212 {
        Some(
            HeatBlockView {
                kind: HeatKind::Consumer,
                size: 3,
                split: false,
                heat_output: ZERO,
                heat_requirement: 0x4220_0000,
                craft_time: 0x4234_0000,
                item_inputs: seq![(9i16, 3i32)],
                liquid_input: Some((1, 0x42F0_0000)),
                item_output: Some((12, 1)),
                liquid_output: None,
                power_demand: 0x3FC0_0000,
            },
        )
    } else if block == 213 {
        Some(
            HeatBlockView {
                kind: HeatKind::Consumer,
                size: 3,
                split: false,
                heat_output: ZERO,
                heat_requirement: 0x41A0_0000,
                craft_time: 0x42A0_0000,
                item_inputs: seq![(3i16, 1i32)],
                liquid_input: Some((5, 0x4355_5556)),
                item_output: None,
                liquid_output: Some((10, 0x4180_0000)),
                power_demand: 0x4000_0000,
            },
        )
    } else if block == 214 {
        Some(
            HeatBlockView {
                kind: HeatKind::Consumer,
                size: 3,
                split: false,
                heat_output: ZERO,
                heat_requirement: 0x4200_0000,
                craft_time: 0x41F0_0000,
                item_inputs: seq![(7i16, 2i32), (4i16, 6i32)],
                liquid_input: Some((7, 0x4080_0000)),
                item_output: Some((11, 1)),
                liquid_output: None,
                power_demand: 0x4100_0000,
            },
        )
    } else if block == 215 {
        Some(
            HeatBlockView {
                kind: HeatKind::Producer,
                size: 3,
                split: false,
                heat_output: 0x4120_0000,
                heat_requirement: ZERO,
                craft_time: 0x4416_0000,
                item_inputs: seq![(7i16, 3i32)],
                liquid_input: Some((9, 0x4120_0001)),
                item_output: Some((20, 1)),
                liquid_output: None,
                power_demand: ZERO,
            },
        )
    } else {
        None
    }
}

/// The blocks whose heat data this table holds. Others may have such data too.
pub open spec fn heat_block_is_listed(block: i16) -> bool {
    spec_heat_block(block) is Some
}

/// The heat data of a block.
pub fn heat_block_spec(block: i16) -> (r: Option<HeatBlockSpec>)
    requires
        heat_block_is_listed(block),
    ensures
        r matches Some(out) && Some(out@) == spec_heat_block(block),
{
    let r = match block {
        // atmospheric concentrator
        201 => Some(
            HeatBlockSpec {
                kind: HeatKind::Consumer,
                size: 3,
                split: false,
                heat_output: ZERO,
                heat_requirement: 0x41C0_0000,
                craft_time: 0x42A0_0000,
                item_inputs: Vec::new(),
                liquid_input: None,
                item_output: None,
                liquid_output: Some((9, 0x41AA_AAAB)),
                power_demand: 0x4000_0000,
            },
        ),
        // oxidation chamber
        202 => Some(
            HeatBlockSpec {
                kind: HeatKind::Producer,
                size: 3,
                split: false,
                heat_output: 0x40A0_0000,
                heat_requirement: ZERO,
                craft_time: 0x42F0_0000,
                item_inputs: vec![(16, 1)],
                liquid_input: Some((7, 0x4080_0000)),
                item_output: Some((18, 1)),
                liquid_output: None,
                power_demand: 0x3F00_0000,
            },
        ),
        // electric heater
        203 => Some(
            HeatBlockSpec {
                kind: HeatKind::Producer,
                size: 2,
                split: false,
                heat_output: 0x4040_0000,
                heat_requirement: ZERO,
                craft_time: ZERO,
                item_inputs: Vec::new(),
                liquid_input: None,
                item_output: None,
                liquid_output: None,
                power_demand: 0x3FD5_5555,
            },
        ),
        // slag heater
        204 => Some(
            HeatBlockSpec {
                kind: HeatKind::Producer,
                size: 3,
                split: false,
                heat_output: 0x4100_0000,
                heat_requirement: ZERO,
                craft_time: 0x42A0_0000,
                item_inputs: Vec::new(),
                liquid_input: Some((1, 0x4255_5556)),
                item_output: None,
                liquid_output: None,
                power_demand: ZERO,
            },
        ),
        // phase heater
        205 => Some(
            HeatBlockSpec {
                kind: HeatKind::Producer,
                size: 2,
                split: false,
                heat_output: 0x4170_0000,
                heat_requirement: ZERO,
                craft_time: 0x43F0_0000,
                item_inputs: vec![(11, 1)],
                liquid_input: None,
                item_output: None,
                liquid_output: None,
                power_demand: ZERO,
            },
        ),
        // heat redirector
        206 => Some(
            HeatBlockSpec {
                kind: HeatKind::Conductor,
                size: 3,
                split: false,
                heat_output: ZERO,
                heat_requirement: ZERO,
                craft_time: ZERO,
                item_inputs: Vec::new(),
                liquid_input: None,
                item_output: None,
                liquid_output: None,
                power_demand: ZERO,
            },
        ),
        // small heat redirector
        207 => Some(
            HeatBlockSpec {
                kind: HeatKind::Conductor,
                size: 2,
                split: false,
                heat_output: ZERO,
                heat_requirement: ZERO,
                craft_time: ZERO,
                item_inputs: Vec::new(),
                liquid_input: None,
                item_output: None,
                liquid_output: None,
                power_demand: ZERO,
            },
        ),
        // heat router
        208 => Some(
            HeatBlockSpec {
                kind: HeatKind::Conductor,
                size: 3,
                split: true,
                heat_output: ZERO,
                heat_requirement: ZERO,
                craft_time: ZERO,
                item_inputs: Vec::new(),
                liquid_input: None,
                item_output: None,
                liquid_output: None,
                power_demand: ZERO,
            },
        ),
        // carbide crucible
        210 => Some(
            HeatBlockSpec {
                kind: HeatKind::Consumer,
                size: 3,
                split: false,
                heat_output: ZERO,
                heat_requirement: 0x4220_0000,
                craft_time: 0x4207_0000,
                item_inputs: vec![(17, 2), (3, 3)],
                liquid_input: None,
                item_output: Some((19, 1)),
                liquid_output: None,
                power_demand: 0x4000_0000,
            },
        ),
        // surge crucible
        212 => Some(
            HeatBlockSpec {
                kind: HeatKind::Consumer,
                size: 3,
                split: false,
                heat_output: ZERO,
                heat_requirement: 0x4220_0000,
                craft_time: 0x4234_0000,
                item_inputs: vec![(9, 3)],
                liquid_input: Some((1, 0x42F0_0000)),
                item_output: Some((12, 1)),
                liquid_output: None,
                power_demand: 0x3FC0_0000,
            },
        ),
        // cyanogen synthesizer
        213 => Some(
            HeatBlockSpec {
                kind: HeatKind::Consumer,
                size: 3,
                split: false,
                heat_output: ZERO,
                heat_requirement: 0x41A0_0000,
                craft_time: 0x42A0_0000,
                item_inputs: vec![(3, 1)],
                liquid_input: Some((5, 0x4355_5556)),
                item_output: None,
                liquid_output: Some((10, 0x4180_0000)),
                power_demand: 0x4000_0000,
            },
        ),
        // phase synthesizer
        214 => Some(
            HeatBlockSpec {
                kind: HeatKind::Consumer,
                size: 3,
                split: false,
                heat_output: ZERO,
                heat_requirement: 0x4200_0000,
                craft_time: 0x41F0_0000,
                item_inputs: vec![(7, 2), (4, 6)],
                liquid_input: Some((7, 0x4080_0000)),
                item_output: Some((11, 1)),
                liquid_output: None,
                power_demand: 0x4100_0000,
            },
        ),
        // heat reactor
        215 => Some(
            HeatBlockSpec {
                kind: HeatKind::Producer,
                size: 3,
                split: false,
                heat_output: 0x4120_0000,
                heat_requirement: ZERO,
                craft_time: 0x4416_0000,
                item_inputs: vec![(7, 3)],
                liquid_input: Some((9, 0x4120_0001)),
                item_output: Some((20, 1)),
                liquid_output: None,
                power_demand: ZERO,
            },
        ),
        _ => None,
    };
    assert(block == 202 ==> r->Some_0.item_inputs@ =~= seq![(16i16, 1i32)]);
    assert(block == 205 ==> r->Some_0.item_inputs@ =~= seq![(11i16, 1i32)]);
    assert(block == 210 ==> r->Some_0.item_inputs@ =~= seq![(17i16, 2i32), (3i16, 3i32)]);
    assert(block == 212 ==> r->Some_0.item_inputs@ =~= seq![(9i16, 3i32)]);
    assert(block == 213 ==> r->Some_0.item_inputs@ =~= seq![(3i16, 1i32)]);
    assert(block == 214 ==> r->Some_0.item_inputs@ =~= seq![(7i16, 2i32), (4i16, 6i32)]);
    assert(block == 215 ==> r->Some_0.item_inputs@ =~= seq![(7i16, 3i32)]);
    r
}

// ---------------------------------------------------------------------------
// Beam drills.

/// A drill that mines walls with a beam.
#[derive(Clone, Copy, Debug, PartialEq, Eq, Structural)]
pub struct ErekirDrillSpec {
    pub tier: u8,
    pub drill_time: u32,
    pub size: u8,
    pub range: i32,
    pub booster_liquid: i16,
    pub item_capacity: i32,
}

pub open spec fn spec_erekir_drill(block: i16) -> Option<ErekirDrillSpec> {
    if block == 335 {
        Some(
            ErekirDrillSpec {
                tier: 3,
                drill_time: 0x4320_0000,
                size: 2,
                range: 5,
                booster_liquid: 8,
                item_capacity: 10,
            },
        )
    } else if block == 336 {
        Some(
            ErekirDrillSpec {
                tier: 5,
                drill_time: 0x42C8_0000,
                size: 3,
                range: 6,
                booster_liquid: 9,
                item_capacity: 20,
            },
        )
    } else {
        None
    }
}

/// The blocks of which this table says whether they are beam drills.
pub open spec fn erekir_drill_is_listed(block: i16) -> bool {
    335 <= block <= 337
}

/// The data of a beam drill: the plasma bore with hydrogen as its booster, and the large one
/// with nitrogen. The block after them is none.
pub fn erekir_drill_spec(block: i16) -> (r: Option<ErekirDrillSpec>)
    requires
        erekir_drill_is_listed(block),
    ensures
        r == spec_erekir_drill(block),
{
    match block {
        335 => Some(
            ErekirDrillSpec {
                tier: 3,
                drill_time: 0x4320_0000,
                size: 2,
                range: 5,
                booster_liquid: 8,
                item_capacity: 10,
            },
        ),
        336 => Some(
            ErekirDrillSpec {
                tier: 5,
                drill_time: 0x42C8_0000,
                size: 3,
                range: 6,
                booster_liquid: 9,
                item_capacity: 20,
            },
        ),
        _ => None,
    }
}

// ---------------------------------------------------------------------------
// Unit factories.

/// What a fabricator builds, for how long, and of what.
pub struct UnitFactoryRecipe {
    pub unit_type: i16,
    pub build_time: u32,
    pub requirements: Vec<(i16, i32)>,
}

/// The contents of a [`UnitFactoryRecipe`].
pub struct UnitFactoryView {
    pub unit_type: i16,
    pub build_time: u32,
    pub requirements: Seq<(i16, i32)>,
}

impl View for UnitFactoryRecipe {
    type V = UnitFactoryView;

    open spec fn view(&self) -> UnitFactoryView {
        UnitFactoryView {
            unit_type: self.unit_type,
            build_time: self.build_time,
            requirements: self.requirements@,
        }
    }
}

pub open spec fn spec_fabricator(block: i16) -> Option<UnitFactoryView> {
    if block == 386 {
        Some(
            UnitFactoryView {
                unit_type: 38,
                build_time: 0x4503_4000,
                requirements: seq![(16i16, 40i32), (9i16, 50i32)],
            },
        )
    } else if block == 387 {
        Some(
            UnitFactoryView {
                unit_type: 49,
                build_time: 0x4516_0000,
                requirements: seq![(3i16, 50i32), (9i16, 70i32)],
            },
        )
    } else if block == 388 {
        Some(
            UnitFactoryView {
                unit_type: 43,
                build_time: 0x4516_0000,
                requirements: seq![(16i16, 50i32), (9i16, 70i32)],
            },
        )
    } else {
        None
    }
}

/// The fabricators whose plan this table holds. Other unit factories have plans too.
pub open spec fn fabricator_is_listed(block: i16) -> bool {
    spec_fabricator(block) is Some
}

/// The ground factory.
pub const GROUND_FACTORY: i16 = 377;

/// The configuration of a unit factory whose plan was taken back: the integer -1.
pub open spec fn deselected() -> Seq<u8> {
    seq![1u8, 255, 255, 255, 255]
}

/// Whether this table says what a unit factory with a configuration builds: a fabricator that
/// was never configured, and a ground factory whose plan was taken back.
pub open spec fn plan_is_listed(block: i16, config: Seq<u8>) -> bool {
    ||| fabricator_is_listed(block) && config.len() == 0
    ||| block == GROUND_FACTORY && config == deselected()
}

/// What a unit factory builds. Without a configuration that is its first plan; a plan that
/// was taken back does not fall back to it.
pub open spec fn selected_plan(block: i16, config: Seq<u8>) -> Option<UnitFactoryView> {
    if config.len() == 0 { spec_fabricator(block) } else { None }
}

/// What a unit factory with a configuration builds.
pub fn unit_factory_recipe(block: i16, config: &[u8]) -> (r: Option<UnitFactoryRecipe>)
    requires
        plan_is_listed(block, config@),
    ensures
        match selected_plan(block, config@) {
            Some(v) => r matches Some(out) && out@ == v,
            None => r is None,
        },
{
    if config.len() > 0 {
        return None;
    }
    let r = match block {
        // tank fabricator
        386 => Some(
            UnitFactoryRecipe {
                unit_type: 38,
                build_time: 0x4503_4000,
                requirements: vec![(16, 40), (9, 50)],
            },
        ),
        // ship fabricator
        387 => Some(
            UnitFactoryRecipe {
                unit_type: 49,
                build_time: 0x4516_0000,
                requirements: vec![(3, 50), (9, 70)],
            },
        ),
        // mech fabricator
        388 => Some(
            UnitFactoryRecipe {
                unit_type: 43,
                build_time: 0x4516_0000,
                requirements: vec![(16, 50), (9, 70)],
            },
        ),
        _ => None,
    };
    assert(block == 386 ==> r->Some_0.requirements@ =~= seq![(16i16, 40i32), (9i16, 50i32)]);
    assert(block == 387 ==> r->Some_0.requirements@ =~= seq![(3i16, 50i32), (9i16, 70i32)]);
    assert(block == 388 ==> r->Some_0.requirements@ =~= seq![(16i16, 50i32), (9i16, 70i32)]);
    r
}

/// How much of an item a list asks for, by its first entry.
pub open spec fn asked_for(list: Seq<(i16, i32)>, item: i16) -> int
    decreases list.len(),
{
    if list.len() == 0 {
        0
    } else if list[0].0 == item {
        list[0].1 as int
    } else {
        asked_for(list.skip(1), item)
    }
}

/// How much of an item a fabricator holds; see [`unit_factory_item_capacity`].
pub open spec fn fabricator_capacity(block: i16, item: i16) -> int {
    match spec_fabricator(block) {
        Some(v) => 2 * asked_for(v.requirements, item),
        None => 0,
    }
}

/// How much of an item a fabricator holds: twice what its plan needs.
pub fn unit_factory_item_capacity(block: i16, item: i16) -> (r: i32)
    requires
        fabricator_is_listed(block),
    ensures
        r == fabricator_capacity(block, item),
{
    reveal_with_fuel(asked_for, 3);
    match unit_factory_recipe(block, &[]) {
        Some(recipe) => {
            let list = &recipe.requirements;
            assert(list@.skip(1).skip(1) =~= Seq::empty());
            if list[0].0 == item {
                list[0].1 * 2
            } else if list[1].0 == item {
                list[1].1 * 2
            } else {
                0
            }
        },
        None => 0,
    }
}

// ---------------------------------------------------------------------------
// Units.

/// A unit type: its entity class and health, and its speed and attack damage where they are
/// kept here.
#[derive(Clone, Copy, Debug, PartialEq, Eq, Structural)]
pub struct EnemySpec {
    pub unit_type: i16,
    pub entity_class: u8,
    pub health: u32,
    pub speed: Option<u32>,
    pub attack_damage: Option<u32>,
}

pub open spec fn spec_enemy(unit_type: i16) -> Option<EnemySpec> {
    if unit_type == 38 {
        Some(
            EnemySpec {
                unit_type: 38,
                entity_class: 43,
                health: 0x4454_8000,
                speed: Some(0x3F40_0000),
                attack_damage: None,
            },
        )
    } else if unit_type == 39 {
        Some(
            EnemySpec {
                unit_type: 39,
                entity_class: 43,
                health: 0x4503_4000,
                speed: None,
                attack_damage: None,
            },
        )
    } else if unit_type == 41 {
        Some(
            EnemySpec {
                unit_type: 41,
                entity_class: 43,
                health: 0x462B_E000,
                speed: Some(0x3F21_47AE),
                attack_damage: None,
            },
        )
    } else if unit_type == 42 {
        Some(
            EnemySpec {
                unit_type: 42,
                entity_class: 43,
                health: 0x46AB_E000,
                speed: Some(0x3EF5_C28F),
                attack_damage: None,
            },
        )
    } else if unit_type == 43 {
        Some(
            EnemySpec {
                unit_type: 43,
                entity_class: 24,
                health: 0x442A_0000,
                speed: None,
                attack_damage: None,
            },
        )
    } else if unit_type == 44 {
        Some(
            EnemySpec {
                unit_type: 44,
                entity_class: 24,
                health: 0x4489_8000,
                speed: Some(0x3F19_999A),
                attack_damage: None,
            },
        )
    } else if unit_type == 45 {
        Some(
            EnemySpec {
                unit_type: 45,
                entity_class: 24,
                health: 0x4528_C000,
                speed: Some(0x3F26_6666),
                attack_damage: Some(0x3FC0_0000),
            },
        )
    } else if unit_type == 46 {
        Some(
            EnemySpec {
                unit_type: 46,
                entity_class: 39,
                health: 0x425C_0000,
                speed: Some(0x4056_6666),
                attack_damage: Some(0x430C_0000),
            },
        )
    } else if unit_type == 47 {
        Some(
            EnemySpec {
                unit_type: 47,
                entity_class: 24,
                health: 0x45CB_2000,
                speed: Some(0x3F19_999A),
                attack_damage: None,
            },
        )
    } else if unit_type == 48 {
        Some(
            EnemySpec {
                unit_type: 48,
                entity_class: 24,
                health: 0x468C_A000,
                speed: Some(0x3F8C_CCCD),
                attack_damage: None,
            },
        )
    } else if unit_type == 49 {
        Some(
            EnemySpec {
                unit_type: 49,
                entity_class: 45,
                health: 0x4416_0000,
                speed: Some(0x3FE6_6666),
                attack_damage: None,
            },
        )
    } else if unit_type == 52 {
        Some(
            EnemySpec {
                unit_type: 52,
                entity_class: 5,
                health: 0x45BB_8000,
                speed: None,
                attack_damage: None,
            },
        )
    } else if unit_type == 53 {
        Some(
            EnemySpec {
                unit_type: 53,
                entity_class: 39,
                health: 0x4234_0000,
                speed: Some(0x4089_999A),
                attack_damage: Some(0x42DC_0000),
            },
        )
    } else if unit_type == 55 {
        Some(
            EnemySpec {
                unit_type: 55,
                entity_class: 39,
                health: 0x428C_0000,
                speed: Some(0x4093_3333),
                attack_damage: Some(0x430C_0000),
            },
        )
    } else if unit_type == 56 {
        Some(
            EnemySpec {
                unit_type: 56,
                entity_class: 46,
                health: 0x43FA_0000,
                speed: Some(0x3F99_999A),
                attack_damage: None,
            },
        )
    } else if unit_type == 57 {
        Some(
            EnemySpec {
                unit_type: 57,
                entity_class: 46,
                health: 0x469C_4000,
                speed: Some(0x3F80_0000),
                attack_damage: None,
            },
        )
    } else if unit_type == 58 {
        Some(
            EnemySpec {
                unit_type: 58,
                entity_class: 5,
                health: 0x4396_0000,
                speed: Some(0x40B3_3333),
                attack_damage: Some(ZERO),
            },
        )
    } else if unit_type == 59 {
        Some(
            EnemySpec {
                unit_type: 59,
                entity_class: 5,
                health: 0x43FA_0000,
                speed: Some(0x40E0_0000),
                attack_damage: Some(ZERO),
            },
        )
    } else if unit_type == 60 {
        Some(
            EnemySpec {
                unit_type: 60,
                entity_class: 5,
                health: 0x442F_0000,
                speed: Some(0x40F0_0000),
                attack_damage: Some(ZERO),
            },
        )
    } else if unit_type == 61 {
        Some(
            EnemySpec {
                unit_type: 61,
                entity_class: 2,
                health: 0x3F80_0000,
                speed: Some(ZERO),
                attack_damage: Some(ZERO),
            },
        )
    } else if unit_type == 62 {
        Some(
            EnemySpec {
                unit_type: 62,
                entity_class: 36,
                health: 0x4348_0000,
                speed: Some(0x4060_0000),
                attack_damage: Some(ZERO),
            },
        )
    } else if unit_type == 63 {
        Some(
            EnemySpec {
                unit_type: 63,
                entity_class: 36,
                health: 0x42B4_0000,
                speed: Some(0x3FA6_6666),
                attack_damage: Some(ZERO),
            },
        )
    } else if unit_type == 64 {
        Some(
            EnemySpec {
                unit_type: 64,
                entity_class: 49,
                health: 0x4348_0000,
                speed: Some(0x3F8C_CCCD),
                attack_damage: Some(ZERO),
            },
        )
    } else if unit_type == 65 {
        Some(
            EnemySpec {
                unit_type: 65,
                entity_class: 39,
                health: 0x4370_0000,
                speed: Some(0x4093_3333),
                attack_damage: Some(0x447A_0000),
            },
        )
    } else if unit_type == 66 {
        Some(
            EnemySpec {
                unit_type: 66,
                entity_class: 39,
                health: 0x43FA_0000,
                speed: Some(0x4020_0000),
                attack_damage: Some(0x43A0_0000),
            },
        )
    } else if unit_type == 67 {
        Some(
            EnemySpec {
                unit_type: 67,
                entity_class: 39,
                health: 0x4396_0000,
                speed: Some(0x408C_CCCD),
                attack_damage: Some(0x44E1_0000),
            },
        )
    } else if unit_type == 68 {
        Some(
            EnemySpec {
                unit_type: 68,
                entity_class: 39,
                health: 0x4248_0000,
                speed: Some(0x4099_999A),
                attack_damage: Some(0x4334_0000),
            },
        )
    } else if unit_type == 69 {
        Some(
            EnemySpec {
                unit_type: 69,
                entity_class: 2,
                health: 0x3F80_0000,
                speed: Some(ZERO),
                attack_damage: Some(ZERO),
            },
        )
    } else {
        None
    }
}

/// The unit types whose data this table holds. Others have data too.
pub open spec fn unit_is_listed(unit_type: i16) -> bool {
    spec_enemy(unit_type) is Some
}

/// The data of a unit type.
pub fn enemy_spec(unit_type: i16) -> (r: Option<EnemySpec>)
    requires
        unit_is_listed(unit_type),
    ensures
        r == spec_enemy(unit_type),
{
    match unit_type {
        38 => Some(
            EnemySpec {
                unit_type: 38,
                entity_class: 43,
                health: 0x4454_8000,
                speed: Some(0x3F40_0000),
                attack_damage: None,
            },
        ),
        39 => Some(
            EnemySpec {
                unit_type: 39,
                entity_class: 43,
                health: 0x4503_4000,
                speed: None,
                attack_damage: None,
            },
        ),
        41 => Some(
            EnemySpec {
                unit_type: 41,
                entity_class: 43,
                health: 0x462B_E000,
                speed: Some(0x3F21_47AE),
                attack_damage: None,
            },
        ),
        42 => Some(
            EnemySpec {
                unit_type: 42,
                entity_class: 43,
                health: 0x46AB_E000,
                speed: Some(0x3EF5_C28F),
                attack_damage: None,
            },
        ),
        43 => Some(
            EnemySpec {
                unit_type: 43,
                entity_class: 24,
                health: 0x442A_0000,
                speed: None,
                attack_damage: None,
            },
        ),
        44 => Some(
            EnemySpec {
                unit_type: 44,
                entity_class: 24,
                health: 0x4489_8000,
                speed: Some(0x3F19_999A),
                attack_damage: None,
            },
        ),
        45 => Some(
            EnemySpec {
                unit_type: 45,
                entity_class: 24,
                health: 0x4528_C000,
                speed: Some(0x3F26_6666),
                attack_damage: Some(0x3FC0_0000),
            },
        ),
        46 => Some(
            EnemySpec {
                unit_type: 46,
                entity_class: 39,
                health: 0x425C_0000,
                speed: Some(0x4056_6666),
                attack_damage: Some(0x430C_0000),
            },
        ),
        47 => Some(
            EnemySpec {
                unit_type: 47,
                entity_class: 24,
                health: 0x45CB_2000,
                speed: Some(0x3F19_999A),
                attack_damage: None,
            },
        ),
        48 => Some(
            EnemySpec {
                unit_type: 48,
                entity_class: 24,
                health: 0x468C_A000,
                speed: Some(0x3F8C_CCCD),
                attack_damage: None,
            },
        ),
        49 => Some(
            EnemySpec {
                unit_type: 49,
                entity_class: 45,
                health: 0x4416_0000,
                speed: Some(0x3FE6_6666),
                attack_damage: None,
            },
        ),
        52 => Some(
            EnemySpec {
                unit_type: 52,
                entity_class: 5,
                health: 0x45BB_8000,
                speed: None,
                attack_damage: None,
            },
        ),
        53 => Some(
            EnemySpec {
                unit_type: 53,
                entity_class: 39,
                health: 0x4234_0000,
                speed: Some(0x4089_999A),
                attack_damage: Some(0x42DC_0000),
            },
        ),
        55 => Some(
            EnemySpec {
                unit_type: 55,
                entity_class: 39,
                health: 0x428C_0000,
                speed: Some(0x4093_3333),
                attack_damage: Some(0x430C_0000),
            },
        ),
        56 => Some(
            EnemySpec {
                unit_type: 56,
                entity_class: 46,
                health: 0x43FA_0000,
                speed: Some(0x3F99_999A),
                attack_damage: None,
            },
        ),
        57 => Some(
            EnemySpec {
                unit_type: 57,
                entity_class: 46,
                health: 0x469C_4000,
                speed: Some(0x3F80_0000),
                attack_damage: None,
            },
        ),
        58 => Some(
            EnemySpec {
                unit_type: 58,
                entity_class: 5,
                health: 0x4396_0000,
                speed: Some(0x40B3_3333),
                attack_damage: Some(ZERO),
            },
        ),
        59 => Some(
            EnemySpec {
                unit_type: 59,
                entity_class: 5,
                health: 0x43FA_0000,
                speed: Some(0x40E0_0000),
                attack_damage: Some(ZERO),
            },
        ),
        60 => Some(
            EnemySpec {
                unit_type: 60,
                entity_class: 5,
                health: 0x442F_0000,
                speed: Some(0x40F0_0000),
                attack_damage: Some(ZERO),
            },
        ),
        61 => Some(
            EnemySpec {
                unit_type: 61,
                entity_class: 2,
                health: 0x3F80_0000,
                speed: Some(ZERO),
                attack_damage: Some(ZERO),
            },
        ),
        62 => Some(
            EnemySpec {
                unit_type: 62,
                entity_class: 36,
                health: 0x4348_0000,
                speed: Some(0x4060_0000),
                attack_damage: Some(ZERO),
            },
        ),
        63 => Some(
            EnemySpec {
                unit_type: 63,
                entity_class: 36,
                health: 0x42B4_0000,
                speed: Some(0x3FA6_6666),
                attack_damage: Some(ZERO),
            },
        ),
        64 => Some(
            EnemySpec {
                unit_type: 64,
                entity_class: 49,
                health: 0x4348_0000,
                speed: Some(0x3F8C_CCCD),
                attack_damage: Some(ZERO),
            },
        ),
        65 => Some(
            EnemySpec {
                unit_type: 65,
                entity_class: 39,
                health: 0x4370_0000,
                speed: Some(0x4093_3333),
                attack_damage: Some(0x447A_0000),
            },
        ),
        66 => Some(
            EnemySpec {
                unit_type: 66,
                entity_class: 39,
                health: 0x43FA_0000,
                speed: Some(0x4020_0000),
                attack_damage: Some(0x43A0_0000),
            },
        ),
        67 => Some(
            EnemySpec {
                unit_type: 67,
                entity_class: 39,
                health: 0x4396_0000,
                speed: Some(0x408C_CCCD),
                attack_damage: Some(0x44E1_0000),
            },
        ),
        68 => Some(
            EnemySpec {
                unit_type: 68,
                entity_class: 39,
                health: 0x4248_0000,
                speed: Some(0x4099_999A),
                attack_damage: Some(0x4334_0000),
            },
        ),
        69 => Some(
            EnemySpec {
                unit_type: 69,
                entity_class: 2,
                health: 0x3F80_0000,
                speed: Some(ZERO),
                attack_damage: Some(ZERO),
            },
        ),
        _ => None,
    }
}

/// A unit type is found under its own number.
pub proof fn law_units_know_their_number(unit_type: i16)
    ensures
        spec_enemy(unit_type) matches Some(spec) ==> spec.unit_type == unit_type,
{
}

/// The unit types whose weapon mounts this table holds: the crawlers.
pub open spec fn mounts_are_listed(unit_type: i16) -> bool {
    unit_type == 56 || unit_type == 57
}

/// How many weapons a unit type carries. The crawlers carry none.
pub fn enemy_weapon_mount_count(unit_type: i16) -> (r: u8)
    requires
        mounts_are_listed(unit_type),
    ensures
        r == 0,
{
    0
}

/// How many ticks a missile lives.
pub open spec fn missile_lifetime(unit_type: i16) -> Option<u32> {
    if unit_type == 46 {
        Some(0x42C7_3333)
    } else if unit_type == 53 {
        Some(0x4258_F5C3)
    } else if unit_type == 55 {
        Some(0x42CC_0000)
    } else if unit_type == 65 {
        Some(0x43A5_0000)
    } else if unit_type == 66 {
        Some(0x4412_8CCD)
    } else if unit_type == 67 {
        Some(0x42A8_0000)
    } else if unit_type == 68 {
        Some(0x435E_0000)
    } else {
        None
    }
}

/// How many ticks a missile lives; other units have no such limit.
pub fn unit_missile_lifetime(unit_type: i16) -> (r: Option<u32>)
    ensures
        r == missile_lifetime(unit_type),
{
    match unit_type {
        46 => Some(0x42C7_3333),
        53 => Some(0x4258_F5C3),
        55 => Some(0x42CC_0000),
        65 => Some(0x43A5_0000),
        66 => Some(0x4412_8CCD),
        67 => Some(0x42A8_0000),
        68 => Some(0x435E_0000),
        _ => None,
    }
}

// ---------------------------------------------------------------------------
// Snapshots.

/// Whether a block is a core. Cores are synchronised with the state of the game.
pub fn is_core_block(block: i16) -> (r: bool)
    ensures
        r == (339 <= block <= 344),
{
    339 <= block && block <= 344
}

/// The blocks that clients cannot predict: they are synchronised from time to time.
pub open spec fn synced_block(block: i16) -> bool {
    ||| 5 <= block <= 20
    ||| 193 <= block <= 194
    ||| 201 <= block <= 205
    ||| block == 210
    ||| 212 <= block <= 215
    ||| block == 252
    ||| block == 271
    ||| block == 281
    ||| 308 <= block <= 312
    ||| 315 <= block <= 316
    ||| 320 <= block <= 322
    ||| 329 <= block <= 330
    ||| block == 332
    ||| 345 <= block <= 348
    ||| 353 <= block <= 355
    ||| block == 360
    ||| block == 366
    ||| block == 369
    ||| 372 <= block <= 373
    ||| 376 <= block <= 383
    ||| 386 <= block <= 388
    ||| 398 <= block <= 409
    ||| 427 <= block <= 428
}

/// The blocks that clients predict: correcting them from time to time would set their
/// animations back. They are sent on request only.
pub open spec fn predicted_block(block: i16) -> bool {
    ||| 216 <= block <= 220
    ||| 228 <= block <= 230
    ||| block == 244
    ||| 257 <= block <= 261
    ||| 264 <= block <= 270
    ||| 272 <= block <= 274
    ||| 278 <= block <= 279
    ||| 295 <= block <= 297
    ||| 299 <= block <= 304
    ||| 325 <= block <= 328
    ||| 335 <= block <= 338
    ||| 410 <= block <= 415
    ||| block == 418
    ||| 430 <= block <= 434
    ||| block == 436
    ||| 440 <= block <= 443
}

/// Whether a block is part of the periodic snapshots.
pub fn is_batch_snapshot_supported(block: i16) -> (r: bool)
    ensures
        r == synced_block(block),
{
    (5 <= block && block <= 20)
        || (193 <= block && block <= 194)
        || (201 <= block && block <= 205)
        || block == 210
        || (212 <= block && block <= 215)
        || block == 252
        || block == 271
        || block == 281
        || (308 <= block && block <= 312)
        || (315 <= block && block <= 316)
        || (320 <= block && block <= 322)
        || (329 <= block && block <= 330)
        || block == 332
        || (345 <= block && block <= 348)
        || (353 <= block && block <= 355)
        || block == 360
        || block == 366
        || block == 369
        || (372 <= block && block <= 373)
        || (376 <= block && block <= 383)
        || (386 <= block && block <= 388)
        || (398 <= block && block <= 409)
        || (427 <= block && block <= 428)
}

/// Whether a block can be sent on request: those of the periodic snapshots, and those that
/// clients predict.
pub fn is_block_snapshot_supported(block: i16) -> (r: bool)
    ensures
        r == (synced_block(block) || predicted_block(block)),
{
    is_batch_snapshot_supported(block) || is_predicted_block(block)
}

fn is_predicted_block(block: i16) -> (r: bool)
    ensures
        r == predicted_block(block),
{
    (216 <= block && block <= 220)
        || (228 <= block && block <= 230)
        || block == 244
        || (257 <= block && block <= 261)
        || (264 <= block && block <= 270)
        || (272 <= block && block <= 274)
        || (278 <= block && block <= 279)
        || (295 <= block && block <= 297)
        || (299 <= block && block <= 304)
        || (325 <= block && block <= 328)
        || (335 <= block && block <= 338)
        || (410 <= block && block <= 415)
        || block == 418
        || (430 <= block && block <= 434)
        || block == 436
        || (440 <= block && block <= 443)
}

/// No block is both predicted and synchronised from time to time, and no core is either.
pub proof fn law_predicted_blocks_are_not_synced(block: i16)
    ensures
        !(predicted_block(block) && synced_block(block)),
        339 <= block <= 344 ==> !synced_block(block) && !predicted_block(block),
{
}

} // verus!
