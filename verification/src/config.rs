//! The parameters of a simulation.
use vstd::prelude::*;
use glam::Vec2;
use crate::geometry::{uniform, uniform_vec, zero, zero_vec};

verus! {

/// What a click in a viewer places.
#[derive(Copy, Clone, PartialEq, Eq, Debug, Structural)]
pub enum SpawnTool {
    /// A single parentless node.
    RootNode,
    /// Attractors inside a rectangle given by a centre and half extents.
    RectAttractors,
    /// Attractors inside an oval given by a centre and radii.
    OvalAttractors,
}

/// The parameters of a simulation: those that the three phases read, which
/// do not change during a step, and those that tell a driver what to spawn.
///
/// The two radii are held squared, because squared distances are what the
/// phases compare them with, and as bit patterns of binary32 numbers, like
/// every scalar in this crate. The step is held as a vector that scales a
/// direction component by component; a step of one length in every direction
/// has that length in both components.
#[derive(Clone, Copy, Debug)]
pub struct Config {
    /// Rank of the node that an attractor pulls on: 0 is the nearest node, 1
    /// the second nearest, and a rank beyond the last node is the farthest.
    pub attract_from_kn: usize,
    /// Rank of the node whose distance decides whether an attractor is
    /// consumed, counted in the same way.
    pub kill_from_kn: usize,
    /// Square of the influence radius: an attractor pulls on its node only
    /// from a squared distance below this.
    pub influence_radius2: u32,
    /// Square of the kill radius: an attractor is consumed at a squared
    /// distance below this.
    pub kill_radius2: u32,
    /// Scale applied to a growth direction to reach the new node.
    pub step: Vec2,
    /// Bias added to every growth direction before it is normalised again.
    pub tropism: Vec2,
    /// What the driver places next.
    pub spawn_tool: SpawnTool,
    /// How many attractors the driver places at once.
    pub spawn_attractors: usize,
    /// Half extents of the rectangle for [`SpawnTool::RectAttractors`].
    pub spawn_rect_half_extents: Vec2,
    /// Radii of the oval for [`SpawnTool::OvalAttractors`].
    pub spawn_oval_radii: Vec2,
}

/// Square of the default influence radius of 60: the bit pattern of 3600.
pub const DEFAULT_INFLUENCE_RADIUS2: u32 = 0x4561_0000;

/// Square of the default kill radius of 30: the bit pattern of 900.
pub const DEFAULT_KILL_RADIUS2: u32 = 0x4461_0000;

/// Default length of a growth step.
pub const DEFAULT_STEP_LEN: u32 = 5;

/// Default half extent and radius of the shapes that attractors are spawned
/// in.
pub const DEFAULT_SPAWN_EXTENT: u32 = 30;

/// Default number of attractors spawned at once.
pub const DEFAULT_SPAWN_ATTRACTORS: usize = 100;

/// The parameters that [`Config::default`] returns.
pub open spec fn default_config() -> Config {
    Config {
        attract_from_kn: 0,
        kill_from_kn: 0,
        influence_radius2: DEFAULT_INFLUENCE_RADIUS2,
        kill_radius2: DEFAULT_KILL_RADIUS2,
        step: uniform(DEFAULT_STEP_LEN),
        tropism: zero(),
        spawn_tool: SpawnTool::OvalAttractors,
        spawn_attractors: DEFAULT_SPAWN_ATTRACTORS,
        spawn_rect_half_extents: uniform(DEFAULT_SPAWN_EXTENT),
        spawn_oval_radii: uniform(DEFAULT_SPAWN_EXTENT),
    }
}

impl Default for Config {
    /// Parameters for a scene of medium size: attractors spread over an area
    /// some 60 units across, a step short enough for smooth branches, the
    /// nearest node for both ranks and no tropism.
    fn default() -> (cfg: Self)
        ensures
            cfg == default_config(),
    {
        Config {
            attract_from_kn: 0,
            kill_from_kn: 0,
            influence_radius2: DEFAULT_INFLUENCE_RADIUS2,
            kill_radius2: DEFAULT_KILL_RADIUS2,
            step: uniform_vec(DEFAULT_STEP_LEN),
            tropism: zero_vec(),
            spawn_tool: SpawnTool::OvalAttractors,
            spawn_attractors: DEFAULT_SPAWN_ATTRACTORS,
            spawn_rect_half_extents: uniform_vec(DEFAULT_SPAWN_EXTENT),
            spawn_oval_radii: uniform_vec(DEFAULT_SPAWN_EXTENT),
        }
    }
}

} // verus!
