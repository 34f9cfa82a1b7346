//! The path integrator's control: what happens to a path at each bounce,
//! and when it ends.
//!
//! The integrator follows a ray through the scene for a bounded number of
//! bounces. At each bounce the caller reports what the ray met; `Walk`
//! answers with what is to be done with the running estimate and
//! throughput, and keeps count.

use crate::material::Mode;
use vstd::prelude::*;

verus! {

/// The number of bounces after which every path ends.
pub const MAX_DEPTH: u32 = 25;

/// The weight of the material's own density in the mixture with the
/// density of the lights is `MIX_BIAS_NUMER / MIX_BIAS_DENOM`.
pub const MIX_BIAS_NUMER: u32 = 3;

pub const MIX_BIAS_DENOM: u32 = 4;

/// What a ray met at one bounce.
#[derive(Debug, Copy, Clone, PartialEq, Eq, Structural)]
pub enum Hop {
    /// Nothing: the ray left the scene.
    Miss,
    /// A surface that does not scatter.
    Absorbed,
    /// A surface that scatters in the given way.
    Scattered(Mode),
}

/// What the integrator does at one bounce.
#[derive(Debug, Copy, Clone, PartialEq, Eq, Structural)]
pub enum Step {
    /// Add the background, weighted by the throughput, and end the path.
    Background,
    /// Add what the surface emits and end the path.
    Emit,
    /// Add what the surface emits, multiply the throughput by the
    /// attenuation and follow the specular ray. No density is divided by.
    Follow,
    /// Add what the surface emits and draw the next direction from the
    /// material's density alone: the scene has no lights.
    SampleMaterial,
    /// Add what the surface emits, draw the next direction from the mixture
    /// of the material's density and that of the lights, and multiply the
    /// throughput by the attenuation times the material's density over the
    /// mixture's.
    SampleMixture,
}

impl Step {
    /// Whether the path ends with this step.
    pub open spec fn ends_path(self) -> bool {
        self == Step::Background || self == Step::Emit
    }

    pub fn is_final(&self) -> (b: bool)
        ensures
            b == self.ends_path(),
    {
        match self {
            Step::Background => true,
            Step::Emit => true,
            _ => false,
        }
    }
}

/// The step that answers `hop` in a scene with or without lights.
pub open spec fn step_for(hop: Hop, lights: bool) -> Step {
    match hop {
        Hop::Miss => Step::Background,
        Hop::Absorbed => Step::Emit,
        Hop::Scattered(Mode::Specular) => Step::Follow,
        Hop::Scattered(Mode::Sampled) => if lights {
            Step::SampleMixture
        } else {
            Step::SampleMaterial
        },
    }
}

/// A path in progress: the number of bounces it may still take.
#[derive(Debug, Copy, Clone, PartialEq, Eq, Structural)]
pub struct Walk {
    pub left: u32,
}

impl Walk {
    /// The walk after it has answered `hop`: ended where the step ends the
    /// path, else with one bounce less to go. A walk that is over stays as
    /// it is.
    pub open spec fn after(self, hop: Hop, lights: bool) -> Walk {
        if self.left == 0 {
            self
        } else if step_for(hop, lights).ends_path() {
            Walk { left: 0 }
        } else {
            Walk { left: (self.left - 1) as u32 }
        }
    }

    /// The walk after it has answered each of `hops` in turn.
    pub open spec fn after_all(self, hops: Seq<Hop>, lights: bool) -> Walk
        decreases hops.len(),
    {
        if hops.len() == 0 {
            self
        } else {
            self.after_all(hops.drop_last(), lights).after(hops.last(), lights)
        }
    }

    /// A walk of at most `MAX_DEPTH` bounces.
    pub fn new() -> (walk: Walk)
        ensures
            walk.left == MAX_DEPTH,
    {
        Walk { left: MAX_DEPTH }
    }

    /// A walk of at most `depth` bounces.
    pub fn with_depth(depth: u32) -> (walk: Walk)
        ensures
            walk.left == depth,
    {
        Walk { left: depth }
    }

    /// Whether the path has ended.
    pub fn is_over(&self) -> (b: bool)
        ensures
            b == (self.left == 0),
    {
        self.left == 0
    }

    /// Answers what the ray met at this bounce with what is to be done,
    /// and counts the bounce.
    pub fn advance(&mut self, hop: Hop, lights: bool) -> (step: Step)
        requires
            old(self).left > 0,
        ensures
            step == step_for(hop, lights),
            *final(self) == old(self).after(hop, lights),
    {
        let step = match hop {
            Hop::Miss => Step::Background,
            Hop::Absorbed => Step::Emit,
            Hop::Scattered(Mode::Specular) => Step::Follow,
            Hop::Scattered(Mode::Sampled) => if lights {
                Step::SampleMixture
            } else {
                Step::SampleMaterial
            },
        };
        if step.is_final() {
            self.left = 0;
        } else {
            self.left = self.left - 1;
        }
        step
    }
}

/// Each bounce brings a walk in progress closer to its end.
pub proof fn lemma_advance_decreases(walk: Walk, hop: Hop, lights: bool)
    requires
        walk.left > 0,
    ensures
        walk.after(hop, lights).left < walk.left,
{
}

/// A walk never gains bounces, and loses one with every bounce until it is
/// over.
pub proof fn lemma_after_all_bound(walk: Walk, hops: Seq<Hop>, lights: bool)
    ensures
        walk.after_all(hops, lights).left <= walk.left,
        walk.after_all(hops, lights).left == 0 || walk.after_all(hops, lights).left + hops.len()
            == walk.left,
    decreases hops.len(),
{
    if hops.len() > 0 {
        lemma_after_all_bound(walk, hops.drop_last(), lights);
    }
}

/// Every path halts: whatever the ray meets, a walk is over after as many
/// bounces as it was given, and a new walk after `MAX_DEPTH`.
pub proof fn lemma_walk_halts(walk: Walk, hops: Seq<Hop>, lights: bool)
    requires
        hops.len() >= walk.left,
    ensures
        walk.after_all(hops, lights).left == 0,
{
    lemma_after_all_bound(walk, hops, lights);
}

/// A path that meets a surface which does not scatter, or nothing at all,
/// ends there.
pub proof fn lemma_terminal_hop_ends(walk: Walk, hop: Hop, lights: bool)
    requires
        hop == Hop::Miss || hop == Hop::Absorbed,
    ensures
        walk.after(hop, lights).left == 0,
{
}

} // verus!
