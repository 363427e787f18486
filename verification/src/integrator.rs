//! The control of one light path: how many bounces it may still make, and
//! what each answer of the scene does to it.

use vstd::prelude::*;

verus! {

/// What the scene answers to the ray of one bounce.
#[derive(Debug, Copy, Clone, PartialEq, Eq)]
pub enum PathEvent {
    /// The ray hits a surface. `light` tells whether the surface is a light
    /// source: one that emits at full strength or more.
    Hit { light: bool },
    /// The ray hits nothing.
    Miss,
}

/// What has to be added to the radiance of the path for one bounce.
#[derive(Debug, Copy, Clone, PartialEq, Eq)]
pub enum PathAction {
    /// Add what the surface emits, weighted by the throughput as it stands,
    /// and only then apply the multiplier of the surface to the throughput.
    Scatter,
    /// Add the colour of the environment in the direction of the ray,
    /// weighted by the throughput as it stands. The throughput stays as it is.
    Environment,
}

/// The bounces that a path may still make.
#[derive(Debug, Copy, Clone)]
pub struct PathState {
    remaining: usize,
}

impl View for PathState {
    type V = nat;

    /// The number of bounces left.
    closed spec fn view(&self) -> nat {
        self.remaining as nat
    }
}

/// The bounces left after one bounce: none after a miss or a light source,
/// one fewer after any other hit.
pub open spec fn bounces_after(remaining: nat, event: PathEvent) -> nat {
    match event {
        PathEvent::Hit { light } => if light {
            0
        } else {
            (remaining - 1) as nat
        },
        PathEvent::Miss => 0,
    }
}

/// What one bounce adds to the path.
pub open spec fn action_for(event: PathEvent) -> PathAction {
    match event {
        PathEvent::Hit { .. } => PathAction::Scatter,
        PathEvent::Miss => PathAction::Environment,
    }
}

impl PathState {
    /// A path that may make `bounces` bounces.
    pub fn new(bounces: usize) -> (path: Self)
        ensures
            path@ == bounces,
    {
        PathState { remaining: bounces }
    }

    /// Whether the path goes on: a ray is to be traced for its next bounce.
    pub fn is_alive(&self) -> (alive: bool)
        ensures
            alive == (self@ > 0),
    {
        self.remaining > 0
    }

    /// Takes the answer of the scene to the ray of the next bounce, and says
    /// what the bounce adds to the path.
    pub fn bounce(&mut self, event: PathEvent) -> (action: PathAction)
        requires
            old(self)@ > 0,
        ensures
            final(self)@ == bounces_after(old(self)@, event),
            action == action_for(event),
    {
        match event {
            PathEvent::Hit { light } => {
                if light {
                    self.remaining = 0;
                } else {
                    self.remaining = self.remaining - 1;
                }
                PathAction::Scatter
            },
            PathEvent::Miss => {
                self.remaining = 0;
                PathAction::Environment
            },
        }
    }
}

} // verus!
