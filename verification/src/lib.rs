//! A control-domain model of a sampler-pool audio scheduler.

#![verifier::loop_isolation(false)]

use vstd::prelude::*;

pub mod all_pass;
pub mod dynamic;
pub mod node;
pub mod params;
pub mod pool;
pub mod world;

verus! {

/// Phases of one control-domain frame, in the order they run.
#[derive(Clone, Copy, PartialEq, Eq, Structural, Debug)]
pub enum SeedlingSystems {
    /// Entities without audio nodes acquire them from the audio graph.
    Acquire,
    /// Pending connections are made.
    Connect,
    /// Audio engine events are queued.
    Queue,
    /// The audio graph is updated and flushed.
    Flush,
}

/// A fixed position for each phase; smaller positions run earlier.
pub fn phase_position(phase: SeedlingSystems) -> (p: u64)
    ensures
        p == phase_position_spec(phase),
{
    match phase {
        SeedlingSystems::Acquire => 0,
        SeedlingSystems::Connect => 1,
        SeedlingSystems::Queue => 2,
        SeedlingSystems::Flush => 3,
    }
}

pub open spec fn phase_position_spec(phase: SeedlingSystems) -> u64 {
    match phase {
        SeedlingSystems::Acquire => 0,
        SeedlingSystems::Connect => 1,
        SeedlingSystems::Queue => 2,
        SeedlingSystems::Flush => 3,
    }
}

} // verus!
