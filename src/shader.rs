//! The integrator's per-ray decision: what a ray at a given recursion depth returns,
//! from whether it hits the scene's objects, a light, or neither.
use vstd::prelude::*;

verus! {

/// Deepest recursion that still gathers light.
pub const MAX_DEPTH: i32 = 40;

/// Depth from which the diffuse lobe of a microfacet surface continues its path.
pub const DIFFUSE_DEPTH_FLOOR: i32 = 34;

/// What a traced ray returns.
#[derive(Clone, Copy, Debug, PartialEq, Eq, Structural)]
pub enum TraceStep {
    /// The recursion went too deep: no radiance.
    Cutoff,
    /// Nothing is hit: the background radiance.
    Background,
    /// A light is hit first: its radiance, unattenuated.
    Emit,
    /// An object is hit first: the radiance its material gathers there.
    Surface,
}

/// The step for a ray at `depth` whose nearest object hit lies at distance `object_t`
/// and whose light hit lies at `light_t` (ordinals of the distances).
pub open spec fn trace_step(depth: int, object_t: Option<u32>, light_t: Option<u32>) -> TraceStep {
    if depth > MAX_DEPTH {
        TraceStep::Cutoff
    } else {
        match (object_t, light_t) {
            (Some(o), Some(l)) => if l > o {
                TraceStep::Surface
            } else {
                TraceStep::Emit
            },
            (Some(_), None) => TraceStep::Surface,
            (None, Some(_)) => TraceStep::Emit,
            (None, None) => TraceStep::Background,
        }
    }
}

/// Decides what the ray returns: an object hit wins only when it lies strictly
/// nearer than the light hit.
pub fn next_step(depth: i32, object_t: Option<u32>, light_t: Option<u32>) -> (r: TraceStep)
    ensures
        r == trace_step(depth as int, object_t, light_t),
{
    if depth > MAX_DEPTH {
        return TraceStep::Cutoff;
    }
    match (object_t, light_t) {
        (Some(o), Some(l)) => {
            if l > o {
                TraceStep::Surface
            } else {
                TraceStep::Emit
            }
        },
        (Some(_), None) => TraceStep::Surface,
        (None, Some(_)) => TraceStep::Emit,
        (None, None) => TraceStep::Background,
    }
}

/// Depth of the path that a microfacet surface's diffuse lobe continues at `depth`:
/// the recursion below that lobe is kept short by starting it at least at
/// `DIFFUSE_DEPTH_FLOOR`.
pub fn diffuse_lobe_depth(depth: i32) -> (r: i32)
    requires
        depth <= MAX_DEPTH,
    ensures
        r == (if depth > DIFFUSE_DEPTH_FLOOR { depth } else { DIFFUSE_DEPTH_FLOOR }) + 1,
{
    if depth > DIFFUSE_DEPTH_FLOOR {
        depth + 1
    } else {
        DIFFUSE_DEPTH_FLOOR + 1
    }
}

/// In a scene without objects, every ray within the depth bound that hits a light
/// returns that light's radiance, unattenuated.
pub proof fn lemma_lone_light_emits(depth: int, light_t: u32)
    requires
        depth <= MAX_DEPTH,
    ensures
        trace_step(depth, None, Some(light_t)) == TraceStep::Emit,
{
}

/// Recursion ends: past `MAX_DEPTH` every ray returns no radiance, whatever it hits.
pub proof fn lemma_depth_cutoff(depth: int, object_t: Option<u32>, light_t: Option<u32>)
    requires
        depth > MAX_DEPTH,
    ensures
        trace_step(depth, object_t, light_t) == TraceStep::Cutoff,
{
}

} // verus!
