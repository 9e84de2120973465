use vstd::prelude::*;

verus! {

/// What a run hands to the components that report on their work.
#[derive(Clone, Copy, Debug, PartialEq, Eq, Structural)]
pub struct RunContext {
    /// Whether detailed timings and progress are reported.
    pub verbose: bool,
}

/// Turns detailed reporting on or off for a run.
pub fn set(ctx: &mut RunContext, enabled: bool)
    ensures
        final(ctx).verbose == enabled,
{
    ctx.verbose = enabled;
}

/// Whether detailed reporting is on for a run.
pub fn enabled(ctx: &RunContext) -> (r: bool)
    ensures
        r == ctx.verbose,
{
    ctx.verbose
}

} // verus!
