use vstd::prelude::*;

verus! {

/// The grey level of a point whose orbit first left the capture disc at step
/// `step` of a run of `max_iterations` steps: `floor(step / max_iterations * 255)`.
pub open spec fn level_of_step(step: nat, max_iterations: nat) -> nat
    recommends
        max_iterations > 0,
{
    (step * 255) / max_iterations
}

/// The grey level of a point: `level_of_step` for an orbit that escaped, and
/// `0` for one that stayed inside the capture disc for the whole run.
pub open spec fn level_of(escaped_at: Option<usize>, max_iterations: nat) -> nat {
    match escaped_at {
        Some(step) => level_of_step(step as nat, max_iterations),
        None => 0,
    }
}

/// Maps the step at which an orbit escaped (if it did) to an 8-bit grey level.
pub fn escape_intensity(escaped_at: Option<usize>, max_iterations: usize) -> (level: u8)
    requires
        match escaped_at {
            Some(step) => step < max_iterations,
            None => true,
        },
    ensures
        level as nat == level_of(escaped_at, max_iterations as nat),
        escaped_at == Some(0usize) ==> level == 0,
{
    match escaped_at {
        None => 0,
        Some(step) => {
            let wide: u128 = step as u128 * 255;
            let level: u128 = wide / (max_iterations as u128);
            proof {
                assert(level < 255) by (nonlinear_arith)
                    requires
                        wide == step * 255,
                        level == wide / (max_iterations as u128),
                        step < max_iterations,
                ;
            }
            level as u8
        },
    }
}

/// For an orbit that left the capture disc at a given step, a longer run
/// never gives a brighter level: the level is `floor(step * 255 / max_iterations)`,
/// which can only fall as `max_iterations` grows. An orbit that escaped at the
/// first step has level `0` whatever the length of the run.
pub proof fn lemma_level_with_more_iterations(step: nat, fewer: nat, more: nat)
    requires
        step < fewer <= more,
    ensures
        level_of_step(step, more) <= level_of_step(step, fewer),
        step == 0 ==> level_of_step(step, more) == level_of_step(step, fewer),
{
    assert((step * 255) / more <= (step * 255) / fewer) by (nonlinear_arith)
        requires
            0 < fewer <= more,
    ;
}

} // verus!
