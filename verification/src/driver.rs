//! The loop that drives a step-by-step parser.
use vstd::prelude::*;

verus! {

/// Calls `step` on `output` and `source` until it answers `Ok(false)` or fails, and
/// returns `Ok(())` or the failure.
///
/// `inv` is what holds of the output before each call; a call that answers `Ok(true)`
/// keeps it and lowers `progress` of the output, which is why the loop ends.  `post` is
/// what the caller learns: it holds of the output and the result after any call that
/// stops the loop, so it holds when `parse` returns.
pub fn parse<'a, Dest: 'a, Src: ?Sized + 'a, E, F: FnMut(&mut Dest, &'a Src) -> Result<bool, E>>(
    output: &mut Dest,
    source: &'a Src,
    step: F,
    Ghost(inv): Ghost<spec_fn(Dest) -> bool>,
    Ghost(progress): Ghost<spec_fn(Dest) -> nat>,
    Ghost(post): Ghost<spec_fn(Dest, Result<(), E>) -> bool>,
) -> (r: Result<(), E>)
    requires
        inv(*old(output)),
        forall|d: &mut Dest| #[trigger] inv(mut_ref_current(d)) ==> call_requires(step, (d, source)),
        forall|d: &mut Dest, c: Result<bool, E>|
            inv(mut_ref_current(d)) && #[trigger] call_ensures(step, (d, source), c) ==> {
                &&& (c matches Ok(true) ==> inv(mut_ref_future(d))
                        && progress(mut_ref_future(d)) < progress(mut_ref_current(d)))
                &&& (c matches Ok(false) ==> post(mut_ref_future(d), Ok(())))
                &&& (c matches Err(e) ==> post(mut_ref_future(d), Err(e)))
            },
    ensures
        post(*final(output), r),
{
    let mut step = step;
    loop
        invariant
            inv(*output),
            forall|d: &mut Dest| #[trigger] inv(mut_ref_current(d)) ==> call_requires(step, (d, source)),
            forall|d: &mut Dest, c: Result<bool, E>|
                inv(mut_ref_current(d)) && #[trigger] call_ensures(step, (d, source), c) ==> {
                    &&& (c matches Ok(true) ==> inv(mut_ref_future(d))
                            && progress(mut_ref_future(d)) < progress(mut_ref_current(d)))
                    &&& (c matches Ok(false) ==> post(mut_ref_future(d), Ok(())))
                    &&& (c matches Err(e) ==> post(mut_ref_future(d), Err(e)))
                },
        decreases progress(*output),
    {
        let more = step(output, source);
        match more {
            Ok(true) => {},
            Ok(false) => return Ok(()),
            Err(e) => return Err(e),
        }
    }
}

} // verus!
