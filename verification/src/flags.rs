use vstd::prelude::*;

verus! {

/// Run-scoped behaviour switches, threaded explicitly through calls instead of
/// living in process-wide mutable state.
#[derive(Clone, Copy, PartialEq, Eq, Structural)]
pub struct Flags {
    pub force: bool,
    pub quiet: bool,
    pub verbose: bool,
}

/// Bundle the three generic command-line switches into a `Flags` value.
pub fn set_flags(force: bool, quiet: bool, verbose: bool) -> (f: Flags)
    ensures
        f == (Flags { force, quiet, verbose }),
{
    Flags { force, quiet, verbose }
}

} // verus!
