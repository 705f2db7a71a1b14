//! User hooks run around the push.
use vstd::prelude::*;

verus! {

/// What became of a hook: there was none, or it ran and succeeded.
#[derive(Clone, Copy, Debug, PartialEq, Eq)]
pub enum HookOutcome {
    Missing,
    Ran,
}

} // verus!
