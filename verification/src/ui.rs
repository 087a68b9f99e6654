use vstd::prelude::*;

use crate::creds::Credential;

verus! {

/// Presentation callbacks driven by the pacing engine: a splash at start,
/// one notification per checked pair, and a final notification carrying
/// the matched pair, if any. Implementations decide what to show; the
/// engine claims nothing about them.
pub trait UIApplication {
    /// Show the initial presentation.
    fn run(&self);

    /// One candidate pair was just checked.
    fn advanced(&mut self, creds: &Credential);

    /// The run finished: with a matching pair, or with none.
    fn finished(&mut self, matched: Option<&Credential>);
}

} // verus!
