//! The spectator relay.
use vstd::prelude::*;

verus! {

/// Makes one relay handler per spectator connection; each handler forwards
/// the text messages it receives to the judge's socket. The transport itself
/// lives with the application.
pub struct MyFactory;

} // verus!
