//! Range expansion, task planning and result collection for a TCP
//! reachability scanner. The connection attempts themselves, the worker
//! pool and the command line stand outside this library.
use vstd::prelude::*;

pub mod decimal;
pub mod range;
pub mod scan;

verus! {

} // verus!
