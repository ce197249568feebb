//! Monotone queues that report the minimizer (the element of smallest hash)
//! of every window of a fixed width over a stream, in amortized constant time.
use vstd::prelude::*;

pub mod hashing;
pub mod laws;
pub mod queue;
pub mod reduce;
pub mod window;

pub use hashing::DefaultHashBuilder;
pub use queue::{ImplicitMinimizerQueue, MinimizerQueue};
pub use window::MonotoneWindow;

verus! {

} // verus!
