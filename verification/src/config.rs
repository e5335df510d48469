//! Run configuration: the ordering policy and the errors that abort a run
//! before any review begins.

use vstd::prelude::*;

verus! {

/// How the pending queue is arranged for this run.
#[derive(Clone, Copy, Debug, PartialEq, Eq)]
pub enum OrderMode {
    /// A fresh random permutation each run.
    Random,
    /// Ascending by probed file size.
    SmallestFirst,
    /// Descending by probed file size.
    LargestFirst,
}

/// A configuration error: fatal at startup, before any review begins.
#[derive(Clone, Copy, Debug, PartialEq, Eq)]
pub enum ConfigError {
    /// Both smallest-first and largest-first were requested.
    ConflictingOrder,
    /// The filter pattern is not a valid regular expression.
    InvalidPattern,
}

/// The ordering policy selected by the two size flags. Requesting both
/// directions at once is a configuration error, never a silent pick.
pub fn order_mode(smallest: bool, largest: bool) -> (r: Result<OrderMode, ConfigError>)
    ensures
        smallest && largest ==> r == Result::<OrderMode, ConfigError>::Err(
            ConfigError::ConflictingOrder,
        ),
        smallest && !largest ==> r == Result::<OrderMode, ConfigError>::Ok(
            OrderMode::SmallestFirst,
        ),
        !smallest && largest ==> r == Result::<OrderMode, ConfigError>::Ok(
            OrderMode::LargestFirst,
        ),
        !smallest && !largest ==> r == Result::<OrderMode, ConfigError>::Ok(OrderMode::Random),
{
    if smallest && largest {
        Err(ConfigError::ConflictingOrder)
    } else if smallest {
        Ok(OrderMode::SmallestFirst)
    } else if largest {
        Ok(OrderMode::LargestFirst)
    } else {
        Ok(OrderMode::Random)
    }
}

} // verus!
