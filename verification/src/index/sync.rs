//! Waiting for shared bitmaps.

use std::time::Duration;
use vstd::prelude::*;

verus! {

/// A write lock that could not be had within the timeout.
#[derive(Debug, Clone, Copy, PartialEq, Eq)]
pub struct LockTimeout {
    /// The timeout that was exceeded.
    pub timeout: Duration,
}

} // verus!
