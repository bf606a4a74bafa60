//! Host-supplied contributions to the frame graph.

use vstd::prelude::*;

verus! {

/// Which of the shared multisampled pass's phases a custom contribution
/// joins.
#[derive(Debug, Clone, Copy, PartialEq, Eq, Structural)]
pub enum CustomPhase {
    /// With the ground layers (depth attachment available).
    Ground,
    /// Above the ground and route tubes, below icons, text and markers.
    Overlay,
}

/// `Send` where threads exist.
pub trait MaybeSend: Send {}

impl<T: Send> MaybeSend for T {}

} // verus!
