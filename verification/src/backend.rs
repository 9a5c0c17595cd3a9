//! The palette backends that extract base16 palettes from images.
use vstd::prelude::*;

verus! {

/// The palette backends.
#[derive(Debug, Clone, Copy, PartialEq, Eq, Structural)]
pub enum Backend {
    Wal,
}

/// The k-means backend: its cluster count, the width images are resized to,
/// the step between sampled pixels and the number of iterations.
#[derive(Debug, Clone, Copy, PartialEq, Eq, Structural)]
pub struct WalBackend {
    pub clusters: usize,
    pub resize_width: u32,
    pub sample_step: u32,
    pub iterations: usize,
}

impl Default for WalBackend {
    /// 16 clusters, 300 pixels wide, every second pixel, 8 iterations.
    fn default() -> (res: Self)
        ensures
            res == (WalBackend { clusters: 16, resize_width: 300, sample_step: 2, iterations: 8 }),
    {
        Self { clusters: 16, resize_width: 300, sample_step: 2, iterations: 8 }
    }
}

} // verus!
