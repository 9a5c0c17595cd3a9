//! The weighted square means quantizer.
use vstd::prelude::*;

verus! {

/// An image quantizer that improves on the speed of a standard K-Means
/// algorithm by deduping identical pixels and by a triangle inequality rule
/// that reduces the number of comparisons needed to find the cluster a point
/// moves to. Wsmeans stands for Weighted Square Means.
#[derive(Debug, Clone, Copy)]
pub struct QuantizerWsmeans;

} // verus!
