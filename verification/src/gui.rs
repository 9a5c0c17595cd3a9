//! The state the interface keeps between runs.
use vstd::prelude::*;

verus! {

/// The tabs of the interface.
#[derive(Debug, Clone, Copy, PartialEq, Eq, Structural)]
pub enum Tabs {
    Images,
    Settings,
    Colors,
}

/// What the interface remembers: the folder of images and the tab last shown.
#[derive(Debug, Clone)]
pub struct Config {
    pub image_folder: String,
    pub selected_tab: Tabs,
}

} // verus!
