//! The configuration that the command line hands to the library.
use vstd::prelude::*;
use crate::traversal::TraversalOrder;

verus! {

/// How the build order is laid out on the grid.
#[derive(Clone, Copy, Debug, PartialEq, Eq, Structural)]
pub enum ArrangementStrategy {
    /// Row by row.
    Raster,
    /// Along a square spiral from the centre.
    Spiral,
    /// Best fit on the boundary of the placed tiles.
    Amalgamate,
}

/// The settings of one run.
#[derive(Clone, Debug)]
pub struct Cli {
    /// Directory of the input images.
    pub input: String,
    /// Path of the output image.
    pub output: String,
    /// Number of k-means clusters (1 means a plain average).
    pub k_means: u32,
    /// Width each input image is scaled to, in pixels.
    pub tile_width: u32,
    /// Height each input image is scaled to, in pixels.
    pub tile_height: u32,
    /// How tiles are laid out.
    pub arrangement_strategy: ArrangementStrategy,
    /// How the spanning tree is linearised.
    pub traversal: TraversalOrder,
}

impl Cli {
    /// Whether the settings are usable: at least one cluster and tiles of at
    /// least one pixel each way.
    pub fn is_valid(&self) -> (r: bool)
        ensures
            r == (self.k_means >= 1 && self.tile_width >= 1 && self.tile_height >= 1),
    {
        self.k_means >= 1 && self.tile_width >= 1 && self.tile_height >= 1
    }
}

} // verus!
