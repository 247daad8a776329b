//! Builder for a GPU-resident voxel acceleration structure.
//!
//! A dense cubic voxel volume (side a power of two, each cell a material
//! index with `0` meaning empty) is reduced into two derived artifacts:
//! a multi-resolution occupancy pyramid together with its pointer-compacted
//! sparse octree, and a parallel pyramid of averaged colors. Both are laid
//! out exactly as a ray-marching renderer consumes them, so the byte-level
//! layout of every artifact is part of the contracts.

pub mod color;
pub mod color_pyramid;
pub mod convert;
pub mod fps;
pub mod layout;
pub mod occupancy;
pub mod sparse;
pub mod volume;

pub use color::Color;
pub use color_pyramid::{build_colors, ColorPyramid};
pub use convert::{
    assign_block, ends_with, is_ignored, quantize_index, quantized_palette, resolve_alias,
    voxs_from_cols,
};
pub use fps::{FpsCounter, HISTORY_SIZE};
pub use layout::{dvo_format_to_string, NamedConstant, ShaderConstants, VoxelFormat};
pub use occupancy::{build_occupancy, OccupancyPyramid};
pub use sparse::{build_sparse, CellRef, OccupancyNode, SparseTree};
pub use volume::{
    load, AssetLoadError, ModelPart, ModelVoxel, VoxModel, Voxels, MAX_DEPTH, MAX_DIM,
};
