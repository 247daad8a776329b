use vstd::prelude::*;

use crate::volume::MAX_DEPTH;

verus! {

/// The storage format chosen for occupancy texels: one byte per cell or
/// one 32-bit word per cell. Pointer value `0` means "empty" in either.
#[derive(Clone, Copy, Debug, PartialEq, Eq, Structural)]
pub enum VoxelFormat {
    R8Uint,
    R32Uint,
}

/// Shader-facing name of a voxel storage format.
pub fn dvo_format_to_string(format: VoxelFormat) -> (r: String)
    ensures
        format == VoxelFormat::R8Uint ==> r@ == "r8uint"@,
        format == VoxelFormat::R32Uint ==> r@ == "r32uint"@,
{
    match format {
        VoxelFormat::R8Uint => "r8uint".to_owned(),
        VoxelFormat::R32Uint => "r32uint".to_owned(),
    }
}

/// The renderer's configuration surface: the total hierarchy depth is
/// partitioned into three traversal regimes — near-field dense grid
/// stepping (`grid`), mid-field sparse-pointer stepping (`svo`), far-field
/// dense mip stepping (`dvo`) — each with its own iteration budget, plus
/// shading controls. All values are plain unsigned integers handed to the
/// external shader compiler as named constants.
pub struct ShaderConstants {
    pub octree_depth: u32,
    pub svo_depth: u32,
    pub svo_max_iter: u32,
    pub dvo_depth: u32,
    pub dvo_max_iter: u32,
    pub grid_depth: u32,
    pub grid_max_iter: u32,
    pub shadow_max_iter: u32,
    pub shadow_cone_angle: u32,
    pub shadow_strength: u32,
    pub ao_strength: u32,
    pub msaa_level: u32,
    pub debug_display: u32,
}

/// One named integer constant handed to the shader compiler.
pub struct NamedConstant {
    pub name: String,
    pub value: u32,
}

impl ShaderConstants {
    /// The depth partition must cover the whole hierarchy: the three
    /// regime depths sum to the total traversal depth.
    pub open spec fn partition_wf(self) -> bool {
        self.grid_depth + self.svo_depth + self.dvo_depth == self.octree_depth
    }

    /// The default configuration for a volume of side `2^depth`: traversal
    /// depth one less than the hierarchy depth, a two-level near-field
    /// grid, no mid-field levels, and the rest walked in the far field.
    pub fn defaults_for_depth(depth: usize) -> (r: ShaderConstants)
        requires
            3 <= depth <= MAX_DEPTH,
        ensures
            r.partition_wf(),
            r.octree_depth == depth - 1,
            r.svo_depth == 0,
            r.svo_max_iter == 200,
            r.dvo_depth == depth - 3,
            r.dvo_max_iter == 200,
            r.grid_depth == 2,
            r.grid_max_iter == 16,
            r.shadow_max_iter == 100,
            r.shadow_cone_angle == 1,
            r.shadow_strength == 10,
            r.ao_strength == 10,
            r.msaa_level == 1,
            r.debug_display == 0,
    {
        let octree_depth = (depth - 1) as u32;
        let svo_depth: u32 = 0;
        let grid_depth: u32 = 2;
        let dvo_depth = octree_depth - svo_depth - grid_depth;
        ShaderConstants {
            octree_depth,
            svo_depth,
            svo_max_iter: 200,
            dvo_depth,
            dvo_max_iter: 200,
            grid_depth,
            grid_max_iter: 4 * 4,
            shadow_max_iter: 100,
            shadow_cone_angle: 1,
            shadow_strength: 10,
            ao_strength: 10,
            msaa_level: 1,
            debug_display: 0,
        }
    }

    /// The full list of named constants the shader compiler substitutes,
    /// in the order the shader sources expect them.
    pub fn named_constants(&self) -> (r: Vec<NamedConstant>)
        ensures
            r@.len() == 13,
            r@[0].name@ == "OCTREE_DEPTH"@ && r@[0].value == self.octree_depth,
            r@[1].name@ == "SVO_DEPTH"@ && r@[1].value == self.svo_depth,
            r@[2].name@ == "SVO_MAX_ITER"@ && r@[2].value == self.svo_max_iter,
            r@[3].name@ == "DVO_DEPTH"@ && r@[3].value == self.dvo_depth,
            r@[4].name@ == "DVO_MAX_ITER"@ && r@[4].value == self.dvo_max_iter,
            r@[5].name@ == "GRID_DEPTH"@ && r@[5].value == self.grid_depth,
            r@[6].name@ == "GRID_MAX_ITER"@ && r@[6].value == self.grid_max_iter,
            r@[7].name@ == "SHADOW_MAX_ITER"@ && r@[7].value == self.shadow_max_iter,
            r@[8].name@ == "SHADOW_CONE_ANGLE"@ && r@[8].value == self.shadow_cone_angle,
            r@[9].name@ == "SHADOW_STRENGTH"@ && r@[9].value == self.shadow_strength,
            r@[10].name@ == "AO_STRENGTH"@ && r@[10].value == self.ao_strength,
            r@[11].name@ == "MSAA_LEVEL"@ && r@[11].value == self.msaa_level,
            r@[12].name@ == "DEBUG_DISPLAY"@ && r@[12].value == self.debug_display,
    {
        let mut r: Vec<NamedConstant> = Vec::new();
        r.push(NamedConstant { name: "OCTREE_DEPTH".to_owned(), value: self.octree_depth });
        r.push(NamedConstant { name: "SVO_DEPTH".to_owned(), value: self.svo_depth });
        r.push(NamedConstant { name: "SVO_MAX_ITER".to_owned(), value: self.svo_max_iter });
        r.push(NamedConstant { name: "DVO_DEPTH".to_owned(), value: self.dvo_depth });
        r.push(NamedConstant { name: "DVO_MAX_ITER".to_owned(), value: self.dvo_max_iter });
        r.push(NamedConstant { name: "GRID_DEPTH".to_owned(), value: self.grid_depth });
        r.push(NamedConstant { name: "GRID_MAX_ITER".to_owned(), value: self.grid_max_iter });
        r.push(NamedConstant { name: "SHADOW_MAX_ITER".to_owned(), value: self.shadow_max_iter });
        r.push(
            NamedConstant { name: "SHADOW_CONE_ANGLE".to_owned(), value: self.shadow_cone_angle },
        );
        r.push(NamedConstant { name: "SHADOW_STRENGTH".to_owned(), value: self.shadow_strength });
        r.push(NamedConstant { name: "AO_STRENGTH".to_owned(), value: self.ao_strength });
        r.push(NamedConstant { name: "MSAA_LEVEL".to_owned(), value: self.msaa_level });
        r.push(NamedConstant { name: "DEBUG_DISPLAY".to_owned(), value: self.debug_display });
        r
    }
}

} // verus!
