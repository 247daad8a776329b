use vstd::prelude::*;
use vstd::arithmetic::power2::{pow2, lemma_pow2_strictly_increases, lemma_pow2_unfold};

use crate::color::Color;

verus! {

/// Largest side length a volume may have: `2^10`. A cube of this side
/// already holds `2^30` cells, so the cap is a machine limit (index
/// arithmetic stays far below `usize::MAX`), not a modelling choice.
pub const MAX_DIM: usize = 1024;

/// Deepest hierarchy: `log2(MAX_DIM)`.
pub const MAX_DEPTH: usize = 10;

/// Flat index of cell `(x, y, z)` in a cubic grid of side `s`, row-major
/// with the third axis varying fastest. This layout is the byte-level
/// contract the renderer consumes.
pub open spec fn grid_index(s: int, x: int, y: int, z: int) -> int {
    (x * s + y) * s + z
}

/// Flat index in a cuboid grid of shape `(sx, sy, sz)`, third axis fastest.
pub open spec fn box_index(sy: int, sz: int, x: int, y: int, z: int) -> int {
    (x * sy + y) * sz + z
}

pub proof fn lemma_grid_index_bounds(s: int, x: int, y: int, z: int)
    requires
        0 <= x < s,
        0 <= y < s,
        0 <= z < s,
    ensures
        0 <= grid_index(s, x, y, z) < s * s * s,
        0 <= x * s + y < s * s,
        grid_index(s, x, y, z) == box_index(s, s, x, y, z),
{
    assert(0 <= (x * s + y) * s + z < s * s * s && 0 <= x * s + y < s * s) by (nonlinear_arith)
        requires
            0 <= x < s,
            0 <= y < s,
            0 <= z < s,
    ;
}

/// Cubes of supported sides stay far below `usize::MAX`.
pub proof fn lemma_cube_bounds(s: int)
    requires
        0 <= s <= MAX_DIM,
    ensures
        s * s <= 0x100000,
        s * s * s <= 0x40000000,
{
    assert(s * s <= 0x100000 && s * s * s <= 0x40000000) by (nonlinear_arith)
        requires
            0 <= s <= 1024,
    ;
}

/// Distinct coordinates give distinct flat indices.
pub proof fn lemma_grid_index_injective(s: int, x1: int, y1: int, z1: int, x2: int, y2: int, z2: int)
    requires
        0 <= x1 < s,
        0 <= y1 < s,
        0 <= z1 < s,
        0 <= x2 < s,
        0 <= y2 < s,
        0 <= z2 < s,
        grid_index(s, x1, y1, z1) == grid_index(s, x2, y2, z2),
    ensures
        x1 == x2 && y1 == y2 && z1 == z2,
{
    assert(x1 == x2 && y1 == y2 && z1 == z2) by (nonlinear_arith)
        requires
            0 <= x1 < s,
            0 <= y1 < s,
            0 <= z1 < s,
            0 <= x2 < s,
            0 <= y2 < s,
            0 <= z2 < s,
            (x1 * s + y1) * s + z1 == (x2 * s + y2) * s + z2,
    ;
}

/// Why an asset was rejected before any volume was built.
#[derive(Clone, Copy, Debug, PartialEq, Eq, Structural)]
pub enum AssetLoadError {
    /// The model has no parts, or every part has a zero extent.
    EmptyModel,
    /// The shared palette has more than 256 entries.
    PaletteTooLarge,
    /// A voxel entry names a palette index at or past the palette's end.
    PaletteIndexOutOfRange,
    /// A voxel entry lies outside its part's declared size.
    VoxelOutOfBounds,
    /// The model's extent exceeds the largest supported cube.
    VolumeTooLarge,
    /// A dense grid's cell count does not match its declared shape.
    ShapeMismatch,
}

/// One sparse voxel of a model part: a local position and a 0-based
/// palette index. The stored material value becomes `i + 1`.
#[derive(Clone, Copy, Debug, PartialEq, Eq, Structural)]
pub struct ModelVoxel {
    pub x: u32,
    pub y: u32,
    pub z: u32,
    pub i: u8,
}

/// One part of a voxel model: an integer offset, a declared size, and the
/// occupied cells inside that size.
#[derive(Clone, Debug)]
pub struct ModelPart {
    pub offset_x: u32,
    pub offset_y: u32,
    pub offset_z: u32,
    pub size_x: u32,
    pub size_y: u32,
    pub size_z: u32,
    pub voxels: Vec<ModelVoxel>,
}

impl ModelPart {
    /// The exclusive upper bound this part claims on each model axis.
    pub open spec fn extent_x(self) -> int {
        self.offset_x + self.size_x
    }

    pub open spec fn extent_y(self) -> int {
        self.offset_y + self.size_y
    }

    pub open spec fn extent_z(self) -> int {
        self.offset_z + self.size_z
    }

    /// Every voxel entry lies inside the declared size.
    pub open spec fn voxels_in_bounds(self) -> bool {
        forall|j: int|
            0 <= j < self.voxels.len() ==> (#[trigger] self.voxels[j]).x < self.size_x
                && self.voxels[j].y < self.size_y && self.voxels[j].z < self.size_z
    }

    /// Every voxel entry's palette index is below `n`.
    pub open spec fn palette_in_range(self, n: int) -> bool {
        forall|j: int| 0 <= j < self.voxels.len() ==> (#[trigger] self.voxels[j]).i < n
    }
}

/// A decoded voxel model: its parts and the shared palette.
pub struct VoxModel {
    pub parts: Vec<ModelPart>,
    pub palette: Vec<Color>,
}

/// Component-wise maximum, over the first `k` parts, of `offset + size`
/// across all three axes: the side the bounding cube must reach.
pub open spec fn parts_extent(parts: Seq<ModelPart>, k: int) -> int
    decreases k,
{
    if k <= 0 {
        0
    } else {
        let p = parts[k - 1];
        let e = vstd::math::max3(p.extent_x(), p.extent_y(), p.extent_z());
        vstd::math::max(parts_extent(parts, k - 1), e)
    }
}

/// Flat index, in a cube of side `dim`, written by model voxel `v` of part
/// `p`: the model position `offset + local` with the model's vertical axis
/// mapped to the builder's third axis (`engine(x, y, z) = model(x, z, y)`).
pub open spec fn voxel_target(p: ModelPart, v: ModelVoxel, dim: int) -> int {
    grid_index(
        dim,
        p.offset_x + v.x,
        p.offset_z + v.z,
        p.offset_y + v.y,
    )
}

/// Cells after the first `j` voxels of part `p` are written over `cells`.
pub open spec fn apply_voxels(cells: Seq<u32>, p: ModelPart, j: int, dim: int) -> Seq<u32>
    decreases j,
{
    if j <= 0 {
        cells
    } else {
        let v = p.voxels[j - 1];
        apply_voxels(cells, p, j - 1, dim).update(voxel_target(p, v, dim), (v.i + 1) as u32)
    }
}

/// Cells after the first `k` parts are written, in order, over `cells`.
pub open spec fn apply_parts(cells: Seq<u32>, parts: Seq<ModelPart>, k: int, dim: int) -> Seq<u32>
    decreases k,
{
    if k <= 0 {
        cells
    } else {
        let p = parts[k - 1];
        apply_voxels(apply_parts(cells, parts, k - 1, dim), p, p.voxels.len() as int, dim)
    }
}

/// The canonical dense volume: a cube of side `dim = 2^depth`, each cell a
/// material value, `0` meaning empty and `v > 0` resolving to
/// `palette[v - 1]`.
pub struct Voxels {
    pub dim: usize,
    pub depth: usize,
    pub voxels: Vec<u32>,
    pub palette: Vec<Color>,
}

impl Voxels {
    /// Structural invariant: the side is a power of two between 2 and
    /// `MAX_DIM`, the cell array fills the cube, and every material value
    /// resolves inside the palette.
    pub open spec fn wf(self) -> bool {
        &&& 1 <= self.depth <= MAX_DEPTH
        &&& self.dim == pow2(self.depth as nat)
        &&& self.voxels.len() == self.dim * self.dim * self.dim
        &&& self.palette.len() <= 256
        &&& forall|i: int| 0 <= i < self.voxels.len() ==> #[trigger] self.voxels[i] <= self.palette.len()
    }

    /// Side length, as the renderer configuration consumes it.
    pub fn dim(&self) -> (r: u32)
        requires
            self.wf(),
        ensures
            r == self.dim,
    {
        proof {
            lemma_pow2_le_max_dim(self.depth as nat);
        }
        self.dim as u32
    }

    /// Material value of one cell.
    pub fn get(&self, x: usize, y: usize, z: usize) -> (r: u32)
        requires
            self.wf(),
            x < self.dim,
            y < self.dim,
            z < self.dim,
        ensures
            r == self.voxels[grid_index(self.dim as int, x as int, y as int, z as int)],
    {
        proof {
            lemma_pow2_le_max_dim(self.depth as nat);
            lemma_cube_bounds(self.dim as int);
            lemma_grid_index_bounds(self.dim as int, x as int, y as int, z as int);
        }
        self.voxels[(x * self.dim + y) * self.dim + z]
    }
}

/// `pow2` of a supported depth stays within `MAX_DIM`.
pub proof fn lemma_pow2_le_max_dim(d: nat)
    requires
        d <= MAX_DEPTH,
    ensures
        pow2(d) <= MAX_DIM,
        d >= 1 ==> pow2(d) >= 2,
{
    vstd::arithmetic::power2::lemma2_to64();
    if d < MAX_DEPTH as nat {
        lemma_pow2_strictly_increases(d, MAX_DEPTH as nat);
    }
    if d >= 1 {
        if d > 1 {
            lemma_pow2_strictly_increases(1, d);
        }
        lemma_pow2_unfold(1);
    }
}

/// Extent of every part is bounded by the whole model's extent.
pub proof fn lemma_parts_extent_ge(parts: Seq<ModelPart>, n: int, k: int)
    requires
        0 <= k < n <= parts.len(),
    ensures
        parts[k].extent_x() <= parts_extent(parts, n),
        parts[k].extent_y() <= parts_extent(parts, n),
        parts[k].extent_z() <= parts_extent(parts, n),
    decreases n,
{
    if k < n - 1 {
        lemma_parts_extent_ge(parts, n - 1, k);
    }
}

/// The extent is never negative.
pub proof fn lemma_parts_extent_nonneg(parts: Seq<ModelPart>, n: int)
    requires
        n <= parts.len(),
    ensures
        parts_extent(parts, n) >= 0,
    decreases n,
{
    if n > 0 {
        lemma_parts_extent_nonneg(parts, n - 1);
    }
}

/// The first rejection `load` owes the model, if any: an empty model, an
/// oversized extent, an oversized palette, a voxel outside its part, or a
/// palette index past the palette's end, tested in that order.
pub open spec fn load_rejection(m: VoxModel) -> Option<AssetLoadError> {
    let ext = parts_extent(m.parts@, m.parts.len() as int);
    if m.parts.len() == 0 || ext == 0 {
        Some(AssetLoadError::EmptyModel)
    } else if ext > MAX_DIM {
        Some(AssetLoadError::VolumeTooLarge)
    } else if m.palette.len() > 256 {
        Some(AssetLoadError::PaletteTooLarge)
    } else if exists|k: int| 0 <= k < m.parts.len() && !(#[trigger] m.parts[k]).voxels_in_bounds() {
        Some(AssetLoadError::VoxelOutOfBounds)
    } else if exists|k: int|
        0 <= k < m.parts.len() && !(#[trigger] m.parts[k]).palette_in_range(m.palette.len() as int) {
        Some(AssetLoadError::PaletteIndexOutOfRange)
    } else {
        None
    }
}

/// Builds the canonical cubic volume from a decoded model: the bounding
/// extent is the component-wise maximum of `offset + size` over all parts,
/// rounded up to a power of two; every voxel entry writes `index + 1` at
/// the axis-swapped engine position; later writes win. Fails exactly when
/// `load_rejection` names an error.
#[verifier::loop_isolation(false)]
pub fn load(model: VoxModel) -> (r: Result<Voxels, AssetLoadError>)
    ensures
        match r {
            Result::Ok(v) => {
                let ext = parts_extent(model.parts@, model.parts.len() as int);
                &&& load_rejection(model) is None
                &&& v.wf()
                &&& v.palette@ == model.palette@
                &&& v.dim >= ext
                &&& (v.depth > 1 ==> pow2((v.depth - 1) as nat) < ext)
                &&& v.voxels@ == apply_parts(
                    Seq::new((v.dim * v.dim * v.dim) as nat, |i: int| 0u32),
                    model.parts@,
                    model.parts.len() as int,
                    v.dim as int,
                )
            },
            Result::Err(e) => load_rejection(model) == Some(e),
        },
{
    let n = model.parts.len();
    if n == 0 {
        return Err(AssetLoadError::EmptyModel);
    }

    // Bounding extent, in u64 so that offset + size cannot overflow.
    let mut ext: u64 = 0;
    let mut k: usize = 0;
    while k < n
        invariant
            k <= n,
            n == model.parts.len(),
            ext == parts_extent(model.parts@, k as int),
            ext <= u64::MAX - 0x2_0000_0000,
        decreases n - k,
    {
        let p = &model.parts[k];
        let ex = p.offset_x as u64 + p.size_x as u64;
        let ey = p.offset_y as u64 + p.size_y as u64;
        let ez = p.offset_z as u64 + p.size_z as u64;
        let mut e = ex;
        if ey > e {
            e = ey;
        }
        if ez > e {
            e = ez;
        }
        if e > ext {
            ext = e;
        }
        k = k + 1;
    }
    proof {
        lemma_parts_extent_nonneg(model.parts@, n as int);
    }
    if ext == 0 {
        return Err(AssetLoadError::EmptyModel);
    }
    if ext > MAX_DIM as u64 {
        return Err(AssetLoadError::VolumeTooLarge);
    }
    if model.palette.len() > 256 {
        return Err(AssetLoadError::PaletteTooLarge);
    }

    // Every voxel entry must lie inside its part's declared size.
    let mut k: usize = 0;
    while k < n
        invariant
            k <= n,
            n == model.parts.len(),
            forall|t: int| 0 <= t < k ==> (#[trigger] model.parts[t]).voxels_in_bounds(),
        decreases n - k,
    {
        let p = &model.parts[k];
        let m = p.voxels.len();
        let mut j: usize = 0;
        while j < m
            invariant
                j <= m,
                m == p.voxels.len(),
                forall|t: int|
                    0 <= t < j ==> (#[trigger] p.voxels[t]).x < p.size_x && p.voxels[t].y
                        < p.size_y && p.voxels[t].z < p.size_z,
            decreases m - j,
        {
            let v = &p.voxels[j];
            if v.x >= p.size_x || v.y >= p.size_y || v.z >= p.size_z {
                proof {
                    assert(!model.parts[k as int].voxels_in_bounds());
                }
                return Err(AssetLoadError::VoxelOutOfBounds);
            }
            j = j + 1;
        }
        k = k + 1;
    }

    // Every voxel entry must name an existing palette entry.
    let pal_len = model.palette.len();
    let mut k: usize = 0;
    while k < n
        invariant
            k <= n,
            n == model.parts.len(),
            pal_len == model.palette.len(),
            forall|t: int|
                0 <= t < k ==> (#[trigger] model.parts[t]).palette_in_range(pal_len as int),
        decreases n - k,
    {
        let p = &model.parts[k];
        let m = p.voxels.len();
        let mut j: usize = 0;
        while j < m
            invariant
                j <= m,
                m == p.voxels.len(),
                pal_len == model.palette.len(),
                forall|t: int| 0 <= t < j ==> (#[trigger] p.voxels[t]).i < pal_len,
            decreases m - j,
        {
            let v = &p.voxels[j];
            if v.i as usize >= pal_len {
                proof {
                    assert(!model.parts[k as int].palette_in_range(pal_len as int));
                }
                return Err(AssetLoadError::PaletteIndexOutOfRange);
            }
            j = j + 1;
        }
        k = k + 1;
    }

    // Allocate the zero-filled cube.
    let (dim, depth) = pow2_side_at_least(ext as usize);
    proof {
        lemma_cube_bounds(dim as int);
    }
    let total = dim * dim * dim;
    let ghost zeros = Seq::new(total as nat, |i: int| 0u32);
    let mut cells: Vec<u32> = Vec::new();
    while cells.len() < total
        invariant
            cells.len() <= total,
            cells@ == zeros.subrange(0, cells.len() as int),
        decreases total - cells.len(),
    {
        proof {
            assert(zeros.subrange(0, cells.len() as int + 1) =~= zeros.subrange(
                0,
                cells.len() as int,
            ).push(0u32));
        }
        cells.push(0u32);
    }
    proof {
        assert(cells@ =~= zeros);
    }

    // Write each part's voxels; later writes overwrite earlier ones.
    let mut k: usize = 0;
    while k < n
        invariant
            k <= n,
            n == model.parts.len(),
            pal_len == model.palette.len() <= 256,
            dim <= MAX_DIM,
            ext <= dim,
            total == dim * dim * dim,
            cells.len() == total,
            forall|t: int| 0 <= t < k ==> (#[trigger] model.parts[t]).voxels_in_bounds(),
            forall|t: int| 0 <= t < n ==> (#[trigger] model.parts[t]).voxels_in_bounds(),
            forall|t: int|
                0 <= t < n ==> (#[trigger] model.parts[t]).palette_in_range(pal_len as int),
            ext == parts_extent(model.parts@, n as int),
            cells@ == apply_parts(zeros, model.parts@, k as int, dim as int),
            forall|i: int| 0 <= i < cells.len() ==> #[trigger] cells[i] <= pal_len,
        decreases n - k,
    {
        let p = &model.parts[k];
        proof {
            lemma_parts_extent_ge(model.parts@, n as int, k as int);
        }
        let m = p.voxels.len();
        let mut j: usize = 0;
        while j < m
            invariant
                j <= m,
                k < n,
                m == p.voxels.len(),
                p == model.parts@[k as int],
                n == model.parts.len(),
                pal_len == model.palette.len() <= 256,
                dim <= MAX_DIM,
                ext <= dim,
                total == dim * dim * dim,
                cells.len() == total,
                p.voxels_in_bounds(),
                p.palette_in_range(pal_len as int),
                p.extent_x() <= ext,
                p.extent_y() <= ext,
                p.extent_z() <= ext,
                cells@ == apply_voxels(
                    apply_parts(zeros, model.parts@, k as int, dim as int),
                    *p,
                    j as int,
                    dim as int,
                ),
                forall|i: int| 0 <= i < cells.len() ==> #[trigger] cells[i] <= pal_len,
            decreases m - j,
        {
            let v = &p.voxels[j];
            let ex = (p.offset_x + v.x) as usize;
            let ey = (p.offset_z + v.z) as usize;
            let ez = (p.offset_y + v.y) as usize;
            proof {
                lemma_grid_index_bounds(dim as int, ex as int, ey as int, ez as int);
            }
            let idx = (ex * dim + ey) * dim + ez;
            let value = v.i as u32 + 1;
            cells[idx] = value;
            j = j + 1;
        }
        k = k + 1;
    }

    Ok(Voxels { dim, depth, voxels: cells, palette: model.palette })
}

/// Byte `k` of the little-endian encoding of `v`: the exact host-to-device
/// layout of 32-bit cell values.
pub open spec fn u32_le_byte(v: u32, k: int) -> u8 {
    if k == 0 {
        (v & 0xFF) as u8
    } else if k == 1 {
        ((v >> 8u32) & 0xFF) as u8
    } else if k == 2 {
        ((v >> 16u32) & 0xFF) as u8
    } else {
        ((v >> 24u32) & 0xFF) as u8
    }
}

/// Pushes the four little-endian bytes of `v`.
pub fn push_u32_le(out: &mut Vec<u8>, v: u32)
    ensures
        final(out).len() == old(out).len() + 4,
        final(out)@ == old(out)@ + Seq::new(4, |k: int| u32_le_byte(v, k)),
{
    proof {
        assert(v & 0xFF < 256 && (v >> 8u32) & 0xFF < 256 && (v >> 16u32) & 0xFF < 256 && (v
            >> 24u32) & 0xFF < 256) by (bit_vector);
    }
    out.push((v & 0xFF) as u8);
    out.push(((v >> 8u32) & 0xFF) as u8);
    out.push(((v >> 16u32) & 0xFF) as u8);
    out.push(((v >> 24u32) & 0xFF) as u8);
    proof {
        assert(out@ =~= old(out)@ + Seq::new(4, |k: int| u32_le_byte(v, k)));
    }
}

impl Voxels {
    /// The dense material grid as the device consumes it: each cell one
    /// little-endian 32-bit word, cells in flat grid order.
    #[verifier::loop_isolation(false)]
    pub fn voxels_bytes(&self) -> (r: Vec<u8>)
        ensures
            r@.len() == 4 * self.voxels.len(),
            forall|i: int, k: int|
                0 <= i < self.voxels.len() && 0 <= k < 4 ==> r@[4 * i + k] == #[trigger] u32_le_byte(
                    self.voxels@[i],
                    k,
                ),
    {
        let mut out: Vec<u8> = Vec::new();
        let mut i: usize = 0;
        while i < self.voxels.len()
            invariant
                i <= self.voxels.len(),
                out.len() == 4 * i,
                forall|t: int, k: int|
                    0 <= t < i && 0 <= k < 4 ==> out@[4 * t + k] == #[trigger] u32_le_byte(
                        self.voxels@[t],
                        k,
                    ),
            decreases self.voxels.len() - i,
        {
            push_u32_le(&mut out, self.voxels[i]);
            i = i + 1;
        }
        out
    }
}

/// Coordinates of the cell at flat index `i` in a cube of side `s`.
pub open spec fn cell_x(s: int, i: int) -> int {
    i / (s * s)
}

pub open spec fn cell_y(s: int, i: int) -> int {
    (i / s) % s
}

pub open spec fn cell_z(s: int, i: int) -> int {
    i % s
}

/// Decoding a flat index gives back the coordinates that produced it.
pub proof fn lemma_grid_index_decode(s: int, x: int, y: int, z: int)
    requires
        0 <= x < s,
        0 <= y < s,
        0 <= z < s,
    ensures
        cell_x(s, grid_index(s, x, y, z)) == x,
        cell_y(s, grid_index(s, x, y, z)) == y,
        cell_z(s, grid_index(s, x, y, z)) == z,
{
    let i = grid_index(s, x, y, z);
    assert(i / (s * s) == x && (i / s) % s == y && i % s == z) by (nonlinear_arith)
        requires
            0 <= x < s,
            0 <= y < s,
            0 <= z < s,
            i == (x * s + y) * s + z,
    ;
}

pub proof fn lemma_box_index_bounds(sx: int, sy: int, sz: int, x: int, y: int, z: int)
    requires
        0 <= x < sx,
        0 <= y < sy,
        0 <= z < sz,
    ensures
        0 <= box_index(sy, sz, x, y, z) < sx * sy * sz,
        0 <= x * sy + y < sx * sy,
{
    assert(0 <= (x * sy + y) * sz + z < sx * sy * sz && 0 <= x * sy + y < sx * sy)
        by (nonlinear_arith)
        requires
            0 <= x < sx,
            0 <= y < sy,
            0 <= z < sz,
    ;
}

/// Value of cube cell `i` when a grid of shape `(sx, sy, sz)` is embedded
/// at the origin of a zero-filled cube of side `s`.
pub open spec fn embedded_cell(
    src: Seq<u32>,
    sx: int,
    sy: int,
    sz: int,
    s: int,
    i: int,
) -> u32 {
    if cell_x(s, i) < sx && cell_y(s, i) < sy && cell_z(s, i) < sz {
        src[box_index(sy, sz, cell_x(s, i), cell_y(s, i), cell_z(s, i))]
    } else {
        0u32
    }
}

/// The whole embedded cube.
pub open spec fn embedded(src: Seq<u32>, sx: int, sy: int, sz: int, s: int) -> Seq<u32> {
    Seq::new((s * s * s) as nat, |i: int| embedded_cell(src, sx, sy, sz, s, i))
}

/// The first rejection `Voxels::from_grid` owes a dense grid, if any.
pub open spec fn grid_rejection(
    sx: int,
    sy: int,
    sz: int,
    src: Seq<u32>,
    palette: Seq<Color>,
) -> Option<AssetLoadError> {
    let ext = vstd::math::max3(sx, sy, sz);
    if ext == 0 {
        Some(AssetLoadError::EmptyModel)
    } else if ext > MAX_DIM {
        Some(AssetLoadError::VolumeTooLarge)
    } else if src.len() != sx * sy * sz {
        Some(AssetLoadError::ShapeMismatch)
    } else if palette.len() > 256 {
        Some(AssetLoadError::PaletteTooLarge)
    } else if exists|i: int| 0 <= i < src.len() && #[trigger] src[i] > palette.len() {
        Some(AssetLoadError::PaletteIndexOutOfRange)
    } else {
        None
    }
}

impl Voxels {
    /// Builds the canonical volume from an already-dense material grid of
    /// shape `(sx, sy, sz)` (third axis fastest), embedding it at the
    /// origin of a zero-filled power-of-two cube. Material values are kept
    /// as they are: `v > 0` must already name `palette[v - 1]`.
    #[verifier::loop_isolation(false)]
    pub fn from_grid(
        sx: usize,
        sy: usize,
        sz: usize,
        src: Vec<u32>,
        palette: Vec<Color>,
    ) -> (r: Result<Voxels, AssetLoadError>)
        ensures
            match r {
                Result::Ok(v) => {
                    let ext = vstd::math::max3(sx as int, sy as int, sz as int);
                    &&& grid_rejection(sx as int, sy as int, sz as int, src@, palette@) is None
                    &&& v.wf()
                    &&& v.palette@ == palette@
                    &&& v.dim >= ext
                    &&& (v.depth > 1 ==> pow2((v.depth - 1) as nat) < ext)
                    &&& v.voxels@ == embedded(src@, sx as int, sy as int, sz as int, v.dim as int)
                },
                Result::Err(e) => grid_rejection(sx as int, sy as int, sz as int, src@, palette@)
                    == Some(e),
            },
    {
        let mut ext = sx;
        if sy > ext {
            ext = sy;
        }
        if sz > ext {
            ext = sz;
        }
        if ext == 0 {
            return Err(AssetLoadError::EmptyModel);
        }
        if ext > MAX_DIM {
            return Err(AssetLoadError::VolumeTooLarge);
        }
        proof {
            assert(sx * sy <= 0x100000 && sx * sy * sz <= 0x40000000) by (nonlinear_arith)
                requires
                    0 <= sx <= 1024,
                    0 <= sy <= 1024,
                    0 <= sz <= 1024,
            ;
        }
        if src.len() != sx * sy * sz {
            return Err(AssetLoadError::ShapeMismatch);
        }
        if palette.len() > 256 {
            return Err(AssetLoadError::PaletteTooLarge);
        }
        let pal_len = palette.len();
        let mut i: usize = 0;
        while i < src.len()
            invariant
                i <= src.len(),
                forall|t: int| 0 <= t < i ==> #[trigger] src[t] <= pal_len,
            decreases src.len() - i,
        {
            if src[i] as usize > pal_len {
                return Err(AssetLoadError::PaletteIndexOutOfRange);
            }
            i = i + 1;
        }

        let (dim, depth) = pow2_side_at_least(ext);
        proof {
            lemma_cube_bounds(dim as int);
        }
        let ghost target = embedded(src@, sx as int, sy as int, sz as int, dim as int);
        let mut cells: Vec<u32> = Vec::new();
        let mut x: usize = 0;
        while x < dim
            invariant
                x <= dim,
                cells.len() == x * dim * dim,
                cells.len() <= dim * dim * dim,
                cells@ == target.subrange(0, cells.len() as int),
            decreases dim - x,
        {
            let mut y: usize = 0;
            while y < dim
                invariant
                    y <= dim,
                    cells.len() == x * dim * dim + y * dim,
                    cells.len() <= dim * dim * dim,
                    cells@ == target.subrange(0, cells.len() as int),
                decreases dim - y,
            {
                let mut z: usize = 0;
                while z < dim
                    invariant
                        z <= dim,
                        cells.len() == x * dim * dim + y * dim + z,
                        cells.len() <= dim * dim * dim,
                        cells@ == target.subrange(0, cells.len() as int),
                    decreases dim - z,
                {
                    proof {
                        lemma_grid_index_bounds(dim as int, x as int, y as int, z as int);
                        assert(cells.len() == grid_index(dim as int, x as int, y as int, z as int))
                            by (nonlinear_arith)
                            requires
                                cells.len() == x * dim * dim + y * dim + z,
                        ;
                        lemma_grid_index_decode(dim as int, x as int, y as int, z as int);
                        if x < sx && y < sy && z < sz {
                            lemma_box_index_bounds(
                                sx as int,
                                sy as int,
                                sz as int,
                                x as int,
                                y as int,
                                z as int,
                            );
                        }
                    }
                    let val: u32 = if x < sx && y < sy && z < sz {
                        src[(x * sy + y) * sz + z]
                    } else {
                        0u32
                    };
                    proof {
                        assert(val == target[cells.len() as int]);
                        assert(target.subrange(0, cells.len() as int + 1) =~= target.subrange(
                            0,
                            cells.len() as int,
                        ).push(val));
                    }
                    cells.push(val);
                    z = z + 1;
                }
                proof {
                    assert((y + 1) * dim == y * dim + dim) by (nonlinear_arith);
                    assert(x * dim * dim + (y + 1) * dim <= dim * dim * dim) by (nonlinear_arith)
                        requires
                            0 <= x < dim,
                            0 <= y < dim,
                    ;
                }
                y = y + 1;
            }
            proof {
                assert(x * dim * dim + dim * dim == (x + 1) * dim * dim) by (nonlinear_arith);
                assert((x + 1) * dim * dim <= dim * dim * dim) by (nonlinear_arith)
                    requires
                        0 <= x < dim,
                ;
            }
            x = x + 1;
        }
        proof {
            assert(cells@ =~= target);
            assert forall|t: int| 0 <= t < cells.len() implies #[trigger] cells[t] <= pal_len by {
                let cx = cell_x(dim as int, t);
                let cy = cell_y(dim as int, t);
                let cz = cell_z(dim as int, t);
                if cx < sx && cy < sy && cz < sz {
                    lemma_box_index_bounds(sx as int, sy as int, sz as int, cx, cy, cz);
                }
            }
        }
        Ok(Voxels { dim, depth, voxels: cells, palette })
    }
}
/// exponent; never smaller than 2.
fn pow2_side_at_least(ext: usize) -> (r: (usize, usize))
    requires
        1 <= ext <= MAX_DIM,
    ensures
        r.1 >= 1,
        r.1 <= MAX_DEPTH,
        r.0 == pow2(r.1 as nat),
        r.0 >= ext,
        r.0 >= 2,
        r.0 <= MAX_DIM,
        r.1 > 1 ==> pow2((r.1 - 1) as nat) < ext,
{
    let mut side: usize = 2;
    let mut depth: usize = 1;
    proof {
        lemma_pow2_unfold(1);
        vstd::arithmetic::power2::lemma2_to64();
    }
    while side < ext
        invariant
            1 <= depth <= MAX_DEPTH,
            side == pow2(depth as nat),
            side <= MAX_DIM,
            ext <= MAX_DIM,
            depth > 1 ==> pow2((depth - 1) as nat) < ext,
        decreases MAX_DIM - side,
    {
        proof {
            // side < ext <= MAX_DIM = pow2(MAX_DEPTH), so depth < MAX_DEPTH.
            vstd::arithmetic::power2::lemma2_to64();
            lemma_pow2_unfold((depth + 1) as nat);
            lemma_pow2_le_max_dim((depth + 1) as nat);
        }
        side = side * 2;
        depth = depth + 1;
    }
    (side, depth)
}

} // verus!
