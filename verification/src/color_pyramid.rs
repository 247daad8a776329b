use vstd::prelude::*;
use vstd::arithmetic::power2::pow2;

use crate::color::Color;
use crate::occupancy::lemma_pow2_injective;
use crate::volume::{
    cell_x, cell_y, cell_z, grid_index, lemma_cube_bounds, lemma_grid_index_bounds,
    lemma_grid_index_decode, lemma_pow2_le_max_dim, Voxels, MAX_DEPTH,
};

verus! {

/// Color of one volume cell once resolved through the palette: empty cells
/// are fully transparent black, a value `v > 0` is `palette[v - 1]`.
pub open spec fn resolved_cell(cells: Seq<u32>, palette: Seq<Color>, i: int) -> Color {
    if cells[i] == 0 {
        Color { r: 0, g: 0, b: 0, a: 0 }
    } else {
        palette[cells[i] - 1]
    }
}

/// The finest color level: every cell resolved through the palette.
pub open spec fn resolved_level(cells: Seq<u32>, palette: Seq<Color>) -> Seq<Color> {
    Seq::new(cells.len(), |i: int| resolved_cell(cells, palette, i))
}

/// The unweighted arithmetic mean, channel by channel and rounded down, of
/// the 2x2x2 block of `prev` (side `ps`) rooted at `(2x, 2y, 2z)`. Fully
/// transparent children take part like any others, which biases coarse
/// colors toward transparent black near sparse surfaces.
pub open spec fn block_mean(prev: Seq<Color>, ps: int, x: int, y: int, z: int) -> Color {
    let c0 = prev[grid_index(ps, 2 * x, 2 * y, 2 * z)];
    let c1 = prev[grid_index(ps, 2 * x, 2 * y, 2 * z + 1)];
    let c2 = prev[grid_index(ps, 2 * x, 2 * y + 1, 2 * z)];
    let c3 = prev[grid_index(ps, 2 * x, 2 * y + 1, 2 * z + 1)];
    let c4 = prev[grid_index(ps, 2 * x + 1, 2 * y, 2 * z)];
    let c5 = prev[grid_index(ps, 2 * x + 1, 2 * y, 2 * z + 1)];
    let c6 = prev[grid_index(ps, 2 * x + 1, 2 * y + 1, 2 * z)];
    let c7 = prev[grid_index(ps, 2 * x + 1, 2 * y + 1, 2 * z + 1)];
    Color {
        r: ((c0.r + c1.r + c2.r + c3.r + c4.r + c5.r + c6.r + c7.r) / 8) as u8,
        g: ((c0.g + c1.g + c2.g + c3.g + c4.g + c5.g + c6.g + c7.g) / 8) as u8,
        b: ((c0.b + c1.b + c2.b + c3.b + c4.b + c5.b + c6.b + c7.b) / 8) as u8,
        a: ((c0.a + c1.a + c2.a + c3.a + c4.a + c5.a + c6.a + c7.a) / 8) as u8,
    }
}

/// The whole color level of side `s` averaged down from `prev` of side `2s`.
pub open spec fn mean_level(prev: Seq<Color>, s: int) -> Seq<Color> {
    Seq::new(
        (s * s * s) as nat,
        |i: int| block_mean(prev, 2 * s, cell_x(s, i), cell_y(s, i), cell_z(s, i)),
    )
}

/// The color mip pyramid of a volume: the same level sizes as the
/// occupancy pyramid, level 0 the palette-resolved volume, each coarser
/// cell the channel-wise mean of its eight children.
pub struct ColorPyramid {
    pub dim: usize,
    pub depth: usize,
    pub levels: Vec<Vec<Color>>,
}

impl ColorPyramid {
    /// Side of level `n`.
    pub open spec fn side_of(self, n: int) -> int {
        pow2((self.depth - n) as nat) as int
    }

    /// Structural invariant: level count, level sizes, and the averaging
    /// relation between consecutive levels.
    pub open spec fn wf(self) -> bool {
        &&& 1 <= self.depth <= MAX_DEPTH
        &&& self.dim == pow2(self.depth as nat)
        &&& self.levels.len() == self.depth
        &&& forall|n: int|
            0 <= n < self.depth ==> (#[trigger] self.levels[n]).len() == self.side_of(n)
                * self.side_of(n) * self.side_of(n)
        &&& forall|n: int|
            1 <= n < self.depth ==> (#[trigger] self.levels[n])@ == mean_level(
                self.levels[n - 1]@,
                self.side_of(n),
            )
    }

    /// Color of cell `(x, y, z)` of level `n`.
    pub open spec fn color_at(self, n: int, x: int, y: int, z: int) -> Color {
        self.levels[n][grid_index(self.side_of(n), x, y, z)]
    }
}

/// Builds the color pyramid of a volume. Level 0 resolves every cell
/// through the palette; each of the remaining levels is the channel-wise
/// mean reduction of the one below it.
#[verifier::loop_isolation(false)]
#[verifier::rlimit(100)]
pub fn build_colors(v: &Voxels) -> (p: ColorPyramid)
    requires
        v.wf(),
    ensures
        p.wf(),
        p.dim == v.dim,
        p.depth == v.depth,
        p.levels[0]@ == resolved_level(v.voxels@, v.palette@),
{
    let dim = v.dim;
    let depth = v.depth;
    proof {
        lemma_pow2_le_max_dim(depth as nat);
        lemma_cube_bounds(dim as int);
    }
    let total = dim * dim * dim;

    let mut base: Vec<Color> = Vec::new();
    let mut i: usize = 0;
    while i < total
        invariant
            i <= total,
            base@ == resolved_level(v.voxels@, v.palette@).subrange(0, i as int),
        decreases total - i,
    {
        let m = v.voxels[i];
        let val = if m == 0 {
            Color { r: 0, g: 0, b: 0, a: 0 }
        } else {
            v.palette[(m - 1) as usize]
        };
        proof {
            assert(val == resolved_cell(v.voxels@, v.palette@, i as int));
            assert(resolved_level(v.voxels@, v.palette@).subrange(0, i as int + 1)
                =~= resolved_level(v.voxels@, v.palette@).subrange(0, i as int).push(val));
        }
        base.push(val);
        i = i + 1;
    }
    proof {
        assert(base@ =~= resolved_level(v.voxels@, v.palette@));
    }

    let mut levels: Vec<Vec<Color>> = Vec::new();
    levels.push(base);

    let mut side = dim;
    while side > 2
        invariant
            1 <= levels.len() <= depth,
            side == pow2((depth - (levels.len() - 1)) as nat),
            levels[0]@ == resolved_level(v.voxels@, v.palette@),
            forall|m: int|
                0 <= m < levels.len() ==> (#[trigger] levels[m]).len() == pow2(
                    (depth - m) as nat,
                ) * pow2((depth - m) as nat) * pow2((depth - m) as nat),
            forall|m: int|
                1 <= m < levels.len() ==> (#[trigger] levels[m])@ == mean_level(
                    levels[m - 1]@,
                    pow2((depth - m) as nat) as int,
                ),
        decreases side,
    {
        let n = levels.len();
        proof {
            vstd::arithmetic::power2::lemma2_to64();
            vstd::arithmetic::power2::lemma_pow2_unfold((depth - (n - 1)) as nat);
            lemma_pow2_le_max_dim((depth - (n - 1)) as nat);
            lemma_pow2_le_max_dim((depth - n) as nat);
            lemma_cube_bounds(side as int);
            lemma_cube_bounds((side / 2) as int);
        }
        let s = side / 2;
        let ghost target = mean_level(levels[n - 1 as int]@, s as int);
        let prev = &levels[n - 1];
        let mut cur: Vec<Color> = Vec::new();
        let mut x: usize = 0;
        while x < s
            invariant
                x <= s,
                cur.len() == x * s * s,
                cur.len() <= s * s * s,
                cur@ == target.subrange(0, cur.len() as int),
            decreases s - x,
        {
            let mut y: usize = 0;
            while y < s
                invariant
                    y <= s,
                    cur.len() == x * s * s + y * s,
                    cur.len() <= s * s * s,
                    cur@ == target.subrange(0, cur.len() as int),
                decreases s - y,
            {
                let mut z: usize = 0;
                while z < s
                    invariant
                        z <= s,
                        cur.len() == x * s * s + y * s + z,
                        cur.len() <= s * s * s,
                        cur@ == target.subrange(0, cur.len() as int),
                    decreases s - z,
                {
                    proof {
                        lemma_grid_index_bounds(s as int, x as int, y as int, z as int);
                        assert(cur.len() == grid_index(s as int, x as int, y as int, z as int))
                            by (nonlinear_arith)
                            requires
                                cur.len() == x * s * s + y * s + z,
                        ;
                        lemma_grid_index_decode(s as int, x as int, y as int, z as int);
                        lemma_grid_index_bounds(side as int, 2 * x as int, 2 * y as int, 2 * z as int);
                        lemma_grid_index_bounds(
                            side as int,
                            2 * x as int,
                            2 * y as int,
                            2 * z as int + 1,
                        );
                        lemma_grid_index_bounds(
                            side as int,
                            2 * x as int,
                            2 * y as int + 1,
                            2 * z as int,
                        );
                        lemma_grid_index_bounds(
                            side as int,
                            2 * x as int,
                            2 * y as int + 1,
                            2 * z as int + 1,
                        );
                        lemma_grid_index_bounds(
                            side as int,
                            2 * x as int + 1,
                            2 * y as int,
                            2 * z as int,
                        );
                        lemma_grid_index_bounds(
                            side as int,
                            2 * x as int + 1,
                            2 * y as int,
                            2 * z as int + 1,
                        );
                        lemma_grid_index_bounds(
                            side as int,
                            2 * x as int + 1,
                            2 * y as int + 1,
                            2 * z as int,
                        );
                        lemma_grid_index_bounds(
                            side as int,
                            2 * x as int + 1,
                            2 * y as int + 1,
                            2 * z as int + 1,
                        );
                    }
                    let x2 = 2 * x;
                    let y2 = 2 * y;
                    let z2 = 2 * z;
                    let c0 = prev[(x2 * side + y2) * side + z2];
                    let c1 = prev[(x2 * side + y2) * side + z2 + 1];
                    let c2 = prev[(x2 * side + (y2 + 1)) * side + z2];
                    let c3 = prev[(x2 * side + (y2 + 1)) * side + z2 + 1];
                    let c4 = prev[((x2 + 1) * side + y2) * side + z2];
                    let c5 = prev[((x2 + 1) * side + y2) * side + z2 + 1];
                    let c6 = prev[((x2 + 1) * side + (y2 + 1)) * side + z2];
                    let c7 = prev[((x2 + 1) * side + (y2 + 1)) * side + z2 + 1];
                    let r = ((c0.r as u32 + c1.r as u32 + c2.r as u32 + c3.r as u32 + c4.r as u32
                        + c5.r as u32 + c6.r as u32 + c7.r as u32) / 8) as u8;
                    let g = ((c0.g as u32 + c1.g as u32 + c2.g as u32 + c3.g as u32 + c4.g as u32
                        + c5.g as u32 + c6.g as u32 + c7.g as u32) / 8) as u8;
                    let b = ((c0.b as u32 + c1.b as u32 + c2.b as u32 + c3.b as u32 + c4.b as u32
                        + c5.b as u32 + c6.b as u32 + c7.b as u32) / 8) as u8;
                    let a = ((c0.a as u32 + c1.a as u32 + c2.a as u32 + c3.a as u32 + c4.a as u32
                        + c5.a as u32 + c6.a as u32 + c7.a as u32) / 8) as u8;
                    let val = Color { r, g, b, a };
                    proof {
                        assert(val == target[cur.len() as int]);
                        assert(target.subrange(0, cur.len() as int + 1) =~= target.subrange(
                            0,
                            cur.len() as int,
                        ).push(val));
                    }
                    cur.push(val);
                    z = z + 1;
                }
                proof {
                    assert((y + 1) * s == y * s + s) by (nonlinear_arith);
                    assert(x * s * s + (y + 1) * s <= s * s * s) by (nonlinear_arith)
                        requires
                            0 <= x < s,
                            0 <= y < s,
                    ;
                }
                y = y + 1;
            }
            proof {
                assert(x * s * s + s * s == (x + 1) * s * s) by (nonlinear_arith);
                assert((x + 1) * s * s <= s * s * s) by (nonlinear_arith)
                    requires
                        0 <= x < s,
                ;
            }
            x = x + 1;
        }
        proof {
            assert(cur@ =~= target);
        }
        levels.push(cur);
        side = s;
    }
    proof {
        vstd::arithmetic::power2::lemma2_to64();
        lemma_pow2_le_max_dim((depth - (levels.len() - 1)) as nat);
        lemma_pow2_injective((depth - (levels.len() - 1)) as nat, 1);
    }
    ColorPyramid { dim, depth, levels }
}

impl Voxels {
    /// The palette-resolved colors of the whole volume as the device
    /// consumes them: four bytes per cell (`r, g, b, a`), cells in flat
    /// grid order.
    #[verifier::loop_isolation(false)]
    pub fn colors_bytes(&self) -> (r: Vec<u8>)
        requires
            self.wf(),
        ensures
            r@.len() == 4 * self.voxels.len(),
            forall|i: int|
                0 <= i < self.voxels.len() ==> {
                    let c = #[trigger] resolved_cell(self.voxels@, self.palette@, i);
                    r@[4 * i] == c.r && r@[4 * i + 1] == c.g && r@[4 * i + 2] == c.b && r@[4 * i
                        + 3] == c.a
                },
    {
        let mut out: Vec<u8> = Vec::new();
        let mut i: usize = 0;
        while i < self.voxels.len()
            invariant
                i <= self.voxels.len(),
                out.len() == 4 * i,
                forall|t: int|
                    0 <= t < i ==> {
                        let c = #[trigger] resolved_cell(self.voxels@, self.palette@, t);
                        out@[4 * t] == c.r && out@[4 * t + 1] == c.g && out@[4 * t + 2] == c.b
                            && out@[4 * t + 3] == c.a
                    },
            decreases self.voxels.len() - i,
        {
            let m = self.voxels[i];
            let c = if m == 0 {
                Color { r: 0, g: 0, b: 0, a: 0 }
            } else {
                self.palette[(m - 1) as usize]
            };
            proof {
                assert(c == resolved_cell(self.voxels@, self.palette@, i as int));
            }
            out.push(c.r);
            out.push(c.g);
            out.push(c.b);
            out.push(c.a);
            i = i + 1;
        }
        out
    }
}

impl ColorPyramid {
    /// One color level as the device consumes it: four bytes per cell,
    /// cells in flat grid order.
    #[verifier::loop_isolation(false)]
    pub fn level_bytes(&self, n: usize) -> (r: Vec<u8>)
        requires
            n < self.levels.len(),
        ensures
            r@.len() == 4 * self.levels@[n as int].len(),
            forall|i: int|
                0 <= i < self.levels@[n as int].len() ==> {
                    let c = #[trigger] self.levels@[n as int]@[i];
                    r@[4 * i] == c.r && r@[4 * i + 1] == c.g && r@[4 * i + 2] == c.b && r@[4 * i
                        + 3] == c.a
                },
    {
        let level = &self.levels[n];
        let mut out: Vec<u8> = Vec::new();
        let mut i: usize = 0;
        while i < level.len()
            invariant
                i <= level.len(),
                out.len() == 4 * i,
                forall|t: int|
                    0 <= t < i ==> {
                        let c = #[trigger] level@[t];
                        out@[4 * t] == c.r && out@[4 * t + 1] == c.g && out@[4 * t + 2] == c.b
                            && out@[4 * t + 3] == c.a
                    },
            decreases level.len() - i,
        {
            let c = level[i];
            out.push(c.r);
            out.push(c.g);
            out.push(c.b);
            out.push(c.a);
            i = i + 1;
        }
        out
    }
}

/// Law: each coarser color cell is the exact unweighted arithmetic mean,
/// channel by channel and rounded down, of its eight children one level
/// finer — fully transparent children included.
pub proof fn lemma_color_mean(cp: ColorPyramid, n: int, x: int, y: int, z: int)
    requires
        cp.wf(),
        1 <= n < cp.depth,
        0 <= x < cp.side_of(n),
        0 <= y < cp.side_of(n),
        0 <= z < cp.side_of(n),
    ensures
        ({
            let m = cp.color_at(n, x, y, z);
            let c0 = cp.color_at(n - 1, 2 * x, 2 * y, 2 * z);
            let c1 = cp.color_at(n - 1, 2 * x, 2 * y, 2 * z + 1);
            let c2 = cp.color_at(n - 1, 2 * x, 2 * y + 1, 2 * z);
            let c3 = cp.color_at(n - 1, 2 * x, 2 * y + 1, 2 * z + 1);
            let c4 = cp.color_at(n - 1, 2 * x + 1, 2 * y, 2 * z);
            let c5 = cp.color_at(n - 1, 2 * x + 1, 2 * y, 2 * z + 1);
            let c6 = cp.color_at(n - 1, 2 * x + 1, 2 * y + 1, 2 * z);
            let c7 = cp.color_at(n - 1, 2 * x + 1, 2 * y + 1, 2 * z + 1);
            &&& m.r == (c0.r + c1.r + c2.r + c3.r + c4.r + c5.r + c6.r + c7.r) / 8
            &&& m.g == (c0.g + c1.g + c2.g + c3.g + c4.g + c5.g + c6.g + c7.g) / 8
            &&& m.b == (c0.b + c1.b + c2.b + c3.b + c4.b + c5.b + c6.b + c7.b) / 8
            &&& m.a == (c0.a + c1.a + c2.a + c3.a + c4.a + c5.a + c6.a + c7.a) / 8
        }),
{
    let s = cp.side_of(n);
    vstd::arithmetic::power2::lemma_pow2_unfold((cp.depth - (n - 1)) as nat);
    vstd::arithmetic::power2::lemma_pow2_pos((cp.depth - n) as nat);
    lemma_grid_index_bounds(s, x, y, z);
    lemma_grid_index_decode(s, x, y, z);
    assert(cp.levels[n]@ == mean_level(cp.levels[n - 1]@, s));
    assert(cp.levels[n][grid_index(s, x, y, z)] == block_mean(cp.levels[n - 1]@, 2 * s, x, y, z));
}

} // verus!
