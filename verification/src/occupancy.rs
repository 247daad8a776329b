use vstd::prelude::*;
use vstd::arithmetic::power2::{pow2, lemma_pow2_strictly_increases, lemma_pow2_unfold};

use crate::volume::{
    cell_x, cell_y, cell_z, grid_index, lemma_cube_bounds, lemma_grid_index_bounds,
    lemma_grid_index_decode, lemma_pow2_le_max_dim, Voxels, MAX_DEPTH,
};

verus! {

/// Whether any cell of the 2x2x2 block of `prev` (a grid of side `ps`)
/// rooted at `(2x, 2y, 2z)` is occupied: the reduction step of the
/// occupancy pyramid. Occupancy spreads upward and is never invented.
pub open spec fn block_any(prev: Seq<bool>, ps: int, x: int, y: int, z: int) -> bool {
    ||| prev[grid_index(ps, 2 * x, 2 * y, 2 * z)]
    ||| prev[grid_index(ps, 2 * x, 2 * y, 2 * z + 1)]
    ||| prev[grid_index(ps, 2 * x, 2 * y + 1, 2 * z)]
    ||| prev[grid_index(ps, 2 * x, 2 * y + 1, 2 * z + 1)]
    ||| prev[grid_index(ps, 2 * x + 1, 2 * y, 2 * z)]
    ||| prev[grid_index(ps, 2 * x + 1, 2 * y, 2 * z + 1)]
    ||| prev[grid_index(ps, 2 * x + 1, 2 * y + 1, 2 * z)]
    ||| prev[grid_index(ps, 2 * x + 1, 2 * y + 1, 2 * z + 1)]
}

/// The whole level of side `s` reduced from `prev` of side `2 * s`.
pub open spec fn reduced_level(prev: Seq<bool>, s: int) -> Seq<bool> {
    Seq::new(
        (s * s * s) as nat,
        |i: int| block_any(prev, 2 * s, cell_x(s, i), cell_y(s, i), cell_z(s, i)),
    )
}

/// The finest level: one occupancy bit per volume cell, set iff the
/// material value is nonzero.
pub open spec fn base_level(cells: Seq<u32>) -> Seq<bool> {
    Seq::new(cells.len(), |i: int| cells[i] != 0u32)
}

/// The multi-resolution occupancy hierarchy of a volume of side
/// `dim = 2^depth`: `depth` levels, level `n` a dense boolean grid of side
/// `dim / 2^n`, level 0 the raw volume's non-zero test, each coarser cell
/// the OR of its eight children.
pub struct OccupancyPyramid {
    pub dim: usize,
    pub depth: usize,
    pub levels: Vec<Vec<bool>>,
}

impl OccupancyPyramid {
    /// Side of level `n`.
    pub open spec fn side_of(self, n: int) -> int {
        pow2((self.depth - n) as nat) as int
    }

    /// Structural invariant: the level count, every level's size, and the
    /// OR-reduction relation between consecutive levels.
    pub open spec fn wf(self) -> bool {
        &&& 1 <= self.depth <= MAX_DEPTH
        &&& self.dim == pow2(self.depth as nat)
        &&& self.levels.len() == self.depth
        &&& forall|n: int|
            0 <= n < self.depth ==> (#[trigger] self.levels[n]).len() == self.side_of(n)
                * self.side_of(n) * self.side_of(n)
        &&& forall|n: int|
            1 <= n < self.depth ==> (#[trigger] self.levels[n])@ == reduced_level(
                self.levels[n - 1]@,
                self.side_of(n),
            )
    }

    /// Occupancy bit of cell `(x, y, z)` of level `n`.
    pub open spec fn occupied_at(self, n: int, x: int, y: int, z: int) -> bool {
        self.levels[n][grid_index(self.side_of(n), x, y, z)]
    }

    /// Reads one occupancy bit.
    pub fn level_bit(&self, n: usize, x: usize, y: usize, z: usize) -> (r: bool)
        requires
            self.wf(),
            n < self.depth,
            x < self.side_of(n as int),
            y < self.side_of(n as int),
            z < self.side_of(n as int),
        ensures
            r == self.occupied_at(n as int, x as int, y as int, z as int),
    {
        let s = side_for(self.dim, self.depth, n);
        proof {
            lemma_pow2_le_max_dim((self.depth - n) as nat);
            lemma_cube_bounds(s as int);
            lemma_grid_index_bounds(s as int, x as int, y as int, z as int);
        }
        self.levels[n][(x * s + y) * s + z]
    }
}

impl OccupancyPyramid {
    /// One occupancy level as the device consumes it: one byte per cell,
    /// `1` for occupied and `0` for empty, cells in flat grid order.
    #[verifier::loop_isolation(false)]
    pub fn level_bytes(&self, n: usize) -> (r: Vec<u8>)
        requires
            n < self.levels.len(),
        ensures
            r@.len() == self.levels@[n as int].len(),
            forall|i: int|
                0 <= i < self.levels@[n as int].len() ==> r@[i] == if self.levels@[n as int]@[i] {
                    1u8
                } else {
                    0u8
                },
    {
        let level = &self.levels[n];
        let mut out: Vec<u8> = Vec::new();
        let mut i: usize = 0;
        while i < level.len()
            invariant
                i <= level.len(),
                out.len() == i,
                forall|t: int|
                    0 <= t < i ==> out@[t] == if level@[t] {
                        1u8
                    } else {
                        0u8
                    },
            decreases level.len() - i,
        {
            let b: u8 = if level[i] {
                1
            } else {
                0
            };
            out.push(b);
            i = i + 1;
        }
        out
    }
}

impl OccupancyPyramid {
    /// The one-cell tier above the coarsest level: whether the volume
    /// holds any geometry at all, as the OR over the coarsest level's
    /// eight cells.
    pub fn any_occupied(&self) -> (r: bool)
        requires
            self.wf(),
        ensures
            r == exists|i: int|
                0 <= i < 8 && #[trigger] self.levels@[self.depth - 1]@[i],
    {
        proof {
            vstd::arithmetic::power2::lemma2_to64();
            assert(self.side_of(self.depth - 1) == 2);
        }
        let top = &self.levels[self.depth - 1];
        let mut i: usize = 0;
        while i < 8
            invariant
                i <= 8,
                top == &self.levels@[self.depth - 1],
                top.len() == 8,
                forall|t: int| 0 <= t < i ==> !(#[trigger] top@[t]),
            decreases 8 - i,
        {
            if top[i] {
                return true;
            }
            i = i + 1;
        }
        false
    }
}

/// `2^(depth - n)` computed by halving `dim = 2^depth`.
#[verifier::loop_isolation(false)]
fn side_for(dim: usize, depth: usize, n: usize) -> (s: usize)
    requires
        1 <= depth <= MAX_DEPTH,
        dim == pow2(depth as nat),
        n < depth,
    ensures
        s == pow2((depth - n) as nat),
{
    let mut s = dim;
    let mut m: usize = 0;
    while m < n
        invariant
            m <= n,
            n < depth,
            s == pow2((depth - m) as nat),
        decreases n - m,
    {
        proof {
            lemma_pow2_unfold((depth - m) as nat);
            lemma_pow2_le_max_dim((depth - m) as nat);
        }
        s = s / 2;
        m = m + 1;
    }
    s
}

/// Consecutive level sides differ by a factor of two.
pub proof fn lemma_side_double(p: OccupancyPyramid, n: int)
    requires
        p.wf(),
        1 <= n <= p.depth,
    ensures
        p.side_of(n - 1) == 2 * p.side_of(n),
        p.side_of(n) >= 1,
        p.side_of(n - 1) <= p.dim,
{
    lemma_pow2_unfold((p.depth - (n - 1)) as nat);
    lemma_pow2_le_max_dim((p.depth - (n - 1)) as nat);
    vstd::arithmetic::power2::lemma_pow2_pos((p.depth - n) as nat);
    if n > 1 {
        lemma_pow2_strictly_increases((p.depth - (n - 1)) as nat, p.depth as nat);
    }
}

/// Law: a volume of side `d = 2^k` has a pyramid of exactly `k` levels;
/// level `n` is a cube whose side halves from `d` at level 0 down to `2`
/// at the coarsest level.
pub proof fn lemma_pyramid_shape(p: OccupancyPyramid)
    requires
        p.wf(),
    ensures
        p.levels.len() == p.depth,
        p.dim == pow2(p.depth as nat),
        p.side_of(0) == p.dim,
        p.side_of(p.depth - 1) == 2,
        forall|n: int|
            0 <= n < p.depth ==> (#[trigger] p.levels[n]).len() == p.side_of(n) * p.side_of(n)
                * p.side_of(n),
        forall|n: int| 1 <= n < p.depth ==> p.side_of(n - 1) == 2 * #[trigger] p.side_of(n),
{
    vstd::arithmetic::power2::lemma2_to64();
    assert forall|n: int| 1 <= n < p.depth implies p.side_of(n - 1) == 2 * #[trigger] p.side_of(
        n,
    ) by {
        lemma_side_double(p, n);
    }
}

/// Law: a cell at a coarser level is occupied iff at least one of its
/// eight children one level finer is occupied.
pub proof fn lemma_occupancy_monotone(p: OccupancyPyramid, n: int, x: int, y: int, z: int)
    requires
        p.wf(),
        1 <= n < p.depth,
        0 <= x < p.side_of(n),
        0 <= y < p.side_of(n),
        0 <= z < p.side_of(n),
    ensures
        p.occupied_at(n, x, y, z) <==> {
            ||| p.occupied_at(n - 1, 2 * x, 2 * y, 2 * z)
            ||| p.occupied_at(n - 1, 2 * x, 2 * y, 2 * z + 1)
            ||| p.occupied_at(n - 1, 2 * x, 2 * y + 1, 2 * z)
            ||| p.occupied_at(n - 1, 2 * x, 2 * y + 1, 2 * z + 1)
            ||| p.occupied_at(n - 1, 2 * x + 1, 2 * y, 2 * z)
            ||| p.occupied_at(n - 1, 2 * x + 1, 2 * y, 2 * z + 1)
            ||| p.occupied_at(n - 1, 2 * x + 1, 2 * y + 1, 2 * z)
            ||| p.occupied_at(n - 1, 2 * x + 1, 2 * y + 1, 2 * z + 1)
        },
{
    let s = p.side_of(n);
    lemma_side_double(p, n);
    crate::volume::lemma_grid_index_bounds(s, x, y, z);
    crate::volume::lemma_grid_index_decode(s, x, y, z);
    assert(p.levels[n]@ == reduced_level(p.levels[n - 1]@, s));
    assert(p.levels[n][grid_index(s, x, y, z)] == block_any(p.levels[n - 1]@, 2 * s, x, y, z));
}

/// Equal powers of two have equal exponents.
pub proof fn lemma_pow2_injective(a: nat, b: nat)
    requires
        pow2(a) == pow2(b),
    ensures
        a == b,
{
    if a < b {
        lemma_pow2_strictly_increases(a, b);
    }
    if b < a {
        lemma_pow2_strictly_increases(b, a);
    }
}

/// Builds the occupancy pyramid of a volume. Level 0 tests each cell for a
/// nonzero material; each of the remaining `depth - 1` levels is the OR
/// reduction of the one below it.
#[verifier::loop_isolation(false)]
pub fn build_occupancy(v: &Voxels) -> (p: OccupancyPyramid)
    requires
        v.wf(),
    ensures
        p.wf(),
        p.dim == v.dim,
        p.depth == v.depth,
        p.levels[0]@ == base_level(v.voxels@),
{
    let dim = v.dim;
    let depth = v.depth;
    proof {
        lemma_pow2_le_max_dim(depth as nat);
        lemma_cube_bounds(dim as int);
    }
    let total = dim * dim * dim;

    let mut base: Vec<bool> = Vec::new();
    let mut i: usize = 0;
    while i < total
        invariant
            i <= total,
            base@ == base_level(v.voxels@).subrange(0, i as int),
        decreases total - i,
    {
        proof {
            assert(base_level(v.voxels@).subrange(0, i as int + 1) =~= base_level(
                v.voxels@,
            ).subrange(0, i as int).push(v.voxels[i as int] != 0u32));
        }
        base.push(v.voxels[i] != 0u32);
        i = i + 1;
    }
    proof {
        assert(base@ =~= base_level(v.voxels@));
    }

    let mut levels: Vec<Vec<bool>> = Vec::new();
    levels.push(base);

    let mut side = dim;
    while side > 2
        invariant
            1 <= levels.len() <= depth,
            side == pow2((depth - (levels.len() - 1)) as nat),
            levels[0]@ == base_level(v.voxels@),
            forall|m: int|
                0 <= m < levels.len() ==> (#[trigger] levels[m]).len() == pow2(
                    (depth - m) as nat,
                ) * pow2((depth - m) as nat) * pow2((depth - m) as nat),
            forall|m: int|
                1 <= m < levels.len() ==> (#[trigger] levels[m])@ == reduced_level(
                    levels[m - 1]@,
                    pow2((depth - m) as nat) as int,
                ),
        decreases side,
    {
        let n = levels.len();
        proof {
            // side > 2 = pow2(1), so its exponent is at least 2 and n < depth.
            vstd::arithmetic::power2::lemma2_to64();
            lemma_pow2_unfold((depth - (n - 1)) as nat);
            lemma_pow2_le_max_dim((depth - (n - 1)) as nat);
            lemma_pow2_le_max_dim((depth - n) as nat);
            lemma_cube_bounds(side as int);
            lemma_cube_bounds((side / 2) as int);
        }
        let s = side / 2;
        let ghost prev_view = levels[n - 1 as int]@;
        let ghost target = reduced_level(prev_view, s as int);
        let prev = &levels[n - 1];
        let mut cur: Vec<bool> = Vec::new();
        let mut x: usize = 0;
        while x < s
            invariant
                x <= s,
                cur.len() == x * s * s,
                cur.len() <= s * s * s,
                cur@ == target.subrange(0, cur.len() as int),
            decreases s - x,
        {
            let mut y: usize = 0;
            while y < s
                invariant
                    y <= s,
                    cur.len() == x * s * s + y * s,
                    cur.len() <= s * s * s,
                    cur@ == target.subrange(0, cur.len() as int),
                decreases s - y,
            {
                let mut z: usize = 0;
                while z < s
                    invariant
                        z <= s,
                        cur.len() == x * s * s + y * s + z,
                        cur.len() <= s * s * s,
                        cur@ == target.subrange(0, cur.len() as int),
                    decreases s - z,
                {
                    proof {
                        lemma_grid_index_bounds(s as int, x as int, y as int, z as int);
                        assert(cur.len() == grid_index(s as int, x as int, y as int, z as int))
                            by (nonlinear_arith)
                            requires
                                cur.len() == x * s * s + y * s + z,
                        ;
                        lemma_grid_index_decode(s as int, x as int, y as int, z as int);
                        lemma_grid_index_bounds(
                            side as int,
                            2 * x as int,
                            2 * y as int,
                            2 * z as int,
                        );
                        lemma_grid_index_bounds(
                            side as int,
                            2 * x as int + 1,
                            2 * y as int + 1,
                            2 * z as int + 1,
                        );
                        lemma_grid_index_bounds(
                            side as int,
                            2 * x as int,
                            2 * y as int + 1,
                            2 * z as int + 1,
                        );
                        lemma_grid_index_bounds(
                            side as int,
                            2 * x as int + 1,
                            2 * y as int,
                            2 * z as int + 1,
                        );
                        lemma_grid_index_bounds(
                            side as int,
                            2 * x as int + 1,
                            2 * y as int + 1,
                            2 * z as int,
                        );
                        lemma_grid_index_bounds(
                            side as int,
                            2 * x as int,
                            2 * y as int,
                            2 * z as int + 1,
                        );
                        lemma_grid_index_bounds(
                            side as int,
                            2 * x as int,
                            2 * y as int + 1,
                            2 * z as int,
                        );
                        lemma_grid_index_bounds(
                            side as int,
                            2 * x as int + 1,
                            2 * y as int,
                            2 * z as int,
                        );
                    }
                    let x2 = 2 * x;
                    let y2 = 2 * y;
                    let z2 = 2 * z;
                    let val = prev[(x2 * side + y2) * side + z2]
                        || prev[(x2 * side + y2) * side + z2 + 1]
                        || prev[(x2 * side + (y2 + 1)) * side + z2]
                        || prev[(x2 * side + (y2 + 1)) * side + z2 + 1]
                        || prev[((x2 + 1) * side + y2) * side + z2]
                        || prev[((x2 + 1) * side + y2) * side + z2 + 1]
                        || prev[((x2 + 1) * side + (y2 + 1)) * side + z2]
                        || prev[((x2 + 1) * side + (y2 + 1)) * side + z2 + 1];
                    proof {
                        assert(val == target[cur.len() as int]);
                        assert(target.subrange(0, cur.len() as int + 1) =~= target.subrange(
                            0,
                            cur.len() as int,
                        ).push(val));
                    }
                    cur.push(val);
                    z = z + 1;
                }
                proof {
                    assert((y + 1) * s == y * s + s) by (nonlinear_arith);
                    assert(x * s * s + (y + 1) * s <= s * s * s) by (nonlinear_arith)
                        requires
                            0 <= x < s,
                            0 <= y < s,
                    ;
                }
                y = y + 1;
            }
            proof {
                assert(x * s * s + s * s == (x + 1) * s * s) by (nonlinear_arith);
                assert((x + 1) * s * s <= s * s * s) by (nonlinear_arith)
                    requires
                        0 <= x < s,
                ;
            }
            x = x + 1;
        }
        proof {
            assert(cur@ =~= target);
        }
        levels.push(cur);
        side = s;
    }
    proof {
        // side == 2 forces the level count to have reached depth.
        vstd::arithmetic::power2::lemma2_to64();
        lemma_pow2_le_max_dim((depth - (levels.len() - 1)) as nat);
        lemma_pow2_injective((depth - (levels.len() - 1)) as nat, 1);
    }
    OccupancyPyramid { dim, depth, levels }
}

} // verus!
