use vstd::prelude::*;
use vstd::arithmetic::power2::pow2;

use crate::occupancy::{block_any, lemma_side_double, reduced_level, OccupancyPyramid};
use crate::volume::{
    grid_index, lemma_grid_index_bounds, lemma_grid_index_decode, lemma_pow2_le_max_dim,
    push_u32_le, u32_le_byte, MAX_DEPTH,
};

verus! {

/// One cell of the occupancy pyramid, addressed by level and coordinates.
/// The virtual root carries `level == depth` and zero coordinates.
#[derive(Clone, Copy, Debug, PartialEq, Eq, Structural)]
pub struct CellRef {
    pub level: usize,
    pub x: usize,
    pub y: usize,
    pub z: usize,
}

/// The `j`-th child of a cell: one level finer, inside the 2x2x2 block the
/// cell covers. Slot order puts the third axis fastest: `j = 4dx + 2dy + dz`.
pub open spec fn child_cell(c: CellRef, j: int) -> CellRef {
    CellRef {
        level: (c.level - 1) as usize,
        x: (2 * c.x + j / 4) as usize,
        y: (2 * c.y + (j / 2) % 2) as usize,
        z: (2 * c.z + j % 2) as usize,
    }
}

/// The cell one level coarser whose 2x2x2 block contains `c`.
pub open spec fn parent_cell(c: CellRef) -> CellRef {
    CellRef { level: (c.level + 1) as usize, x: (c.x / 2) as usize, y: (c.y / 2) as usize, z: (c.z / 2) as usize }
}

/// Which slot of its parent `c` occupies.
pub open spec fn child_code(c: CellRef) -> int {
    4 * (c.x % 2) + 2 * (c.y % 2) + c.z % 2
}

/// A cell is its parent's child at its own code.
pub proof fn lemma_child_roundtrip(c: CellRef)
    requires
        c.level < MAX_DEPTH,
        c.x < 0x1000,
        c.y < 0x1000,
        c.z < 0x1000,
    ensures
        0 <= child_code(c) < 8,
        child_cell(parent_cell(c), child_code(c)) == c,
{
    let j = child_code(c);
    assert(j / 4 == c.x % 2 && (j / 2) % 2 == c.y % 2 && j % 2 == c.z % 2) by (nonlinear_arith)
        requires
            j == 4 * (c.x % 2) + 2 * (c.y % 2) + c.z % 2,
    ;
    assert(2 * (c.x / 2) + c.x % 2 == c.x);
    assert(2 * (c.y / 2) + c.y % 2 == c.y);
    assert(2 * (c.z / 2) + c.z % 2 == c.z);
}

/// Two equal children have equal parents and equal slots.
pub proof fn lemma_child_injective(c1: CellRef, j1: int, c2: CellRef, j2: int)
    requires
        1 <= c1.level <= MAX_DEPTH,
        1 <= c2.level <= MAX_DEPTH,
        c1.x < 0x1000,
        c1.y < 0x1000,
        c1.z < 0x1000,
        c2.x < 0x1000,
        c2.y < 0x1000,
        c2.z < 0x1000,
        0 <= j1 < 8,
        0 <= j2 < 8,
        child_cell(c1, j1) == child_cell(c2, j2),
    ensures
        c1 == c2 && j1 == j2,
{
    assert(2 * c1.x + j1 / 4 == 2 * c2.x + j2 / 4);
    assert(j1 / 4 < 2 && j2 / 4 < 2);
    assert(c1.x == c2.x && j1 / 4 == j2 / 4);
    assert(2 * c1.y + (j1 / 2) % 2 == 2 * c2.y + (j2 / 2) % 2);
    assert(c1.y == c2.y && (j1 / 2) % 2 == (j2 / 2) % 2);
    assert(2 * c1.z + j1 % 2 == 2 * c2.z + j2 % 2);
    assert(c1.z == c2.z && j1 % 2 == j2 % 2);
    assert(j1 == 4 * (j1 / 4) + 2 * ((j1 / 2) % 2) + j1 % 2) by (nonlinear_arith)
        requires
            0 <= j1 < 8,
    ;
    assert(j2 == 4 * (j2 / 4) + 2 * ((j2 / 2) % 2) + j2 % 2) by (nonlinear_arith)
        requires
            0 <= j2 < 8,
    ;
}

impl OccupancyPyramid {
    /// The virtual root cell above the coarsest level.
    pub open spec fn root_cell(self) -> CellRef {
        CellRef { level: self.depth, x: 0, y: 0, z: 0 }
    }

    /// Whether `c` addresses a real cell of the pyramid.
    pub open spec fn cell_in_range(self, c: CellRef) -> bool {
        &&& c.level < self.depth
        &&& c.x < self.side_of(c.level as int)
        &&& c.y < self.side_of(c.level as int)
        &&& c.z < self.side_of(c.level as int)
    }

    /// Whether `c` is a real, occupied cell.
    pub open spec fn cell_occupied(self, c: CellRef) -> bool {
        &&& self.cell_in_range(c)
        &&& self.occupied_at(c.level as int, c.x as int, c.y as int, c.z as int)
    }
}

/// An occupied cell below the coarsest level has an occupied parent: the
/// parent's bit is the OR over the block that contains the cell.
pub proof fn lemma_parent_occupied(p: OccupancyPyramid, d: CellRef)
    requires
        p.wf(),
        p.cell_occupied(d),
        d.level + 1 < p.depth,
    ensures
        p.cell_occupied(parent_cell(d)),
        parent_cell(d).level == d.level + 1,
{
    let n = d.level + 1 as int;
    let s = p.side_of(n);
    let ps = p.side_of(n - 1);
    lemma_side_double(p, n);
    lemma_pow2_le_max_dim((p.depth - n) as nat);
    let par = parent_cell(d);
    assert(2 * (d.x / 2) + d.x % 2 == d.x);
    assert(2 * (d.y / 2) + d.y % 2 == d.y);
    assert(2 * (d.z / 2) + d.z % 2 == d.z);
    assert(par.x < s && par.y < s && par.z < s);
    let gi = grid_index(s, par.x as int, par.y as int, par.z as int);
    lemma_grid_index_bounds(s, par.x as int, par.y as int, par.z as int);
    lemma_grid_index_decode(s, par.x as int, par.y as int, par.z as int);
    assert(p.levels[n]@ == reduced_level(p.levels[n - 1]@, s));
    assert(p.levels[n][gi] == block_any(p.levels[n - 1]@, ps, par.x as int, par.y as int, par.z as int));
    // One of the eight disjuncts of the block is exactly d's own bit.
    assert(p.levels[n - 1][grid_index(ps, d.x as int, d.y as int, d.z as int)]);
    assert(block_any(p.levels[n - 1]@, ps, par.x as int, par.y as int, par.z as int));
}

/// Powers of eight: how many cells one cell can cover `k` levels down.
pub open spec fn pow8(k: nat) -> nat
    decreases k,
{
    if k == 0 {
        1
    } else {
        8 * pow8((k - 1) as nat)
    }
}

/// `1 + 8 + ... + 8^(k-1)`: how many cells a chain of `k` levels can hold.
pub open spec fn geo8(k: nat) -> nat
    decreases k,
{
    if k == 0 {
        0
    } else {
        1 + 8 * geo8((k - 1) as nat)
    }
}

pub proof fn lemma_geo8_snoc(k: nat)
    ensures
        geo8(k + 1) == geo8(k) + pow8(k),
    decreases k,
{
    if k > 0 {
        lemma_geo8_snoc((k - 1) as nat);
    }
}

pub proof fn lemma_pow8_mono(a: nat, b: nat)
    requires
        a <= b,
    ensures
        pow8(a) <= pow8(b),
    decreases b,
{
    if a < b && b > 0 {
        lemma_pow8_mono(a, (b - 1) as nat);
    }
}

pub proof fn lemma_geo8_mono(a: nat, b: nat)
    requires
        a <= b,
    ensures
        geo8(a) <= geo8(b),
    decreases b,
{
    if a < b && b > 0 {
        lemma_geo8_mono(a, (b - 1) as nat);
    }
}

/// A full chain of interior levels still holds fewer cells than the
/// volume itself.
pub proof fn lemma_geo8_below_pow8(k: nat)
    ensures
        geo8(k) < pow8(k),
    decreases k,
{
    if k > 0 {
        lemma_geo8_below_pow8((k - 1) as nat);
    }
}

/// `8^k` is the cube of `2^k`: the cell count of a volume of side `2^k`.
pub proof fn lemma_pow8_is_cubed_pow2(k: nat)
    ensures
        pow8(k) == pow2(k) * pow2(k) * pow2(k),
    decreases k,
{
    if k > 0 {
        lemma_pow8_is_cubed_pow2((k - 1) as nat);
        vstd::arithmetic::power2::lemma_pow2_unfold(k);
        let h = pow2((k - 1) as nat) as int;
        assert(pow8(k) == 8 * pow8((k - 1) as nat));
        assert(pow8(k) == 8 * (h * h * h));
        assert(pow2(k) == 2 * h);
        assert(8 * (h * h * h) == (2 * h) * (2 * h) * (2 * h)) by (nonlinear_arith);
        assert(pow2(k) * pow2(k) * pow2(k) == (2 * h) * (2 * h) * (2 * h));
    } else {
        vstd::arithmetic::power2::lemma2_to64();
    }
}

/// Every index the builder hands out stays well below `u32::MAX`.
proof fn lemma_index_budget(depth: nat, level: nat)
    requires
        1 <= level <= depth <= MAX_DEPTH,
    ensures
        geo8((depth - level + 1) as nat) + 8 * pow8((depth - level) as nat) + 8 < 0x8000_0000,
{
    assert(geo8(10) == 153391689 && pow8(9) == 134217728) by {
        reveal_with_fuel(geo8, 11);
        reveal_with_fuel(pow8, 10);
    }
    lemma_geo8_mono((depth - level + 1) as nat, 10);
    lemma_pow8_mono((depth - level) as nat, 9);
}

/// One record of the pointer-compacted sparse octree: eight child slots,
/// `0` meaning "no child", any other value a 1-based index into the flat
/// node array pointing at the child's own record one level finer.
#[derive(Clone, Copy, Debug)]
pub struct OccupancyNode {
    pub slots: [u32; 8],
}

/// The slot contract of node `i`, slot `j`: the slot is zero exactly when
/// the child cell is empty, and otherwise indexes the entry that names the
/// child cell.
pub open spec fn slot_ok(
    p: OccupancyPyramid,
    nodes: Seq<OccupancyNode>,
    cells: Seq<CellRef>,
    i: int,
    j: int,
) -> bool {
    let ch = child_cell(cells[i], j);
    let s = nodes[i].slots[j] as int;
    &&& (s != 0) == p.cell_occupied(ch)
    &&& (s != 0 ==> 1 <= s < cells.len() && cells[s] == ch)
}

/// Whether some entry of `cells` names `d`.
pub open spec fn present_in(cells: Seq<CellRef>, d: CellRef) -> bool {
    exists|t: int| 0 <= t < cells.len() && cells[t] == d
}

/// The pointer-compacted sparse occupancy tree, plus the cell each index
/// was assigned to. `nodes[i]` is the record of the cell `cells[i]`; leaf
/// cells (level 0) receive indices past the node array but no record.
pub struct SparseTree {
    pub nodes: Vec<OccupancyNode>,
    pub cells: Vec<CellRef>,
}

impl SparseTree {
    /// Full correctness of the tree against its pyramid: the root is entry
    /// 0 and is always present; every other entry is an occupied cell (so
    /// no record describes an all-empty block); record-bearing entries sit
    /// below `nodes.len()` and are exactly those above level 0; every slot
    /// obeys `slot_ok`; entries are pairwise distinct; and every occupied
    /// cell of the pyramid has an entry.
    pub open spec fn wf(self, p: OccupancyPyramid) -> bool {
        &&& 1 <= self.nodes.len() <= self.cells.len()
        &&& self.cells@[0] == p.root_cell()
        &&& forall|t: int| 1 <= t < self.cells.len() ==> p.cell_occupied(#[trigger] self.cells@[t])
        &&& forall|t: int| 0 <= t < self.nodes.len() ==> (#[trigger] self.cells@[t]).level >= 1
        &&& forall|t: int|
            self.nodes.len() <= t < self.cells.len() ==> (#[trigger] self.cells@[t]).level == 0
        &&& forall|i: int, j: int|
            0 <= i < self.nodes.len() && 0 <= j < 8 ==> #[trigger] slot_ok(
                p,
                self.nodes@,
                self.cells@,
                i,
                j,
            )
        &&& forall|t1: int, t2: int|
            0 <= t1 < t2 < self.cells.len() ==> #[trigger] self.cells@[t1]
                != #[trigger] self.cells@[t2]
        &&& forall|d: CellRef| #[trigger] p.cell_occupied(d) ==> present_in(self.cells@, d)
    }
}

/// `slot_ok` for the record still under construction.
pub open spec fn cur_slot_ok(
    p: OccupancyPyramid,
    slots: [u32; 8],
    c: CellRef,
    cells: Seq<CellRef>,
    jj: int,
) -> bool {
    let s = slots[jj] as int;
    let ch = child_cell(c, jj);
    &&& (s != 0) == p.cell_occupied(ch)
    &&& (s != 0 ==> 1 <= s < cells.len() && cells[s] == ch)
}

/// Linkage of an appended entry to a record of the current pass.
pub open spec fn pass_linked(
    nodes: Seq<OccupancyNode>,
    cells: Seq<CellRef>,
    seg_start: int,
    t: int,
) -> bool {
    exists|i: int, jj: int|
        #![trigger nodes[i].slots[jj]]
        seg_start <= i < nodes.len() && 0 <= jj < 8 && nodes[i].slots[jj] == t && cells[t]
            == child_cell(cells[i], jj)
}

/// Linkage of an appended entry to a slot of the record under construction.
pub open spec fn cur_linked(
    slots: [u32; 8],
    c: CellRef,
    cells: Seq<CellRef>,
    j: int,
    t: int,
) -> bool {
    exists|jj: int|
        #![trigger slots[jj]]
        0 <= jj < j && slots[jj] == t && cells[t] == child_cell(c, jj)
}

/// Builds the sparse pointer-compacted tree from an occupancy pyramid:
/// levels are traversed from coarsest to finest; the root record is always
/// emitted, even for an all-empty volume; each occupied cell is assigned
/// the next unused 1-based index when its parent's record is emitted, and
/// cells above level 0 then receive a record of their own at that index.
#[verifier::loop_isolation(false)]
#[verifier::rlimit(60)]
pub fn build_sparse(p: &OccupancyPyramid) -> (t: SparseTree)
    requires
        p.wf(),
    ensures
        t.wf(*p),
        t.nodes.len() < p.dim * p.dim * p.dim,
{
    let depth = p.depth;
    let mut nodes: Vec<OccupancyNode> = Vec::new();
    let mut cells: Vec<CellRef> = Vec::new();
    cells.push(CellRef { level: depth, x: 0, y: 0, z: 0 });

    let mut level: usize = depth;
    let mut seg_start: usize = 0;
    let mut seg_end: usize = 1;

    while level >= 1
        invariant
            level <= depth,
            seg_start <= seg_end == cells.len(),
            nodes.len() == seg_start,
            level == depth ==> seg_start == 0 && seg_end == 1,
            level < depth ==> seg_start >= 1,
            seg_start <= geo8((depth - level) as nat),
            seg_end - seg_start <= pow8((depth - level) as nat),
            cells.len() <= geo8((depth - level + 1) as nat),
            cells@[0] == p.root_cell(),
            forall|t: int| 1 <= t < cells.len() ==> p.cell_occupied(#[trigger] cells@[t]),
            forall|t: int| 0 <= t < seg_start ==> (#[trigger] cells@[t]).level > level,
            forall|t: int|
                seg_start <= t < seg_end ==> (#[trigger] cells@[t]).level == level,
            forall|t1: int, t2: int|
                0 <= t1 < t2 < cells.len() ==> #[trigger] cells@[t1] != #[trigger] cells@[t2],
            forall|i: int, j: int|
                0 <= i < nodes.len() && 0 <= j < 8 ==> #[trigger] slot_ok(*p, nodes@, cells@, i, j),
            forall|d: CellRef|
                #[trigger] p.cell_occupied(d) && d.level >= level ==> present_in(cells@, d),
        decreases level,
    {
        proof {
            lemma_side_double(*p, level as int);
            lemma_pow2_le_max_dim((p.depth - (level - 1)) as nat);
        }
        let mut pidx = seg_start;
        while pidx < seg_end
            invariant
                seg_start <= pidx <= seg_end <= cells.len(),
                nodes.len() == pidx,
                cells.len() <= seg_end + 8 * (pidx - seg_start),
                cells@[0] == p.root_cell(),
                forall|t: int| 1 <= t < cells.len() ==> p.cell_occupied(#[trigger] cells@[t]),
                forall|t: int| 0 <= t < seg_start ==> (#[trigger] cells@[t]).level > level,
                forall|t: int|
                    seg_start <= t < seg_end ==> (#[trigger] cells@[t]).level == level,
                forall|t: int|
                    seg_end <= t < cells.len() ==> (#[trigger] cells@[t]).level == level - 1,
                forall|t1: int, t2: int|
                    0 <= t1 < t2 < cells.len() ==> #[trigger] cells@[t1] != #[trigger] cells@[t2],
                forall|i: int, j: int|
                    0 <= i < nodes.len() && 0 <= j < 8 ==> #[trigger] slot_ok(
                        *p,
                        nodes@,
                        cells@,
                        i,
                        j,
                    ),
                forall|t: int|
                    seg_end <= t < cells.len() ==> #[trigger] pass_linked(
                        nodes@,
                        cells@,
                        seg_start as int,
                        t,
                    ),
                forall|d: CellRef|
                    #[trigger] p.cell_occupied(d) && d.level >= level ==> present_in(cells@, d),
            decreases seg_end - pidx,
        {
            let c = cells[pidx];
            let mut slots: [u32; 8] = [0; 8];
            let mut j: usize = 0;
            while j < 8
                invariant
                    j <= 8,
                    nodes.len() == pidx,
                    seg_start <= pidx < seg_end <= cells.len(),
                    c == cells@[pidx as int],
                    cells.len() <= seg_end + 8 * (pidx - seg_start) + j,
                    cells@[0] == p.root_cell(),
                    forall|t: int| 1 <= t < cells.len() ==> p.cell_occupied(#[trigger] cells@[t]),
                    forall|t: int| 0 <= t < seg_start ==> (#[trigger] cells@[t]).level > level,
                    forall|t: int|
                        seg_start <= t < seg_end ==> (#[trigger] cells@[t]).level == level,
                    forall|t: int|
                        seg_end <= t < cells.len() ==> (#[trigger] cells@[t]).level == level
                            - 1,
                    forall|t1: int, t2: int|
                        0 <= t1 < t2 < cells.len() ==> #[trigger] cells@[t1] != #[trigger] cells@[t2],
                    forall|i: int, jx: int|
                        0 <= i < nodes.len() && 0 <= jx < 8 ==> #[trigger] slot_ok(
                            *p,
                            nodes@,
                            cells@,
                            i,
                            jx,
                        ),
                    forall|t: int|
                        seg_end <= t < cells.len() ==> pass_linked(
                            nodes@,
                            cells@,
                            seg_start as int,
                            t,
                        ) || cur_linked(slots, c, cells@, j as int, t),
                    forall|jj: int|
                        0 <= jj < j ==> #[trigger] cur_slot_ok(*p, slots, c, cells@, jj),
                    forall|jj: int| j <= jj < 8 ==> #[trigger] slots[jj] == 0,
                    forall|d: CellRef|
                        #[trigger] p.cell_occupied(d) && d.level >= level ==> present_in(cells@, d),
                decreases 8 - j,
            {
                let dx = j / 4;
                let dy = (j / 2) % 2;
                let dz = j % 2;
                let cx = 2 * c.x + dx;
                let cy = 2 * c.y + dy;
                let cz = 2 * c.z + dz;
                let ghost ch = child_cell(c, j as int);
                proof {
                    assert(ch.level == level - 1 && ch.x == cx && ch.y == cy && ch.z == cz);
                    if pidx >= 1 {
                        assert(p.cell_occupied(cells@[pidx as int]));
                    }
                    assert(cx < p.side_of(level as int - 1));
                    assert(cy < p.side_of(level as int - 1));
                    assert(cz < p.side_of(level as int - 1));
                }
                let occ = p.level_bit(level - 1, cx, cy, cz);
                if occ {
                    proof {
                        assert(p.cell_occupied(ch));
                        // The new entry is distinct from every existing one.
                        assert forall|t: int| 0 <= t < cells@.len() implies cells@[t] != ch by {
                            if t < seg_end {
                                assert(cells@[t].level >= level > ch.level || t == 0);
                            } else {
                                if pass_linked(nodes@, cells@, seg_start as int, t) {
                                    let (i2, j2) = choose|i2: int, j2: int|
                                        #![trigger nodes@[i2].slots[j2]]
                                        seg_start <= i2 < nodes@.len() && 0 <= j2 < 8
                                            && nodes@[i2].slots[j2] == t && cells@[t]
                                            == child_cell(cells@[i2], j2);
                                    if cells@[t] == ch {
                                        lemma_child_injective(
                                            cells@[i2],
                                            j2,
                                            c,
                                            j as int,
                                        );
                                    }
                                } else {
                                    let j2 = choose|j2: int|
                                        #![trigger slots[j2]]
                                        0 <= j2 < j && slots[j2] == t && cells@[t]
                                            == child_cell(c, j2);
                                    if cells@[t] == ch {
                                        lemma_child_injective(c, j2, c, j as int);
                                    }
                                }
                            }
                        }
                        // The fresh index fits in a u32.
                        lemma_index_budget(depth as nat, level as nat);
                    }
                    let ghost pre_slots = slots;
                    let ghost pre_cells = cells@;
                    slots[j] = cells.len() as u32;
                    cells.push(CellRef { level: level - 1, x: cx, y: cy, z: cz });
                    proof {
                        assert(cells@[cells.len() - 1] == ch);
                        assert forall|i: int, jx: int|
                            0 <= i < nodes.len() && 0 <= jx < 8 implies #[trigger] slot_ok(
                            *p,
                            nodes@,
                            cells@,
                            i,
                            jx,
                        ) by {
                            assert(slot_ok(*p, nodes@, pre_cells, i, jx));
                        }
                        assert forall|jj: int| 0 <= jj < j implies #[trigger] cur_slot_ok(
                            *p,
                            slots,
                            c,
                            cells@,
                            jj,
                        ) by {
                            assert(cur_slot_ok(*p, pre_slots, c, pre_cells, jj));
                            assert(slots[jj] == pre_slots[jj]);
                        }
                        assert forall|t: int|
                            seg_end <= t < cells.len() implies pass_linked(
                            nodes@,
                            cells@,
                            seg_start as int,
                            t,
                        ) || cur_linked(slots, c, cells@, j + 1 as int, t) by {
                            if t == cells.len() - 1 {
                                assert(slots[j as int] == t && cells@[t] == child_cell(
                                    c,
                                    j as int,
                                ));
                                assert(cur_linked(slots, c, cells@, j + 1 as int, t));
                            } else {
                                if pass_linked(nodes@, pre_cells, seg_start as int, t) {
                                    let (i2, j2) = choose|i2: int, j2: int|
                                        #![trigger nodes@[i2].slots[j2]]
                                        seg_start <= i2 < nodes@.len() && 0 <= j2 < 8
                                            && nodes@[i2].slots[j2] == t && pre_cells[t]
                                            == child_cell(pre_cells[i2], j2);
                                    assert(cells@[t] == pre_cells[t]);
                                    assert(cells@[i2] == pre_cells[i2]);
                                    assert(pass_linked(nodes@, cells@, seg_start as int, t));
                                } else {
                                    assert(cur_linked(pre_slots, c, pre_cells, j as int, t));
                                    let j2 = choose|j2: int|
                                        #![trigger pre_slots[j2]]
                                        0 <= j2 < j && pre_slots[j2] == t && pre_cells[t]
                                            == child_cell(c, j2);
                                    assert(slots[j2] == pre_slots[j2]);
                                    assert(cells@[t] == pre_cells[t]);
                                    assert(cur_linked(slots, c, cells@, j + 1 as int, t));
                                }
                            }
                        }
                        assert forall|d: CellRef|
                            #[trigger] p.cell_occupied(d) && d.level >= level implies present_in(
                            cells@,
                            d,
                        ) by {
                            assert(present_in(pre_cells, d));
                            let t = choose|t: int| 0 <= t < pre_cells.len() && pre_cells[t] == d;
                            assert(cells@[t] == d);
                        }
                    }
                } else {
                    proof {
                        assert(!p.cell_occupied(ch));
                    }
                }
                j = j + 1;
            }
            let ghost pre_nodes = nodes@;
            nodes.push(OccupancyNode { slots });
            proof {
                assert forall|i: int, jx: int|
                    0 <= i < nodes.len() && 0 <= jx < 8 implies #[trigger] slot_ok(
                    *p,
                    nodes@,
                    cells@,
                    i,
                    jx,
                ) by {
                    if i == nodes.len() - 1 {
                        assert(cur_slot_ok(*p, slots, c, cells@, jx));
                        assert(nodes@[i] == OccupancyNode { slots });
                        assert(cells@[i] == c);
                    } else {
                        assert(slot_ok(*p, pre_nodes, cells@, i, jx));
                        assert(nodes@[i] == pre_nodes[i]);
                    }
                }
                assert forall|t: int|
                    seg_end <= t < cells.len() implies #[trigger] pass_linked(
                    nodes@,
                    cells@,
                    seg_start as int,
                    t,
                ) by {
                    if cur_linked(slots, c, cells@, 8, t) {
                        let j2 = choose|j2: int|
                            #![trigger slots[j2]]
                            0 <= j2 < 8 && slots[j2] == t && cells@[t] == child_cell(c, j2);
                        let i2 = nodes.len() - 1;
                        assert(nodes@[i2] == OccupancyNode { slots });
                        assert(cells@[i2] == c);
                        assert(nodes@[i2].slots[j2] == t && cells@[t] == child_cell(
                            cells@[i2],
                            j2,
                        ));
                    } else {
                        assert(pass_linked(pre_nodes, cells@, seg_start as int, t));
                        let (i2, j2) = choose|i2: int, j2: int|
                            #![trigger pre_nodes[i2].slots[j2]]
                            seg_start <= i2 < pre_nodes.len() && 0 <= j2 < 8
                                && pre_nodes[i2].slots[j2] == t && cells@[t] == child_cell(
                                cells@[i2],
                                j2,
                            );
                        assert(nodes@[i2] == pre_nodes[i2]);
                        assert(nodes@[i2].slots[j2] == t);
                    }
                }
            }
            pidx = pidx + 1;
        }
        // All occupied cells one level finer are now present: each is the
        // child of an occupied (or root) cell of the segment just emitted.
        proof {
            assert forall|d: CellRef|
                #[trigger] p.cell_occupied(d) && d.level + 1 == level implies present_in(
                cells@,
                d,
            ) by {
                lemma_child_roundtrip(d);
                let par = parent_cell(d);
                let code = child_code(d);
                if level == depth {
                    vstd::arithmetic::power2::lemma2_to64();
                    assert(p.side_of(level as int - 1) == 2);
                    assert(d.x < 2 && d.y < 2 && d.z < 2);
                    assert(par == p.root_cell());
                    assert(cells@[0] == par);
                    assert(slot_ok(*p, nodes@, cells@, 0, code));
                } else {
                    lemma_parent_occupied(*p, d);
                    assert(present_in(cells@, par));
                    let tp = choose|t: int| 0 <= t < cells@.len() && cells@[t] == par;
                    assert(seg_start <= tp < seg_end);
                    assert(slot_ok(*p, nodes@, cells@, tp, code));
                }
            }
            lemma_geo8_snoc((depth - level + 1) as nat);
        }
        seg_start = seg_end;
        seg_end = cells.len();
        level = level - 1;
    }
    proof {
        lemma_geo8_below_pow8(depth as nat);
        lemma_pow8_is_cubed_pow2(depth as nat);
    }
    SparseTree { nodes, cells }
}

impl SparseTree {
    /// The flat node array as the device consumes it: eight little-endian
    /// 32-bit slots per record, records in index order, so the slot value
    /// `s` of any record points at byte offset `32 * s`.
    #[verifier::loop_isolation(false)]
    pub fn nodes_bytes(&self) -> (r: Vec<u8>)
        requires
            self.nodes.len() <= 0x0400_0000,
        ensures
            r@.len() == 32 * self.nodes.len(),
            forall|i: int, j: int, k: int|
                0 <= i < self.nodes.len() && 0 <= j < 8 && 0 <= k < 4 ==> r@[32 * i + 4 * j + k]
                    == #[trigger] u32_le_byte(self.nodes@[i].slots[j], k),
    {
        let mut out: Vec<u8> = Vec::new();
        let mut i: usize = 0;
        while i < self.nodes.len()
            invariant
                i <= self.nodes.len(),
                self.nodes.len() <= 0x0400_0000,
                out.len() == 32 * i,
                forall|t: int, j: int, k: int|
                    0 <= t < i && 0 <= j < 8 && 0 <= k < 4 ==> out@[32 * t + 4 * j + k]
                        == #[trigger] u32_le_byte(self.nodes@[t].slots[j], k),
            decreases self.nodes.len() - i,
        {
            let node = &self.nodes[i];
            let mut j: usize = 0;
            while j < 8
                invariant
                    j <= 8,
                    i < self.nodes.len(),
                    self.nodes.len() <= 0x0400_0000,
                    node == &self.nodes@[i as int],
                    out.len() == 32 * i + 4 * j,
                    forall|t: int, jx: int, k: int|
                        0 <= t < i && 0 <= jx < 8 && 0 <= k < 4 ==> out@[32 * t + 4 * jx + k]
                            == #[trigger] u32_le_byte(self.nodes@[t].slots[jx], k),
                    forall|jx: int, k: int|
                        0 <= jx < j && 0 <= k < 4 ==> out@[32 * i + 4 * jx + k] == #[trigger] u32_le_byte(
                            self.nodes@[i as int].slots[jx],
                            k,
                        ),
                decreases 8 - j,
            {
                push_u32_le(&mut out, node.slots[j]);
                j = j + 1;
            }
            i = i + 1;
        }
        out
    }
}

/// Law: no record is ever emitted for an all-empty 2x2x2 block: every
/// record past the root stands for an occupied cell above level 0.
pub proof fn lemma_no_empty_node(t: SparseTree, p: OccupancyPyramid, i: int)
    requires
        t.wf(p),
        1 <= i < t.nodes.len(),
    ensures
        p.cell_occupied(t.cells@[i]),
        t.cells@[i].level >= 1,
{
}

/// Law: a child slot is zero exactly when that child block is empty, and a
/// nonzero slot is a 1-based index naming the child's own entry, so `0`
/// never appears as a valid node index.
pub proof fn lemma_pointer_zero(t: SparseTree, p: OccupancyPyramid, i: int, j: int)
    requires
        t.wf(p),
        0 <= i < t.nodes.len(),
        0 <= j < 8,
    ensures
        (t.nodes@[i].slots[j] == 0) <==> !p.cell_occupied(child_cell(t.cells@[i], j)),
        t.nodes@[i].slots[j] != 0 ==> 1 <= t.nodes@[i].slots[j] < t.cells.len()
            && t.cells@[t.nodes@[i].slots[j] as int] == child_cell(t.cells@[i], j),
{
    assert(slot_ok(p, t.nodes@, t.cells@, i, j));
}

/// Law: the record count is exactly one (the always-present root) plus the
/// number of occupied cells above level 0, so it scales with occupancy and
/// not with the volume's size.
pub proof fn lemma_node_count(t: SparseTree, p: OccupancyPyramid)
    requires
        t.wf(p),
    ensures
        Set::new(|c: CellRef| p.cell_occupied(c) && c.level >= 1).finite(),
        t.nodes.len() == 1 + Set::new(|c: CellRef| p.cell_occupied(c) && c.level >= 1).len(),
{
    let occ = Set::new(|c: CellRef| p.cell_occupied(c) && c.level >= 1);
    let s = t.cells@.subrange(1, t.nodes.len() as int);
    assert(s.no_duplicates()) by {
        assert forall|a: int, b: int|
            0 <= a < s.len() && 0 <= b < s.len() && a != b implies s[a] != s[b] by {
            assert(t.cells@[a + 1] != t.cells@[b + 1]);
        }
    }
    s.unique_seq_to_set();
    assert(s.to_set() =~= occ) by {
        assert forall|c: CellRef| s.to_set().contains(c) implies occ.contains(c) by {
            let k = choose|k: int| 0 <= k < s.len() && s[k] == c;
            assert(p.cell_occupied(t.cells@[k + 1]));
            assert(t.cells@[k + 1].level >= 1);
        }
        assert forall|c: CellRef| occ.contains(c) implies s.to_set().contains(c) by {
            assert(p.cell_occupied(c));
            assert(present_in(t.cells@, c));
            let k = choose|k: int| 0 <= k < t.cells@.len() && t.cells@[k] == c;
            assert(k >= 1) by {
                if k == 0 {
                    assert(t.cells@[0] == p.root_cell());
                    assert(!p.cell_in_range(p.root_cell()));
                }
            }
            assert(k < t.nodes.len()) by {
                if k >= t.nodes.len() {
                    assert(t.cells@[k].level == 0);
                }
            }
            assert(s[k - 1] == c);
            assert(s.contains(c));
        }
    }
}

/// Occupancy cannot appear at a coarse level of a pyramid whose finest
/// level is entirely empty.
pub proof fn lemma_empty_base_stays_empty(p: OccupancyPyramid, n: int)
    requires
        p.wf(),
        0 <= n < p.depth,
        forall|i: int| 0 <= i < p.levels[0].len() ==> !(#[trigger] p.levels[0]@[i]),
    ensures
        forall|x: int, y: int, z: int|
            0 <= x < p.side_of(n) && 0 <= y < p.side_of(n) && 0 <= z < p.side_of(n)
                ==> !p.occupied_at(n, x, y, z),
    decreases n,
{
    if n == 0 {
        assert forall|x: int, y: int, z: int|
            0 <= x < p.side_of(0) && 0 <= y < p.side_of(0) && 0 <= z < p.side_of(0)
                implies !p.occupied_at(0, x, y, z) by {
            lemma_grid_index_bounds(p.side_of(0), x, y, z);
        }
    } else {
        lemma_empty_base_stays_empty(p, n - 1);
        lemma_side_double(*&p, n);
        assert forall|x: int, y: int, z: int|
            0 <= x < p.side_of(n) && 0 <= y < p.side_of(n) && 0 <= z < p.side_of(n)
                implies !p.occupied_at(n, x, y, z) by {
            let s = p.side_of(n);
            lemma_grid_index_bounds(s, x, y, z);
            lemma_grid_index_decode(s, x, y, z);
            assert(p.levels[n]@ == reduced_level(p.levels[n - 1]@, s));
            assert(p.levels[n][grid_index(s, x, y, z)] == block_any(
                p.levels[n - 1]@,
                2 * s,
                x,
                y,
                z,
            ));
            assert(!p.occupied_at(n - 1, 2 * x, 2 * y, 2 * z));
            assert(!p.occupied_at(n - 1, 2 * x, 2 * y, 2 * z + 1));
            assert(!p.occupied_at(n - 1, 2 * x, 2 * y + 1, 2 * z));
            assert(!p.occupied_at(n - 1, 2 * x, 2 * y + 1, 2 * z + 1));
            assert(!p.occupied_at(n - 1, 2 * x + 1, 2 * y, 2 * z));
            assert(!p.occupied_at(n - 1, 2 * x + 1, 2 * y, 2 * z + 1));
            assert(!p.occupied_at(n - 1, 2 * x + 1, 2 * y + 1, 2 * z));
            assert(!p.occupied_at(n - 1, 2 * x + 1, 2 * y + 1, 2 * z + 1));
        }
    }
}

/// Law: an all-empty volume still yields a tree, with exactly one record —
/// the root — whose eight slots are all zero.
pub proof fn lemma_empty_tree(t: SparseTree, p: OccupancyPyramid)
    requires
        t.wf(p),
        p.wf(),
        forall|i: int| 0 <= i < p.levels[0].len() ==> !(#[trigger] p.levels[0]@[i]),
    ensures
        t.nodes.len() == 1,
        t.cells.len() == 1,
        forall|j: int| 0 <= j < 8 ==> t.nodes@[0].slots[j] == 0,
{
    assert forall|c: CellRef| !p.cell_occupied(c) by {
        if p.cell_in_range(c) {
            lemma_empty_base_stays_empty(p, c.level as int);
        }
    }
    assert(t.cells.len() == 1) by {
        if t.cells.len() > 1 {
            assert(p.cell_occupied(t.cells@[1]));
        }
    }
    assert forall|j: int| 0 <= j < 8 implies t.nodes@[0].slots[j] == 0 by {
        assert(slot_ok(p, t.nodes@, t.cells@, 0, j));
    }
}

} // verus!
