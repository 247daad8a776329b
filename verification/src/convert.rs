use vstd::prelude::*;

use crate::color::Color;
use crate::volume::{
    cell_x, cell_y, cell_z, grid_index, lemma_cube_bounds, lemma_grid_index_bounds,
    lemma_grid_index_decode, lemma_grid_index_injective, MAX_DIM,
};

verus! {

/// Material value of cell `(x, y, z)` in a textured block of side `w`
/// whose per-face colors start at palette value `base`: the top face and
/// the four side faces each read their own row of colors, interior cells
/// share the single base value.
pub open spec fn face_value(w: int, base: int, x: int, y: int, z: int) -> int {
    if y == w - 1 {
        base + x + z * w
    } else if x == 0 {
        base + z + y * w
    } else if z == 0 {
        base + x + y * w
    } else if x == w - 1 {
        base + z + y * w
    } else if z == w - 1 {
        base + x + y * w
    } else {
        base
    }
}

/// Builds the `w`-sided block of material values for one textured block,
/// cells in flat grid order.
#[verifier::loop_isolation(false)]
pub fn voxs_from_cols(w: u32, i: u32) -> (r: Vec<u32>)
    requires
        1 <= w <= 16,
        i <= u32::MAX - 256,
    ensures
        r@.len() == w * w * w,
        forall|x: int, y: int, z: int|
            0 <= x < w && 0 <= y < w && 0 <= z < w ==> r@[#[trigger] grid_index(
                w as int,
                x,
                y,
                z,
            )] == face_value(w as int, i as int, x, y, z),
{
    let s = w as usize;
    proof {
        lemma_cube_bounds(s as int);
        assert(forall|x: int, y: int, z: int|
            0 <= x < w && 0 <= y < w && 0 <= z < w ==> i <= #[trigger] face_value(
                w as int,
                i as int,
                x,
                y,
                z,
            ) <= i + 256) by {
            assert forall|x: int, y: int, z: int|
                0 <= x < w && 0 <= y < w && 0 <= z < w implies i <= #[trigger] face_value(
                w as int,
                i as int,
                x,
                y,
                z,
            ) <= i + 256 by {
                assert(x + z * w <= 256 && z + y * w <= 256 && x + y * w <= 256)
                    by (nonlinear_arith)
                    requires
                        0 <= x < w,
                        0 <= y < w,
                        0 <= z < w,
                        w <= 16,
                ;
            }
        }
    }
    let ghost target = Seq::new(
        (s * s * s) as nat,
        |t: int| face_value(
            w as int,
            i as int,
            cell_x(s as int, t),
            cell_y(s as int, t),
            cell_z(s as int, t),
        ) as u32,
    );
    let mut out: Vec<u32> = Vec::new();
    let mut x: usize = 0;
    while x < s
        invariant
            x <= s,
            out.len() == x * s * s,
            out.len() <= s * s * s,
            out@ == target.subrange(0, out.len() as int),
        decreases s - x,
    {
        let mut y: usize = 0;
        while y < s
            invariant
                y <= s,
                out.len() == x * s * s + y * s,
                out.len() <= s * s * s,
                out@ == target.subrange(0, out.len() as int),
            decreases s - y,
        {
            let mut z: usize = 0;
            while z < s
                invariant
                    z <= s,
                    out.len() == x * s * s + y * s + z,
                    out.len() <= s * s * s,
                    out@ == target.subrange(0, out.len() as int),
                decreases s - z,
            {
                proof {
                    lemma_grid_index_bounds(s as int, x as int, y as int, z as int);
                    assert(out.len() == grid_index(s as int, x as int, y as int, z as int))
                        by (nonlinear_arith)
                        requires
                            out.len() == x * s * s + y * s + z,
                    ;
                    lemma_grid_index_decode(s as int, x as int, y as int, z as int);
                    assert(x + z * w <= 256 && z + y * w <= 256 && x + y * w <= 256)
                        by (nonlinear_arith)
                        requires
                            0 <= x < w as int,
                            0 <= y < w as int,
                            0 <= z < w as int,
                            w <= 16,
                    ;
                }
                let xw = x as u32;
                let yw = y as u32;
                let zw = z as u32;
                let val: u32 = if yw == w - 1 {
                    i + xw + zw * w
                } else if xw == 0 {
                    i + zw + yw * w
                } else if zw == 0 {
                    i + xw + yw * w
                } else if xw == w - 1 {
                    i + zw + yw * w
                } else if zw == w - 1 {
                    i + xw + yw * w
                } else {
                    i
                };
                proof {
                    assert(val == target[out.len() as int]);
                    assert(target.subrange(0, out.len() as int + 1) =~= target.subrange(
                        0,
                        out.len() as int,
                    ).push(val));
                }
                out.push(val);
                z = z + 1;
            }
            proof {
                assert((y + 1) * s == y * s + s) by (nonlinear_arith);
                assert(x * s * s + (y + 1) * s <= s * s * s) by (nonlinear_arith)
                    requires
                        0 <= x < s,
                        0 <= y < s,
                ;
            }
            y = y + 1;
        }
        proof {
            assert(x * s * s + s * s == (x + 1) * s * s) by (nonlinear_arith);
            assert((x + 1) * s * s <= s * s * s) by (nonlinear_arith)
                requires
                    0 <= x < s,
            ;
        }
        x = x + 1;
    }
    proof {
        assert forall|x: int, y: int, z: int|
            0 <= x < w && 0 <= y < w && 0 <= z < w implies out@[#[trigger] grid_index(
            w as int,
            x,
            y,
            z,
        )] == face_value(w as int, i as int, x, y, z) by {
            lemma_grid_index_bounds(s as int, x, y, z);
            lemma_grid_index_decode(s as int, x, y, z);
        }
    }
    out
}

/// Entry `e` of the quantized fallback palette: two bits per channel,
/// channels scaled by 64, alpha opaque, third channel fastest.
pub open spec fn quantized_color(e: int) -> Color {
    Color {
        r: (64 * (e / 16)) as u8,
        g: (64 * ((e / 4) % 4)) as u8,
        b: (64 * (e % 4)) as u8,
        a: 255,
    }
}

/// The 64-entry quantized palette used when no texture pack is available.
#[verifier::loop_isolation(false)]
pub fn quantized_palette() -> (r: Vec<Color>)
    ensures
        r@.len() == 64,
        forall|e: int| 0 <= e < 64 ==> r@[e] == quantized_color(e),
{
    let mut out: Vec<Color> = Vec::new();
    let mut cr: usize = 0;
    while cr < 4
        invariant
            cr <= 4,
            out.len() == 16 * cr,
            forall|e: int| 0 <= e < out.len() ==> out@[e] == quantized_color(e),
        decreases 4 - cr,
    {
        let mut cg: usize = 0;
        while cg < 4
            invariant
                cg <= 4,
                out.len() == 16 * cr + 4 * cg,
                forall|e: int| 0 <= e < out.len() ==> out@[e] == quantized_color(e),
            decreases 4 - cg,
        {
            let mut cb: usize = 0;
            while cb < 4
                invariant
                    cb <= 4,
                    out.len() == 16 * cr + 4 * cg + cb,
                    forall|e: int| 0 <= e < out.len() ==> out@[e] == quantized_color(e),
                decreases 4 - cb,
            {
                let c = Color {
                    r: (cr * 64) as u8,
                    g: (cg * 64) as u8,
                    b: (cb * 64) as u8,
                    a: 255,
                };
                proof {
                    let e = out.len() as int;
                    assert(e / 16 == cr && (e / 4) % 4 == cg && e % 4 == cb) by (nonlinear_arith)
                        requires
                            e == 16 * cr + 4 * cg + cb,
                            0 <= cr < 4,
                            0 <= cg < 4,
                            0 <= cb < 4,
                    ;
                }
                out.push(c);
                cb = cb + 1;
            }
            cg = cg + 1;
        }
        cr = cr + 1;
    }
    out
}

/// Index of the quantized palette entry nearest below a color: the top two
/// bits of each channel, third channel fastest.
pub fn quantize_index(c: Color) -> (r: u8)
    ensures
        r == 16 * (c.r / 64) + 4 * (c.g / 64) + c.b / 64,
        r < 64,
{
    (c.r / 64) * 16 + (c.g / 64) * 4 + c.b / 64
}

/// Law: looking a color's quantized index back up in the quantized palette
/// gives exactly the color with each channel rounded down to a multiple
/// of 64 and made opaque.
pub proof fn lemma_quantize_faithful(c: Color)
    ensures
        quantized_color(16 * (c.r / 64) + 4 * (c.g / 64) + c.b / 64) == (Color {
            r: (64 * (c.r / 64)) as u8,
            g: (64 * (c.g / 64)) as u8,
            b: (64 * (c.b / 64)) as u8,
            a: 255,
        }),
{
    let e = 16 * (c.r as int / 64) + 4 * (c.g as int / 64) + c.b as int / 64;
    assert(e / 16 == c.r as int / 64 && (e / 4) % 4 == c.g as int / 64 && e % 4 == c.b as int / 64)
        by (nonlinear_arith)
        requires
            e == 16 * (c.r as int / 64) + 4 * (c.g as int / 64) + c.b as int / 64,
            0 <= c.r as int / 64 < 4,
            0 <= c.g as int / 64 < 4,
            0 <= c.b as int / 64 < 4,
    ;
}

/// Whether `suffix` ends `name`.
pub open spec fn is_suffix_of(suffix: Seq<u8>, name: Seq<u8>) -> bool {
    suffix.len() <= name.len() && name.subrange(
        name.len() - suffix.len(),
        name.len() as int,
    ) == suffix
}

/// Suffix test over byte strings, as block names are matched.
pub fn ends_with(name: &Vec<u8>, suffix: &Vec<u8>) -> (r: bool)
    ensures
        r == is_suffix_of(suffix@, name@),
{
    if suffix.len() > name.len() {
        return false;
    }
    let off = name.len() - suffix.len();
    let mut k: usize = 0;
    while k < suffix.len()
        invariant
            k <= suffix.len(),
            suffix.len() <= name.len(),
            off == name.len() - suffix.len(),
            forall|t: int| 0 <= t < k ==> name@[off + t] == suffix@[t],
        decreases suffix.len() - k,
    {
        if name[off + k] != suffix[k] {
            proof {
                assert(name@.subrange(off as int, name@.len() as int)[k as int] == name@[off + k]);
            }
            return false;
        }
        k = k + 1;
    }
    proof {
        assert(name@.subrange(off as int, name@.len() as int) =~= suffix@);
    }
    true
}

/// Whether a block name ends with any entry of the ignore list (grass,
/// flowers, and the like, which the converter skips).
pub fn is_ignored(name: &Vec<u8>, ignored: &Vec<Vec<u8>>) -> (r: bool)
    ensures
        r == exists|k: int| 0 <= k < ignored.len() && is_suffix_of(#[trigger] ignored@[k]@, name@),
{
    let mut k: usize = 0;
    while k < ignored.len()
        invariant
            k <= ignored.len(),
            forall|t: int| 0 <= t < k ==> !is_suffix_of(#[trigger] ignored@[t]@, name@),
        decreases ignored.len() - k,
    {
        if ends_with(name, &ignored[k]) {
            return true;
        }
        k = k + 1;
    }
    false
}

/// Copies a byte string.
fn bytes_copy(v: &Vec<u8>) -> (r: Vec<u8>)
    ensures
        r@ == v@,
{
    let mut out: Vec<u8> = Vec::new();
    let mut k: usize = 0;
    while k < v.len()
        invariant
            k <= v.len(),
            out@ == v@.subrange(0, k as int),
        decreases v.len() - k,
    {
        proof {
            assert(v@.subrange(0, k as int + 1) =~= v@.subrange(0, k as int).push(v@[k as int]));
        }
        out.push(v[k]);
        k = k + 1;
    }
    proof {
        assert(out@ =~= v@);
    }
    out
}

/// Whether alias entry `k` matches the name.
pub open spec fn alias_hit(name: Seq<u8>, aliases: Seq<(Vec<u8>, Vec<u8>)>, k: int) -> bool {
    is_suffix_of(aliases[k].0@, name)
}

/// Resolves a block name through the alias table: the first entry whose
/// pattern ends the name wins and yields its replacement; a name no entry
/// matches is returned unchanged.
pub fn resolve_alias(name: &Vec<u8>, aliases: &Vec<(Vec<u8>, Vec<u8>)>) -> (r: Vec<u8>)
    ensures
        (forall|k: int| 0 <= k < aliases.len() ==> !#[trigger] alias_hit(name@, aliases@, k))
            ==> r@ == name@,
        (exists|k: int| 0 <= k < aliases.len() && #[trigger] alias_hit(name@, aliases@, k))
            ==> exists|k: int|
            0 <= k < aliases.len() && #[trigger] alias_hit(name@, aliases@, k) && (forall|t: int|
                0 <= t < k ==> !#[trigger] alias_hit(name@, aliases@, t)) && r@ == aliases@[k].1@,
{
    let mut k: usize = 0;
    while k < aliases.len()
        invariant
            k <= aliases.len(),
            forall|t: int| 0 <= t < k ==> !#[trigger] alias_hit(name@, aliases@, t),
        decreases aliases.len() - k,
    {
        if ends_with(name, &aliases[k].0) {
            proof {
                assert(alias_hit(name@, aliases@, k as int));
            }
            return bytes_copy(&aliases[k].1);
        }
        k = k + 1;
    }
    bytes_copy(name)
}

/// Lexicographic "already written" order for the block-copy loops.
pub open spec fn lex_before(a: int, b: int, c: int, i: int, j: int, k: int) -> bool {
    a < i || (a == i && b < j) || (a == i && b == j && c < k)
}

/// Writes a `w`-sided block of material values into a cubic volume at
/// offset `(x1, y1, z1)`, leaving every cell outside the block untouched.
#[verifier::loop_isolation(false)]
pub fn assign_block(
    voxels: &mut Vec<u32>,
    dim: usize,
    x1: usize,
    y1: usize,
    z1: usize,
    block: &Vec<u32>,
    w: usize,
)
    requires
        dim <= MAX_DIM,
        old(voxels).len() == dim * dim * dim,
        1 <= w,
        x1 + w <= dim,
        y1 + w <= dim,
        z1 + w <= dim,
        block.len() == w * w * w,
    ensures
        final(voxels).len() == old(voxels).len(),
        forall|a: int, b: int, c: int|
            0 <= a < dim && 0 <= b < dim && 0 <= c < dim ==> final(voxels)@[#[trigger] grid_index(
                dim as int,
                a,
                b,
                c,
            )] == if x1 <= a < x1 + w && y1 <= b < y1 + w && z1 <= c < z1 + w {
                block@[grid_index(w as int, a - x1, b - y1, c - z1)]
            } else {
                old(voxels)@[grid_index(dim as int, a, b, c)]
            },
{
    proof {
        lemma_cube_bounds(dim as int);
        lemma_cube_bounds(w as int);
    }
    let mut xi: usize = 0;
    while xi < w
        invariant
            xi <= w,
            voxels.len() == dim * dim * dim,
            forall|a: int, b: int, c: int|
                0 <= a < dim && 0 <= b < dim && 0 <= c < dim ==> voxels@[#[trigger] grid_index(
                    dim as int,
                    a,
                    b,
                    c,
                )] == if x1 <= a < x1 + w && y1 <= b < y1 + w && z1 <= c < z1 + w && lex_before(
                    a - x1,
                    b - y1,
                    c - z1,
                    xi as int,
                    0,
                    0,
                ) {
                    block@[grid_index(w as int, a - x1, b - y1, c - z1)]
                } else {
                    old(voxels)@[grid_index(dim as int, a, b, c)]
                },
        decreases w - xi,
    {
        let mut yi: usize = 0;
        while yi < w
            invariant
                yi <= w,
                xi < w,
                voxels.len() == dim * dim * dim,
                forall|a: int, b: int, c: int|
                    0 <= a < dim && 0 <= b < dim && 0 <= c < dim ==> voxels@[#[trigger] grid_index(
                        dim as int,
                        a,
                        b,
                        c,
                    )] == if x1 <= a < x1 + w && y1 <= b < y1 + w && z1 <= c < z1 + w
                        && lex_before(a - x1, b - y1, c - z1, xi as int, yi as int, 0) {
                        block@[grid_index(w as int, a - x1, b - y1, c - z1)]
                    } else {
                        old(voxels)@[grid_index(dim as int, a, b, c)]
                    },
            decreases w - yi,
        {
            let mut zi: usize = 0;
            while zi < w
                invariant
                    zi <= w,
                    xi < w,
                    yi < w,
                    voxels.len() == dim * dim * dim,
                    forall|a: int, b: int, c: int|
                        0 <= a < dim && 0 <= b < dim && 0 <= c < dim ==> voxels@[
                            #[trigger] grid_index(dim as int, a, b, c)] == if x1 <= a < x1 + w && y1
                            <= b < y1 + w && z1 <= c < z1 + w && lex_before(
                            a - x1,
                            b - y1,
                            c - z1,
                            xi as int,
                            yi as int,
                            zi as int,
                        ) {
                            block@[grid_index(w as int, a - x1, b - y1, c - z1)]
                        } else {
                            old(voxels)@[grid_index(dim as int, a, b, c)]
                        },
                decreases w - zi,
            {
                proof {
                    lemma_grid_index_bounds(w as int, xi as int, yi as int, zi as int);
                    lemma_grid_index_bounds(
                        dim as int,
                        (x1 + xi) as int,
                        (y1 + yi) as int,
                        (z1 + zi) as int,
                    );
                }
                let ghost pre = voxels@;
                let target = ((x1 + xi) * dim + (y1 + yi)) * dim + (z1 + zi);
                let val = block[(xi * w + yi) * w + zi];
                voxels[target] = val;
                proof {
                    assert forall|a: int, b: int, c: int|
                        0 <= a < dim && 0 <= b < dim && 0 <= c < dim implies voxels@[
                        #[trigger] grid_index(dim as int, a, b, c)] == if x1 <= a < x1 + w && y1 <= b
                        < y1 + w && z1 <= c < z1 + w && lex_before(
                        a - x1,
                        b - y1,
                        c - z1,
                        xi as int,
                        yi as int,
                        zi as int + 1,
                    ) {
                        block@[grid_index(w as int, a - x1, b - y1, c - z1)]
                    } else {
                        old(voxels)@[grid_index(dim as int, a, b, c)]
                    } by {
                        lemma_grid_index_bounds(dim as int, a, b, c);
                        if grid_index(dim as int, a, b, c) == target {
                            lemma_grid_index_injective(
                                dim as int,
                                a,
                                b,
                                c,
                                (x1 + xi) as int,
                                (y1 + yi) as int,
                                (z1 + zi) as int,
                            );
                        } else {
                            assert(voxels@[grid_index(dim as int, a, b, c)] == pre[grid_index(
                                dim as int,
                                a,
                                b,
                                c,
                            )]);
                        }
                    }
                }
                zi = zi + 1;
            }
            yi = yi + 1;
        }
        xi = xi + 1;
    }
}

} // verus!
