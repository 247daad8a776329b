use wender::{
    build_colors, build_occupancy, build_sparse, load, AssetLoadError, Color, ModelPart,
    ModelVoxel, VoxModel, Voxels,
};

fn gi(s: usize, x: usize, y: usize, z: usize) -> usize {
    (x * s + y) * s + z
}

fn lcg(state: &mut u64) -> u64 {
    *state = state
        .wrapping_mul(6364136223846793005)
        .wrapping_add(1442695040888963407);
    *state
}

fn random_volume(d: usize, fill_permille: u64, seed: u64) -> Voxels {
    let mut cells = vec![0u32; d * d * d];
    let mut state = seed;
    for c in cells.iter_mut() {
        if lcg(&mut state) % 1000 < fill_permille {
            *c = 1 + (lcg(&mut state) % 2) as u32;
        }
    }
    let palette = vec![
        Color {
            r: 10,
            g: 20,
            b: 30,
            a: 255,
        },
        Color {
            r: 200,
            g: 100,
            b: 50,
            a: 128,
        },
    ];
    Voxels::from_grid(d, d, d, cells, palette).unwrap()
}

#[test]
fn pyramid_has_log2_levels() {
    for (d, k) in [(2usize, 1usize), (4, 2), (8, 3), (16, 4)] {
        let v = random_volume(d, 300, 7);
        assert_eq!(v.dim() as usize, d);
        let p = build_occupancy(&v);
        assert_eq!(p.levels.len(), k);
        assert_eq!(p.dim, d);
        for n in 0..k {
            let side = d >> n;
            assert_eq!(p.levels[n].len(), side * side * side);
        }
        assert_eq!(d >> (k - 1), 2);
    }
}

#[test]
fn occupancy_level_zero_is_nonzero_test() {
    let v = random_volume(8, 400, 21);
    let p = build_occupancy(&v);
    for i in 0..v.voxels.len() {
        assert_eq!(p.levels[0][i], v.voxels[i] != 0);
    }
}

fn check_monotone(d: usize, seed: u64, fill: u64) {
    let v = random_volume(d, fill, seed);
    let p = build_occupancy(&v);
    for n in 1..p.levels.len() {
        let s = d >> n;
        let ps = s * 2;
        for x in 0..s {
            for y in 0..s {
                for z in 0..s {
                    let mut any = false;
                    for dx in 0..2 {
                        for dy in 0..2 {
                            for dz in 0..2 {
                                any = any
                                    || p.levels[n - 1][gi(ps, 2 * x + dx, 2 * y + dy, 2 * z + dz)];
                            }
                        }
                    }
                    assert_eq!(p.levels[n][gi(s, x, y, z)], any);
                }
            }
        }
    }
}

#[test]
fn occupancy_monotone_exhaustive_small() {
    // Every cell pattern of a 4-sided volume is too many; sweep seeds and
    // fills instead, plus both degenerate fills.
    for seed in 0..8 {
        check_monotone(4, seed, 150 * (seed % 7));
    }
    for seed in 0..4 {
        check_monotone(8, seed, 100 + 200 * (seed % 4));
    }
}

#[test]
fn sparse_compaction_bounded_by_occupancy() {
    let d = 8usize;
    let v = random_volume(d, 40, 99);
    let p = build_occupancy(&v);
    let t = build_sparse(&p);
    // One record per occupied cell above level 0, plus the root.
    let mut interior = 0usize;
    for n in 1..p.levels.len() {
        interior += p.levels[n].iter().filter(|b| **b).count();
    }
    assert_eq!(t.nodes.len(), 1 + interior);
    assert!(t.nodes.len() < d * d * d);
}

#[test]
fn sparse_pointer_zero_invariant() {
    let v = random_volume(8, 300, 5);
    let p = build_occupancy(&v);
    let t = build_sparse(&p);
    let depth = p.levels.len();
    for i in 0..t.nodes.len() {
        let cell = t.cells[i];
        let child_level = cell.level - 1;
        let s = p.dim >> child_level;
        for j in 0..8 {
            let cx = 2 * cell.x + j / 4;
            let cy = 2 * cell.y + (j / 2) % 2;
            let cz = 2 * cell.z + j % 2;
            let occupied = p.levels[child_level][gi(s, cx, cy, cz)];
            let slot = t.nodes[i].slots[j];
            assert_eq!(slot != 0, occupied);
            if slot != 0 {
                // 0 is never a valid index; valid ones name the child.
                let child = t.cells[slot as usize];
                assert_eq!(
                    (child.level, child.x, child.y, child.z),
                    (child_level, cx, cy, cz)
                );
            }
        }
        assert!(cell.level >= 1 && cell.level <= depth);
    }
}

#[test]
fn empty_volume_single_zero_root() {
    let palette = vec![Color {
        r: 1,
        g: 2,
        b: 3,
        a: 4,
    }];
    let v = Voxels::from_grid(8, 8, 8, vec![0u32; 512], palette).unwrap();
    let p = build_occupancy(&v);
    assert!(!p.any_occupied());
    let t = build_sparse(&p);
    assert_eq!(t.nodes.len(), 1);
    assert_eq!(t.nodes[0].slots, [0u32; 8]);
}

fn check_color_means(v: &Voxels) {
    let cp = build_colors(v);
    for n in 1..cp.levels.len() {
        let s = v.dim >> n;
        let ps = s * 2;
        for x in 0..s {
            for y in 0..s {
                for z in 0..s {
                    let mut sums = [0u32; 4];
                    for dx in 0..2 {
                        for dy in 0..2 {
                            for dz in 0..2 {
                                let c = cp.levels[n - 1][gi(ps, 2 * x + dx, 2 * y + dy, 2 * z + dz)];
                                sums[0] += c.r as u32;
                                sums[1] += c.g as u32;
                                sums[2] += c.b as u32;
                                sums[3] += c.a as u32;
                            }
                        }
                    }
                    let got = cp.levels[n][gi(s, x, y, z)];
                    assert_eq!(got.r as u32, sums[0] / 8);
                    assert_eq!(got.g as u32, sums[1] / 8);
                    assert_eq!(got.b as u32, sums[2] / 8);
                    assert_eq!(got.a as u32, sums[3] / 8);
                }
            }
        }
    }
}

#[test]
fn color_levels_average_children() {
    for seed in 0..6 {
        // Sparse fills leave many fully transparent children in the mean.
        let v = random_volume(8, 120 + 170 * (seed % 5), seed + 31);
        check_color_means(&v);
    }
}

#[test]
fn color_level_zero_resolves_palette() {
    let v = random_volume(4, 500, 3);
    let cp = build_colors(&v);
    for i in 0..v.voxels.len() {
        let expected = if v.voxels[i] == 0 {
            Color {
                r: 0,
                g: 0,
                b: 0,
                a: 0,
            }
        } else {
            v.palette[v.voxels[i] as usize - 1]
        };
        assert_eq!(cp.levels[0][i], expected);
    }
}

#[test]
fn scenario_filled_two_cube() {
    let red = Color {
        r: 255,
        g: 0,
        b: 0,
        a: 255,
    };
    let v = Voxels::from_grid(2, 2, 2, vec![1u32; 8], vec![red]).unwrap();
    let p = build_occupancy(&v);
    assert_eq!(p.levels.len(), 1);
    assert!(p.levels[0].iter().all(|b| *b));
    let t = build_sparse(&p);
    assert_eq!(t.nodes.len(), 1);
    for j in 0..8 {
        assert_ne!(t.nodes[0].slots[j], 0);
    }
    let cp = build_colors(&v);
    for i in 0..8 {
        assert_eq!(cp.levels[0][i], red);
    }
}

#[test]
fn scenario_single_corner_voxel() {
    let mut cells = vec![0u32; 64];
    cells[gi(4, 0, 0, 0)] = 1;
    let palette = vec![Color {
        r: 9,
        g: 9,
        b: 9,
        a: 255,
    }];
    let v = Voxels::from_grid(4, 4, 4, cells, palette).unwrap();
    let p = build_occupancy(&v);
    assert!(p.any_occupied());
    assert_eq!(p.levels[0].iter().filter(|b| **b).count(), 1);
    assert_eq!(p.levels[1].iter().filter(|b| **b).count(), 1);
    assert!(p.levels[1][gi(2, 0, 0, 0)]);
    let t = build_sparse(&p);
    assert_eq!(t.nodes.len(), 2);
}

#[test]
fn scenario_out_of_range_palette_index_fails() {
    let part = ModelPart {
        offset_x: 0,
        offset_y: 0,
        offset_z: 0,
        size_x: 2,
        size_y: 2,
        size_z: 2,
        voxels: vec![ModelVoxel {
            x: 0,
            y: 0,
            z: 0,
            i: 1,
        }],
    };
    let model = VoxModel {
        parts: vec![part],
        palette: vec![Color {
            r: 5,
            g: 6,
            b: 7,
            a: 255,
        }],
    };
    assert_eq!(load(model).err(), Some(AssetLoadError::PaletteIndexOutOfRange));
}

#[test]
fn grid_shape_mismatch_fails() {
    let palette = vec![Color {
        r: 5,
        g: 6,
        b: 7,
        a: 255,
    }];
    let r = Voxels::from_grid(2, 2, 2, vec![0u32; 7], palette);
    assert_eq!(r.err(), Some(AssetLoadError::ShapeMismatch));
}

#[test]
fn grid_out_of_range_material_fails() {
    let palette = vec![Color {
        r: 5,
        g: 6,
        b: 7,
        a: 255,
    }];
    let r = Voxels::from_grid(2, 2, 2, vec![0, 0, 0, 2, 0, 0, 0, 0], palette);
    assert_eq!(r.err(), Some(AssetLoadError::PaletteIndexOutOfRange));
}

#[test]
fn load_swaps_vertical_axis() {
    let part = ModelPart {
        offset_x: 0,
        offset_y: 0,
        offset_z: 0,
        size_x: 4,
        size_y: 4,
        size_z: 4,
        voxels: vec![ModelVoxel {
            x: 1,
            y: 3,
            z: 2,
            i: 0,
        }],
    };
    let model = VoxModel {
        parts: vec![part],
        palette: vec![Color {
            r: 1,
            g: 1,
            b: 1,
            a: 255,
        }],
    };
    let v = load(model).unwrap();
    assert_eq!(v.dim, 4);
    // engine(x, y, z) = model(x, z, y)
    assert_eq!(v.get(1, 2, 3), 1);
    assert_eq!(v.get(1, 3, 2), 0);
}

#[test]
fn load_rounds_extent_up_to_power_of_two() {
    let part = ModelPart {
        offset_x: 2,
        offset_y: 0,
        offset_z: 0,
        size_x: 3,
        size_y: 1,
        size_z: 1,
        voxels: vec![ModelVoxel {
            x: 2,
            y: 0,
            z: 0,
            i: 0,
        }],
    };
    let model = VoxModel {
        parts: vec![part],
        palette: vec![Color {
            r: 1,
            g: 1,
            b: 1,
            a: 255,
        }],
    };
    // extent 5 rounds up to 8
    let v = load(model).unwrap();
    assert_eq!(v.dim, 8);
    assert_eq!(v.get(4, 0, 0), 1);
}

#[test]
fn load_rejects_bad_models() {
    let empty = VoxModel {
        parts: vec![],
        palette: vec![],
    };
    assert_eq!(load(empty).err(), Some(AssetLoadError::EmptyModel));

    let zero_extent = VoxModel {
        parts: vec![ModelPart {
            offset_x: 0,
            offset_y: 0,
            offset_z: 0,
            size_x: 0,
            size_y: 0,
            size_z: 0,
            voxels: vec![],
        }],
        palette: vec![],
    };
    assert_eq!(load(zero_extent).err(), Some(AssetLoadError::EmptyModel));

    let stray = VoxModel {
        parts: vec![ModelPart {
            offset_x: 0,
            offset_y: 0,
            offset_z: 0,
            size_x: 2,
            size_y: 2,
            size_z: 2,
            voxels: vec![ModelVoxel {
                x: 2,
                y: 0,
                z: 0,
                i: 0,
            }],
        }],
        palette: vec![Color {
            r: 0,
            g: 0,
            b: 0,
            a: 255,
        }],
    };
    assert_eq!(load(stray).err(), Some(AssetLoadError::VoxelOutOfBounds));

    let huge = VoxModel {
        parts: vec![ModelPart {
            offset_x: 4000,
            offset_y: 0,
            offset_z: 0,
            size_x: 1,
            size_y: 1,
            size_z: 1,
            voxels: vec![],
        }],
        palette: vec![],
    };
    assert_eq!(load(huge).err(), Some(AssetLoadError::VolumeTooLarge));

    let big_palette = VoxModel {
        parts: vec![ModelPart {
            offset_x: 0,
            offset_y: 0,
            offset_z: 0,
            size_x: 1,
            size_y: 1,
            size_z: 1,
            voxels: vec![],
        }],
        palette: vec![
            Color {
                r: 0,
                g: 0,
                b: 0,
                a: 0,
            };
            257
        ],
    };
    assert_eq!(load(big_palette).err(), Some(AssetLoadError::PaletteTooLarge));
}

#[test]
fn load_later_parts_overwrite_earlier() {
    let base = ModelPart {
        offset_x: 0,
        offset_y: 0,
        offset_z: 0,
        size_x: 2,
        size_y: 2,
        size_z: 2,
        voxels: vec![ModelVoxel {
            x: 0,
            y: 0,
            z: 0,
            i: 0,
        }],
    };
    let over = ModelPart {
        voxels: vec![ModelVoxel {
            x: 0,
            y: 0,
            z: 0,
            i: 1,
        }],
        ..base.clone()
    };
    let model = VoxModel {
        parts: vec![base, over],
        palette: vec![
            Color {
                r: 1,
                g: 0,
                b: 0,
                a: 255,
            },
            Color {
                r: 2,
                g: 0,
                b: 0,
                a: 255,
            },
        ],
    };
    let v = load(model).unwrap();
    assert_eq!(v.get(0, 0, 0), 2);
}
