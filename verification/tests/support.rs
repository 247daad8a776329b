use wender::{
    assign_block, build_colors, build_occupancy, build_sparse, dvo_format_to_string, ends_with,
    is_ignored, quantize_index, quantized_palette, resolve_alias, voxs_from_cols, Color,
    FpsCounter, ShaderConstants, VoxelFormat, Voxels, HISTORY_SIZE,
};

fn gi(s: usize, x: usize, y: usize, z: usize) -> usize {
    (x * s + y) * s + z
}

fn tiny_volume() -> Voxels {
    let palette = vec![
        Color {
            r: 255,
            g: 128,
            b: 64,
            a: 255,
        },
        Color {
            r: 1,
            g: 2,
            b: 3,
            a: 4,
        },
    ];
    let cells = vec![0u32, 1, 2, 0, 1, 0, 0, 2];
    Voxels::from_grid(2, 2, 2, cells, palette).unwrap()
}

#[test]
fn voxel_bytes_are_little_endian_words() {
    let v = tiny_volume();
    let bytes = v.voxels_bytes();
    assert_eq!(bytes.len(), 4 * v.voxels.len());
    for (i, cell) in v.voxels.iter().enumerate() {
        assert_eq!(
            &bytes[4 * i..4 * i + 4],
            &cell.to_le_bytes(),
            "cell {} mis-encoded",
            i
        );
    }
}

#[test]
fn color_bytes_are_rgba_quads() {
    let v = tiny_volume();
    let bytes = v.colors_bytes();
    assert_eq!(bytes.len(), 4 * v.voxels.len());
    for i in 0..v.voxels.len() {
        let c = if v.voxels[i] == 0 {
            Color {
                r: 0,
                g: 0,
                b: 0,
                a: 0,
            }
        } else {
            v.palette[v.voxels[i] as usize - 1]
        };
        assert_eq!(bytes[4 * i], c.r);
        assert_eq!(bytes[4 * i + 1], c.g);
        assert_eq!(bytes[4 * i + 2], c.b);
        assert_eq!(bytes[4 * i + 3], c.a);
    }
}

#[test]
fn pyramid_level_bytes_are_binary() {
    let v = tiny_volume();
    let p = build_occupancy(&v);
    let bytes = p.level_bytes(0);
    assert_eq!(bytes.len(), 8);
    for i in 0..8 {
        assert_eq!(bytes[i], if v.voxels[i] != 0 { 1 } else { 0 });
    }
    let cp = build_colors(&v);
    let cbytes = cp.level_bytes(0);
    assert_eq!(cbytes, v.colors_bytes());
}

#[test]
fn node_bytes_pack_eight_slots() {
    let v = tiny_volume();
    let p = build_occupancy(&v);
    let t = build_sparse(&p);
    let bytes = t.nodes_bytes();
    assert_eq!(bytes.len(), 32 * t.nodes.len());
    for (i, node) in t.nodes.iter().enumerate() {
        for j in 0..8 {
            assert_eq!(
                &bytes[32 * i + 4 * j..32 * i + 4 * j + 4],
                &node.slots[j].to_le_bytes()
            );
        }
    }
}

#[test]
fn fps_counter_ring() {
    let mut fps = FpsCounter {
        history: vec![0u64; HISTORY_SIZE],
        ptr: 1,
    };
    assert_eq!(fps.len(), HISTORY_SIZE);
    // Drive the ring with known stamps: slot k gets 10 * k.
    fps.ptr = 0;
    for k in 0..HISTORY_SIZE {
        fps.record_tick(10 * k as u64);
    }
    assert_eq!(fps.ptr, 0);
    let ds = fps.durations();
    assert_eq!(ds.len(), HISTORY_SIZE - 1);
    for d in ds {
        assert_eq!(d, 10);
    }
}

#[test]
fn fps_durations_clamp_backward_clock() {
    let mut fps = FpsCounter {
        history: vec![0u64; HISTORY_SIZE],
        ptr: 0,
    };
    fps.record_tick(100);
    fps.record_tick(40);
    // Chronological order puts the pair 100 -> 40 last; it must clamp to
    // zero, while the step onto the 100 stamp keeps its full width.
    let ds = fps.durations();
    assert_eq!(ds.len(), HISTORY_SIZE - 1);
    assert_eq!(ds[HISTORY_SIZE - 3], 100);
    assert_eq!(ds[HISTORY_SIZE - 2], 0);
    assert_eq!(ds[0], 0);
}

#[test]
fn fps_live_ticks_advance_cursor() {
    let mut fps = FpsCounter::new();
    assert_eq!(fps.ptr, 1);
    fps.tick();
    assert_eq!(fps.ptr, 2);
    for _ in 0..(HISTORY_SIZE - 2) {
        fps.tick();
    }
    assert_eq!(fps.ptr, 0);
    assert_eq!(fps.durations().len(), HISTORY_SIZE - 1);
}

#[test]
fn shader_constants_partition_depth() {
    let c = ShaderConstants::defaults_for_depth(9);
    assert_eq!(c.octree_depth, 8);
    assert_eq!(c.svo_depth, 0);
    assert_eq!(c.grid_depth, 2);
    assert_eq!(c.dvo_depth, 6);
    assert_eq!(c.grid_depth + c.svo_depth + c.dvo_depth, c.octree_depth);
    assert_eq!(c.grid_max_iter, 16);
    assert_eq!(c.svo_max_iter, 200);
    assert_eq!(c.dvo_max_iter, 200);
    assert_eq!(c.msaa_level, 1);
    assert_eq!(c.debug_display, 0);
}

#[test]
fn named_constants_cover_every_field() {
    let c = ShaderConstants::defaults_for_depth(4);
    let list = c.named_constants();
    assert_eq!(list.len(), 13);
    let expect = [
        ("OCTREE_DEPTH", c.octree_depth),
        ("SVO_DEPTH", c.svo_depth),
        ("SVO_MAX_ITER", c.svo_max_iter),
        ("DVO_DEPTH", c.dvo_depth),
        ("DVO_MAX_ITER", c.dvo_max_iter),
        ("GRID_DEPTH", c.grid_depth),
        ("GRID_MAX_ITER", c.grid_max_iter),
        ("SHADOW_MAX_ITER", c.shadow_max_iter),
        ("SHADOW_CONE_ANGLE", c.shadow_cone_angle),
        ("SHADOW_STRENGTH", c.shadow_strength),
        ("AO_STRENGTH", c.ao_strength),
        ("MSAA_LEVEL", c.msaa_level),
        ("DEBUG_DISPLAY", c.debug_display),
    ];
    for (k, (name, value)) in expect.iter().enumerate() {
        assert_eq!(&list[k].name, name);
        assert_eq!(list[k].value, *value);
    }
}

#[test]
fn format_names() {
    assert_eq!(dvo_format_to_string(VoxelFormat::R8Uint), "r8uint");
    assert_eq!(dvo_format_to_string(VoxelFormat::R32Uint), "r32uint");
}

#[test]
fn textured_block_faces() {
    let w = 2u32;
    let base = 5u32;
    let block = voxs_from_cols(w, base);
    assert_eq!(block.len(), 8);
    for x in 0..2u32 {
        for y in 0..2u32 {
            for z in 0..2u32 {
                let got = block[gi(2, x as usize, y as usize, z as usize)];
                let expect = if y == w - 1 {
                    base + x + z * w
                } else if x == 0 {
                    base + z + y * w
                } else if z == 0 {
                    base + x + y * w
                } else if x == w - 1 {
                    base + z + y * w
                } else {
                    base + x + y * w
                };
                assert_eq!(got, expect, "at ({}, {}, {})", x, y, z);
            }
        }
    }
    // An interior cell exists only from side 3 up; side 4 has 8 of them.
    let big = voxs_from_cols(4, 1);
    assert_eq!(big[gi(4, 1, 1, 1)], 1);
    assert_eq!(big.len(), 64);
}

#[test]
fn quantized_palette_layout() {
    let pal = quantized_palette();
    assert_eq!(pal.len(), 64);
    for e in 0..64usize {
        let c = pal[e];
        assert_eq!(c.r as usize, 64 * (e / 16));
        assert_eq!(c.g as usize, 64 * ((e / 4) % 4));
        assert_eq!(c.b as usize, 64 * (e % 4));
        assert_eq!(c.a, 255);
    }
    let c = Color {
        r: 200,
        g: 70,
        b: 10,
        a: 255,
    };
    let e = quantize_index(c);
    assert_eq!(e, 16 * 3 + 4 * 1);
    assert_eq!(
        pal[e as usize],
        Color {
            r: 192,
            g: 64,
            b: 0,
            a: 255
        }
    );
}

#[test]
fn name_matching() {
    let name = b"minecraft_oak_stairs".to_vec();
    assert!(ends_with(&name, &b"oak_stairs".to_vec()));
    assert!(!ends_with(&name, &b"oak_log".to_vec()));
    assert!(!ends_with(&b"log".to_vec(), &b"oak_log".to_vec()));

    let ignored = vec![b"air".to_vec(), b"_slab".to_vec()];
    assert!(is_ignored(&b"stone_slab".to_vec(), &ignored));
    assert!(!is_ignored(&b"stone".to_vec(), &ignored));

    let aliases = vec![
        (b"oak_stairs".to_vec(), b"oak_planks".to_vec()),
        (b"_stairs".to_vec(), b"stone".to_vec()),
    ];
    assert_eq!(resolve_alias(&name, &aliases), b"oak_planks".to_vec());
    assert_eq!(
        resolve_alias(&b"brick_stairs".to_vec(), &aliases),
        b"stone".to_vec()
    );
    assert_eq!(resolve_alias(&b"dirt".to_vec(), &aliases), b"dirt".to_vec());
}

#[test]
fn block_assignment_writes_region_only() {
    let dim = 4usize;
    let mut voxels = vec![7u32; dim * dim * dim];
    let block = vec![1u32, 2, 3, 4, 5, 6, 7, 8];
    assign_block(&mut voxels, dim, 1, 2, 0, &block, 2);
    for x in 0..dim {
        for y in 0..dim {
            for z in 0..dim {
                let got = voxels[gi(dim, x, y, z)];
                if (1..3).contains(&x) && (2..4).contains(&y) && z < 2 {
                    assert_eq!(got, block[gi(2, x - 1, y - 2, z)]);
                } else {
                    assert_eq!(got, 7);
                }
            }
        }
    }
}
