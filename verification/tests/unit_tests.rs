use patchy::hash::{compute_hash_strong, compute_hash_weak, RollingHash};
use patchy::patchy::{
    apply_patch, build_patch, compute_blocks, compute_diff, optimize_copy_cmds, CopyCmd, Patch,
};

#[test]
fn weak_hash_of_ab_has_known_value() {
    // a = (97+31) + (98+31) = 257, b = 128 + 257 = 385, digest = 257 | 385 << 16
    assert_eq!(compute_hash_weak(b"ab"), 257 | (385 << 16));
}

#[test]
fn weak_hash_empty_is_zero() {
    assert_eq!(compute_hash_weak(b""), 0);
}

#[test]
fn rolling_hash_slides_like_a_fresh_window() {
    let mut r = RollingHash::new();
    r.update(b"abc");
    r.sub(b'a');
    assert_eq!(r.get(), compute_hash_weak(b"bc"));
    assert_eq!(r.count(), 2);
    r.add(b'd');
    assert_eq!(r.get(), compute_hash_weak(b"bcd"));
}

#[test]
fn strong_hash_separates_and_repeats() {
    let h1 = compute_hash_strong(b"a");
    let h2 = compute_hash_strong(b"b");
    let h3 = compute_hash_strong(b"a");
    assert!(h1 != h2);
    assert!(h1 == h3);
    assert_eq!(h1.as_bytes(), h3.as_bytes());
    assert_eq!(h1.as_bytes().len(), 16);
}

#[test]
fn blocks_cover_the_input() {
    let blocks = compute_blocks(b"abcde", 2);
    assert_eq!(blocks.len(), 3);
    assert_eq!(blocks[0].offset, 0);
    assert_eq!(blocks[0].size, 2);
    assert_eq!(blocks[1].offset, 2);
    assert_eq!(blocks[1].size, 2);
    assert_eq!(blocks[2].offset, 4);
    assert_eq!(blocks[2].size, 1);
    assert_eq!(blocks[0].hash_weak, compute_hash_weak(b"ab"));
    assert!(blocks[0].hash_strong == compute_hash_strong(b"ab"));
    assert_eq!(compute_blocks(b"", 4).len(), 0);
}

#[test]
fn scenario_aaa_bbb_all_bytes_carried() {
    let base = b"aaa".to_vec();
    let other = b"bbb".to_vec();
    let blocks = compute_blocks(&other, 2);
    let pc = compute_diff(&base, &blocks, 2);
    assert_eq!(pc.base.len(), 0);
    assert_eq!(pc.need_bytes_from_other(), 3);
    let patch = build_patch(&other, &pc);
    assert_eq!(patch.data, b"bbb".to_vec());
    assert_eq!(apply_patch(&base, &patch), other);
}

#[test]
fn scenario_abcd_cdab_both_blocks_from_base() {
    let base = b"abcd".to_vec();
    let other = b"cdab".to_vec();
    let blocks = compute_blocks(&other, 2);
    let pc = compute_diff(&base, &blocks, 2);
    assert_eq!(pc.other.len(), 0);
    assert_eq!(pc.base.len(), 2);
    // "cd" sits at offset 2 of the base, "ab" at offset 0
    assert_eq!(pc.base[0].source, 2);
    assert_eq!(pc.base[0].target, 0);
    assert_eq!(pc.base[1].source, 0);
    assert_eq!(pc.base[1].target, 2);
    let patch = build_patch(&other, &pc);
    assert_eq!(patch.data.len(), 0);
    assert_eq!(apply_patch(&base, &patch), other);
}

#[test]
fn scenario_equal_inputs_carry_nothing() {
    let base = b"abcd".to_vec();
    let blocks = compute_blocks(&base, 2);
    let pc = compute_diff(&base, &blocks, 2);
    assert_eq!(pc.other.len(), 0);
    assert!(pc.is_synchronized(base.len() as u64));
    let patch = build_patch(&base, &pc);
    assert_eq!(patch.data.len(), 0);
    assert_eq!(apply_patch(&base, &patch), base);
}

#[test]
fn scenario_abcd_abc_shrinks() {
    let base = b"abcd".to_vec();
    let other = b"abc".to_vec();
    let blocks = compute_blocks(&other, 2);
    let pc = compute_diff(&base, &blocks, 2);
    // the aligned block "ab" is found in the base; the short tail block
    // "c" exists in the base only inside a longer window, so its byte is
    // carried in the payload
    assert_eq!(pc.base.len(), 1);
    assert_eq!(pc.base[0].target, 0);
    assert_eq!(pc.other.len(), 1);
    let patch = build_patch(&other, &pc);
    assert_eq!(patch.data, b"c".to_vec());
    assert_eq!(apply_patch(&base, &patch), other);
    assert_eq!(patch.other_size, 3);
}

#[test]
fn scenario_short_input_single_command() {
    let base = b"xy".to_vec();
    let other = b"ab".to_vec();
    let blocks = compute_blocks(&other, 4);
    assert_eq!(blocks.len(), 1);
    let pc = compute_diff(&base, &blocks, 4);
    let patch = build_patch(&other, &pc);
    assert_eq!(patch.base.len() + patch.other.len(), 1);
    assert_eq!(apply_patch(&base, &patch), other);
}

#[test]
fn optimize_merges_adjacent_runs() {
    let mut cmds = vec![
        CopyCmd { source: 10, target: 4, size: 2 },
        CopyCmd { source: 0, target: 0, size: 2 },
        CopyCmd { source: 2, target: 2, size: 2 },
    ];
    optimize_copy_cmds(&mut cmds);
    assert_eq!(cmds.len(), 2);
    assert_eq!(cmds[0], CopyCmd { source: 0, target: 0, size: 4 });
    assert_eq!(cmds[1], CopyCmd { source: 10, target: 4, size: 2 });
}

#[test]
fn optimize_twice_is_the_same_as_once() {
    let mut once = vec![
        CopyCmd { source: 7, target: 6, size: 3 },
        CopyCmd { source: 0, target: 0, size: 3 },
        CopyCmd { source: 3, target: 3, size: 3 },
        CopyCmd { source: 40, target: 9, size: 1 },
    ];
    optimize_copy_cmds(&mut once);
    let mut twice = once.clone();
    optimize_copy_cmds(&mut twice);
    assert_eq!(once, twice);
}

#[test]
fn patch_tiling_covers_every_position_once() {
    let base = b"the quick brown fox".to_vec();
    let other = b"quick brown foxes jump".to_vec();
    let blocks = compute_blocks(&other, 4);
    let pc = compute_diff(&base, &blocks, 4);
    let patch = build_patch(&other, &pc);
    let mut covered = vec![0u32; other.len()];
    for c in patch.base.iter().chain(patch.other.iter()) {
        for k in 0..c.size as usize {
            covered[c.target as usize + k] += 1;
        }
    }
    for (i, n) in covered.iter().enumerate() {
        assert_eq!(*n, 1, "position {} covered {} times", i, n);
    }
    // payload minimality: the payload is exactly what the commands move
    let total: usize = patch.other.iter().map(|c| c.size as usize).sum();
    assert_eq!(patch.data.len(), total);
    let mut used = vec![0u32; patch.data.len()];
    for c in patch.other.iter() {
        for k in 0..c.size as usize {
            used[c.source as usize + k] += 1;
        }
    }
    for n in used.iter() {
        assert_eq!(*n, 1);
    }
    assert_eq!(apply_patch(&base, &patch), other);
}

#[test]
fn apply_zero_fills_uncovered_positions() {
    let patch = Patch {
        data: b"zz".to_vec(),
        base: Vec::new(),
        other: vec![CopyCmd { source: 0, target: 2, size: 2 }],
        other_size: 6,
    };
    let out = apply_patch(b"ignored", &patch);
    assert_eq!(out, vec![0, 0, b'z', b'z', 0, 0]);
}

#[test]
fn equal_blocks_share_the_first_confirmed_source() {
    // both target blocks are "ab"; the base holds "ab" once, at offset 2
    let base = b"xxab".to_vec();
    let other = b"abab".to_vec();
    let blocks = compute_blocks(&other, 2);
    let pc = compute_diff(&base, &blocks, 2);
    assert_eq!(pc.other.len(), 0);
    assert_eq!(pc.base.len(), 2);
    assert_eq!(pc.base[0].source, 2);
    assert_eq!(pc.base[1].source, 2);
    let patch = build_patch(&other, &pc);
    assert_eq!(apply_patch(&base, &patch), other);
}
