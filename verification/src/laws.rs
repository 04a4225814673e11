use vstd::prelude::*;
use vstd::math::min;

use crate::hash::strong_hash_of;
use crate::patchy::{
    base_cmds_of, block_at, cmd_covers, cmd_src, cmds_in_bounds, count_covering, diff_post,
    div_up_spec, is_block_list, lemma_count_covering_at, lemma_count_covering_nonneg,
    lemma_optimize_props, lemma_relocate_props, lemma_sum_sizes_take, maps_to, match_ok,
    optimize_spec, other_cmds_of, patch_wf, payload_of, relocate, sum_sizes, window_at,
    window_len, Block, CopyCmd, Patch, PatchCommands,
};

verus! {

/// No two of the byte ranges that the matcher ever hashes collide: any
/// window of the base and any block of the target with the same strong
/// hash hold the same bytes. The round trip below holds exactly on the
/// inputs where the strong hash is injective in this sense.
pub open spec fn no_collisions(base: Seq<u8>, other: Seq<u8>, bs: int) -> bool {
    forall|wb: int, i: int|
        0 <= wb < base.len() && 0 <= i < div_up_spec(other.len() as int, bs)
            && strong_hash_of(#[trigger] window_at(base, bs, wb)) == strong_hash_of(
            #[trigger] block_at(other, bs, i),
        ) ==> window_at(base, bs, wb) == block_at(other, bs, i)
}

/// The byte that a well-formed patch reconstructs at position `t`.
pub open spec fn applied_byte(base: Seq<u8>, p: Patch, t: int) -> u8 {
    if exists|v: int| maps_to(p.base@, t, v) {
        base[choose|v: int| maps_to(p.base@, t, v)]
    } else if exists|v: int| maps_to(p.other@, t, v) {
        p.data@[choose|v: int| maps_to(p.other@, t, v)]
    } else {
        0u8
    }
}

/// The whole reconstruction, as a function of the base and the patch.
pub open spec fn apply_spec(base: Seq<u8>, p: Patch) -> Seq<u8> {
    Seq::new(p.other_size as nat, |t: int| applied_byte(base, p, t))
}

/// A well-formed patch determines its reconstruction: any buffer that
/// satisfies what `apply_patch` ensures equals `apply_spec`.
pub proof fn lemma_apply_unique(base: Seq<u8>, p: Patch, r: Seq<u8>)
    requires
        patch_wf(p, base.len() as int),
        r.len() == p.other_size,
        forall|t: int, v: int| maps_to(p.base@, t, v) ==> r[t] == base[v],
        forall|t: int, v: int| maps_to(p.other@, t, v) ==> r[t] == p.data@[v],
        forall|t: int|
            0 <= t < p.other_size && count_covering(p.base@, t) + count_covering(p.other@, t)
                == 0 ==> r[t] == 0,
    ensures
        r == apply_spec(base, p),
{
    assert forall|t: int| 0 <= t < p.other_size implies r[t] == applied_byte(base, p, t) by {
        if exists|v: int| maps_to(p.base@, t, v) {
            let v = choose|v: int| maps_to(p.base@, t, v);
            assert(r[t] == base[v]);
        } else if exists|v: int| maps_to(p.other@, t, v) {
            let v = choose|v: int| maps_to(p.other@, t, v);
            assert(r[t] == p.data@[v]);
        } else {
            assert(count_covering(p.base@, t) == 0) by {
                lemma_count_covering_nonneg(p.base@, t);
                if count_covering(p.base@, t) != 0 {
                    lemma_count_positive_implies_maps(p.base@, t);
                }
            }
            assert(count_covering(p.other@, t) == 0) by {
                lemma_count_covering_nonneg(p.other@, t);
                if count_covering(p.other@, t) != 0 {
                    lemma_count_positive_implies_maps(p.other@, t);
                }
            }
        }
    }
    assert(r =~= apply_spec(base, p));
}

/// A positive cover count yields a witness command.
proof fn lemma_count_positive_implies_maps(s: Seq<CopyCmd>, t: int)
    requires
        count_covering(s, t) > 0,
    ensures
        exists|v: int| maps_to(s, t, v),
    decreases s.len(),
{
    if s.len() > 0 {
        if cmd_covers(s.last(), t) {
            assert(cmd_covers(s[s.len() - 1], t));
            assert(maps_to(s, t, cmd_src(s[s.len() - 1], t)));
        } else {
            lemma_count_positive_implies_maps(s.drop_last(), t);
            let v = choose|v: int| maps_to(s.drop_last(), t, v);
            let i = choose|i: int|
                0 <= i < s.drop_last().len() && cmd_covers(#[trigger] s.drop_last()[i], t) && v
                    == cmd_src(s.drop_last()[i], t);
            assert(s[i] == s.drop_last()[i]);
            assert(maps_to(s, t, v));
        }
    }
}

/// Targets of the commands the differ emits for the first `m` blocks tile
/// exactly the target positions those blocks occupy.
pub proof fn lemma_diff_cmds_tile(
    blocks: Seq<Block>,
    assign: Seq<Option<u64>>,
    other: Seq<u8>,
    bs: int,
    m: int,
)
    requires
        1 <= bs,
        assign.len() == blocks.len(),
        is_block_list(blocks, other, bs),
        0 <= m <= blocks.len(),
    ensures
        forall|t: int|
            count_covering(base_cmds_of(blocks.take(m), assign.take(m)), t) + count_covering(
                other_cmds_of(blocks.take(m), assign.take(m)),
                t,
            ) == if 0 <= t < min(m * bs, other.len() as int) {
                1int
            } else {
                0int
            },
    decreases m,
{
    let n = other.len() as int;
    if m == 0 {
        assert(blocks.take(0) =~= Seq::<Block>::empty());
        assert(assign.take(0) =~= Seq::<Option<u64>>::empty());
        assert(0 * bs == 0) by (nonlinear_arith);
    } else {
        lemma_diff_cmds_tile(blocks, assign, other, bs, m - 1);
        let bk = blocks.take(m);
        let ak = assign.take(m);
        assert(bk.drop_last() =~= blocks.take(m - 1));
        assert(ak.drop_last() =~= assign.take(m - 1));
        assert(bk.last() == blocks[m - 1]);
        assert(ak.last() == assign[m - 1]);
        let b = blocks[m - 1];
        let off = (m - 1) * bs;
        assert(b.offset == off);
        assert(b.size == min(off + bs, n) - off);
        // the first m-1 blocks end where block m-1 begins
        assert((m - 1) * bs < n) by {
            crate::patchy::lemma_ceil_pos(other.len() as int, bs, m - 1);
        }
        assert(min((m - 1) * bs, n) == off);
        assert(m * bs == off + bs) by (nonlinear_arith)
            requires
                off == (m - 1) * bs,
        ;
        let cmd = if ak.last() is Some {
            CopyCmd { source: ak.last()->0, target: b.offset, size: b.size }
        } else {
            CopyCmd { source: b.offset, target: b.offset, size: b.size }
        };
        assert forall|t: int|
            count_covering(base_cmds_of(bk, ak), t) + count_covering(other_cmds_of(bk, ak), t)
                == if 0 <= t < min(m * bs, n) {
                1int
            } else {
                0int
            } by {
            let pb = base_cmds_of(blocks.take(m - 1), assign.take(m - 1));
            let po = other_cmds_of(blocks.take(m - 1), assign.take(m - 1));
            if ak.last() is Some {
                assert(base_cmds_of(bk, ak) == pb.push(cmd));
                assert(other_cmds_of(bk, ak) == po);
                crate::patchy::lemma_count_push(pb, cmd, t);
            } else {
                assert(base_cmds_of(bk, ak) == pb);
                assert(other_cmds_of(bk, ak) == po.push(cmd));
                crate::patchy::lemma_count_push(po, cmd, t);
            }
            assert(cmd_covers(cmd, t) == (off <= t < min(off + bs, n)));
        }
    }
}

} // verus!

verus! {

/// Under collision-freedom, every command the differ emits copies exactly
/// the target bytes it is responsible for: base-sourced commands read the
/// matched window, target-sourced commands read the block itself.
pub proof fn lemma_diff_cmds_content(
    blocks: Seq<Block>,
    assign: Seq<Option<u64>>,
    base: Seq<u8>,
    other: Seq<u8>,
    bs: int,
    m: int,
)
    requires
        1 <= bs,
        assign.len() == blocks.len(),
        is_block_list(blocks, other, bs),
        no_collisions(base, other, bs),
        forall|i: int|
            0 <= i < assign.len() && assign[i] is Some ==> match_ok(
                base,
                bs,
                (#[trigger] assign[i])->0,
                blocks[i],
            ),
        0 <= m <= blocks.len(),
    ensures
        forall|t: int, v: int|
            maps_to(base_cmds_of(blocks.take(m), assign.take(m)), t, v) ==> 0 <= v
                < base.len() && 0 <= t < other.len() && other[t] == base[v],
        cmds_in_bounds(
            base_cmds_of(blocks.take(m), assign.take(m)),
            base.len() as int,
            other.len() as int,
        ),
        forall|t: int, v: int|
            maps_to(other_cmds_of(blocks.take(m), assign.take(m)), t, v) ==> v == t && 0 <= t
                < other.len(),
        cmds_in_bounds(
            other_cmds_of(blocks.take(m), assign.take(m)),
            other.len() as int,
            other.len() as int,
        ),
        forall|i: int|
            0 <= i < other_cmds_of(blocks.take(m), assign.take(m)).len()
                ==> (#[trigger] other_cmds_of(blocks.take(m), assign.take(m))[i]).source
                == other_cmds_of(blocks.take(m), assign.take(m))[i].target,
        sum_sizes(base_cmds_of(blocks.take(m), assign.take(m))) + sum_sizes(
            other_cmds_of(blocks.take(m), assign.take(m)),
        ) == min(m * bs, other.len() as int),
    decreases m,
{
    let n = other.len() as int;
    if m == 0 {
        assert(blocks.take(0) =~= Seq::<Block>::empty());
        assert(assign.take(0) =~= Seq::<Option<u64>>::empty());
        assert(0 * bs == 0) by (nonlinear_arith);
    } else {
        lemma_diff_cmds_content(blocks, assign, base, other, bs, m - 1);
        let bk = blocks.take(m);
        let ak = assign.take(m);
        assert(bk.drop_last() =~= blocks.take(m - 1));
        assert(ak.drop_last() =~= assign.take(m - 1));
        assert(bk.last() == blocks[m - 1]);
        assert(ak.last() == assign[m - 1]);
        let b = blocks[m - 1];
        let off = (m - 1) * bs;
        assert((m - 1) * bs < n) by {
            crate::patchy::lemma_ceil_pos(n, bs, m - 1);
        }
        assert(m * bs == off + bs) by (nonlinear_arith)
            requires
                off == (m - 1) * bs,
        ;
        let blk = block_at(other, bs, m - 1);
        assert(blk.len() == b.size);
        let pb = base_cmds_of(blocks.take(m - 1), assign.take(m - 1));
        let po = other_cmds_of(blocks.take(m - 1), assign.take(m - 1));
        if ak.last() is Some {
            let srcu = assign[m - 1]->0;
            let src = srcu as int;
            let cmd = CopyCmd { source: srcu, target: b.offset, size: b.size };
            assert(match_ok(base, bs, srcu, b));
            let win = window_at(base, bs, src);
            assert(strong_hash_of(win) == b.hash_strong@);
            assert(strong_hash_of(blk) == b.hash_strong@);
            assert(win == blk);
            let wl = window_len(base.len() as int, src, bs);
            assert(win.len() == wl);
            assert(wl == b.size);
            assert(src + b.size <= base.len());
            assert forall|d: int| 0 <= d < b.size implies other[off + d] == #[trigger] base[src
                + d] by {
                assert(win[d] == base[src + d]);
                assert(blk[d] == other[off + d]);
            }
            assert(base_cmds_of(bk, ak) == pb.push(cmd));
            assert(other_cmds_of(bk, ak) == po);
            assert forall|t: int, v: int|
                maps_to(base_cmds_of(bk, ak), t, v) implies 0 <= v < base.len() && 0 <= t < n
                && other[t] == base[v] by {
                crate::patchy::lemma_maps_push(pb, cmd, t, v);
                if !maps_to(pb, t, v) {
                    assert(cmd_covers(cmd, t) && v == cmd_src(cmd, t));
                    assert(other[off + (t - off)] == base[src + (t - off)]);
                }
            }
            assert(cmds_in_bounds(base_cmds_of(bk, ak), base.len() as int, n)) by {
                assert forall|i: int|
                    0 <= i < base_cmds_of(bk, ak).len() implies (#[trigger] base_cmds_of(
                    bk,
                    ak,
                )[i]).source + base_cmds_of(bk, ak)[i].size <= base.len()
                    && base_cmds_of(bk, ak)[i].target + base_cmds_of(bk, ak)[i].size <= n by {
                    if i < pb.len() {
                        assert(base_cmds_of(bk, ak)[i] == pb[i]);
                    } else {
                        assert(base_cmds_of(bk, ak)[i] == cmd);
                    }
                }
            }
            crate::patchy::lemma_sum_sizes_push(pb, cmd);
        } else {
            let cmd = CopyCmd { source: b.offset, target: b.offset, size: b.size };
            assert(base_cmds_of(bk, ak) == pb);
            assert(other_cmds_of(bk, ak) == po.push(cmd));
            assert forall|t: int, v: int|
                maps_to(other_cmds_of(bk, ak), t, v) implies v == t && 0 <= t < n by {
                crate::patchy::lemma_maps_push(po, cmd, t, v);
            }
            assert(cmds_in_bounds(other_cmds_of(bk, ak), n, n)) by {
                assert forall|i: int|
                    0 <= i < other_cmds_of(bk, ak).len() implies (#[trigger] other_cmds_of(
                    bk,
                    ak,
                )[i]).source + other_cmds_of(bk, ak)[i].size <= n && other_cmds_of(bk, ak)[
                    i].target + other_cmds_of(bk, ak)[i].size <= n by {
                    if i < po.len() {
                        assert(other_cmds_of(bk, ak)[i] == po[i]);
                    } else {
                        assert(other_cmds_of(bk, ak)[i] == cmd);
                    }
                }
            }
            assert forall|i: int|
                0 <= i < other_cmds_of(bk, ak).len() implies (#[trigger] other_cmds_of(
                bk,
                ak,
            )[i]).source == other_cmds_of(bk, ak)[i].target by {
                if i < po.len() {
                    assert(other_cmds_of(bk, ak)[i] == po[i]);
                } else {
                    assert(other_cmds_of(bk, ak)[i] == cmd);
                }
            }
            crate::patchy::lemma_sum_sizes_push(po, cmd);
        }
    }
}

/// The payload holds exactly as many bytes as the commands it serves.
pub proof fn lemma_payload_len(other: Seq<u8>, cmds: Seq<CopyCmd>)
    requires
        forall|k: int|
            0 <= k < cmds.len() ==> (#[trigger] cmds[k]).source + cmds[k].size <= other.len(),
    ensures
        payload_of(other, cmds).len() == sum_sizes(cmds),
    decreases cmds.len(),
{
    if cmds.len() > 0 {
        assert(forall|k: int|
            0 <= k < cmds.drop_last().len() ==> cmds.drop_last()[k] == (#[trigger] cmds[k]));
        lemma_payload_len(other, cmds.drop_last());
    }
}

/// Each payload position holds the target byte that its command carried.
pub proof fn lemma_payload_index(other: Seq<u8>, cmds: Seq<CopyCmd>, k: int, d: int)
    requires
        forall|j: int|
            0 <= j < cmds.len() ==> (#[trigger] cmds[j]).source + cmds[j].size <= other.len(),
        0 <= k < cmds.len(),
        0 <= d < cmds[k].size,
    ensures
        0 <= sum_sizes(cmds.take(k)) + d < sum_sizes(cmds),
        payload_of(other, cmds)[sum_sizes(cmds.take(k)) + d] == other[cmds[k].source + d],
    decreases cmds.len(),
{
    lemma_sum_sizes_take(cmds, k);
    lemma_payload_len(other, cmds);
    let dl = cmds.drop_last();
    assert(forall|j: int| 0 <= j < dl.len() ==> dl[j] == (#[trigger] cmds[j]));
    if k == cmds.len() - 1 {
        lemma_payload_len(other, dl);
        assert(cmds.take(k) =~= dl);
        assert(sum_sizes(cmds) == sum_sizes(dl) + cmds[k].size);
        assert(payload_of(other, cmds) == payload_of(other, dl) + other.subrange(
            cmds[k].source as int,
            cmds[k].source + cmds[k].size,
        ));
    } else {
        lemma_payload_index(other, dl, k, d);
        assert(cmds.take(k) =~= dl.take(k));
        lemma_payload_len(other, dl);
        lemma_sum_sizes_take(dl, k);
        assert(sum_sizes(dl.take(k)) + d < sum_sizes(dl));
    }
}

/// Relocation changes only sources, so coverage counts are untouched.
pub proof fn lemma_relocate_count(cmds: Seq<CopyCmd>, t: int)
    requires
        sum_sizes(cmds) <= u64::MAX,
    ensures
        count_covering(relocate(cmds), t) == count_covering(cmds, t),
    decreases cmds.len(),
{
    if cmds.len() > 0 {
        let dl = cmds.drop_last();
        lemma_sum_sizes_take(cmds, cmds.len() - 1);
        assert(cmds.take(cmds.len() - 1) =~= dl);
        lemma_relocate_count(dl, t);
        crate::patchy::lemma_count_push(relocate(dl), relocate(cmds).last(), t);
        assert(relocate(cmds) == relocate(dl).push(
            CopyCmd {
                source: sum_sizes(dl) as u64,
                target: cmds.last().target,
                size: cmds.last().size,
            },
        ));
    }
}

} // verus!

verus! {

/// Round trip: a patch built from the differ's commands reconstructs the
/// target byte-for-byte, and its commands partition the reconstruction.
/// The hypotheses on `pc` and `p` are exactly what `compute_diff` and
/// `build_patch` ensure; `no_collisions` confines the claim to the inputs
/// on which the strong hash is injective over the hashed ranges.
pub proof fn lemma_round_trip(
    base: Seq<u8>,
    other: Seq<u8>,
    bs: int,
    blocks: Seq<Block>,
    pc: PatchCommands,
    assign: Seq<Option<u64>>,
    p: Patch,
)
    requires
        1 <= bs,
        other.len() <= u32::MAX,
        other.len() <= usize::MAX,
        is_block_list(blocks, other, bs),
        diff_post(pc, base, blocks, bs, assign),
        no_collisions(base, other, bs),
        p.data@ == payload_of(other, pc.other@),
        p.base@ == optimize_spec(pc.base@),
        p.other@ == optimize_spec(relocate(pc.other@)),
        p.other_size == other.len(),
    ensures
        patch_wf(p, base.len() as int),
        apply_spec(base, p) == other,
        forall|t: int|
            count_covering(p.base@, t) + count_covering(p.other@, t) == if 0 <= t
                < other.len() {
                1int
            } else {
                0int
            },
        p.data@.len() == sum_sizes(p.other@),
    decreases 0int,
{
    let n = other.len() as int;
    let m = blocks.len() as int;
    let bc = base_cmds_of(blocks, assign);
    let oc = other_cmds_of(blocks, assign);
    assert(blocks.take(m) =~= blocks);
    assert(assign.take(m) =~= assign);
    lemma_diff_cmds_content(blocks, assign, base, other, bs, m);
    lemma_diff_cmds_tile(blocks, assign, other, bs, m);
    // the blocks cover all of the target
    crate::patchy::lemma_ceil_mul_ge(n, bs);
    assert(min(m * bs, n) == n);
    // size bookkeeping
    lemma_sum_sizes_take(bc, bc.len() as int);
    lemma_sum_sizes_take(oc, oc.len() as int);
    assert(sum_sizes(bc) + sum_sizes(oc) == n);
    assert(sum_sizes(bc) <= u32::MAX && sum_sizes(oc) <= u32::MAX);
    lemma_relocate_props(oc);
    let rc = relocate(oc);
    assert(sum_sizes(rc) == sum_sizes(oc));
    lemma_payload_len(other, oc);
    assert(p.data@.len() == sum_sizes(oc));
    // optimization preserves everything relevant
    lemma_optimize_props(pc.base@);
    lemma_optimize_props(rc);
    assert(sum_sizes(p.other@) == sum_sizes(oc));
    // counts carry over from the raw command lists
    assert forall|t: int|
        count_covering(p.base@, t) + count_covering(p.other@, t) == if 0 <= t < n {
            1int
        } else {
            0int
        } by {
        lemma_relocate_count(oc, t);
        assert(count_covering(p.base@, t) == count_covering(bc, t));
        assert(count_covering(p.other@, t) == count_covering(rc, t));
        assert(count_covering(bc, t) + count_covering(oc, t) == if 0 <= t < n {
            1int
        } else {
            0int
        });
    }
    // bounds carry over too
    assert(cmds_in_bounds(rc, p.data@.len() as int, n)) by {
        assert forall|k: int|
            0 <= k < rc.len() implies (#[trigger] rc[k]).source + rc[k].size
                <= p.data@.len() && rc[k].target + rc[k].size <= n by {
            assert(oc.take(k + 1).drop_last() =~= oc.take(k));
            assert(oc.take(k + 1).last() == oc[k]);
            assert(sum_sizes(oc.take(k + 1)) == sum_sizes(oc.take(k)) + oc[k].size);
            lemma_sum_sizes_take(oc, k + 1);
            assert(rc[k].source == sum_sizes(oc.take(k)));
            assert(rc[k].target == oc[k].target && rc[k].size == oc[k].size);
            assert(oc[k].target + oc[k].size <= n);
        }
    }
    assert(patch_wf(p, base.len() as int)) by {
        assert(cmds_in_bounds(p.base@, base.len() as int, p.other_size as int));
        assert(cmds_in_bounds(p.other@, p.data@.len() as int, p.other_size as int));
    }
    // the reconstruction equals the target
    assert forall|t: int| 0 <= t < n implies applied_byte(base, p, t) == other[t] by {
        if count_covering(p.base@, t) > 0 {
            lemma_count_positive_implies_maps(p.base@, t);
            let v = choose|v: int| maps_to(p.base@, t, v);
            assert(maps_to(bc, t, v));
            assert(applied_byte(base, p, t) == base[v]);
            assert(other[t] == base[v]);
        } else {
            lemma_count_covering_nonneg(p.base@, t);
            lemma_count_covering_nonneg(p.other@, t);
            assert(count_covering(p.other@, t) == 1);
            assert(!(exists|v: int| maps_to(p.base@, t, v))) by {
                if exists|v: int| maps_to(p.base@, t, v) {
                    let v = choose|v: int| maps_to(p.base@, t, v);
                    let i = choose|i: int|
                        0 <= i < p.base@.len() && cmd_covers(#[trigger] p.base@[i], t) && v
                            == cmd_src(p.base@[i], t);
                    lemma_count_covering_at(p.base@, t, i);
                }
            }
            lemma_count_positive_implies_maps(p.other@, t);
            let v = choose|v: int| maps_to(p.other@, t, v);
            assert(applied_byte(base, p, t) == p.data@[v]);
            assert(maps_to(rc, t, v));
            let i = choose|i: int|
                0 <= i < rc.len() && cmd_covers(#[trigger] rc[i], t) && v == cmd_src(rc[i], t);
            let d = t - rc[i].target;
            assert(rc[i].target == oc[i].target && rc[i].size == oc[i].size);
            assert(rc[i].source == sum_sizes(oc.take(i)));
            assert(v == sum_sizes(oc.take(i)) + d);
            lemma_payload_index(other, oc, i, d);
            assert(p.data@[v] == other[oc[i].source + d]);
            assert(oc[i].source == oc[i].target);
            assert(p.data@[v] == other[t]);
        }
    }
    assert(apply_spec(base, p) =~= other);
}

} // verus!

verus! {

/// Equal inputs: when the differ took nothing from the target side, the
/// patch carries no payload and no target-sourced commands, and (under
/// collision-freedom) reconstructs the base itself. The differ guarantees
/// the empty `other` list whenever the block list it was given describes
/// its own input, which is the case exactly when the two inputs are equal.
pub proof fn lemma_equal_inputs(
    base: Seq<u8>,
    other: Seq<u8>,
    bs: int,
    blocks: Seq<Block>,
    pc: PatchCommands,
    assign: Seq<Option<u64>>,
    p: Patch,
)
    requires
        1 <= bs,
        other.len() <= u32::MAX,
        other.len() <= usize::MAX,
        is_block_list(blocks, other, bs),
        diff_post(pc, base, blocks, bs, assign),
        no_collisions(base, other, bs),
        p.data@ == payload_of(other, pc.other@),
        p.base@ == optimize_spec(pc.base@),
        p.other@ == optimize_spec(relocate(pc.other@)),
        p.other_size == other.len(),
        base == other,
        pc.other@.len() == 0,
    ensures
        p.data@.len() == 0,
        p.other@.len() == 0,
        apply_spec(base, p) == base,
{
    assert(pc.other@ =~= Seq::<CopyCmd>::empty());
    assert(p.data@.len() == 0);
    assert(relocate(pc.other@) =~= Seq::<CopyCmd>::empty());
    crate::patchy::lemma_optimize_props(Seq::<CopyCmd>::empty());
    assert(crate::patchy::sort_by_target_spec(Seq::<CopyCmd>::empty())
        =~= Seq::<CopyCmd>::empty());
    assert(crate::patchy::merge_walk(Seq::<CopyCmd>::empty()) =~= Seq::<CopyCmd>::empty());
    assert(crate::patchy::drop_zeros(Seq::<CopyCmd>::empty()) =~= Seq::<CopyCmd>::empty());
    assert(p.other@.len() == 0);
    lemma_round_trip(base, other, bs, blocks, pc, assign, p);
}

/// Short inputs: a target no longer than the block size forms exactly one
/// block, and the finalized patch holds exactly one copy command, either
/// from the base or from the payload.
pub proof fn lemma_short_input(
    base: Seq<u8>,
    other: Seq<u8>,
    bs: int,
    blocks: Seq<Block>,
    pc: PatchCommands,
    assign: Seq<Option<u64>>,
    p: Patch,
)
    requires
        1 <= bs,
        1 <= other.len() <= bs,
        other.len() <= u32::MAX,
        other.len() <= usize::MAX,
        is_block_list(blocks, other, bs),
        diff_post(pc, base, blocks, bs, assign),
        p.data@ == payload_of(other, pc.other@),
        p.base@ == optimize_spec(pc.base@),
        p.other@ == optimize_spec(relocate(pc.other@)),
        p.other_size == other.len(),
    ensures
        blocks.len() == 1,
        p.base@.len() + p.other@.len() == 1,
        p.base@.len() == 1 ==> p.other@.len() == 0 && p.base@[0].target == 0
            && p.base@[0].size == other.len() && p.data@.len() == 0,
        p.other@.len() == 1 ==> p.base@.len() == 0 && p.other@[0].source == 0
            && p.other@[0].target == 0 && p.other@[0].size == other.len() && p.data@ == other,
{
    let n = other.len() as int;
    assert(div_up_spec(n, bs) == 1) by {
        vstd::arithmetic::div_mod::lemma_fundamental_div_mod(n, bs);
        vstd::arithmetic::div_mod::lemma_mod_division_less_than_divisor(n, bs);
        assert((n % bs == 0 ==> n / bs == 1) && (n % bs != 0 ==> n / bs == 0))
            by (nonlinear_arith)
            requires
                1 <= n <= bs,
                n == bs * (n / bs) + n % bs,
                0 <= n % bs < bs,
        ;
    }
    assert(blocks.len() == 1);
    assert(assign.len() == 1);
    let b = blocks[0];
    assert(b.size == min(0 * bs + bs, n) - 0 * bs);
    assert(0 * bs == 0) by (nonlinear_arith);
    assert(b.size == n);
    assert(blocks.drop_last() =~= Seq::<Block>::empty());
    assert(assign.drop_last() =~= Seq::<Option<u64>>::empty());
    assert(blocks.last() == b);
    assert(assign.last() == assign[0]);
    assert(base_cmds_of(blocks.drop_last(), assign.drop_last()) =~= Seq::<CopyCmd>::empty());
    assert(other_cmds_of(blocks.drop_last(), assign.drop_last()) =~= Seq::<CopyCmd>::empty());
    if assign[0] is Some {
        let cmd = CopyCmd { source: assign[0]->0, target: b.offset, size: b.size };
        assert(base_cmds_of(blocks, assign) =~= seq![cmd]);
        assert(other_cmds_of(blocks, assign) =~= Seq::<CopyCmd>::empty());
        assert(pc.other@ =~= Seq::<CopyCmd>::empty());
        assert(relocate(pc.other@) =~= Seq::<CopyCmd>::empty());
        lemma_optimize_singleton(cmd);
        crate::patchy::lemma_optimize_props(Seq::<CopyCmd>::empty());
        assert(optimize_spec(Seq::<CopyCmd>::empty()).len() == 0) by {
            lemma_optimize_empty();
        }
        assert(p.base@.len() == 1 && p.other@.len() == 0);
        assert(p.base@[0] == cmd);
        assert(cmd.target == 0 && cmd.size == n);
        assert(p.data@.len() == 0);
    } else {
        let cmd = CopyCmd { source: b.offset, target: b.offset, size: b.size };
        assert(other_cmds_of(blocks, assign) =~= seq![cmd]);
        assert(base_cmds_of(blocks, assign) =~= Seq::<CopyCmd>::empty());
        assert(pc.base@ =~= Seq::<CopyCmd>::empty());
        let rc = relocate(pc.other@);
        assert(pc.other@ =~= seq![cmd]);
        assert(pc.other@.drop_last() =~= Seq::<CopyCmd>::empty());
        assert(pc.other@.last() == cmd);
        let rcmd = CopyCmd { source: 0u64, target: cmd.target, size: cmd.size };
        assert(sum_sizes(Seq::<CopyCmd>::empty()) == 0);
        assert(relocate(Seq::<CopyCmd>::empty()) =~= Seq::<CopyCmd>::empty());
        assert(rc =~= relocate(Seq::<CopyCmd>::empty()).push(rcmd));
        assert(rc =~= seq![rcmd]);
        lemma_optimize_singleton(rcmd);
        lemma_optimize_empty();
        assert(p.base@.len() == 0 && p.other@.len() == 1);
        assert(p.other@[0] == rcmd);
        assert(rcmd.source == 0 && rcmd.target == 0 && rcmd.size == n);
        assert(p.data@ == other) by {
            assert(payload_of(other, pc.other@) == payload_of(
                other,
                pc.other@.drop_last(),
            ) + other.subrange(cmd.source as int, cmd.source + cmd.size));
            assert(payload_of(other, pc.other@.drop_last()) =~= Seq::<u8>::empty());
            assert(other.subrange(0, n) =~= other);
            assert(payload_of(other, pc.other@) =~= other);
        }
    }
}

proof fn lemma_optimize_empty()
    ensures
        optimize_spec(Seq::<CopyCmd>::empty()).len() == 0,
{
    assert(crate::patchy::sort_by_target_spec(Seq::<CopyCmd>::empty())
        =~= Seq::<CopyCmd>::empty());
    assert(crate::patchy::merge_walk(Seq::<CopyCmd>::empty()) =~= Seq::<CopyCmd>::empty());
    assert(crate::patchy::drop_zeros(Seq::<CopyCmd>::empty()) =~= Seq::<CopyCmd>::empty());
}

/// Optimizing a single non-tombstone command changes nothing.
proof fn lemma_optimize_singleton(c: CopyCmd)
    requires
        c.size >= 1,
    ensures
        optimize_spec(seq![c]) == seq![c],
{
    let s = seq![c];
    assert(s.drop_last() =~= Seq::<CopyCmd>::empty());
    assert(crate::patchy::sort_by_target_spec(Seq::<CopyCmd>::empty())
        =~= Seq::<CopyCmd>::empty());
    assert(crate::patchy::sort_by_target_spec(s) =~= crate::patchy::insert_sorted(
        c,
        Seq::<CopyCmd>::empty(),
    ));
    assert(crate::patchy::insert_sorted(c, Seq::<CopyCmd>::empty()) =~= s);
    assert(crate::patchy::merge_walk(s) == s);
    assert(crate::patchy::drop_zeros(s).len() == 1) by {
        assert(crate::patchy::drop_zeros(s.drop_last()) =~= Seq::<CopyCmd>::empty());
    }
    assert(crate::patchy::drop_zeros(s) =~= s);
}

} // verus!

verus! {

/// Facts about the differ's commands that need no collision-freedom: what
/// they move adds up to the whole target, and the target-sourced commands
/// copy in place from within the target.
pub proof fn lemma_diff_cmds_basic(
    blocks: Seq<Block>,
    assign: Seq<Option<u64>>,
    other: Seq<u8>,
    bs: int,
    m: int,
)
    requires
        1 <= bs,
        assign.len() == blocks.len(),
        is_block_list(blocks, other, bs),
        0 <= m <= blocks.len(),
    ensures
        sum_sizes(base_cmds_of(blocks.take(m), assign.take(m))) + sum_sizes(
            other_cmds_of(blocks.take(m), assign.take(m)),
        ) == min(m * bs, other.len() as int),
        sum_sizes(base_cmds_of(blocks.take(m), assign.take(m))) >= 0,
        sum_sizes(other_cmds_of(blocks.take(m), assign.take(m))) >= 0,
        forall|i: int|
            0 <= i < other_cmds_of(blocks.take(m), assign.take(m)).len()
                ==> (#[trigger] other_cmds_of(blocks.take(m), assign.take(m))[i]).source
                + other_cmds_of(blocks.take(m), assign.take(m))[i].size <= other.len()
                && other_cmds_of(blocks.take(m), assign.take(m))[i].source == other_cmds_of(
                blocks.take(m),
                assign.take(m),
            )[i].target,
    decreases m,
{
    let n = other.len() as int;
    if m == 0 {
        assert(blocks.take(0) =~= Seq::<Block>::empty());
        assert(assign.take(0) =~= Seq::<Option<u64>>::empty());
        assert(0 * bs == 0) by (nonlinear_arith);
    } else {
        lemma_diff_cmds_basic(blocks, assign, other, bs, m - 1);
        let bk = blocks.take(m);
        let ak = assign.take(m);
        assert(bk.drop_last() =~= blocks.take(m - 1));
        assert(ak.drop_last() =~= assign.take(m - 1));
        assert(bk.last() == blocks[m - 1]);
        assert(ak.last() == assign[m - 1]);
        let b = blocks[m - 1];
        let off = (m - 1) * bs;
        assert((m - 1) * bs < n) by {
            crate::patchy::lemma_ceil_pos(n, bs, m - 1);
        }
        assert(m * bs == off + bs) by (nonlinear_arith)
            requires
                off == (m - 1) * bs,
        ;
        let pb = base_cmds_of(blocks.take(m - 1), assign.take(m - 1));
        let po = other_cmds_of(blocks.take(m - 1), assign.take(m - 1));
        if ak.last() is Some {
            let cmd = CopyCmd { source: ak.last()->0, target: b.offset, size: b.size };
            assert(base_cmds_of(bk, ak) == pb.push(cmd));
            assert(other_cmds_of(bk, ak) == po);
            crate::patchy::lemma_sum_sizes_push(pb, cmd);
        } else {
            let cmd = CopyCmd { source: b.offset, target: b.offset, size: b.size };
            assert(base_cmds_of(bk, ak) == pb);
            assert(other_cmds_of(bk, ak) == po.push(cmd));
            crate::patchy::lemma_sum_sizes_push(po, cmd);
            assert forall|i: int|
                0 <= i < other_cmds_of(bk, ak).len() implies (#[trigger] other_cmds_of(
                bk,
                ak,
            )[i]).source + other_cmds_of(bk, ak)[i].size <= n && other_cmds_of(bk, ak)[
                i].source == other_cmds_of(bk, ak)[i].target by {
                if i < po.len() {
                    assert(other_cmds_of(bk, ak)[i] == po[i]);
                } else {
                    assert(other_cmds_of(bk, ak)[i] == cmd);
                }
            }
        }
    }
}

} // verus!

verus! {

/// Tampering with a payload byte that some command carries changes the
/// reconstruction, so the recorded target digest no longer matches. The
/// hypothesis on the two digests confines the claim to inputs where the
/// strong hash separates the two reconstructions, as a collision-resistant
/// digest does.
pub proof fn lemma_payload_tamper(base: Seq<u8>, p: Patch, p2: Patch, t: int, v: int)
    requires
        patch_wf(p, base.len() as int),
        p2.base@ == p.base@,
        p2.other@ == p.other@,
        p2.other_size == p.other_size,
        p2.data@.len() == p.data@.len(),
        0 <= v < p.data@.len(),
        p2.data@[v] != p.data@[v],
        maps_to(p.other@, t, v),
        strong_hash_of(apply_spec(base, p2)) == strong_hash_of(apply_spec(base, p))
            ==> apply_spec(base, p2) == apply_spec(base, p),
    ensures
        apply_spec(base, p2) != apply_spec(base, p),
        strong_hash_of(apply_spec(base, p2)) != strong_hash_of(apply_spec(base, p)),
{
    let i = choose|i: int|
        0 <= i < p.other@.len() && cmd_covers(#[trigger] p.other@[i], t) && v == cmd_src(
            p.other@[i],
            t,
        );
    assert(0 <= t < p.other_size) by {
        assert(p.other@[i].target + p.other@[i].size <= p.other_size);
    }
    assert(!(exists|w: int| maps_to(p.base@, t, w))) by {
        if exists|w: int| maps_to(p.base@, t, w) {
            let w = choose|w: int| maps_to(p.base@, t, w);
            let j = choose|j: int|
                0 <= j < p.base@.len() && cmd_covers(#[trigger] p.base@[j], t) && w == cmd_src(
                    p.base@[j],
                    t,
                );
            lemma_count_covering_at(p.base@, t, j);
            lemma_count_covering_at(p.other@, t, i);
        }
    }
    assert(exists|w: int| maps_to(p.other@, t, w));
    let w = choose|w: int| maps_to(p.other@, t, w);
    assert(w == v) by {
        let j = choose|j: int|
            0 <= j < p.other@.len() && cmd_covers(#[trigger] p.other@[j], t) && w == cmd_src(
                p.other@[j],
                t,
            );
        if i < j {
            crate::patchy::lemma_count_two_pub(p.other@, t, i, j);
            lemma_count_covering_nonneg(p.base@, t);
            assert(false);
        } else if j < i {
            crate::patchy::lemma_count_two_pub(p.other@, t, j, i);
            lemma_count_covering_nonneg(p.base@, t);
            assert(false);
        }
    }
    assert(applied_byte(base, p, t) == p.data@[v]);
    assert(applied_byte(base, p2, t) == p2.data@[v]);
    assert(apply_spec(base, p)[t] == p.data@[v]);
    assert(apply_spec(base, p2)[t] == p2.data@[v]);
    assert(apply_spec(base, p2) != apply_spec(base, p));
}

} // verus!

verus! {

/// The running size sums of a command list never decrease.
proof fn lemma_sum_take_mono(s: Seq<CopyCmd>, a: int, b: int)
    requires
        0 <= a <= b <= s.len(),
    ensures
        sum_sizes(s.take(a)) <= sum_sizes(s.take(b)),
    decreases b - a,
{
    if a < b {
        lemma_sum_take_mono(s, a, b - 1);
        assert(s.take(b).drop_last() =~= s.take(b - 1));
        assert(sum_sizes(s.take(b)) == sum_sizes(s.take(b - 1)) + s[b - 1].size);
    }
}

/// Every payload position falls into the carried range of exactly one
/// command.
proof fn lemma_sum_interval(oc: Seq<CopyCmd>, v: int)
    requires
        0 <= v < sum_sizes(oc),
    ensures
        exists|k: int|
            0 <= k < oc.len() && sum_sizes(oc.take(k)) <= v < sum_sizes(oc.take(k)) + (
            #[trigger] oc[k]).size,
    decreases oc.len(),
{
    lemma_sum_sizes_take(oc, oc.len() as int);
    let dl = oc.drop_last();
    assert(oc.take(oc.len() - 1) =~= dl);
    assert(sum_sizes(oc) == sum_sizes(dl) + oc.last().size);
    lemma_sum_sizes_take(dl, dl.len() as int);
    if v >= sum_sizes(dl) {
        let k = oc.len() - 1;
        assert(sum_sizes(oc.take(k)) <= v < sum_sizes(oc.take(k)) + oc[k].size);
    } else {
        lemma_sum_interval(dl, v);
        let k = choose|k: int|
            0 <= k < dl.len() && sum_sizes(dl.take(k)) <= v < sum_sizes(dl.take(k)) + (
            #[trigger] dl[k]).size;
        assert(dl.take(k) =~= oc.take(k));
        assert(dl[k] == oc[k]);
        assert(sum_sizes(oc.take(k)) <= v < sum_sizes(oc.take(k)) + oc[k].size);
    }
}

/// Some position of the reconstruction reads payload position `v`.
pub open spec fn payload_referenced(cmds: Seq<CopyCmd>, v: int) -> bool {
    exists|t: int| maps_to(cmds, t, v)
}

/// Payload minimality: the patch carries exactly as many bytes as its
/// target-sourced commands move, and every payload byte is read by exactly
/// one position of the reconstruction.
pub proof fn lemma_payload_exact_use(other: Seq<u8>, oc: Seq<CopyCmd>, p: Patch)
    requires
        sum_sizes(oc) <= u32::MAX,
        forall|i: int|
            0 <= i < oc.len() ==> (#[trigger] oc[i]).source + oc[i].size <= other.len(),
        p.data@ == payload_of(other, oc),
        p.other@ == optimize_spec(relocate(oc)),
    ensures
        p.data@.len() == sum_sizes(p.other@),
        forall|v: int| 0 <= v < p.data@.len() ==> #[trigger] payload_referenced(p.other@, v),
        forall|t1: int, t2: int, v: int|
            maps_to(p.other@, t1, v) && maps_to(p.other@, t2, v) ==> t1 == t2,
{
    lemma_relocate_props(oc);
    let rc = relocate(oc);
    lemma_optimize_props(rc);
    lemma_payload_len(other, oc);
    assert(p.data@.len() == sum_sizes(oc));
    assert(sum_sizes(p.other@) == sum_sizes(rc));
    assert forall|v: int| 0 <= v < p.data@.len() implies #[trigger] payload_referenced(
        p.other@,
        v,
    ) by {
        lemma_sum_interval(oc, v);
        let k = choose|k: int|
            0 <= k < oc.len() && sum_sizes(oc.take(k)) <= v < sum_sizes(oc.take(k)) + (
            #[trigger] oc[k]).size;
        let d = v - sum_sizes(oc.take(k));
        let t = oc[k].target + d;
        assert(rc[k].target == oc[k].target && rc[k].size == oc[k].size && rc[k].source
            == sum_sizes(oc.take(k)));
        assert(cmd_covers(rc[k], t));
        assert(v == cmd_src(rc[k], t));
        assert(maps_to(rc, t, v));
        assert(maps_to(p.other@, t, v));
    }
    assert forall|t1: int, t2: int, v: int|
        maps_to(p.other@, t1, v) && maps_to(p.other@, t2, v) implies t1 == t2 by {
        assert(maps_to(rc, t1, v) && maps_to(rc, t2, v));
        let i1 = choose|i: int|
            0 <= i < rc.len() && cmd_covers(#[trigger] rc[i], t1) && v == cmd_src(rc[i], t1);
        let i2 = choose|i: int|
            0 <= i < rc.len() && cmd_covers(#[trigger] rc[i], t2) && v == cmd_src(rc[i], t2);
        assert(rc[i1].source == sum_sizes(oc.take(i1)) && rc[i1].size == oc[i1].size);
        assert(rc[i2].source == sum_sizes(oc.take(i2)) && rc[i2].size == oc[i2].size);
        if i1 < i2 {
            assert(oc.take(i1 + 1).drop_last() =~= oc.take(i1));
            assert(sum_sizes(oc.take(i1 + 1)) == sum_sizes(oc.take(i1)) + oc[i1].size);
            lemma_sum_take_mono(oc, i1 + 1, i2);
            assert(false);
        }
        if i2 < i1 {
            assert(oc.take(i2 + 1).drop_last() =~= oc.take(i2));
            assert(sum_sizes(oc.take(i2 + 1)) == sum_sizes(oc.take(i2)) + oc[i2].size);
            lemma_sum_take_mono(oc, i2 + 1, i1);
            assert(false);
        }
    }
}

} // verus!
