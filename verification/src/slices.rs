//! Collisions found slice by slice.
//!
//! The columns of the grid can be scanned in runs, each run on its own, all
//! judged by the same particles. Two particles that share cells in several
//! runs are found in each of them; when the findings are put together in the
//! order of the runs and each resolution is applied once, the result is the
//! one that a scan of the whole grid gives.

use vstd::prelude::*;
use crate::collisions::{
    collidable_of,
    collides,
    column_scan,
    distinct_pairs,
    distinct_resolutions,
    grid_scan,
    is_first_resolution,
    lemma_distinct_pairs,
    lemma_pair_key,
    lemma_resolution_keys_push,
    lemma_seen_keys_push,
    pair_key,
    resolution_keys,
    resolutions_of,
    seen_keys,
    CollisionResolution,
};
use crate::handle::Handle;
use crate::position_hashing::PositionHashMap;
use crate::registry::SlotView;
use crate::world::{collisions_of, finished, SimulationConfig};

verus! {

/// The scan of a run of columns is the scan of its first part followed by
/// the scan of the rest.
pub proof fn lemma_grid_scan_split(grid: PositionHashMap, from: int, cut: int, to: int)
    requires
        from <= cut <= to,
    ensures
        grid_scan(grid, from, to) == grid_scan(grid, from, cut) + grid_scan(grid, cut, to),
    decreases to - cut,
{
    if to == cut {
        assert(grid_scan(grid, from, cut) + grid_scan(grid, cut, to) =~= grid_scan(
            grid,
            from,
            cut,
        ));
    } else {
        lemma_grid_scan_split(grid, from, cut, to - 1);
        let last = column_scan(grid, to - 1, grid.rows());
        assert(grid_scan(grid, from, cut) + (grid_scan(grid, cut, to - 1) + last) =~= (grid_scan(
            grid,
            from,
            cut,
        ) + grid_scan(grid, cut, to - 1)) + last);
    }
}

/// Two pairs that hold the same two particles both collide or both do not,
/// whichever of the two particles comes first in each.
pub proof fn lemma_collides_either_way(
    slots: Seq<SlotView>,
    p: (Handle, Handle),
    q: (Handle, Handle),
)
    requires
        pair_key(p) == pair_key(q),
    ensures
        collides(slots, p) == collides(slots, q),
{
    lemma_pair_key(p, q);
    lemma_pair_key(p, p);
    lemma_pair_key(q, q);
    if p.0 != p.1 {
        let first = collidable_of(slots[p.0.index as int].body);
        let second = collidable_of(slots[p.1.index as int].body);
        let dx = second.particle_center.x - first.particle_center.x;
        let dy = second.particle_center.y - first.particle_center.y;
        assert(dx * dx == (-dx) * (-dx) && dy * dy == (-dy) * (-dy)) by (nonlinear_arith);
    }
}

/// Leaving out the repeated resolutions leaves the keys as they are.
pub proof fn lemma_keys_of_distinct(resolutions: Seq<CollisionResolution>)
    ensures
        resolution_keys(distinct_resolutions(resolutions)) == resolution_keys(resolutions),
    decreases resolutions.len(),
{
    if resolutions.len() == 0 {
        assert(resolution_keys(distinct_resolutions(resolutions)) =~= resolution_keys(resolutions));
    } else {
        let shorter = resolutions.drop_last();
        let last = resolutions.last();
        lemma_keys_of_distinct(shorter);
        assert(resolutions == shorter.push(last));
        lemma_resolution_keys_push(shorter, last);
        lemma_resolution_keys_push(distinct_resolutions(shorter), last);
        if !is_first_resolution(resolutions, resolutions.len() - 1) {
            assert(resolution_keys(shorter).insert(last.key()) =~= resolution_keys(shorter));
        }
    }
}

/// The two keys of the resolutions of a pair.
pub open spec fn keys_of_pair(pair: (Handle, Handle)) -> ((u64, u64), (u64, u64)) {
    ((pair.0.bits() as u64, pair.1.bits() as u64), (pair.1.bits() as u64, pair.0.bits() as u64))
}

/// The resolutions of two pairs of two particles each share a key exactly
/// if the pairs hold the same two particles.
pub proof fn lemma_keys_of_pairs(p: (Handle, Handle), q: (Handle, Handle))
    requires
        p.0 != p.1,
        q.0 != q.1,
    ensures
        pair_key(p) == pair_key(q) <==> (keys_of_pair(p).0 == keys_of_pair(q).0 || keys_of_pair(
            p,
        ).0 == keys_of_pair(q).1),
        pair_key(p) == pair_key(q) <==> (keys_of_pair(p).1 == keys_of_pair(q).0 || keys_of_pair(
            p,
        ).1 == keys_of_pair(q).1),
        keys_of_pair(p).0 != keys_of_pair(p).1,
{
    lemma_pair_key(p, q);
    if p.0.bits() == q.0.bits() {
        Handle::lemma_bits_injective(p.0, q.0);
    }
    if p.0.bits() == q.1.bits() {
        Handle::lemma_bits_injective(p.0, q.1);
    }
    if p.1.bits() == q.0.bits() {
        Handle::lemma_bits_injective(p.1, q.0);
    }
    if p.1.bits() == q.1.bits() {
        Handle::lemma_bits_injective(p.1, q.1);
    }
    if p.0.bits() == p.1.bits() {
        Handle::lemma_bits_injective(p.0, p.1);
    }
}

/// The keys of the resolutions of pairs of two particles each are the keys
/// of the pairs among them that collide.
pub proof fn lemma_keys_of_resolutions(
    slots: Seq<SlotView>,
    pairs: Seq<(Handle, Handle)>,
    dt: int,
    key: (u64, u64),
)
    ensures
        resolution_keys(resolutions_of(slots, pairs, dt)).contains(key) <==> exists|j: int|
            0 <= j < pairs.len() && collides(slots, #[trigger] pairs[j]) && (key == keys_of_pair(
                pairs[j],
            ).0 || key == keys_of_pair(pairs[j]).1),
    decreases pairs.len(),
{
    let all = resolutions_of(slots, pairs, dt);
    if pairs.len() == 0 {
    } else {
        let shorter = pairs.drop_last();
        let pair = pairs.last();
        let before = resolutions_of(slots, shorter, dt);
        lemma_keys_of_resolutions(slots, shorter, dt, key);
        assert forall|j: int| 0 <= j < shorter.len() implies shorter[j] == pairs[j] by {}
        if collides(slots, pair) {
            let first = all[all.len() - 2];
            let second = all[all.len() - 1];
            lemma_resolution_keys_push(before, first);
            lemma_resolution_keys_push(before.push(first), second);
            assert(all == before.push(first).push(second));
            lemma_pair_key(pair, pair);
            assert(first.key() == keys_of_pair(pair).0);
            assert(second.key() == keys_of_pair(pair).1);
            if resolution_keys(all).contains(key) {
                if !resolution_keys(before).contains(key) {
                    assert(collides(slots, pairs[pairs.len() - 1]));
                } else {
                    let j = choose|j: int|
                        0 <= j < shorter.len() && collides(slots, #[trigger] shorter[j]) && (key
                            == keys_of_pair(shorter[j]).0 || key == keys_of_pair(shorter[j]).1);
                    assert(pairs[j] == shorter[j]);
                }
            }
        } else {
            if resolution_keys(all).contains(key) {
                let j = choose|j: int|
                    0 <= j < shorter.len() && collides(slots, #[trigger] shorter[j]) && (key
                        == keys_of_pair(shorter[j]).0 || key == keys_of_pair(shorter[j]).1);
                assert(pairs[j] == shorter[j]);
            }
        }
        if exists|j: int|
            0 <= j < pairs.len() && collides(slots, #[trigger] pairs[j]) && (key == keys_of_pair(
                pairs[j],
            ).0 || key == keys_of_pair(pairs[j]).1) {
            let j = choose|j: int|
                0 <= j < pairs.len() && collides(slots, #[trigger] pairs[j]) && (key
                    == keys_of_pair(pairs[j]).0 || key == keys_of_pair(pairs[j]).1);
            if j < shorter.len() {
                assert(shorter[j] == pairs[j]);
            }
        }
    }
}

/// The keys of the pairs of two scans put together are the keys of the one
/// and of the other.
pub proof fn lemma_seen_keys_of_joined(front: Seq<(Handle, Handle)>, back: Seq<(Handle, Handle)>)
    ensures
        seen_keys(front + back) == seen_keys(front).union(seen_keys(back)),
{
    let joined = front + back;
    assert forall|key: (u64, u64)| seen_keys(joined).contains(key) <==> seen_keys(front).union(
        seen_keys(back),
    ).contains(key) by {
        if seen_keys(joined).contains(key) {
            let j = choose|j: int|
                0 <= j < joined.len() && (#[trigger] joined[j]).0 != joined[j].1 && pair_key(
                    joined[j],
                ) == key;
            if j < front.len() {
                assert(front[j] == joined[j]);
            } else {
                assert(back[j - front.len()] == joined[j]);
            }
        }
        if seen_keys(front).contains(key) {
            let j = choose|j: int|
                0 <= j < front.len() && (#[trigger] front[j]).0 != front[j].1 && pair_key(front[j])
                    == key;
            assert(joined[j] == front[j]);
        }
        if seen_keys(back).contains(key) {
            let j = choose|j: int|
                0 <= j < back.len() && (#[trigger] back[j]).0 != back[j].1 && pair_key(back[j])
                    == key;
            assert(joined[front.len() + j] == back[j]);
        }
    }
    assert(seen_keys(joined) =~= seen_keys(front).union(seen_keys(back)));
}

/// The resolutions of a scan hold those of a colliding pair exactly if the
/// scan has paired its two particles.
pub proof fn lemma_resolution_key_seen(
    slots: Seq<SlotView>,
    scan: Seq<(Handle, Handle)>,
    dt: int,
    pair: (Handle, Handle),
)
    requires
        pair.0 != pair.1,
        collides(slots, pair),
    ensures
        seen_keys(scan).contains(pair_key(pair)) <==> resolution_keys(
            resolutions_of(slots, distinct_pairs(scan), dt),
        ).contains(keys_of_pair(pair).0),
        seen_keys(scan).contains(pair_key(pair)) <==> resolution_keys(
            resolutions_of(slots, distinct_pairs(scan), dt),
        ).contains(keys_of_pair(pair).1),
{
    let found = distinct_pairs(scan);
    lemma_distinct_pairs(scan);
    lemma_keys_of_resolutions(slots, found, dt, keys_of_pair(pair).0);
    lemma_keys_of_resolutions(slots, found, dt, keys_of_pair(pair).1);
    if seen_keys(scan).contains(pair_key(pair)) {
        let k = choose|k: int|
            0 <= k < found.len() && (#[trigger] found[k]).0 != found[k].1 && pair_key(found[k])
                == pair_key(pair);
        lemma_collides_either_way(slots, pair, found[k]);
        lemma_keys_of_pairs(pair, found[k]);
        lemma_keys_of_pairs(found[k], pair);
    }
    if resolution_keys(resolutions_of(slots, found, dt)).contains(keys_of_pair(pair).0) {
        let j = choose|j: int|
            0 <= j < found.len() && collides(slots, #[trigger] found[j]) && (keys_of_pair(pair).0
                == keys_of_pair(found[j]).0 || keys_of_pair(pair).0 == keys_of_pair(found[j]).1);
        lemma_keys_of_pairs(pair, found[j]);
        assert(seen_keys(found).contains(pair_key(found[j])));
    }
    if resolution_keys(resolutions_of(slots, found, dt)).contains(keys_of_pair(pair).1) {
        let j = choose|j: int|
            0 <= j < found.len() && collides(slots, #[trigger] found[j]) && (keys_of_pair(pair).1
                == keys_of_pair(found[j]).0 || keys_of_pair(pair).1 == keys_of_pair(found[j]).1);
        lemma_keys_of_pairs(pair, found[j]);
        assert(seen_keys(found).contains(pair_key(found[j])));
    }
}

/// What a pair adds to the resolutions: where it collides, the resolution of
/// its first particle and that of its second; else nothing.
pub open spec fn resolutions_for(slots: Seq<SlotView>, pair: (Handle, Handle), dt: int) -> Seq<
    CollisionResolution,
> {
    resolutions_of(slots, seq![pair], dt)
}

/// The resolutions of pairs with one more at the end are the resolutions of
/// the pairs followed by what the last one adds.
pub proof fn lemma_resolutions_step(
    slots: Seq<SlotView>,
    pairs: Seq<(Handle, Handle)>,
    pair: (Handle, Handle),
    dt: int,
)
    ensures
        resolutions_of(slots, pairs.push(pair), dt) == resolutions_of(slots, pairs, dt)
            + resolutions_for(slots, pair, dt),
        !collides(slots, pair) ==> resolutions_for(slots, pair, dt).len() == 0,
        collides(slots, pair) ==> {
            let added = resolutions_for(slots, pair, dt);
            &&& added.len() == 2
            &&& added[0].key() == keys_of_pair(pair).0
            &&& added[1].key() == keys_of_pair(pair).1
        },
{
    let longer = pairs.push(pair);
    let single = seq![pair];
    assert(longer.drop_last() =~= pairs);
    assert(single.drop_last() =~= Seq::<(Handle, Handle)>::empty());
    assert(single.last() == pair);
    assert(resolutions_of(slots, single.drop_last(), dt) =~= Seq::<CollisionResolution>::empty());
    lemma_pair_key(pair, pair);
    assert(resolutions_of(slots, longer, dt) =~= resolutions_of(slots, pairs, dt)
        + resolutions_for(slots, pair, dt));
}

/// The first pairs of a scan with one more pair at the end: the pair is
/// added where it holds two particles that the scan has not paired.
pub proof fn lemma_distinct_pairs_step(scan: Seq<(Handle, Handle)>, pair: (Handle, Handle))
    ensures
        distinct_pairs(scan.push(pair)) == if pair.0 != pair.1 && !seen_keys(scan).contains(
            pair_key(pair),
        ) {
            distinct_pairs(scan).push(pair)
        } else {
            distinct_pairs(scan)
        },
{
    lemma_seen_keys_push(scan, pair);
    assert(scan.push(pair).drop_last() =~= scan);
}

/// Two resolutions added to a run of resolutions, each taken once: both
/// stay where neither key is in the run, and both go where both are.
pub proof fn lemma_distinct_with_two(
    base: Seq<CollisionResolution>,
    added: Seq<CollisionResolution>,
)
    requires
        added.len() == 2,
        added[0].key() != added[1].key(),
        resolution_keys(base).contains(added[0].key()) == resolution_keys(base).contains(
            added[1].key(),
        ),
    ensures
        distinct_resolutions(base + added) == if resolution_keys(base).contains(added[0].key()) {
            distinct_resolutions(base)
        } else {
            distinct_resolutions(base) + added
        },
{
    let one = added[0];
    let other = added[1];
    let with_one = base.push(one);
    let with_both = with_one.push(other);
    assert(base + added =~= with_both);
    lemma_resolution_keys_push(base, one);
    lemma_resolution_keys_push(with_one, other);
    assert(with_both.drop_last() =~= with_one);
    assert(with_one.drop_last() =~= base);
    assert(with_both.last() == other && with_one.last() == one);
    let first_one = is_first_resolution(with_one, with_one.len() - 1);
    let first_other = is_first_resolution(with_both, with_both.len() - 1);
    assert(first_one == !resolution_keys(base).contains(one.key()));
    assert(first_other == !resolution_keys(with_one).contains(other.key()));
    assert(resolution_keys(with_one).contains(other.key()) == resolution_keys(base).contains(
        other.key(),
    ));
    assert(distinct_resolutions(with_one) == if first_one {
        distinct_resolutions(base).push(one)
    } else {
        distinct_resolutions(base)
    });
    assert(distinct_resolutions(with_both) == if first_other {
        distinct_resolutions(with_one).push(other)
    } else {
        distinct_resolutions(with_one)
    });
    if !resolution_keys(base).contains(one.key()) {
        assert(distinct_resolutions(base) + added =~= distinct_resolutions(base).push(one).push(
            other,
        ));
    }
}

/// Slices merge into the whole: where the resolutions merged so far, each
/// taken once, are those of the columns scanned so far, adding the
/// resolutions of the next run of columns gives, each taken once, those of
/// all the columns scanned then. So the runs can be scanned apart from each
/// other, in any number, as long as their findings are put together in the
/// order of the columns.
pub proof fn lemma_merge_next_slice(
    slots: Seq<SlotView>,
    merged: Seq<CollisionResolution>,
    scanned: Seq<(Handle, Handle)>,
    next: Seq<(Handle, Handle)>,
    dt: int,
)
    requires
        distinct_resolutions(merged) == resolutions_of(slots, distinct_pairs(scanned), dt),
    ensures
        distinct_resolutions(merged + resolutions_of(slots, distinct_pairs(next), dt))
            == resolutions_of(slots, distinct_pairs(scanned + next), dt),
    decreases next.len(),
{
    if next.len() == 0 {
        assert(scanned + next =~= scanned);
        assert(merged + resolutions_of(slots, distinct_pairs(next), dt) =~= merged);
    } else {
        let shorter = next.drop_last();
        let pair = next.last();
        lemma_merge_next_slice(slots, merged, scanned, shorter, dt);
        assert(next == shorter.push(pair));
        assert(scanned + next =~= (scanned + shorter).push(pair));
        lemma_distinct_pairs_step(shorter, pair);
        lemma_distinct_pairs_step(scanned + shorter, pair);
        lemma_seen_keys_of_joined(scanned, shorter);
        if pair.0 != pair.1 && !seen_keys(shorter).contains(pair_key(pair)) {
            lemma_merge_first_of_slice(slots, merged, scanned, shorter, pair, dt);
        }
    }
}

/// One step of `lemma_merge_next_slice`, for a pair that is the first of
/// its two particles in the run.
proof fn lemma_merge_first_of_slice(
    slots: Seq<SlotView>,
    merged: Seq<CollisionResolution>,
    scanned: Seq<(Handle, Handle)>,
    shorter: Seq<(Handle, Handle)>,
    pair: (Handle, Handle),
    dt: int,
)
    requires
        pair.0 != pair.1,
        distinct_resolutions(merged + resolutions_of(slots, distinct_pairs(shorter), dt))
            == resolutions_of(slots, distinct_pairs(scanned + shorter), dt),
    ensures
        distinct_resolutions(
            merged + resolutions_of(slots, distinct_pairs(shorter).push(pair), dt),
        ) == resolutions_of(
            slots,
            if seen_keys(scanned + shorter).contains(pair_key(pair)) {
                distinct_pairs(scanned + shorter)
            } else {
                distinct_pairs(scanned + shorter).push(pair)
            },
            dt,
        ),
{
    let here = resolutions_of(slots, distinct_pairs(shorter), dt);
    let so_far = merged + here;
    let whole_so_far = resolutions_of(slots, distinct_pairs(scanned + shorter), dt);
    let added = resolutions_for(slots, pair, dt);
    lemma_resolutions_step(slots, distinct_pairs(shorter), pair, dt);
    lemma_resolutions_step(slots, distinct_pairs(scanned + shorter), pair, dt);
    assert(merged + (here + added) =~= so_far + added);
    if collides(slots, pair) {
        lemma_keys_of_pairs(pair, pair);
        lemma_keys_of_distinct(so_far);
        lemma_resolution_key_seen(slots, scanned + shorter, dt, pair);
        lemma_distinct_with_two(so_far, added);
    } else {
        assert(so_far + added =~= so_far);
        assert(whole_so_far + added =~= whole_so_far);
    }
}

/// A tick whose collisions were found slice by slice is the tick: where
/// the resolutions that were put together are, each taken once, those of a
/// scan of the whole grid, the second half of the tick leaves the particles
/// as the tick does.
pub proof fn lemma_sliced_tick(
    slots: Seq<SlotView>,
    grid: PositionHashMap,
    config: SimulationConfig,
    merged: Seq<CollisionResolution>,
    dt: int,
)
    requires
        distinct_resolutions(merged) == collisions_of(slots, grid, dt),
    ensures
        finished(slots, merged, config, dt) == finished(
            slots,
            collisions_of(slots, grid, dt),
            config,
            dt,
        ),
{
    let scan = grid_scan(grid, 0, grid.columns());
    let none = Seq::<CollisionResolution>::empty();
    let nothing = Seq::<(Handle, Handle)>::empty();
    assert(distinct_resolutions(none) == resolutions_of(slots, distinct_pairs(nothing), dt));
    lemma_merge_next_slice(slots, none, nothing, scan, dt);
    assert(none + collisions_of(slots, grid, dt) =~= collisions_of(slots, grid, dt));
    assert(nothing + scan =~= scan);
}

} // verus!
