//! The collisions of one tick: which pairs of particles are looked at, and
//! what looking at them does to the particles.
//!
//! The grid is scanned cell by cell. Two particles listed in one cell make a
//! candidate pair; a pair is looked at once in a tick, however many cells the
//! two share, and a particle is never paired with itself.

use vstd::prelude::*;
use crate::collidable::{
    calculate_collision_forces_of_intersecting_particles,
    calculate_new_centers_for_intersecting_particles,
    CollidableParticle,
};
use crate::handle::Handle;
use crate::numeric::clamp;
use crate::pairs::{pair_set_contents, unordered, PairSet, UnorderedEntitiesPair};
use crate::particle::{ParticleView, COORDINATE_LIMIT, FORCE_LIMIT};
use crate::performance_monitor::CollisionDetectionMonitor;
use crate::position_hashing::{
    handle_at,
    lemma_refreshed_lists,
    lemma_same_layout_same_cells,
    refreshed_cell,
    PositionHashMap,
};
use crate::registry::{holds, Registry, SlotView};
use crate::vector::Vector2;

verus! {

/// The pairs of the `i`-th handle of a cell with the first `m` handles of
/// the cell, in their order.
pub open spec fn pairs_of(cell: Seq<Handle>, i: int, m: int) -> Seq<(Handle, Handle)> {
    Seq::new(m as nat, |j: int| (cell[i], cell[j]))
}

/// The pairs of the first `n` handles of a cell, each with every handle of
/// the cell, in the order in which the cell is scanned.
pub open spec fn cell_scan(cell: Seq<Handle>, n: int) -> Seq<(Handle, Handle)>
    decreases n,
{
    if n <= 0 {
        Seq::empty()
    } else {
        cell_scan(cell, n - 1) + pairs_of(cell, n - 1, cell.len() as int)
    }
}

/// The pairs found in the first `n` cells of column `x`.
pub open spec fn column_scan(grid: PositionHashMap, x: int, n: int) -> Seq<(Handle, Handle)>
    decreases n,
{
    if n <= 0 {
        Seq::empty()
    } else {
        column_scan(grid, x, n - 1) + cell_scan(
            grid.cell(x, n - 1),
            grid.cell(x, n - 1).len() as int,
        )
    }
}

/// The pairs found in the columns from `from` up to `to`, in the order of
/// the scan: column by column, cell by cell, and in a cell each handle with
/// every handle.
pub open spec fn grid_scan(grid: PositionHashMap, from: int, to: int) -> Seq<(Handle, Handle)>
    decreases to - from,
{
    if to <= from {
        Seq::empty()
    } else {
        grid_scan(grid, from, to - 1) + column_scan(grid, to - 1, grid.rows())
    }
}

/// The two handles of a pair as numbers, the smaller first: equal for two
/// pairs exactly if they hold the same two particles.
pub open spec fn pair_key(pair: (Handle, Handle)) -> (u64, u64) {
    let ordered = unordered(pair.0, pair.1);
    (ordered.0.bits() as u64, ordered.1.bits() as u64)
}

/// Whether the `k`-th pair of a scan is a pair of two particles that no
/// earlier pair of the scan holds.
pub open spec fn is_first(scan: Seq<(Handle, Handle)>, k: int) -> bool {
    &&& scan[k].0 != scan[k].1
    &&& forall|j: int| 0 <= j < k ==> pair_key(#[trigger] scan[j]) != pair_key(scan[k])
}

/// The pairs that are looked at: of each two particles that a scan pairs,
/// the first pair, in the order of the scan.
pub open spec fn distinct_pairs(scan: Seq<(Handle, Handle)>) -> Seq<(Handle, Handle)>
    decreases scan.len(),
{
    if scan.len() == 0 {
        Seq::empty()
    } else {
        let before = distinct_pairs(scan.drop_last());
        if is_first(scan, scan.len() - 1) {
            before.push(scan.last())
        } else {
            before
        }
    }
}

/// The keys of the pairs of two particles in a scan.
pub open spec fn seen_keys(scan: Seq<(Handle, Handle)>) -> Set<(u64, u64)> {
    Set::new(
        |key: (u64, u64)|
            exists|j: int|
                0 <= j < scan.len() && (#[trigger] scan[j]).0 != scan[j].1 && pair_key(scan[j])
                    == key,
    )
}

/// Two pairs have the same key exactly if they hold the same two particles.
pub proof fn lemma_pair_key(p: (Handle, Handle), q: (Handle, Handle))
    ensures
        pair_key(p) == pair_key(q) <==> unordered(p.0, p.1) == unordered(q.0, q.1),
        pair_key(p).0 == pair_key(p).1 <==> p.0 == p.1,
{
    let a = unordered(p.0, p.1);
    let b = unordered(q.0, q.1);
    if pair_key(p) == pair_key(q) {
        Handle::lemma_bits_injective(a.0, b.0);
        Handle::lemma_bits_injective(a.1, b.1);
    }
    if pair_key(p).0 == pair_key(p).1 {
        Handle::lemma_bits_injective(a.0, a.1);
    }
}

/// The pairs that a tick looks at in the columns from `from` up to `to` of
/// the grid: each two particles that share a cell there, once.
pub fn candidate_pairs(grid: &PositionHashMap, from: usize, to: usize) -> (pairs: Vec<
    (Handle, Handle),
>)
    requires
        grid.wf(),
        from <= to <= grid.map.len(),
    ensures
        pairs@ == distinct_pairs(grid_scan(*grid, from as int, to as int)),
{
    let mut checked_pairs: PairSet = PairSet::new();
    let mut pairs: Vec<(Handle, Handle)> = Vec::new();
    let ghost mut scan: Seq<(Handle, Handle)> = Seq::empty();
    let mut x: usize = from;
    assert(seen_keys(scan) =~= Set::<(u64, u64)>::empty());
    while x < to
        invariant
            grid.wf(),
            from <= x <= to <= grid.map.len(),
            scan == grid_scan(*grid, from as int, x as int),
            pairs@ == distinct_pairs(scan),
            pair_set_contents(checked_pairs) == seen_keys(scan),
        decreases to - x,
    {
        let ghost before_column = scan;
        let mut y: usize = 0;
        assert(grid.map[x as int].len() == grid.rows());
        assert(scan =~= before_column + column_scan(*grid, x as int, 0));
        while y < grid.map[x].len()
            invariant
                grid.wf(),
                x < grid.map.len(),
                y <= grid.map[x as int].len(),
                grid.map[x as int].len() == grid.rows(),
                scan == before_column + column_scan(*grid, x as int, y as int),
                pairs@ == distinct_pairs(scan),
                pair_set_contents(checked_pairs) == seen_keys(scan),
            decreases grid.map[x as int].len() - y,
        {
            let ghost before_cell = scan;
            let ghost cell = grid.cell(x as int, y as int);
            let amount: usize = grid.map[x][y].len();
            let mut i: usize = 0;
            assert(scan =~= before_cell + cell_scan(cell, 0));
            while i < amount
                invariant
                    grid.wf(),
                    x < grid.map.len(),
                    y < grid.map[x as int].len(),
                    cell == grid.cell(x as int, y as int),
                    amount == cell.len(),
                    i <= amount,
                    scan == before_cell + cell_scan(cell, i as int),
                    pairs@ == distinct_pairs(scan),
                    pair_set_contents(checked_pairs) == seen_keys(scan),
                decreases amount - i,
            {
                let ghost before_row = scan;
                let entity1: Handle = grid.map[x][y][i];
                let mut j: usize = 0;
                assert(scan =~= before_row + pairs_of(cell, i as int, 0));
                while j < amount
                    invariant
                        grid.wf(),
                        x < grid.map.len(),
                        y < grid.map[x as int].len(),
                        cell == grid.cell(x as int, y as int),
                        amount == cell.len(),
                        i < amount,
                        j <= amount,
                        entity1 == cell[i as int],
                        scan == before_row + pairs_of(cell, i as int, j as int),
                        pairs@ == distinct_pairs(scan),
                        pair_set_contents(checked_pairs) == seen_keys(scan),
                    decreases amount - j,
                {
                    let entity2: Handle = grid.map[x][y][j];
                    let ghost earlier = scan;
                    proof {
                        scan = scan.push((entity1, entity2));
                        assert(scan.drop_last() == earlier);
                        assert(scan =~= before_row + pairs_of(cell, i as int, j + 1));
                        lemma_seen_keys_push(earlier, (entity1, entity2));
                    }
                    if entity1 != entity2 {
                        let unordered_entities_pair: UnorderedEntitiesPair =
                            UnorderedEntitiesPair::new(entity1, entity2);
                        let low: u64 = unordered_entities_pair.entities.0.to_bits();
                        let high: u64 = unordered_entities_pair.entities.1.to_bits();
                        if !checked_pairs.contains(low, high) {
                            pairs.push((entity1, entity2));
                            checked_pairs.insert(low, high);
                        }
                    }
                    j = j + 1;
                }
                proof {
                    assert(scan =~= before_cell + cell_scan(cell, i + 1));
                }
                i = i + 1;
            }
            proof {
                assert(scan =~= before_column + column_scan(*grid, x as int, y + 1));
            }
            y = y + 1;
        }
        proof {
            assert(scan =~= grid_scan(*grid, from as int, x + 1));
        }
        x = x + 1;
    }
    pairs
}

/// What one more pair at the end of a scan does to the keys seen and to the
/// first pairs: a pair of two particles not seen before is new, any other
/// changes nothing.
pub proof fn lemma_seen_keys_push(scan: Seq<(Handle, Handle)>, pair: (Handle, Handle))
    ensures
        ({
            let longer = scan.push(pair);
            let fresh = pair.0 != pair.1 && !seen_keys(scan).contains(pair_key(pair));
            &&& is_first(longer, longer.len() - 1) == fresh
            &&& seen_keys(longer) == if pair.0 != pair.1 {
                seen_keys(scan).insert(pair_key(pair))
            } else {
                seen_keys(scan)
            }
        }),
{
    let longer = scan.push(pair);
    let last = longer.len() - 1;
    let fresh = pair.0 != pair.1 && !seen_keys(scan).contains(pair_key(pair));
    assert forall|j: int| 0 <= j < scan.len() implies longer[j] == scan[j] by {}
    if fresh {
        assert forall|j: int| 0 <= j < last implies pair_key(#[trigger] longer[j]) != pair_key(
            longer[last],
        ) by {
            lemma_pair_key(scan[j], pair);
            if scan[j].0 == scan[j].1 {
                lemma_pair_key(pair, scan[j]);
            }
        }
    }
    if is_first(longer, last) {
        if seen_keys(scan).contains(pair_key(pair)) {
            let j = choose|j: int|
                0 <= j < scan.len() && (#[trigger] scan[j]).0 != scan[j].1 && pair_key(scan[j])
                    == pair_key(pair);
            assert(pair_key(longer[j]) == pair_key(longer[last]));
        }
    }
    let expected = if pair.0 != pair.1 {
        seen_keys(scan).insert(pair_key(pair))
    } else {
        seen_keys(scan)
    };
    assert forall|key: (u64, u64)| seen_keys(longer).contains(key) <==> expected.contains(
        key,
    ) by {
        if seen_keys(longer).contains(key) {
            let j = choose|j: int|
                0 <= j < longer.len() && (#[trigger] longer[j]).0 != longer[j].1 && pair_key(
                    longer[j],
                ) == key;
            if j < scan.len() {
                assert(scan[j] == longer[j]);
            }
        }
        if expected.contains(key) {
            if seen_keys(scan).contains(key) {
                let j = choose|j: int|
                    0 <= j < scan.len() && (#[trigger] scan[j]).0 != scan[j].1 && pair_key(
                        scan[j],
                    ) == key;
                assert(longer[j] == scan[j]);
            } else {
                assert(longer[last] == pair);
            }
        }
    }
    assert(seen_keys(longer) =~= expected);
}

/// Pair de-duplication: the pairs that are looked at hold two particles
/// each, no two of them hold the same two particles, each of them was found
/// by the scan, and each two particles that the scan pairs are held by one of
/// them. So their number is the number of sets of two particles that share
/// a cell, in however many cells they share it.
pub proof fn lemma_distinct_pairs(scan: Seq<(Handle, Handle)>)
    ensures
        ({
            let found = distinct_pairs(scan);
            &&& forall|k: int| 0 <= k < found.len() ==> (#[trigger] found[k]).0 != found[k].1
            &&& forall|k1: int, k2: int|
                0 <= k1 < k2 < found.len() ==> pair_key(#[trigger] found[k1]) != pair_key(
                    #[trigger] found[k2],
                )
            &&& forall|k: int| 0 <= k < found.len() ==> scan.contains(#[trigger] found[k])
            &&& seen_keys(found) == seen_keys(scan)
            &&& seen_keys(scan).finite()
            &&& seen_keys(scan).len() == found.len()
        }),
    decreases scan.len(),
{
    let found = distinct_pairs(scan);
    if scan.len() == 0 {
        assert(seen_keys(scan) =~= Set::<(u64, u64)>::empty());
    } else {
        let shorter = scan.drop_last();
        let before = distinct_pairs(shorter);
        let pair = scan.last();
        lemma_distinct_pairs(shorter);
        assert(scan == shorter.push(pair));
        lemma_seen_keys_push(shorter, pair);
        assert forall|k: int| 0 <= k < before.len() implies scan.contains(
            #[trigger] before[k],
        ) by {
            let at = choose|at: int| 0 <= at < shorter.len() && shorter[at] == before[k];
            assert(scan[at] == before[k]);
        }
        if is_first(scan, scan.len() - 1) {
            lemma_seen_keys_push(before, pair);
            assert(found == before.push(pair));
            assert(scan[scan.len() - 1] == pair);
            assert forall|k1: int, k2: int| 0 <= k1 < k2 < found.len() implies pair_key(
                #[trigger] found[k1],
            ) != pair_key(#[trigger] found[k2]) by {
                if k2 == before.len() {
                    assert(found[k1] == before[k1]);
                    if pair_key(before[k1]) == pair_key(pair) {
                        assert(seen_keys(before).contains(pair_key(pair)));
                    }
                } else {
                    assert(found[k1] == before[k1] && found[k2] == before[k2]);
                }
            }
            assert forall|k: int| 0 <= k < found.len() implies scan.contains(
                #[trigger] found[k],
            ) by {
                if k < before.len() {
                    assert(found[k] == before[k]);
                }
            }
        } else {
            if pair.0 != pair.1 {
                assert(seen_keys(shorter).insert(pair_key(pair)) =~= seen_keys(shorter));
            }
        }
    }
}

/// What one of two sequences holds, the two put together hold.
pub proof fn lemma_joined_contains(
    front: Seq<(Handle, Handle)>,
    back: Seq<(Handle, Handle)>,
    pair: (Handle, Handle),
)
    requires
        front.contains(pair) || back.contains(pair),
    ensures
        (front + back).contains(pair),
{
    if front.contains(pair) {
        let at = choose|at: int| 0 <= at < front.len() && front[at] == pair;
        assert((front + back)[at] == pair);
    } else {
        let at = choose|at: int| 0 <= at < back.len() && back[at] == pair;
        assert((front + back)[front.len() + at] == pair);
    }
}

/// The scan of a cell pairs each of the first `n` handles with every handle
/// of the cell.
pub proof fn lemma_cell_scan_pairs(cell: Seq<Handle>, n: int, i: int, j: int)
    requires
        0 <= i < n <= cell.len(),
        0 <= j < cell.len(),
    ensures
        cell_scan(cell, n).contains((cell[i], cell[j])),
    decreases n,
{
    let row = pairs_of(cell, n - 1, cell.len() as int);
    if i == n - 1 {
        assert(row[j] == (cell[i], cell[j]));
    } else {
        lemma_cell_scan_pairs(cell, n - 1, i, j);
    }
    lemma_joined_contains(cell_scan(cell, n - 1), row, (cell[i], cell[j]));
}

/// The scan of a column pairs every two handles of each of its first `n`
/// cells.
pub proof fn lemma_column_scan_pairs(
    grid: PositionHashMap,
    x: int,
    n: int,
    y: int,
    a: Handle,
    b: Handle,
)
    requires
        0 <= y < n,
        grid.cell(x, y).contains(a),
        grid.cell(x, y).contains(b),
    ensures
        column_scan(grid, x, n).contains((a, b)),
    decreases n,
{
    let last = grid.cell(x, n - 1);
    if y == n - 1 {
        let i = choose|i: int| 0 <= i < last.len() && last[i] == a;
        let j = choose|j: int| 0 <= j < last.len() && last[j] == b;
        lemma_cell_scan_pairs(last, last.len() as int, i, j);
    } else {
        lemma_column_scan_pairs(grid, x, n - 1, y, a, b);
    }
    lemma_joined_contains(
        column_scan(grid, x, n - 1),
        cell_scan(last, last.len() as int),
        (a, b),
    );
}

/// The scan of the columns from `from` up to `to` pairs every two handles
/// of each cell in them.
pub proof fn lemma_grid_scan_pairs(
    grid: PositionHashMap,
    from: int,
    to: int,
    x: int,
    y: int,
    a: Handle,
    b: Handle,
)
    requires
        from <= x < to,
        0 <= y < grid.rows(),
        grid.cell(x, y).contains(a),
        grid.cell(x, y).contains(b),
    ensures
        grid_scan(grid, from, to).contains((a, b)),
    decreases to - from,
{
    if x == to - 1 {
        lemma_column_scan_pairs(grid, x, grid.rows(), y, a, b);
    } else {
        lemma_grid_scan_pairs(grid, from, to - 1, x, y, a, b);
    }
    lemma_joined_contains(
        grid_scan(grid, from, to - 1),
        column_scan(grid, to - 1, grid.rows()),
        (a, b),
    );
}

/// Two particles that share a cell are looked at: one of the pairs of the
/// tick holds the two.
pub proof fn lemma_sharing_a_cell_is_looked_at(
    grid: PositionHashMap,
    x: int,
    y: int,
    a: Handle,
    b: Handle,
) -> (k: int)
    requires
        grid.in_grid(x, y),
        grid.cell(x, y).contains(a),
        grid.cell(x, y).contains(b),
        a != b,
    ensures
        ({
            let found = distinct_pairs(grid_scan(grid, 0, grid.columns()));
            0 <= k < found.len() && pair_key(found[k]) == pair_key((a, b))
        }),
{
    let scan = grid_scan(grid, 0, grid.columns());
    let found = distinct_pairs(scan);
    lemma_grid_scan_pairs(grid, 0, grid.columns(), x, y, a, b);
    lemma_distinct_pairs(scan);
    let at = choose|at: int| 0 <= at < scan.len() && scan[at] == (a, b);
    assert(seen_keys(scan).contains(pair_key((a, b))));
    assert(seen_keys(found).contains(pair_key((a, b))));
    choose|k: int|
        0 <= k < found.len() && (#[trigger] found[k]).0 != found[k].1 && pair_key(found[k])
            == pair_key((a, b))
}

/// No collision is missed: once the grid has been brought up to date, two
/// particles whose centres lie in the grid, whose radii are below the side
/// of a cell, and whose discs touch or overlap are held by one of the pairs
/// that the tick looks at.
pub proof fn lemma_touching_pair_is_looked_at(
    before: PositionHashMap,
    grid: PositionHashMap,
    slots: Seq<SlotView>,
    previous: Map<u64, (i64, i64)>,
    first: int,
    second: int,
) -> (k: int)
    requires
        before.wf(),
        grid.wf(),
        grid.same_layout(before),
        forall|i: int, j: int|
            before.in_grid(i, j) ==> #[trigger] grid.cell(i, j) == refreshed_cell(
                before,
                i,
                j,
                slots,
                previous,
                slots.len() as int,
            ),
        slots.len() <= u32::MAX,
        0 <= first < slots.len(),
        0 <= second < slots.len(),
        first != second,
        slots[first].occupied,
        slots[second].occupied,
        grid.covers(slots[first].body.position),
        grid.covers(slots[second].body.position),
        0 <= slots[first].body.particle.radius < grid.side(),
        0 <= slots[second].body.particle.radius < grid.side(),
        collidable_of(slots[first].body).touches(collidable_of(slots[second].body)),
    ensures
        ({
            let found = distinct_pairs(grid_scan(grid, 0, grid.columns()));
            0 <= k < found.len() && pair_key(found[k]) == pair_key(
                (handle_at(slots, first), handle_at(slots, second)),
            )
        }),
{
    let one = slots[first].body;
    let other = slots[second].body;
    let cell = grid.lemma_touching_discs_share_a_cell(
        one.position,
        one.particle.radius,
        other.position,
        other.particle.radius,
    );
    let x = cell.0 as int;
    let y = cell.1 as int;
    lemma_same_layout_same_cells(before, grid, one.position, one.particle.radius);
    lemma_same_layout_same_cells(before, grid, other.position, other.particle.radius);
    lemma_refreshed_lists(before, x, y, slots, previous, slots.len() as int, first);
    lemma_refreshed_lists(before, x, y, slots, previous, slots.len() as int, second);
    assert(before.in_grid(x, y));
    lemma_sharing_a_cell_is_looked_at(
        grid,
        x,
        y,
        handle_at(slots, first),
        handle_at(slots, second),
    )
}

/// What a collision reads of a particle.
pub open spec fn collidable_of(body: ParticleView) -> CollidableParticle {
    CollidableParticle {
        particle_center: body.position,
        particle: body.particle,
        mass: body.mass,
        velocity: body.velocity,
    }
}

/// The vector with the given components.
pub open spec fn to_vector(components: (int, int)) -> Vector2 {
    Vector2 { x: components.0 as i64, y: components.1 as i64 }
}

/// `center`, each coordinate moved into the range of coordinates.
pub open spec fn as_position(center: Vector2) -> Vector2 {
    Vector2 {
        x: clamp(center.x as int, -COORDINATE_LIMIT, COORDINATE_LIMIT as int) as i64,
        y: clamp(center.y as int, -COORDINATE_LIMIT, COORDINATE_LIMIT as int) as i64,
    }
}

/// A particle after a collision has been settled for it: it stands at
/// `center`, and `force` has been added to its forces unless it is null.
pub open spec fn settled(body: ParticleView, force: Vector2, center: Vector2) -> ParticleView {
    ParticleView {
        position: as_position(center),
        forces: if force.is_zero() {
            body.forces
        } else {
            body.forces.push(force)
        },
        ..body
    }
}

/// The slots after the particle in slot `index` has been settled.
pub open spec fn settle_slot(slots: Seq<SlotView>, index: int, force: Vector2, center: Vector2) -> Seq<
    SlotView,
> {
    slots.update(index, SlotView { body: settled(slots[index].body, force, center), ..slots[index] })
}

/// Whether the two particles of a pair are both there, and touch.
pub open spec fn collides(slots: Seq<SlotView>, pair: (Handle, Handle)) -> bool {
    &&& pair.0 != pair.1
    &&& holds(slots, pair.0)
    &&& holds(slots, pair.1)
    &&& collidable_of(slots[pair.0.index as int].body).touches(
        collidable_of(slots[pair.1.index as int].body),
    )
}

/// The slots after one pair has been looked at, within `dt` microseconds.
/// Where the two collide, each gets the force of the collision and is pushed
/// back to where the discs no longer overlap; else nothing changes.
pub open spec fn resolve_pair(slots: Seq<SlotView>, pair: (Handle, Handle), dt: int) -> Seq<
    SlotView,
> {
    if collides(slots, pair) {
        let first = collidable_of(slots[pair.0.index as int].body);
        let second = collidable_of(slots[pair.1.index as int].body);
        let forces = first.forces_after(second, dt);
        let centers = first.centers_after(second);
        settle_slot(
            settle_slot(slots, pair.0.index as int, to_vector(forces.0), to_vector(centers.0)),
            pair.1.index as int,
            to_vector(forces.1),
            to_vector(centers.1),
        )
    } else {
        slots
    }
}

/// The slots after the pairs have been looked at one after the other, each
/// seeing what the ones before it left.
pub open spec fn resolve_in_turn(slots: Seq<SlotView>, pairs: Seq<(Handle, Handle)>, dt: int) -> Seq<
    SlotView,
>
    decreases pairs.len(),
{
    if pairs.len() == 0 {
        slots
    } else {
        resolve_pair(resolve_in_turn(slots, pairs.drop_last(), dt), pairs.last(), dt)
    }
}

/// How many of the pairs collided when their turn came.
pub open spec fn collisions_in_turn(slots: Seq<SlotView>, pairs: Seq<(Handle, Handle)>, dt: int) -> int
    decreases pairs.len(),
{
    if pairs.len() == 0 {
        0
    } else {
        let before = resolve_in_turn(slots, pairs.drop_last(), dt);
        collisions_in_turn(slots, pairs.drop_last(), dt) + if collides(before, pairs.last()) {
            1int
        } else {
            0int
        }
    }
}

/// What a collision reads of the particle in slot `index`.
fn collidable_at(registry: &Registry, index: usize) -> (particle: CollidableParticle)
    requires
        index < registry@.len(),
    ensures
        particle == collidable_of(registry@[index as int].body),
{
    assert(registry@[index as int] == registry.slots@[index as int]@);
    CollidableParticle {
        particle_center: registry.slots[index].body.position,
        particle: registry.slots[index].body.particle,
        mass: registry.slots[index].body.mass,
        velocity: registry.slots[index].body.velocity,
    }
}

/// `center` as a position.
fn position_from(center: Vector2) -> (position: Vector2)
    ensures
        position == as_position(center),
        position.within(COORDINATE_LIMIT as int),
{
    let x: i64 = if center.x < -COORDINATE_LIMIT {
        -COORDINATE_LIMIT
    } else if center.x > COORDINATE_LIMIT {
        COORDINATE_LIMIT
    } else {
        center.x
    };
    let y: i64 = if center.y < -COORDINATE_LIMIT {
        -COORDINATE_LIMIT
    } else if center.y > COORDINATE_LIMIT {
        COORDINATE_LIMIT
    } else {
        center.y
    };
    Vector2 { x, y }
}

/// Settles a collision for the particle in slot `index`.
fn settle(registry: &mut Registry, index: usize, force: Vector2, center: Vector2)
    requires
        old(registry).wf(),
        index < old(registry)@.len(),
        force.within(FORCE_LIMIT as int),
    ensures
        final(registry).wf(),
        final(registry)@ == settle_slot(old(registry)@, index as int, force, center),
{
    assert(registry@[index as int] == registry.slots@[index as int]@);
    if force != Vector2::zero() {
        registry.slots[index].body.forces.0.push(force);
    }
    registry.slots[index].body.position = position_from(center);
    proof {
        let expected = settle_slot(old(registry)@, index as int, force, center);
        assert(registry@[index as int] == registry.slots@[index as int]@);
        assert(registry@[index as int].body.forces =~= expected[index as int].body.forces);
        assert forall|i: int| 0 <= i < registry@.len() implies registry@[i] == expected[i] by {
            if i != index {
                assert(registry@[i] == registry.slots@[i]@);
                assert(old(registry)@[i] == old(registry).slots@[i]@);
            }
        }
        assert(registry@ =~= expected);
        assert forall|i: int|
            0 <= i < registry@.len() && (#[trigger] registry@[i]).occupied implies registry@[i]
            .body.wf() by {
            if i != index {
                assert(old(registry)@[i].occupied);
            } else {
                assert(old(registry)@[i].occupied);
                assert(old(registry)@[i].body.wf());
            }
        }
    }
}

/// Looks at one pair: where the two collide, gives each the force of the
/// collision and pushes the two apart. Returns whether they collided.
pub fn resolve_candidate(registry: &mut Registry, pair: (Handle, Handle), dt: u32) -> (collided:
    bool)
    requires
        old(registry).wf(),
    ensures
        final(registry).wf(),
        final(registry)@ == resolve_pair(old(registry)@, pair, dt as int),
        collided == collides(old(registry)@, pair),
{
    if pair.0 == pair.1 || !registry.contains(pair.0) || !registry.contains(pair.1) {
        return false;
    }
    let first: usize = pair.0.index as usize;
    let second: usize = pair.1.index as usize;
    let collidable_p1: CollidableParticle = collidable_at(registry, first);
    let collidable_p2: CollidableParticle = collidable_at(registry, second);
    if !collidable_p1.is_colliding(&collidable_p2) {
        return false;
    }
    let (force1, force2): (Vector2, Vector2) = calculate_collision_forces_of_intersecting_particles(
        dt,
        collidable_p1,
        collidable_p2,
    );
    let (t1, t2): (Vector2, Vector2) = calculate_new_centers_for_intersecting_particles(
        collidable_p1,
        collidable_p2,
    );
    settle(registry, first, force1, t1);
    settle(registry, second, force2, t2);
    true
}

/// Looks at every pair of particles that share a cell, once, in the order
/// of the scan, each pair seeing what the pairs before it left: a pair that
/// collides gets its forces and is pushed apart at once. A tick of no
/// duration changes nothing. The monitor is told how many pairs were looked
/// at and how many of them collided.
pub fn apply_collisions_single_threaded(
    collision_detection_monitor: &mut CollisionDetectionMonitor,
    position_hash_map: &PositionHashMap,
    dt: u32,
    registry: &mut Registry,
)
    requires
        position_hash_map.wf(),
        old(registry).wf(),
    ensures
        final(registry).wf(),
        final(collision_detection_monitor).duration_micros == old(
            collision_detection_monitor,
        ).duration_micros,
        dt == 0 ==> final(registry)@ == old(registry)@ && *final(collision_detection_monitor)
            == *old(collision_detection_monitor),
        dt > 0 ==> ({
            let pairs = distinct_pairs(
                grid_scan(*position_hash_map, 0, position_hash_map.columns()),
            );
            &&& final(registry)@ == resolve_in_turn(old(registry)@, pairs, dt as int)
            &&& final(collision_detection_monitor).checked_pairs == pairs.len()
            &&& final(collision_detection_monitor).colliding_pairs == collisions_in_turn(
                old(registry)@,
                pairs,
                dt as int,
            )
        }),
{
    if dt == 0 {
        return ;
    }
    let pairs: Vec<(Handle, Handle)> = candidate_pairs(
        position_hash_map,
        0,
        position_hash_map.map.len(),
    );
    let mut amount_of_colliding_pairs: usize = 0;
    let mut k: usize = 0;
    assert(pairs@.subrange(0, 0) =~= Seq::<(Handle, Handle)>::empty());
    while k < pairs.len()
        invariant
            k <= pairs.len(),
            registry.wf(),
            amount_of_colliding_pairs <= k,
            registry@ == resolve_in_turn(old(registry)@, pairs@.subrange(0, k as int), dt as int),
            amount_of_colliding_pairs == collisions_in_turn(
                old(registry)@,
                pairs@.subrange(0, k as int),
                dt as int,
            ),
        decreases pairs.len() - k,
    {
        proof {
            let next = pairs@.subrange(0, k + 1);
            assert(next.drop_last() =~= pairs@.subrange(0, k as int));
            assert(next.last() == pairs@[k as int]);
        }
        if resolve_candidate(registry, pairs[k], dt) {
            amount_of_colliding_pairs = amount_of_colliding_pairs + 1;
        }
        k = k + 1;
    }
    assert(pairs@.subrange(0, k as int) =~= pairs@);
    collision_detection_monitor.checked_pairs = pairs.len();
    collision_detection_monitor.colliding_pairs = amount_of_colliding_pairs;
}

/// What a collision does to one of its two particles: the force it puts on
/// the particle, and where the particle stands afterwards.
#[derive(Clone, Copy, Debug)]
pub struct CollisionResolution {
    pub entity: Handle,
    pub new_force: Vector2,
    pub new_position: Vector2,
    /// The two particles of the collision, the smaller handle first.
    pub pair: (Handle, Handle),
}

impl CollisionResolution {
    /// What the collision of `entity` with `other_entity` does to `entity`.
    pub fn new(
        entity: Handle,
        other_entity: Handle,
        new_force: Vector2,
        new_position: Vector2,
    ) -> (resolution: CollisionResolution)
        ensures
            resolution == (CollisionResolution {
                entity,
                new_force,
                new_position,
                pair: unordered(entity, other_entity),
            }),
    {
        let pair: UnorderedEntitiesPair = UnorderedEntitiesPair::new(entity, other_entity);
        CollisionResolution { entity, new_force, new_position, pair: pair.entities }
    }

    /// The other particle of the collision.
    pub open spec fn other(self) -> Handle {
        if self.pair.0 == self.entity {
            self.pair.1
        } else {
            self.pair.0
        }
    }

    /// The particle and the other particle as numbers: equal for two
    /// resolutions exactly if they are for the same particle in the same
    /// collision.
    pub open spec fn key(self) -> (u64, u64) {
        (self.entity.bits() as u64, self.other().bits() as u64)
    }

    /// The force lies in the range of forces.
    pub open spec fn wf(self) -> bool {
        self.new_force.within(FORCE_LIMIT as int)
    }
}

/// What the pairs do to their particles, each pair judged by the slots as
/// they are given: for each pair that collides, in the order of the pairs,
/// the resolution of its first particle and then that of its second.
pub open spec fn resolutions_of(slots: Seq<SlotView>, pairs: Seq<(Handle, Handle)>, dt: int) -> Seq<
    CollisionResolution,
>
    decreases pairs.len(),
{
    if pairs.len() == 0 {
        Seq::empty()
    } else {
        let before = resolutions_of(slots, pairs.drop_last(), dt);
        let pair = pairs.last();
        if collides(slots, pair) {
            let first = collidable_of(slots[pair.0.index as int].body);
            let second = collidable_of(slots[pair.1.index as int].body);
            let forces = first.forces_after(second, dt);
            let centers = first.centers_after(second);
            before.push(
                CollisionResolution {
                    entity: pair.0,
                    new_force: to_vector(forces.0),
                    new_position: to_vector(centers.0),
                    pair: unordered(pair.0, pair.1),
                },
            ).push(
                CollisionResolution {
                    entity: pair.1,
                    new_force: to_vector(forces.1),
                    new_position: to_vector(centers.1),
                    pair: unordered(pair.1, pair.0),
                },
            )
        } else {
            before
        }
    }
}

/// Whether no earlier resolution is for the same particle in the same
/// collision as the `k`-th.
pub open spec fn is_first_resolution(resolutions: Seq<CollisionResolution>, k: int) -> bool {
    forall|j: int| 0 <= j < k ==> (#[trigger] resolutions[j]).key() != resolutions[k].key()
}

/// The resolutions without those that repeat an earlier one, in their
/// order.
pub open spec fn distinct_resolutions(resolutions: Seq<CollisionResolution>) -> Seq<
    CollisionResolution,
>
    decreases resolutions.len(),
{
    if resolutions.len() == 0 {
        Seq::empty()
    } else {
        let before = distinct_resolutions(resolutions.drop_last());
        if is_first_resolution(resolutions, resolutions.len() - 1) {
            before.push(resolutions.last())
        } else {
            before
        }
    }
}

/// The keys of the resolutions.
pub open spec fn resolution_keys(resolutions: Seq<CollisionResolution>) -> Set<(u64, u64)> {
    Set::new(
        |key: (u64, u64)|
            exists|j: int| 0 <= j < resolutions.len() && (#[trigger] resolutions[j]).key() == key,
    )
}

/// The slots after one resolution has been applied: its particle, where it
/// is still there, has got the force and stands at the new position.
pub open spec fn apply_resolution(slots: Seq<SlotView>, resolution: CollisionResolution) -> Seq<
    SlotView,
> {
    if holds(slots, resolution.entity) {
        settle_slot(
            slots,
            resolution.entity.index as int,
            resolution.new_force,
            resolution.new_position,
        )
    } else {
        slots
    }
}

/// The slots after the resolutions have been applied in their order.
pub open spec fn apply_in_turn(slots: Seq<SlotView>, resolutions: Seq<CollisionResolution>) -> Seq<
    SlotView,
>
    decreases resolutions.len(),
{
    if resolutions.len() == 0 {
        slots
    } else {
        apply_resolution(apply_in_turn(slots, resolutions.drop_last()), resolutions.last())
    }
}

/// Judges the pairs by the particles as they are, and changes none: for
/// each pair that collides, what the collision does to the one particle and
/// to the other.
pub fn resolve_candidates(pairs: &Vec<(Handle, Handle)>, registry: &Registry, dt: u32) -> (resolutions:
    Vec<CollisionResolution>)
    requires
        registry.wf(),
    ensures
        resolutions@ == resolutions_of(registry@, pairs@, dt as int),
        forall|k: int| 0 <= k < resolutions.len() ==> (#[trigger] resolutions[k]).wf(),
{
    let mut resolutions: Vec<CollisionResolution> = Vec::new();
    let mut k: usize = 0;
    assert(pairs@.subrange(0, 0) =~= Seq::<(Handle, Handle)>::empty());
    while k < pairs.len()
        invariant
            k <= pairs.len(),
            registry.wf(),
            resolutions@ == resolutions_of(registry@, pairs@.subrange(0, k as int), dt as int),
            forall|m: int| 0 <= m < resolutions.len() ==> (#[trigger] resolutions[m]).wf(),
        decreases pairs.len() - k,
    {
        proof {
            let next = pairs@.subrange(0, k + 1);
            assert(next.drop_last() =~= pairs@.subrange(0, k as int));
            assert(next.last() == pairs@[k as int]);
        }
        let (entity1, entity2): (Handle, Handle) = pairs[k];
        if entity1 != entity2 && registry.contains(entity1) && registry.contains(entity2) {
            let collidable_p1: CollidableParticle = collidable_at(
                registry,
                entity1.index as usize,
            );
            let collidable_p2: CollidableParticle = collidable_at(
                registry,
                entity2.index as usize,
            );
            if collidable_p1.is_colliding(&collidable_p2) {
                let (force1, force2): (Vector2, Vector2) =
                    calculate_collision_forces_of_intersecting_particles(
                    dt,
                    collidable_p1,
                    collidable_p2,
                );
                let (t1, t2): (Vector2, Vector2) = calculate_new_centers_for_intersecting_particles(
                    collidable_p1,
                    collidable_p2,
                );
                resolutions.push(CollisionResolution::new(entity1, entity2, force1, t1));
                resolutions.push(CollisionResolution::new(entity2, entity1, force2, t2));
            }
        }
        k = k + 1;
    }
    assert(pairs@.subrange(0, k as int) =~= pairs@);
    resolutions
}

/// Applies the resolutions in their order, each once: one that repeats an
/// earlier one, for the same particle in the same collision, is left out.
pub fn apply_resolutions(registry: &mut Registry, resolutions: &Vec<CollisionResolution>)
    requires
        old(registry).wf(),
        forall|k: int| 0 <= k < resolutions.len() ==> (#[trigger] resolutions[k]).wf(),
    ensures
        final(registry).wf(),
        final(registry)@ == apply_in_turn(old(registry)@, distinct_resolutions(resolutions@)),
{
    let mut applied: PairSet = PairSet::new();
    let mut k: usize = 0;
    assert(resolutions@.subrange(0, 0) =~= Seq::<CollisionResolution>::empty());
    assert(resolution_keys(resolutions@.subrange(0, 0)) =~= Set::<(u64, u64)>::empty());
    while k < resolutions.len()
        invariant
            k <= resolutions.len(),
            registry.wf(),
            forall|m: int| 0 <= m < resolutions.len() ==> (#[trigger] resolutions[m]).wf(),
            pair_set_contents(applied) == resolution_keys(resolutions@.subrange(0, k as int)),
            registry@ == apply_in_turn(
                old(registry)@,
                distinct_resolutions(resolutions@.subrange(0, k as int)),
            ),
        decreases resolutions.len() - k,
    {
        let resolution: CollisionResolution = resolutions[k];
        proof {
            let next = resolutions@.subrange(0, k + 1);
            assert(next.drop_last() =~= resolutions@.subrange(0, k as int));
            assert(next.last() == resolution);
            lemma_resolution_keys_push(resolutions@.subrange(0, k as int), resolution);
            assert(next == resolutions@.subrange(0, k as int).push(resolution));
            assert(resolution.wf());
        }
        let other: Handle = if resolution.pair.0 == resolution.entity {
            resolution.pair.1
        } else {
            resolution.pair.0
        };
        let own_bits: u64 = resolution.entity.to_bits();
        let other_bits: u64 = other.to_bits();
        if !applied.contains(own_bits, other_bits) {
            applied.insert(own_bits, other_bits);
            proof {
                let chosen = distinct_resolutions(resolutions@.subrange(0, k + 1));
                assert(chosen.drop_last() =~= distinct_resolutions(
                    resolutions@.subrange(0, k as int),
                ));
                assert(chosen.last() == resolution);
            }
            if registry.contains(resolution.entity) {
                settle(
                    registry,
                    resolution.entity.index as usize,
                    resolution.new_force,
                    resolution.new_position,
                );
            }
        }
        k = k + 1;
    }
    assert(resolutions@.subrange(0, k as int) =~= resolutions@);
}

/// What one more resolution does to the keys and to the question whether
/// it is the first of its key.
pub proof fn lemma_resolution_keys_push(
    resolutions: Seq<CollisionResolution>,
    resolution: CollisionResolution,
)
    ensures
        ({
            let longer = resolutions.push(resolution);
            &&& is_first_resolution(longer, longer.len() - 1) == !resolution_keys(
                resolutions,
            ).contains(resolution.key())
            &&& resolution_keys(longer) == resolution_keys(resolutions).insert(resolution.key())
        }),
{
    let longer = resolutions.push(resolution);
    let last = longer.len() - 1;
    assert forall|j: int| 0 <= j < resolutions.len() implies longer[j] == resolutions[j] by {}
    if resolution_keys(resolutions).contains(resolution.key()) {
        let j = choose|j: int|
            0 <= j < resolutions.len() && (#[trigger] resolutions[j]).key() == resolution.key();
        assert(longer[j].key() == longer[last].key());
    }
    let expected = resolution_keys(resolutions).insert(resolution.key());
    assert forall|key: (u64, u64)| resolution_keys(longer).contains(key) <==> expected.contains(
        key,
    ) by {
        if resolution_keys(longer).contains(key) {
            let j = choose|j: int| 0 <= j < longer.len() && (#[trigger] longer[j]).key() == key;
            if j < resolutions.len() {
                assert(resolutions[j] == longer[j]);
            }
        }
        if expected.contains(key) {
            if resolution_keys(resolutions).contains(key) {
                let j = choose|j: int|
                    0 <= j < resolutions.len() && (#[trigger] resolutions[j]).key() == key;
                assert(longer[j] == resolutions[j]);
            } else {
                assert(longer[last] == resolution);
            }
        }
    }
    assert(resolution_keys(longer) =~= expected);
}

/// Looks at every pair of particles that share a cell, once. Every pair is
/// judged by the particles as they were before the pass; then what the
/// collisions do is applied, collision by collision in the order of the
/// scan. A tick of no duration changes nothing. The monitor is told how
/// many pairs were looked at and how many of them collided.
pub fn apply_collisions(
    collision_detection_monitor: &mut CollisionDetectionMonitor,
    position_hash_map: &PositionHashMap,
    dt: u32,
    registry: &mut Registry,
)
    requires
        position_hash_map.wf(),
        old(registry).wf(),
    ensures
        final(registry).wf(),
        final(collision_detection_monitor).duration_micros == old(
            collision_detection_monitor,
        ).duration_micros,
        dt == 0 ==> final(registry)@ == old(registry)@ && *final(collision_detection_monitor)
            == *old(collision_detection_monitor),
        dt > 0 ==> ({
            let pairs = distinct_pairs(
                grid_scan(*position_hash_map, 0, position_hash_map.columns()),
            );
            let resolutions = resolutions_of(old(registry)@, pairs, dt as int);
            &&& final(registry)@ == apply_in_turn(
                old(registry)@,
                distinct_resolutions(resolutions),
            )
            &&& final(collision_detection_monitor).checked_pairs == pairs.len()
            &&& final(collision_detection_monitor).colliding_pairs == resolutions.len() / 2
        }),
{
    if dt == 0 {
        return ;
    }
    let pairs: Vec<(Handle, Handle)> = candidate_pairs(
        position_hash_map,
        0,
        position_hash_map.map.len(),
    );
    let resolutions: Vec<CollisionResolution> = resolve_candidates(&pairs, registry, dt);
    apply_resolutions(registry, &resolutions);
    collision_detection_monitor.checked_pairs = pairs.len();
    collision_detection_monitor.colliding_pairs = resolutions.len() / 2;
}

/// Applying resolutions neither adds nor removes a particle.
pub proof fn lemma_apply_in_turn_shape(
    slots: Seq<SlotView>,
    resolutions: Seq<CollisionResolution>,
)
    ensures
        apply_in_turn(slots, resolutions).len() == slots.len(),
        forall|i: int|
            0 <= i < slots.len() ==> (#[trigger] apply_in_turn(slots, resolutions)[i]).occupied
                == slots[i].occupied && apply_in_turn(slots, resolutions)[i].generation
                == slots[i].generation,
    decreases resolutions.len(),
{
    if resolutions.len() > 0 {
        lemma_apply_in_turn_shape(slots, resolutions.drop_last());
    }
}

} // verus!
