//! The particles of a simulation, each under a stable handle.

use vstd::prelude::*;
use crate::handle::Handle;
use crate::particle::{Particle, ParticleView};

verus! {

/// One place of the registry. It holds a particle while it is occupied, and
/// counts how often it has been given out.
#[derive(Debug)]
pub struct Slot {
    pub generation: u32,
    pub occupied: bool,
    pub body: Particle,
}

/// A place of the registry as a value.
pub struct SlotView {
    pub generation: u32,
    pub occupied: bool,
    pub body: ParticleView,
}

impl View for Slot {
    type V = SlotView;

    open spec fn view(&self) -> SlotView {
        SlotView { generation: self.generation, occupied: self.occupied, body: self.body@ }
    }
}

/// The particles, by slot.
#[derive(Debug)]
pub struct Registry {
    pub slots: Vec<Slot>,
}

impl View for Registry {
    type V = Seq<SlotView>;

    open spec fn view(&self) -> Seq<SlotView> {
        Seq::new(self.slots@.len(), |i: int| self.slots@[i]@)
    }
}

/// Whether `handle` names a particle of `slots`: its slot is occupied and
/// has been given out as often as the handle says.
pub open spec fn holds(slots: Seq<SlotView>, handle: Handle) -> bool {
    &&& handle.index < slots.len()
    &&& slots[handle.index as int].occupied
    &&& slots[handle.index as int].generation == handle.generation
}

/// Whether the slots are few enough for an index to name each, and every
/// particle in them has its quantities in their ranges.
pub open spec fn slots_wf(slots: Seq<SlotView>) -> bool {
    &&& slots.len() <= u32::MAX
    &&& forall|i: int| 0 <= i < slots.len() && (#[trigger] slots[i]).occupied ==> slots[i].body.wf()
}

/// Whether slot `i` can take a new particle: it is empty, and can still be
/// given out once more.
pub open spec fn is_free(slots: Seq<SlotView>, i: int) -> bool {
    &&& 0 <= i < slots.len()
    &&& !slots[i].occupied
    &&& slots[i].generation < u32::MAX
}

/// The first slot among the first `n` that can take a new particle, or `n`
/// where none of them can.
pub open spec fn first_free(slots: Seq<SlotView>, n: int) -> int
    decreases n,
{
    if n <= 0 {
        0
    } else {
        let before = first_free(slots, n - 1);
        if before < n - 1 {
            before
        } else if is_free(slots, n - 1) {
            n - 1
        } else {
            n
        }
    }
}

/// `first_free` is the first free slot: it is free where it lies below `n`,
/// and no slot before it is.
pub proof fn lemma_first_free(slots: Seq<SlotView>, n: int)
    requires
        0 <= n <= slots.len(),
    ensures
        0 <= first_free(slots, n) <= n,
        first_free(slots, n) < n ==> is_free(slots, first_free(slots, n)),
        forall|i: int| 0 <= i < first_free(slots, n) ==> !is_free(slots, i),
    decreases n,
{
    if n > 0 {
        lemma_first_free(slots, n - 1);
    }
}

/// The slots after a particle has been put into the first free one, or
/// into a new slot at the end where none is free.
pub open spec fn spawned(slots: Seq<SlotView>, body: ParticleView) -> Seq<SlotView> {
    let at = first_free(slots, slots.len() as int);
    if at < slots.len() {
        slots.update(
            at,
            SlotView { generation: (slots[at].generation + 1) as u32, occupied: true, body },
        )
    } else {
        slots.push(SlotView { generation: 0, occupied: true, body })
    }
}

/// The handle under which `spawned` puts the particle.
pub open spec fn spawned_handle(slots: Seq<SlotView>) -> Handle {
    let at = first_free(slots, slots.len() as int);
    if at < slots.len() {
        Handle { index: at as u32, generation: (slots[at].generation + 1) as u32 }
    } else {
        Handle { index: at as u32, generation: 0 }
    }
}

/// Whether the registry can take one more particle: a slot is free, or the
/// slots are not yet as many as an index can name.
pub open spec fn has_room(slots: Seq<SlotView>) -> bool {
    first_free(slots, slots.len() as int) < slots.len() || slots.len() < u32::MAX
}

/// The slots after the particle of `handle` has left: its slot is empty and
/// holds no forces.
pub open spec fn despawned(slots: Seq<SlotView>, handle: Handle) -> Seq<SlotView> {
    let slot = slots[handle.index as int];
    slots.update(
        handle.index as int,
        SlotView {
            generation: slot.generation,
            occupied: false,
            body: ParticleView { forces: Seq::empty(), ..slot.body },
        },
    )
}

/// Whether the particle of `handle` has left for good: its slot is empty
/// since, or has been given out again.
pub open spec fn retired(slots: Seq<SlotView>, handle: Handle) -> bool {
    &&& handle.index < slots.len()
    &&& slots[handle.index as int].generation >= handle.generation
    &&& slots[handle.index as int].generation == handle.generation ==> !slots[handle.index as int].occupied
}

/// A handle is never valid again: the handle of a particle that has been
/// removed names no particle, and neither making nor removing particles
/// changes that.
pub proof fn lemma_handle_never_valid_again(
    slots: Seq<SlotView>,
    handle: Handle,
    body: ParticleView,
    other: Handle,
)
    requires
        slots.len() <= u32::MAX,
    ensures
        retired(slots, handle) ==> !holds(slots, handle),
        holds(slots, handle) ==> retired(despawned(slots, handle), handle),
        retired(slots, handle) && has_room(slots) ==> retired(spawned(slots, body), handle),
        retired(slots, handle) && holds(slots, other) ==> retired(despawned(slots, other), handle),
        has_room(slots) ==> holds(spawned(slots, body), spawned_handle(slots)) && !holds(
            slots,
            spawned_handle(slots),
        ),
{
    lemma_first_free(slots, slots.len() as int);
}

impl Registry {
    /// Whether the registry is well formed.
    pub open spec fn wf(self) -> bool {
        slots_wf(self@)
    }

    /// A registry without particles.
    pub fn new() -> (registry: Registry)
        ensures
            registry@.len() == 0,
            registry.wf(),
    {
        Registry { slots: Vec::new() }
    }

    /// Whether the registry is well formed.
    pub fn is_valid(&self) -> (valid: bool)
        ensures
            valid == self.wf(),
    {
        if self.slots.len() > u32::MAX as usize {
            return false;
        }
        let mut i: usize = 0;
        while i < self.slots.len()
            invariant
                i <= self.slots.len(),
                forall|k: int| 0 <= k < i && (#[trigger] self@[k]).occupied ==> self@[k].body.wf(),
            decreases self.slots.len() - i,
        {
            assert(self@[i as int] == self.slots@[i as int]@);
            if self.slots[i].occupied && !self.slots[i].body.is_valid() {
                return false;
            }
            i = i + 1;
        }
        true
    }

    /// The number of slots, occupied or not.
    pub fn slot_count(&self) -> (count: usize)
        ensures
            count == self@.len(),
    {
        self.slots.len()
    }

    /// Whether `handle` names a particle of the registry.
    pub fn contains(&self, handle: Handle) -> (found: bool)
        ensures
            found == holds(self@, handle),
    {
        let index: usize = handle.index as usize;
        if index < self.slots.len() {
            assert(self@[index as int] == self.slots@[index as int]@);
            self.slots[index].occupied && self.slots[index].generation == handle.generation
        } else {
            false
        }
    }

    /// Puts `body` into the registry and returns its handle, or `None` where
    /// the registry is full.
    pub fn spawn(&mut self, body: Particle) -> (handle: Option<Handle>)
        requires
            old(self).wf(),
            body.wf(),
        ensures
            final(self).wf(),
            has_room(old(self)@) ==> handle == Some(spawned_handle(old(self)@)) && final(self)@
                == spawned(old(self)@, body@),
            !has_room(old(self)@) ==> handle.is_none() && final(self)@ == old(self)@,
    {
        let mut at: usize = 0;
        while at < self.slots.len() && !(!self.slots[at].occupied && self.slots[at].generation
            < u32::MAX)
            invariant
                at <= self.slots.len(),
                *self == *old(self),
                at == first_free(self@, at as int),
            decreases self.slots.len() - at,
        {
            assert(self@[at as int] == self.slots@[at as int]@);
            at = at + 1;
        }
        proof {
            lemma_first_free_stays(self@, at as int, self@.len() as int);
        }
        if at < self.slots.len() {
            assert(self@[at as int] == self.slots@[at as int]@);
            let generation: u32 = self.slots[at].generation + 1;
            self.slots[at] = Slot { generation, occupied: true, body };
            assert(self@ =~= spawned(old(self)@, body@));
            Some(Handle { index: at as u32, generation })
        } else if at < u32::MAX as usize {
            self.slots.push(Slot { generation: 0, occupied: true, body });
            assert(self@ =~= spawned(old(self)@, body@));
            Some(Handle { index: at as u32, generation: 0 })
        } else {
            None
        }
    }

    /// Takes the particle of `handle` out of the registry. Returns whether
    /// there was one.
    pub fn despawn(&mut self, handle: Handle) -> (removed: bool)
        requires
            old(self).wf(),
        ensures
            final(self).wf(),
            removed == holds(old(self)@, handle),
            removed ==> final(self)@ == despawned(old(self)@, handle),
            !removed ==> final(self)@ == old(self)@,
            !holds(final(self)@, handle),
    {
        if self.contains(handle) {
            let index: usize = handle.index as usize;
            assert(self@[index as int] == self.slots@[index as int]@);
            self.slots[index].occupied = false;
            self.slots[index].body.forces.0 = Vec::new();
            assert(self@ =~= despawned(old(self)@, handle));
            true
        } else {
            false
        }
    }
}

/// Once a free slot has been found among the first `n`, it is the first
/// free slot among any more.
pub proof fn lemma_first_free_stays(slots: Seq<SlotView>, n: int, m: int)
    requires
        0 <= n <= m <= slots.len(),
        first_free(slots, n) == n,
        n < slots.len() ==> is_free(slots, n),
        n == slots.len() ==> m == n,
    ensures
        first_free(slots, m) == n,
    decreases m - n,
{
    if m > n {
        if m - 1 > n {
            lemma_first_free_stays(slots, n, m - 1);
        }
    }
}

} // verus!
