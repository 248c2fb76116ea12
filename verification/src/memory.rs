//! The two memory tiers: a capacity-limited SRAM and an unbounded DRAM.
use crate::sim::{ascending, Id, Memory};
use std::collections::BTreeMap;
use std::collections::HashSet;
use vstd::prelude::*;
use vstd::std_specs::btree::increasing_seq;
use vstd::std_specs::cmp::OrdSpec;
use vstd::std_specs::iter::IteratorSpec;

verus! {

/// The number of bytes that the tensors of a residence map occupy together.
pub open spec fn total_size(m: Map<Id, usize>) -> nat
    decreases m.dom().len(),
    when m.dom().finite()
    via total_size_terminates
{
    if m.dom().len() == 0 {
        0
    } else {
        let k = m.dom().choose();
        m[k] as nat + total_size(m.remove(k))
    }
}

#[via_fn]
proof fn total_size_terminates(m: Map<Id, usize>) {
    if m.dom().len() != 0 {
        let k = m.dom().choose();
        assert(m.dom().contains(k)) by {
            if m.dom() =~= Set::empty() {
            }
        }
        assert(m.remove(k).dom() =~= m.dom().remove(k));
    }
}

/// The empty map occupies nothing.
pub proof fn lemma_total_size_empty()
    ensures
        total_size(Map::<Id, usize>::empty()) == 0,
{
}

/// Any resident tensor can be split off the total.
pub proof fn lemma_total_size_remove(m: Map<Id, usize>, id: Id)
    requires
        m.dom().finite(),
        m.contains_key(id),
    ensures
        total_size(m) == m[id] + total_size(m.remove(id)),
    decreases m.dom().len(),
{
    assert(m.dom().len() != 0) by {
        if m.dom().len() == 0 {
            assert(m.dom() =~= Set::empty());
        }
    }
    let k = m.dom().choose();
    assert(m.dom().contains(k));
    if k != id {
        assert(m.remove(k).dom() =~= m.dom().remove(k));
        assert(m.remove(id).dom() =~= m.dom().remove(id));
        lemma_total_size_remove(m.remove(k), id);
        lemma_total_size_remove(m.remove(id), k);
        assert(m.remove(k).remove(id) =~= m.remove(id).remove(k));
    }
}

/// A tensor that was not resident adds its size to the total.
pub proof fn lemma_total_size_insert(m: Map<Id, usize>, id: Id, size: usize)
    requires
        m.dom().finite(),
        !m.contains_key(id),
    ensures
        total_size(m.insert(id, size)) == total_size(m) + size,
{
    lemma_total_size_remove(m.insert(id, size), id);
    assert(m.insert(id, size).remove(id) =~= m);
}

/// A part of a residence map occupies no more than the whole.
pub proof fn lemma_total_size_restrict(m: Map<Id, usize>, keep: Set<Id>)
    requires
        m.dom().finite(),
    ensures
        total_size(m.restrict(keep)) <= total_size(m),
    decreases m.dom().len(),
{
    assert(m.restrict(keep).dom() =~= m.dom().intersect(keep));
    if m.dom().len() == 0 {
        assert(m.restrict(keep) =~= m);
    } else {
        let k = m.dom().choose();
        assert(m.dom().contains(k));
        assert(m.remove(k).dom() =~= m.dom().remove(k));
        lemma_total_size_restrict(m.remove(k), keep);
        if keep.contains(k) {
            lemma_total_size_remove(m.restrict(keep), k);
            assert(m.restrict(keep).remove(k) =~= m.remove(k).restrict(keep));
        } else {
            assert(m.restrict(keep) =~= m.remove(k).restrict(keep));
        }
    }
}

/// The ids that a key iterator of a residence map yields come in ascending order.
proof fn lemma_keys_ascending(keys: Seq<&Id>)
    requires
        increasing_seq(keys),
    ensures
        ascending(keys.unref()),
{
    reveal(vstd::laws_eq::obeys_eq_spec_properties);
    reveal(vstd::laws_cmp::obeys_partial_cmp_spec_properties);
    reveal(vstd::laws_cmp::obeys_cmp_partial_ord);
    reveal(vstd::laws_cmp::obeys_cmp_ord);
    assert(vstd::laws_cmp::obeys_cmp::<&Id>());
    assert forall|i: int, j: int| 0 <= i < j < keys.len() implies *keys[i] < *keys[j] by {
        assert(OrdSpec::cmp_spec(&keys[i], &keys[j]) is Less);
    }
}

/// The resident ids of a map, in ascending order.
fn sorted_keys(m: &BTreeMap<Id, usize>) -> (ids: Vec<Id>)
    ensures
        ascending(ids@),
        ids@.to_set() == m@.dom(),
{
    let mut ids: Vec<Id> = Vec::new();
    let keys = m.keys();
    let ghost all = keys.remaining();
    for k in it: keys
        invariant
            it.seq() == all,
            ids@ == all.take(it.index() as int).unref(),
    {
        proof {
            assert(all.take(it.index() + 1).unref() =~= all.take(it.index() as int).unref().push(
                *k,
            ));
        }
        ids.push(*k);
    }
    proof {
        assert(all.take(all.len() as int) =~= all);
        lemma_keys_ascending(all);
    }
    ids
}

/// What an SRAM holds, as mathematics.
pub struct SramModel {
    /// The resident tensors, each with its size in bytes.
    pub residence: Map<Id, usize>,
    /// The recorded number of bytes in use.
    pub resident_size: nat,
    /// Every tensor that a store has evicted so far.
    pub evicted: Set<Id>,
    /// The fixed capacity in bytes.
    pub capacity: nat,
    /// The transfers across the SRAM/DRAM boundary so far.
    pub trips: nat,
    /// The largest number of bytes that were resident at one time.
    pub peak: nat,
}

impl SramModel {
    /// The bytes in use.
    pub open spec fn used(self) -> nat {
        total_size(self.residence)
    }

    /// The recorded size is the sum of the residents' sizes, and the peak
    /// lies between it and the capacity.
    pub open spec fn wf(self) -> bool {
        &&& self.residence.dom().finite()
        &&& self.resident_size == self.used()
        &&& self.used() <= self.peak <= self.capacity
    }

    /// An SRAM of the given capacity that holds nothing.
    pub open spec fn empty(capacity: nat) -> SramModel {
        SramModel {
            residence: Map::empty(),
            resident_size: 0,
            evicted: Set::empty(),
            capacity,
            trips: 0,
            peak: 0,
        }
    }

    /// A tensor can be put: it is not resident yet and there is room for it.
    pub open spec fn admits(self, id: Id, size: usize) -> bool {
        &&& !self.residence.contains_key(id)
        &&& self.used() + size <= self.capacity
    }

    /// The SRAM after `id` arrived with `size` bytes. A tensor that a compute
    /// produced in place (`from_self`) is no trip; one that came from elsewhere is.
    pub open spec fn put(self, id: Id, size: usize, from_self: bool) -> SramModel {
        SramModel {
            residence: self.residence.insert(id, size),
            resident_size: self.resident_size + size as nat,
            trips: if from_self {
                self.trips
            } else {
                self.trips + 1
            },
            peak: if self.used() + size > self.peak {
                self.used() + size as nat
            } else {
                self.peak
            },
            ..self
        }
    }

    /// The SRAM after `id` was written back to DRAM: always one trip, and with
    /// `evict` the tensor leaves the SRAM and is noted as evicted.
    pub open spec fn store(self, id: Id, evict: bool) -> SramModel {
        SramModel {
            residence: if evict {
                self.residence.remove(id)
            } else {
                self.residence
            },
            resident_size: if evict {
                (self.resident_size - self.residence[id]) as nat
            } else {
                self.resident_size
            },
            evicted: if evict {
                self.evicted.insert(id)
            } else {
                self.evicted
            },
            trips: self.trips + 1,
            ..self
        }
    }

    /// The SRAM after `id` was dropped without a write to DRAM.
    pub open spec fn deallocate(self, id: Id) -> SramModel {
        SramModel {
            residence: self.residence.remove(id),
            resident_size: (self.resident_size - self.residence[id]) as nat,
            ..self
        }
    }

    /// The SRAM after a reset: only the capacity stays.
    pub open spec fn reset(self) -> SramModel {
        SramModel::empty(self.capacity)
    }

    /// The SRAM after `victim` was evicted against a DRAM that holds `dram`:
    /// a tensor that DRAM already backs is dropped, any other is written back.
    pub open spec fn evict(self, victim: Id, dram: Map<Id, usize>) -> SramModel {
        if dram.contains_key(victim) {
            self.deallocate(victim)
        } else {
            self.store(victim, true)
        }
    }

    /// The bytes of the residents that `pinned` protects from eviction.
    pub open spec fn pinned_size(self, pinned: Set<Id>) -> nat {
        total_size(self.residence.restrict(pinned))
    }

    /// The SRAM after `id` was brought back from DRAM, where it has `size` bytes,
    /// into room that was already free: nothing happens if it is resident.
    pub open spec fn rematerialize(self, id: Id, size: usize) -> SramModel {
        if self.residence.contains_key(id) {
            self
        } else {
            self.put(id, size, false)
        }
    }
}

/// The accounting survives every operation: an SRAM whose residents fit
/// still holds residents that fit after a put that it admits, a store, a
/// deallocation, an eviction and a reset, and its capacity never changes.
pub proof fn law_accounting_is_kept(
    s: SramModel,
    id: Id,
    size: usize,
    from_self: bool,
    evict: bool,
    dram: Map<Id, usize>,
)
    requires
        s.wf(),
    ensures
        s.admits(id, size) ==> s.put(id, size, from_self).wf() && s.put(id, size, from_self).used()
            == s.used() + size,
        s.residence.contains_key(id) ==> s.store(id, evict).wf() && s.deallocate(id).wf()
            && s.evict(id, dram).wf(),
        s.residence.contains_key(id) ==> s.deallocate(id).used() + s.residence[id] == s.used(),
        s.reset().wf(),
        s.put(id, size, from_self).capacity == s.capacity,
        s.store(id, evict).capacity == s.capacity,
        s.deallocate(id).capacity == s.capacity,
        s.reset().capacity == s.capacity,
{
    if s.admits(id, size) {
        lemma_total_size_insert(s.residence, id, size);
    }
    if s.residence.contains_key(id) {
        lemma_total_size_remove(s.residence, id);
    }
    lemma_total_size_empty();
}

/// The trip counter never goes back, and it counts exactly the transfers: one
/// for each put of a tensor that arrives from elsewhere, one for each store,
/// none for a put in place or a deallocation.
pub proof fn law_trips_count_transfers(s: SramModel, id: Id, size: usize, evict: bool)
    ensures
        s.put(id, size, false).trips == s.trips + 1,
        s.put(id, size, true).trips == s.trips,
        s.store(id, evict).trips == s.trips + 1,
        s.deallocate(id).trips == s.trips,
{
}

/// A store that leaves the tensor resident, followed by a rematerialization,
/// leaves the residency as it was, and the rematerialization finds nothing to
/// load: the store is the only trip.
pub proof fn law_store_then_rematerialize(s: SramModel, id: Id, size: usize)
    requires
        s.wf(),
        s.residence.contains_key(id),
    ensures
        s.store(id, false).rematerialize(id, size).residence == s.residence,
        s.store(id, false).rematerialize(id, size).trips == s.trips + 1,
        s.store(id, false).rematerialize(id, size).wf(),
{
}

/// A store that evicts the tensor, followed by its rematerialization, leaves
/// the residency as it was and counts two trips: one store out, one load
/// back. The room that the store freed is enough for the load.
pub proof fn law_evict_then_rematerialize(s: SramModel, id: Id)
    requires
        s.wf(),
        s.residence.contains_key(id),
    ensures
        s.store(id, true).admits(id, s.residence[id]),
        s.store(id, true).rematerialize(id, s.residence[id]).residence == s.residence,
        s.store(id, true).rematerialize(id, s.residence[id]).trips == s.trips + 2,
        s.store(id, true).rematerialize(id, s.residence[id]).wf(),
{
    let size = s.residence[id];
    let stored = s.store(id, true);
    lemma_total_size_remove(s.residence, id);
    lemma_total_size_insert(stored.residence, id, size);
    assert(stored.residence.insert(id, size) =~= s.residence);
}

/// DRAM after `victim` left an SRAM in which it had `size` bytes: it is
/// written back unless DRAM backs it already.
pub open spec fn dram_after_evict(dram: Map<Id, usize>, victim: Id, size: usize) -> Map<
    Id,
    usize,
> {
    if dram.contains_key(victim) {
        dram
    } else {
        dram.insert(victim, size)
    }
}

/// An accelerator's fast memory: finite, with eviction.
#[derive(Debug)]
pub struct SRAM {
    pub residence: BTreeMap<Id, usize>,
    pub evict: HashSet<Id>,
    pub resident_size: usize,
    pub mem_limit: usize,
    pub trip_count: usize,
    pub peak_size: usize,
}

/// The host memory: unbounded, without eviction or trip counter.
#[derive(Debug)]
pub struct DRAM {
    pub residence: BTreeMap<Id, usize>,
}

impl View for SRAM {
    type V = SramModel;

    open spec fn view(&self) -> SramModel {
        SramModel {
            residence: self.residence@,
            resident_size: self.resident_size as nat,
            evicted: self.evict@,
            capacity: self.mem_limit as nat,
            trips: self.trip_count as nat,
            peak: self.peak_size as nat,
        }
    }
}

impl View for DRAM {
    type V = Map<Id, usize>;

    open spec fn view(&self) -> Map<Id, usize> {
        self.residence@
    }
}

impl DRAM {
    /// A DRAM that holds nothing.
    pub fn new() -> (dram: DRAM)
        ensures
            dram@ == Map::<Id, usize>::empty(),
    {
        DRAM { residence: BTreeMap::new() }
    }
}

impl SRAM {
    /// The recorded size is the sum of the residents' sizes and, with the
    /// peak, within the capacity.
    pub open spec fn inv(&self) -> bool {
        &&& self.resident_size == total_size(self.residence@)
        &&& self.resident_size <= self.peak_size <= self.mem_limit
    }

    /// An empty SRAM of `sram_size` bytes.
    pub fn new(sram_size: usize) -> (sram: SRAM)
        ensures
            sram.inv(),
            sram@ == SramModel::empty(sram_size as nat),
    {
        let sram = SRAM {
            residence: BTreeMap::new(),
            evict: HashSet::new(),
            resident_size: 0,
            mem_limit: sram_size,
            trip_count: 0,
            peak_size: 0,
        };
        proof {
            lemma_total_size_empty();
        }
        sram
    }
}

impl Memory for SRAM {
    open spec fn contents(&self) -> Map<Id, usize> {
        self.residence@
    }

    open spec fn wf(&self) -> bool {
        self.inv()
    }

    open spec fn allocated(&self) -> nat {
        self.resident_size as nat
    }

    open spec fn total(&self) -> nat {
        self.mem_limit as nat
    }

    open spec fn admits(&self, id: Id, size: usize, from_self: bool) -> bool {
        &&& self@.admits(id, size)
        &&& from_self || self.trip_count < usize::MAX
    }

    open spec fn spills(&self) -> bool {
        true
    }

    open spec fn can_store(&self) -> bool {
        self.trip_count < usize::MAX
    }

    fn put(&mut self, data: &Id, size: usize, from_self: bool) -> (ok: bool)
        ensures
            final(self)@ == old(self)@.put(*data, size, from_self),
            final(self).resident_size == old(self).resident_size + size,
            final(self).trip_count == old(self).trip_count + if from_self {
                0nat
            } else {
                1nat
            },
    {
        proof {
            lemma_total_size_insert(self.residence@, *data, size);
        }
        self.resident_size = self.resident_size + size;
        if self.resident_size > self.peak_size {
            self.peak_size = self.resident_size;
        }
        if !from_self {
            self.trip_count = self.trip_count + 1;
        }
        self.residence.insert(*data, size);
        true
    }

    fn to_vec(&self) -> (ids: Vec<Id>) {
        sorted_keys(&self.residence)
    }

    fn size_available(&self) -> (n: usize) {
        self.mem_limit - self.resident_size
    }

    fn size_allocated(&self) -> (n: usize) {
        self.resident_size
    }

    fn size_total(&self) -> (n: usize) {
        self.mem_limit
    }

    fn size_of(&self, data: &Id) -> (r: Result<usize, ()>) {
        match self.residence.get(data) {
            Some(x) => Ok(*x),
            None => Err(()),
        }
    }

    fn get(&self, data: &Id) -> (size: usize) {
        *self.residence.get(data).unwrap()
    }

    fn store(&mut self, data: &Id, evict: bool, other: &mut DRAM)
        ensures
            final(self)@ == old(self)@.store(*data, evict),
            final(self).trip_count == old(self).trip_count + 1,
            final(self).resident_size == if evict {
                old(self).resident_size - old(self).residence@[*data]
            } else {
                old(self).resident_size as int
            },
    {
        let size = *self.residence.get(data).unwrap();
        if evict {
            proof {
                lemma_total_size_remove(self.residence@, *data);
            }
            self.residence.remove(data);
            self.evict.insert(*data);
            self.resident_size = self.resident_size - size;
        }
        self.trip_count = self.trip_count + 1;
        other.put(data, size, false);
    }

    fn reset(&mut self)
        ensures
            final(self)@ == old(self)@.reset(),
    {
        self.residence.clear();
        self.evict.clear();
        self.resident_size = 0;
        self.trip_count = 0;
        self.peak_size = 0;
        proof {
            lemma_total_size_empty();
        }
    }

    fn deallocate(&mut self, data: &Id)
        ensures
            final(self)@ == old(self)@.deallocate(*data),
            final(self).resident_size == old(self).resident_size - old(self).residence@[*data],
    {
        proof {
            lemma_total_size_remove(self.residence@, *data);
        }
        let size = *self.residence.get(data).unwrap();
        self.resident_size = self.resident_size - size;
        self.residence.remove(data);
    }

    fn contains(&self, data: &Id) -> (b: bool) {
        self.residence.contains_key(data)
    }
}

impl Memory for DRAM {
    open spec fn contents(&self) -> Map<Id, usize> {
        self.residence@
    }

    open spec fn wf(&self) -> bool {
        true
    }

    open spec fn allocated(&self) -> nat {
        0
    }

    open spec fn total(&self) -> nat {
        usize::MAX as nat
    }

    open spec fn admits(&self, id: Id, size: usize, from_self: bool) -> bool {
        true
    }

    open spec fn spills(&self) -> bool {
        false
    }

    open spec fn can_store(&self) -> bool {
        true
    }

    fn to_vec(&self) -> (ids: Vec<Id>) {
        sorted_keys(&self.residence)
    }

    fn put(&mut self, data: &Id, size: usize, _from_self: bool) -> (ok: bool) {
        self.residence.insert(*data, size);
        true
    }

    fn get(&self, data: &Id) -> (size: usize) {
        *self.residence.get(data).unwrap()
    }

    fn size_of(&self, data: &Id) -> (r: Result<usize, ()>) {
        match self.residence.get(data) {
            Some(x) => Ok(*x),
            None => Err(()),
        }
    }

    fn size_allocated(&self) -> (n: usize) {
        0
    }

    fn size_total(&self) -> (n: usize) {
        usize::MAX
    }

    fn size_available(&self) -> (n: usize) {
        usize::MAX
    }

    fn store(&mut self, _data: &Id, _evict: bool, _other: &mut DRAM) {
    }

    fn reset(&mut self) {
        self.residence.clear();
    }

    fn deallocate(&mut self, data: &Id) {
        self.residence.remove(data);
    }

    fn contains(&self, data: &Id) -> (b: bool) {
        self.residence.contains_key(data)
    }
}

} // verus!
