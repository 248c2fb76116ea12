//! Eviction heuristics: a random pick and least-recently-used.
use crate::sim::{ascending, evictable, Heuristic, Id, Memory};
use rand::rngs::OsRng;
use rand::rngs::StdRng;
use rand::seq::SliceRandom;
use rand::SeedableRng;
use std::collections::HashSet;
use vstd::prelude::*;

verus! {

/// `rand::rngs::StdRng`, the generator behind the random heuristic. Nothing
/// is known of its state.
#[verifier::external_type_specification]
#[verifier::external_body]
pub struct ExStdRng(StdRng);

/// Calls `SeedableRng::seed_from_u64` of `StdRng`. Nothing is claimed of the
/// generator that comes back.
#[verifier::external_body]
fn seeded_rng(seed: u64) -> (rng: StdRng) {
    StdRng::seed_from_u64(seed)
}

/// Calls `SeedableRng::from_rng` of `StdRng` on `OsRng`, which seeds from the
/// operating system; `None` stands for the error that it reports when the
/// system has no entropy to give. Nothing is claimed of the generator.
#[verifier::external_body]
fn entropy_rng() -> (rng: Option<StdRng>) {
    StdRng::from_rng(OsRng).ok()
}

/// Calls `SliceRandom::choose` on the items: it returns one of them, or
/// nothing when there are none. Which one it returns is left open.
#[verifier::external_body]
fn pick(rng: &mut StdRng, items: &Vec<Id>) -> (picked: Option<Id>)
    ensures
        match picked {
            Some(id) => items@.contains(id),
            None => items@.len() == 0,
        },
{
    items.choose(rng).copied()
}

/// Evicts a resident picked at random.
pub struct RandomEviction {
    rng: StdRng,
}

/// The ids among `ids` that `exclude` leaves open to eviction, in their order.
pub fn allowed_victims(ids: &Vec<Id>, exclude: &HashSet<Id>) -> (allowed: Vec<Id>)
    ensures
        allowed@ == ids@.filter(|id: Id| !exclude@.contains(id)),
{
    let ghost open = |id: Id| !exclude@.contains(id);
    let mut allowed: Vec<Id> = Vec::new();
    let mut i: usize = 0;
    proof {
        reveal(Seq::filter);
        assert(ids@.take(0).filter(open) =~= Seq::<Id>::empty());
    }
    while i < ids.len()
        invariant
            i <= ids.len(),
            open == |id: Id| !exclude@.contains(id),
            allowed@ == ids@.take(i as int).filter(open),
        decreases ids.len() - i,
    {
        proof {
            reveal(Seq::filter);
            assert(ids@.take(i + 1).drop_last() =~= ids@.take(i as int));
        }
        if !exclude.contains(&ids[i]) {
            allowed.push(ids[i]);
        }
        i = i + 1;
    }
    proof {
        assert(ids@.take(ids.len() as int) =~= ids@);
    }
    allowed
}

impl RandomEviction {
    /// A random heuristic seeded by the operating system; where that has no
    /// entropy to give, it starts from a fixed seed.
    pub fn new() -> (h: RandomEviction)
        ensures
            h.wf(),
    {
        match entropy_rng() {
            Some(rng) => RandomEviction { rng },
            None => RandomEviction { rng: seeded_rng(0) },
        }
    }

    /// A random heuristic whose picks are reproducible from `seed`.
    pub fn with_seed(seed: u64) -> (h: RandomEviction)
        ensures
            h.wf(),
    {
        RandomEviction { rng: seeded_rng(seed) }
    }
}

impl Heuristic for RandomEviction {
    open spec fn wf(&self) -> bool {
        true
    }

    /// A draw may change the generator in any way.
    open spec fn asked(&self, after: Self) -> bool {
        true
    }

    /// Any resident that may be evicted can be picked.
    open spec fn picks(
        &self,
        contents: Map<Id, usize>,
        exclude: Set<Id>,
        victim: Option<Id>,
    ) -> bool {
        match victim {
            Some(v) => evictable(v, contents, exclude),
            None => forall|id: Id| !evictable(id, contents, exclude),
        }
    }

    /// The random policy learns nothing from an access.
    open spec fn touched(&self, after: Self, data: Id, size: usize) -> bool {
        after == *self
    }

    /// The random policy learns nothing from an eviction.
    open spec fn evicted(&self, after: Self, data: Id) -> bool {
        after == *self
    }

    fn choose_victim<TM: Memory>(&mut self, sram: &TM, exclude: &HashSet<Id>) -> (victim: Option<Id>) {
        let ids = sram.to_vec();
        let allowed = allowed_victims(&ids, exclude);
        let ghost open = |id: Id| !exclude@.contains(id);
        let victim = pick(&mut self.rng, &allowed);
        proof {
            match victim {
                Some(v) => {
                    ids@.lemma_filter_contains_rev(open, v);
                    let i = allowed@.index_of(v);
                    ids@.lemma_filter_pred(open, i);
                    assert(ids@.to_set().contains(v));
                },
                None => {
                    assert forall|id: Id| !evictable(id, sram.contents(), exclude@) by {
                        if evictable(id, sram.contents(), exclude@) {
                            assert(ids@.to_set().contains(id));
                            let i = ids@.index_of(id);
                            ids@.lemma_filter_contains(open, i);
                        }
                    }
                },
            }
        }
        victim
    }

    fn touch(&mut self, _data: &Id, _size: usize) {
    }

    fn evict(&mut self, _data: &Id) {
    }
}

/// The recency order without `id`.
pub open spec fn forget(order: Seq<Id>, id: Id) -> Seq<Id> {
    if order.contains(id) {
        order.remove(order.index_of(id))
    } else {
        order
    }
}

/// The first id of `order` that may be evicted, if there is one.
pub open spec fn oldest_evictable(order: Seq<Id>, contents: Map<Id, usize>, exclude: Set<Id>) -> Option<
    Id,
>
    decreases order.len(),
{
    if order.len() == 0 {
        None
    } else if evictable(order[0], contents, exclude) {
        Some(order[0])
    } else {
        oldest_evictable(order.drop_first(), contents, exclude)
    }
}

/// The smallest id that may be evicted, if there is one.
pub open spec fn smallest_evictable(contents: Map<Id, usize>, exclude: Set<Id>) -> Option<Id> {
    if exists|id: Id| evictable(id, contents, exclude) {
        Some(
            choose|id: Id|
                evictable(id, contents, exclude) && forall|other: Id|
                    evictable(other, contents, exclude) ==> id <= other,
        )
    } else {
        None
    }
}

/// The victim of the recency policy: the least recently touched tensor that
/// may be evicted. A resident that was never touched is considered only when
/// no touched tensor may be evicted; the smallest such id is then the victim.
pub open spec fn lru_victim(order: Seq<Id>, contents: Map<Id, usize>, exclude: Set<Id>) -> Option<
    Id,
> {
    match oldest_evictable(order, contents, exclude) {
        Some(v) => Some(v),
        None => smallest_evictable(contents, exclude),
    }
}

/// Where the first evictable id of an order stands decides the oldest one.
pub proof fn lemma_oldest_evictable(
    order: Seq<Id>,
    contents: Map<Id, usize>,
    exclude: Set<Id>,
    n: int,
)
    requires
        0 <= n <= order.len(),
        forall|j: int| 0 <= j < n ==> !evictable(order[j], contents, exclude),
        n < order.len() ==> evictable(order[n], contents, exclude),
    ensures
        oldest_evictable(order, contents, exclude) == if n < order.len() {
            Some(order[n])
        } else {
            None
        },
    decreases order.len(),
{
    if order.len() > 0 && n > 0 {
        let rest = order.drop_first();
        assert forall|j: int| 0 <= j < n - 1 implies !evictable(rest[j], contents, exclude) by {
            assert(rest[j] == order[j + 1]);
        }
        lemma_oldest_evictable(rest, contents, exclude, n - 1);
    }
}

/// Where the first unprotected id of the ascending residents stands decides
/// the smallest evictable one.
pub proof fn lemma_smallest_evictable(
    ids: Seq<Id>,
    contents: Map<Id, usize>,
    exclude: Set<Id>,
    n: int,
)
    requires
        ascending(ids),
        ids.to_set() == contents.dom(),
        0 <= n <= ids.len(),
        forall|j: int| 0 <= j < n ==> exclude.contains(ids[j]),
        n < ids.len() ==> !exclude.contains(ids[n]),
    ensures
        smallest_evictable(contents, exclude) == if n < ids.len() {
            Some(ids[n])
        } else {
            None
        },
        n < ids.len() ==> evictable(ids[n], contents, exclude),
        n == ids.len() ==> forall|id: Id| !evictable(id, contents, exclude),
{
    assert forall|id: Id| evictable(id, contents, exclude) implies n < ids.len() && ids[n]
        <= id by {
        assert(ids.to_set().contains(id));
        let j = choose|j: int| 0 <= j < ids.len() && ids[j] == id;
        assert(j >= n);
    }
    if n < ids.len() {
        assert(ids.to_set().contains(ids[n]));
        assert(evictable(ids[n], contents, exclude));
        let v = smallest_evictable(contents, exclude)->0;
        assert(evictable(v, contents, exclude) && forall|other: Id|
            evictable(other, contents, exclude) ==> v <= other);
        assert(v <= ids[n] && ids[n] <= v);
    }
}

/// The first id of `order` that is resident in `sram` and not protected.
fn first_evictable<TM: Memory>(order: &Vec<Id>, sram: &TM, exclude: &HashSet<Id>) -> (found: Option<
    Id,
>)
    ensures
        found == oldest_evictable(order@, sram.contents(), exclude@),
        found matches Some(v) ==> evictable(v, sram.contents(), exclude@),
{
    let mut i: usize = 0;
    while i < order.len()
        invariant
            i <= order.len(),
            forall|j: int| 0 <= j < i ==> !evictable(order@[j], sram.contents(), exclude@),
        decreases order.len() - i,
    {
        let id = order[i];
        if sram.contains(&id) && !exclude.contains(&id) {
            proof {
                lemma_oldest_evictable(order@, sram.contents(), exclude@, i as int);
            }
            return Some(id);
        }
        i = i + 1;
    }
    proof {
        lemma_oldest_evictable(order@, sram.contents(), exclude@, i as int);
    }
    None
}

/// The first of the ascending resident ids that is not protected.
fn first_unprotected(ids: &Vec<Id>, exclude: &HashSet<Id>, Ghost(contents): Ghost<Map<Id, usize>>) -> (found:
    Option<Id>)
    requires
        ascending(ids@),
        ids@.to_set() == contents.dom(),
    ensures
        found == smallest_evictable(contents, exclude@),
        match found {
            Some(v) => evictable(v, contents, exclude@),
            None => forall|id: Id| !evictable(id, contents, exclude@),
        },
{
    let mut k: usize = 0;
    while k < ids.len()
        invariant
            k <= ids.len(),
            ascending(ids@),
            ids@.to_set() == contents.dom(),
            forall|j: int| 0 <= j < k ==> exclude@.contains(#[trigger] ids@[j]),
        decreases ids.len() - k,
    {
        let id = ids[k];
        if !exclude.contains(&id) {
            proof {
                lemma_smallest_evictable(ids@, contents, exclude@, k as int);
            }
            return Some(id);
        }
        k = k + 1;
    }
    proof {
        lemma_smallest_evictable(ids@, contents, exclude@, k as int);
    }
    None
}

/// Evicts the tensor that was touched least recently.
pub struct LRU {
    member: Vec<Id>,
}

impl View for LRU {
    type V = Seq<Id>;

    /// The tracked ids, least recently touched first.
    closed spec fn view(&self) -> Seq<Id> {
        self.member@
    }
}

impl LRU {
    /// A heuristic that tracks nothing yet.
    pub fn new() -> (h: LRU)
        ensures
            h.wf(),
            h@ == Seq::<Id>::empty(),
    {
        LRU { member: Vec::new() }
    }

    /// The tracked ids, least recently touched first.
    pub fn order(&self) -> (ids: Vec<Id>)
        ensures
            ids@ == self@,
    {
        self.member.clone()
    }

    /// Where `data` stands in the recency order.
    fn position(&self, data: &Id) -> (at: Option<usize>)
        ensures
            match at {
                Some(i) => i < self@.len() && self@[i as int] == *data,
                None => !self@.contains(*data),
            },
    {
        let mut i: usize = 0;
        while i < self.member.len()
            invariant
                i <= self.member.len(),
                forall|j: int| 0 <= j < i ==> self.member@[j] != *data,
            decreases self.member.len() - i,
        {
            if self.member[i] == *data {
                return Some(i);
            }
            i = i + 1;
        }
        None
    }
}

impl Heuristic for LRU {
    /// No id is tracked twice.
    open spec fn wf(&self) -> bool {
        self@.no_duplicates()
    }

    /// Being asked leaves the recency order as it is.
    open spec fn asked(&self, after: Self) -> bool {
        after@ == self@
    }

    /// The recency order decides the victim.
    open spec fn picks(
        &self,
        contents: Map<Id, usize>,
        exclude: Set<Id>,
        victim: Option<Id>,
    ) -> bool {
        victim == lru_victim(self@, contents, exclude)
    }

    /// An access moves the tensor to the most recent end of the order.
    open spec fn touched(&self, after: Self, data: Id, size: usize) -> bool {
        after@ == forget(self@, data).push(data)
    }

    /// An eviction takes the tensor out of the order.
    open spec fn evicted(&self, after: Self, data: Id) -> bool {
        after@ == forget(self@, data)
    }

    fn choose_victim<TM: Memory>(&mut self, sram: &TM, exclude: &HashSet<Id>) -> (victim: Option<Id>)
        ensures
            final(self)@ == old(self)@,
            victim == lru_victim(old(self)@, sram.contents(), exclude@),
    {
        match first_evictable(&self.member, sram, exclude) {
            Some(id) => Some(id),
            None => {
                let ids = sram.to_vec();
                first_unprotected(&ids, exclude, Ghost(sram.contents()))
            },
        }
    }

    fn touch(&mut self, data: &Id, _size: usize)
        ensures
            final(self)@ == forget(old(self)@, *data).push(*data),
            !forget(old(self)@, *data).contains(*data),
    {
        self.evict(data);
        self.member.push(*data);
        proof {
            let before = forget(old(self)@, *data);
            assert(!before.contains(*data));
            assert forall|i: int, j: int|
                0 <= i < self.member@.len() && 0 <= j < self.member@.len() && i != j implies self.member@[i]
                != self.member@[j] by {
                if i < before.len() {
                    assert(before.contains(before[i]));
                }
                if j < before.len() {
                    assert(before.contains(before[j]));
                }
            }
        }
    }

    fn evict(&mut self, data: &Id)
        ensures
            final(self)@ == forget(old(self)@, *data),
            !final(self)@.contains(*data),
    {
        match self.position(data) {
            Some(i) => {
                let ghost before = self.member@;
                proof {
                    assert(before.contains(*data));
                    assert(before.index_of(*data) == i);
                }
                self.member.remove(i);
                proof {
                    let after = self.member@;
                    assert forall|a: int, b: int|
                        0 <= a < after.len() && 0 <= b < after.len() && a != b implies after[a]
                        != after[b] by {
                        let a0 = if a < i { a } else { a + 1 };
                        let b0 = if b < i { b } else { b + 1 };
                        assert(after[a] == before[a0]);
                        assert(after[b] == before[b0]);
                    }
                    assert forall|a: int| 0 <= a < after.len() implies after[a] != *data by {
                        let a0 = if a < i { a } else { a + 1 };
                        assert(after[a] == before[a0]);
                    }
                }
            },
            None => {},
        }
    }
}

} // verus!
