//! What the steps of the simulator come to, whichever victims the heuristic
//! picks: making room, performing one instruction, running a program.
use crate::insn::{
    compile_text, execute, first_absent, flat, is_host, law_line_and_effect_are_flat,
    lemma_first_absent_flat, Insn,
};
use crate::memory::{
    dram_after_evict, lemma_total_size_insert, lemma_total_size_restrict, total_size, SramModel,
    SRAM,
};
use crate::sim::{evictable, Id, SimError};
use vstd::prelude::*;

verus! {

/// Every SRAM of the machine keeps its accounting, and no region has two SRAMs.
pub open spec fn all_inv(srams: Seq<(String, SRAM)>) -> bool {
    &&& forall|i: int| 0 <= i < srams.len() ==> (#[trigger] srams[i]).1.inv()
    &&& forall|i: int, j: int|
        0 <= i < j < srams.len() ==> (#[trigger] srams[i]).0@ != (#[trigger] srams[j]).0@
}

/// The machine has the same regions with the same capacities.
pub open spec fn same_layout(before: Seq<(String, SRAM)>, after: Seq<(String, SRAM)>) -> bool {
    &&& after.len() == before.len()
    &&& forall|i: int|
        0 <= i < before.len() ==> (#[trigger] after[i]).0@ == before[i].0@ && after[i].1.mem_limit
            == before[i].1.mem_limit
}

/// No SRAM's trip counter went back.
pub open spec fn trips_grow(before: Seq<(String, SRAM)>, after: Seq<(String, SRAM)>) -> bool {
    forall|i: int|
        0 <= i < before.len() && i < after.len() ==> before[i].1.trip_count <= (
        #[trigger] after[i]).1.trip_count
}

/// The first SRAM that is registered under `region` stands at `at`.
pub open spec fn region_at(srams: Seq<(String, SRAM)>, region: Seq<char>, at: int) -> bool {
    &&& 0 <= at < srams.len()
    &&& srams[at].0@ == region
    &&& forall|j: int| 0 <= j < at ==> (#[trigger] srams[j]).0@ != region
}

/// No SRAM is registered under `region`.
pub open spec fn region_unknown(srams: Seq<(String, SRAM)>, region: Seq<char>) -> bool {
    forall|j: int| 0 <= j < srams.len() ==> (#[trigger] srams[j]).0@ != region
}

/// Why `victim` cannot be evicted from an SRAM, if it cannot.
pub open spec fn eviction_error(m: SramModel, dram: Map<Id, usize>, victim: Id) -> Option<SimError> {
    if !m.residence.contains_key(victim) {
        Some(SimError::NotInSram(victim))
    } else if !dram.contains_key(victim) && m.trips >= usize::MAX {
        Some(SimError::CounterOverflow(victim))
    } else {
        None
    }
}

/// Every tensor of `part` is in `whole` with the same size.
pub open spec fn part_of(part: Map<Id, usize>, whole: Map<Id, usize>) -> bool {
    forall|id: Id| #[trigger] part.contains_key(id) ==> whole.contains_key(id) && part[id] == whole[id]
}

/// What making room may do to an SRAM and to DRAM, whichever victims the
/// heuristic picks: only unprotected residents leave, each of them is in DRAM
/// afterwards, and every write-back is one trip, one new tensor in DRAM and
/// one tensor noted as evicted.
pub open spec fn made_room(
    before: SramModel,
    after: SramModel,
    dram_before: Map<Id, usize>,
    dram_after: Map<Id, usize>,
    exclude: Set<Id>,
) -> bool {
    &&& after.capacity == before.capacity
    &&& after.peak == before.peak
    &&& part_of(after.residence, before.residence)
    &&& after.evicted == before.evicted.union(dram_after.dom().difference(dram_before.dom()))
    &&& part_of(dram_before, dram_after)
    &&& forall|id: Id|
        before.residence.contains_key(id) && exclude.contains(id)
            ==> #[trigger] after.residence.contains_key(id)
    &&& forall|id: Id|
        before.residence.contains_key(id) && !after.residence.contains_key(id)
            ==> #[trigger] dram_after.contains_key(id)
    &&& forall|id: Id|
        #[trigger] dram_after.contains_key(id) && !dram_before.contains_key(id) ==> {
            &&& before.residence.contains_key(id)
            &&& !after.residence.contains_key(id)
            &&& dram_after[id] == before.residence[id]
        }
    &&& after.trips - before.trips == dram_after.dom().len() - dram_before.dom().len()
    &&& before.trips <= after.trips
}

/// One more eviction after making room is still making room.
#[verifier::rlimit(60)]
pub proof fn lemma_made_room_step(
    s0: SramModel,
    s1: SramModel,
    d0: Map<Id, usize>,
    d1: Map<Id, usize>,
    exclude: Set<Id>,
    victim: Id,
)
    requires
        d0.dom().finite(),
        d1.dom().finite(),
        made_room(s0, s1, d0, d1, exclude),
        evictable(victim, s1.residence, exclude),
        eviction_error(s1, d1, victim) is None,
    ensures
        made_room(
            s0,
            s1.evict(victim, d1),
            d0,
            dram_after_evict(d1, victim, s1.residence[victim]),
            exclude,
        ),
{
    let s2 = s1.evict(victim, d1);
    let d2 = dram_after_evict(d1, victim, s1.residence[victim]);
    if !d1.contains_key(victim) {
        assert(d2.dom() =~= d1.dom().insert(victim));
    }
    assert(s2.evicted =~= s0.evicted.union(d2.dom().difference(d0.dom())));
}

/// The tensor that an instruction yields or moves.
pub open spec fn subject(op: Insn) -> Id {
    match op {
        Insn::Compute(_, _, dst, _, _) => dst,
        Insn::Load(_, meta, _) => meta.0,
        Insn::Store(_, _, meta, _) => meta.0,
        Insn::NoOp => 0,
    }
}

/// The instruction is a store that names the host as its region.
pub open spec fn stores_on_host(op: Insn) -> bool {
    op matches Insn::Store(region, _, _, _) && is_host(region)
}

/// The region that the instruction names is the host or has an SRAM.
pub open spec fn names_a_region(op: Insn, srams: Seq<(String, SRAM)>) -> bool {
    region_of(op) matches Some(region) ==> is_host(region) || !region_unknown(srams, region)
}

/// The region that an instruction names.
pub open spec fn region_of(op: Insn) -> Option<Seq<char>> {
    match op {
        Insn::Compute(region, _, _, _, _) => Some(region),
        Insn::Load(region, _, _) => Some(region),
        Insn::Store(region, _, _, _) => Some(region),
        Insn::NoOp => None,
    }
}

/// The ids of the arguments.
pub open spec fn arg_set(args: Seq<(Id, Insn)>) -> Set<Id> {
    Set::new(|id: Id| exists|j: int| 0 <= j < args.len() && (#[trigger] args[j]).0 == id)
}

/// The operands of a compute with the sizes that they have once all of them
/// are resident: an operand that is resident has its size in the SRAM, one
/// that has to be brought back has its size in DRAM.
pub open spec fn operand_sizes(
    args: Seq<(Id, Insn)>,
    residence: Map<Id, usize>,
    dram: Map<Id, usize>,
) -> Map<Id, usize> {
    Map::new(
        |id: Id| arg_set(args).contains(id) && (residence.contains_key(id) || dram.contains_key(id)),
        |id: Id|
            if residence.contains_key(id) {
                residence[id]
            } else {
                dram[id]
            },
    )
}

/// A part of a residence map is finite and occupies no more than the whole.
pub proof fn lemma_total_size_part_of(part: Map<Id, usize>, whole: Map<Id, usize>)
    requires
        whole.dom().finite(),
        part_of(part, whole),
    ensures
        part.dom().finite(),
        total_size(part) <= total_size(whole),
{
    assert(part =~= whole.restrict(part.dom()));
    assert(whole.restrict(part.dom()).dom() =~= whole.dom().intersect(part.dom()));
    lemma_total_size_restrict(whole, part.dom());
}

/// The operands that were brought back: those that are resident now and were
/// not at the start.
pub open spec fn reloaded(before: SramModel, now: SramModel, lock: Set<Id>) -> Set<Id> {
    Set::new(
        |id: Id|
            lock.contains(id) && now.residence.contains_key(id) && !before.residence.contains_key(
                id,
            ),
    )
}

/// The operands of a compute that are not resident.
pub open spec fn missing_operands(args: Seq<(Id, Insn)>, residence: Map<Id, usize>) -> Set<Id> {
    Set::new(|id: Id| arg_set(args).contains(id) && !residence.contains_key(id))
}

/// While the operands of a compute are brought in: what holds between the
/// SRAM and DRAM at the start (`before`, `dram0`) and now. What is not an
/// operand is still as it was or gone, every operand that is resident has the
/// size that `operands` gives it, no operand has left, DRAM has only gained
/// former residents that are no operands, each of them is noted as evicted,
/// and the trips are the operands brought back and the tensors new in DRAM.
pub open spec fn operands_in_progress(
    before: SramModel,
    now: SramModel,
    dram0: Map<Id, usize>,
    dram: Map<Id, usize>,
    lock: Set<Id>,
    operands: Map<Id, usize>,
) -> bool {
    &&& now.capacity == before.capacity
    &&& now.trips - before.trips == reloaded(before, now, lock).len() + dram.dom().len()
        - dram0.dom().len()
    &&& now.evicted == before.evicted.union(dram.dom().difference(dram0.dom()))
    &&& part_of(dram0, dram)
    &&& dram0.dom().len() <= dram.dom().len()
    &&& forall|id: Id|
        #[trigger] dram.contains_key(id) && !dram0.contains_key(id) ==> !lock.contains(id)
            && before.residence.contains_key(id) && dram[id] == before.residence[id]
    &&& forall|id: Id|
        #[trigger] now.residence.contains_key(id) && !lock.contains(id)
            ==> before.residence.contains_key(id) && now.residence[id] == before.residence[id]
    &&& forall|id: Id|
        #[trigger] now.residence.contains_key(id) && lock.contains(id) ==> operands.contains_key(id)
            && now.residence[id] == operands[id]
    &&& forall|id: Id|
        before.residence.contains_key(id) && lock.contains(id)
            ==> #[trigger] now.residence.contains_key(id)
}

/// Making room under the lock of the operands keeps the operands in progress.
#[verifier::rlimit(60)]
pub proof fn lemma_progress_room(
    before: SramModel,
    now: SramModel,
    room: SramModel,
    dram0: Map<Id, usize>,
    dram: Map<Id, usize>,
    dram_room: Map<Id, usize>,
    lock: Set<Id>,
    operands: Map<Id, usize>,
)
    requires
        operands_in_progress(before, now, dram0, dram, lock, operands),
        made_room(now, room, dram, dram_room, lock),
    ensures
        operands_in_progress(before, room, dram0, dram_room, lock, operands),
{
    assert forall|id: Id| #[trigger]
        dram_room.contains_key(id) && !dram0.contains_key(id) implies !lock.contains(id)
        && before.residence.contains_key(id) && dram_room[id] == before.residence[id] by {
        if !dram.contains_key(id) {
            assert(now.residence.contains_key(id) && !room.residence.contains_key(id));
        } else {
            assert(dram_room[id] == dram[id]);
        }
    }
    assert(reloaded(before, room, lock) =~= reloaded(before, now, lock)) by {
        assert forall|id: Id|
            reloaded(before, room, lock).contains(id) == reloaded(before, now, lock).contains(
                id,
            ) by {
            if lock.contains(id) && room.residence.contains_key(id) {
                assert(now.residence.contains_key(id));
            }
            if lock.contains(id) && now.residence.contains_key(id) {
                assert(room.residence.contains_key(id));
            }
        }
    }
    assert(room.evicted =~= before.evicted.union(dram_room.dom().difference(dram0.dom()))) by {
        assert forall|id: Id| dram.contains_key(id) implies dram_room.contains_key(id) by {}
        assert forall|id: Id| dram0.contains_key(id) implies dram.contains_key(id) by {}
    }
    assert forall|id: Id|
        before.residence.contains_key(id) && lock.contains(id) implies #[trigger] room.residence.contains_key(
        id,
    ) by {
        assert(now.residence.contains_key(id));
    }
}

/// Bringing an operand back from DRAM keeps the operands in progress.
#[verifier::rlimit(60)]
pub proof fn lemma_progress_put(
    args: Seq<(Id, Insn)>,
    before: SramModel,
    room: SramModel,
    dram0: Map<Id, usize>,
    dram: Map<Id, usize>,
    arg: Id,
)
    requires
        operands_in_progress(
            before,
            room,
            dram0,
            dram,
            arg_set(args),
            operand_sizes(args, before.residence, dram0),
        ),
        arg_set(args).contains(arg),
        !room.residence.contains_key(arg),
        dram.contains_key(arg),
        room.residence.dom().finite(),
    ensures
        dram0.contains_key(arg),
        !before.residence.contains_key(arg),
        operand_sizes(args, before.residence, dram0).contains_key(arg),
        operand_sizes(args, before.residence, dram0)[arg] == dram[arg],
        operands_in_progress(
            before,
            room.put(arg, dram[arg], false),
            dram0,
            dram,
            arg_set(args),
            operand_sizes(args, before.residence, dram0),
        ),
{
    let operands = operand_sizes(args, before.residence, dram0);
    let after = room.put(arg, dram[arg], false);
    let lock = arg_set(args);
    assert(dram0.contains_key(arg));
    if before.residence.contains_key(arg) {
        assert(room.residence.contains_key(arg));
    }
    vstd::set_lib::lemma_len_subset(reloaded(before, room, lock), room.residence.dom());
    assert(reloaded(before, after, lock) =~= reloaded(before, room, lock).insert(arg));
    assert forall|id: Id| #[trigger]
        after.residence.contains_key(id) && !arg_set(args).contains(id) implies before.residence.contains_key(
        id,
    ) && after.residence[id] == before.residence[id] by {
        assert(room.residence.contains_key(id));
    }
    assert forall|id: Id| #[trigger]
        after.residence.contains_key(id) && arg_set(args).contains(id) implies operands.contains_key(
        id,
    ) && after.residence[id] == operands[id] by {
        if id != arg {
            assert(room.residence.contains_key(id));
        }
    }
    assert forall|id: Id|
        before.residence.contains_key(id) && arg_set(args).contains(id) implies #[trigger] after.residence.contains_key(
        id,
    ) by {
        assert(room.residence.contains_key(id));
    }
}

/// The operands that are resident occupy no more than all operands do, and
/// an operand that is still to be brought back fits into the difference.
#[verifier::rlimit(60)]
pub proof fn lemma_progress_bytes(
    args: Seq<(Id, Insn)>,
    before: SramModel,
    now: SramModel,
    dram0: Map<Id, usize>,
    dram: Map<Id, usize>,
    arg: Id,
)
    requires
        before.residence.dom().finite(),
        now.residence.dom().finite(),
        dram0.dom().finite(),
        operands_in_progress(
            before,
            now,
            dram0,
            dram,
            arg_set(args),
            operand_sizes(args, before.residence, dram0),
        ),
    ensures
        operand_sizes(args, before.residence, dram0).dom().finite(),
        now.pinned_size(arg_set(args)) <= total_size(operand_sizes(args, before.residence, dram0)),
        arg_set(args).contains(arg) && !now.residence.contains_key(arg) && dram.contains_key(arg)
            ==> now.pinned_size(arg_set(args)) + dram[arg] <= total_size(
            operand_sizes(args, before.residence, dram0),
        ),
{
    let lock = arg_set(args);
    let operands = operand_sizes(args, before.residence, dram0);
    let pinned = now.residence.restrict(lock);
    vstd::set_lib::lemma_len_subset(operands.dom(), before.residence.dom().union(dram0.dom()));
    assert(pinned.dom() =~= now.residence.dom().intersect(lock));
    lemma_total_size_part_of(pinned, operands);
    if lock.contains(arg) && !now.residence.contains_key(arg) && dram.contains_key(arg) {
        lemma_progress_put(args, before, now, dram0, dram, arg);
        let more = pinned.insert(arg, dram[arg]);
        lemma_total_size_insert(pinned, arg, dram[arg]);
        lemma_total_size_part_of(more, operands);
    }
}

/// What performing one instruction comes to, whichever victims the heuristic
/// picked on the way.
pub open spec fn performed(
    op: Insn,
    before: Seq<(String, SRAM)>,
    after: Seq<(String, SRAM)>,
    dram_before: Map<Id, usize>,
    dram_after: Map<Id, usize>,
    exclude: Set<Id>,
    res: Result<(), SimError>,
) -> bool {
    match region_of(op) {
        None => res is Ok && after == before && dram_after == dram_before,
        Some(region) => if is_host(region) {
            // On the host no SRAM is touched.
            &&& after == before
            &&& match op {
                Insn::Store(_, _, meta, _) => res == Err::<(), SimError>(
                    SimError::StoreOnHost(meta.0),
                ) && dram_after == dram_before,
                _ => res == execute(op, None, dram_before).result && dram_after == execute(
                    op,
                    None,
                    dram_before,
                ).dram,
            }
        } else if region_unknown(before, region) {
            res == Err::<(), SimError>(SimError::UnknownRegion(subject(op))) && after == before
                && dram_after == dram_before
        } else {
            exists|at: int|
                {
                    &&& #[trigger] region_at(before, region, at)
                    &&& forall|j: int|
                        0 <= j < before.len() && j != at ==> #[trigger] after[j] == before[j]
                    &&& performed_on(
                        op,
                        before[at].1@,
                        after[at].1@,
                        dram_before,
                        dram_after,
                        exclude,
                        res,
                    )
                }
        },
    }
}

/// What performing an accelerator instruction comes to in the SRAM of its
/// region, whichever victims the heuristic picked on the way. `exclude`
/// protects residents while a load makes room; a compute protects its own
/// operands.
pub open spec fn performed_on(
    op: Insn,
    before: SramModel,
    after: SramModel,
    dram_before: Map<Id, usize>,
    dram_after: Map<Id, usize>,
    exclude: Set<Id>,
    res: Result<(), SimError>,
) -> bool {
    match op {
        Insn::Store(_, _, _, _) => {
            // A store needs no room: it is executed as it stands.
            &&& res == execute(op, Some(before), dram_before).result
            &&& Some(after) == execute(op, Some(before), dram_before).sram
            &&& dram_after == execute(op, Some(before), dram_before).dram
        },
        Insn::Load(_, meta, size) => {
            if before.residence.contains_key(meta.0) {
                // A load of a resident tensor only touches it.
                res is Ok && after == before && dram_after == dram_before
            } else {
                &&& match res {
                    Ok(_) => {
                        &&& dram_before.contains_key(meta.0)
                        &&& before.pinned_size(exclude) + size <= before.capacity
                        &&& exists|room: SramModel|
                            {
                                &&& made_room(before, room, dram_before, dram_after, exclude)
                                &&& room.admits(meta.0, size)
                                &&& after == #[trigger] room.put(meta.0, size, false)
                            }
                    },
                    Err(e) => {
                        &&& made_room(before, after, dram_before, dram_after, exclude)
                        &&& e == SimError::Thrashing || e is CounterOverflow || e
                            == SimError::NotInDram(meta.0)
                        &&& e == SimError::Thrashing ==> before.pinned_size(exclude) + size
                            > before.capacity
                        &&& e == SimError::NotInDram(meta.0) ==> !dram_before.contains_key(meta.0)
                        &&& e is CounterOverflow ==> after.trips >= usize::MAX
                    },
                }
                // With room to spare the load is executed as it stands.
                &&& before.used() + size <= before.capacity ==> {
                    &&& res == execute(op, Some(before), dram_before).result
                    &&& Some(after) == execute(op, Some(before), dram_before).sram
                    &&& dram_after == execute(op, Some(before), dram_before).dram
                }
            }
        },
        Insn::Compute(_, _, dst, args, size) => {
            let operands = operand_sizes(args, before.residence, dram_before);
            let lock = arg_set(args);
            &&& match res {
                Ok(_) => {
                    // The operands were brought in, room was made, and the
                    // result was put in place.
                    &&& exists|room: SramModel|
                        {
                            &&& operands_in_progress(
                                before,
                                room,
                                dram_before,
                                dram_after,
                                lock,
                                operands,
                            )
                            &&& room.admits(dst, size)
                            &&& after == #[trigger] room.put(dst, size, true)
                        }
                    // The result and every operand are resident; what else is
                    // resident was resident before.
                    &&& after.residence.contains_key(dst)
                    &&& after.residence[dst] == size
                    &&& forall|j: int|
                        0 <= j < args.len() ==> after.residence.contains_key(
                            (#[trigger] args[j]).0,
                        )
                    &&& part_of(operands, after.residence)
                    &&& forall|id: Id|
                        #[trigger] after.residence.contains_key(id) && id != dst && !lock.contains(
                            id,
                        ) ==> before.residence.contains_key(id) && after.residence[id]
                            == before.residence[id]
                    &&& total_size(operands) + size <= before.capacity
                    // The trips are the operands brought back and the
                    // tensors written back, which are those new in DRAM.
                    &&& after.trips - before.trips == missing_operands(args, before.residence).len()
                        + dram_after.dom().len() - dram_before.dom().len()
                },
                Err(e) => {
                    &&& operands_in_progress(
                        before,
                        after,
                        dram_before,
                        dram_after,
                        lock,
                        operands,
                    )
                    &&& match e {
                        // Room runs out only when the operands and the
                        // result do not fit into the SRAM together.
                        SimError::Thrashing => total_size(operands) + size > before.capacity,
                        SimError::NotInDram(a) => lock.contains(a) && !before.residence.contains_key(
                            a,
                        ) && !dram_before.contains_key(a),
                        SimError::AlreadyResident(d) => d == dst && (
                        before.residence.contains_key(dst) || lock.contains(dst)),
                        SimError::CounterOverflow(_) => after.trips >= usize::MAX,
                        _ => false,
                    }
                },
            }
            // With every operand resident and room for the result the
            // compute is executed as it stands.
            &&& first_absent(args, before.residence) is None && !before.residence.contains_key(dst)
                && before.used() + size <= before.capacity ==> {
                &&& res is Ok
                &&& after == before.put(dst, size, true)
                &&& dram_after == dram_before
            }
        },
        Insn::NoOp => res is Ok && after == before && dram_after == dram_before,
    }
}

/// The memories of the machine: the SRAM of each region, and DRAM.
pub struct Machine {
    pub srams: Seq<(String, SRAM)>,
    pub dram: Map<Id, usize>,
}

/// The result of the step after which `states[at + 1]` was reached: only the
/// last step of a run that failed has failed.
pub open spec fn step_result(states: Seq<Machine>, at: int, res: Result<(), SimError>) -> Result<
    (),
    SimError,
> {
    if at + 2 == states.len() && res is Err {
        res
    } else {
        Ok(())
    }
}

/// A run of `prog` went through `states`, one after each instruction that it
/// performed, whichever victims the heuristic picked on the way. Each
/// instruction was performed with nothing protected, on the memories that the
/// one before it left; a run that succeeded performed all of them, one that
/// failed stopped at the instruction that failed.
pub open spec fn stepped(prog: Seq<Insn>, states: Seq<Machine>, res: Result<(), SimError>) -> bool {
    &&& 1 <= states.len() <= prog.len() + 1
    &&& res is Ok ==> states.len() == prog.len() + 1
    &&& res is Err ==> states.len() >= 2
    &&& forall|at: int|
        0 <= at < states.len() - 1 ==> performed(
            prog[at],
            (#[trigger] states[at]).srams,
            states[at + 1].srams,
            states[at].dram,
            states[at + 1].dram,
            Set::empty(),
            step_result(states, at, res),
        )
}

/// A run that succeeded, followed by a run on what it left, is a run of both
/// programs in a row.
#[verifier::rlimit(60)]
pub proof fn lemma_stepped_then(
    first: Seq<Insn>,
    states: Seq<Machine>,
    then: Seq<Insn>,
    more: Seq<Machine>,
    res: Result<(), SimError>,
)
    requires
        stepped(first, states, Ok(())),
        stepped(then, more, res),
        states.last() == more[0],
    ensures
        stepped(first + then, states + more.drop_first(), res),
        (states + more.drop_first())[0] == states[0],
        (states + more.drop_first()).last() == more.last(),
{
    let prog = first + then;
    let all = states + more.drop_first();
    assert forall|at: int| 0 <= at < all.len() - 1 implies performed(
        prog[at],
        (#[trigger] all[at]).srams,
        all[at + 1].srams,
        all[at].dram,
        all[at + 1].dram,
        Set::empty(),
        step_result(all, at, res),
    ) by {
        if at < first.len() {
            assert(all[at] == states[at]);
            assert(prog[at] == first[at]);
            if at + 1 < states.len() {
                assert(all[at + 1] == states[at + 1]);
            } else {
                assert(all[at + 1] == more[1]);
            }
            assert(step_result(states, at, Ok(())) == Ok::<(), SimError>(()));
            assert(performed(
                first[at],
                states[at].srams,
                states[at + 1].srams,
                states[at].dram,
                states[at + 1].dram,
                Set::empty(),
                Ok(()),
            ));
        } else {
            let k = at - first.len();
            assert(prog[at] == then[k]);
            assert(all[at] == more[k]) by {
                if k == 0 {
                    assert(all[at] == states.last());
                } else {
                    assert(all[at] == more.drop_first()[k - 1]);
                }
            }
            assert(all[at + 1] == more[k + 1]);
            assert(step_result(all, at, res) == step_result(more, k, res));
            assert(performed(
                then[k],
                more[k].srams,
                more[k + 1].srams,
                more[k].dram,
                more[k + 1].dram,
                Set::empty(),
                step_result(more, k, res),
            ));
        }
    }
}

/// What a run of the program `prog`, whose lines in the trace are `text`,
/// comes to, whichever victims the heuristic picked on the way. The machine
/// keeps its regions and capacities, no trip counter goes back, DRAM loses
/// nothing. The trace grows by the lines of the program, or after an error by
/// the lines of what was performed before it. And the memories went through
/// the states of a run of the program, from `before` to `after`.
pub open spec fn ran(
    prog: Seq<Insn>,
    text: Seq<Seq<char>>,
    log_before: Seq<Seq<char>>,
    log_after: Seq<Seq<char>>,
    before: Machine,
    after: Machine,
    res: Result<(), SimError>,
) -> bool {
    &&& kept(before, after)
    &&& logged(text, log_before, log_after, res)
    &&& went(prog, before, after, res)
}

/// The machine keeps its regions and capacities, no trip counter goes back,
/// and DRAM loses nothing.
pub open spec fn kept(before: Machine, after: Machine) -> bool {
    &&& same_layout(before.srams, after.srams)
    &&& trips_grow(before.srams, after.srams)
    &&& before.dram.dom().subset_of(after.dram.dom())
}

/// The trace grew by the lines `text`, or after an error by the lines of what
/// was performed before it.
pub open spec fn logged(
    text: Seq<Seq<char>>,
    log_before: Seq<Seq<char>>,
    log_after: Seq<Seq<char>>,
    res: Result<(), SimError>,
) -> bool {
    &&& res is Ok ==> log_after == log_before + text
    &&& res is Err ==> exists|k: int|
        0 <= k < text.len() && log_after == log_before + (#[trigger] text.take(k))
}

/// The memories went through the states of a run of the program, from
/// `before` to `after`.
pub open spec fn went(prog: Seq<Insn>, before: Machine, after: Machine, res: Result<(), SimError>) -> bool {
    exists|states: Seq<Machine>|
        {
            &&& #[trigger] stepped(prog, states, res)
            &&& states[0] == before
            &&& states.last() == after
        }
}

/// What is kept over two runs in a row is kept over both.
pub proof fn lemma_kept_then(m0: Machine, m1: Machine, m2: Machine)
    requires
        kept(m0, m1),
        kept(m1, m2),
    ensures
        kept(m0, m2),
{
    assert forall|i: int| 0 <= i < m0.srams.len() implies (#[trigger] m2.srams[i]).0@
        == m0.srams[i].0@ && m2.srams[i].1.mem_limit == m0.srams[i].1.mem_limit
        && m0.srams[i].1.trip_count <= m2.srams[i].1.trip_count by {
        assert(m1.srams[i].0@ == m0.srams[i].0@);
        assert(m0.srams[i].1.trip_count <= m1.srams[i].1.trip_count);
    }
}

/// The trace of two runs in a row is the trace of both.
pub proof fn lemma_logged_then(
    first_text: Seq<Seq<char>>,
    then_text: Seq<Seq<char>>,
    log0: Seq<Seq<char>>,
    log1: Seq<Seq<char>>,
    log2: Seq<Seq<char>>,
    res: Result<(), SimError>,
)
    requires
        log1 == log0 + first_text,
        logged(then_text, log1, log2, res),
    ensures
        logged(first_text + then_text, log0, log2, res),
{
    if res is Ok {
        assert(log2 =~= log0 + (first_text + then_text));
    } else {
        let k = choose|k: int| 0 <= k < then_text.len() && log2 == log1 + (#[trigger] then_text.take(k));
        let at = first_text.len() + k;
        assert((first_text + then_text).take(at) =~= first_text + then_text.take(k));
        assert(log2 =~= log0 + (first_text + then_text).take(at));
    }
}

/// The states of two runs in a row are the states of a run of both programs.
pub proof fn lemma_went_then(
    first: Seq<Insn>,
    then: Seq<Insn>,
    m0: Machine,
    m1: Machine,
    m2: Machine,
    res: Result<(), SimError>,
)
    requires
        went(first, m0, m1, Ok(())),
        went(then, m1, m2, res),
    ensures
        went(first + then, m0, m2, res),
{
    let states = choose|states: Seq<Machine>|
        {
            &&& #[trigger] stepped(first, states, Ok(()))
            &&& states[0] == m0
            &&& states.last() == m1
        };
    let more = choose|more: Seq<Machine>|
        {
            &&& #[trigger] stepped(then, more, res)
            &&& more[0] == m1
            &&& more.last() == m2
        };
    lemma_stepped_then(first, states, then, more, res);
    let all = states + more.drop_first();
    assert(stepped(first + then, all, res) && all[0] == m0 && all.last() == m2);
}

/// The states of a run that succeeded are those of a run with the result `Ok`.
pub proof fn lemma_went_ok(
    prog: Seq<Insn>,
    m0: Machine,
    m1: Machine,
    res: Result<(), SimError>,
)
    requires
        res is Ok,
        went(prog, m0, m1, res),
    ensures
        went(prog, m0, m1, Ok(())),
{
    let states = choose|states: Seq<Machine>|
        {
            &&& #[trigger] stepped(prog, states, res)
            &&& states[0] == m0
            &&& states.last() == m1
        };
    assert(stepped(prog, states, Ok(()))) by {
        assert forall|at: int| 0 <= at < states.len() - 1 implies performed(
            prog[at],
            (#[trigger] states[at]).srams,
            states[at + 1].srams,
            states[at].dram,
            states[at + 1].dram,
            Set::empty(),
            step_result(states, at, Ok(())),
        ) by {
            assert(step_result(states, at, res) == step_result(states, at, Ok(())));
        }
    }
}

/// A run of nothing changes nothing.
pub proof fn lemma_ran_nothing(log: Seq<Seq<char>>, machine: Machine)
    ensures
        ran(Seq::empty(), Seq::empty(), log, log, machine, machine, Ok(())),
{
    assert(log + Seq::<Seq<char>>::empty() =~= log);
    let states = seq![machine];
    assert(stepped(Seq::<Insn>::empty(), states, Ok(())));
    assert(states[0] == machine && states.last() == machine);
}

/// Performing one instruction is a run of that instruction alone.
pub proof fn lemma_ran_one(
    op: Insn,
    log_before: Seq<Seq<char>>,
    log_after: Seq<Seq<char>>,
    before: Machine,
    after: Machine,
    res: Result<(), SimError>,
)
    requires
        performed(op, before.srams, after.srams, before.dram, after.dram, Set::empty(), res),
        same_layout(before.srams, after.srams),
        trips_grow(before.srams, after.srams),
        before.dram.dom().subset_of(after.dram.dom()),
        log_after == if res is Ok {
            log_before.push(compile_text(op))
        } else {
            log_before
        },
    ensures
        ran(seq![op], seq![compile_text(op)], log_before, log_after, before, after, res),
{
    let text = seq![compile_text(op)];
    lemma_one_step(op, before, after, res);
    let states = seq![before, after];
    assert(states[0] == before && states.last() == after);
    if res is Ok {
        assert(log_after =~= log_before + text);
    } else {
        assert(log_after =~= log_before + text.take(0));
    }
}

/// A run that succeeded is a run with the result `Ok`.
pub proof fn lemma_ran_ok(
    prog: Seq<Insn>,
    text: Seq<Seq<char>>,
    log0: Seq<Seq<char>>,
    log1: Seq<Seq<char>>,
    m0: Machine,
    m1: Machine,
    res: Result<(), SimError>,
)
    requires
        res is Ok,
        ran(prog, text, log0, log1, m0, m1, res),
    ensures
        ran(prog, text, log0, log1, m0, m1, Ok(())),
{
    lemma_went_ok(prog, m0, m1, res);
}

/// A run that succeeded, followed by a run on what it left, is a run of both
/// programs in a row.
pub proof fn lemma_ran_then(
    first: Seq<Insn>,
    first_text: Seq<Seq<char>>,
    then: Seq<Insn>,
    then_text: Seq<Seq<char>>,
    log0: Seq<Seq<char>>,
    log1: Seq<Seq<char>>,
    log2: Seq<Seq<char>>,
    m0: Machine,
    m1: Machine,
    m2: Machine,
    first_res: Result<(), SimError>,
    res: Result<(), SimError>,
)
    requires
        first_res is Ok,
        ran(first, first_text, log0, log1, m0, m1, first_res),
        ran(then, then_text, log1, log2, m1, m2, res),
    ensures
        ran(first + then, first_text + then_text, log0, log2, m0, m2, res),
{
    lemma_went_ok(first, m0, m1, first_res);
    lemma_went_then(first, then, m0, m1, m2, res);
    lemma_kept_then(m0, m1, m2);
    lemma_logged_then(first_text, then_text, log0, log1, log2, res);
}

/// A run that failed is a run of every program that goes on after the
/// instruction that failed.
pub proof fn lemma_ran_failed(
    prog: Seq<Insn>,
    text: Seq<Seq<char>>,
    rest: Seq<Insn>,
    rest_text: Seq<Seq<char>>,
    log0: Seq<Seq<char>>,
    log1: Seq<Seq<char>>,
    m0: Machine,
    m1: Machine,
    res: Result<(), SimError>,
)
    requires
        res is Err,
        ran(prog, text, log0, log1, m0, m1, res),
    ensures
        ran(prog + rest, text + rest_text, log0, log1, m0, m1, res),
{
    assert(went(prog + rest, m0, m1, res)) by {
        let states = choose|states: Seq<Machine>|
            {
                &&& #[trigger] stepped(prog, states, res)
                &&& states[0] == m0
                &&& states.last() == m1
            };
        lemma_stepped_failed(prog, states, rest, res);
    }
    assert(logged(text + rest_text, log0, log1, res)) by {
        let k = choose|k: int| 0 <= k < text.len() && log1 == log0 + (#[trigger] text.take(k));
        assert((text + rest_text).take(k) =~= text.take(k));
    }
}

/// Performing one instruction is a run of that instruction alone.
pub proof fn lemma_one_step(op: Insn, before: Machine, after: Machine, res: Result<(), SimError>)
    requires
        performed(op, before.srams, after.srams, before.dram, after.dram, Set::empty(), res),
    ensures
        stepped(seq![op], seq![before, after], res),
{
    let states = seq![before, after];
    assert forall|at: int| 0 <= at < states.len() - 1 implies performed(
        seq![op][at],
        (#[trigger] states[at]).srams,
        states[at + 1].srams,
        states[at].dram,
        states[at + 1].dram,
        Set::empty(),
        step_result(states, at, res),
    ) by {
        assert(at == 0);
        assert(states[0] == before && states[1] == after);
    }
}

/// A run that failed is a run of every program that goes on after the
/// instruction that failed.
pub proof fn lemma_stepped_failed(
    prog: Seq<Insn>,
    states: Seq<Machine>,
    rest: Seq<Insn>,
    res: Result<(), SimError>,
)
    requires
        res is Err,
        stepped(prog, states, res),
    ensures
        stepped(prog + rest, states, res),
{
    assert forall|at: int| 0 <= at < states.len() - 1 implies performed(
        (prog + rest)[at],
        (#[trigger] states[at]).srams,
        states[at + 1].srams,
        states[at].dram,
        states[at + 1].dram,
        Set::empty(),
        step_result(states, at, res),
    ) by {
        assert((prog + rest)[at] == prog[at]);
    }
}

/// The ids and sizes of the operands depend on the ids of the arguments alone.
pub proof fn lemma_operands_flat(
    args: Seq<(Id, Insn)>,
    residence: Map<Id, usize>,
    dram: Map<Id, usize>,
)
    ensures
        arg_set(Seq::new(args.len(), |i: int| (args[i].0, Insn::NoOp))) == arg_set(args),
        operand_sizes(Seq::new(args.len(), |i: int| (args[i].0, Insn::NoOp)), residence, dram)
            == operand_sizes(args, residence, dram),
{
    let bare = Seq::new(args.len(), |i: int| (args[i].0, Insn::NoOp));
    assert forall|id: Id| arg_set(bare).contains(id) == arg_set(args).contains(id) by {
        if arg_set(bare).contains(id) {
            let j = choose|j: int| 0 <= j < bare.len() && (#[trigger] bare[j]).0 == id;
            assert(args[j].0 == id);
        }
        if arg_set(args).contains(id) {
            let j = choose|j: int| 0 <= j < args.len() && (#[trigger] args[j]).0 == id;
            assert(bare[j].0 == id);
        }
    }
    assert(arg_set(bare) =~= arg_set(args));
    assert(operand_sizes(bare, residence, dram) =~= operand_sizes(args, residence, dram));
}

/// What performing an instruction in an SRAM comes to depends on the
/// instruction alone, not on the instructions that produce its operands.
#[verifier::rlimit(60)]
pub proof fn lemma_performed_on_flat(
    op: Insn,
    before: SramModel,
    after: SramModel,
    dram_before: Map<Id, usize>,
    dram_after: Map<Id, usize>,
    exclude: Set<Id>,
    res: Result<(), SimError>,
)
    ensures
        performed_on(flat(op), before, after, dram_before, dram_after, exclude, res)
            == performed_on(op, before, after, dram_before, dram_after, exclude, res),
{
    law_line_and_effect_are_flat(op, Some(before), dram_before);
    match op {
        Insn::Compute(_, _, dst, args, size) => {
            lemma_operands_flat(args, before.residence, dram_before);
            lemma_first_absent_flat(args, before.residence);
            let bare = Seq::new(args.len(), |i: int| (args[i].0, Insn::NoOp));
            assert(missing_operands(bare, before.residence) =~= missing_operands(
                args,
                before.residence,
            ));
            assert((forall|j: int|
                0 <= j < bare.len() ==> after.residence.contains_key((#[trigger] bare[j]).0)) == (
            forall|j: int|
                0 <= j < args.len() ==> after.residence.contains_key((#[trigger] args[j]).0))) by {
                if forall|j: int|
                    0 <= j < bare.len() ==> after.residence.contains_key((#[trigger] bare[j]).0) {
                    assert forall|j: int| 0 <= j < args.len() implies after.residence.contains_key(
                        (#[trigger] args[j]).0,
                    ) by {
                        assert(bare[j].0 == args[j].0);
                    }
                }
                if forall|j: int|
                    0 <= j < args.len() ==> after.residence.contains_key((#[trigger] args[j]).0) {
                    assert forall|j: int| 0 <= j < bare.len() implies after.residence.contains_key(
                        (#[trigger] bare[j]).0,
                    ) by {
                        assert(bare[j].0 == args[j].0);
                    }
                }
            }
        },
        _ => {},
    }
}

/// What performing an instruction comes to depends on the instruction alone,
/// not on the instructions that produce its operands.
#[verifier::rlimit(60)]
pub proof fn law_performing_is_flat(
    op: Insn,
    before: Seq<(String, SRAM)>,
    after: Seq<(String, SRAM)>,
    dram_before: Map<Id, usize>,
    dram_after: Map<Id, usize>,
    exclude: Set<Id>,
    res: Result<(), SimError>,
)
    ensures
        performed(flat(op), before, after, dram_before, dram_after, exclude, res) == performed(
            op,
            before,
            after,
            dram_before,
            dram_after,
            exclude,
            res,
        ),
{
    law_line_and_effect_are_flat(op, None, dram_before);
    match region_of(op) {
        None => {},
        Some(region) => {
            if !is_host(region) && !region_unknown(before, region) {
                assert forall|at: int|
                    performed_on(
                        flat(op),
                        before[at].1@,
                        after[at].1@,
                        dram_before,
                        dram_after,
                        exclude,
                        res,
                    ) == performed_on(
                        op,
                        before[at].1@,
                        after[at].1@,
                        dram_before,
                        dram_after,
                        exclude,
                        res,
                    ) by {
                    lemma_performed_on_flat(
                        op,
                        before[at].1@,
                        after[at].1@,
                        dram_before,
                        dram_after,
                        exclude,
                        res,
                    );
                }
                if performed(op, before, after, dram_before, dram_after, exclude, res) {
                    let at = choose|at: int|
                        {
                            &&& #[trigger] region_at(before, region, at)
                            &&& forall|j: int|
                                0 <= j < before.len() && j != at ==> #[trigger] after[j]
                                    == before[j]
                            &&& performed_on(
                                op,
                                before[at].1@,
                                after[at].1@,
                                dram_before,
                                dram_after,
                                exclude,
                                res,
                            )
                        };
                    assert(region_at(before, region, at));
                    assert(performed(flat(op), before, after, dram_before, dram_after, exclude, res));
                }
                if performed(flat(op), before, after, dram_before, dram_after, exclude, res) {
                    let at = choose|at: int|
                        {
                            &&& #[trigger] region_at(before, region, at)
                            &&& forall|j: int|
                                0 <= j < before.len() && j != at ==> #[trigger] after[j]
                                    == before[j]
                            &&& performed_on(
                                flat(op),
                                before[at].1@,
                                after[at].1@,
                                dram_before,
                                dram_after,
                                exclude,
                                res,
                            )
                        };
                    assert(region_at(before, region, at));
                    assert(performed(op, before, after, dram_before, dram_after, exclude, res));
                }
            }
        },
    }
}

/// Replaying a trace: the instructions of a program, performed again one by
/// one without their producers, can go through exactly the states that the
/// run of the program can go through, with the same result, and so can end
/// with the same residents, trip counts and peaks. Which of these states a
/// run does go through is for the heuristic to decide.
pub proof fn law_replay(prog: Seq<Insn>, states: Seq<Machine>, res: Result<(), SimError>)
    ensures
        stepped(prog.map_values(|insn: Insn| flat(insn)), states, res) == stepped(
            prog,
            states,
            res,
        ),
{
    let bare = prog.map_values(|insn: Insn| flat(insn));
    assert forall|at: int| 0 <= at < states.len() - 1 && at < prog.len() implies performed(
        bare[at],
        states[at].srams,
        states[at + 1].srams,
        states[at].dram,
        states[at + 1].dram,
        Set::empty(),
        step_result(states, at, res),
    ) == performed(
        prog[at],
        (#[trigger] states[at]).srams,
        states[at + 1].srams,
        states[at].dram,
        states[at + 1].dram,
        Set::empty(),
        step_result(states, at, res),
    ) by {
        law_performing_is_flat(
            prog[at],
            states[at].srams,
            states[at + 1].srams,
            states[at].dram,
            states[at + 1].dram,
            Set::empty(),
            step_result(states, at, res),
        );
    }
}

} // verus!
