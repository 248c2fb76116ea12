//! The simulator: the capabilities it is built from, the micro-instructions
//! it interprets, and the steps of rematerialization.
use crate::insn::{
    args_text, compile_text, execute, first_absent, insn_of, is_host, lemma_first_absent,
    lemma_first_absent_none,
    lemma_program_args_prefix, lemma_schedule_args_prefix, lines, program, program_args, put_outcome,
    schedule, schedule_args, sram_before, sram_given, store_outcome, Insn,
};
use crate::memory::{
    dram_after_evict, lemma_total_size_restrict, total_size, SramModel, DRAM, SRAM,
};
use crate::steps::{
    all_inv, arg_set, eviction_error, lemma_made_room_step, lemma_progress_bytes,
    lemma_progress_put, lemma_progress_room, lemma_ran_failed, lemma_ran_nothing, lemma_ran_ok,
    lemma_ran_one,
    lemma_ran_then, ran,
    lemma_total_size_part_of, made_room, missing_operands, operand_sizes, operands_in_progress,
    part_of, performed, reloaded,
    names_a_region, performed_on, region_at, region_of, region_unknown, same_layout,
    step_result, stepped, stores_on_host, subject, trips_grow, Machine,
};
use crate::text::{push_bool, push_decimal};
use std::collections::HashSet;
use vstd::prelude::*;
use vstd::string::StringExecFns;

verus! {

/// A tensor identifier. Every id that the simulator sees is canonical.
pub type Id = u32;

/// Strictly ascending: each id is smaller than all that follow it.
pub open spec fn ascending(ids: Seq<Id>) -> bool {
    forall|i: int, j: int| 0 <= i < j < ids.len() ==> ids[i] < ids[j]
}

/// A memory tier that tracks which tensors reside in it.
pub trait Memory {
    /// The resident tensors, each with its size in bytes.
    spec fn contents(&self) -> Map<Id, usize>;

    /// The tier's accounting is consistent.
    spec fn wf(&self) -> bool;

    /// The bytes that count against the capacity.
    spec fn allocated(&self) -> nat;

    /// The capacity in bytes.
    spec fn total(&self) -> nat;

    /// Whether `put` accepts the tensor.
    spec fn admits(&self, id: Id, size: usize, from_self: bool) -> bool;

    /// Whether a store writes through to the host memory.
    spec fn spills(&self) -> bool;

    /// Whether the tier can account for one more store.
    spec fn can_store(&self) -> bool;

    /// Records `data` as resident with `size` bytes. `from_self` tells a tensor
    /// produced in place by a compute from one that arrives from elsewhere.
    fn put(&mut self, data: &Id, size: usize, from_self: bool) -> (ok: bool)
        requires
            old(self).wf(),
            old(self).admits(*data, size, from_self),
        ensures
            ok,
            final(self).wf(),
            final(self).contents() == old(self).contents().insert(*data, size),
            final(self).total() == old(self).total(),
    ;

    /// The recorded size of a resident tensor.
    fn get(&self, data: &Id) -> (size: usize)
        requires
            self.contents().contains_key(*data),
        ensures
            size == self.contents()[*data],
    ;

    /// Whether `data` is resident.
    fn contains(&self, data: &Id) -> (b: bool)
        ensures
            b == self.contents().contains_key(*data),
    ;

    /// The bytes that are still free.
    fn size_available(&self) -> (n: usize)
        requires
            self.wf(),
        ensures
            n == self.total() - self.allocated(),
    ;

    /// The bytes that count against the capacity.
    fn size_allocated(&self) -> (n: usize)
        ensures
            n == self.allocated(),
    ;

    /// The capacity in bytes.
    fn size_total(&self) -> (n: usize)
        ensures
            n == self.total(),
    ;

    /// The recorded size of `data`, or an error if it is not resident.
    fn size_of(&self, data: &Id) -> (r: Result<usize, ()>)
        ensures
            match r {
                Ok(size) => self.contents().contains_key(*data) && size == self.contents()[*data],
                Err(_) => !self.contents().contains_key(*data),
            },
    ;

    /// The resident ids in ascending order.
    fn to_vec(&self) -> (ids: Vec<Id>)
        ensures
            ascending(ids@),
            ids@.to_set() == self.contents().dom(),
    ;

    /// Copies a resident tensor to the host memory `other`; with `evict` it
    /// leaves this tier. A tier that does not spill does nothing.
    fn store(&mut self, data: &Id, evict: bool, other: &mut DRAM)
        requires
            old(self).wf(),
            old(self).contents().contains_key(*data),
            old(self).can_store(),
        ensures
            final(self).wf(),
            final(self).total() == old(self).total(),
            final(self).contents() == if old(self).spills() && evict {
                old(self).contents().remove(*data)
            } else {
                old(self).contents()
            },
            final(other)@ == if old(self).spills() {
                old(other)@.insert(*data, old(self).contents()[*data])
            } else {
                old(other)@
            },
    ;

    /// Drops a resident tensor without writing it anywhere.
    fn deallocate(&mut self, data: &Id)
        requires
            old(self).wf(),
            old(self).contents().contains_key(*data),
        ensures
            final(self).wf(),
            final(self).total() == old(self).total(),
            final(self).contents() == old(self).contents().remove(*data),
    ;

    /// Forgets every resident; the capacity stays.
    fn reset(&mut self)
        ensures
            final(self).wf(),
            final(self).total() == old(self).total(),
            final(self).contents() == Map::<Id, usize>::empty(),
    ;
}

/// A tensor may be evicted from a memory: it is resident and not protected.
pub open spec fn evictable(id: Id, contents: Map<Id, usize>, exclude: Set<Id>) -> bool {
    contents.contains_key(id) && !exclude.contains(id)
}

/// A policy that picks which resident tensor leaves an SRAM that is full.
pub trait Heuristic: Sized {
    /// The policy's bookkeeping is consistent.
    spec fn wf(&self) -> bool;

    /// `after` is what this policy has become by being asked for a victim.
    spec fn asked(&self, after: Self) -> bool;

    /// `victim` is an answer that this policy may give when it is asked for a
    /// victim among `contents` with `exclude` protected. A policy that
    /// decides by its bookkeeping alone has one answer.
    spec fn picks(&self, contents: Map<Id, usize>, exclude: Set<Id>, victim: Option<Id>) -> bool;

    /// `after` is what this policy has become by being told that `data`, of
    /// `size` bytes, was accessed.
    spec fn touched(&self, after: Self, data: Id, size: usize) -> bool;

    /// `after` is what this policy has become by being told that `data` is
    /// no longer resident.
    spec fn evicted(&self, after: Self, data: Id) -> bool;

    /// Picks a victim among the residents of `sram` that `exclude` does not
    /// protect; there is none exactly when every resident is protected.
    fn choose_victim<TM: Memory>(&mut self, sram: &TM, exclude: &HashSet<Id>) -> (victim: Option<Id>)
        requires
            old(self).wf(),
        ensures
            final(self).wf(),
            old(self).asked(*final(self)),
            old(self).picks(sram.contents(), exclude@, victim),
            match victim {
                Some(v) => evictable(v, sram.contents(), exclude@),
                None => forall|id: Id| !evictable(id, sram.contents(), exclude@),
            },
    ;

    /// Notes that `data` was accessed.
    fn touch(&mut self, data: &Id, size: usize)
        requires
            old(self).wf(),
        ensures
            final(self).wf(),
            old(self).touched(*final(self), *data, size),
    ;

    /// Notes that `data` is no longer resident.
    fn evict(&mut self, data: &Id)
        requires
            old(self).wf(),
        ensures
            final(self).wf(),
            old(self).evicted(*final(self), *data),
    ;
}

/// The two kinds of instruction: computation, and traffic between memories.
#[derive(PartialEq, Eq, Structural, Clone, Copy, Debug)]
pub enum InsnType {
    Compute,
    MMIO,
}

/// Why a simulation stopped. Each error names the tensor it concerns.
#[derive(PartialEq, Eq, Structural, Clone, Copy, Debug)]
pub enum SimError {
    /// Room is needed and every resident is protected from eviction.
    Thrashing,
    /// The tensor is needed in an SRAM and is not resident there.
    NotInSram(Id),
    /// The tensor is needed in DRAM and is not there.
    NotInDram(Id),
    /// The tensor is put into an SRAM in which it is resident already.
    AlreadyResident(Id),
    /// The SRAM has no room left for the tensor.
    OutOfMemory(Id),
    /// A store names the host as the region to store from.
    StoreOnHost(Id),
    /// The instruction that yields this tensor works on an accelerator, and no
    /// SRAM was given for it.
    NoSram(Id),
    /// The instruction that yields this tensor names a region that has no SRAM.
    UnknownRegion(Id),
    /// The tensor cannot be moved: the SRAM's trip counter cannot count further.
    CounterOverflow(Id),
}

/// A micro-instruction together with the instructions that produce its operands.
#[derive(Debug, PartialEq, Eq)]
pub enum Operators {
    /// `Compute(region, op, dst, args, size)`: evaluate `op` on `args` in
    /// `region`, which yields `dst` of `size` bytes. Each argument comes with
    /// the instruction that produces it.
    Compute(String, Id, Id, Vec<(Id, Operators)>, usize),
    /// `Load(region, (id, producer), size)`: bring `id` from DRAM into the SRAM
    /// of `region`.
    Load(String, (Id, Box<Operators>), usize),
    /// `Store(region, evict, (id, producer), size)`: copy `id` from the SRAM of
    /// `region` to DRAM; with `evict` it leaves the SRAM.
    Store(String, bool, (Id, Box<Operators>), usize),
    /// Nothing to do: the operand exists already.
    NoOp,
}

/// What can be asked of an instruction.
pub trait Instruction {
    /// The instruction as mathematics.
    spec fn model(&self) -> Insn;

    /// Whether the instruction computes or moves data.
    fn insn_type(&self) -> (t: InsnType)
        ensures
            t == if self.model() is Compute {
                InsnType::Compute
            } else {
                InsnType::MMIO
            },
    ;

    /// Whether the instruction can be executed against the SRAM of its
    /// region, if it is given one, and DRAM; if not, why not.
    fn check(&self, mem: Option<&SRAM>, dram: &DRAM) -> (res: Result<(), SimError>)
        requires
            mem matches Some(m) ==> m.inv(),
        ensures
            res == execute(self.model(), sram_given(mem), dram@).result,
    ;

    /// Executes the instruction against the SRAM of its region, if it is
    /// given one, and DRAM. The instruction has to be one that can be
    /// executed: `check` tells.
    fn run(&self, mem: Option<&mut SRAM>, dram: &mut DRAM)
        requires
            mem matches Some(m) ==> m.inv(),
            execute(self.model(), sram_before(mem), old(dram)@).result is Ok,
        ensures
            mem matches Some(m) ==> final(m).inv(),
            final(dram)@ == execute(self.model(), sram_before(mem), old(dram)@).dram,
            mem matches Some(m) ==> Some(final(m)@) == execute(
                self.model(),
                sram_before(mem),
                old(dram)@,
            ).sram,
    ;

    /// The instruction's line in the trace.
    fn compile(&self) -> (line: String)
        ensures
            line@ == compile_text(self.model()),
    ;
}

/// An instruction that can add itself to a log.
pub trait InsnLogger: Instruction + Sized {
    /// Appends the instruction's line to `logs`.
    fn write_log(self, logs: &mut Vec<String>)
        ensures
            lines(final(logs)@) == lines(old(logs)@).push(compile_text(self.model())),
    ;
}

/// Whether the region is the host.
pub fn region_is_host(region: &String) -> (b: bool)
    ensures
        b == is_host(region@),
{
    let host = String::from_str("host");
    *region == host
}

/// The first argument that is not resident in `mem`.
fn find_absent<TM: Memory>(args: &Vec<(Id, Operators)>, mem: &TM, Ghost(model): Ghost<
    Seq<(Id, Insn)>,
>) -> (found: Option<Id>)
    requires
        model.len() == args@.len(),
        forall|j: int| 0 <= j < args@.len() ==> (#[trigger] model[j]).0 == args@[j].0,
    ensures
        found == first_absent(model, mem.contents()),
{
    let mut i: usize = 0;
    while i < args.len()
        invariant
            i <= args.len(),
            model.len() == args@.len(),
            forall|j: int| 0 <= j < args@.len() ==> (#[trigger] model[j]).0 == args@[j].0,
            forall|j: int| 0 <= j < i ==> mem.contents().contains_key((#[trigger] model[j]).0),
        decreases args.len() - i,
    {
        if !mem.contains(&args[i].0) {
            proof {
                lemma_first_absent(model, mem.contents(), i as int);
            }
            return Some(args[i].0);
        }
        i = i + 1;
    }
    proof {
        lemma_first_absent(model, mem.contents(), i as int);
    }
    None
}

/// Whether an SRAM can take a tensor; if not, why not.
fn check_put(mem: &SRAM, dram: &DRAM, id: Id, size: usize, from_self: bool) -> (res: Result<
    (),
    SimError,
>)
    requires
        mem.inv(),
    ensures
        res == put_outcome(mem@, dram@, id, size, from_self).result,
{
    if size > mem.size_available() {
        Err(SimError::OutOfMemory(id))
    } else if mem.contains(&id) {
        Err(SimError::AlreadyResident(id))
    } else if !from_self && mem.trip_count == usize::MAX {
        Err(SimError::CounterOverflow(id))
    } else {
        Ok(())
    }
}

/// Executes the instruction if it can be executed, and tells why not if it
/// cannot; the memories are then as they were.
fn try_run(op: &Operators, mem: Option<&mut SRAM>, dram: &mut DRAM) -> (res: Result<(), SimError>)
    requires
        mem matches Some(m) ==> m.inv(),
    ensures
        mem matches Some(m) ==> final(m).inv(),
        res == execute(op@, sram_before(mem), old(dram)@).result,
        final(dram)@ == execute(op@, sram_before(mem), old(dram)@).dram,
        mem matches Some(m) ==> Some(final(m)@) == execute(op@, sram_before(mem), old(dram)@).sram,
{
    match mem {
        Some(m) => match op.check(Some(&*m), dram) {
            Err(e) => Err(e),
            Ok(()) => {
                op.run(Some(m), dram);
                Ok(())
            },
        },
        None => match op.check(None, dram) {
            Err(e) => Err(e),
            Ok(()) => {
                op.run(None, dram);
                Ok(())
            },
        },
    }
}

impl Instruction for Operators {
    open spec fn model(&self) -> Insn {
        insn_of(*self)
    }

    fn insn_type(&self) -> (t: InsnType) {
        match self {
            Operators::Compute(_, _, _, _, _) => InsnType::Compute,
            _ => InsnType::MMIO,
        }
    }

    fn check(&self, mem: Option<&SRAM>, dram: &DRAM) -> (res: Result<(), SimError>) {
        match self {
            Operators::Compute(region, _, dst, args, size) => {
                let ghost model = self@->Compute_3;
                if region_is_host(region) {
                    match find_absent(args, dram, Ghost(model)) {
                        Some(a) => Err(SimError::NotInDram(a)),
                        None => Ok(()),
                    }
                } else {
                    match mem {
                        None => Err(SimError::NoSram(*dst)),
                        Some(m) => match find_absent(args, m, Ghost(model)) {
                            Some(a) => Err(SimError::NotInSram(a)),
                            None => check_put(m, dram, *dst, *size, true),
                        },
                    }
                }
            },
            Operators::Load(region, meta, size) => {
                if region_is_host(region) {
                    Ok(())
                } else if !dram.contains(&meta.0) {
                    Err(SimError::NotInDram(meta.0))
                } else {
                    match mem {
                        None => Err(SimError::NoSram(meta.0)),
                        Some(m) => check_put(m, dram, meta.0, *size, false),
                    }
                }
            },
            Operators::Store(_, _, meta, _) => {
                match mem {
                    None => Err(SimError::NoSram(meta.0)),
                    Some(m) => {
                        if !m.contains(&meta.0) {
                            Err(SimError::NotInSram(meta.0))
                        } else if m.trip_count == usize::MAX {
                            Err(SimError::CounterOverflow(meta.0))
                        } else {
                            Ok(())
                        }
                    },
                }
            },
            Operators::NoOp => Ok(()),
        }
    }

    fn run(&self, mem: Option<&mut SRAM>, dram: &mut DRAM) {
        match self {
            Operators::Compute(region, _, dst, _, size) => {
                if region_is_host(region) {
                    dram.put(dst, *size, true);
                } else {
                    match mem {
                        None => {},
                        Some(m) => {
                            m.put(dst, *size, true);
                        },
                    }
                }
            },
            Operators::Load(region, meta, size) => {
                if region_is_host(region) {
                    if !dram.contains(&meta.0) {
                        dram.put(&meta.0, *size, true);
                    }
                } else {
                    match mem {
                        None => {},
                        Some(m) => {
                            m.put(&meta.0, *size, false);
                        },
                    }
                }
            },
            Operators::Store(_, evict, meta, _) => {
                match mem {
                    None => {},
                    Some(m) => {
                        m.store(&meta.0, *evict, dram);
                    },
                }
            },
            Operators::NoOp => {},
        }
    }

    fn compile(&self) -> (line: String) {
        match self {
            Operators::Compute(region, op_id, dst, args, _) => {
                let mut line = String::from_str("(compute ");
                line.append(region.as_str());
                line.append(" ");
                push_decimal(&mut line, *op_id);
                line.append(" ");
                push_decimal(&mut line, *dst);
                let ghost head = line@;
                let ghost model = self@->Compute_3;
                let mut i: usize = 0;
                assert(model.take(0) =~= Seq::empty());
                assert(head + args_text(model.take(0)) =~= head);
                while i < args.len()
                    invariant
                        i <= args.len(),
                        model.len() == args@.len(),
                        forall|j: int| 0 <= j < args@.len() ==> (#[trigger] model[j]).0 == args@[j].0,
                        line@ == head + args_text(model.take(i as int)),
                    decreases args.len() - i,
                {
                    line.append(" ");
                    push_decimal(&mut line, args[i].0);
                    proof {
                        assert(model.take(i + 1).drop_last() =~= model.take(i as int));
                        assert(model.take(i + 1).last() == model[i as int]);
                        assert(line@ =~= head + args_text(model.take(i + 1)));
                    }
                    i = i + 1;
                }
                assert(model.take(args.len() as int) =~= model);
                line.append(")");
                line
            },
            Operators::Load(region, meta, _) => {
                let mut line = String::from_str("(load ");
                line.append(region.as_str());
                line.append(" ");
                push_decimal(&mut line, meta.0);
                line.append(")");
                line
            },
            Operators::Store(region, evict, meta, _) => {
                let mut line = String::from_str("(store ");
                line.append(region.as_str());
                line.append(" ");
                push_bool(&mut line, *evict);
                line.append(" ");
                push_decimal(&mut line, meta.0);
                line.append(")");
                line
            },
            Operators::NoOp => String::from_str("Skip"),
        }
    }
}

impl InsnLogger for Operators {
    fn write_log(self, logs: &mut Vec<String>) {
        let line = self.compile();
        logs.push(line);
        assert(lines(logs@) =~= lines(old(logs)@).push(compile_text(self@)));
    }
}

impl Operators {
    /// A copy of the whole tree.
    fn duplicate(&self) -> (copy: Operators)
        ensures
            copy@ == self@,
        decreases self,
    {
        broadcast use vstd::std_specs::vec::axiom_vec_index_decreases;

        match self {
            Operators::Compute(region, op_id, dst, args, size) => {
                let mut copies: Vec<(Id, Operators)> = Vec::new();
                let mut i: usize = 0;
                while i < args.len()
                    invariant
                        i <= args.len(),
                        self is Compute,
                        self->Compute_3 == *args,
                        copies@.len() == i,
                        forall|j: int|
                            0 <= j < i ==> (#[trigger] copies@[j]).0 == args@[j].0 && insn_of(
                                copies@[j].1,
                            ) == insn_of(args@[j].1),
                    decreases args.len() - i,
                {
                    let sub = args[i].1.duplicate();
                    copies.push((args[i].0, sub));
                    i = i + 1;
                }
                let copy = Operators::Compute(region.clone(), *op_id, *dst, copies, *size);
                assert(copy@->Compute_3 =~= self@->Compute_3);
                copy
            },
            Operators::Load(region, meta, size) => {
                let sub = meta.1.duplicate();
                Operators::Load(region.clone(), (meta.0, Box::new(sub)), *size)
            },
            Operators::Store(region, evict, meta, size) => {
                let sub = meta.1.duplicate();
                Operators::Store(region.clone(), *evict, (meta.0, Box::new(sub)), *size)
            },
            Operators::NoOp => Operators::NoOp,
        }
    }
}

impl Clone for Operators {
    fn clone(&self) -> (copy: Operators)
        ensures
            copy@ == self@,
    {
        self.duplicate()
    }
}

/// Where the SRAM of `region` stands among `srams`.
pub fn find_region(srams: &Vec<(String, SRAM)>, region: &String) -> (found: Option<usize>)
    ensures
        match found {
            Some(at) => region_at(srams@, region@, at as int),
            None => region_unknown(srams@, region@),
        },
{
    let mut i: usize = 0;
    while i < srams.len()
        invariant
            i <= srams.len(),
            forall|j: int| 0 <= j < i ==> (#[trigger] srams@[j]).0@ != region@,
        decreases srams.len() - i,
    {
        if srams[i].0 == *region {
            return Some(i);
        }
        i = i + 1;
    }
    None
}

/// Evicts `victim` from `mem`: a tensor that DRAM backs already is dropped,
/// any other is written back to DRAM first.
pub fn evict_victim(victim: Id, mem: &mut SRAM, dram: &mut DRAM) -> (res: Result<(), SimError>)
    requires
        old(mem).inv(),
    ensures
        final(mem).inv(),
        match eviction_error(old(mem)@, old(dram)@, victim) {
            Some(e) => res == Err::<(), SimError>(e) && final(mem)@ == old(mem)@ && final(dram)@
                == old(dram)@,
            None => res is Ok && final(mem)@ == old(mem)@.evict(victim, old(dram)@) && final(dram)@
                == dram_after_evict(old(dram)@, victim, old(mem)@.residence[victim]),
        },
{
    if !mem.contains(&victim) {
        Err(SimError::NotInSram(victim))
    } else if dram.contains(&victim) {
        mem.deallocate(&victim);
        Ok(())
    } else if mem.trip_count == usize::MAX {
        Err(SimError::CounterOverflow(victim))
    } else {
        mem.store(&victim, true, dram);
        Ok(())
    }
}

/// A program driver that owns its memories.
pub trait Simulator<I: Instruction> {
    /// Prepares the memories for a run.
    fn initialize(&mut self);

    /// Runs one instruction and reports the trips so far.
    fn run_insn(&mut self, insns: I) -> usize;
}

/// The steps of rematerialization: making room by eviction, bringing evicted
/// tensors back, and performing one instruction on top of them.
pub trait DTR: Sized {
    /// The simulator's heuristic is consistent.
    spec fn wf(&self) -> bool;

    /// The lines of the trace so far.
    spec fn log(&self) -> Seq<Seq<char>>;

    /// Makes sure that `data` is resident in `sram`, reloading it from DRAM if
    /// it is not; room is made without touching what `exclude` protects. The
    /// tensor has to be in one of the two memories: the caller tests it.
    fn rematerialize(
        &mut self,
        data: &Id,
        sram: &mut SRAM,
        dram: &mut DRAM,
        exclude: &HashSet<Id>,
    ) -> (res: Result<(), SimError>)
        requires
            old(self).wf(),
            old(sram).inv(),
            old(sram)@.residence.contains_key(*data) || old(dram)@.contains_key(*data),
        ensures
            final(self).wf(),
            final(sram).inv(),
            final(self).log() == old(self).log(),
            old(sram)@.residence.contains_key(*data) ==> res is Ok && final(sram)@ == old(sram)@
                && final(dram)@ == old(dram)@,
            !old(sram)@.residence.contains_key(*data) ==> {
                let size = old(dram)@[*data];
                &&& res is Ok ==> exists|room: SramModel|
                    {
                        &&& made_room(old(sram)@, room, old(dram)@, final(dram)@, exclude@)
                        &&& room.admits(*data, size)
                        &&& final(sram)@ == #[trigger] room.put(*data, size, false)
                    }
                &&& res is Err ==> made_room(
                    old(sram)@,
                    final(sram)@,
                    old(dram)@,
                    final(dram)@,
                    exclude@,
                )
                &&& res matches Err(e) ==> e == SimError::Thrashing || e is CounterOverflow
                &&& res matches Err(SimError::CounterOverflow(_)) ==> final(sram)@.trips
                    >= usize::MAX
                &&& res == Err::<(), SimError>(SimError::Thrashing) ==> old(sram)@.pinned_size(
                    exclude@,
                ) + size > old(sram)@.capacity
                &&& res is Ok ==> old(sram)@.pinned_size(exclude@) + size <= old(sram)@.capacity
                &&& old(sram)@.used() + size <= old(sram)@.capacity && old(sram)@.trips
                    < usize::MAX ==> res is Ok && final(sram)@ == old(sram)@.rematerialize(
                    *data,
                    size,
                ) && final(dram)@ == old(dram)@
            },
    ;

    /// Performs one instruction, without the instructions that produce its
    /// operands: brings the operands in, makes room, executes, and notes the
    /// instruction in the trace. A store cannot name the host, and a region
    /// other than the host has to have an SRAM: the caller tests both.
    fn perform_op(
        &mut self,
        op: &Operators,
        srams: &mut Vec<(String, SRAM)>,
        dram: &mut DRAM,
        exclude: &HashSet<Id>,
    ) -> (res: Result<(), SimError>)
        requires
            old(self).wf(),
            all_inv(old(srams)@),
            !stores_on_host(op@),
            names_a_region(op@, old(srams)@),
        ensures
            final(self).wf(),
            all_inv(final(srams)@),
            same_layout(old(srams)@, final(srams)@),
            trips_grow(old(srams)@, final(srams)@),
            old(dram)@.dom().subset_of(final(dram)@.dom()),
            final(self).log() == if res is Ok && !(op@ is NoOp) {
                old(self).log().push(compile_text(op@))
            } else {
                old(self).log()
            },
            performed(op@, old(srams)@, final(srams)@, old(dram)@, final(dram)@, exclude@, res),
    ;

    /// Evicts residents of `mem` that `exclude` does not protect until `size`
    /// more bytes fit; it is thrashing when room is still needed and every
    /// resident is protected.
    fn allocate_buffer(
        &mut self,
        size: usize,
        mem: &mut SRAM,
        dram: &mut DRAM,
        exclude: &HashSet<Id>,
    ) -> (res: Result<(), SimError>)
        requires
            old(self).wf(),
            old(mem).inv(),
        ensures
            final(self).wf(),
            final(mem).inv(),
            final(self).log() == old(self).log(),
            made_room(old(mem)@, final(mem)@, old(dram)@, final(dram)@, exclude@),
            res is Ok ==> final(mem)@.used() + size <= final(mem)@.capacity,
            res is Ok ==> old(mem)@.pinned_size(exclude@) + size <= old(mem)@.capacity,
            res matches Err(e) ==> e == SimError::Thrashing || e is CounterOverflow,
            res == Err::<(), SimError>(SimError::Thrashing) ==> old(mem)@.pinned_size(exclude@)
                + size > old(mem)@.capacity,
            res matches Err(SimError::CounterOverflow(_)) ==> final(mem)@.trips >= usize::MAX,
            old(mem)@.used() + size <= old(mem)@.capacity ==> res is Ok && final(mem)@ == old(
                mem,
            )@ && final(dram)@ == old(dram)@,
    ;

    /// Evicts one resident of `mem` that `exclude` does not protect, and tells
    /// which. There has to be such a resident: the caller tests it.
    fn evict_single(&mut self, exclude: &HashSet<Id>, mem: &mut SRAM, dram: &mut DRAM) -> (res:
        Result<Id, SimError>)
        requires
            old(self).wf(),
            old(mem).inv(),
            exists|id: Id| evictable(id, old(mem)@.residence, exclude@),
        ensures
            final(self).wf(),
            final(mem).inv(),
            final(self).log() == old(self).log(),
            match res {
                Ok(victim) => {
                    &&& !exclude@.contains(victim)
                    &&& evictable(victim, old(mem)@.residence, exclude@)
                    &&& eviction_error(old(mem)@, old(dram)@, victim) is None
                    &&& final(mem)@ == old(mem)@.evict(victim, old(dram)@)
                    &&& final(dram)@ == dram_after_evict(
                        old(dram)@,
                        victim,
                        old(mem)@.residence[victim],
                    )
                },
                Err(e) => {
                    &&& final(mem)@ == old(mem)@
                    &&& final(dram)@ == old(dram)@
                    &&& e is CounterOverflow
                    &&& old(mem)@.trips >= usize::MAX
                },
            },
    ;

    /// Writes a resident of `mem` back to DRAM and removes it from `mem`. The
    /// tensor has to be resident, and the trip counter has to have room.
    fn deallocate(&mut self, data: &Id, mem: &mut SRAM, dram: &mut DRAM)
        requires
            old(mem).inv(),
            old(mem)@.residence.contains_key(*data),
            old(mem).trip_count < usize::MAX,
        ensures
            final(mem).inv(),
            *final(self) == *old(self),
            final(mem)@ == old(mem)@.store(*data, true),
            final(dram)@ == old(dram)@.insert(*data, old(mem)@.residence[*data]),
    ;
}

/// The region that an instruction names and the tensor that it yields or moves.
pub fn place_of(op: &Operators) -> (place: Option<(&String, Id)>)
    ensures
        match place {
            Some(pair) => region_of(op@) == Some(pair.0@) && subject(op@) == pair.1,
            None => op@ is NoOp,
        },
{
    match op {
        Operators::Compute(region, _, dst, _, _) => Some((region, *dst)),
        Operators::Load(region, meta, _) => Some((region, meta.0)),
        Operators::Store(region, _, meta, _) => Some((region, meta.0)),
        Operators::NoOp => None,
    }
}

/// Whether some resident of `mem` may be evicted.
pub fn has_victim(mem: &SRAM, exclude: &HashSet<Id>) -> (b: bool)
    ensures
        b == exists|id: Id| evictable(id, mem@.residence, exclude@),
{
    let ids = mem.to_vec();
    let mut i: usize = 0;
    while i < ids.len()
        invariant
            i <= ids.len(),
            ids@.to_set() == mem@.residence.dom(),
            forall|j: int| 0 <= j < i ==> exclude@.contains(#[trigger] ids@[j]),
        decreases ids.len() - i,
    {
        if !exclude.contains(&ids[i]) {
            proof {
                assert(ids@.to_set().contains(ids@[i as int]));
                assert(evictable(ids@[i as int], mem@.residence, exclude@));
            }
            return true;
        }
        i = i + 1;
    }
    proof {
        assert forall|id: Id| !evictable(id, mem@.residence, exclude@) by {
            if evictable(id, mem@.residence, exclude@) {
                assert(ids@.to_set().contains(id));
                let j = ids@.index_of(id);
                assert(exclude@.contains(ids@[j]));
            }
        }
    }
    false
}

/// The ids of the arguments of a compute.
pub fn arg_ids(args: &Vec<(Id, Operators)>) -> (ids: HashSet<Id>)
    ensures
        forall|id: Id|
            ids@.contains(id) <==> exists|j: int| 0 <= j < args@.len() && (#[trigger] args@[j]).0 == id,
{
    let mut ids: HashSet<Id> = HashSet::new();
    let mut i: usize = 0;
    while i < args.len()
        invariant
            i <= args.len(),
            forall|id: Id|
                ids@.contains(id) <==> exists|j: int| 0 <= j < i && (#[trigger] args@[j]).0 == id,
        decreases args.len() - i,
    {
        ids.insert(args[i].0);
        i = i + 1;
    }
    ids
}

/// What is left of `residence` when the first `n` of `victims` are gone.
pub open spec fn remaining(residence: Map<Id, usize>, victims: Seq<Id>, n: int) -> Map<Id, usize> {
    residence.remove_keys(victims.take(n).to_set())
}

/// The policy went through the states `told` by being asked for a victim
/// and told of its eviction, once for each of `victims` in turn; `asked` are
/// the states between the question and the telling. Each victim was the
/// policy's pick among what was left of `residence`, and was evicted because
/// what was left did not leave room for `size` more bytes.
pub open spec fn evictions_told<H: Heuristic>(
    victims: Seq<Id>,
    asked: Seq<H>,
    told: Seq<H>,
    residence: Map<Id, usize>,
    exclude: Set<Id>,
    size: usize,
    capacity: nat,
) -> bool {
    &&& asked.len() == victims.len()
    &&& told.len() == victims.len() + 1
    &&& forall|j: int|
        0 <= j < victims.len() ==> {
            &&& (#[trigger] told[j]).asked(asked[j])
            &&& asked[j].evicted(told[j + 1], victims[j])
            &&& told[j].picks(remaining(residence, victims, j), exclude, Some(victims[j]))
            &&& total_size(remaining(residence, victims, j)) + size > capacity
        }
}

/// What the heuristic learns while room is made for `size` bytes in an SRAM
/// that is `start` at first: it is asked for each victim and told of its
/// eviction; the victims are the tensors `left` that left the SRAM. Where
/// the trip counter stopped a write-back (`overflowed`), it was asked once
/// more and told nothing.
pub open spec fn room_told<H: Heuristic>(
    policy: H,
    after: H,
    start: SramModel,
    exclude: Set<Id>,
    size: usize,
    left: Set<Id>,
    overflowed: bool,
) -> bool {
    exists|victims: Seq<Id>, asked: Seq<H>, told: Seq<H>|
        {
            &&& #[trigger] evictions_told(
                victims,
                asked,
                told,
                start.residence,
                exclude,
                size,
                start.capacity,
            )
            &&& victims.to_set() == left
            &&& told[0] == policy
            &&& if overflowed {
                told.last().asked(after)
            } else {
                told.last() == after
            }
        }
}

/// What the heuristic learns when an instruction is performed in the SRAM of
/// its region: a load touches its tensor, after making room for it if it was
/// not resident; a store that evicts tells of the eviction, and a store that
/// does not, or that fails, tells nothing.
pub open spec fn told_on<H: Heuristic>(
    op: Insn,
    before: SramModel,
    now: SramModel,
    exclude: Set<Id>,
    policy: H,
    after: H,
    res: Result<(), SimError>,
) -> bool {
    match op {
        Insn::NoOp => after == policy,
        Insn::Load(_, meta, size) => if before.residence.contains_key(meta.0) {
            policy.touched(after, meta.0, before.residence[meta.0])
        } else {
            // A load that succeeds made room and then touched the tensor.
            res is Ok ==> exists|roomy: H|
                {
                    &&& #[trigger] room_told(
                        policy,
                        roomy,
                        before,
                        exclude,
                        size,
                        before.residence.dom().difference(now.residence.dom()),
                        false,
                    )
                    &&& roomy.touched(after, meta.0, size)
                }
        },
        Insn::Store(_, evict, meta, _) => if res is Ok && evict {
            policy.evicted(after, meta.0)
        } else {
            after == policy
        },
        // A compute whose operands are all resident and whose result has room
        // touches each operand in turn, and then the result.
        Insn::Compute(_, _, dst, args, size) => {
            &&& first_absent(args, before.residence) is None && !before.residence.contains_key(dst)
                && before.used() + size <= before.capacity ==> exists|steps: Seq<H>|
                {
                    &&& #[trigger] touched_in_turn(steps, args, before.residence)
                    &&& steps[0] == policy
                    &&& steps.last().touched(after, dst, size)
                }
            // A compute that succeeds brought each operand in, in turn, made
            // room for the result and touched the result.
            &&& res is Ok ==> exists|steps: Seq<H>, roomy: H, start: SramModel, left: Set<Id>|
                {
                    &&& #[trigger] operands_told(steps, args)
                    &&& steps[0] == policy
                    &&& #[trigger] room_told(
                        steps.last(),
                        roomy,
                        start,
                        arg_set(args),
                        size,
                        left,
                        false,
                    )
                    &&& roomy.touched(after, dst, size)
                }
        },
    }
}

/// The policy learned that an operand was brought in: it was touched, after
/// room was made for it if it had to be reloaded.
pub open spec fn brought_in<H: Heuristic>(policy: H, after: H, lock: Set<Id>, id: Id) -> bool {
    ||| exists|size: usize| #[trigger] policy.touched(after, id, size)
    ||| exists|roomy: H, start: SramModel, left: Set<Id>, size: usize|
        #[trigger] room_told(policy, roomy, start, lock, size, left, false) && roomy.touched(
            after,
            id,
            size,
        )
}

/// The policy went through `steps` by learning of each operand in turn that
/// it was brought in, with all the operands protected.
pub open spec fn operands_told<H: Heuristic>(steps: Seq<H>, args: Seq<(Id, Insn)>) -> bool {
    operands_locked(steps, args, arg_set(args))
}

/// The policy went through `steps` by learning of each of `args` in turn
/// that it was brought in, with `lock` protected.
pub open spec fn operands_locked<H: Heuristic>(
    steps: Seq<H>,
    args: Seq<(Id, Insn)>,
    lock: Set<Id>,
) -> bool {
    &&& steps.len() == args.len() + 1
    &&& forall|j: int|
        0 <= j < args.len() ==> brought_in(#[trigger] steps[j], steps[j + 1], lock, args[j].0)
}

/// The policy went through `steps` by being told of an access to each
/// argument in turn, with the size that the argument has in `residence`.
pub open spec fn touched_in_turn<H: Heuristic>(
    steps: Seq<H>,
    args: Seq<(Id, Insn)>,
    residence: Map<Id, usize>,
) -> bool {
    &&& steps.len() == args.len() + 1
    &&& forall|j: int|
        0 <= j < args.len() ==> (#[trigger] steps[j]).touched(
            steps[j + 1],
            args[j].0,
            residence[args[j].0],
        )
}

/// What the heuristic learns when an instruction is performed: nothing from
/// an instruction on the host, from one that names a region without SRAM,
/// or from a store on the host; else what `told_on` says.
pub open spec fn told<H: Heuristic>(
    op: Insn,
    srams: Seq<(String, SRAM)>,
    now: Seq<(String, SRAM)>,
    exclude: Set<Id>,
    policy: H,
    after: H,
    res: Result<(), SimError>,
) -> bool {
    match region_of(op) {
        None => after == policy,
        Some(region) => if is_host(region) || region_unknown(srams, region) {
            after == policy
        } else {
            forall|at: int| #[trigger]
                region_at(srams, region, at) ==> told_on(
                    op,
                    srams[at].1@,
                    now[at].1@,
                    exclude,
                    policy,
                    after,
                    res,
                )
        },
    }
}

/// The policy went through `policies`, one after each instruction of the
/// run that went through `states`, and learned from each instruction what
/// `told` says.
pub open spec fn policies_told<H: Heuristic>(
    prog: Seq<Insn>,
    states: Seq<Machine>,
    policies: Seq<H>,
    res: Result<(), SimError>,
) -> bool {
    &&& policies.len() == states.len()
    &&& forall|at: int|
        0 <= at < states.len() - 1 ==> told(
            prog[at],
            states[at].srams,
            states[at + 1].srams,
            Set::empty(),
            #[trigger] policies[at],
            policies[at + 1],
            step_result(states, at, res),
        )
}

/// What a run of the program `prog` comes to for the memories and the
/// heuristic together: the memories went through the states of a run, from
/// `before` to `after`, and the heuristic, from `policy` to `learned`,
/// learned from each instruction in turn.
pub open spec fn ran_told<H: Heuristic>(
    prog: Seq<Insn>,
    before: Machine,
    after: Machine,
    policy: H,
    learned: H,
    res: Result<(), SimError>,
) -> bool {
    exists|states: Seq<Machine>, policies: Seq<H>|
        {
            &&& #[trigger] stepped(prog, states, res)
            &&& #[trigger] policies_told(prog, states, policies, res)
            &&& states[0] == before
            &&& states.last() == after
            &&& policies[0] == policy
            &&& policies.last() == learned
        }
}

/// A run of nothing teaches nothing.
pub proof fn lemma_told_nothing<H: Heuristic>(machine: Machine, policy: H)
    ensures
        ran_told(Seq::<Insn>::empty(), machine, machine, policy, policy, Ok(())),
{
    let states = seq![machine];
    let policies = seq![policy];
    assert(stepped(Seq::<Insn>::empty(), states, Ok(())));
    assert(policies_told(Seq::<Insn>::empty(), states, policies, Ok(())));
    assert(states[0] == machine && policies[0] == policy);
}

/// Performing one instruction is a run of that instruction alone.
pub proof fn lemma_told_one<H: Heuristic>(
    op: Insn,
    before: Machine,
    after: Machine,
    policy: H,
    learned: H,
    res: Result<(), SimError>,
)
    requires
        performed(op, before.srams, after.srams, before.dram, after.dram, Set::empty(), res),
        told(op, before.srams, after.srams, Set::empty(), policy, learned, res),
    ensures
        ran_told(seq![op], before, after, policy, learned, res),
{
    crate::steps::lemma_one_step(op, before, after, res);
    let states = seq![before, after];
    let policies = seq![policy, learned];
    assert forall|at: int| 0 <= at < states.len() - 1 implies told(
        seq![op][at],
        states[at].srams,
        states[at + 1].srams,
        Set::empty(),
        #[trigger] policies[at],
        policies[at + 1],
        step_result(states, at, res),
    ) by {
        assert(at == 0);
    }
    assert(policies_told(seq![op], states, policies, res));
    assert(states[0] == before && states.last() == after);
    assert(policies[0] == policy && policies.last() == learned);
}

/// A run that succeeded is a run with the result `Ok`.
#[verifier::rlimit(60)]
pub proof fn lemma_told_ok<H: Heuristic>(
    prog: Seq<Insn>,
    before: Machine,
    after: Machine,
    policy: H,
    learned: H,
    res: Result<(), SimError>,
)
    requires
        res is Ok,
        ran_told(prog, before, after, policy, learned, res),
    ensures
        ran_told(prog, before, after, policy, learned, Ok(())),
{
    let (states, policies) = choose|states: Seq<Machine>, policies: Seq<H>|
        {
            &&& #[trigger] stepped(prog, states, res)
            &&& #[trigger] policies_told(prog, states, policies, res)
            &&& states[0] == before
            &&& states.last() == after
            &&& policies[0] == policy
            &&& policies.last() == learned
        };
    assert forall|at: int| 0 <= at < states.len() - 1 implies step_result(states, at, res)
        == step_result(states, at, Ok(())) by {}
    assert(stepped(prog, states, Ok(()))) by {
        assert forall|at: int| 0 <= at < states.len() - 1 implies performed(
            prog[at],
            (#[trigger] states[at]).srams,
            states[at + 1].srams,
            states[at].dram,
            states[at + 1].dram,
            Set::empty(),
            step_result(states, at, Ok(())),
        ) by {
            assert(step_result(states, at, res) == step_result(states, at, Ok(())));
        }
    }
    assert(policies_told(prog, states, policies, Ok(()))) by {
        assert forall|at: int| 0 <= at < states.len() - 1 implies told(
            prog[at],
            states[at].srams,
            states[at + 1].srams,
            Set::empty(),
            #[trigger] policies[at],
            policies[at + 1],
            step_result(states, at, Ok(())),
        ) by {
            assert(step_result(states, at, res) == step_result(states, at, Ok(())));
        }
    }
}

/// A run that succeeded, followed by a run on what it left, is a run of both
/// programs in a row.
#[verifier::rlimit(60)]
pub proof fn lemma_told_then<H: Heuristic>(
    first: Seq<Insn>,
    then: Seq<Insn>,
    m0: Machine,
    m1: Machine,
    m2: Machine,
    h0: H,
    h1: H,
    h2: H,
    first_res: Result<(), SimError>,
    res: Result<(), SimError>,
)
    requires
        first_res is Ok,
        ran_told(first, m0, m1, h0, h1, first_res),
        ran_told(then, m1, m2, h1, h2, res),
    ensures
        ran_told(first + then, m0, m2, h0, h2, res),
{
    lemma_told_ok(first, m0, m1, h0, h1, first_res);
    let (states, policies) = choose|states: Seq<Machine>, policies: Seq<H>|
        {
            &&& #[trigger] stepped(first, states, Ok(()))
            &&& #[trigger] policies_told(first, states, policies, Ok(()))
            &&& states[0] == m0
            &&& states.last() == m1
            &&& policies[0] == h0
            &&& policies.last() == h1
        };
    let (more, more_policies) = choose|more: Seq<Machine>, more_policies: Seq<H>|
        {
            &&& #[trigger] stepped(then, more, res)
            &&& #[trigger] policies_told(then, more, more_policies, res)
            &&& more[0] == m1
            &&& more.last() == m2
            &&& more_policies[0] == h1
            &&& more_policies.last() == h2
        };
    crate::steps::lemma_stepped_then(first, states, then, more, res);
    let prog = first + then;
    let all = states + more.drop_first();
    let all_policies = policies + more_policies.drop_first();
    assert forall|at: int| 0 <= at < all.len() - 1 implies told(
        prog[at],
        all[at].srams,
        all[at + 1].srams,
        Set::empty(),
        #[trigger] all_policies[at],
        all_policies[at + 1],
        step_result(all, at, res),
    ) by {
        if at < first.len() {
            assert(all[at] == states[at]);
            assert(all_policies[at] == policies[at]);
            assert(prog[at] == first[at]);
            if at + 1 < states.len() {
                assert(all[at + 1] == states[at + 1]);
                assert(all_policies[at + 1] == policies[at + 1]);
            } else {
                assert(all[at + 1] == more[1]);
                assert(all_policies[at + 1] == more_policies[1]);
            }
            assert(step_result(states, at, Ok(())) == Ok::<(), SimError>(()));
            assert(told(
                first[at],
                states[at].srams,
                states[at + 1].srams,
                Set::empty(),
                policies[at],
                policies[at + 1],
                Ok(()),
            ));
        } else {
            let k = at - first.len();
            assert(prog[at] == then[k]);
            if k == 0 {
                assert(all[at] == states.last());
                assert(all_policies[at] == policies.last());
            } else {
                assert(all[at] == more.drop_first()[k - 1]);
                assert(all_policies[at] == more_policies.drop_first()[k - 1]);
            }
            assert(all[at + 1] == more[k + 1]);
            assert(all_policies[at + 1] == more_policies[k + 1]);
            assert(step_result(all, at, res) == step_result(more, k, res));
            assert(told(
                then[k],
                more[k].srams,
                more[k + 1].srams,
                Set::empty(),
                more_policies[k],
                more_policies[k + 1],
                step_result(more, k, res),
            ));
        }
    }
    assert(policies_told(prog, all, all_policies, res));
    assert(all[0] == m0 && all.last() == m2);
    assert(all_policies[0] == h0 && all_policies.last() == h2);
}

/// A run that failed is a run of every program that goes on after the
/// instruction that failed.
#[verifier::rlimit(60)]
pub proof fn lemma_told_failed<H: Heuristic>(
    prog: Seq<Insn>,
    rest: Seq<Insn>,
    before: Machine,
    after: Machine,
    policy: H,
    learned: H,
    res: Result<(), SimError>,
)
    requires
        res is Err,
        ran_told(prog, before, after, policy, learned, res),
    ensures
        ran_told(prog + rest, before, after, policy, learned, res),
{
    let (states, policies) = choose|states: Seq<Machine>, policies: Seq<H>|
        {
            &&& #[trigger] stepped(prog, states, res)
            &&& #[trigger] policies_told(prog, states, policies, res)
            &&& states[0] == before
            &&& states.last() == after
            &&& policies[0] == policy
            &&& policies.last() == learned
        };
    crate::steps::lemma_stepped_failed(prog, states, rest, res);
    assert forall|at: int| 0 <= at < states.len() - 1 implies told(
        (prog + rest)[at],
        states[at].srams,
        states[at + 1].srams,
        Set::empty(),
        #[trigger] policies[at],
        policies[at + 1],
        step_result(states, at, res),
    ) by {
        assert((prog + rest)[at] == prog[at]);
    }
    assert(policies_told(prog + rest, states, policies, res));
}

/// The simulator: a heuristic and the trace of what was performed.
pub struct JitSim<H: Heuristic> {
    pub heuristic: H,
    pub trace: Vec<String>,
}

impl<H: Heuristic> JitSim<H> {
    /// A simulator that has performed nothing yet.
    pub fn new(heuristic: H) -> (sim: Self)
        ensures
            sim.heuristic == heuristic,
            sim.trace@ == Seq::<String>::empty(),
    {
        JitSim { heuristic, trace: Vec::new() }
    }

    /// Runs an instruction tree: the producers of the operands first, in
    /// their order, then the instruction itself, with nothing protected. The
    /// first error ends the run; the trace keeps what was performed before.
    #[verifier::rlimit(60)]
    pub fn run(
        &mut self,
        ops: &Operators,
        srams: &mut Vec<(String, SRAM)>,
        dram: &mut DRAM,
        pin: &HashSet<Id>,
    ) -> (res: Result<(), SimError>)
        requires
            old(self).wf(),
            all_inv(old(srams)@),
        ensures
            final(self).wf(),
            all_inv(final(srams)@),
            ran(
                program(ops@),
                schedule(ops@),
                old(self).log(),
                final(self).log(),
                Machine { srams: old(srams)@, dram: old(dram)@ },
                Machine { srams: final(srams)@, dram: final(dram)@ },
                res,
            ),
            ran_told(
                program(ops@),
                Machine { srams: old(srams)@, dram: old(dram)@ },
                Machine { srams: final(srams)@, dram: final(dram)@ },
                old(self).heuristic,
                final(self).heuristic,
                res,
            ),
            ops@ is NoOp ==> *final(self) == *old(self),
        decreases ops,
    {
        broadcast use vstd::std_specs::vec::axiom_vec_index_decreases;

        let ghost log0 = self.log();
        let ghost start = Machine { srams: srams@, dram: dram@ };
        let ghost policy = self.heuristic;
        let ghost text = compile_text(ops@);
        match ops {
            Operators::NoOp => {
                proof {
                    lemma_ran_nothing(log0, start);
                    lemma_told_nothing(start, policy);
                }
                Ok(())
            },
            Operators::Load(_, meta, _) => {
                let produced = self.run(&meta.1, srams, dram, pin);
                proof {
                    assert(program(ops@) =~= program(meta.1@) + seq![ops@]);
                    assert(schedule(ops@) =~= schedule(meta.1@) + seq![text]);
                }
                self.perform_after(
                    ops,
                    produced,
                    srams,
                    dram,
                    Ghost(program(meta.1@)),
                    Ghost(schedule(meta.1@)),
                    Ghost(log0),
                    Ghost(start),
                    Ghost(policy),
                )
            },
            Operators::Store(_, _, meta, _) => {
                let produced = self.run(&meta.1, srams, dram, pin);
                proof {
                    assert(program(ops@) =~= program(meta.1@) + seq![ops@]);
                    assert(schedule(ops@) =~= schedule(meta.1@) + seq![text]);
                }
                self.perform_after(
                    ops,
                    produced,
                    srams,
                    dram,
                    Ghost(program(meta.1@)),
                    Ghost(schedule(meta.1@)),
                    Ghost(log0),
                    Ghost(start),
                    Ghost(policy),
                )
            },
            Operators::Compute(_, _, _, subops, _) => {
                let pin = arg_ids(subops);
                let ghost model = ops@->Compute_3;
                let mut i: usize = 0;
                proof {
                    lemma_ran_nothing(log0, start);
                    lemma_told_nothing(start, policy);
                }
                while i < subops.len()
                    invariant
                        i <= subops.len(),
                        ops is Compute,
                        ops->Compute_3 == *subops,
                        model == ops@->Compute_3,
                        text == compile_text(ops@),
                        log0 == old(self).log(),
                        start == (Machine { srams: old(srams)@, dram: old(dram)@ }),
                        policy == old(self).heuristic,
                        ran_told(
                            program_args(model, i as nat),
                            start,
                            Machine { srams: srams@, dram: dram@ },
                            policy,
                            self.heuristic,
                            Ok(()),
                        ),
                        self.wf(),
                        all_inv(srams@),
                        ran(
                            program_args(model, i as nat),
                            schedule_args(model, i as nat),
                            log0,
                            self.log(),
                            start,
                            Machine { srams: srams@, dram: dram@ },
                            Ok(()),
                        ),
                    decreases subops.len() - i,
                {
                    let ghost log1 = self.log();
                    let ghost mid = Machine { srams: srams@, dram: dram@ };
                    let ghost met = self.heuristic;
                    let produced = self.run(&subops[i].1, srams, dram, &pin);
                    proof {
                        let child = subops@[i as int].1@;
                        assert(model[i as int].1 == child);
                        lemma_told_then(
                            program_args(model, i as nat),
                            program(child),
                            start,
                            mid,
                            Machine { srams: srams@, dram: dram@ },
                            policy,
                            met,
                            self.heuristic,
                            Ok(()),
                            produced,
                        );
                        lemma_ran_then(
                            program_args(model, i as nat),
                            schedule_args(model, i as nat),
                            program(child),
                            schedule(child),
                            log0,
                            log1,
                            self.log(),
                            start,
                            mid,
                            Machine { srams: srams@, dram: dram@ },
                            Ok(()),
                            produced,
                        );
                        assert(program_args(model, (i + 1) as nat) == program_args(model, i as nat)
                            + program(child));
                        assert(schedule_args(model, (i + 1) as nat) == schedule_args(
                            model,
                            i as nat,
                        ) + schedule(child));
                    }
                    match produced {
                        Err(e) => {
                            proof {
                                let rest = lemma_program_args_prefix(
                                    model,
                                    (i + 1) as nat,
                                    model.len(),
                                );
                                let rest_text = lemma_schedule_args_prefix(
                                    model,
                                    (i + 1) as nat,
                                    model.len(),
                                );
                                lemma_ran_failed(
                                    program_args(model, (i + 1) as nat),
                                    schedule_args(model, (i + 1) as nat),
                                    rest.push(ops@),
                                    rest_text.push(text),
                                    log0,
                                    self.log(),
                                    start,
                                    Machine { srams: srams@, dram: dram@ },
                                    produced,
                                );
                                lemma_told_failed(
                                    program_args(model, (i + 1) as nat),
                                    rest.push(ops@),
                                    start,
                                    Machine { srams: srams@, dram: dram@ },
                                    policy,
                                    self.heuristic,
                                    produced,
                                );
                                assert(program(ops@) =~= program_args(model, (i + 1) as nat)
                                    + rest.push(ops@));
                                assert(schedule(ops@) =~= schedule_args(model, (i + 1) as nat)
                                    + rest_text.push(text));
                            }
                            return Err(e);
                        },
                        Ok(()) => {},
                    }
                    proof {
                        lemma_ran_ok(
                            program_args(model, (i + 1) as nat),
                            schedule_args(model, (i + 1) as nat),
                            log0,
                            self.log(),
                            start,
                            Machine { srams: srams@, dram: dram@ },
                            produced,
                        );
                        lemma_told_ok(
                            program_args(model, (i + 1) as nat),
                            start,
                            Machine { srams: srams@, dram: dram@ },
                            policy,
                            self.heuristic,
                            produced,
                        );
                    }
                    i = i + 1;
                }
                proof {
                    assert(program(ops@) =~= program_args(model, model.len()) + seq![ops@]);
                    assert(schedule(ops@) =~= schedule_args(model, model.len()) + seq![text]);
                }
                self.perform_after(
                    ops,
                    Ok(()),
                    srams,
                    dram,
                    Ghost(program_args(model, model.len())),
                    Ghost(schedule_args(model, model.len())),
                    Ghost(log0),
                    Ghost(start),
                    Ghost(policy),
                )
            },
        }
    }

    /// Performs an instruction after its producers were run with the result
    /// `produced`: an error of theirs ends the run, and so does a store that
    /// names the host.
    #[verifier::rlimit(60)]
    fn perform_after(
        &mut self,
        ops: &Operators,
        produced: Result<(), SimError>,
        srams: &mut Vec<(String, SRAM)>,
        dram: &mut DRAM,
        Ghost(before): Ghost<Seq<Insn>>,
        Ghost(before_text): Ghost<Seq<Seq<char>>>,
        Ghost(log0): Ghost<Seq<Seq<char>>>,
        Ghost(start): Ghost<Machine>,
        Ghost(policy): Ghost<H>,
    ) -> (res: Result<(), SimError>)
        requires
            old(self).wf(),
            all_inv(old(srams)@),
            !(ops@ is NoOp),
            ran_told(
                before,
                start,
                Machine { srams: old(srams)@, dram: old(dram)@ },
                policy,
                old(self).heuristic,
                produced,
            ),
            ran(
                before,
                before_text,
                log0,
                old(self).log(),
                start,
                Machine { srams: old(srams)@, dram: old(dram)@ },
                produced,
            ),
        ensures
            final(self).wf(),
            all_inv(final(srams)@),
            ran(
                before + seq![ops@],
                before_text + seq![compile_text(ops@)],
                log0,
                final(self).log(),
                start,
                Machine { srams: final(srams)@, dram: final(dram)@ },
                res,
            ),
            ran_told(
                before + seq![ops@],
                start,
                Machine { srams: final(srams)@, dram: final(dram)@ },
                policy,
                final(self).heuristic,
                res,
            ),
    {
        let ghost mid = Machine { srams: srams@, dram: dram@ };
        let ghost log1 = self.log();
        let ghost met = self.heuristic;
        match produced {
            Err(e) => {
                proof {
                    lemma_ran_failed(
                        before,
                        before_text,
                        seq![ops@],
                        seq![compile_text(ops@)],
                        log0,
                        log1,
                        start,
                        mid,
                        produced,
                    );
                    lemma_told_failed(before, seq![ops@], start, mid, policy, met, produced);
                }
                Err(e)
            },
            Ok(()) => {
                match ops {
                    Operators::Store(region, _, meta, _) => {
                        if region_is_host(region) {
                            proof {
                                lemma_ran_one(
                                    ops@,
                                    log1,
                                    log1,
                                    mid,
                                    mid,
                                    Err(SimError::StoreOnHost(meta.0)),
                                );
                                lemma_ran_then(
                                    before,
                                    before_text,
                                    seq![ops@],
                                    seq![compile_text(ops@)],
                                    log0,
                                    log1,
                                    log1,
                                    start,
                                    mid,
                                    mid,
                                    produced,
                                    Err(SimError::StoreOnHost(meta.0)),
                                );
                                lemma_told_one(
                                    ops@,
                                    mid,
                                    mid,
                                    met,
                                    met,
                                    Err(SimError::StoreOnHost(meta.0)),
                                );
                                lemma_told_then(
                                    before,
                                    seq![ops@],
                                    start,
                                    mid,
                                    mid,
                                    policy,
                                    met,
                                    met,
                                    produced,
                                    Err(SimError::StoreOnHost(meta.0)),
                                );
                            }
                            return Err(SimError::StoreOnHost(meta.0));
                        }
                    },
                    _ => {},
                }
                match place_of(ops) {
                    Some((region, id)) => {
                        if !region_is_host(region) && find_region(srams, region).is_none() {
                            proof {
                                lemma_ran_one(
                                    ops@,
                                    log1,
                                    log1,
                                    mid,
                                    mid,
                                    Err(SimError::UnknownRegion(id)),
                                );
                                lemma_ran_then(
                                    before,
                                    before_text,
                                    seq![ops@],
                                    seq![compile_text(ops@)],
                                    log0,
                                    log1,
                                    log1,
                                    start,
                                    mid,
                                    mid,
                                    produced,
                                    Err(SimError::UnknownRegion(id)),
                                );
                                lemma_told_one(
                                    ops@,
                                    mid,
                                    mid,
                                    met,
                                    met,
                                    Err(SimError::UnknownRegion(id)),
                                );
                                lemma_told_then(
                                    before,
                                    seq![ops@],
                                    start,
                                    mid,
                                    mid,
                                    policy,
                                    met,
                                    met,
                                    produced,
                                    Err(SimError::UnknownRegion(id)),
                                );
                            }
                            return Err(SimError::UnknownRegion(id));
                        }
                    },
                    None => {},
                }
                let none: HashSet<Id> = HashSet::new();
                let res = self.perform_op(ops, srams, dram, &none);
                proof {
                    assert(none@ =~= Set::<Id>::empty());
                    let after = Machine { srams: srams@, dram: dram@ };
                    lemma_ran_one(ops@, log1, self.log(), mid, after, res);
                    lemma_told_one(ops@, mid, after, met, self.heuristic, res);
                    lemma_told_then(
                        before,
                        seq![ops@],
                        start,
                        mid,
                        after,
                        policy,
                        met,
                        self.heuristic,
                        produced,
                        res,
                    );
                    lemma_ran_then(
                        before,
                        before_text,
                        seq![ops@],
                        seq![compile_text(ops@)],
                        log0,
                        log1,
                        self.log(),
                        start,
                        mid,
                        after,
                        produced,
                        res,
                    );
                }
                res
            },
        }
    }

    /// Performs an accelerator instruction in the SRAM of its region.
    #[verifier::rlimit(60)]
    fn perform_on(
        &mut self,
        op: &Operators,
        mem: &mut SRAM,
        dram: &mut DRAM,
        exclude: &HashSet<Id>,
    ) -> (res: Result<(), SimError>)
        requires
            old(self).wf(),
            old(mem).inv(),
            region_of(op@) matches Some(region) ==> !is_host(region),
        ensures
            final(self).wf(),
            final(mem).inv(),
            final(mem).mem_limit == old(mem).mem_limit,
            final(mem).trip_count >= old(mem).trip_count,
            final(self).log() == old(self).log(),
            old(dram)@.dom().subset_of(final(dram)@.dom()),
            performed_on(op@, old(mem)@, final(mem)@, old(dram)@, final(dram)@, exclude@, res),
            told_on(
                op@,
                old(mem)@,
                final(mem)@,
                exclude@,
                old(self).heuristic,
                final(self).heuristic,
                res,
            ),
            final(self).trace == old(self).trace,
    {
        match op {
            Operators::NoOp => {
                return Ok(());
            },
            Operators::Store(_, evict, meta, _) => {
                match try_run(op, Some(mem), dram) {
                    Err(e) => {
                        return Err(e);
                    },
                    Ok(()) => {
                        if *evict {
                            self.heuristic.evict(&meta.0);
                        }
                        return Ok(());
                    },
                }
            },
            Operators::Load(_, meta, size) => {
                if !mem.contains(&meta.0) {
                    match self.allocate_buffer(*size, mem, dram, exclude) {
                        Err(e) => {
                            return Err(e);
                        },
                        Ok(()) => {},
                    }
                    let ghost room = mem@;
                    let ghost dram_room = dram@;
                    match try_run(op, Some(mem), dram) {
                        Err(e) => {
                            proof {
                                if e == SimError::NotInDram(meta.0) {
                                    assert(!dram_room.contains_key(meta.0));
                                }
                            }
                            return Err(e);
                        },
                        Ok(()) => {},
                    }
                    proof {
                        assert(op@ is Load);
                        assert(execute(op@, Some(room), dram_room).result is Ok);
                        assert(mem@ == room.put(meta.0, *size, false));
                        assert(dram_room.contains_key(meta.0));
                        assert(old(dram)@.contains_key(meta.0));
                        assert(old(mem)@.residence.dom().difference(mem@.residence.dom()) =~= old(
                            mem,
                        )@.residence.dom().difference(room.residence.dom()));
                    }
                }
                let size = mem.get(&meta.0);
                self.heuristic.touch(&meta.0, size);
                return Ok(());
            },
            Operators::Compute(_, _, dst, args, size) => {
                let evict_lock = arg_ids(args);
                let ghost model = op@->Compute_3;
                let ghost lock = arg_set(model);
                let ghost operands = operand_sizes(model, old(mem)@.residence, old(dram)@);
                proof {
                    assert(evict_lock@ =~= lock) by {
                        assert forall|id: Id| evict_lock@.contains(id) == lock.contains(id) by {
                            if evict_lock@.contains(id) {
                                let j = choose|j: int|
                                    0 <= j < args@.len() && (#[trigger] args@[j]).0 == id;
                                assert(model[j].0 == id);
                            }
                            if lock.contains(id) {
                                let j = choose|j: int|
                                    0 <= j < model.len() && (#[trigger] model[j]).0 == id;
                                assert(args@[j].0 == id);
                            }
                        }
                    }
                }
                proof {
                    let start = old(mem)@;
                    assert(reloaded(start, start, lock) =~= Set::<Id>::empty());
                    assert(start.evicted =~= start.evicted.union(
                        old(dram)@.dom().difference(old(dram)@.dom()),
                    ));
                }
                let mut i: usize = 0;
                let ghost mut steps = seq![self.heuristic];
                let ghost mut path = seq![self.heuristic];
                while i < args.len()
                    invariant
                        i <= args.len(),
                        operands_locked(path, model.take(i as int), lock),
                        path[0] == old(self).heuristic,
                        path.last() == self.heuristic,
                        op@ is Compute,
                        model == op@->Compute_3,
                        first_absent(model, old(mem)@.residence) is None ==> mem@ == old(mem)@
                            && dram@ == old(dram)@,
                        first_absent(model, old(mem)@.residence) is None ==> {
                            &&& touched_in_turn(steps, model.take(i as int), old(mem)@.residence)
                            &&& steps[0] == old(self).heuristic
                            &&& steps.last() == self.heuristic
                        },
                        self.trace == old(self).trace,
                        model.len() == args@.len(),
                        forall|j: int| 0 <= j < args@.len() ==> (#[trigger] model[j]).0 == args@[j].0,
                        lock == arg_set(model),
                        evict_lock@ == lock,
                        operands == operand_sizes(model, old(mem)@.residence, old(dram)@),
                        old(mem).inv(),
                        self.wf(),
                        mem.inv(),
                        mem.mem_limit == old(mem).mem_limit,
                        mem.trip_count >= old(mem).trip_count,
                        self.log() == old(self).log(),
                        old(dram)@.dom().subset_of(dram@.dom()),
                        operands_in_progress(old(mem)@, mem@, old(dram)@, dram@, lock, operands),
                        forall|j: int|
                            0 <= j < i ==> mem@.residence.contains_key((#[trigger] args@[j]).0),
                    decreases args.len() - i,
                {
                    let arg = args[i].0;
                    let ghost now = mem@;
                    let ghost dram_now = dram@;
                    let ghost met = self.heuristic;
                    proof {
                        assert(model[i as int].0 == arg);
                        assert(lock.contains(arg));
                        if first_absent(model, old(mem)@.residence) is None {
                            lemma_first_absent_none(model, old(mem)@.residence);
                            assert(old(mem)@.residence.contains_key(model[i as int].0));
                        }
                    }
                    if !mem.contains(&arg) {
                        if !dram.contains(&arg) {
                            proof {
                                if old(dram)@.contains_key(arg) {
                                    assert(dram_now.contains_key(arg));
                                }
                                if old(mem)@.residence.contains_key(arg) {
                                    assert(now.residence.contains_key(arg));
                                }
                            }
                            return Err(SimError::NotInDram(arg));
                        }
                        let res = self.rematerialize(&arg, mem, dram, &evict_lock);
                        proof {
                            if dram_now.contains_key(arg) {
                                lemma_progress_bytes(
                                    model,
                                    old(mem)@,
                                    now,
                                    old(dram)@,
                                    dram_now,
                                    arg,
                                );
                                if res is Ok {
                                    let room = choose|room: SramModel|
                                        {
                                            &&& made_room(now, room, dram_now, dram@, lock)
                                            &&& room.admits(arg, dram_now[arg])
                                            &&& mem@ == #[trigger] room.put(
                                                arg,
                                                dram_now[arg],
                                                false,
                                            )
                                        };
                                    lemma_progress_room(
                                        old(mem)@,
                                        now,
                                        room,
                                        old(dram)@,
                                        dram_now,
                                        dram@,
                                        lock,
                                        operands,
                                    );
                                    assert(dram@.contains_key(arg));
                                    assert(dram@[arg] == dram_now[arg]);
                                    assert(room.residence.dom().subset_of(now.residence.dom()));
                                    vstd::set_lib::lemma_len_subset(
                                        room.residence.dom(),
                                        now.residence.dom(),
                                    );
                                    lemma_progress_put(
                                        model,
                                        old(mem)@,
                                        room,
                                        old(dram)@,
                                        dram@,
                                        arg,
                                    );
                                } else {
                                    lemma_progress_room(
                                        old(mem)@,
                                        now,
                                        mem@,
                                        old(dram)@,
                                        dram_now,
                                        dram@,
                                        lock,
                                        operands,
                                    );
                                }
                            } else {
                                if old(dram)@.contains_key(arg) {
                                    assert(dram_now.contains_key(arg));
                                }
                                if old(mem)@.residence.contains_key(arg) {
                                    assert(now.residence.contains_key(arg));
                                }
                            }
                        }
                        match res {
                            Err(e) => {
                                return Err(e);
                            },
                            Ok(()) => {},
                        }
                    } else {
                        let size = mem.get(&arg);
                        let ghost policy = self.heuristic;
                        self.heuristic.touch(&arg, size);
                        proof {
                            if first_absent(model, old(mem)@.residence) is None {
                                let longer = steps.push(self.heuristic);
                                assert forall|j: int| 0 <= j < i + 1 implies (#[trigger] longer[j]).touched(
                                    longer[j + 1],
                                    model.take(i + 1)[j].0,
                                    old(mem)@.residence[model.take(i + 1)[j].0],
                                ) by {
                                    if j < i {
                                        assert(longer[j] == steps[j]);
                                        assert(longer[j + 1] == steps[j + 1]);
                                        assert(model.take(i as int)[j] == model.take(i + 1)[j]);
                                    } else {
                                        assert(longer[j] == policy);
                                    }
                                }
                                steps = longer;
                            }
                        }
                    }
                    proof {
                        assert(brought_in(met, self.heuristic, lock, arg));
                        let longer = path.push(self.heuristic);
                        assert forall|j: int| 0 <= j < i + 1 implies brought_in(
                            #[trigger] longer[j],
                            longer[j + 1],
                            lock,
                            model.take(i + 1)[j].0,
                        ) by {
                            if j < i {
                                assert(longer[j] == path[j]);
                                assert(longer[j + 1] == path[j + 1]);
                                assert(model.take(i as int)[j] == model.take(i + 1)[j]);
                            } else {
                                assert(longer[j] == met);
                            }
                        }
                        path = longer;
                    }
                    proof {
                        assert forall|j: int| 0 <= j < i + 1 implies mem@.residence.contains_key(
                            (#[trigger] args@[j]).0,
                        ) by {
                            assert(model[j].0 == args@[j].0);
                            assert(lock.contains(args@[j].0));
                            if j < i {
                                assert(now.residence.contains_key(args@[j].0));
                            }
                        }
                    }
                    i = i + 1;
                }
                let ghost loaded = mem@;
                let ghost dram_loaded = dram@;
                let res = self.allocate_buffer(*size, mem, dram, &evict_lock);
                proof {
                    lemma_progress_bytes(model, old(mem)@, loaded, old(dram)@, dram_loaded, 0);
                    lemma_progress_room(
                        old(mem)@,
                        loaded,
                        mem@,
                        old(dram)@,
                        dram_loaded,
                        dram@,
                        lock,
                        operands,
                    );
                }
                match res {
                    Err(e) => {
                        return Err(e);
                    },
                    Ok(()) => {},
                }
                proof {
                    assert forall|j: int| 0 <= j < args@.len() implies mem@.residence.contains_key(
                        (#[trigger] args@[j]).0,
                    ) by {
                        assert(model[j].0 == args@[j].0);
                        assert(lock.contains(args@[j].0));
                        assert(loaded.residence.contains_key(args@[j].0));
                    }
                }
                let ghost room = mem@;
                match try_run(op, Some(mem), dram) {
                    Err(e) => {
                        proof {
                            lemma_first_absent(model, room.residence, model.len() as int);
                            if room.residence.contains_key(*dst) && !lock.contains(*dst) {
                                assert(old(mem)@.residence.contains_key(*dst));
                            }
                        }
                        return Err(e);
                    },
                    Ok(()) => {},
                }
                proof {
                    lemma_first_absent(model, room.residence, model.len() as int);
                    assert(mem@ == room.put(*dst, *size, true));
                    assert(missing_operands(model, old(mem)@.residence) =~= reloaded(
                        old(mem)@,
                        room,
                        lock,
                    )) by {
                        assert forall|id: Id|
                            missing_operands(model, old(mem)@.residence).contains(id) implies reloaded(
                            old(mem)@,
                            room,
                            lock,
                        ).contains(id) by {
                            let j = choose|j: int|
                                0 <= j < model.len() && (#[trigger] model[j]).0 == id;
                            assert(room.residence.contains_key(args@[j].0));
                        }
                    }
                    assert forall|j: int| 0 <= j < model.len() implies mem@.residence.contains_key(
                        (#[trigger] model[j]).0,
                    ) by {
                        assert(model[j].0 == args@[j].0);
                        assert(room.residence.contains_key(args@[j].0));
                    }
                    assert(part_of(operands, room.residence)) by {
                        assert forall|id: Id| #[trigger] operands.contains_key(id) implies room.residence.contains_key(
                            id,
                        ) && operands[id] == room.residence[id] by {
                            let j = choose|j: int|
                                0 <= j < model.len() && (#[trigger] model[j]).0 == id;
                            assert(room.residence.contains_key(args@[j].0));
                        }
                    }
                    if lock.contains(*dst) {
                        let j = choose|j: int| 0 <= j < model.len() && (#[trigger] model[j]).0 == *dst;
                        assert(room.residence.contains_key(args@[j].0));
                    }
                    lemma_total_size_part_of(operands, room.residence);
                    assert(part_of(operands, mem@.residence));
                    assert(model.take(model.len() as int) =~= model);
                    assert(operands_told(path, model));
                    assert(room_told(
                        path.last(),
                        self.heuristic,
                        loaded,
                        lock,
                        *size,
                        loaded.residence.dom().difference(room.residence.dom()),
                        false,
                    ));
                }
                self.heuristic.touch(dst, *size);
                return Ok(());
            },
        }
    }
}

impl<H: Heuristic> DTR for JitSim<H> {
    open spec fn wf(&self) -> bool {
        self.heuristic.wf()
    }

    open spec fn log(&self) -> Seq<Seq<char>> {
        lines(self.trace@)
    }

    #[verifier::rlimit(60)]
    fn rematerialize(
        &mut self,
        data: &Id,
        sram: &mut SRAM,
        dram: &mut DRAM,
        exclude: &HashSet<Id>,
    ) -> (res: Result<(), SimError>)
        ensures
            final(self).trace == old(self).trace,
            old(sram)@.residence.contains_key(*data) ==> old(self).heuristic.touched(
                final(self).heuristic,
                *data,
                old(sram)@.residence[*data],
            ),
            !old(sram)@.residence.contains_key(*data) ==> match res {
                Ok(_) => exists|roomy: H|
                    {
                        &&& #[trigger] room_told(
                            old(self).heuristic,
                            roomy,
                            old(sram)@,
                            exclude@,
                            old(dram)@[*data],
                            old(sram)@.residence.dom().difference(final(sram)@.residence.dom()),
                            false,
                        )
                        &&& roomy.touched(final(self).heuristic, *data, old(dram)@[*data])
                    },
                Err(_) => room_told(
                    old(self).heuristic,
                    final(self).heuristic,
                    old(sram)@,
                    exclude@,
                    old(dram)@[*data],
                    old(sram)@.residence.dom().difference(final(sram)@.residence.dom()),
                    false,
                ) || room_told(
                    old(self).heuristic,
                    final(self).heuristic,
                    old(sram)@,
                    exclude@,
                    old(dram)@[*data],
                    old(sram)@.residence.dom().difference(final(sram)@.residence.dom()),
                    true,
                ),
            },
    {
        if !sram.contains(data) {
            let size = dram.get(data);
            match self.allocate_buffer(size, sram, dram, exclude) {
                Err(e) => {
                    return Err(e);
                },
                Ok(()) => {},
            }
            if sram.trip_count == usize::MAX {
                return Err(SimError::CounterOverflow(*data));
            }
            let ghost room = sram@;
            sram.put(data, size, false);
            assert(sram@ == room.put(*data, size, false));
            assert(old(sram)@.residence.dom().difference(sram@.residence.dom()) =~= old(
                sram,
            )@.residence.dom().difference(room.residence.dom()));
        }
        let size = sram.get(data);
        self.heuristic.touch(data, size);
        Ok(())
    }

    #[verifier::rlimit(60)]
    fn perform_op(
        &mut self,
        op: &Operators,
        srams: &mut Vec<(String, SRAM)>,
        dram: &mut DRAM,
        exclude: &HashSet<Id>,
    ) -> (res: Result<(), SimError>)
        ensures
            told(
                op@,
                old(srams)@,
                final(srams)@,
                exclude@,
                old(self).heuristic,
                final(self).heuristic,
                res,
            ),
            op@ is NoOp ==> *final(self) == *old(self),
    {
        let res = match op {
            Operators::NoOp => {
                return Ok(());
            },
            Operators::Compute(region, _, dst, _, _) => {
                if region_is_host(region) {
                    try_run(op, None, dram)
                } else {
                    match find_region(srams, region) {
                        None => vstd::pervasive::unreached(),
                        Some(at) => {
                            let mem = &mut srams[at].1;
                            self.perform_on(op, mem, dram, exclude)
                        },
                    }
                }
            },
            Operators::Load(region, meta, _) => {
                if region_is_host(region) {
                    try_run(op, None, dram)
                } else {
                    match find_region(srams, region) {
                        None => vstd::pervasive::unreached(),
                        Some(at) => {
                            let mem = &mut srams[at].1;
                            self.perform_on(op, mem, dram, exclude)
                        },
                    }
                }
            },
            Operators::Store(region, _, meta, _) => {
                match find_region(srams, region) {
                    None => vstd::pervasive::unreached(),
                    Some(at) => {
                        let mem = &mut srams[at].1;
                        self.perform_on(op, mem, dram, exclude)
                    },
                }
            },
        };
        match res {
            Err(e) => Err(e),
            Ok(()) => {
                let line = op.compile();
                self.trace.push(line);
                assert(lines(self.trace@) =~= lines(old(self).trace@).push(compile_text(op@)));
                Ok(())
            },
        }
    }

    #[verifier::rlimit(60)]
    fn allocate_buffer(
        &mut self,
        size: usize,
        mem: &mut SRAM,
        dram: &mut DRAM,
        exclude: &HashSet<Id>,
    ) -> (res: Result<(), SimError>)
        ensures
            final(self).trace == old(self).trace,
            old(mem)@.used() + size <= old(mem)@.capacity ==> *final(self) == *old(self),
            room_told(
                old(self).heuristic,
                final(self).heuristic,
                old(mem)@,
                exclude@,
                size,
                old(mem)@.residence.dom().difference(final(mem)@.residence.dom()),
                res matches Err(SimError::CounterOverflow(_)),
            ),
    {
        proof {
            assert(mem@.evicted =~= mem@.evicted.union(dram@.dom().difference(dram@.dom())));
        }
        let ghost mut victims: Seq<Id> = Seq::empty();
        let ghost mut asked: Seq<H> = Seq::empty();
        let ghost mut told: Seq<H> = seq![self.heuristic];
        proof {
            assert(victims.to_set() =~= mem@.residence.dom().difference(mem@.residence.dom()));
            assert(victims.take(0) =~= victims);
            assert(mem@.residence =~= remaining(mem@.residence, victims, 0));
        }
        while size > mem.size_available()
            invariant
                evictions_told(
                    victims,
                    asked,
                    told,
                    old(mem)@.residence,
                    exclude@,
                    size,
                    old(mem)@.capacity,
                ),
                victims.to_set() == old(mem)@.residence.dom().difference(mem@.residence.dom()),
                mem@.residence == remaining(old(mem)@.residence, victims, victims.len() as int),
                mem@.capacity == old(mem)@.capacity,
                told[0] == old(self).heuristic,
                told.last() == self.heuristic,
                self.wf(),
                mem.inv(),
                self.log() == old(self).log(),
                made_room(old(mem)@, mem@, old(dram)@, dram@, exclude@),
                mem@.pinned_size(exclude@) == old(mem)@.pinned_size(exclude@),
                self.trace == old(self).trace,
                old(mem)@.used() + size <= old(mem)@.capacity ==> mem@ == old(mem)@ && dram@ == old(
                    dram,
                )@ && *self == *old(self),
            decreases mem@.residence.dom().len(),
        {
            let ghost before = mem@;
            let ghost dram_before = dram@;
            if !has_victim(mem, exclude) {
                proof {
                    assert forall|id: Id| before.residence.contains_key(id) implies exclude@.contains(
                        id,
                    ) by {
                        assert(!evictable(id, before.residence, exclude@));
                    }
                    assert(before.residence.restrict(exclude@) =~= before.residence);
                }
                return Err(SimError::Thrashing);
            }
            let ghost policy = self.heuristic;
            match self.evict_single(exclude, mem, dram) {
                Ok(victim) => {
                    proof {
                        let between = choose|between: H|
                            {
                                &&& #[trigger] policy.asked(between)
                                &&& between.evicted(self.heuristic, victim)
                            };
                        let victims2 = victims.push(victim);
                        let asked2 = asked.push(between);
                        let told2 = told.push(self.heuristic);
                        let start = old(mem)@.residence;
                        assert(victims.take(victims.len() as int) =~= victims);
                        assert forall|j: int| 0 <= j < victims2.len() implies {
                            &&& (#[trigger] told2[j]).asked(asked2[j])
                            &&& asked2[j].evicted(told2[j + 1], victims2[j])
                            &&& told2[j].picks(
                                remaining(start, victims2, j),
                                exclude@,
                                Some(victims2[j]),
                            )
                            &&& total_size(remaining(start, victims2, j)) + size > old(mem)@.capacity
                        } by {
                            assert(victims2.take(j) =~= victims.take(j));
                            if j < victims.len() {
                                assert(told2[j] == told[j]);
                                assert(told2[j + 1] == told[j + 1]);
                            } else {
                                assert(told2[j] == policy);
                                assert(remaining(start, victims2, j) == before.residence);
                            }
                        }
                        assert(victims2.take(victims2.len() as int) =~= victims2);
                        assert(victims2.to_set() =~= old(mem)@.residence.dom().difference(
                            mem@.residence.dom(),
                        )) by {
                            assert forall|id: Id| victims2.to_set().contains(id) implies old(
                                mem,
                            )@.residence.dom().difference(mem@.residence.dom()).contains(id) by {
                                let j = choose|j: int| 0 <= j < victims2.len() && victims2[j] == id;
                                if j < victims.len() {
                                    assert(victims[j] == id);
                                    assert(victims.to_set().contains(id));
                                }
                            }
                            assert forall|id: Id|
                                old(mem)@.residence.dom().difference(mem@.residence.dom()).contains(
                                    id,
                                ) implies victims2.to_set().contains(id) by {
                                if id == victim {
                                    assert(victims2[victims.len() as int] == id);
                                } else {
                                    assert(victims.to_set().contains(id));
                                    let j = choose|j: int| 0 <= j < victims.len() && victims[j] == id;
                                    assert(victims2[j] == id);
                                }
                            }
                        }
                        assert(mem@.residence =~= remaining(start, victims2, victims2.len() as int)) by {
                            assert(mem@.residence =~= before.residence.remove(victim));
                        }
                        victims = victims2;
                        asked = asked2;
                        told = told2;
                    }
                    proof {
                        lemma_made_room_step(
                            old(mem)@,
                            before,
                            old(dram)@,
                            dram_before,
                            exclude@,
                            victim,
                        );
                        assert(before.residence.remove(victim).restrict(exclude@)
                            =~= before.residence.restrict(exclude@));
                        assert(mem@.residence.dom() =~= before.residence.dom().remove(victim));
                    }
                },
                Err(e) => {
                    return Err(e);
                },
            }
        }
        proof {
            lemma_total_size_restrict(mem@.residence, exclude@);
        }
        Ok(())
    }

    fn evict_single(&mut self, exclude: &HashSet<Id>, mem: &mut SRAM, dram: &mut DRAM) -> (res:
        Result<Id, SimError>)
        ensures
            final(self).trace == old(self).trace,
            match res {
                Ok(victim) => {
                    &&& old(self).heuristic.picks(old(mem)@.residence, exclude@, Some(victim))
                    &&& exists|asked: H|
                        {
                            &&& #[trigger] old(self).heuristic.asked(asked)
                            &&& asked.evicted(final(self).heuristic, victim)
                        }
                },
                Err(_) => old(self).heuristic.asked(final(self).heuristic),
            },
    {
        match self.heuristic.choose_victim(mem, exclude) {
            None => {
                proof {
                    let id = choose|id: Id| evictable(id, old(mem)@.residence, exclude@);
                    assert(!evictable(id, mem.contents(), exclude@));
                }
                vstd::pervasive::unreached()
            },
            Some(victim) => match evict_victim(victim, mem, dram) {
                Ok(()) => {
                    self.heuristic.evict(&victim);
                    Ok(victim)
                },
                Err(e) => Err(e),
            },
        }
    }

    fn deallocate(&mut self, data: &Id, mem: &mut SRAM, dram: &mut DRAM) {
        mem.store(data, true, dram);
    }
}

} // verus!
