//! The micro-instructions as mathematics: what an instruction tree stands
//! for, its text in the trace, and the effect of one instruction on the
//! memories.
use crate::memory::{SramModel, SRAM};
use crate::sim::{Id, Operators, SimError};
use crate::text::{bool_text, decimal};
use vstd::prelude::*;

verus! {

/// An instruction tree as mathematics: what an `Operators` value stands for.
pub enum Insn {
    /// Region, operator, destination, arguments with their producers, size.
    Compute(Seq<char>, Id, Id, Seq<(Id, Insn)>, usize),
    /// Region, the tensor with its producer, size.
    Load(Seq<char>, (Id, Box<Insn>), usize),
    /// Region, whether to evict, the tensor with its producer, size.
    Store(Seq<char>, bool, (Id, Box<Insn>), usize),
    /// Nothing to do.
    NoOp,
}

/// The instruction tree that an `Operators` value stands for.
pub open spec fn insn_of(op: Operators) -> Insn
    decreases op,
{
    match op {
        Operators::Compute(region, op_id, dst, args, size) => Insn::Compute(
            region@,
            op_id,
            dst,
            Seq::new(
                args@.len(),
                |i: int|
                    if 0 <= i < args@.len() {
                        (args@[i].0, insn_of(args@[i].1))
                    } else {
                        (0, Insn::NoOp)
                    },
            ),
            size,
        ),
        Operators::Load(region, meta, size) => Insn::Load(
            region@,
            (meta.0, Box::new(insn_of(*meta.1))),
            size,
        ),
        Operators::Store(region, evict, meta, size) => Insn::Store(
            region@,
            evict,
            (meta.0, Box::new(insn_of(*meta.1))),
            size,
        ),
        Operators::NoOp => Insn::NoOp,
    }
}

impl View for Operators {
    type V = Insn;

    open spec fn view(&self) -> Insn {
        insn_of(*self)
    }
}

/// The region name that stands for execution on the host, in DRAM.
pub open spec fn is_host(region: Seq<char>) -> bool {
    region == "host"@
}

/// The ids of the arguments, each preceded by a blank.
pub open spec fn args_text(args: Seq<(Id, Insn)>) -> Seq<char>
    decreases args.len(),
{
    if args.len() == 0 {
        Seq::empty()
    } else {
        args_text(args.drop_last()) + " "@ + decimal(args.last().0 as nat)
    }
}

/// The line of the trace that stands for an instruction.
pub open spec fn compile_text(op: Insn) -> Seq<char> {
    match op {
        Insn::Compute(region, op_id, dst, args, _) => "(compute "@ + region + " "@ + decimal(
            op_id as nat,
        ) + " "@ + decimal(dst as nat) + args_text(args) + ")"@,
        Insn::Load(region, meta, _) => "(load "@ + region + " "@ + decimal(meta.0 as nat) + ")"@,
        Insn::Store(region, evict, meta, _) => "(store "@ + region + " "@ + bool_text(evict) + " "@
            + decimal(meta.0 as nat) + ")"@,
        Insn::NoOp => "Skip"@,
    }
}

/// The first argument that is missing from `contents`, if one is.
pub open spec fn first_absent(args: Seq<(Id, Insn)>, contents: Map<Id, usize>) -> Option<Id>
    decreases args.len(),
{
    if args.len() == 0 {
        None
    } else if !contents.contains_key(args[0].0) {
        Some(args[0].0)
    } else {
        first_absent(args.drop_first(), contents)
    }
}

/// Where the first missing argument stands decides `first_absent`.
pub proof fn lemma_first_absent(args: Seq<(Id, Insn)>, contents: Map<Id, usize>, n: int)
    requires
        0 <= n <= args.len(),
        forall|j: int| 0 <= j < n ==> contents.contains_key(#[trigger] args[j].0),
        n < args.len() ==> !contents.contains_key(args[n].0),
    ensures
        first_absent(args, contents) == if n < args.len() {
            Some(args[n].0)
        } else {
            None
        },
    decreases args.len(),
{
    if args.len() > 0 && n > 0 {
        let rest = args.drop_first();
        assert forall|j: int| 0 <= j < n - 1 implies contents.contains_key(
            #[trigger] rest[j].0,
        ) by {
            assert(rest[j] == args[j + 1]);
        }
        lemma_first_absent(rest, contents, n - 1);
    }
}

/// Where no argument is missing, every argument is there.
pub proof fn lemma_first_absent_none(args: Seq<(Id, Insn)>, contents: Map<Id, usize>)
    requires
        first_absent(args, contents) is None,
    ensures
        forall|j: int| 0 <= j < args.len() ==> contents.contains_key((#[trigger] args[j]).0),
    decreases args.len(),
{
    if args.len() > 0 {
        let rest = args.drop_first();
        lemma_first_absent_none(rest, contents);
        assert forall|j: int| 0 <= j < args.len() implies contents.contains_key(
            (#[trigger] args[j]).0,
        ) by {
            if j > 0 {
                assert(rest[j - 1] == args[j]);
            }
        }
    }
}

/// The memories after one instruction, and whether it could be executed.
pub struct Outcome {
    pub result: Result<(), SimError>,
    pub sram: Option<SramModel>,
    pub dram: Map<Id, usize>,
}

/// The instruction cannot be executed: the memories stay as they are.
pub open spec fn refuse(e: SimError, sram: Option<SramModel>, dram: Map<Id, usize>) -> Outcome {
    Outcome { result: Err(e), sram, dram }
}

/// What putting a tensor into an SRAM comes to.
pub open spec fn put_outcome(
    m: SramModel,
    dram: Map<Id, usize>,
    id: Id,
    size: usize,
    from_self: bool,
) -> Outcome {
    if m.used() + size > m.capacity {
        refuse(SimError::OutOfMemory(id), Some(m), dram)
    } else if m.residence.contains_key(id) {
        refuse(SimError::AlreadyResident(id), Some(m), dram)
    } else if !from_self && m.trips >= usize::MAX {
        refuse(SimError::CounterOverflow(id), Some(m), dram)
    } else {
        Outcome { result: Ok(()), sram: Some(m.put(id, size, from_self)), dram }
    }
}

/// What writing a tensor of an SRAM back to DRAM comes to.
pub open spec fn store_outcome(m: SramModel, dram: Map<Id, usize>, id: Id, evict: bool) -> Outcome {
    if !m.residence.contains_key(id) {
        refuse(SimError::NotInSram(id), Some(m), dram)
    } else if m.trips >= usize::MAX {
        refuse(SimError::CounterOverflow(id), Some(m), dram)
    } else {
        Outcome {
            result: Ok(()),
            sram: Some(m.store(id, evict)),
            dram: dram.insert(id, m.residence[id]),
        }
    }
}

/// What executing one instruction comes to, against the SRAM of its region
/// (if one is given) and DRAM. The instructions that produce the operands
/// play no part in it.
pub open spec fn execute(op: Insn, sram: Option<SramModel>, dram: Map<Id, usize>) -> Outcome {
    match op {
        Insn::Compute(region, _, dst, args, size) => {
            if is_host(region) {
                match first_absent(args, dram) {
                    Some(a) => refuse(SimError::NotInDram(a), sram, dram),
                    None => Outcome { result: Ok(()), sram, dram: dram.insert(dst, size) },
                }
            } else {
                match sram {
                    None => refuse(SimError::NoSram(dst), sram, dram),
                    Some(m) => match first_absent(args, m.residence) {
                        Some(a) => refuse(SimError::NotInSram(a), sram, dram),
                        None => put_outcome(m, dram, dst, size, true),
                    },
                }
            }
        },
        Insn::Load(region, meta, size) => {
            if is_host(region) {
                Outcome {
                    result: Ok(()),
                    sram,
                    dram: if dram.contains_key(meta.0) {
                        dram
                    } else {
                        dram.insert(meta.0, size)
                    },
                }
            } else if !dram.contains_key(meta.0) {
                refuse(SimError::NotInDram(meta.0), sram, dram)
            } else {
                match sram {
                    None => refuse(SimError::NoSram(meta.0), sram, dram),
                    Some(m) => put_outcome(m, dram, meta.0, size, false),
                }
            }
        },
        Insn::Store(_, evict, meta, _) => {
            match sram {
                None => refuse(SimError::NoSram(meta.0), sram, dram),
                Some(m) => store_outcome(m, dram, meta.0, evict),
            }
        },
        Insn::NoOp => Outcome { result: Ok(()), sram, dram },
    }
}

/// The instruction alone, without the instructions that produce its operands.
pub open spec fn flat(op: Insn) -> Insn {
    match op {
        Insn::Compute(region, op_id, dst, args, size) => Insn::Compute(
            region,
            op_id,
            dst,
            Seq::new(args.len(), |i: int| (args[i].0, Insn::NoOp)),
            size,
        ),
        Insn::Load(region, meta, size) => Insn::Load(region, (meta.0, Box::new(Insn::NoOp)), size),
        Insn::Store(region, evict, meta, size) => Insn::Store(
            region,
            evict,
            (meta.0, Box::new(Insn::NoOp)),
            size,
        ),
        Insn::NoOp => Insn::NoOp,
    }
}

/// The text of the arguments shows their ids and nothing of their producers.
pub proof fn lemma_args_text_flat(args: Seq<(Id, Insn)>)
    ensures
        args_text(Seq::new(args.len(), |i: int| (args[i].0, Insn::NoOp))) == args_text(args),
    decreases args.len(),
{
    let bare = Seq::new(args.len(), |i: int| (args[i].0, Insn::NoOp));
    if args.len() > 0 {
        let front = args.drop_last();
        lemma_args_text_flat(front);
        assert(bare.drop_last() =~= Seq::new(front.len(), |i: int| (front[i].0, Insn::NoOp)));
    }
}

/// The first missing argument depends on the ids alone.
pub proof fn lemma_first_absent_flat(args: Seq<(Id, Insn)>, contents: Map<Id, usize>)
    ensures
        first_absent(Seq::new(args.len(), |i: int| (args[i].0, Insn::NoOp)), contents)
            == first_absent(args, contents),
    decreases args.len(),
{
    let bare = Seq::new(args.len(), |i: int| (args[i].0, Insn::NoOp));
    if args.len() > 0 {
        let rest = args.drop_first();
        lemma_first_absent_flat(rest, contents);
        assert(bare.drop_first() =~= Seq::new(rest.len(), |i: int| (rest[i].0, Insn::NoOp)));
    }
}

/// An instruction's line in the trace and its effect on the memories depend
/// on the instruction alone, not on the instructions that produce its
/// operands: an instruction that is performed again from the fields that its
/// line shows, with its size, has the same line and the same effect.
pub proof fn law_line_and_effect_are_flat(
    op: Insn,
    sram: Option<SramModel>,
    dram: Map<Id, usize>,
)
    ensures
        compile_text(flat(op)) == compile_text(op),
        execute(flat(op), sram, dram) == execute(op, sram, dram),
        schedule(flat(op)) == if op is NoOp {
            Seq::<Seq<char>>::empty()
        } else {
            seq![compile_text(op)]
        },
{
    reveal_with_fuel(schedule, 2);
    reveal_with_fuel(schedule_args, 2);
    match op {
        Insn::Compute(region, op_id, dst, args, size) => {
            lemma_args_text_flat(args);
            lemma_first_absent_flat(args, dram);
            if let Some(m) = sram {
                lemma_first_absent_flat(args, m.residence);
            }
            lemma_schedule_args_flat(args, args.len());
            assert(schedule(flat(op)) =~= seq![compile_text(op)]);
        },
        Insn::Load(region, meta, size) => {
            assert(schedule(flat(op)) =~= seq![compile_text(op)]);
        },
        Insn::Store(region, evict, meta, size) => {
            assert(schedule(flat(op)) =~= seq![compile_text(op)]);
        },
        Insn::NoOp => {},
    }
}

/// The texts of a log's lines.
pub open spec fn lines(logs: Seq<String>) -> Seq<Seq<char>> {
    logs.map_values(|line: String| line@)
}

/// The model of the SRAM that an instruction is checked against, if there is one.
pub open spec fn sram_given(mem: Option<&SRAM>) -> Option<SramModel> {
    match mem {
        Some(m) => Some(m@),
        None => None,
    }
}

/// The model of the SRAM that an instruction is handed, if it is handed one.
pub open spec fn sram_before(mem: Option<&mut SRAM>) -> Option<SramModel> {
    match mem {
        Some(m) => Some(m@),
        None => None,
    }
}

/// The lines that a run of `op` adds to the trace: those of the instructions
/// that produce its operands, in their order, and then its own.
pub open spec fn schedule(op: Insn) -> Seq<Seq<char>>
    decreases op, 0nat,
{
    match op {
        Insn::NoOp => Seq::empty(),
        Insn::Load(_, meta, _) => schedule(*meta.1).push(compile_text(op)),
        Insn::Store(_, _, meta, _) => schedule(*meta.1).push(compile_text(op)),
        Insn::Compute(_, _, _, args, _) => schedule_args(args, args.len()).push(compile_text(op)),
    }
}

/// The lines that the producers of the first `n` arguments add to the trace.
pub open spec fn schedule_args(args: Seq<(Id, Insn)>, n: nat) -> Seq<Seq<char>>
    decreases args, n,
{
    if n == 0 || n > args.len() {
        Seq::empty()
    } else {
        schedule_args(args, (n - 1) as nat) + schedule(args[n - 1].1)
    }
}

/// The instructions of a tree in the order in which a run performs them: the
/// producers of the operands first, in their order, then the instruction.
pub open spec fn program(op: Insn) -> Seq<Insn>
    decreases op, 0nat,
{
    match op {
        Insn::NoOp => Seq::empty(),
        Insn::Load(_, meta, _) => program(*meta.1).push(op),
        Insn::Store(_, _, meta, _) => program(*meta.1).push(op),
        Insn::Compute(_, _, _, args, _) => program_args(args, args.len()).push(op),
    }
}

/// The instructions that the producers of the first `n` arguments perform.
pub open spec fn program_args(args: Seq<(Id, Insn)>, n: nat) -> Seq<Insn>
    decreases args, n,
{
    if n == 0 || n > args.len() {
        Seq::empty()
    } else {
        program_args(args, (n - 1) as nat) + program(args[n - 1].1)
    }
}

/// The producers of the first arguments are performed first: the program of
/// `n` arguments is that of the first `i`, followed by the rest that is returned.
pub proof fn lemma_program_args_prefix(args: Seq<(Id, Insn)>, i: nat, n: nat) -> (rest: Seq<Insn>)
    requires
        i <= n <= args.len(),
    ensures
        program_args(args, n) == program_args(args, i) + rest,
    decreases n,
{
    if i < n {
        let rest = lemma_program_args_prefix(args, i, (n - 1) as nat);
        let more = rest + program(args[n - 1].1);
        assert(program_args(args, n) =~= program_args(args, i) + more);
        more
    } else {
        assert(program_args(args, n) =~= program_args(args, i) + Seq::<Insn>::empty());
        Seq::<Insn>::empty()
    }
}

/// The trace of a run shows the instructions of its program, line by line.
pub proof fn law_schedule_is_program_text(op: Insn)
    ensures
        schedule(op) == program(op).map_values(|insn: Insn| compile_text(insn)),
    decreases op, 0nat,
{
    let text = |insn: Insn| compile_text(insn);
    match op {
        Insn::NoOp => {
            assert(schedule(op) =~= program(op).map_values(text));
        },
        Insn::Load(_, meta, _) => {
            law_schedule_is_program_text(*meta.1);
            assert(schedule(op) =~= program(op).map_values(text));
        },
        Insn::Store(_, _, meta, _) => {
            law_schedule_is_program_text(*meta.1);
            assert(schedule(op) =~= program(op).map_values(text));
        },
        Insn::Compute(_, _, _, args, _) => {
            lemma_schedule_args_text(args, args.len());
            assert(schedule(op) =~= program(op).map_values(text));
        },
    }
}

proof fn lemma_schedule_args_text(args: Seq<(Id, Insn)>, n: nat)
    requires
        n <= args.len(),
    ensures
        schedule_args(args, n) == program_args(args, n).map_values(|insn: Insn| compile_text(insn)),
    decreases args, n,
{
    let text = |insn: Insn| compile_text(insn);
    if n == 0 {
        assert(schedule_args(args, n) =~= program_args(args, n).map_values(text));
    } else {
        lemma_schedule_args_text(args, (n - 1) as nat);
        law_schedule_is_program_text(args[n - 1].1);
        assert(schedule_args(args, n) =~= program_args(args, n).map_values(text));
    }
}

/// The lines of the first arguments come first in the schedule: the schedule
/// of `n` arguments is that of the first `i`, followed by the rest that is
/// returned.
pub proof fn lemma_schedule_args_prefix(args: Seq<(Id, Insn)>, i: nat, n: nat) -> (rest: Seq<
    Seq<char>,
>)
    requires
        i <= n <= args.len(),
    ensures
        schedule_args(args, n) == schedule_args(args, i) + rest,
    decreases n,
{
    if i < n {
        let rest = lemma_schedule_args_prefix(args, i, (n - 1) as nat);
        let more = rest + schedule(args[n - 1].1);
        assert(schedule_args(args, n) =~= schedule_args(args, i) + more);
        more
    } else {
        assert(schedule_args(args, n) =~= schedule_args(args, i) + Seq::<Seq<char>>::empty());
        Seq::<Seq<char>>::empty()
    }
}

/// Arguments without producers add nothing to the schedule.
pub proof fn lemma_schedule_args_flat(args: Seq<(Id, Insn)>, n: nat)
    requires
        n <= args.len(),
    ensures
        schedule_args(Seq::new(args.len(), |i: int| (args[i].0, Insn::NoOp)), n) == Seq::<
            Seq<char>,
        >::empty(),
    decreases n,
{
    reveal_with_fuel(schedule, 2);
    reveal_with_fuel(schedule_args, 2);
    let bare = Seq::new(args.len(), |i: int| (args[i].0, Insn::NoOp));
    if n > 0 {
        lemma_schedule_args_flat(args, (n - 1) as nat);
        assert(bare[n - 1].1 == Insn::NoOp);
        assert(schedule_args(bare, n) =~= Seq::<Seq<char>>::empty());
    }
}

} // verus!
