//! A program whose operands are all supplied runs on the host without a
//! missing operand.
use crate::insn::{execute, is_host, lemma_first_absent, program, program_args, Insn};
use crate::lowering::{
    call_args, emitted, emitted_args, label_of, lower, lower_each, lower_node, supplied,
    supplied_args, Context, Node,
};
use crate::sim::{Id, SimError};
use crate::steps::{performed, step_result, stepped, subject, Machine};
use vstd::prelude::*;

verus! {

/// Every instruction of the tree is a compute or a load on the host.
pub open spec fn host_only(op: Insn) -> bool
    decreases op, 0nat,
{
    match op {
        Insn::NoOp => true,
        Insn::Load(region, meta, _) => is_host(region) && host_only(*meta.1),
        Insn::Store(_, _, _, _) => false,
        Insn::Compute(region, _, _, args, _) => is_host(region) && host_only_args(
            args,
            args.len(),
        ),
    }
}

/// The producers of the first `n` arguments work on the host only.
pub open spec fn host_only_args(args: Seq<(Id, Insn)>, n: nat) -> bool
    decreases args, n,
{
    if n == 0 || n > args.len() {
        true
    } else {
        host_only_args(args, (n - 1) as nat) && host_only(args[n - 1].1)
    }
}

/// The instruction is a compute or a load on the host.
pub open spec fn on_host(op: Insn) -> bool {
    match op {
        Insn::Compute(region, _, _, _, _) => is_host(region),
        Insn::Load(region, _, _) => is_host(region),
        _ => false,
    }
}

/// The tensors that the first `n` instructions of a program yield.
pub open spec fn yielded(prog: Seq<Insn>, n: int) -> Set<Id> {
    Set::new(|id: Id| exists|i: int| 0 <= i < n && i < prog.len() && subject(#[trigger] prog[i]) == id)
}

/// The operands of the instruction are known or yielded by the first `at`
/// instructions of the program.
pub open spec fn operands_ready(prog: Seq<Insn>, at: int, op: Insn, known: Set<Id>) -> bool {
    op matches Insn::Compute(_, _, _, args, _) ==> forall|k: int|
        0 <= k < args.len() ==> known.contains((#[trigger] args[k]).0) || yielded(prog, at).contains(
            args[k].0,
        )
}

/// The program works on the host only, and each of its instructions finds
/// its operands known or yielded by an instruction before it.
pub open spec fn flat_supplied(prog: Seq<Insn>, known: Set<Id>) -> bool {
    forall|j: int|
        0 <= j < prog.len() ==> on_host(#[trigger] prog[j]) && operands_ready(
            prog,
            j,
            prog[j],
            known,
        )
}

/// Two supplied programs in a row, the second on top of what the first
/// yields, are a supplied program.
#[verifier::rlimit(60)]
proof fn lemma_flat_then(first: Seq<Insn>, then: Seq<Insn>, known: Set<Id>, more: Set<Id>)
    requires
        flat_supplied(first, known),
        flat_supplied(then, more),
        forall|id: Id| more.contains(id) ==> known.contains(id) || yielded(
            first,
            first.len() as int,
        ).contains(id),
    ensures
        flat_supplied(first + then, known),
        forall|id: Id|
            yielded(first, first.len() as int).contains(id) || yielded(
                then,
                then.len() as int,
            ).contains(id) ==> yielded(first + then, (first + then).len() as int).contains(id),
{
    let all = first + then;
    assert forall|j: int| 0 <= j < all.len() implies on_host(#[trigger] all[j]) && operands_ready(
        all,
        j,
        all[j],
        known,
    ) by {
        if j < first.len() {
            assert(all[j] == first[j]);
            if let Insn::Compute(_, _, _, args, _) = all[j] {
                assert forall|k: int| 0 <= k < args.len() implies known.contains(
                    (#[trigger] args[k]).0,
                ) || yielded(all, j).contains(args[k].0) by {
                    if yielded(first, j).contains(args[k].0) {
                        let i = choose|i: int|
                            0 <= i < j && i < first.len() && subject(#[trigger] first[i])
                                == args[k].0;
                        assert(all[i] == first[i]);
                    }
                }
            }
        } else {
            let at = j - first.len();
            assert(all[j] == then[at]);
            if let Insn::Compute(_, _, _, args, _) = all[j] {
                assert forall|k: int| 0 <= k < args.len() implies known.contains(
                    (#[trigger] args[k]).0,
                ) || yielded(all, j).contains(args[k].0) by {
                    let id = args[k].0;
                    if yielded(then, at).contains(id) {
                        let i = choose|i: int|
                            0 <= i < at && i < then.len() && subject(#[trigger] then[i]) == id;
                        assert(all[first.len() + i] == then[i]);
                    } else {
                        assert(more.contains(id));
                        if !known.contains(id) {
                            let i = choose|i: int|
                                0 <= i < first.len() && i < first.len() && subject(
                                    #[trigger] first[i],
                                ) == id;
                            assert(all[i] == first[i]);
                        }
                    }
                }
            }
        }
    }
    assert forall|id: Id|
        yielded(first, first.len() as int).contains(id) || yielded(
            then,
            then.len() as int,
        ).contains(id) implies yielded(all, all.len() as int).contains(id) by {
        if yielded(first, first.len() as int).contains(id) {
            let i = choose|i: int|
                0 <= i < first.len() && i < first.len() && subject(#[trigger] first[i]) == id;
            assert(all[i] == first[i]);
        } else {
            let i = choose|i: int|
                0 <= i < then.len() && i < then.len() && subject(#[trigger] then[i]) == id;
            assert(all[first.len() + i] == then[i]);
        }
    }
}

/// A supplied program stays supplied when more is known.
proof fn lemma_flat_more(prog: Seq<Insn>, known: Set<Id>, more: Set<Id>)
    requires
        flat_supplied(prog, known),
        known.subset_of(more),
    ensures
        flat_supplied(prog, more),
{
    assert forall|j: int| 0 <= j < prog.len() implies on_host(#[trigger] prog[j])
        && operands_ready(prog, j, prog[j], more) by {
        assert(operands_ready(prog, j, prog[j], known));
    }
}

/// The tree as a program: it is supplied, and it yields what the tree emits.
#[verifier::rlimit(60)]
proof fn lemma_tree_supplied(op: Insn, known: Set<Id>)
    requires
        host_only(op),
        supplied(op, known),
    ensures
        flat_supplied(program(op), known),
        forall|id: Id|
            emitted(op).contains(id) ==> yielded(program(op), program(op).len() as int).contains(
                id,
            ),
    decreases op, 0nat,
{
    let prog = program(op);
    match op {
        Insn::NoOp => {},
        Insn::Load(_, meta, _) => {
            let sub = *meta.1;
            let before = program(sub);
            if !(sub is NoOp) {
                lemma_tree_supplied(sub, known);
            }
            assert(prog =~= before + seq![op]);
            assert(flat_supplied(seq![op], known));
            lemma_flat_then(before, seq![op], known, known);
            assert(yielded(seq![op], 1).contains(meta.0)) by {
                assert(subject(seq![op][0]) == meta.0);
            }
            assert forall|id: Id| emitted(op).contains(id) implies yielded(
                prog,
                prog.len() as int,
            ).contains(id) by {
                if id != meta.0 {
                    assert(emitted(sub).contains(id));
                    assert(yielded(before, before.len() as int).contains(id));
                }
            }
        },
        Insn::Store(_, _, _, _) => {},
        Insn::Compute(_, _, dst, args, _) => {
            let before = program_args(args, args.len());
            lemma_args_supplied(args, args.len(), known);
            assert(prog =~= before + seq![op]);
            let more = known.union(yielded(before, before.len() as int));
            assert(flat_supplied(seq![op], more)) by {
                assert forall|k: int| 0 <= k < args.len() implies more.contains(
                    (#[trigger] args[k]).0,
                ) || yielded(seq![op], 0).contains(args[k].0) by {
                    lemma_operand_found(args, args.len(), known, k);
                }
            }
            lemma_flat_then(before, seq![op], known, more);
            assert(yielded(seq![op], 1).contains(dst)) by {
                assert(subject(seq![op][0]) == dst);
            }
            assert forall|id: Id| emitted(op).contains(id) implies yielded(
                prog,
                prog.len() as int,
            ).contains(id) by {
                if id != dst {
                    assert(emitted_args(args, args.len()).contains(id));
                    assert(yielded(before, before.len() as int).contains(id));
                }
            }
        },
    }
}

/// Each of the first `n` arguments is known or emitted by their producers.
proof fn lemma_operand_found(args: Seq<(Id, Insn)>, n: nat, known: Set<Id>, k: int)
    requires
        n <= args.len(),
        0 <= k < n,
        supplied_args(args, n, known),
    ensures
        known.contains(args[k].0) || emitted_args(args, n).contains(args[k].0),
    decreases n,
{
    if k < n - 1 {
        lemma_operand_found(args, (n - 1) as nat, known, k);
    } else {
        let sub = args[n - 1].1;
        if !(sub is NoOp) {
            assert(label_of(sub) == Some(args[k].0));
            assert(emitted(sub).contains(args[k].0));
        }
    }
}

/// The producers of the first `n` arguments as a program: it is supplied, and
/// it yields what they emit.
proof fn lemma_args_supplied(args: Seq<(Id, Insn)>, n: nat, known: Set<Id>)
    requires
        n <= args.len(),
        host_only_args(args, n),
        supplied_args(args, n, known),
    ensures
        flat_supplied(program_args(args, n), known),
        forall|id: Id|
            emitted_args(args, n).contains(id) ==> yielded(
                program_args(args, n),
                program_args(args, n).len() as int,
            ).contains(id),
    decreases args, n,
{
    if n > 0 {
        let before = program_args(args, (n - 1) as nat);
        let sub = args[n - 1].1;
        lemma_args_supplied(args, (n - 1) as nat, known);
        let earlier = known.union(emitted_args(args, (n - 1) as nat));
        if !(sub is NoOp) {
            lemma_tree_supplied(sub, earlier);
        }
        lemma_flat_then(before, program(sub), known, earlier);
        let prog = program_args(args, n);
        assert(prog == before + program(sub));
        assert forall|id: Id| emitted_args(args, n).contains(id) implies yielded(
            prog,
            prog.len() as int,
        ).contains(id) by {
            if emitted_args(args, (n - 1) as nat).contains(id) {
                assert(yielded(before, before.len() as int).contains(id));
            } else {
                assert(emitted(sub).contains(id));
                assert(yielded(program(sub), program(sub).len() as int).contains(id));
            }
        }
    }
}

/// Whatever is known or yielded by the first `k` steps of a run of a
/// supplied program is in DRAM after them, none of them failed, and no SRAM
/// was touched.
#[verifier::rlimit(60)]
proof fn lemma_flat_run(
    prog: Seq<Insn>,
    known: Set<Id>,
    states: Seq<Machine>,
    res: Result<(), SimError>,
    k: int,
)
    requires
        flat_supplied(prog, known),
        known.subset_of(states[0].dram.dom()),
        stepped(prog, states, res),
        0 <= k < states.len(),
    ensures
        states[k].srams == states[0].srams,
        forall|id: Id|
            known.contains(id) || yielded(prog, k).contains(id) ==> states[k].dram.contains_key(id),
        k >= 1 ==> step_result(states, k - 1, res) is Ok,
    decreases k,
{
    if k > 0 {
        let at = k - 1;
        lemma_flat_run(prog, known, states, res, at);
        let op = prog[at];
        let before = states[at];
        let after = states[at + 1];
        let step = step_result(states, at, res);
        assert(performed(op, before.srams, after.srams, before.dram, after.dram, Set::empty(), step));
        assert(on_host(op) && operands_ready(prog, at, op, known));
        if let Insn::Compute(_, _, _, args, _) = op {
            assert forall|j: int| 0 <= j < args.len() implies before.dram.contains_key(
                (#[trigger] args[j]).0,
            ) by {}
            lemma_first_absent(args, before.dram, args.len() as int);
        }
        assert(step == execute(op, None, before.dram).result);
        assert(after.dram == execute(op, None, before.dram).dram);
        assert forall|id: Id|
            known.contains(id) || yielded(prog, k).contains(id) implies after.dram.contains_key(
            id,
        ) by {
            if !known.contains(id) {
                let i = choose|i: int|
                    0 <= i < k && i < prog.len() && subject(#[trigger] prog[i]) == id;
                if i < at {
                    assert(yielded(prog, at).contains(id));
                }
            }
        }
    }
}

/// A tree that works on the host only and whose operands are all supplied
/// runs without an error: every compute finds its operands in DRAM when it
/// is performed. Afterwards DRAM holds what was known and every tensor that
/// the tree emits, and no SRAM was touched. For the tree that a lowering from
/// an empty memo returns nothing has to be known.
pub proof fn law_supplied_host_program_runs(
    op: Insn,
    known: Set<Id>,
    states: Seq<Machine>,
    res: Result<(), SimError>,
)
    requires
        host_only(op),
        supplied(op, known),
        known.subset_of(states[0].dram.dom()),
        stepped(program(op), states, res),
    ensures
        res is Ok,
        states.last().srams == states[0].srams,
        forall|id: Id|
            known.contains(id) || emitted(op).contains(id) ==> states.last().dram.contains_key(id),
{
    let prog = program(op);
    lemma_tree_supplied(op, known);
    let last = states.len() - 1;
    lemma_flat_run(prog, known, states, res, last);
    if res is Err {
        assert(step_result(states, last - 1, res) == res);
    }
}

/// No node of the store works on an accelerator.
pub open spec fn no_accelerators(cx: Context) -> bool {
    forall|i: int|
        0 <= i < cx.expr.len() ==> !((#[trigger] cx.expr[i]) is AcceleratorCall) && !(
        cx.expr[i] is AcceleratorLoad) && !(cx.expr[i] is AcceleratorStore)
}

proof fn lemma_host_args_prefix(args: Seq<(Id, Insn)>, last: (Id, Insn), n: nat)
    requires
        n <= args.len(),
    ensures
        host_only_args(args.push(last), n) == host_only_args(args, n),
    decreases n,
{
    if n > 0 {
        lemma_host_args_prefix(args, last, (n - 1) as nat);
        assert(args.push(last)[n - 1] == args[n - 1]);
    }
}

/// A store without accelerator nodes is lowered to a tree that works on the
/// host only.
pub proof fn law_host_store_is_lowered_to_host(depth: nat, id: Id, cx: Context, memo: Map<Id, Id>)
    requires
        no_accelerators(cx),
    ensures
        lower(depth, id, cx, memo).result matches Ok(Some(pair)) ==> host_only(pair.0),
    decreases depth, 2nat,
{
    if cx.translation.contains_key(id) {
        let cur = cx.translation[id];
        if !memo.contains_key(cur) && cur < cx.expr.len() && depth > 0 {
            lemma_node_host(depth, cur, cx, memo);
        }
    }
}

proof fn lemma_single_host(pair: (Insn, Id))
    requires
        host_only(pair.0),
    ensures
        host_only_args(seq![(pair.1, pair.0)], 1),
{
    reveal_with_fuel(host_only_args, 2);
    assert(seq![(pair.1, pair.0)][0] == (pair.1, pair.0));
}

proof fn lemma_node_host(depth: nat, cur: Id, cx: Context, memo: Map<Id, Id>)
    requires
        depth > 0,
        cur < cx.expr.len(),
        no_accelerators(cx),
    ensures
        lower_node(depth, cur, cx, memo).result matches Ok(Some(pair)) ==> host_only(pair.0),
    decreases depth, 1nat,
{
    let below = (depth - 1) as nat;
    let node = cx.expr[cur as int];
    let out = lower_node(depth, cur, cx, memo);
    match node {
        Node::RelayOperatorCall(ids) => {
            let args = call_args(node);
            lemma_each_host(below, args, args.len(), cx, memo);
        },
        Node::AccessPair(car, cdr) => {
            lemma_each_host(below, seq![car, cdr], 2, cx, memo);
        },
        Node::Compute(op, x) => {
            law_host_store_is_lowered_to_host(below, x, cx, memo);
            if out.result is Ok {
                lemma_single_host(lower(below, x, cx, memo).result->Ok_0->Some_0);
            }
        },
        Node::AccessFlatten(x) => {
            law_host_store_is_lowered_to_host(below, x, cx, memo);
            if out.result is Ok {
                lemma_single_host(lower(below, x, cx, memo).result->Ok_0->Some_0);
            }
        },
        Node::Access(x) => {
            law_host_store_is_lowered_to_host(below, x, cx, memo);
        },
        Node::AccessInsertAxis(x) => {
            law_host_store_is_lowered_to_host(below, x, cx, memo);
        },
        Node::AccessBroadcast(x) => {
            law_host_store_is_lowered_to_host(below, x, cx, memo);
        },
        Node::AccessLiteral => {
            reveal_with_fuel(host_only, 2);
        },
        Node::AccessTensor => {
            reveal_with_fuel(host_only, 2);
        },
        _ => {},
    }
}

proof fn lemma_each_host(depth: nat, ids: Seq<Id>, n: nat, cx: Context, memo: Map<Id, Id>)
    requires
        no_accelerators(cx),
    ensures
        lower_each(depth, ids, n, cx, memo).result matches Ok(pairs) ==> host_only_args(
            pairs,
            pairs.len(),
        ),
    decreases depth, n + 3,
{
    if !(n == 0 || n > ids.len()) {
        lemma_each_host(depth, ids, (n - 1) as nat, cx, memo);
        let before = lower_each(depth, ids, (n - 1) as nat, cx, memo);
        if let Ok(pairs) = before.result {
            law_host_store_is_lowered_to_host(depth, ids[n - 1], cx, before.memo);
            let child = lower(depth, ids[n - 1], cx, before.memo);
            if let Ok(Some(pair)) = child.result {
                lemma_host_args_prefix(pairs, (pair.1, pair.0), pairs.len());
                let more = pairs.push((pair.1, pair.0));
                assert(more[more.len() - 1] == (pair.1, pair.0));
            }
        }
    }
}

} // verus!
