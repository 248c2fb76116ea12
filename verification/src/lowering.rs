//! Lowering of a tensor-program DAG to a tree of micro-instructions.
//!
//! The DAG is a store of nodes indexed by canonical id. The ids inside the
//! nodes are source ids: each of them is translated before it is used. A memo
//! remembers, per canonical id, the id under which a node was emitted, so that
//! a node that is shared is emitted once.
use crate::insn::{insn_of, is_host, Insn};
use crate::sim::{Id, Operators};
use std::collections::HashMap;
use vstd::prelude::*;
use vstd::string::StringExecFns;

verus! {

/// A node of the source DAG, with what the lowering reads of it.
#[derive(Clone, Debug, PartialEq, Eq)]
pub enum Node {
    /// A call of a host operator: the operator, then its arguments.
    RelayOperatorCall(Vec<Id>),
    /// A call on an accelerator: the accelerator function, the arguments and,
    /// in the last place, a slot that carries no value.
    AcceleratorCall(Vec<Id>),
    /// A load onto an accelerator: the accelerator function and the data.
    AcceleratorLoad(Id, Id),
    /// A store from an accelerator: the accelerator function and the data.
    AcceleratorStore(Id, Id),
    /// A generic compute of one argument: the operator and the argument.
    Compute(Id, Id),
    /// A pair of two accesses.
    AccessPair(Id, Id),
    /// An access to its child; it passes the child through.
    Access(Id),
    /// An inserted axis on its child; it passes the child through.
    AccessInsertAxis(Id),
    /// A broadcast of its child; it passes the child through.
    AccessBroadcast(Id),
    /// A literal tensor.
    AccessLiteral,
    /// A named tensor.
    AccessTensor,
    /// A flattened access to its child.
    AccessFlatten(Id),
    /// A layout tag, a number, a shape: a node that stands for no tensor.
    Metadata,
    /// Any other node.
    Other,
}

/// Why a DAG cannot be lowered. Each error names the id it concerns.
#[derive(PartialEq, Eq, Structural, Clone, Copy, Debug)]
pub enum LowerError {
    /// The source id has no canonical id.
    Untranslated(Id),
    /// The canonical id names no node of the store.
    Dangling(Id),
    /// The node at this id is one that cannot be lowered.
    Unsupported(Id),
    /// The analysis data at this id is not that of an accelerator function.
    NotAccelerator(Id),
    /// The call at this id has no argument that emits an instruction.
    EmptyCall(Id),
    /// The node at this id needs an operand, and its child emits nothing.
    MissingOperand(Id),
    /// The nodes below this id reach deeper than the store has nodes: the
    /// graph has a cycle.
    TooDeep(Id),
}

/// What the lowering reads besides the memo.
pub struct Context {
    /// The node store, indexed by canonical id.
    pub expr: Seq<Node>,
    /// The accelerator's name for each canonical id whose analysis data is
    /// that of an accelerator function.
    pub accelerators: Map<Id, String>,
    /// The canonical id of each source id.
    pub translation: Map<Id, Id>,
}

/// What lowering one node yields: the instruction with the id that labels it
/// (or nothing, for a node that stands for no tensor), and the memo afterwards.
pub struct Lowered {
    pub result: Result<Option<(Insn, Id)>, LowerError>,
    pub memo: Map<Id, Id>,
}

/// What lowering a list of arguments yields: those that emitted something,
/// each under its label, and the memo afterwards.
pub struct LoweredArgs {
    pub result: Result<Seq<(Id, Insn)>, LowerError>,
    pub memo: Map<Id, Id>,
}

/// The region of the host.
pub open spec fn host() -> Seq<char> {
    "host"@
}

/// The lowering stops with an error.
pub open spec fn fail(e: LowerError, memo: Map<Id, Id>) -> Lowered {
    Lowered { result: Err(e), memo }
}

/// The node emits `op` under the label `label` and is remembered under `cur`.
pub open spec fn emit(op: Insn, label: Id, cur: Id, memo: Map<Id, Id>) -> Lowered {
    Lowered { result: Ok(Some((op, label))), memo: memo.insert(cur, label) }
}

/// The arguments of a call that stand for values: all but the operator and,
/// for an accelerator call, all but the last slot too.
pub open spec fn call_args(node: Node) -> Seq<Id> {
    match node {
        Node::RelayOperatorCall(ids) => if ids@.len() >= 1 {
            ids@.subrange(1, ids@.len() as int)
        } else {
            Seq::empty()
        },
        Node::AcceleratorCall(ids) => if ids@.len() >= 2 {
            ids@.subrange(1, ids@.len() - 1)
        } else {
            Seq::empty()
        },
        _ => Seq::empty(),
    }
}

/// The instruction and label of a child that a node needs as its operand.
pub open spec fn operand(child: Lowered, cur: Id) -> Result<(Insn, Id), LowerError> {
    match child.result {
        Err(e) => Err(e),
        Ok(None) => Err(LowerError::MissingOperand(cur)),
        Ok(Some(pair)) => Ok(pair),
    }
}

/// The accelerator that the analysis data names at the translation of `region`.
pub open spec fn region_name(cx: Context, region: Id) -> Result<Seq<char>, LowerError> {
    if !cx.translation.contains_key(region) {
        Err(LowerError::Untranslated(region))
    } else if !cx.accelerators.contains_key(cx.translation[region]) {
        Err(LowerError::NotAccelerator(cx.translation[region]))
    } else {
        Ok(cx.accelerators[cx.translation[region]]@)
    }
}

/// A node that emits nothing itself and stands for its child.
pub open spec fn passes_through(node: Node) -> Option<Id> {
    match node {
        Node::Access(x) => Some(x),
        Node::AccessInsertAxis(x) => Some(x),
        Node::AccessBroadcast(x) => Some(x),
        _ => None,
    }
}

/// Lowers the node that the source id `id` names, going at most `depth` nodes
/// deep. A node that the memo knows is not lowered again: it yields `NoOp`
/// under the remembered label.
pub open spec fn lower(depth: nat, id: Id, cx: Context, memo: Map<Id, Id>) -> Lowered
    decreases depth, 2nat,
{
    if !cx.translation.contains_key(id) {
        fail(LowerError::Untranslated(id), memo)
    } else {
        let cur = cx.translation[id];
        if memo.contains_key(cur) {
            Lowered { result: Ok(Some((Insn::NoOp, memo[cur]))), memo }
        } else if cur >= cx.expr.len() {
            fail(LowerError::Dangling(cur), memo)
        } else if depth == 0 {
            fail(LowerError::TooDeep(cur), memo)
        } else {
            lower_node(depth, cur, cx, memo)
        }
    }
}

/// Lowers the node at the canonical id `cur`, which the memo does not know.
pub open spec fn lower_node(depth: nat, cur: Id, cx: Context, memo: Map<Id, Id>) -> Lowered
    recommends
        depth > 0,
        cur < cx.expr.len(),
    decreases depth, 1nat,
{
    if depth == 0 {
        fail(LowerError::TooDeep(cur), memo)
    } else {
        let below = (depth - 1) as nat;
        match cx.expr[cur as int] {
            Node::RelayOperatorCall(ids) => {
                let args = call_args(cx.expr[cur as int]);
                let kids = lower_each(below, args, args.len(), cx, memo);
                match kids.result {
                    Err(e) => fail(e, kids.memo),
                    Ok(pairs) => if pairs.len() == 0 {
                        fail(LowerError::EmptyCall(cur), kids.memo)
                    } else if !cx.translation.contains_key(ids@[0]) {
                        fail(LowerError::Untranslated(ids@[0]), kids.memo)
                    } else {
                        emit(
                            Insn::Compute(host(), cx.translation[ids@[0]], cur, pairs, 1),
                            cur,
                            cur,
                            kids.memo,
                        )
                    },
                }
            },
            Node::AcceleratorCall(ids) => {
                let args = call_args(cx.expr[cur as int]);
                let kids = lower_each(below, args, args.len(), cx, memo);
                match kids.result {
                    Err(e) => fail(e, kids.memo),
                    Ok(pairs) => if pairs.len() == 0 {
                        fail(LowerError::EmptyCall(cur), kids.memo)
                    } else {
                        match region_name(cx, ids@[0]) {
                            Err(e) => fail(e, kids.memo),
                            Ok(name) => emit(
                                Insn::Compute(name, cx.translation[ids@[0]], cur, pairs, 1),
                                cur,
                                cur,
                                kids.memo,
                            ),
                        }
                    },
                }
            },
            Node::AcceleratorLoad(region, data) => {
                let child = lower(below, data, cx, memo);
                match operand(child, cur) {
                    Err(e) => fail(e, child.memo),
                    Ok(pair) => match region_name(cx, region) {
                        Err(e) => fail(e, child.memo),
                        Ok(name) => emit(
                            Insn::Load(name, (pair.1, Box::new(pair.0)), 1),
                            pair.1,
                            cur,
                            child.memo,
                        ),
                    },
                }
            },
            Node::AcceleratorStore(region, data) => {
                let child = lower(below, data, cx, memo);
                match operand(child, cur) {
                    Err(e) => fail(e, child.memo),
                    Ok(pair) => match region_name(cx, region) {
                        Err(e) => fail(e, child.memo),
                        Ok(name) => emit(
                            Insn::Store(name, false, (pair.1, Box::new(pair.0)), 1),
                            pair.1,
                            cur,
                            child.memo,
                        ),
                    },
                }
            },
            Node::Compute(op, x) => {
                let child = lower(below, x, cx, memo);
                match operand(child, cur) {
                    Err(e) => fail(e, child.memo),
                    Ok(pair) => emit(
                        Insn::Compute(host(), op, cur, seq![(pair.1, pair.0)], 1),
                        cur,
                        cur,
                        child.memo,
                    ),
                }
            },
            Node::AccessPair(car, cdr) => {
                let kids = lower_each(below, seq![car, cdr], 2, cx, memo);
                match kids.result {
                    Err(e) => fail(e, kids.memo),
                    Ok(pairs) => if pairs.len() == 0 {
                        Lowered { result: Ok(None), memo: kids.memo }
                    } else {
                        emit(Insn::Compute(host(), cur, cur, pairs, 1), cur, cur, kids.memo)
                    },
                }
            },
            Node::Access(x) => lower(below, x, cx, memo),
            Node::AccessInsertAxis(x) => lower(below, x, cx, memo),
            Node::AccessBroadcast(x) => lower(below, x, cx, memo),
            Node::AccessLiteral => emit(
                Insn::Load(host(), (cur, Box::new(Insn::NoOp)), 1),
                cur,
                cur,
                memo,
            ),
            Node::AccessTensor => emit(
                Insn::Load(host(), (cur, Box::new(Insn::NoOp)), 1),
                cur,
                cur,
                memo,
            ),
            Node::AccessFlatten(x) => {
                let child = lower(below, x, cx, memo);
                match operand(child, cur) {
                    Err(e) => fail(e, child.memo),
                    Ok(pair) => emit(
                        Insn::Compute(host(), cur, cur, seq![(pair.1, pair.0)], 1),
                        cur,
                        cur,
                        child.memo,
                    ),
                }
            },
            Node::Metadata => Lowered { result: Ok(None), memo },
            Node::Other => fail(LowerError::Unsupported(cur), memo),
        }
    }
}

/// Lowers the first `n` of `ids` from left to right, each against the memo
/// that the one before it left, and collects those that emit something.
pub open spec fn lower_each(depth: nat, ids: Seq<Id>, n: nat, cx: Context, memo: Map<Id, Id>) -> LoweredArgs
    decreases depth, n + 3,
{
    if n == 0 || n > ids.len() {
        LoweredArgs { result: Ok(Seq::empty()), memo }
    } else {
        let before = lower_each(depth, ids, (n - 1) as nat, cx, memo);
        match before.result {
            Err(e) => before,
            Ok(pairs) => {
                let child = lower(depth, ids[n - 1], cx, before.memo);
                match child.result {
                    Err(e) => LoweredArgs { result: Err(e), memo: child.memo },
                    Ok(None) => LoweredArgs { result: Ok(pairs), memo: child.memo },
                    Ok(Some(pair)) => LoweredArgs {
                        result: Ok(pairs.push((pair.1, pair.0))),
                        memo: child.memo,
                    },
                }
            },
        }
    }
}

/// The arguments of an instruction as mathematics.
pub open spec fn pairs_view(pairs: Seq<(Id, Operators)>) -> Seq<(Id, Insn)> {
    Seq::new(pairs.len(), |i: int| (pairs[i].0, insn_of(pairs[i].1)))
}

/// What a lowering returned, as mathematics.
pub open spec fn lowered_view(res: Result<Option<(Operators, Id)>, LowerError>) -> Result<
    Option<(Insn, Id)>,
    LowerError,
> {
    match res {
        Err(e) => Err(e),
        Ok(None) => Ok(None),
        Ok(Some(pair)) => Ok(Some((pair.0@, pair.1))),
    }
}

/// What a lowering of arguments returned, as mathematics.
pub open spec fn args_view(res: Result<Vec<(Id, Operators)>, LowerError>) -> Result<
    Seq<(Id, Insn)>,
    LowerError,
> {
    match res {
        Err(e) => Err(e),
        Ok(pairs) => Ok(pairs_view(pairs@)),
    }
}

/// What the lowering reads, taken from the values it is given.
pub open spec fn context(
    expr: &Vec<Node>,
    accelerators: &HashMap<Id, String>,
    id_translation: &HashMap<Id, Id>,
) -> Context {
    Context { expr: expr@, accelerators: accelerators@, translation: id_translation@ }
}

/// The name of the accelerator at the translation of `region`.
fn lookup_region(
    region: Id,
    accelerators: &HashMap<Id, String>,
    id_translation: &HashMap<Id, Id>,
    Ghost(cx): Ghost<Context>,
) -> (res: Result<String, LowerError>)
    requires
        cx.accelerators == accelerators@,
        cx.translation == id_translation@,
    ensures
        match res {
            Ok(name) => region_name(cx, region) == Ok::<Seq<char>, LowerError>(name@),
            Err(e) => region_name(cx, region) == Err::<Seq<char>, LowerError>(e),
        },
{
    match id_translation.get(&region) {
        None => Err(LowerError::Untranslated(region)),
        Some(at) => match accelerators.get(at) {
            None => Err(LowerError::NotAccelerator(*at)),
            Some(name) => Ok(name.clone()),
        },
    }
}

/// What a successful lowering returned, as mathematics.
pub open spec fn emitted_view(res: Option<(Operators, Id)>) -> Option<(Insn, Id)> {
    match res {
        None => None,
        Some(pair) => Some((pair.0@, pair.1)),
    }
}

/// Lowers the program below `current_id` to a tree of micro-instructions.
///
/// The result is the instruction together with the canonical id that labels
/// it, or nothing for a node that stands for no tensor. The memo is brought
/// up to date. The graph has to be one that can be lowered: a caller that
/// does not know this of its graph calls `try_compile_instruction`.
pub fn compile_instruction(
    current_id: &Id,
    expr: &Vec<Node>,
    memo: &mut HashMap<Id, Id>,
    accelerators: &HashMap<Id, String>,
    id_translation: &HashMap<Id, Id>,
) -> (res: Option<(Operators, Id)>)
    requires
        lower(
            expr@.len(),
            *current_id,
            context(expr, accelerators, id_translation),
            old(memo)@,
        ).result is Ok,
    ensures
        Ok::<Option<(Insn, Id)>, LowerError>(emitted_view(res)) == lower(
            expr@.len(),
            *current_id,
            context(expr, accelerators, id_translation),
            old(memo)@,
        ).result,
        final(memo)@ == lower(
            expr@.len(),
            *current_id,
            context(expr, accelerators, id_translation),
            old(memo)@,
        ).memo,
{
    match try_compile_instruction(current_id, expr, memo, accelerators, id_translation) {
        Ok(res) => res,
        Err(_) => vstd::pervasive::unreached(),
    }
}

/// Lowers the program below `current_id` to a tree of micro-instructions, or
/// tells why the graph cannot be lowered.
///
/// The result is as that of `compile_instruction`. After an error the memo
/// holds what was lowered before the error. No path is followed deeper than
/// the store has nodes, so that a graph with a cycle is refused and not
/// followed for ever.
pub fn try_compile_instruction(
    current_id: &Id,
    expr: &Vec<Node>,
    memo: &mut HashMap<Id, Id>,
    accelerators: &HashMap<Id, String>,
    id_translation: &HashMap<Id, Id>,
) -> (res: Result<Option<(Operators, Id)>, LowerError>)
    ensures
        lowered_view(res) == lower(
            expr@.len(),
            *current_id,
            context(expr, accelerators, id_translation),
            old(memo)@,
        ).result,
        final(memo)@ == lower(
            expr@.len(),
            *current_id,
            context(expr, accelerators, id_translation),
            old(memo)@,
        ).memo,
{
    lower_within(expr.len(), *current_id, expr, memo, accelerators, id_translation)
}

/// Lowers the node that `id` names, at most `depth` nodes deep.
#[verifier::rlimit(60)]
fn lower_within(
    depth: usize,
    id: Id,
    expr: &Vec<Node>,
    memo: &mut HashMap<Id, Id>,
    accelerators: &HashMap<Id, String>,
    id_translation: &HashMap<Id, Id>,
) -> (res: Result<Option<(Operators, Id)>, LowerError>)
    ensures
        lowered_view(res) == lower(
            depth as nat,
            id,
            context(expr, accelerators, id_translation),
            old(memo)@,
        ).result,
        final(memo)@ == lower(
            depth as nat,
            id,
            context(expr, accelerators, id_translation),
            old(memo)@,
        ).memo,
    decreases depth, 2nat,
{
    proof {
        reveal_with_fuel(lower, 2);
        reveal_with_fuel(lower_node, 2);
    }
    let ghost cx = context(expr, accelerators, id_translation);
    let cur = match id_translation.get(&id) {
        None => {
            return Err(LowerError::Untranslated(id));
        },
        Some(cur) => *cur,
    };
    match memo.get(&cur) {
        Some(label) => {
            return Ok(Some((Operators::NoOp, *label)));
        },
        None => {},
    }
    if cur as usize >= expr.len() {
        return Err(LowerError::Dangling(cur));
    }
    if depth == 0 {
        return Err(LowerError::TooDeep(cur));
    }
    let below = depth - 1;
    match &expr[cur as usize] {
        Node::RelayOperatorCall(ids) => {
            let to = ids.len();
            let from = if to >= 1 {
                1
            } else {
                to
            };
            let pairs = match lower_args(
                below,
                ids,
                from,
                to,
                expr,
                memo,
                accelerators,
                id_translation,
            ) {
                Err(e) => {
                    return Err(e);
                },
                Ok(pairs) => pairs,
            };
            if pairs.len() == 0 {
                return Err(LowerError::EmptyCall(cur));
            }
            let op = match id_translation.get(&ids[0]) {
                None => {
                    return Err(LowerError::Untranslated(ids[0]));
                },
                Some(op) => *op,
            };
            memo.insert(cur, cur);
            let insn = Operators::Compute(String::from_str("host"), op, cur, pairs, 1);
            assert(insn@->Compute_3 =~= pairs_view(pairs@));
            return Ok(Some((insn, cur)));
        },
        Node::AcceleratorCall(ids) => {
            let len = ids.len();
            let (from, to) = if len >= 2 {
                (1, len - 1)
            } else {
                (len, len)
            };
            let pairs = match lower_args(
                below,
                ids,
                from,
                to,
                expr,
                memo,
                accelerators,
                id_translation,
            ) {
                Err(e) => {
                    return Err(e);
                },
                Ok(pairs) => pairs,
            };
            if pairs.len() == 0 {
                return Err(LowerError::EmptyCall(cur));
            }
            let name = match lookup_region(ids[0], accelerators, id_translation, Ghost(cx)) {
                Err(e) => {
                    return Err(e);
                },
                Ok(name) => name,
            };
            let op = match id_translation.get(&ids[0]) {
                None => {
                    return Err(LowerError::Untranslated(ids[0]));
                },
                Some(op) => *op,
            };
            memo.insert(cur, cur);
            let insn = Operators::Compute(name, op, cur, pairs, 1);
            assert(insn@->Compute_3 =~= pairs_view(pairs@));
            return Ok(Some((insn, cur)));
        },
        Node::AcceleratorLoad(region, data) => {
            let (sub, src) = match lower_within(
                below,
                *data,
                expr,
                memo,
                accelerators,
                id_translation,
            ) {
                Err(e) => {
                    return Err(e);
                },
                Ok(None) => {
                    return Err(LowerError::MissingOperand(cur));
                },
                Ok(Some(pair)) => pair,
            };
            let name = match lookup_region(*region, accelerators, id_translation, Ghost(cx)) {
                Err(e) => {
                    return Err(e);
                },
                Ok(name) => name,
            };
            memo.insert(cur, src);
            return Ok(Some((Operators::Load(name, (src, Box::new(sub)), 1), src)));
        },
        Node::AcceleratorStore(region, data) => {
            let (sub, dst) = match lower_within(
                below,
                *data,
                expr,
                memo,
                accelerators,
                id_translation,
            ) {
                Err(e) => {
                    return Err(e);
                },
                Ok(None) => {
                    return Err(LowerError::MissingOperand(cur));
                },
                Ok(Some(pair)) => pair,
            };
            let name = match lookup_region(*region, accelerators, id_translation, Ghost(cx)) {
                Err(e) => {
                    return Err(e);
                },
                Ok(name) => name,
            };
            memo.insert(cur, dst);
            return Ok(Some((Operators::Store(name, false, (dst, Box::new(sub)), 1), dst)));
        },
        Node::Compute(op, x) => {
            let (sub, label) = match lower_within(
                below,
                *x,
                expr,
                memo,
                accelerators,
                id_translation,
            ) {
                Err(e) => {
                    return Err(e);
                },
                Ok(None) => {
                    return Err(LowerError::MissingOperand(cur));
                },
                Ok(Some(pair)) => pair,
            };
            memo.insert(cur, cur);
            let ghost sub_view = sub@;
            let mut pairs: Vec<(Id, Operators)> = Vec::new();
            pairs.push((label, sub));
            let insn = Operators::Compute(String::from_str("host"), *op, cur, pairs, 1);
            assert(insn@->Compute_3 =~= seq![(label, sub_view)]);
            return Ok(Some((insn, cur)));
        },
        Node::AccessPair(car, cdr) => {
            let mut both: Vec<Id> = Vec::new();
            both.push(*car);
            both.push(*cdr);
            assert(both@ =~= seq![*car, *cdr]);
            assert(both@.subrange(0, 2) =~= both@);
            let pairs = match lower_args(
                below,
                &both,
                0,
                2,
                expr,
                memo,
                accelerators,
                id_translation,
            ) {
                Err(e) => {
                    return Err(e);
                },
                Ok(pairs) => pairs,
            };
            if pairs.len() == 0 {
                return Ok(None);
            } else {
                memo.insert(cur, cur);
                let insn = Operators::Compute(String::from_str("host"), cur, cur, pairs, 1);
                assert(insn@->Compute_3 =~= pairs_view(pairs@));
                return Ok(Some((insn, cur)));
            }
        },
        Node::Access(x) => {
            return lower_within(below, *x, expr, memo, accelerators, id_translation);
        },
        Node::AccessInsertAxis(x) => {
            return lower_within(below, *x, expr, memo, accelerators, id_translation);
        },
        Node::AccessBroadcast(x) => {
            return lower_within(below, *x, expr, memo, accelerators, id_translation);
        },
        Node::AccessLiteral => {
            memo.insert(cur, cur);
            let insn = Operators::Load(String::from_str("host"), (cur, Box::new(Operators::NoOp)), 1);
            assert(insn_of(Operators::NoOp) == Insn::NoOp);
            return Ok(Some((insn, cur)));
        },
        Node::AccessTensor => {
            memo.insert(cur, cur);
            let insn = Operators::Load(String::from_str("host"), (cur, Box::new(Operators::NoOp)), 1);
            assert(insn_of(Operators::NoOp) == Insn::NoOp);
            return Ok(Some((insn, cur)));
        },
        Node::AccessFlatten(x) => {
            let (sub, label) = match lower_within(
                below,
                *x,
                expr,
                memo,
                accelerators,
                id_translation,
            ) {
                Err(e) => {
                    return Err(e);
                },
                Ok(None) => {
                    return Err(LowerError::MissingOperand(cur));
                },
                Ok(Some(pair)) => pair,
            };
            memo.insert(cur, cur);
            let ghost sub_view = sub@;
            let mut pairs: Vec<(Id, Operators)> = Vec::new();
            pairs.push((label, sub));
            let insn = Operators::Compute(String::from_str("host"), cur, cur, pairs, 1);
            assert(insn@->Compute_3 =~= seq![(label, sub_view)]);
            return Ok(Some((insn, cur)));
        },
        Node::Metadata => {
            return Ok(None);
        },
        Node::Other => {
            return Err(LowerError::Unsupported(cur));
        },
    }
}

/// Lowers the ids of `ids` from `from` up to `to`, from left to right.
#[verifier::rlimit(60)]
fn lower_args(
    depth: usize,
    ids: &Vec<Id>,
    from: usize,
    to: usize,
    expr: &Vec<Node>,
    memo: &mut HashMap<Id, Id>,
    accelerators: &HashMap<Id, String>,
    id_translation: &HashMap<Id, Id>,
) -> (res: Result<Vec<(Id, Operators)>, LowerError>)
    requires
        from <= to <= ids@.len(),
    ensures
        args_view(res) == lower_each(
            depth as nat,
            ids@.subrange(from as int, to as int),
            (to - from) as nat,
            context(expr, accelerators, id_translation),
            old(memo)@,
        ).result,
        final(memo)@ == lower_each(
            depth as nat,
            ids@.subrange(from as int, to as int),
            (to - from) as nat,
            context(expr, accelerators, id_translation),
            old(memo)@,
        ).memo,
        res matches Ok(pairs) ==> pairs@.len() <= to - from,
    decreases depth, 3nat,
{
    let ghost cx = context(expr, accelerators, id_translation);
    let ghost args = ids@.subrange(from as int, to as int);
    let mut pairs: Vec<(Id, Operators)> = Vec::new();
    let mut i: usize = from;
    proof {
        assert(pairs_view(pairs@) =~= Seq::empty());
    }
    while i < to
        invariant
            from <= i <= to <= ids@.len(),
            args == ids@.subrange(from as int, to as int),
            cx == context(expr, accelerators, id_translation),
            lower_each(depth as nat, args, (i - from) as nat, cx, old(memo)@).result == Ok::<
                Seq<(Id, Insn)>,
                LowerError,
            >(pairs_view(pairs@)),
            lower_each(depth as nat, args, (i - from) as nat, cx, old(memo)@).memo == memo@,
            pairs@.len() <= i - from,
        decreases to - i,
    {
        let ghost before = pairs_view(pairs@);
        assert(args[i - from] == ids@[i as int]);
        match lower_within(depth, ids[i], expr, memo, accelerators, id_translation) {
            Err(e) => {
                proof {
                    lemma_lower_each_error(
                        depth as nat,
                        args,
                        (i - from + 1) as nat,
                        (to - from) as nat,
                        cx,
                        old(memo)@,
                    );
                }
                return Err(e);
            },
            Ok(None) => {},
            Ok(Some(pair)) => {
                let ghost pair_view = (pair.1, pair.0@);
                pairs.push((pair.1, pair.0));
                proof {
                    assert(pairs_view(pairs@) =~= before.push(pair_view));
                }
            },
        }
        i = i + 1;
    }
    Ok(pairs)
}

/// Once an argument fails, the arguments after it are not lowered.
pub proof fn lemma_lower_each_error(
    depth: nat,
    ids: Seq<Id>,
    n: nat,
    m: nat,
    cx: Context,
    memo: Map<Id, Id>,
)
    requires
        n <= m <= ids.len(),
        lower_each(depth, ids, n, cx, memo).result is Err,
    ensures
        lower_each(depth, ids, m, cx, memo) == lower_each(depth, ids, n, cx, memo),
    decreases m,
{
    if n < m {
        lemma_lower_each_error(depth, ids, n, (m - 1) as nat, cx, memo);
    }
}

/// The id that labels what an instruction produces.
pub open spec fn label_of(op: Insn) -> Option<Id> {
    match op {
        Insn::Compute(_, _, dst, _, _) => Some(dst),
        Insn::Load(_, meta, _) => Some(meta.0),
        Insn::Store(_, _, meta, _) => Some(meta.0),
        Insn::NoOp => None,
    }
}

/// The instruction in an operand's slot yields the operand: it is labelled
/// with the operand's id, or it is `NoOp` because the operand was produced
/// before.
pub open spec fn produces(op: Insn, id: Id) -> bool {
    op is NoOp || label_of(op) == Some(id)
}

/// Every operand in the tree is yielded by the instruction in its slot.
pub open spec fn well_labelled(op: Insn) -> bool
    decreases op,
{
    match op {
        Insn::Compute(_, _, _, args, _) => forall|i: int|
            0 <= i < args.len() ==> produces((#[trigger] args[i]).1, args[i].0) && well_labelled(
                args[i].1,
            ),
        Insn::Load(_, meta, _) => produces(*meta.1, meta.0) && well_labelled(*meta.1),
        Insn::Store(_, _, meta, _) => produces(*meta.1, meta.0) && well_labelled(*meta.1),
        Insn::NoOp => true,
    }
}

/// Every pair of a list of arguments is well labelled.
pub open spec fn args_labelled(pairs: Seq<(Id, Insn)>) -> bool {
    forall|i: int|
        0 <= i < pairs.len() ==> produces((#[trigger] pairs[i]).1, pairs[i].0) && well_labelled(
            pairs[i].1,
        )
}

/// The memo gained entries only for nodes that do not pass their child through.
pub open spec fn memo_grew(before: Map<Id, Id>, after: Map<Id, Id>, cx: Context) -> bool {
    forall|k: Id| #[trigger]
        after.contains_key(k) ==> before.contains_key(k) || (k < cx.expr.len() && passes_through(
            cx.expr[k as int],
        ) is None)
}

proof fn lemma_lower_sound(depth: nat, id: Id, cx: Context, memo: Map<Id, Id>)
    ensures
        memo_grew(memo, lower(depth, id, cx, memo).memo, cx),
        lower(depth, id, cx, memo).result matches Ok(Some(pair)) ==> produces(pair.0, pair.1)
            && well_labelled(pair.0),
    decreases depth, 2nat,
{
    if cx.translation.contains_key(id) {
        let cur = cx.translation[id];
        if !memo.contains_key(cur) && cur < cx.expr.len() && depth > 0 {
            lemma_node_sound(depth, cur, cx, memo);
        }
    }
}

proof fn lemma_node_sound(depth: nat, cur: Id, cx: Context, memo: Map<Id, Id>)
    requires
        depth > 0,
        cur < cx.expr.len(),
    ensures
        memo_grew(memo, lower_node(depth, cur, cx, memo).memo, cx),
        lower_node(depth, cur, cx, memo).result matches Ok(Some(pair)) ==> produces(pair.0, pair.1)
            && well_labelled(pair.0),
    decreases depth, 1nat,
{
    let below = (depth - 1) as nat;
    let node = cx.expr[cur as int];
    match node {
        Node::RelayOperatorCall(ids) => {
            let args = call_args(node);
            lemma_each_sound(below, args, args.len(), cx, memo);
        },
        Node::AcceleratorCall(ids) => {
            let args = call_args(node);
            lemma_each_sound(below, args, args.len(), cx, memo);
        },
        Node::AcceleratorLoad(region, data) => {
            lemma_lower_sound(below, data, cx, memo);
        },
        Node::AcceleratorStore(region, data) => {
            lemma_lower_sound(below, data, cx, memo);
        },
        Node::Compute(op, x) => {
            lemma_lower_sound(below, x, cx, memo);
            let child = lower(below, x, cx, memo);
            if let Ok(pair) = operand(child, cur) {
                let args = seq![(pair.1, pair.0)];
                assert(args[0] == (pair.1, pair.0));
                assert(args_labelled(args));
            }
        },
        Node::AccessPair(car, cdr) => {
            lemma_each_sound(below, seq![car, cdr], 2, cx, memo);
        },
        Node::Access(x) => {
            lemma_lower_sound(below, x, cx, memo);
        },
        Node::AccessInsertAxis(x) => {
            lemma_lower_sound(below, x, cx, memo);
        },
        Node::AccessBroadcast(x) => {
            lemma_lower_sound(below, x, cx, memo);
        },
        Node::AccessFlatten(x) => {
            lemma_lower_sound(below, x, cx, memo);
            let child = lower(below, x, cx, memo);
            if let Ok(pair) = operand(child, cur) {
                let args = seq![(pair.1, pair.0)];
                assert(args[0] == (pair.1, pair.0));
                assert(args_labelled(args));
            }
        },
        Node::AccessLiteral => {
            assert(well_labelled(Insn::NoOp));
        },
        Node::AccessTensor => {
            assert(well_labelled(Insn::NoOp));
        },
        _ => {},
    }
}

proof fn lemma_each_sound(depth: nat, ids: Seq<Id>, n: nat, cx: Context, memo: Map<Id, Id>)
    ensures
        memo_grew(memo, lower_each(depth, ids, n, cx, memo).memo, cx),
        lower_each(depth, ids, n, cx, memo).result matches Ok(pairs) ==> args_labelled(pairs),
    decreases depth, n + 3,
{
    if !(n == 0 || n > ids.len()) {
        lemma_each_sound(depth, ids, (n - 1) as nat, cx, memo);
        let before = lower_each(depth, ids, (n - 1) as nat, cx, memo);
        if before.result is Ok {
            lemma_lower_sound(depth, ids[n - 1], cx, before.memo);
        }
    }
}

/// The labels of the instructions of a tree.
pub open spec fn emitted(op: Insn) -> Set<Id>
    decreases op, 0nat,
{
    match op {
        Insn::NoOp => Set::empty(),
        Insn::Load(_, meta, _) => emitted(*meta.1).insert(meta.0),
        Insn::Store(_, _, meta, _) => emitted(*meta.1).insert(meta.0),
        Insn::Compute(_, _, dst, args, _) => emitted_args(args, args.len()).insert(dst),
    }
}

/// The labels of the instructions that produce the first `n` arguments.
pub open spec fn emitted_args(args: Seq<(Id, Insn)>, n: nat) -> Set<Id>
    decreases args, n,
{
    if n == 0 || n > args.len() {
        Set::empty()
    } else {
        emitted_args(args, (n - 1) as nat).union(emitted(args[n - 1].1))
    }
}

/// Every operand of the tree is supplied when the tree is run from left to
/// right, producers before users, on top of the tensors `known`: the
/// instruction in an operand's slot is labelled with the operand's id, or it
/// is `NoOp` and the id is known or the label of an instruction that stands
/// earlier in the tree. A load on the host needs no operand: it brings its
/// tensor in from outside.
pub open spec fn supplied(op: Insn, known: Set<Id>) -> bool
    decreases op, 0nat,
{
    match op {
        Insn::NoOp => true,
        Insn::Load(region, meta, _) => if *meta.1 is NoOp {
            is_host(region) || known.contains(meta.0)
        } else {
            label_of(*meta.1) == Some(meta.0) && supplied(*meta.1, known)
        },
        Insn::Store(_, _, meta, _) => if *meta.1 is NoOp {
            known.contains(meta.0)
        } else {
            label_of(*meta.1) == Some(meta.0) && supplied(*meta.1, known)
        },
        Insn::Compute(_, _, _, args, _) => supplied_args(args, args.len(), known),
    }
}

/// The first `n` arguments are supplied, each on top of what is known and
/// what the arguments before it emitted.
pub open spec fn supplied_args(args: Seq<(Id, Insn)>, n: nat, known: Set<Id>) -> bool
    decreases args, n,
{
    if n == 0 || n > args.len() {
        true
    } else {
        let earlier = known.union(emitted_args(args, (n - 1) as nat));
        &&& supplied_args(args, (n - 1) as nat, known)
        &&& if args[n - 1].1 is NoOp {
            earlier.contains(args[n - 1].0)
        } else {
            label_of(args[n - 1].1) == Some(args[n - 1].0) && supplied(args[n - 1].1, earlier)
        }
    }
}

/// Every label that the memo remembers is among `known`.
pub open spec fn memo_within(memo: Map<Id, Id>, known: Set<Id>) -> bool {
    forall|k: Id| #[trigger] memo.contains_key(k) ==> known.contains(memo[k])
}

/// What lowering a node yields is supplied on top of `known`, and the memo
/// remembers only what is known or emitted.
pub open spec fn lowered_supplied(out: Lowered, before: Map<Id, Id>, known: Set<Id>) -> bool {
    match out.result {
        Ok(Some(pair)) => {
            &&& if pair.0 is NoOp {
                known.contains(pair.1)
            } else {
                label_of(pair.0) == Some(pair.1) && supplied(pair.0, known)
            }
            &&& memo_within(out.memo, known.union(emitted(pair.0)))
        },
        Ok(None) => out.memo == before,
        Err(_) => true,
    }
}

/// What a longer list of arguments emits and needs is, for its first
/// arguments, what the shorter list emits and needs.
proof fn lemma_args_prefix(args: Seq<(Id, Insn)>, last: (Id, Insn), n: nat, known: Set<Id>)
    requires
        n <= args.len(),
    ensures
        emitted_args(args.push(last), n) == emitted_args(args, n),
        supplied_args(args.push(last), n, known) == supplied_args(args, n, known),
    decreases n,
{
    if n > 0 {
        lemma_args_prefix(args, last, (n - 1) as nat, known);
        assert(args.push(last)[n - 1] == args[n - 1]);
    }
}

proof fn lemma_lower_supplied(depth: nat, id: Id, cx: Context, memo: Map<Id, Id>, known: Set<Id>)
    requires
        memo_within(memo, known),
    ensures
        lowered_supplied(lower(depth, id, cx, memo), memo, known),
    decreases depth, 2nat,
{
    if cx.translation.contains_key(id) {
        let cur = cx.translation[id];
        if memo.contains_key(cur) {
            assert(known.union(emitted(Insn::NoOp)) =~= known);
        } else if cur < cx.expr.len() && depth > 0 {
            lemma_node_supplied(depth, cur, cx, memo, known);
        }
    }
}

proof fn lemma_single_supplied(pair: (Insn, Id), known: Set<Id>)
    requires
        if pair.0 is NoOp {
            known.contains(pair.1)
        } else {
            label_of(pair.0) == Some(pair.1) && supplied(pair.0, known)
        },
    ensures
        supplied_args(seq![(pair.1, pair.0)], 1, known),
        emitted_args(seq![(pair.1, pair.0)], 1) == emitted(pair.0),
{
    reveal_with_fuel(supplied_args, 2);
    reveal_with_fuel(emitted_args, 2);
    let args = seq![(pair.1, pair.0)];
    assert(args[0] == (pair.1, pair.0));
    assert(known.union(emitted_args(args, 0)) =~= known);
    assert(emitted_args(args, 1) =~= emitted(pair.0));
}

#[verifier::rlimit(60)]
proof fn lemma_node_supplied(depth: nat, cur: Id, cx: Context, memo: Map<Id, Id>, known: Set<Id>)
    requires
        depth > 0,
        cur < cx.expr.len(),
        memo_within(memo, known),
    ensures
        lowered_supplied(lower_node(depth, cur, cx, memo), memo, known),
    decreases depth, 1nat,
{
    let below = (depth - 1) as nat;
    let node = cx.expr[cur as int];
    let out = lower_node(depth, cur, cx, memo);
    match node {
        Node::RelayOperatorCall(ids) => {
            let args = call_args(node);
            lemma_each_supplied(below, args, args.len(), cx, memo, known);
        },
        Node::AcceleratorCall(ids) => {
            let args = call_args(node);
            lemma_each_supplied(below, args, args.len(), cx, memo, known);
        },
        Node::AccessPair(car, cdr) => {
            lemma_each_supplied(below, seq![car, cdr], 2, cx, memo, known);
        },
        Node::AcceleratorLoad(region, data) => {
            lemma_lower_supplied(below, data, cx, memo, known);
            if let Ok(Some(done)) = out.result {
                let pair = lower(below, data, cx, memo).result->Ok_0->Some_0;
                assert(emitted(done.0) =~= emitted(pair.0).insert(pair.1));
            }
        },
        Node::AcceleratorStore(region, data) => {
            lemma_lower_supplied(below, data, cx, memo, known);
            if let Ok(Some(done)) = out.result {
                let pair = lower(below, data, cx, memo).result->Ok_0->Some_0;
                assert(emitted(done.0) =~= emitted(pair.0).insert(pair.1));
            }
        },
        Node::Compute(op, x) => {
            lemma_lower_supplied(below, x, cx, memo, known);
            if let Ok(Some(done)) = out.result {
                let pair = lower(below, x, cx, memo).result->Ok_0->Some_0;
                lemma_single_supplied(pair, known);
            }
        },
        Node::AccessFlatten(x) => {
            lemma_lower_supplied(below, x, cx, memo, known);
            if let Ok(Some(done)) = out.result {
                let pair = lower(below, x, cx, memo).result->Ok_0->Some_0;
                lemma_single_supplied(pair, known);
            }
        },
        Node::Access(x) => {
            lemma_lower_supplied(below, x, cx, memo, known);
        },
        Node::AccessInsertAxis(x) => {
            lemma_lower_supplied(below, x, cx, memo, known);
        },
        Node::AccessBroadcast(x) => {
            lemma_lower_supplied(below, x, cx, memo, known);
        },
        Node::AccessLiteral => {
            reveal_with_fuel(emitted, 2);
            reveal_with_fuel(supplied, 2);
        },
        Node::AccessTensor => {
            reveal_with_fuel(emitted, 2);
            reveal_with_fuel(supplied, 2);
        },
        _ => {},
    }
}

/// What lowering a list of arguments yields is supplied on top of `known`.
pub open spec fn args_supplied(out: LoweredArgs, before: Map<Id, Id>, known: Set<Id>) -> bool {
    out.result matches Ok(pairs) ==> {
        &&& supplied_args(pairs, pairs.len(), known)
        &&& memo_within(out.memo, known.union(emitted_args(pairs, pairs.len())))
        &&& pairs.len() == 0 ==> out.memo == before
    }
}

#[verifier::rlimit(60)]
proof fn lemma_each_supplied(
    depth: nat,
    ids: Seq<Id>,
    n: nat,
    cx: Context,
    memo: Map<Id, Id>,
    known: Set<Id>,
)
    requires
        memo_within(memo, known),
    ensures
        args_supplied(lower_each(depth, ids, n, cx, memo), memo, known),
    decreases depth, n + 3,
{
    if n == 0 || n > ids.len() {
        assert(known.union(emitted_args(Seq::<(Id, Insn)>::empty(), 0)) =~= known);
    } else {
        lemma_each_supplied(depth, ids, (n - 1) as nat, cx, memo, known);
        let before = lower_each(depth, ids, (n - 1) as nat, cx, memo);
        if let Ok(pairs) = before.result {
            let earlier = known.union(emitted_args(pairs, pairs.len()));
            lemma_lower_supplied(depth, ids[n - 1], cx, before.memo, earlier);
            let child = lower(depth, ids[n - 1], cx, before.memo);
            if let Ok(Some(pair)) = child.result {
                let more = pairs.push((pair.1, pair.0));
                lemma_args_prefix(pairs, (pair.1, pair.0), pairs.len(), known);
                assert(more[more.len() - 1] == (pair.1, pair.0));
                assert(emitted_args(more, more.len()) =~= emitted_args(pairs, pairs.len()).union(
                    emitted(pair.0),
                ));
                assert(earlier.union(emitted(pair.0)) =~= known.union(
                    emitted_args(more, more.len()),
                ));
            }
        }
    }
}

/// In every tree that the lowering emits, each operand is supplied: its slot
/// holds an instruction that is labelled with the operand's id, or `NoOp` for
/// an id that an instruction earlier in the tree is labelled with or that the
/// memo remembered at the start. From an empty memo nothing is known, so
/// that every `NoOp` operand names the label of an earlier instruction. The
/// label that the lowering returns beside the tree is the tree's own, and the
/// memo remembers afterwards only what was known or what the tree emits.
pub proof fn law_operands_are_labelled(
    depth: nat,
    id: Id,
    cx: Context,
    memo: Map<Id, Id>,
    known: Set<Id>,
)
    requires
        memo_within(memo, known),
    ensures
        lower(depth, id, cx, memo).result matches Ok(Some(pair)) ==> {
            &&& produces(pair.0, pair.1)
            &&& well_labelled(pair.0)
            &&& supplied(pair.0, known)
            &&& pair.0 is NoOp ==> known.contains(pair.1)
            &&& memo_within(lower(depth, id, cx, memo).memo, known.union(emitted(pair.0)))
        },
        lower(depth, id, cx, memo).result matches Ok(None) ==> lower(depth, id, cx, memo).memo
            == memo,
{
    lemma_lower_sound(depth, id, cx, memo);
    lemma_lower_supplied(depth, id, cx, memo, known);
}

/// Lowering is idempotent through the memo: when a source id was lowered to
/// an instruction, lowering it again against the memo that the first lowering
/// left yields `NoOp` under the same label and leaves the memo as it is.
pub proof fn law_lowering_twice(depth: nat, id: Id, cx: Context, memo: Map<Id, Id>)
    requires
        lower(depth, id, cx, memo).result matches Ok(Some(_)),
    ensures
        ({
            let first = lower(depth, id, cx, memo);
            let again = lower(depth, id, cx, first.memo);
            &&& again.result == Ok::<Option<(Insn, Id)>, LowerError>(
                Some((Insn::NoOp, first.result->Ok_0->Some_0.1)),
            )
            &&& again.memo == first.memo
        }),
    decreases depth,
{
    let cur = cx.translation[id];
    let first = lower(depth, id, cx, memo);
    if !memo.contains_key(cur) {
        let below = (depth - 1) as nat;
        let node = cx.expr[cur as int];
        match passes_through(node) {
            Some(x) => {
                assert(first == lower(below, x, cx, memo));
                law_lowering_twice(below, x, cx, memo);
                lemma_lower_sound(below, x, cx, memo);
                assert(!first.memo.contains_key(cur));
            },
            None => {
                assert(first == lower_node(depth, cur, cx, memo));
                assert(first.memo.contains_key(cur));
            },
        }
    }
}

/// The lowering stopped because the graph reaches deeper than was allowed.
pub open spec fn too_deep(out: Result<Option<(Insn, Id)>, LowerError>) -> bool {
    out matches Err(LowerError::TooDeep(_))
}

/// A lowering that stayed within its depth comes out the same at any greater
/// depth: the depth only serves to refuse a graph with a cycle.
pub proof fn law_depth_is_enough(depth: nat, deeper: nat, id: Id, cx: Context, memo: Map<Id, Id>)
    requires
        depth <= deeper,
        !too_deep(lower(depth, id, cx, memo).result),
    ensures
        lower(deeper, id, cx, memo) == lower(depth, id, cx, memo),
    decreases depth, 2nat,
{
    if cx.translation.contains_key(id) {
        let cur = cx.translation[id];
        if !memo.contains_key(cur) && cur < cx.expr.len() {
            lemma_node_depth(depth, deeper, cur, cx, memo);
        }
    }
}

proof fn lemma_node_depth(depth: nat, deeper: nat, cur: Id, cx: Context, memo: Map<Id, Id>)
    requires
        0 < depth <= deeper,
        cur < cx.expr.len(),
        !too_deep(lower_node(depth, cur, cx, memo).result),
    ensures
        lower_node(deeper, cur, cx, memo) == lower_node(depth, cur, cx, memo),
    decreases depth, 1nat,
{
    let below = (depth - 1) as nat;
    let deeper_below = (deeper - 1) as nat;
    let node = cx.expr[cur as int];
    match node {
        Node::RelayOperatorCall(ids) => {
            let args = call_args(node);
            lemma_each_depth(below, deeper_below, args, args.len(), cx, memo);
        },
        Node::AcceleratorCall(ids) => {
            let args = call_args(node);
            lemma_each_depth(below, deeper_below, args, args.len(), cx, memo);
        },
        Node::AcceleratorLoad(region, data) => {
            law_depth_is_enough(below, deeper_below, data, cx, memo);
        },
        Node::AcceleratorStore(region, data) => {
            law_depth_is_enough(below, deeper_below, data, cx, memo);
        },
        Node::Compute(op, x) => {
            law_depth_is_enough(below, deeper_below, x, cx, memo);
        },
        Node::AccessPair(car, cdr) => {
            lemma_each_depth(below, deeper_below, seq![car, cdr], 2, cx, memo);
        },
        Node::Access(x) => {
            law_depth_is_enough(below, deeper_below, x, cx, memo);
        },
        Node::AccessInsertAxis(x) => {
            law_depth_is_enough(below, deeper_below, x, cx, memo);
        },
        Node::AccessBroadcast(x) => {
            law_depth_is_enough(below, deeper_below, x, cx, memo);
        },
        Node::AccessFlatten(x) => {
            law_depth_is_enough(below, deeper_below, x, cx, memo);
        },
        _ => {},
    }
}

proof fn lemma_each_depth(
    depth: nat,
    deeper: nat,
    ids: Seq<Id>,
    n: nat,
    cx: Context,
    memo: Map<Id, Id>,
)
    requires
        depth <= deeper,
        !(lower_each(depth, ids, n, cx, memo).result matches Err(LowerError::TooDeep(_))),
    ensures
        lower_each(deeper, ids, n, cx, memo) == lower_each(depth, ids, n, cx, memo),
    decreases depth, n + 3,
{
    if !(n == 0 || n > ids.len()) {
        lemma_each_depth(depth, deeper, ids, (n - 1) as nat, cx, memo);
        let before = lower_each(depth, ids, (n - 1) as nat, cx, memo);
        if before.result is Ok {
            law_depth_is_enough(depth, deeper, ids[n - 1], cx, before.memo);
        }
    }
}

/// The source ids that the lowering follows from a node.
pub open spec fn children(node: Node) -> Seq<Id> {
    match node {
        Node::RelayOperatorCall(_) => call_args(node),
        Node::AcceleratorCall(_) => call_args(node),
        Node::AcceleratorLoad(_, data) => seq![data],
        Node::AcceleratorStore(_, data) => seq![data],
        Node::Compute(_, x) => seq![x],
        Node::AccessPair(car, cdr) => seq![car, cdr],
        Node::Access(x) => seq![x],
        Node::AccessInsertAxis(x) => seq![x],
        Node::AccessBroadcast(x) => seq![x],
        Node::AccessFlatten(x) => seq![x],
        _ => Seq::empty(),
    }
}

/// The store holds children before parents: every child that the lowering
/// follows has a smaller canonical id than its parent.
pub open spec fn ordered(cx: Context) -> bool {
    forall|i: int, j: int|
        #![trigger children(cx.expr[i])[j]]
        0 <= i < cx.expr.len() && 0 <= j < children(cx.expr[i]).len()
            && cx.translation.contains_key(children(cx.expr[i])[j]) ==> cx.translation[children(
            cx.expr[i],
        )[j]] < i
}

/// The depth reaches down to the node that `id` names.
pub open spec fn reaches(depth: nat, id: Id, cx: Context) -> bool {
    cx.translation.contains_key(id) && cx.translation[id] < cx.expr.len() ==> depth
        > cx.translation[id]
}

/// A store that holds children before parents is never refused for its
/// depth: the number of its nodes is depth enough for each of them.
pub proof fn law_ordered_store_is_deep_enough(depth: nat, id: Id, cx: Context, memo: Map<Id, Id>)
    requires
        ordered(cx),
        reaches(depth, id, cx),
    ensures
        !too_deep(lower(depth, id, cx, memo).result),
    decreases depth, 2nat,
{
    if cx.translation.contains_key(id) {
        let cur = cx.translation[id];
        if !memo.contains_key(cur) && cur < cx.expr.len() {
            lemma_node_deep_enough(depth, cur, cx, memo);
        }
    }
}

proof fn lemma_node_deep_enough(depth: nat, cur: Id, cx: Context, memo: Map<Id, Id>)
    requires
        ordered(cx),
        cur < cx.expr.len(),
        depth > cur,
    ensures
        !too_deep(lower_node(depth, cur, cx, memo).result),
    decreases depth, 1nat,
{
    let below = (depth - 1) as nat;
    let node = cx.expr[cur as int];
    let kids = children(node);
    assert forall|j: int| 0 <= j < kids.len() implies reaches(below, #[trigger] kids[j], cx) by {
        assert(kids[j] == children(cx.expr[cur as int])[j]);
    }
    match node {
        Node::RelayOperatorCall(ids) => {
            lemma_each_deep_enough(below, kids, kids.len(), cx, memo);
        },
        Node::AcceleratorCall(ids) => {
            lemma_each_deep_enough(below, kids, kids.len(), cx, memo);
        },
        Node::AccessPair(car, cdr) => {
            lemma_each_deep_enough(below, kids, 2, cx, memo);
        },
        Node::AcceleratorLoad(region, data) => {
            assert(kids[0] == data);
            law_ordered_store_is_deep_enough(below, data, cx, memo);
        },
        Node::AcceleratorStore(region, data) => {
            assert(kids[0] == data);
            law_ordered_store_is_deep_enough(below, data, cx, memo);
        },
        Node::Compute(op, x) => {
            assert(kids[0] == x);
            law_ordered_store_is_deep_enough(below, x, cx, memo);
        },
        Node::Access(x) => {
            assert(kids[0] == x);
            law_ordered_store_is_deep_enough(below, x, cx, memo);
        },
        Node::AccessInsertAxis(x) => {
            assert(kids[0] == x);
            law_ordered_store_is_deep_enough(below, x, cx, memo);
        },
        Node::AccessBroadcast(x) => {
            assert(kids[0] == x);
            law_ordered_store_is_deep_enough(below, x, cx, memo);
        },
        Node::AccessFlatten(x) => {
            assert(kids[0] == x);
            law_ordered_store_is_deep_enough(below, x, cx, memo);
        },
        _ => {},
    }
}

proof fn lemma_each_deep_enough(depth: nat, ids: Seq<Id>, n: nat, cx: Context, memo: Map<Id, Id>)
    requires
        ordered(cx),
        forall|j: int| 0 <= j < ids.len() ==> reaches(depth, #[trigger] ids[j], cx),
    ensures
        !(lower_each(depth, ids, n, cx, memo).result matches Err(LowerError::TooDeep(_))),
    decreases depth, n + 3,
{
    if !(n == 0 || n > ids.len()) {
        lemma_each_deep_enough(depth, ids, (n - 1) as nat, cx, memo);
        let before = lower_each(depth, ids, (n - 1) as nat, cx, memo);
        if before.result is Ok {
            law_ordered_store_is_deep_enough(depth, ids[n - 1], cx, before.memo);
        }
    }
}

/// A node that passes its child through emits nothing of its own: unless the
/// memo knows the node, lowering it is lowering its child, and yields the
/// same instruction, the same label and the same memo.
pub proof fn law_pass_through(depth: nat, id: Id, cx: Context, memo: Map<Id, Id>)
    requires
        cx.translation.contains_key(id),
        cx.translation[id] < cx.expr.len(),
        !memo.contains_key(cx.translation[id]),
        passes_through(cx.expr[cx.translation[id] as int]) is Some,
        !too_deep(lower(depth, id, cx, memo).result),
    ensures
        lower(depth, id, cx, memo) == lower(
            depth,
            passes_through(cx.expr[cx.translation[id] as int])->0,
            cx,
            memo,
        ),
{
    reveal_with_fuel(lower, 2);
    reveal_with_fuel(lower_node, 2);
    let child = passes_through(cx.expr[cx.translation[id] as int])->0;
    assert(depth > 0);
    assert(lower(depth, id, cx, memo) == lower((depth - 1) as nat, child, cx, memo));
    law_depth_is_enough((depth - 1) as nat, depth, child, cx, memo);
}

} // verus!
