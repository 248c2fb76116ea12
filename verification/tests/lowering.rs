use dtr_sim::heuristics::LRU;
use dtr_sim::lowering::{compile_instruction, try_compile_instruction, LowerError, Node};
use dtr_sim::memory::{DRAM, SRAM};
use dtr_sim::sim::{JitSim, Operators};
use std::collections::{HashMap, HashSet};

fn identity(n: u32) -> HashMap<u32, u32> {
    (0..n).map(|i| (i, i)).collect()
}

fn noop() -> Box<Operators> {
    Box::new(Operators::NoOp)
}

fn host_load(id: u32) -> Operators {
    Operators::Load("host".to_string(), (id, noop()), 1)
}

fn accelerators() -> HashMap<u32, String> {
    let mut acc = HashMap::new();
    acc.insert(0, "A".to_string());
    acc
}

#[test]
fn single_host_compute() {
    let expr = vec![Node::Metadata, Node::AccessTensor, Node::AccessTensor, Node::AccessPair(1, 2)];
    let mut memo = HashMap::new();
    let lowered =
        try_compile_instruction(&3, &expr, &mut memo, &HashMap::new(), &identity(4)).unwrap().unwrap();
    let expected = Operators::Compute(
        "host".to_string(),
        3,
        3,
        vec![(1, host_load(1)), (2, host_load(2))],
        1,
    );
    assert_eq!(lowered, (expected, 3));
    let mut sim = JitSim::new(LRU::new());
    let mut srams = vec![("A".to_string(), SRAM::new(1024))];
    let mut dram = DRAM::new();
    assert_eq!(sim.run(&lowered.0, &mut srams, &mut dram, &HashSet::new()), Ok(()));
    assert_eq!(
        sim.trace,
        vec![
            "(load host 1)".to_string(),
            "(load host 2)".to_string(),
            "(compute host 3 3 1 2)".to_string(),
        ]
    );
    assert_eq!(srams[0].1.trip_count, 0);
}

#[test]
fn accelerator_roundtrip_is_lowered_and_run() {
    let expr = vec![
        Node::Other,
        Node::Metadata,
        Node::Metadata,
        Node::Metadata,
        Node::AccessTensor,
        Node::AcceleratorLoad(0, 4),
        Node::AcceleratorCall(vec![0, 5, 1]),
        Node::AcceleratorStore(0, 6),
    ];
    let mut memo = HashMap::new();
    let lowered =
        try_compile_instruction(&7, &expr, &mut memo, &accelerators(), &identity(8)).unwrap().unwrap();
    let load = Operators::Load("A".to_string(), (4, Box::new(host_load(4))), 1);
    let call = Operators::Compute("A".to_string(), 0, 6, vec![(4, load)], 1);
    let store = Operators::Store("A".to_string(), false, (6, Box::new(call)), 1);
    assert_eq!(lowered, (store, 6));
    assert_eq!(memo.get(&4), Some(&4));
    assert_eq!(memo.get(&5), Some(&4));
    assert_eq!(memo.get(&6), Some(&6));
    assert_eq!(memo.get(&7), Some(&6));
    let mut sim = JitSim::new(LRU::new());
    let mut srams = vec![("A".to_string(), SRAM::new(1024))];
    let mut dram = DRAM::new();
    assert_eq!(sim.run(&lowered.0, &mut srams, &mut dram, &HashSet::new()), Ok(()));
    assert_eq!(srams[0].1.trip_count, 2);
}

#[test]
fn shared_tensor_is_loaded_once() {
    let expr = vec![
        Node::Metadata,
        Node::AccessTensor,
        Node::Compute(10, 1),
        Node::Compute(11, 1),
        Node::AccessPair(2, 3),
    ];
    let mut memo = HashMap::new();
    let lowered =
        try_compile_instruction(&4, &expr, &mut memo, &HashMap::new(), &identity(5)).unwrap().unwrap();
    let first = Operators::Compute("host".to_string(), 10, 2, vec![(1, host_load(1))], 1);
    let second = Operators::Compute("host".to_string(), 11, 3, vec![(1, Operators::NoOp)], 1);
    let parent = Operators::Compute("host".to_string(), 4, 4, vec![(2, first), (3, second)], 1);
    assert_eq!(lowered, (parent, 4));
}

#[test]
fn lowering_twice_yields_noop_with_the_same_id() {
    let expr = vec![Node::Other, Node::AccessTensor, Node::AcceleratorLoad(0, 1)];
    let mut memo = HashMap::new();
    let first = try_compile_instruction(&2, &expr, &mut memo, &accelerators(), &identity(3)).unwrap();
    let (_, label) = first.unwrap();
    assert_eq!(label, 1);
    let after_first = memo.clone();
    let second = try_compile_instruction(&2, &expr, &mut memo, &accelerators(), &identity(3)).unwrap();
    assert_eq!(second, Some((Operators::NoOp, 1)));
    assert_eq!(memo, after_first);
}

#[test]
fn flattened_access_is_lowered_once() {
    let expr = vec![Node::Metadata, Node::AccessTensor, Node::AccessFlatten(1)];
    let mut memo = HashMap::new();
    let first = try_compile_instruction(&2, &expr, &mut memo, &HashMap::new(), &identity(3)).unwrap();
    let expected = Operators::Compute("host".to_string(), 2, 2, vec![(1, host_load(1))], 1);
    assert_eq!(first, Some((expected, 2)));
    assert_eq!(memo.get(&2), Some(&2));
    let after_first = memo.clone();
    let second = try_compile_instruction(&2, &expr, &mut memo, &HashMap::new(), &identity(3)).unwrap();
    assert_eq!(second, Some((Operators::NoOp, 2)));
    assert_eq!(memo, after_first);
}

#[test]
fn pass_through_nodes_emit_what_their_child_emits() {
    for parent in [Node::Access(1), Node::AccessInsertAxis(1), Node::AccessBroadcast(1)] {
        let expr = vec![Node::Metadata, Node::AccessTensor, parent];
        let mut memo = HashMap::new();
        let through =
            try_compile_instruction(&2, &expr, &mut memo, &HashMap::new(), &identity(3)).unwrap();
        let mut memo_child = HashMap::new();
        let child =
            try_compile_instruction(&1, &expr, &mut memo_child, &HashMap::new(), &identity(3)).unwrap();
        assert_eq!(through, child);
        assert_eq!(through, Some((host_load(1), 1)));
        assert_eq!(memo, memo_child);
        assert_eq!(memo.get(&2), None);
    }
}

#[test]
fn pass_through_of_metadata_emits_nothing() {
    let expr = vec![Node::Metadata, Node::Access(0)];
    let mut memo = HashMap::new();
    assert_eq!(try_compile_instruction(&1, &expr, &mut memo, &HashMap::new(), &identity(2)), Ok(None));
    assert!(memo.is_empty());
}

#[test]
fn metadata_emits_nothing() {
    let expr = vec![Node::Metadata];
    let mut memo = HashMap::new();
    assert_eq!(try_compile_instruction(&0, &expr, &mut memo, &HashMap::new(), &identity(1)), Ok(None));
    assert!(memo.is_empty());
}

#[test]
fn literal_is_loaded_on_the_host() {
    let expr = vec![Node::AccessLiteral];
    let mut memo = HashMap::new();
    let lowered = try_compile_instruction(&0, &expr, &mut memo, &HashMap::new(), &identity(1)).unwrap();
    assert_eq!(lowered, Some((host_load(0), 0)));
    assert_eq!(memo.get(&0), Some(&0));
}

#[test]
fn ids_are_translated_at_every_boundary() {
    // Source ids 10.. name the canonical ids 0..
    let expr = vec![Node::Other, Node::AccessTensor, Node::RelayOperatorCall(vec![10, 11, 11])];
    let translation: HashMap<u32, u32> = [(10, 0), (11, 1), (12, 2)].into_iter().collect();
    let mut memo = HashMap::new();
    let lowered =
        try_compile_instruction(&12, &expr, &mut memo, &HashMap::new(), &translation).unwrap().unwrap();
    let expected = Operators::Compute(
        "host".to_string(),
        0,
        2,
        vec![(1, host_load(1)), (1, Operators::NoOp)],
        1,
    );
    assert_eq!(lowered, (expected, 2));
    assert_eq!(memo.len(), 2);
}

#[test]
fn operator_call_skips_arguments_that_emit_nothing() {
    let expr = vec![
        Node::Other,
        Node::Metadata,
        Node::AccessTensor,
        Node::RelayOperatorCall(vec![0, 1, 2, 1]),
    ];
    let mut memo = HashMap::new();
    let lowered =
        try_compile_instruction(&3, &expr, &mut memo, &HashMap::new(), &identity(4)).unwrap().unwrap();
    let expected = Operators::Compute("host".to_string(), 0, 3, vec![(2, host_load(2))], 1);
    assert_eq!(lowered, (expected, 3));
}

#[test]
fn accelerator_call_leaves_out_the_last_slot() {
    let expr = vec![
        Node::Other,
        Node::AccessTensor,
        Node::AccessTensor,
        Node::AcceleratorCall(vec![0, 1, 2]),
    ];
    let mut memo = HashMap::new();
    let lowered =
        try_compile_instruction(&3, &expr, &mut memo, &accelerators(), &identity(4)).unwrap().unwrap();
    let expected = Operators::Compute("A".to_string(), 0, 3, vec![(1, host_load(1))], 1);
    assert_eq!(lowered, (expected, 3));
    assert_eq!(memo.get(&2), None);
}

#[test]
fn generic_compute_keeps_its_operator_untranslated() {
    let expr = vec![Node::AccessTensor, Node::Compute(77, 5)];
    let translation: HashMap<u32, u32> = [(5, 0), (6, 1)].into_iter().collect();
    let mut memo = HashMap::new();
    let lowered =
        try_compile_instruction(&6, &expr, &mut memo, &HashMap::new(), &translation).unwrap().unwrap();
    let expected = Operators::Compute("host".to_string(), 77, 1, vec![(0, host_load(0))], 1);
    assert_eq!(lowered, (expected, 1));
}

#[test]
fn pair_of_metadata_emits_nothing_and_is_not_remembered() {
    let expr = vec![Node::Metadata, Node::Metadata, Node::AccessPair(0, 1)];
    let mut memo = HashMap::new();
    assert_eq!(try_compile_instruction(&2, &expr, &mut memo, &HashMap::new(), &identity(3)), Ok(None));
    assert!(memo.is_empty());
    assert_eq!(try_compile_instruction(&2, &expr, &mut memo, &HashMap::new(), &identity(3)), Ok(None));
}

#[test]
fn call_on_a_pair_that_emits_nothing_is_refused() {
    let expr = vec![
        Node::Other,
        Node::Metadata,
        Node::AccessPair(1, 1),
        Node::RelayOperatorCall(vec![0, 2, 2]),
    ];
    let mut memo = HashMap::new();
    assert_eq!(
        try_compile_instruction(&3, &expr, &mut memo, &HashMap::new(), &identity(4)),
        Err(LowerError::EmptyCall(3))
    );
    assert!(memo.is_empty());
}

#[test]
fn a_pair_that_emits_is_remembered() {
    let expr = vec![Node::Metadata, Node::AccessTensor, Node::AccessPair(0, 1)];
    let mut memo = HashMap::new();
    let first = try_compile_instruction(&2, &expr, &mut memo, &HashMap::new(), &identity(3));
    assert!(matches!(first, Ok(Some((Operators::Compute(..), 2)))));
    assert_eq!(
        try_compile_instruction(&2, &expr, &mut memo, &HashMap::new(), &identity(3)),
        Ok(Some((Operators::NoOp, 2)))
    );
}

#[test]
fn compile_instruction_lowers_a_graph_that_can_be_lowered() {
    let expr = vec![Node::Metadata, Node::AccessTensor, Node::AccessTensor, Node::AccessPair(1, 2)];
    let mut memo = HashMap::new();
    let lowered = compile_instruction(&3, &expr, &mut memo, &HashMap::new(), &identity(4));
    let expected = Operators::Compute(
        "host".to_string(),
        3,
        3,
        vec![(1, host_load(1)), (2, host_load(2))],
        1,
    );
    assert_eq!(lowered, Some((expected, 3)));
    assert_eq!(memo.len(), 3);
    assert_eq!(compile_instruction(&0, &expr, &mut memo, &HashMap::new(), &identity(4)), None);
}

#[test]
fn a_lowered_host_program_finds_every_operand() {
    let expr = vec![
        Node::Other,
        Node::AccessTensor,
        Node::Compute(7, 1),
        Node::AccessFlatten(2),
        Node::AccessPair(3, 1),
        Node::RelayOperatorCall(vec![0, 4, 3, 2]),
    ];
    let mut memo = HashMap::new();
    let lowered = compile_instruction(&5, &expr, &mut memo, &HashMap::new(), &identity(6)).unwrap();
    let mut sim = JitSim::new(LRU::new());
    let mut srams: Vec<(String, SRAM)> = Vec::new();
    let mut dram = DRAM::new();
    assert_eq!(sim.run(&lowered.0, &mut srams, &mut dram, &HashSet::new()), Ok(()));
    for id in 1..=5u32 {
        assert!(dtr_sim::sim::Memory::contains(&dram, &id));
    }
}

#[test]
fn pair_with_one_emitting_child() {
    let expr = vec![Node::Metadata, Node::AccessTensor, Node::AccessPair(0, 1)];
    let mut memo = HashMap::new();
    let lowered =
        try_compile_instruction(&2, &expr, &mut memo, &HashMap::new(), &identity(3)).unwrap().unwrap();
    let expected = Operators::Compute("host".to_string(), 2, 2, vec![(1, host_load(1))], 1);
    assert_eq!(lowered, (expected, 2));
}

#[test]
fn a_given_memo_entry_is_used() {
    let expr = vec![Node::AccessTensor];
    let mut memo: HashMap<u32, u32> = [(0, 42)].into_iter().collect();
    assert_eq!(
        try_compile_instruction(&0, &expr, &mut memo, &HashMap::new(), &identity(1)),
        Ok(Some((Operators::NoOp, 42)))
    );
}

#[test]
fn untranslated_id_is_an_error() {
    let expr = vec![Node::AccessTensor];
    let mut memo = HashMap::new();
    assert_eq!(
        try_compile_instruction(&5, &expr, &mut memo, &HashMap::new(), &identity(1)),
        Err(LowerError::Untranslated(5))
    );
}

#[test]
fn dangling_id_is_an_error() {
    let expr = vec![Node::AccessTensor];
    let mut memo = HashMap::new();
    assert_eq!(
        try_compile_instruction(&3, &expr, &mut memo, &HashMap::new(), &identity(4)),
        Err(LowerError::Dangling(3))
    );
}

#[test]
fn unsupported_node_is_an_error() {
    let expr = vec![Node::Other, Node::Access(0)];
    let mut memo = HashMap::new();
    assert_eq!(
        try_compile_instruction(&1, &expr, &mut memo, &HashMap::new(), &identity(2)),
        Err(LowerError::Unsupported(0))
    );
}

#[test]
fn wrong_analysis_data_is_an_error() {
    let expr = vec![Node::Other, Node::AccessTensor, Node::AcceleratorLoad(0, 1)];
    let mut memo = HashMap::new();
    assert_eq!(
        try_compile_instruction(&2, &expr, &mut memo, &HashMap::new(), &identity(3)),
        Err(LowerError::NotAccelerator(0))
    );
    // The data was lowered before the region was looked up.
    assert_eq!(memo.get(&1), Some(&1));
    assert_eq!(memo.get(&2), None);
}

#[test]
fn call_without_emitting_arguments_is_an_error() {
    let expr = vec![
        Node::Other,
        Node::Metadata,
        Node::RelayOperatorCall(vec![0, 1]),
        Node::AcceleratorCall(vec![0, 1]),
        Node::RelayOperatorCall(vec![]),
        Node::AcceleratorCall(vec![0]),
    ];
    for id in [2u32, 3, 4, 5] {
        let mut memo = HashMap::new();
        assert_eq!(
            try_compile_instruction(&id, &expr, &mut memo, &accelerators(), &identity(6)),
            Err(LowerError::EmptyCall(id))
        );
    }
}

#[test]
fn missing_operand_is_an_error() {
    let expr = vec![
        Node::Other,
        Node::Metadata,
        Node::AcceleratorLoad(0, 1),
        Node::AcceleratorStore(0, 1),
        Node::Compute(9, 1),
        Node::AccessFlatten(1),
    ];
    for id in [2u32, 3, 4, 5] {
        let mut memo = HashMap::new();
        assert_eq!(
            try_compile_instruction(&id, &expr, &mut memo, &accelerators(), &identity(6)),
            Err(LowerError::MissingOperand(id))
        );
    }
}

#[test]
fn a_cycle_is_refused() {
    let expr = vec![Node::Access(1), Node::Access(0)];
    let mut memo = HashMap::new();
    let res = try_compile_instruction(&0, &expr, &mut memo, &HashMap::new(), &identity(2));
    assert_eq!(res, Err(LowerError::TooDeep(0)));
    let expr = vec![Node::AccessFlatten(0)];
    let mut memo = HashMap::new();
    let res = try_compile_instruction(&0, &expr, &mut memo, &HashMap::new(), &identity(1));
    assert_eq!(res, Err(LowerError::TooDeep(0)));
}

#[test]
fn a_chain_as_long_as_the_store_is_lowered() {
    let expr = vec![Node::AccessTensor, Node::Access(0), Node::Access(1), Node::Access(2)];
    let mut memo = HashMap::new();
    assert_eq!(
        try_compile_instruction(&3, &expr, &mut memo, &HashMap::new(), &identity(4)),
        Ok(Some((host_load(0), 0)))
    );
}

#[test]
fn every_operand_is_labelled_by_its_producer() {
    fn check(op: &Operators) {
        let slots: Vec<(u32, &Operators)> = match op {
            Operators::Compute(_, _, _, args, _) => args.iter().map(|a| (a.0, &a.1)).collect(),
            Operators::Load(_, meta, _) => vec![(meta.0, &*meta.1)],
            Operators::Store(_, _, meta, _) => vec![(meta.0, &*meta.1)],
            Operators::NoOp => vec![],
        };
        for (id, sub) in slots {
            match sub {
                Operators::Compute(_, _, dst, _, _) => assert_eq!(*dst, id),
                Operators::Load(_, meta, _) => assert_eq!(meta.0, id),
                Operators::Store(_, _, meta, _) => assert_eq!(meta.0, id),
                Operators::NoOp => {}
            }
            check(sub);
        }
    }
    let expr = vec![
        Node::Other,
        Node::Metadata,
        Node::AccessTensor,
        Node::AcceleratorLoad(0, 2),
        Node::AcceleratorCall(vec![0, 3, 1]),
        Node::AcceleratorStore(0, 4),
        Node::Access(5),
        Node::AccessPair(6, 3),
        Node::RelayOperatorCall(vec![0, 7, 2, 5]),
    ];
    let mut memo = HashMap::new();
    let (op, label) =
        try_compile_instruction(&8, &expr, &mut memo, &accelerators(), &identity(9)).unwrap().unwrap();
    assert_eq!(label, 8);
    check(&op);
}
