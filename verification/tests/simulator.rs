use dtr_sim::heuristics::{RandomEviction, LRU};
use dtr_sim::memory::{DRAM, SRAM};
use dtr_sim::sim::{
    arg_ids, evict_victim, find_region, has_victim, place_of, region_is_host, Heuristic,
    Instruction, JitSim, Memory, Operators, SimError, DTR,
};
use std::collections::HashSet;

fn noop() -> Box<Operators> {
    Box::new(Operators::NoOp)
}

fn host_load(id: u32, size: usize) -> Operators {
    Operators::Load("host".to_string(), (id, noop()), size)
}

/// A load onto accelerator `A` of a tensor that the host loads first.
fn acc_load(id: u32, size: usize) -> Operators {
    Operators::Load("A".to_string(), (id, Box::new(host_load(id, size))), size)
}

fn machine(capacity: usize) -> (Vec<(String, SRAM)>, DRAM) {
    (vec![("A".to_string(), SRAM::new(capacity))], DRAM::new())
}

fn none() -> HashSet<u32> {
    HashSet::new()
}

fn set(ids: &[u32]) -> HashSet<u32> {
    ids.iter().copied().collect()
}

#[test]
fn a_new_simulator_has_an_empty_trace() {
    let sim = JitSim::new(LRU::new());
    assert!(sim.trace.is_empty());
    assert!(sim.heuristic.order().is_empty());
}

#[test]
fn running_noop_does_nothing() {
    let mut sim = JitSim::new(LRU::new());
    let (mut srams, mut dram) = machine(8);
    assert_eq!(sim.run(&Operators::NoOp, &mut srams, &mut dram, &none()), Ok(()));
    assert!(sim.trace.is_empty());
    assert!(dram.to_vec().is_empty());
    assert_eq!(srams[0].1.trip_count, 0);
}

#[test]
fn host_load_writes_to_dram_once() {
    let mut sim = JitSim::new(LRU::new());
    let (mut srams, mut dram) = machine(8);
    assert_eq!(sim.run(&host_load(1, 5), &mut srams, &mut dram, &none()), Ok(()));
    assert_eq!(dram.get(&1), 5);
    assert_eq!(sim.run(&host_load(1, 9), &mut srams, &mut dram, &none()), Ok(()));
    assert_eq!(dram.get(&1), 5);
    assert_eq!(sim.trace, vec!["(load host 1)".to_string(), "(load host 1)".to_string()]);
    assert_eq!(srams[0].1.trip_count, 0);
}

#[test]
fn accelerator_roundtrip_without_pressure() {
    let load = Operators::Load("A".to_string(), (4, Box::new(host_load(4, 1))), 1);
    let call = Operators::Compute("A".to_string(), 0, 6, vec![(4, load)], 1);
    let store = Operators::Store("A".to_string(), false, (6, Box::new(call)), 1);
    let mut sim = JitSim::new(LRU::new());
    let (mut srams, mut dram) = machine(1024);
    assert_eq!(sim.run(&store, &mut srams, &mut dram, &none()), Ok(()));
    assert_eq!(srams[0].1.trip_count, 2);
    assert_eq!(
        sim.trace,
        vec![
            "(load host 4)".to_string(),
            "(load A 4)".to_string(),
            "(compute A 0 6 4)".to_string(),
            "(store A false 6)".to_string(),
        ]
    );
    assert_eq!(srams[0].1.to_vec(), vec![4, 6]);
    assert_eq!(dram.to_vec(), vec![4, 6]);
    assert_eq!(srams[0].1.peak_size, 2);
}

#[test]
fn roundtrip_with_an_evicting_store_counts_two_trips() {
    let load = Operators::Load("A".to_string(), (4, Box::new(host_load(4, 3))), 3);
    let call = Operators::Compute("A".to_string(), 0, 6, vec![(4, load)], 2);
    let store = Operators::Store("A".to_string(), true, (6, Box::new(call)), 2);
    let mut sim = JitSim::new(LRU::new());
    let (mut srams, mut dram) = machine(1024);
    assert_eq!(sim.run(&store, &mut srams, &mut dram, &none()), Ok(()));
    assert_eq!(srams[0].1.trip_count, 2);
    assert_eq!(srams[0].1.to_vec(), vec![4]);
    assert_eq!(srams[0].1.resident_size, 3);
    assert!(srams[0].1.evict.contains(&6));
    assert_eq!(dram.get(&6), 2);
    assert_eq!(sim.heuristic.order(), vec![4]);
}

#[test]
fn second_load_evicts_the_older_one() {
    let mut sim = JitSim::new(LRU::new());
    let (mut srams, mut dram) = machine(12);
    assert_eq!(sim.run(&acc_load(1, 8), &mut srams, &mut dram, &none()), Ok(()));
    assert_eq!(sim.run(&acc_load(2, 8), &mut srams, &mut dram, &none()), Ok(()));
    // Tensor 1 is backed by DRAM, so it is dropped without a write-back.
    assert_eq!(srams[0].1.trip_count, 2);
    assert_eq!(srams[0].1.to_vec(), vec![2]);
    assert_eq!(srams[0].1.resident_size, 8);
    assert!(srams[0].1.evict.is_empty());
    assert_eq!(sim.heuristic.order(), vec![2]);
}

#[test]
fn forced_eviction_with_both_loads_pinned_thrashes() {
    let compute = Operators::Compute(
        "A".to_string(),
        9,
        3,
        vec![(1, acc_load(1, 8)), (2, acc_load(2, 8))],
        4,
    );
    let mut sim = JitSim::new(LRU::new());
    let (mut srams, mut dram) = machine(12);
    assert_eq!(sim.run(&compute, &mut srams, &mut dram, &none()), Err(SimError::Thrashing));
    assert_eq!(srams[0].1.trip_count, 2);
    assert_eq!(srams[0].1.to_vec(), vec![2]);
    assert_eq!(
        sim.trace,
        vec![
            "(load host 1)".to_string(),
            "(load A 1)".to_string(),
            "(load host 2)".to_string(),
            "(load A 2)".to_string(),
        ]
    );
}

#[test]
fn rematerialization_adds_one_trip() {
    let mut sim = JitSim::new(LRU::new());
    let (mut srams, mut dram) = machine(12);
    assert_eq!(sim.run(&acc_load(1, 8), &mut srams, &mut dram, &none()), Ok(()));
    assert_eq!(sim.run(&acc_load(2, 8), &mut srams, &mut dram, &none()), Ok(()));
    assert_eq!(srams[0].1.trip_count, 2);
    let reuse = Operators::Compute("A".to_string(), 9, 3, vec![(1, Operators::NoOp)], 4);
    assert_eq!(sim.run(&reuse, &mut srams, &mut dram, &none()), Ok(()));
    assert_eq!(srams[0].1.trip_count, 3);
    assert_eq!(srams[0].1.to_vec(), vec![1, 3]);
    assert_eq!(srams[0].1.resident_size, 12);
    assert_eq!(srams[0].1.peak_size, 12);
    assert_eq!(sim.heuristic.order(), vec![1, 3]);
    assert_eq!(sim.trace.last().unwrap(), "(compute A 9 3 1)");
}

#[test]
fn eviction_of_a_computed_tensor_is_written_back() {
    let mut sim = JitSim::new(LRU::new());
    let (mut srams, mut dram) = machine(12);
    let compute = Operators::Compute("A".to_string(), 9, 3, vec![(1, acc_load(1, 8))], 4);
    assert_eq!(sim.run(&compute, &mut srams, &mut dram, &none()), Ok(()));
    assert_eq!(srams[0].1.trip_count, 1);
    assert!(!dram.contains(&3));
    assert_eq!(sim.run(&acc_load(2, 12), &mut srams, &mut dram, &none()), Ok(()));
    // load, write-back of the computed tensor, load
    assert_eq!(srams[0].1.trip_count, 3);
    assert_eq!(dram.get(&3), 4);
    assert!(srams[0].1.evict.contains(&3));
    assert!(!srams[0].1.evict.contains(&1));
    assert_eq!(srams[0].1.to_vec(), vec![2]);
}

#[test]
fn three_pinned_tensors_thrash() {
    let compute = Operators::Compute(
        "A".to_string(),
        9,
        4,
        vec![(1, acc_load(1, 8)), (2, acc_load(2, 8)), (3, acc_load(3, 8))],
        1,
    );
    let mut sim = JitSim::new(LRU::new());
    let (mut srams, mut dram) = machine(16);
    assert_eq!(sim.run(&compute, &mut srams, &mut dram, &none()), Err(SimError::Thrashing));
    assert_eq!(sim.trace.len(), 6);
    assert!(srams[0].1.resident_size <= 16);
}

#[test]
fn three_pinned_tensors_thrash_with_the_random_heuristic() {
    let compute = Operators::Compute(
        "A".to_string(),
        9,
        4,
        vec![(1, acc_load(1, 8)), (2, acc_load(2, 8)), (3, acc_load(3, 8))],
        1,
    );
    let mut sim = JitSim::new(RandomEviction::with_seed(11));
    let (mut srams, mut dram) = machine(16);
    assert_eq!(sim.run(&compute, &mut srams, &mut dram, &none()), Err(SimError::Thrashing));
}

#[test]
fn store_on_host_is_refused() {
    let store = Operators::Store("host".to_string(), true, (5, Box::new(host_load(5, 1))), 1);
    let mut sim = JitSim::new(LRU::new());
    let (mut srams, mut dram) = machine(8);
    assert_eq!(sim.run(&store, &mut srams, &mut dram, &none()), Err(SimError::StoreOnHost(5)));
    assert_eq!(sim.trace, vec!["(load host 5)".to_string()]);
}

#[test]
fn unknown_region_is_refused() {
    let load = Operators::Load("B".to_string(), (5, Box::new(host_load(5, 1))), 1);
    let mut sim = JitSim::new(LRU::new());
    let (mut srams, mut dram) = machine(8);
    assert_eq!(sim.run(&load, &mut srams, &mut dram, &none()), Err(SimError::UnknownRegion(5)));
    assert_eq!(srams[0].1.trip_count, 0);
}

#[test]
fn load_of_a_tensor_that_dram_lacks_is_refused() {
    let load = Operators::Load("A".to_string(), (5, noop()), 1);
    let mut sim = JitSim::new(LRU::new());
    let (mut srams, mut dram) = machine(8);
    assert_eq!(sim.run(&load, &mut srams, &mut dram, &none()), Err(SimError::NotInDram(5)));
    assert!(sim.trace.is_empty());
}

#[test]
fn host_compute_needs_its_arguments_in_dram() {
    let compute = Operators::Compute(
        "host".to_string(),
        3,
        3,
        vec![(1, host_load(1, 1)), (2, Operators::NoOp)],
        1,
    );
    let mut sim = JitSim::new(LRU::new());
    let (mut srams, mut dram) = machine(8);
    assert_eq!(sim.run(&compute, &mut srams, &mut dram, &none()), Err(SimError::NotInDram(2)));
    assert_eq!(sim.trace, vec!["(load host 1)".to_string()]);
    assert!(!dram.contains(&3));
}

#[test]
fn compute_into_a_resident_destination_is_refused() {
    let mut sim = JitSim::new(LRU::new());
    let (mut srams, mut dram) = machine(8);
    assert_eq!(sim.run(&acc_load(1, 2), &mut srams, &mut dram, &none()), Ok(()));
    let compute = Operators::Compute("A".to_string(), 9, 1, vec![(1, Operators::NoOp)], 2);
    assert_eq!(
        sim.run(&compute, &mut srams, &mut dram, &none()),
        Err(SimError::AlreadyResident(1))
    );
}

#[test]
fn load_of_a_resident_tensor_only_touches_it() {
    let mut sim = JitSim::new(LRU::new());
    let (mut srams, mut dram) = machine(8);
    assert_eq!(sim.run(&acc_load(1, 2), &mut srams, &mut dram, &none()), Ok(()));
    assert_eq!(sim.run(&acc_load(2, 2), &mut srams, &mut dram, &none()), Ok(()));
    assert_eq!(sim.heuristic.order(), vec![1, 2]);
    let again = Operators::Load("A".to_string(), (1, noop()), 2);
    assert_eq!(sim.run(&again, &mut srams, &mut dram, &none()), Ok(()));
    assert_eq!(srams[0].1.trip_count, 2);
    assert_eq!(sim.heuristic.order(), vec![2, 1]);
}

#[test]
fn only_the_named_region_changes() {
    let mut srams = vec![
        ("A".to_string(), SRAM::new(8)),
        ("B".to_string(), SRAM::new(8)),
    ];
    let mut dram = DRAM::new();
    let mut sim = JitSim::new(LRU::new());
    let load = Operators::Load("B".to_string(), (1, Box::new(host_load(1, 2))), 2);
    assert_eq!(sim.run(&load, &mut srams, &mut dram, &none()), Ok(()));
    assert_eq!(srams[0].1.trip_count, 0);
    assert!(srams[0].1.to_vec().is_empty());
    assert_eq!(srams[1].1.trip_count, 1);
    assert_eq!(srams[1].1.to_vec(), vec![1]);
    assert_eq!(srams[0].0, "A");
    assert_eq!(srams[1].0, "B");
}

#[test]
fn find_region_returns_the_first_match() {
    let srams = vec![
        ("A".to_string(), SRAM::new(1)),
        ("B".to_string(), SRAM::new(2)),
        ("A".to_string(), SRAM::new(3)),
    ];
    assert_eq!(find_region(&srams, &"A".to_string()), Some(0));
    assert_eq!(find_region(&srams, &"B".to_string()), Some(1));
    assert_eq!(find_region(&srams, &"C".to_string()), None);
    assert_eq!(find_region(&Vec::new(), &"A".to_string()), None);
}

#[test]
fn host_is_the_reserved_region() {
    assert!(region_is_host(&"host".to_string()));
    assert!(!region_is_host(&"Host".to_string()));
    assert!(!region_is_host(&"".to_string()));
    assert!(!region_is_host(&"hosts".to_string()));
}

#[test]
fn arg_ids_collects_the_operand_ids() {
    let args = vec![(3, Operators::NoOp), (1, Operators::NoOp), (3, Operators::NoOp)];
    assert_eq!(arg_ids(&args), set(&[1, 3]));
    assert_eq!(arg_ids(&Vec::new()), set(&[]));
}

#[test]
fn execute_without_sram_is_refused() {
    let mut dram = DRAM::new();
    dram.put(&1, 1, true);
    let load = Operators::Load("A".to_string(), (1, noop()), 1);
    assert_eq!(load.check(None, &dram), Err(SimError::NoSram(1)));
    let store = Operators::Store("A".to_string(), true, (1, noop()), 1);
    assert_eq!(store.check(None, &dram), Err(SimError::NoSram(1)));
    let compute = Operators::Compute("A".to_string(), 1, 2, vec![], 1);
    assert_eq!(compute.check(None, &dram), Err(SimError::NoSram(2)));
}

#[test]
fn execute_load_beyond_the_capacity_is_refused() {
    let mut dram = DRAM::new();
    let mut sram = SRAM::new(4);
    dram.put(&1, 5, true);
    let load = Operators::Load("A".to_string(), (1, noop()), 5);
    assert_eq!(load.check(Some(&sram), &dram), Err(SimError::OutOfMemory(1)));
    assert_eq!(sram.resident_size, 0);
    assert_eq!(sram.trip_count, 0);
}

#[test]
fn execute_store_of_an_absent_tensor_is_refused() {
    let mut dram = DRAM::new();
    let mut sram = SRAM::new(4);
    let store = Operators::Store("A".to_string(), true, (1, noop()), 1);
    assert_eq!(store.check(Some(&sram), &dram), Err(SimError::NotInSram(1)));
    assert!(dram.to_vec().is_empty());
}

#[test]
fn execute_compute_needs_its_arguments_in_sram() {
    let mut dram = DRAM::new();
    let mut sram = SRAM::new(4);
    sram.put(&1, 1, true);
    let compute = Operators::Compute(
        "A".to_string(),
        9,
        3,
        vec![(1, Operators::NoOp), (2, Operators::NoOp)],
        1,
    );
    assert_eq!(compute.check(Some(&sram), &dram), Err(SimError::NotInSram(2)));
    assert!(!sram.contains(&3));
}

#[test]
fn execute_compute_puts_the_result_in_place() {
    let mut dram = DRAM::new();
    let mut sram = SRAM::new(4);
    sram.put(&1, 1, false);
    let compute = Operators::Compute("A".to_string(), 9, 3, vec![(1, Operators::NoOp)], 3);
    assert_eq!(compute.check(Some(&sram), &dram), Ok(()));
    compute.run(Some(&mut sram), &mut dram);
    assert_eq!(sram.get(&3), 3);
    assert_eq!(sram.trip_count, 1);
    assert_eq!(sram.resident_size, 4);
    assert!(dram.to_vec().is_empty());
}

#[test]
fn a_full_trip_counter_refuses_transfers() {
    let mut dram = DRAM::new();
    let mut sram = SRAM::new(4);
    sram.put(&1, 1, true);
    sram.trip_count = usize::MAX;
    let store = Operators::Store("A".to_string(), false, (1, noop()), 1);
    assert_eq!(store.check(Some(&sram), &dram), Err(SimError::CounterOverflow(1)));
    dram.put(&2, 1, true);
    let load = Operators::Load("A".to_string(), (2, noop()), 1);
    assert_eq!(load.check(Some(&sram), &dram), Err(SimError::CounterOverflow(2)));
    assert_eq!(evict_victim(1, &mut sram, &mut dram), Err(SimError::CounterOverflow(1)));
    assert_eq!(sram.trip_count, usize::MAX);
    assert!(sram.contains(&1));
}

#[test]
fn evict_victim_drops_what_dram_backs() {
    let mut dram = DRAM::new();
    let mut sram = SRAM::new(8);
    sram.put(&1, 3, false);
    dram.put(&1, 3, true);
    assert_eq!(evict_victim(1, &mut sram, &mut dram), Ok(()));
    assert!(!sram.contains(&1));
    assert_eq!(sram.trip_count, 1);
    assert!(sram.evict.is_empty());
}

#[test]
fn evict_victim_writes_back_what_dram_lacks() {
    let mut dram = DRAM::new();
    let mut sram = SRAM::new(8);
    sram.put(&1, 3, true);
    assert_eq!(evict_victim(1, &mut sram, &mut dram), Ok(()));
    assert!(!sram.contains(&1));
    assert_eq!(sram.trip_count, 1);
    assert!(sram.evict.contains(&1));
    assert_eq!(dram.get(&1), 3);
}

#[test]
fn evict_victim_refuses_an_absent_tensor() {
    let mut dram = DRAM::new();
    let mut sram = SRAM::new(8);
    assert_eq!(evict_victim(1, &mut sram, &mut dram), Err(SimError::NotInSram(1)));
}

#[test]
fn evict_single_never_picks_an_excluded_tensor() {
    let mut dram = DRAM::new();
    let mut sram = SRAM::new(100);
    let mut sim = JitSim::new(RandomEviction::with_seed(5));
    for id in 1..=10u32 {
        sram.put(&id, 1, true);
    }
    let exclude = set(&[2, 4, 6, 8, 10]);
    for _ in 0..5 {
        assert!(has_victim(&sram, &exclude));
        let victim = sim.evict_single(&exclude, &mut sram, &mut dram).unwrap();
        assert!(!exclude.contains(&victim));
        assert!(!sram.contains(&victim));
        assert!(dram.contains(&victim));
    }
    assert_eq!(sram.to_vec(), vec![2, 4, 6, 8, 10]);
    assert!(!has_victim(&sram, &exclude));
    assert_eq!(
        sim.allocate_buffer(96, &mut sram, &mut dram, &exclude),
        Err(SimError::Thrashing)
    );
    assert_eq!(sram.trip_count, 5);
}

#[test]
fn allocate_buffer_evicts_until_the_size_fits() {
    let mut dram = DRAM::new();
    let mut sram = SRAM::new(10);
    let mut sim = JitSim::new(LRU::new());
    for id in [1u32, 2, 3, 4, 5] {
        sram.put(&id, 2, true);
        sim.heuristic.touch(&id, 2);
    }
    assert_eq!(sim.allocate_buffer(0, &mut sram, &mut dram, &none()), Ok(()));
    assert_eq!(sram.resident_size, 10);
    assert_eq!(sim.allocate_buffer(3, &mut sram, &mut dram, &set(&[1])), Ok(()));
    assert_eq!(sram.to_vec(), vec![1, 4, 5]);
    assert_eq!(sram.trip_count, 2);
    assert_eq!(dram.to_vec(), vec![2, 3]);
    assert_eq!(sim.heuristic.order(), vec![1, 4, 5]);
}

#[test]
fn allocate_buffer_succeeds_exactly_when_the_pinned_leave_room() {
    let mut dram = DRAM::new();
    let mut sram = SRAM::new(10);
    let mut sim = JitSim::new(LRU::new());
    for id in [1u32, 2, 3] {
        sram.put(&id, 3, true);
        sim.heuristic.touch(&id, 3);
    }
    // 6 bytes are pinned: 4 more fit, 5 do not.
    assert_eq!(sim.allocate_buffer(4, &mut sram, &mut dram, &set(&[1, 2])), Ok(()));
    assert_eq!(sram.to_vec(), vec![1, 2]);
    assert_eq!(
        sim.allocate_buffer(5, &mut sram, &mut dram, &set(&[1, 2])),
        Err(SimError::Thrashing)
    );
    assert_eq!(sram.to_vec(), vec![1, 2]);
}

#[test]
fn store_that_keeps_then_rematerialize_is_one_trip() {
    let mut dram = DRAM::new();
    let mut sram = SRAM::new(10);
    let mut sim = JitSim::new(LRU::new());
    sram.put(&1, 4, true);
    sram.put(&2, 3, true);
    let before = sram.to_vec();
    let trips = sram.trip_count;
    let store = Operators::Store("A".to_string(), false, (1, noop()), 4);
    assert_eq!(store.check(Some(&sram), &dram), Ok(()));
    store.run(Some(&mut sram), &mut dram);
    assert_eq!(sim.rematerialize(&1, &mut sram, &mut dram, &none()), Ok(()));
    assert_eq!(sram.to_vec(), before);
    assert_eq!(sram.resident_size, 7);
    assert_eq!(sram.trip_count, trips + 1);
}

#[test]
fn store_that_evicts_then_rematerialize_is_two_trips() {
    let mut dram = DRAM::new();
    let mut sram = SRAM::new(7);
    let mut sim = JitSim::new(LRU::new());
    sram.put(&1, 4, true);
    sram.put(&2, 3, true);
    let before = sram.to_vec();
    let trips = sram.trip_count;
    let store = Operators::Store("A".to_string(), true, (1, noop()), 4);
    assert_eq!(store.check(Some(&sram), &dram), Ok(()));
    store.run(Some(&mut sram), &mut dram);
    assert_eq!(sram.to_vec(), vec![2]);
    assert_eq!(sim.rematerialize(&1, &mut sram, &mut dram, &none()), Ok(()));
    assert_eq!(sram.to_vec(), before);
    assert_eq!(sram.get(&1), 4);
    assert_eq!(sram.resident_size, 7);
    assert_eq!(sram.trip_count, trips + 2);
    assert_eq!(sim.heuristic.order(), vec![1]);
}

#[test]
fn compute_needs_its_operands_somewhere() {
    let mut sim = JitSim::new(LRU::new());
    let (mut srams, mut dram) = machine(8);
    let compute = Operators::Compute("A".to_string(), 9, 3, vec![(1, Operators::NoOp)], 1);
    assert_eq!(
        sim.perform_op(&compute, &mut srams, &mut dram, &none()),
        Err(SimError::NotInDram(1))
    );
    assert!(srams[0].1.to_vec().is_empty());
    assert!(sim.trace.is_empty());
}

#[test]
fn dtr_deallocate_writes_back_and_removes() {
    let mut dram = DRAM::new();
    let mut sram = SRAM::new(7);
    let mut sim = JitSim::new(LRU::new());
    sram.put(&1, 4, true);
    sim.deallocate(&1, &mut sram, &mut dram);
    assert!(!sram.contains(&1));
    assert_eq!(dram.get(&1), 4);
    assert_eq!(sram.trip_count, 1);
    assert!(sram.evict.contains(&1));
}

#[test]
fn perform_op_does_not_run_the_producers() {
    let mut sim = JitSim::new(LRU::new());
    let (mut srams, mut dram) = machine(8);
    dram.put(&1, 2, true);
    let load = Operators::Load("A".to_string(), (1, Box::new(host_load(7, 1))), 2);
    assert_eq!(sim.perform_op(&load, &mut srams, &mut dram, &none()), Ok(()));
    assert!(!dram.contains(&7));
    assert_eq!(sim.trace, vec!["(load A 1)".to_string()]);
    assert_eq!(sim.perform_op(&Operators::NoOp, &mut srams, &mut dram, &none()), Ok(()));
    assert_eq!(sim.trace.len(), 1);
}

#[test]
fn trip_count_never_goes_back_during_a_run() {
    let mut sim = JitSim::new(LRU::new());
    let (mut srams, mut dram) = machine(10);
    let mut seen = 0;
    for id in 1..=6u32 {
        let op = Operators::Compute("A".to_string(), 100 + id, 200 + id, vec![(id, acc_load(id, 3))], 2);
        assert_eq!(sim.run(&op, &mut srams, &mut dram, &none()), Ok(()));
        assert!(srams[0].1.trip_count >= seen);
        seen = srams[0].1.trip_count;
        let sum: usize = srams[0].1.residence.values().sum();
        assert_eq!(srams[0].1.resident_size, sum);
        assert!(srams[0].1.resident_size <= 10);
    }
}

#[test]
fn replaying_the_performed_instructions_gives_the_same_counters() {
    fn program() -> Vec<Operators> {
        vec![
            Operators::Compute("A".to_string(), 9, 3, vec![(1, acc_load(1, 8))], 4),
            acc_load(2, 12),
            Operators::Compute("A".to_string(), 10, 4, vec![(3, Operators::NoOp)], 5),
        ]
    }
    let mut sim = JitSim::new(LRU::new());
    let (mut srams, mut dram) = machine(12);
    for op in program() {
        assert_eq!(sim.run(&op, &mut srams, &mut dram, &none()), Ok(()));
    }
    // The instructions of the trace, one by one, without their producers.
    let flat = vec![
        host_load(1, 8),
        Operators::Load("A".to_string(), (1, noop()), 8),
        Operators::Compute("A".to_string(), 9, 3, vec![(1, Operators::NoOp)], 4),
        host_load(2, 12),
        Operators::Load("A".to_string(), (2, noop()), 12),
        Operators::Compute("A".to_string(), 10, 4, vec![(3, Operators::NoOp)], 5),
    ];
    let lines: Vec<String> = flat.iter().map(|op| op.compile()).collect();
    assert_eq!(sim.trace, lines);
    let mut again = JitSim::new(LRU::new());
    let (mut srams2, mut dram2) = machine(12);
    for op in &flat {
        assert_eq!(again.run(op, &mut srams2, &mut dram2, &none()), Ok(()));
    }
    assert_eq!(again.trace, sim.trace);
    assert_eq!(srams2[0].1.trip_count, srams[0].1.trip_count);
    assert_eq!(srams2[0].1.peak_size, srams[0].1.peak_size);
    assert_eq!(srams2[0].1.to_vec(), srams[0].1.to_vec());
}

#[test]
fn has_victim_sees_what_is_not_protected() {
    let mut sram = SRAM::new(8);
    assert!(!has_victim(&sram, &none()));
    sram.put(&1, 1, true);
    sram.put(&2, 1, true);
    assert!(has_victim(&sram, &none()));
    assert!(has_victim(&sram, &set(&[1])));
    assert!(!has_victim(&sram, &set(&[1, 2])));
}

#[test]
fn check_tells_without_changing_the_memories() {
    let mut dram = DRAM::new();
    let sram = SRAM::new(4);
    dram.put(&1, 3, true);
    let load = Operators::Load("A".to_string(), (1, noop()), 3);
    assert_eq!(load.check(Some(&sram), &dram), Ok(()));
    assert!(!sram.contains(&1));
    let compute = Operators::Compute("host".to_string(), 9, 5, vec![(1, Operators::NoOp), (2, Operators::NoOp)], 1);
    assert_eq!(compute.check(None, &dram), Err(SimError::NotInDram(2)));
    assert!(!dram.contains(&5));
}

#[test]
fn compute_with_operands_resident_is_executed_as_it_stands() {
    let mut sim = JitSim::new(LRU::new());
    let (mut srams, mut dram) = machine(10);
    assert_eq!(sim.run(&acc_load(1, 4), &mut srams, &mut dram, &none()), Ok(()));
    let trips = srams[0].1.trip_count;
    let compute = Operators::Compute("A".to_string(), 9, 3, vec![(1, Operators::NoOp)], 6);
    assert_eq!(sim.perform_op(&compute, &mut srams, &mut dram, &none()), Ok(()));
    assert_eq!(srams[0].1.trip_count, trips);
    assert_eq!(srams[0].1.to_vec(), vec![1, 3]);
    assert_eq!(srams[0].1.resident_size, 10);
    assert_eq!(srams[0].1.peak_size, 10);
    assert!(srams[0].1.evict.is_empty());
    assert_eq!(dram.to_vec(), vec![1]);
}

#[test]
fn compute_counts_reloads_and_write_backs() {
    let mut sim = JitSim::new(LRU::new());
    let (mut srams, mut dram) = machine(12);
    // Tensor 3 is computed in place (4 bytes), tensor 1 is then pushed out.
    let first = Operators::Compute("A".to_string(), 9, 3, vec![(1, acc_load(1, 8))], 4);
    assert_eq!(sim.run(&first, &mut srams, &mut dram, &none()), Ok(()));
    assert_eq!(sim.run(&acc_load(2, 8), &mut srams, &mut dram, &none()), Ok(()));
    assert_eq!(srams[0].1.to_vec(), vec![2, 3]);
    let trips = srams[0].1.trip_count;
    let in_dram = dram.to_vec().len();
    // Reloading 1 (8 bytes) for a result of 4 bytes pushes out 2 (dropped)
    // and 3 (written back).
    let second = Operators::Compute("A".to_string(), 10, 4, vec![(1, Operators::NoOp)], 4);
    assert_eq!(sim.perform_op(&second, &mut srams, &mut dram, &none()), Ok(()));
    let written_back = dram.to_vec().len() - in_dram;
    assert_eq!(written_back, 1);
    assert_eq!(srams[0].1.trip_count, trips + 1 + written_back);
    assert_eq!(srams[0].1.to_vec(), vec![1, 4]);
    assert!(srams[0].1.evict.contains(&3));
    assert!(!srams[0].1.evict.contains(&2));
}

#[test]
fn noop_leaves_the_heuristic_as_it_was() {
    let mut sim = JitSim::new(LRU::new());
    let (mut srams, mut dram) = machine(8);
    assert_eq!(sim.run(&acc_load(1, 2), &mut srams, &mut dram, &none()), Ok(()));
    let order = sim.heuristic.order();
    assert_eq!(sim.run(&Operators::NoOp, &mut srams, &mut dram, &none()), Ok(()));
    assert_eq!(sim.allocate_buffer(6, &mut srams[0].1, &mut dram, &none()), Ok(()));
    assert_eq!(sim.heuristic.order(), order);
}

#[test]
fn evict_single_tells_the_heuristic() {
    let mut dram = DRAM::new();
    let mut sram = SRAM::new(8);
    let mut sim = JitSim::new(LRU::new());
    for id in [1u32, 2, 3] {
        sram.put(&id, 1, true);
        sim.heuristic.touch(&id, 1);
    }
    dram.put(&1, 1, true);
    assert_eq!(sim.evict_single(&none(), &mut sram, &mut dram), Ok(1));
    assert_eq!(sim.heuristic.order(), vec![2, 3]);
    assert_eq!(sim.evict_single(&none(), &mut sram, &mut dram), Ok(2));
    assert_eq!(sim.heuristic.order(), vec![3]);
}

#[test]
fn place_of_names_region_and_tensor() {
    let load = Operators::Load("A".to_string(), (7, noop()), 1);
    assert_eq!(place_of(&load), Some((&"A".to_string(), 7)));
    let compute = Operators::Compute("host".to_string(), 1, 9, vec![], 1);
    assert_eq!(place_of(&compute), Some((&"host".to_string(), 9)));
    assert_eq!(place_of(&Operators::NoOp), None);
}

#[test]
fn a_load_that_needs_room_tells_the_heuristic() {
    let mut sim = JitSim::new(LRU::new());
    let (mut srams, mut dram) = machine(4);
    for id in [1u32, 2] {
        assert_eq!(sim.run(&acc_load(id, 2), &mut srams, &mut dram, &none()), Ok(()));
    }
    assert_eq!(sim.heuristic.order(), vec![1, 2]);
    assert_eq!(sim.run(&acc_load(3, 3), &mut srams, &mut dram, &none()), Ok(()));
    // 1 and 2 were asked for and evicted in turn, then 3 was touched.
    assert_eq!(sim.heuristic.order(), vec![3]);
    assert_eq!(srams[0].1.to_vec(), vec![3]);
}
