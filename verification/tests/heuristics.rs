use dtr_sim::heuristics::{allowed_victims, RandomEviction, LRU};
use dtr_sim::memory::SRAM;
use dtr_sim::sim::{Heuristic, Memory};
use std::collections::HashSet;

fn set(ids: &[u32]) -> HashSet<u32> {
    ids.iter().copied().collect()
}

fn sram_with(ids: &[u32]) -> SRAM {
    let mut sram = SRAM::new(1000);
    for id in ids {
        sram.put(id, 1, true);
    }
    sram
}

#[test]
fn allowed_victims_keeps_the_order() {
    assert_eq!(allowed_victims(&vec![1, 2, 3, 4, 5], &set(&[2, 4])), vec![1, 3, 5]);
    assert_eq!(allowed_victims(&vec![1, 2], &set(&[1, 2])), Vec::<u32>::new());
    assert_eq!(allowed_victims(&vec![], &set(&[1])), Vec::<u32>::new());
    assert_eq!(allowed_victims(&vec![3, 1], &set(&[])), vec![3, 1]);
}

#[test]
fn random_picks_a_resident_that_is_not_excluded() {
    let sram = sram_with(&[1, 2, 3, 4, 5, 6]);
    let exclude = set(&[1, 3, 5]);
    let mut h = RandomEviction::with_seed(42);
    for _ in 0..50 {
        let victim = h.choose_victim(&sram, &exclude).unwrap();
        assert!(sram.contains(&victim));
        assert!(!exclude.contains(&victim));
    }
}

#[test]
fn random_finds_nothing_when_all_are_excluded() {
    let sram = sram_with(&[1, 2]);
    let mut h = RandomEviction::with_seed(1);
    assert_eq!(h.choose_victim(&sram, &set(&[1, 2, 3])), None);
    let empty = sram_with(&[]);
    assert_eq!(h.choose_victim(&empty, &set(&[])), None);
}

#[test]
fn random_with_one_candidate_picks_it() {
    let sram = sram_with(&[1, 2, 3]);
    let mut h = RandomEviction::new();
    assert_eq!(h.choose_victim(&sram, &set(&[1, 3])), Some(2));
}

#[test]
fn random_with_a_seed_is_reproducible() {
    let sram = sram_with(&[1, 2, 3, 4, 5, 6, 7, 8]);
    let exclude = set(&[]);
    let mut a = RandomEviction::with_seed(7);
    let mut b = RandomEviction::with_seed(7);
    for _ in 0..20 {
        assert_eq!(a.choose_victim(&sram, &exclude), b.choose_victim(&sram, &exclude));
    }
}

#[test]
fn random_ignores_touch_and_evict() {
    let sram = sram_with(&[4]);
    let mut h = RandomEviction::with_seed(3);
    h.touch(&4, 1);
    h.evict(&4);
    assert_eq!(h.choose_victim(&sram, &set(&[])), Some(4));
}

#[test]
fn lru_starts_empty() {
    let h = LRU::new();
    assert!(h.order().is_empty());
}

#[test]
fn lru_touch_moves_to_the_back() {
    let mut h = LRU::new();
    h.touch(&1, 8);
    h.touch(&2, 8);
    h.touch(&3, 8);
    assert_eq!(h.order(), vec![1, 2, 3]);
    h.touch(&1, 8);
    assert_eq!(h.order(), vec![2, 3, 1]);
    h.touch(&1, 8);
    assert_eq!(h.order(), vec![2, 3, 1]);
}

#[test]
fn lru_evict_forgets_the_tensor() {
    let mut h = LRU::new();
    h.touch(&1, 8);
    h.touch(&2, 8);
    h.evict(&1);
    assert_eq!(h.order(), vec![2]);
    h.evict(&9);
    assert_eq!(h.order(), vec![2]);
}

#[test]
fn lru_chooses_the_oldest_that_is_not_excluded() {
    let sram = sram_with(&[1, 2, 3]);
    let mut h = LRU::new();
    h.touch(&3, 1);
    h.touch(&1, 1);
    h.touch(&2, 1);
    assert_eq!(h.choose_victim(&sram, &set(&[])), Some(3));
    assert_eq!(h.choose_victim(&sram, &set(&[3])), Some(1));
    assert_eq!(h.choose_victim(&sram, &set(&[3, 1])), Some(2));
    assert_eq!(h.choose_victim(&sram, &set(&[1, 2, 3])), None);
    assert_eq!(h.order(), vec![3, 1, 2]);
}

#[test]
fn lru_skips_what_is_not_resident() {
    let sram = sram_with(&[2]);
    let mut h = LRU::new();
    h.touch(&1, 1);
    h.touch(&2, 1);
    assert_eq!(h.choose_victim(&sram, &set(&[])), Some(2));
}

#[test]
fn lru_falls_back_to_the_smallest_untouched_resident() {
    let sram = sram_with(&[5, 7, 9]);
    let mut h = LRU::new();
    assert_eq!(h.choose_victim(&sram, &set(&[])), Some(5));
    assert_eq!(h.choose_victim(&sram, &set(&[5])), Some(7));
    h.touch(&9, 1);
    assert_eq!(h.choose_victim(&sram, &set(&[])), Some(9));
    assert_eq!(h.choose_victim(&sram, &set(&[9])), Some(5));
    assert_eq!(h.choose_victim(&sram, &set(&[5, 7, 9])), None);
}
