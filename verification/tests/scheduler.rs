use std::collections::BinaryHeap;

use crucible::scheduler::{CellActivity, Scheduler};
use crucible::{Grid, Material};
use ordered_float::OrderedFloat;

#[test]
fn new_scheduler_is_empty() {
    let mut s = Scheduler::new(8);
    assert!(s.drain_batch(10).is_empty());
}

#[test]
fn drain_takes_highest_priority_first() {
    let mut s = Scheduler::new(10);
    s.enqueue(3, 1.0f32.to_bits());
    s.enqueue(7, 5.0f32.to_bits());
    s.enqueue(1, 2.5f32.to_bits());
    s.enqueue(9, (-4.0f32).to_bits());
    assert_eq!(s.drain_batch(2), vec![7, 1]);
    assert_eq!(s.drain_batch(5), vec![3, 9]);
    assert!(s.drain_batch(5).is_empty());
}

#[test]
fn equal_priorities_drain_larger_index_first() {
    let mut s = Scheduler::new(10);
    s.enqueue(2, 1.0f32.to_bits());
    s.enqueue(8, 1.0f32.to_bits());
    s.enqueue(5, (-0.0f32).to_bits());
    s.enqueue(4, 0.0f32.to_bits());
    assert_eq!(s.drain_batch(4), vec![8, 2, 5, 4]);
}

#[test]
fn nan_priority_drains_first() {
    let mut s = Scheduler::new(4);
    s.enqueue(0, f32::INFINITY.to_bits());
    s.enqueue(1, f32::NAN.to_bits());
    assert_eq!(s.drain_batch(2), vec![1, 0]);
}

#[test]
fn enqueue_twice_keeps_one_entry_with_first_priority() {
    let mut s = Scheduler::new(4);
    s.enqueue(2, 1.0f32.to_bits());
    s.enqueue(2, 9.0f32.to_bits());
    s.enqueue(1, 5.0f32.to_bits());
    assert_eq!(s.drain_batch(4), vec![1, 2]);
}

#[test]
fn drained_cell_can_be_enqueued_again() {
    let mut s = Scheduler::new(4);
    s.enqueue(2, 1.0f32.to_bits());
    assert_eq!(s.drain_batch(1), vec![2]);
    s.enqueue(2, 3.0f32.to_bits());
    assert_eq!(s.drain_batch(1), vec![2]);
}

#[test]
fn enqueue_if_active_uses_threshold() {
    let mut s = Scheduler::new(5);
    s.enqueue_if_active(0, 0.1f32.to_bits());
    s.enqueue_if_active(1, 0.10000001f32.to_bits());
    s.enqueue_if_active(2, f32::NAN.to_bits());
    s.enqueue_if_active(3, 50.0f32.to_bits());
    s.enqueue_if_active(4, (-3.0f32).to_bits());
    assert_eq!(s.drain_batch(5), vec![3, 1]);
}

#[test]
fn matches_binary_heap_reference() {
    let cap = 64;
    let mut s = Scheduler::new(cap);
    let mut heap: BinaryHeap<(OrderedFloat<f32>, usize)> = BinaryHeap::new();
    let mut in_queue = vec![false; cap];
    let mut x: u32 = 7;
    for round in 0..400 {
        x = x.wrapping_mul(1_103_515_245).wrapping_add(12_345);
        let idx = (x >> 8) as usize % cap;
        let prio = ((x >> 3) % 50) as f32 / 4.0 - 2.0;
        if round % 9 == 8 {
            let max = (x % 7) as usize;
            let mut expected = Vec::new();
            for _ in 0..max {
                match heap.pop() {
                    Some((_, i)) => {
                        in_queue[i] = false;
                        expected.push(i);
                    }
                    None => break,
                }
            }
            assert_eq!(s.drain_batch(max), expected);
        } else {
            if !in_queue[idx] {
                in_queue[idx] = true;
                heap.push((OrderedFloat(prio), idx));
            }
            s.enqueue(idx, prio.to_bits());
        }
    }
}

fn activity(material: Material, score: f32) -> CellActivity {
    CellActivity { material, score_bits: score.to_bits() }
}

#[test]
fn seed_skips_inert_and_quiet_cells() {
    let mut g = Grid::new(3, 2, activity(Material::Air, 0.0));
    g.set(0, 0, activity(Material::Fire, 98.0));
    g.set(1, 0, activity(Material::Earth, 500.0));
    g.set(2, 0, activity(Material::Vacuum, 2.0));
    g.set(0, 1, activity(Material::Water, 0.05));
    g.set(1, 1, activity(Material::Steam, 25.0));
    g.set(2, 1, activity(Material::Air, 25.0));
    let mut s = Scheduler::new(6);
    s.seed_from_grid(&g);
    assert_eq!(s.drain_batch(6), vec![0, 5, 4]);
}
