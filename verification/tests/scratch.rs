use diskann::neighbor::{Neighbor, NeighborPriorityQueue};
use diskann::scratch::{PriorityQueueConfiguration, SearchScratch, SearchScratchParams};
use diskann::visited::{StampedVisitedSet, VisitedTracker, MAX_DENSE_SLOTS};

#[test]
pub fn test_new() {
    {
        let x = SearchScratch::<u64, NeighborPriorityQueue<u64>>::new(
            PriorityQueueConfiguration::Fixed(10),
            None,
        );

        assert!(!x.best.is_resizable());
        assert_eq!(x.search_l(), 10);
        assert_eq!(x.best.search_l(), 10);

        assert!(x.visited.is_empty());
        assert!(x.id_scratch.is_empty());

        assert!(x.hops == 0);
        assert!(x.cmps == 0);
    }

    {
        let x = SearchScratch::<u64, NeighborPriorityQueue<u64>>::new(
            PriorityQueueConfiguration::Resizable(10),
            None,
        );

        assert!(x.best.is_resizable());
        assert_eq!(x.search_l(), 10);
        assert_eq!(x.best.search_l(), 10);

        assert!(x.visited.is_empty());
        assert!(x.id_scratch.is_empty());

        assert!(x.hops == 0);
        assert!(x.cmps == 0);
    }
}

#[test]
pub fn test_resize() {
    let mut x = SearchScratch::<u64, _>::new(PriorityQueueConfiguration::Fixed(5), None);
    assert_eq!(x.search_l(), 5);
    x.resize(10);
    assert_eq!(x.search_l(), 10);
}

#[test]
pub fn test_reconfigure() {
    let mut x = SearchScratch::<u64, NeighborPriorityQueue<u64>>::new(
        PriorityQueueConfiguration::Fixed(5),
        None,
    );
    assert_eq!(x.search_l(), 5);

    x.resize(10);
    assert_eq!(x.search_l(), 10);
}

#[test]
pub fn test_clear() {
    let mut x = SearchScratch::<u64, NeighborPriorityQueue<u64>>::new(
        PriorityQueueConfiguration::Fixed(5),
        None,
    );

    x.visited.insert(1);
    x.visited.insert(10);

    x.id_scratch.push(1);
    x.id_scratch.push(10);

    x.best.insert(Neighbor::new(1, 1.0_f32.to_bits()));
    x.best.insert(Neighbor::new(10, 2.0_f32.to_bits()));
    assert_eq!(x.best.size(), 2);

    // Do the clear.
    x.clear();
    assert!(x.visited.is_empty());
    assert!(x.id_scratch.is_empty());
    assert_eq!(x.best.size(), 0);

    assert!(x.hops == 0);
    assert!(x.cmps == 0);
}

#[test]
pub fn test_stamped_visited_set() {
    let mut set = StampedVisitedSet::<u32>::new();
    assert!(set.is_empty());

    assert!(set.insert(5));
    assert!(!set.insert(5));
    assert!(set.contains(&5));
    assert!(!set.contains(&4));
    assert!(!set.is_empty());

    // Ids beyond the current allocation grow the stamp array on demand.
    assert!(set.insert(10_000));
    assert!(set.contains(&10_000));
    assert!(!set.contains(&9_999));

    // Clearing is logical (epoch bump): previously visited ids read as unvisited.
    set.clear();
    assert!(set.is_empty());
    assert!(!set.contains(&5));
    assert!(!set.contains(&10_000));
    assert!(set.insert(5));
    assert!(set.contains(&5));

    set.extend(&[7, 8, 8, 9]);
    assert!(set.contains(&7));
    assert!(set.contains(&9));
    assert!(!set.insert(8));
}

#[test]
pub fn test_stamped_visited_set_epoch_wrap() {
    let mut set = StampedVisitedSet::<u32>::with_capacity(4);
    set.insert(1);
    // Simulate a set that has exhausted its epoch counter.
    set.epoch = u16::MAX;
    set.clear();
    assert!(!set.contains(&1));
    assert!(set.insert(1));
    assert!(set.contains(&1));
}

#[test]
pub fn test_stamped_visited_set_sentinel_ids() {
    // Test providers use sentinel ids like u32::MAX for start points; these must
    // work without growing the dense array to absurd sizes.
    let mut set = StampedVisitedSet::<u32>::new();
    assert!(set.insert(u32::MAX));
    assert!(!set.insert(u32::MAX));
    assert!(set.contains(&u32::MAX));
    assert!(!set.contains(&(u32::MAX - 1)));
    assert!(set.stamps.len() < 1024);

    // Mixing dense and sentinel ids works.
    assert!(set.insert(3));
    assert!(set.contains(&3));
    assert!(set.contains(&u32::MAX));

    set.clear();
    assert!(!set.contains(&u32::MAX));
    assert!(set.overflow.is_empty());
}

#[test]
fn a_sentinel_id_makes_a_set_nonempty() {
    let mut set = StampedVisitedSet::<u64>::default();
    assert!(set.is_empty());
    assert!(set.insert(u64::MAX));
    assert!(!set.is_empty());
    assert!(!set.overflow.is_empty());
    assert_eq!(set.len, 1);
    assert!(!set.insert(u64::MAX));
    assert_eq!(set.len, 1);
    set.insert(0);
    assert_eq!(set.len, 2);
    set.clear();
    assert_eq!(set.len, 0);
    assert!(set.is_empty());
}

#[test]
fn clearing_bumps_the_epoch_and_keeps_the_stamps() {
    let mut set = StampedVisitedSet::<u32>::with_capacity(8);
    assert_eq!(set.epoch, 1);
    set.insert(3);
    set.clear();
    assert_eq!(set.epoch, 2);
    assert_eq!(set.stamps, vec![0, 0, 0, 1, 0, 0, 0, 0]);
    assert_eq!(set.len, 0);
    // All the way through the epochs: a stale stamp never comes back to life.
    for _ in 2..=u16::MAX as u32 {
        assert!(!set.contains(&3));
        set.clear();
    }
    assert_eq!(set.epoch, 1);
    assert_eq!(set.stamps, vec![0; 8]);
    assert!(!set.contains(&3));
}

#[test]
fn the_dense_array_doubles() {
    let mut set = StampedVisitedSet::<u32>::new();
    assert_eq!(set.stamps.len(), 0);
    set.insert(0);
    assert_eq!(set.stamps.len(), 64);
    set.insert(64);
    assert_eq!(set.stamps.len(), 128);
    set.insert(1000);
    assert_eq!(set.stamps.len(), 1001);
    set.insert(1000);
    assert_eq!(set.stamps.len(), 1001);
    // Just below the bound would be dense; at the bound it is not.
    set.insert(MAX_DENSE_SLOTS as u32);
    assert_eq!(set.stamps.len(), 1001);
    assert!(set.contains(&(MAX_DENSE_SLOTS as u32)));
    assert_eq!(set.len, 4);
}

#[test]
fn extending_inserts_every_id() {
    let mut set = StampedVisitedSet::<u64>::new();
    set.insert(2);
    set.extend(&[4, u64::MAX, 4, 2]);
    for id in [2, 4, u64::MAX] {
        assert!(set.contains(&id));
    }
    assert!(!set.contains(&3));
    assert_eq!(set.len, 3);
    assert_eq!(set.stamps.len(), 64);
    // The array grows as it does one id at a time: to 128 slots, to 301, and to 602.
    set.extend(&[100, 300, 301, 7]);
    assert_eq!(set.stamps.len(), 602);
}

#[test]
fn the_tracker_marks_ids() {
    let mut set = StampedVisitedSet::<u32>::new();
    assert!(!set.is_visited(&9));
    assert!(set.mark_visited(&9));
    assert!(!set.mark_visited(&9));
    assert!(set.is_visited(&9));
    assert_eq!(set.epoch, 1);
    assert_eq!(set.stamps.len(), 64);
    set.mark_visited(&200);
    set.mark_visited(&u32::MAX);
    assert_eq!(set.epoch, 1);
    assert_eq!(set.stamps.len(), 201);
}

#[test]
fn inserting_stamps_one_slot() {
    let mut set = StampedVisitedSet::<u32>::with_capacity(4);
    set.insert(0);
    set.clear();
    set.insert(2);
    set.insert(u32::MAX);
    assert_eq!(set.stamps, vec![1, 0, 2, 0]);
    set.extend(&[2, 4]);
    let mut grown = vec![0; 64];
    grown[0] = 1;
    grown[2] = 2;
    grown[4] = 2;
    assert_eq!(set.stamps, grown);
}

#[test]
fn a_size_hint_presizes_the_visited_set() {
    let x = SearchScratch::<u32>::new(PriorityQueueConfiguration::Fixed(3), Some(100));
    assert_eq!(x.visited.stamps.len(), 100);
    assert!(x.visited.is_empty());
    assert_eq!(x.visited.epoch, 1);
}

fn used_scratch(nbest: PriorityQueueConfiguration) -> SearchScratch<u32> {
    let mut x = SearchScratch::<u32>::new(nbest, None);
    x.visited.insert(1);
    x.visited.insert(u32::MAX);
    x.id_scratch.push(1);
    x.beam_nodes.push(2);
    x.range_frontier.push_back(3);
    x.in_range.push(Neighbor::new(4, 5));
    x.best.insert(Neighbor::new(6, 7));
    x.hops = 8;
    x.cmps = 9;
    x
}

#[test]
fn reusing_a_pooled_scratch_is_creating_one() {
    let param = SearchScratchParams {
        l_value: 100,
        max_degree: 100,
        num_frozen_pts: 1,
    };
    let created = SearchScratch::<u32>::create(&param);
    assert_eq!(created.search_l(), 101);
    assert!(!created.best.is_resizable());
    assert_eq!(created.visited.stamps.len(), 14_301);

    for nbest in [
        PriorityQueueConfiguration::Fixed(7),
        PriorityQueueConfiguration::Resizable(7),
    ] {
        let mut x = used_scratch(nbest);
        x.modify(&param);
        assert_eq!(x.search_l(), 101);
        assert!(!x.best.is_resizable());
        assert_eq!(x.best.size(), 0);
        assert!(x.visited.is_empty());
        assert!(x.id_scratch.is_empty());
        assert!(x.beam_nodes.is_empty());
        assert!(x.range_frontier.is_empty());
        assert!(x.in_range.is_empty());
        assert_eq!((x.hops, x.cmps), (0, 0));
    }
}

#[test]
fn reusing_a_scratch_bumps_the_epoch_of_its_visited_set() {
    let param = SearchScratchParams {
        l_value: 2,
        max_degree: 3,
        num_frozen_pts: 1,
    };
    let mut x = used_scratch(PriorityQueueConfiguration::Fixed(7));
    let stamps = x.visited.stamps.clone();
    assert_eq!(stamps[1], 1);
    x.clear();
    assert_eq!(x.visited.epoch, 2);
    assert_eq!(x.visited.stamps, stamps);
    x.modify(&param);
    assert_eq!(x.visited.epoch, 3);
    assert_eq!(x.visited.stamps, stamps);

    x.visited.epoch = u16::MAX;
    x.modify(&param);
    assert_eq!(x.visited.epoch, 1);
    assert_eq!(x.visited.stamps, vec![0; 64]);
    x.visited.epoch = u16::MAX;
    x.clear();
    assert_eq!(x.visited.epoch, 1);
}

#[test]
fn clearing_keeps_the_configuration() {
    let mut x = used_scratch(PriorityQueueConfiguration::Resizable(7));
    x.clear();
    assert!(x.best.is_resizable());
    assert_eq!(x.search_l(), 7);
    assert!(x.visited.is_empty());
    assert!(x.range_frontier.is_empty());
    assert!(x.in_range.is_empty());
    assert!(x.beam_nodes.is_empty());
}

fn ids(queue: &NeighborPriorityQueue<u32>) -> Vec<u32> {
    queue.neighbors.iter().map(|n| n.id).collect()
}

#[test]
fn a_fixed_queue_discards_the_worst() {
    let mut queue = NeighborPriorityQueue::<u32>::new(3);
    for (id, distance) in [(1, 4.0_f32), (2, 1.0), (3, 3.0), (4, 2.0), (5, 9.0), (6, 2.0)] {
        queue.insert(Neighbor::new(id, distance.to_bits()));
    }
    assert_eq!(ids(&queue), vec![2, 4, 6]);
    queue.reconfigure(2);
    assert_eq!(ids(&queue), vec![2, 4]);
    queue.reconfigure(4);
    queue.insert(Neighbor::new(7, 0.5_f32.to_bits()));
    assert_eq!(ids(&queue), vec![7, 2, 4]);
}

#[test]
fn a_resizable_queue_keeps_everything() {
    let mut queue = NeighborPriorityQueue::<u32>::auto_resizable_with_search_param_l(1);
    for id in 0..5 {
        queue.insert(Neighbor::new(id, 10 - id));
    }
    assert_eq!(queue.size(), 5);
    assert_eq!(ids(&queue), vec![4, 3, 2, 1, 0]);
    queue.reconfigure(2);
    assert_eq!(queue.size(), 5);
    assert_eq!(queue.search_l(), 2);
}

#[test]
fn the_best_unvisited_candidate_comes_first() {
    let mut queue = NeighborPriorityQueue::<u32>::new(3);
    assert!(!queue.has_notvisited_node());
    assert!(queue.closest_notvisited().is_none());
    queue.insert(Neighbor::new(1, 10));
    queue.insert(Neighbor::new(2, 20));
    queue.insert(Neighbor::new(3, 30));
    assert!(queue.has_notvisited_node());
    assert_eq!(queue.closest_notvisited().map(|n| n.id), Some(1));
    assert_eq!(queue.visited, vec![true, false, false]);

    // A nearer candidate comes next; the worst one is discarded with its mark.
    queue.insert(Neighbor::new(4, 5));
    assert_eq!(ids(&queue), vec![4, 1, 2]);
    assert_eq!(queue.visited, vec![false, true, false]);
    assert_eq!(queue.closest_notvisited().map(|n| n.id), Some(4));
    assert_eq!(queue.closest_notvisited().map(|n| n.id), Some(2));
    assert!(!queue.has_notvisited_node());
    assert!(queue.closest_notvisited().is_none());
    assert_eq!(queue.size(), 3);

    queue.reconfigure(2);
    assert_eq!(queue.visited, vec![true, true]);
    queue.clear();
    assert_eq!(queue.visited, Vec::<bool>::new());
}

#[test]
fn resizing_discards_candidates_with_their_marks() {
    let mut x = SearchScratch::<u32>::new(PriorityQueueConfiguration::Fixed(3), None);
    for id in 1..4 {
        x.best.insert(Neighbor::new(id, id));
    }
    x.best.closest_notvisited();
    x.resize(2);
    assert_eq!(ids(&x.best), vec![1, 2]);
    assert_eq!(x.best.visited, vec![true, false]);
}

#[test]
fn a_fixed_queue_holds_the_best_seen() {
    let mut fixed = NeighborPriorityQueue::<u32>::new(4);
    let mut unbounded = NeighborPriorityQueue::<u32>::auto_resizable_with_search_param_l(4);
    for id in 0..50 {
        let neighbor = Neighbor::new(id, (id * 37 + 11) % 23);
        fixed.insert(neighbor);
        unbounded.insert(neighbor);
    }
    assert_eq!(unbounded.size(), 50);
    assert_eq!(ids(&fixed), ids(&unbounded)[..4].to_vec());
}
