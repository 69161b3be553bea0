use game_engine::components::{CollisionGroups, DamageType, Grounded, OnTriggerEnter, TriggerTracker};

fn groups(memberships: u32, filters: u32) -> CollisionGroups {
    CollisionGroups { memberships, filters }
}

fn sorted(mut v: Vec<u64>) -> Vec<u64> {
    v.sort();
    v
}

#[test]
fn can_collide_when_each_filters_the_other() {
    let player = groups(0b01, 0b10);
    let wall = groups(0b10, 0b01);
    assert!(player.can_collide(&wall));
    assert!(wall.can_collide(&player));
}

#[test]
fn can_collide_needs_both_directions() {
    // the player filters the wall's layer, but the wall ignores the player's
    let player = groups(0b001, 0b010);
    let wall = groups(0b010, 0b100);
    assert!(!player.can_collide(&wall));
    assert!(!wall.can_collide(&player));
}

#[test]
fn can_collide_same_layer() {
    let a = groups(0b1000, 0b1000);
    let b = groups(0b1000, 0b1000);
    assert!(a.can_collide(&b));
}

#[test]
fn can_collide_empty_masks_never_collide() {
    let all = groups(u32::MAX, u32::MAX);
    assert!(!groups(0, u32::MAX).can_collide(&all));
    assert!(!groups(u32::MAX, 0).can_collide(&all));
    assert!(all.can_collide(&all));
}

#[test]
fn can_collide_high_layer() {
    let a = groups(1 << 31, 1 << 31);
    let b = groups(1 << 31, 1);
    assert!(!a.can_collide(&b));
    let c = groups((1 << 31) | 1, 1 << 31);
    assert!(a.can_collide(&c));
}

#[test]
fn can_collide_is_symmetric_on_samples() {
    let masks = [0u32, 1, 2, 3, 5, 0x8000_0000, 0xffff_ffff, 0x0f0f_0f0f, 0xf0f0_f0f0];
    for &m1 in &masks {
        for &f1 in &masks {
            for &m2 in &masks {
                for &f2 in &masks {
                    let a = groups(m1, f1);
                    let b = groups(m2, f2);
                    assert_eq!(a.can_collide(&b), b.can_collide(&a));
                    let expected = (m1 & f2) != 0 && (m2 & f1) != 0;
                    assert_eq!(a.can_collide(&b), expected);
                }
            }
        }
    }
}

#[test]
fn trigger_tracker_starts_empty() {
    let t = TriggerTracker::default();
    assert!(t.current_frame.is_empty());
    assert!(t.last_frame.is_empty());
    assert!(t.entered().is_empty());
    assert!(t.exited().is_empty());
    assert!(t.stayed().is_empty());
}

#[test]
fn trigger_enter_stay_exit_sequence() {
    let mut t = TriggerTracker::default();
    // frame 1: overlap trigger 10
    t.begin_frame();
    t.record_overlap(10);
    assert_eq!(t.entered(), vec![10]);
    assert!(t.exited().is_empty());
    assert!(t.stayed().is_empty());
    // frame 2: still overlapping 10, now also 20
    t.begin_frame();
    t.record_overlap(10);
    t.record_overlap(20);
    assert_eq!(t.entered(), vec![20]);
    assert!(t.exited().is_empty());
    assert_eq!(t.stayed(), vec![10]);
    // frame 3: only 20 left
    t.begin_frame();
    t.record_overlap(20);
    assert!(t.entered().is_empty());
    assert_eq!(t.exited(), vec![10]);
    assert_eq!(t.stayed(), vec![20]);
    // frame 4: nothing
    t.begin_frame();
    assert!(t.entered().is_empty());
    assert_eq!(t.exited(), vec![20]);
    assert!(t.stayed().is_empty());
}

#[test]
fn trigger_begin_frame_moves_current_to_last() {
    let mut t = TriggerTracker::default();
    t.record_overlap(1);
    t.record_overlap(2);
    t.begin_frame();
    assert!(t.current_frame.is_empty());
    assert_eq!(t.last_frame.len(), 2);
    assert!(t.last_frame.contains(&1) && t.last_frame.contains(&2));
}

#[test]
fn trigger_record_twice_counts_once() {
    let mut t = TriggerTracker::default();
    t.record_overlap(7);
    t.record_overlap(7);
    assert_eq!(t.entered(), vec![7]);
}

#[test]
fn trigger_events_partition_many() {
    let mut t = TriggerTracker::default();
    for i in 0..50u64 {
        t.record_overlap(i);
    }
    t.begin_frame();
    for i in 25..75u64 {
        t.record_overlap(i);
    }
    assert_eq!(sorted(t.entered()), (50..75).collect::<Vec<u64>>());
    assert_eq!(sorted(t.exited()), (0..25).collect::<Vec<u64>>());
    assert_eq!(sorted(t.stayed()), (25..50).collect::<Vec<u64>>());
    let events: Vec<OnTriggerEnter> =
        t.entered().into_iter().map(|target_entity| OnTriggerEnter { target_entity }).collect();
    assert_eq!(events.len(), 25);
}

#[test]
fn riding_platform_only_when_grounded() {
    assert_eq!(Grounded(true, Some(9)).riding_platform(), Some(9));
    assert_eq!(Grounded(false, Some(9)).riding_platform(), None);
    assert_eq!(Grounded(true, None).riding_platform(), None);
    assert_eq!(Grounded(false, None).riding_platform(), None);
}

#[test]
fn damage_types_are_distinct() {
    assert_ne!(DamageType::Physical, DamageType::Fire);
    assert_ne!(DamageType::Ice, DamageType::Electric);
    assert_eq!(DamageType::Fire, DamageType::Fire);
}
