use particles::respawn::{anchor_for, choose_anchor, respawn_order};
use rand::rngs::StdRng;
use rand::SeedableRng;

#[test]
fn respawn_order_lists_flagged_indices_ascending() {
    assert_eq!(respawn_order(&vec![false, true, false, true, true]), vec![1, 3, 4]);
    assert!(respawn_order(&vec![false, false]).is_empty());
    assert!(respawn_order(&vec![]).is_empty());
}

#[test]
fn anchor_is_the_drawn_particle_unless_it_is_replaced() {
    let flags = vec![false, true, false];
    assert_eq!(anchor_for(&flags, 0), Some(0));
    assert_eq!(anchor_for(&flags, 1), None);
    assert_eq!(anchor_for(&flags, 2), Some(2));
}

#[test]
fn chosen_anchors_stay_in_view_and_vary() {
    let flags = vec![false, true, false, false, true, false];
    let mut rng = StdRng::seed_from_u64(3);
    let mut seen = vec![0usize; flags.len()];
    let mut nones = 0;
    for _ in 0..600 {
        match choose_anchor(&mut rng, &flags) {
            Some(a) => {
                assert!(a < flags.len());
                assert!(!flags[a]);
                seen[a] += 1;
            }
            None => nones += 1,
        }
    }
    assert!(nones > 0);
    for (i, &count) in seen.iter().enumerate() {
        assert_eq!(count > 0, !flags[i]);
    }
}

#[test]
fn every_draw_anchors_when_nothing_is_replaced() {
    let flags = vec![false; 4];
    let mut rng = StdRng::seed_from_u64(9);
    for _ in 0..100 {
        let a = choose_anchor(&mut rng, &flags);
        assert!(matches!(a, Some(i) if i < 4));
    }
}
