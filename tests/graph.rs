use particles::graph::{Edge, ProximityGraph, Proximity};
use rand::rngs::StdRng;
use rand::SeedableRng;

fn pairs(g: &ProximityGraph) -> Vec<(usize, usize)> {
    g.edges().iter().map(|e| (e.left(), e.right())).collect()
}

fn uniform(n: usize, p: Proximity) -> Vec<Vec<Proximity>> {
    vec![vec![p; n]; n]
}

#[test]
fn edge_new_orders_endpoints() {
    let e = Edge::new(5, 2);
    assert_eq!((e.left(), e.right()), (2, 5));
    let f = Edge::new(2, 5);
    assert_eq!((f.left(), f.right()), (2, 5));
    assert_eq!(e, f);
    let g = Edge::new(0, 1);
    assert!(g.left() < g.right());
}

#[test]
fn new_graph_is_empty() {
    let g = ProximityGraph::new(7);
    assert_eq!(g.len(), 0);
    assert_eq!(g.n_particles(), 7);
    assert!(g.edges().is_empty());
}

#[test]
fn resample_adds_within_pairs_on_heads_in_order() {
    let mut g = ProximityGraph::new(4);
    let prox = uniform(4, Proximity::Within);
    let mut coins = vec![vec![false; 4]; 4];
    coins[2][3] = true;
    coins[0][2] = true;
    coins[1][0] = true; // below the diagonal: never read
    g.resample(&prox, &coins);
    assert_eq!(pairs(&g), vec![(0, 2), (2, 3)]);
}

#[test]
fn resample_prunes_beyond_and_keeps_boundary() {
    let mut g = ProximityGraph::new(3);
    let all = vec![vec![true; 3]; 3];
    g.resample(&uniform(3, Proximity::Within), &all);
    assert_eq!(pairs(&g), vec![(0, 1), (0, 2), (1, 2)]);

    let mut prox = uniform(3, Proximity::Within);
    prox[0][1] = Proximity::Beyond;
    prox[0][2] = Proximity::Boundary;
    let none = vec![vec![false; 3]; 3];
    g.resample(&prox, &none);
    assert_eq!(pairs(&g), vec![(0, 2), (1, 2)]);

    // a boundary pair gains no edge, even on heads
    let mut h = ProximityGraph::new(3);
    h.resample(&uniform(3, Proximity::Boundary), &all);
    assert_eq!(h.len(), 0);
}

#[test]
fn far_particles_never_gain_edges() {
    let mut g = ProximityGraph::new(5);
    let mut rng = StdRng::seed_from_u64(7);
    for _ in 0..50 {
        g.update_edges(&mut rng, &uniform(5, Proximity::Beyond));
        assert_eq!(g.len(), 0);
    }
}

#[test]
fn close_particles_gain_edges_by_coin_flips() {
    let mut g = ProximityGraph::new(6);
    let mut rng = StdRng::seed_from_u64(11);
    let prox = uniform(6, Proximity::Within);
    let mut seen_some = false;
    let mut seen_all = false;
    for _ in 0..200 {
        let before = pairs(&g);
        g.update_edges(&mut rng, &prox);
        let after = pairs(&g);
        // nothing is pruned while every pair is in range
        for p in &before {
            assert!(after.contains(p));
        }
        for w in after.windows(2) {
            assert!(w[0] < w[1]);
        }
        for &(l, r) in &after {
            assert!(l < r && r < 6);
        }
        if !after.is_empty() {
            seen_some = true;
        }
        if after.len() == 15 {
            seen_all = true;
        }
    }
    assert!(seen_some);
    assert!(seen_all);
}

#[test]
fn same_seed_gives_same_edges() {
    let mut a = ProximityGraph::new(8);
    let mut b = ProximityGraph::new(8);
    let mut ra = StdRng::seed_from_u64(42);
    let mut rb = StdRng::seed_from_u64(42);
    for t in 0..30 {
        let mut prox = uniform(8, Proximity::Within);
        for i in 0..8 {
            for j in 0..8 {
                if (i + j + t) % 3 == 0 {
                    prox[i][j] = Proximity::Beyond;
                }
            }
        }
        a.update_edges(&mut ra, &prox);
        b.update_edges(&mut rb, &prox);
        assert_eq!(pairs(&a), pairs(&b));
    }
}

#[test]
fn edges_order_by_left_then_right() {
    assert!(Edge::new(0, 5) < Edge::new(1, 2));
    assert!(Edge::new(1, 2) < Edge::new(3, 1));
    assert_eq!(Edge::new(4, 2).cmp(&Edge::new(2, 4)), std::cmp::Ordering::Equal);
}
