//! The proximity graph: a set of canonical edges between particle indices,
//! pruned and resampled once per tick.
use rand::rngs::StdRng;
use vstd::prelude::*;

use crate::random::fair_coin;

verus! {

/// `a` comes before `b` in lexicographic order.
pub open spec fn pair_lt(a: (int, int), b: (int, int)) -> bool {
    a.0 < b.0 || (a.0 == b.0 && a.1 < b.1)
}

/// `p` is a canonical pair of two distinct particles among `n`.
pub open spec fn is_pair(p: (int, int), n: int) -> bool {
    0 <= p.0 < p.1 < n
}

/// Every element comes strictly before the next one.
pub open spec fn strictly_sorted(s: Seq<(int, int)>) -> bool {
    forall|a: int, b: int| 0 <= a < b < s.len() ==> pair_lt(#[trigger] s[a], #[trigger] s[b])
}

/// Two strictly ascending sequences that hold the same pairs are equal.
pub proof fn lemma_sorted_unique(a: Seq<(int, int)>, b: Seq<(int, int)>)
    requires
        strictly_sorted(a),
        strictly_sorted(b),
        forall|p: (int, int)| a.contains(p) <==> b.contains(p),
    ensures
        a == b,
    decreases a.len(),
{
    if a.len() == 0 {
        if b.len() > 0 {
            assert(b.contains(b[0]));
        }
        assert(a =~= b);
    } else {
        assert(a.contains(a[0]));
        if b.len() == 0 {
            assert(false);
        }
        assert(b.contains(b[0]));
        let w = choose|w: int| 0 <= w < b.len() && b[w] == a[0];
        let v = choose|v: int| 0 <= v < a.len() && a[v] == b[0];
        if w > 0 {
            assert(pair_lt(b[0], b[w]));
            if v > 0 {
                assert(pair_lt(a[0], a[v]));
            }
        }
        assert(a[0] == b[0]);
        let ra = a.subrange(1, a.len() as int);
        let rb = b.subrange(1, b.len() as int);
        assert forall|p: (int, int)| ra.contains(p) implies rb.contains(p) by {
            let x = choose|x: int| 0 <= x < ra.len() && ra[x] == p;
            assert(a.contains(p));
            let y = choose|y: int| 0 <= y < b.len() && b[y] == p;
            assert(pair_lt(a[0], a[x + 1]));
            if y == 0 {
                assert(false);
            }
            assert(rb[y - 1] == p);
        }
        assert forall|p: (int, int)| rb.contains(p) implies ra.contains(p) by {
            let y = choose|y: int| 0 <= y < rb.len() && rb[y] == p;
            assert(b.contains(p));
            let x = choose|x: int| 0 <= x < a.len() && a[x] == p;
            assert(pair_lt(b[0], b[y + 1]));
            if x == 0 {
                assert(false);
            }
            assert(ra[x - 1] == p);
        }
        lemma_sorted_unique(ra, rb);
        assert(a.len() == b.len());
        assert forall|k: int| 0 <= k < a.len() implies a[k] == b[k] by {
            if k > 0 {
                assert(a[k] == ra[k - 1]);
                assert(b[k] == rb[k - 1]);
            }
        }
        assert(a =~= b);
    }
}

/// The edges after a tick are a function of the edges before it, the
/// proximity of the pairs, and the coins drawn from the random stream: two
/// graphs in the same state that see the same inputs end in the same state,
/// edge for edge and in the same order.
pub proof fn lemma_resample_deterministic(
    n: int,
    before: Seq<(int, int)>,
    proximity: Seq<Vec<Proximity>>,
    coins: Seq<Vec<bool>>,
    after1: Seq<(int, int)>,
    after2: Seq<(int, int)>,
)
    requires
        strictly_sorted(after1),
        strictly_sorted(after2),
        forall|p: (int, int)|
            #[trigger] after1.contains(p) <==> (is_pair(p, n) && resampled(before, proximity, coins, p)),
        forall|p: (int, int)|
            #[trigger] after2.contains(p) <==> (is_pair(p, n) && resampled(before, proximity, coins, p)),
    ensures
        after1 == after2,
{
    assert forall|p: (int, int)| after1.contains(p) <==> after2.contains(p) by {
        assert(after1.contains(p) <==> (is_pair(p, n) && resampled(before, proximity, coins, p)));
        assert(after2.contains(p) <==> (is_pair(p, n) && resampled(before, proximity, coins, p)));
    }
    lemma_sorted_unique(after1, after2);
}

/// An unordered pair of particle indices, stored with the smaller one first.
#[derive(Clone, Copy, Debug, PartialEq, Eq, PartialOrd, Ord, Structural)]
pub struct Edge {
    left: usize,
    right: usize,
}

impl Edge {
    #[verifier::type_invariant]
    spec fn canonical(self) -> bool {
        self.left < self.right
    }

    /// The pair (smaller index, larger index).
    pub closed spec fn view(self) -> (int, int) {
        (self.left as int, self.right as int)
    }

    /// The edge between two distinct particles, whichever order they come in.
    pub fn new(left: usize, right: usize) -> (e: Edge)
        requires
            left != right,
        ensures
            e@ == (if left < right { (left as int, right as int) } else { (right as int, left as int) }),
            e@.0 < e@.1,
    {
        if left > right {
            Edge { left: right, right: left }
        } else {
            Edge { left, right }
        }
    }

    /// The smaller index.
    pub fn left(&self) -> (r: usize)
        ensures
            r == self@.0,
            self@.0 < self@.1,
    {
        proof {
            use_type_invariant(self);
        }
        self.left
    }

    /// The larger index.
    pub fn right(&self) -> (r: usize)
        ensures
            r == self@.1,
            self@.0 < self@.1,
    {
        proof {
            use_type_invariant(self);
        }
        self.right
    }
}

/// How the distance between two particles compares with the edge length.
#[derive(Clone, Copy, Debug, PartialEq, Eq, Structural)]
pub enum Proximity {
    /// Strictly closer than the edge length: the pair may gain an edge.
    Within,
    /// Exactly at the edge length: an edge survives but is not resampled.
    Boundary,
    /// Farther than the edge length: an edge is pruned.
    Beyond,
}

/// `m` is an `n` by `n` matrix.
pub open spec fn is_square<T>(m: Seq<Vec<T>>, n: int) -> bool {
    m.len() == n && forall|i: int| 0 <= i < n ==> (#[trigger] m[i])@.len() == n
}

/// The entry of `m` at row `p.0`, column `p.1`.
pub open spec fn entry<T>(m: Seq<Vec<T>>, p: (int, int)) -> T {
    m[p.0]@[p.1]
}

/// An edge of `edges` that pruning keeps.
pub open spec fn survives(edges: Seq<(int, int)>, proximity: Seq<Vec<Proximity>>, p: (int, int)) -> bool {
    edges.contains(p) && entry(proximity, p) != Proximity::Beyond
}

/// `p` is an edge after pruning `edges` and sampling each pair within
/// range by its coin in `coins`.
pub open spec fn resampled(
    edges: Seq<(int, int)>,
    proximity: Seq<Vec<Proximity>>,
    coins: Seq<Vec<bool>>,
    p: (int, int),
) -> bool {
    survives(edges, proximity, p) || (entry(proximity, p) == Proximity::Within && entry(coins, p))
}

/// The pairs that a sequence of edges stands for.
pub open spec fn edge_views(s: Seq<Edge>) -> Seq<(int, int)> {
    s.map_values(|e: Edge| e@)
}

/// The edges between `n` particles, kept in ascending order without repeats.
pub struct ProximityGraph {
    n: usize,
    edges: Vec<Edge>,
}

impl ProximityGraph {
    #[verifier::type_invariant]
    spec fn well_formed(self) -> bool {
        &&& strictly_sorted(edge_views(self.edges@))
        &&& forall|k: int|
            0 <= k < self.edges@.len() ==> (#[trigger] self.edges@[k]).left < self.edges@[k].right < self.n
    }

    /// The edges in ascending order.
    pub closed spec fn view(&self) -> Seq<(int, int)> {
        edge_views(self.edges@)
    }

    /// The number of particles that the edges connect.
    pub closed spec fn particle_count(&self) -> nat {
        self.n as nat
    }

    /// The edges are canonical pairs of particles, ascending, each once.
    pub open spec fn valid(&self) -> bool {
        &&& strictly_sorted(self@)
        &&& forall|k: int| 0 <= k < self@.len() ==> is_pair(#[trigger] self@[k], self.particle_count() as int)
    }

    /// A graph without edges between `n` particles.
    pub fn new(n: usize) -> (g: ProximityGraph)
        ensures
            g@ == Seq::<(int, int)>::empty(),
            g.particle_count() == n,
    {
        let g = ProximityGraph { n, edges: Vec::new() };
        assert(g@ =~= Seq::<(int, int)>::empty());
        g
    }

    /// The number of particles.
    pub fn n_particles(&self) -> (r: usize)
        ensures
            r == self.particle_count(),
    {
        self.n
    }

    /// The number of edges.
    pub fn len(&self) -> (r: usize)
        ensures
            r == self@.len(),
    {
        self.edges.len()
    }

    /// A copy of the edges, in ascending order.
    pub fn edges(&self) -> (r: Vec<Edge>)
        ensures
            edge_views(r@) == self@,
            self.valid(),
    {
        proof {
            use_type_invariant(self);
        }
        let mut r: Vec<Edge> = Vec::new();
        let mut k: usize = 0;
        while k < self.edges.len()
            invariant
                k <= self.edges@.len(),
                r@ == self.edges@.subrange(0, k as int),
            decreases self.edges@.len() - k,
        {
            r.push(self.edges[k]);
            k += 1;
            assert(r@ =~= self.edges@.subrange(0, k as int));
        }
        assert(r@ =~= self.edges@);
        r
    }

    /// Prunes and resamples the edges in one pass over the pairs. An edge
    /// stays unless its pair is `Beyond`; a pair that is `Within` gains an
    /// edge when its coin shows true. Only entries above the diagonal are read.
    pub fn resample(&mut self, proximity: &Vec<Vec<Proximity>>, coins: &Vec<Vec<bool>>)
        requires
            is_square(proximity@, old(self).particle_count() as int),
            is_square(coins@, old(self).particle_count() as int),
        ensures
            final(self).particle_count() == old(self).particle_count(),
            final(self).valid(),
            forall|p: (int, int)|
                #[trigger] final(self)@.contains(p) <==> (is_pair(p, old(self).particle_count() as int)
                    && resampled(old(self)@, proximity@, coins@, p)),
    {
        proof {
            use_type_invariant(&*self);
        }
        let n = self.n;
        let ghost olds = self@;
        let mut result: Vec<Edge> = Vec::new();
        let mut k: usize = 0;
        let mut i: usize = 0;
        while i < n
            invariant
                n == self.n,
                olds == self@,
                olds == edge_views(self.edges@),
                strictly_sorted(olds),
                forall|t: int| 0 <= t < olds.len() ==> is_pair(#[trigger] olds[t], n as int),
                is_square(proximity@, n as int),
                is_square(coins@, n as int),
                i <= n,
                k <= olds.len(),
                forall|t: int| 0 <= t < k ==> (#[trigger] olds[t]).0 < i,
                k < olds.len() ==> olds[k as int].0 >= i,
                strictly_sorted(edge_views(result@)),
                forall|t: int| 0 <= t < result@.len() ==> (#[trigger] result@[t]).left < result@[t].right < n,
                forall|t: int| 0 <= t < result@.len() ==> (#[trigger] edge_views(result@)[t]).0 < i,
                forall|p: (int, int)|
                    #[trigger] edge_views(result@).contains(p) <==> (is_pair(p, n as int) && p.0 < i
                        && resampled(olds, proximity@, coins@, p)),
            decreases n - i,
        {
            let mut j: usize = i + 1;
            while j < n
                invariant
                    n == self.n,
                    olds == self@,
                    olds == edge_views(self.edges@),
                    strictly_sorted(olds),
                    forall|t: int| 0 <= t < olds.len() ==> is_pair(#[trigger] olds[t], n as int),
                    is_square(proximity@, n as int),
                    is_square(coins@, n as int),
                    i < n,
                    i < j <= n,
                    k <= olds.len(),
                    forall|t: int| 0 <= t < k ==> pair_lt(#[trigger] olds[t], (i as int, j as int)),
                    k < olds.len() ==> !pair_lt(olds[k as int], (i as int, j as int)),
                    strictly_sorted(edge_views(result@)),
                    forall|t: int| 0 <= t < result@.len() ==> (#[trigger] result@[t]).left < result@[t].right < n,
                    forall|t: int|
                        0 <= t < result@.len() ==> pair_lt(#[trigger] edge_views(result@)[t], (i as int, j as int)),
                    forall|p: (int, int)|
                        #[trigger] edge_views(result@).contains(p) <==> (is_pair(p, n as int) && pair_lt(
                            p,
                            (i as int, j as int),
                        ) && resampled(olds, proximity@, coins@, p)),
                decreases n - j,
            {
                let ghost cur = (i as int, j as int);
                let present = k < self.edges.len() && self.edges[k].left == i && self.edges[k].right == j;
                proof {
                    if present {
                        assert(olds[k as int] == cur);
                    } else {
                        assert forall|t: int| 0 <= t < olds.len() implies olds[t] != cur by {
                            if t > k {
                                assert(pair_lt(olds[k as int], olds[t]));
                            }
                        }
                    }
                    assert(present == olds.contains(cur));
                }
                let near = proximity[i][j];
                let keep = (present && near != Proximity::Beyond) || (near == Proximity::Within && coins[i][j]);
                let ghost before = result@;
                if keep {
                    result.push(Edge { left: i, right: j });
                    assert(edge_views(result@) =~= edge_views(before).push(cur));
                }
                if present {
                    k += 1;
                }
                j += 1;
                proof {
                    let next = (i as int, j as int);
                    assert forall|p: (int, int)|
                        #[trigger] edge_views(result@).contains(p) <==> (is_pair(p, n as int) && pair_lt(p, next)
                            && resampled(olds, proximity@, coins@, p)) by {
                        if keep {
                            if edge_views(result@).contains(p) && p != cur {
                                let w = choose|w: int| 0 <= w < result@.len() && edge_views(result@)[w] == p;
                                assert(edge_views(before)[w] == p);
                            }
                            if p != cur && edge_views(before).contains(p) {
                                let w = choose|w: int| 0 <= w < before.len() && edge_views(before)[w] == p;
                                assert(edge_views(result@)[w] == p);
                            }
                            if p == cur {
                                assert(edge_views(result@)[before.len() as int] == p);
                            }
                        }
                    }
                    if k < olds.len() {
                        if present {
                            assert(pair_lt(olds[k - 1], olds[k as int]));
                        }
                    }
                }
            }
            i += 1;
        }
        *self = ProximityGraph { n, edges: result };
    }

    /// One fair coin for each pair above the diagonal that is `Within`, drawn
    /// in ascending pair order; every other entry is false.
    fn draw_coins(rng: &mut StdRng, proximity: &Vec<Vec<Proximity>>, n: usize) -> (coins: Vec<Vec<bool>>)
        requires
            is_square(proximity@, n as int),
        ensures
            is_square(coins@, n as int),
            forall|p: (int, int)|
                0 <= p.0 < n && 0 <= p.1 < n && #[trigger] entry(coins@, p) ==> p.0 < p.1 && entry(proximity@, p)
                    == Proximity::Within,
    {
        let mut coins: Vec<Vec<bool>> = Vec::new();
        let mut i: usize = 0;
        while i < n
            invariant
                is_square(proximity@, n as int),
                i <= n,
                coins@.len() == i,
                forall|r: int| 0 <= r < i ==> (#[trigger] coins@[r])@.len() == n,
                forall|p: (int, int)|
                    0 <= p.0 < i && 0 <= p.1 < n && #[trigger] entry(coins@, p) ==> p.0 < p.1 && entry(
                        proximity@,
                        p,
                    ) == Proximity::Within,
            decreases n - i,
        {
            let mut row: Vec<bool> = Vec::new();
            let mut j: usize = 0;
            while j < n
                invariant
                    is_square(proximity@, n as int),
                    i < n,
                    j <= n,
                    row@.len() == j,
                    forall|c: int| 0 <= c < j && #[trigger] row@[c] ==> i < c && proximity@[i as int]@[c] == Proximity::Within,
                decreases n - j,
            {
                let heads = if i < j && proximity[i][j] == Proximity::Within {
                    fair_coin(rng)
                } else {
                    false
                };
                row.push(heads);
                j += 1;
            }
            let ghost before = coins@;
            coins.push(row);
            proof {
                assert forall|p: (int, int)|
                    0 <= p.0 < i + 1 && 0 <= p.1 < n && #[trigger] entry(coins@, p) implies p.0 < p.1 && entry(
                        proximity@,
                        p,
                    ) == Proximity::Within by {
                    if p.0 < i {
                        assert(entry(before, p));
                    }
                }
            }
            i += 1;
        }
        coins
    }

    /// The per-tick update: prunes every edge whose pair is `Beyond`, then
    /// flips a fair coin for every pair that is `Within` and adds the edge
    /// on heads. Edges that are neither pruned nor sampled stay.
    pub fn update_edges(&mut self, rng: &mut StdRng, proximity: &Vec<Vec<Proximity>>)
        requires
            is_square(proximity@, old(self).particle_count() as int),
        ensures
            final(self).particle_count() == old(self).particle_count(),
            final(self).valid(),
            forall|p: (int, int)|
                #[trigger] final(self)@.contains(p) ==> is_pair(p, old(self).particle_count() as int) && (survives(
                    old(self)@,
                    proximity@,
                    p,
                ) || entry(proximity@, p) == Proximity::Within),
            forall|p: (int, int)|
                is_pair(p, old(self).particle_count() as int) && survives(old(self)@, proximity@, p)
                    ==> #[trigger] final(self)@.contains(p),
    {
        let coins = Self::draw_coins(rng, proximity, self.n);
        self.resample(proximity, &coins);
    }
}

} // verus!
