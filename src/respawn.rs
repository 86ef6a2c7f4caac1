//! Which particles are replaced after a position pass, and where a
//! replacement takes its position from.
use rand::rngs::StdRng;
use vstd::prelude::*;

use crate::random::uniform_index;

verus! {

/// The indices of the particles flagged as out of view, in ascending order.
pub fn respawn_order(out_of_view: &Vec<bool>) -> (ids: Vec<usize>)
    ensures
        forall|a: int, b: int| 0 <= a < b < ids@.len() ==> ids@[a] < ids@[b],
        forall|k: int| 0 <= k < ids@.len() ==> #[trigger] ids@[k] < out_of_view@.len(),
        forall|i: int|
            0 <= i < out_of_view@.len() ==> (out_of_view@[i] <==> #[trigger] ids@.contains(i as usize)),
{
    let mut ids: Vec<usize> = Vec::new();
    let mut i: usize = 0;
    while i < out_of_view.len()
        invariant
            i <= out_of_view@.len(),
            forall|a: int, b: int| 0 <= a < b < ids@.len() ==> ids@[a] < ids@[b],
            forall|k: int| 0 <= k < ids@.len() ==> #[trigger] ids@[k] < i,
            forall|c: int| 0 <= c < i ==> (out_of_view@[c] <==> #[trigger] ids@.contains(c as usize)),
        decreases out_of_view@.len() - i,
    {
        let ghost before = ids@;
        if out_of_view[i] {
            ids.push(i);
            assert(ids@[before.len() as int] == i);
        }
        proof {
            assert forall|c: int| 0 <= c < i + 1 implies (out_of_view@[c] <==> #[trigger] ids@.contains(
                c as usize,
            )) by {
                if ids@.contains(c as usize) {
                    let w = choose|w: int| 0 <= w < ids@.len() && ids@[w] == c as usize;
                    if w < before.len() {
                        assert(before.contains(c as usize));
                    }
                }
                if c < i && before.contains(c as usize) {
                    let w = choose|w: int| 0 <= w < before.len() && before[w] == c as usize;
                    assert(ids@[w] == c as usize);
                }
            }
        }
        i += 1;
    }
    ids
}

/// The anchor that a replacement takes its position from, given the index
/// drawn for it: the drawn particle, unless that one is being replaced in
/// the same pass, in which case the replacement keeps its own position.
pub fn anchor_for(out_of_view: &Vec<bool>, drawn: usize) -> (anchor: Option<usize>)
    requires
        drawn < out_of_view@.len(),
    ensures
        anchor == (if out_of_view@[drawn as int] { None } else { Some(drawn) }),
{
    if out_of_view[drawn] {
        None
    } else {
        Some(drawn)
    }
}

/// Draws an index uniformly among all particles and returns it as the
/// anchor unless that particle is itself being replaced. An anchor is
/// always a particle that stays in view, and when no particle is being
/// replaced the drawn index is always the anchor.
pub fn choose_anchor(rng: &mut StdRng, out_of_view: &Vec<bool>) -> (anchor: Option<usize>)
    requires
        out_of_view@.len() > 0,
    ensures
        anchor matches Some(a) ==> a < out_of_view@.len() && !out_of_view@[a as int],
        anchor is None ==> exists|i: int| 0 <= i < out_of_view@.len() && out_of_view@[i],
{
    let drawn = uniform_index(rng, out_of_view.len());
    anchor_for(out_of_view, drawn)
}

} // verus!
