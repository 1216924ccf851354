//! For each chunk, the positions in the list of chunks of its four
//! orthogonal neighbors, for evaluators that find a chunk's neighbors by
//! position in the list.
use vstd::prelude::*;

use std::collections::HashMap;

use crate::storage::{chunk_key, lemma_chunk_key_injective, spec_chunk_key};

verus! {

broadcast use vstd::std_specs::hash::group_hash_axioms;

/// The last position at which `c` occurs in `coords`, if it occurs.
pub open spec fn last_index_of(coords: Seq<(isize, isize)>, c: (isize, isize)) -> Option<int>
    decreases coords.len(),
{
    if coords.len() == 0 {
        None
    } else if coords.last() == c {
        Some(coords.len() - 1)
    } else {
        last_index_of(coords.drop_last(), c)
    }
}

/// The chunk next to chunk `c` in direction `k`: up, left, right, down.
pub open spec fn neighbor_chunk(c: (isize, isize), k: int) -> (int, int) {
    if k == 0 {
        (c.0 as int, c.1 - 1)
    } else if k == 1 {
        (c.0 - 1, c.1 as int)
    } else if k == 2 {
        (c.0 + 1, c.1 as int)
    } else {
        (c.0 as int, c.1 + 1)
    }
}

/// The entry for a neighbor: its last position in the list, as an `i32`
/// (wrapping around past the greatest `i32`, as `as i32` does), or -1 where
/// it is not in the list.
pub open spec fn neighbor_entry(coords: Seq<(isize, isize)>, n: (int, int)) -> i32 {
    match last_index_of(coords, (n.0 as isize, n.1 as isize)) {
        Some(i) => i as i32,
        None => -1i32,
    }
}

/// A last position found lies within the list and holds `c`.
proof fn lemma_last_index_of(coords: Seq<(isize, isize)>, c: (isize, isize))
    ensures
        last_index_of(coords, c) matches Some(i) ==> 0 <= i < coords.len() && coords[i] == c,
    decreases coords.len(),
{
    if coords.len() > 0 && coords.last() != c {
        lemma_last_index_of(coords.drop_last(), c);
    }
}

/// The positions of the chunks by their keys, the last position where a
/// chunk occurs twice.
fn index_by_key(chunk_coords: &[(isize, isize)]) -> (m: HashMap<i128, i32>)
    requires
        forall|t: int| 0 <= t < chunk_coords@.len() ==> #[trigger] chunk_coords@[t].0 > isize::MIN,
    ensures
        forall|c: (isize, isize)|
            c.0 > isize::MIN ==> (#[trigger] m@.contains_key(spec_chunk_key(c)) <==> last_index_of(
                chunk_coords@,
                c,
            ) is Some) && (m@.contains_key(spec_chunk_key(c)) ==> m@[spec_chunk_key(c)] == last_index_of(
                chunk_coords@,
                c,
            )->0 as i32),
{
    let mut m: HashMap<i128, i32> = HashMap::new();
    let mut i: usize = 0;
    while i < chunk_coords.len()
        invariant
            i <= chunk_coords@.len(),
            forall|t: int| 0 <= t < chunk_coords@.len() ==> #[trigger] chunk_coords@[t].0 > isize::MIN,
            forall|c: (isize, isize)|
                c.0 > isize::MIN ==> (#[trigger] m@.contains_key(spec_chunk_key(c)) <==> last_index_of(
                    chunk_coords@.subrange(0, i as int),
                    c,
                ) is Some) && (m@.contains_key(spec_chunk_key(c)) ==> m@[spec_chunk_key(c)] == last_index_of(
                    chunk_coords@.subrange(0, i as int),
                    c,
                )->0 as i32),
        decreases chunk_coords@.len() - i,
    {
        let c = chunk_coords[i];
        let ghost before = m@;
        m.insert(chunk_key(c), i as i32);
        proof {
            let pre = chunk_coords@.subrange(0, i as int);
            let post = chunk_coords@.subrange(0, i + 1);
            assert(post.drop_last() =~= pre);
            assert forall|c2: (isize, isize)| c2.0 > isize::MIN implies (#[trigger] m@.contains_key(
                spec_chunk_key(c2),
            ) <==> last_index_of(post, c2) is Some) && (m@.contains_key(spec_chunk_key(c2)) ==> m@[spec_chunk_key(
                c2,
            )] == last_index_of(post, c2)->0 as i32) by {
                lemma_chunk_key_injective(c2, c);
                assert(before.contains_key(spec_chunk_key(c2)) <==> last_index_of(pre, c2) is Some);
            }
        }
        i = i + 1;
    }
    assert(chunk_coords@.subrange(0, chunk_coords@.len() as int) =~= chunk_coords@);
    m
}

/// The entry for the chunk at `n`.
fn neighbor_entry_of(m: &HashMap<i128, i32>, n: (isize, isize), Ghost(coords): Ghost<Seq<(isize, isize)>>) -> (r: i32)
    requires
        forall|t: int| 0 <= t < coords.len() ==> #[trigger] coords[t].0 > isize::MIN,
        forall|c: (isize, isize)|
            c.0 > isize::MIN ==> (#[trigger] m@.contains_key(spec_chunk_key(c)) <==> last_index_of(coords, c) is Some)
                && (m@.contains_key(spec_chunk_key(c)) ==> m@[spec_chunk_key(c)] == last_index_of(coords, c)->0 as i32),
    ensures
        r == neighbor_entry(coords, (n.0 as int, n.1 as int)),
{
    proof {
        lemma_last_index_of(coords, n);
    }
    if n.0 == isize::MIN {
        return -1;
    }
    match m.get(&chunk_key(n)) {
        Some(index) => *index,
        None => -1,
    }
}

/// For each chunk, in order, the positions of the chunks above, to the
/// left, to the right and below it in `chunk_coords`, -1 for a chunk that
/// is not there.
pub fn build_neighbor_indices(chunk_coords: &[(isize, isize)]) -> (r: Vec<i32>)
    requires
        forall|t: int|
            0 <= t < chunk_coords@.len() ==> isize::MIN < #[trigger] chunk_coords@[t].0 < isize::MAX && isize::MIN
                < chunk_coords@[t].1 < isize::MAX,
    ensures
        r@.len() == 4 * chunk_coords@.len(),
        forall|t: int, k: int|
            0 <= t < chunk_coords@.len() && 0 <= k < 4 ==> #[trigger] r@[4 * t + k] == neighbor_entry(
                chunk_coords@,
                neighbor_chunk(chunk_coords@[t], k),
            ),
{
    let chunk_indices = index_by_key(chunk_coords);
    let mut neighbor_indices: Vec<i32> = Vec::new();
    let mut t: usize = 0;
    while t < chunk_coords.len()
        invariant
            t <= chunk_coords@.len(),
            forall|u: int|
                0 <= u < chunk_coords@.len() ==> isize::MIN < #[trigger] chunk_coords@[u].0 < isize::MAX && isize::MIN
                    < chunk_coords@[u].1 < isize::MAX,
            forall|c: (isize, isize)|
                c.0 > isize::MIN ==> (#[trigger] chunk_indices@.contains_key(spec_chunk_key(c)) <==> last_index_of(
                    chunk_coords@,
                    c,
                ) is Some) && (chunk_indices@.contains_key(spec_chunk_key(c)) ==> chunk_indices@[spec_chunk_key(c)]
                    == last_index_of(chunk_coords@, c)->0 as i32),
            neighbor_indices@.len() == 4 * t,
            forall|u: int, k: int|
                0 <= u < t && 0 <= k < 4 ==> #[trigger] neighbor_indices@[4 * u + k] == neighbor_entry(
                    chunk_coords@,
                    neighbor_chunk(chunk_coords@[u], k),
                ),
        decreases chunk_coords@.len() - t,
    {
        let (x, y) = chunk_coords[t];
        let ghost coords = chunk_coords@;
        neighbor_indices.push(neighbor_entry_of(&chunk_indices, (x, y - 1), Ghost(coords)));
        neighbor_indices.push(neighbor_entry_of(&chunk_indices, (x - 1, y), Ghost(coords)));
        neighbor_indices.push(neighbor_entry_of(&chunk_indices, (x + 1, y), Ghost(coords)));
        neighbor_indices.push(neighbor_entry_of(&chunk_indices, (x, y + 1), Ghost(coords)));
        proof {
            assert forall|u: int, k: int| 0 <= u < t + 1 && 0 <= k < 4 implies #[trigger] neighbor_indices@[4 * u + k]
                == neighbor_entry(chunk_coords@, neighbor_chunk(chunk_coords@[u], k)) by {
                if u < t {
                    assert(neighbor_indices@[4 * u + k] == neighbor_indices@.subrange(0, 4 * t)[4 * u + k]);
                }
            }
        }
        t = t + 1;
    }
    neighbor_indices
}

} // verus!
