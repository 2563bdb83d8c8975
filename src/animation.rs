//! Sprite animation: which frame follows the one shown.
use vstd::prelude::*;

verus! {

/// Whether `i` is the first position of `current` in `frames`.
pub open spec fn is_first_position(frames: Seq<usize>, current: usize, i: int) -> bool {
    &&& 0 <= i < frames.len()
    &&& frames[i] == current
    &&& forall|j: int| 0 <= j < i ==> frames[j] != current
}

/// The first position of `current` in `frames`, or 0 where it does not occur.
pub open spec fn frame_position(frames: Seq<usize>, current: usize) -> int {
    if exists|i: int| is_first_position(frames, current, i) {
        choose|i: int| is_first_position(frames, current, i)
    } else {
        0
    }
}

/// The frame shown after `current`: the one after its first occurrence in
/// `frames`, wrapping round; after a frame that is not in the list, the
/// second one.
pub open spec fn next_frame_of(frames: Seq<usize>, current: usize) -> usize {
    frames[(frame_position(frames, current) + 1) % (frames.len() as int)]
}

/// The frame to show after `current`, or `None` when there are no frames.
pub fn next_frame(frames: &Vec<usize>, current: usize) -> (r: Option<usize>)
    ensures
        frames@.len() == 0 ==> r is None,
        frames@.len() > 0 ==> r == Some(next_frame_of(frames@, current)),
{
    let n = frames.len();
    if n == 0 {
        return None;
    }
    let mut pos: usize = 0;
    let mut k: usize = 0;
    let mut found = false;
    while k < n && !found
        invariant
            n == frames@.len(),
            k <= n,
            !found ==> pos == 0 && forall|j: int| 0 <= j < k ==> frames@[j] != current,
            found ==> is_first_position(frames@, current, pos as int),
        decreases n - k,
    {
        if frames[k] == current {
            pos = k;
            found = true;
        }
        k = k + 1;
    }
    proof {
        if found {
            let c = choose|i: int| is_first_position(frames@, current, i);
            if c < pos {
                assert(frames@[c] != current);
            } else if c > pos {
                assert(frames@[pos as int] != current);
            }
        } else {
            if exists|i: int| is_first_position(frames@, current, i) {
                let i = choose|i: int| is_first_position(frames@, current, i);
                assert(frames@[i] != current);
            }
        }
    }
    Some(frames[(pos + 1) % n])
}

} // verus!
