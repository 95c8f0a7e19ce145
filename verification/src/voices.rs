//! Choosing the voice that a synth plugin gives a new note: the first voice
//! that is free, or else the one that started sounding earliest.

use vstd::prelude::*;

verus! {

/// The first voice at or after `i` that is not busy.
pub open spec fn first_free_from(busy: Seq<bool>, i: int) -> Option<int>
    decreases busy.len() - i,
{
    if i < 0 || i >= busy.len() {
        None
    } else if !busy[i] {
        Some(i)
    } else {
        first_free_from(busy, i + 1)
    }
}

/// `k` holds the smallest age, and no voice before it holds one as small.
pub open spec fn is_first_oldest(ages: Seq<u32>, k: int) -> bool {
    &&& 0 <= k < ages.len()
    &&& forall|j: int| 0 <= j < ages.len() ==> ages[k] <= #[trigger] ages[j]
    &&& forall|j: int| 0 <= j < k ==> ages[k] < #[trigger] ages[j]
}

/// The voice for a new note, given for each voice whether it is busy and the
/// age stamp of its note: the first free voice; where all are busy, the
/// first of those with the smallest stamp; voice 0 where there is none.
pub fn choose_voice(voices: &[(bool, u32)]) -> (r: usize)
    ensures
        voices@.len() == 0 ==> r == 0,
        voices@.len() > 0 ==> r < voices@.len(),
        match first_free_from(voices@.map_values(|v: (bool, u32)| v.0), 0) {
            Some(i) => r == i,
            None => voices@.len() > 0 ==> is_first_oldest(voices@.map_values(|v: (bool, u32)| v.1), r as int),
        },
{
    let ghost busy = voices@.map_values(|v: (bool, u32)| v.0);
    let ghost ages = voices@.map_values(|v: (bool, u32)| v.1);
    let mut i: usize = 0;
    while i < voices.len()
        invariant
            i <= voices@.len(),
            busy == voices@.map_values(|v: (bool, u32)| v.0),
            first_free_from(busy, 0) == first_free_from(busy, i as int),
        decreases voices@.len() - i,
    {
        if !voices[i].0 {
            return i;
        }
        i = i + 1;
    }
    if voices.len() == 0 {
        return 0;
    }
    let mut best: usize = 0;
    let mut j: usize = 1;
    while j < voices.len()
        invariant
            1 <= j <= voices@.len(),
            best < j,
            ages == voices@.map_values(|v: (bool, u32)| v.1),
            forall|k: int| 0 <= k < j ==> ages[best as int] <= #[trigger] ages[k],
            forall|k: int| 0 <= k < best ==> ages[best as int] < #[trigger] ages[k],
        decreases voices@.len() - j,
    {
        if voices[j].1 < voices[best].1 {
            best = j;
        }
        j = j + 1;
    }
    best
}

} // verus!
