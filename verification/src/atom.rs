//! The LV2 atom headers that plugins read their event input through.

use vstd::prelude::*;

verus! {

/// The header of an atom: the size of its body and its type.
pub struct Lv2Atom {
    pub size: u32,
    pub atom_type: u32,
}

/// The body header of an atom sequence: its time unit and padding.
pub struct Lv2AtomSequenceBody {
    pub unit: u32,
    pub pad: u32,
}

/// An atom sequence: the atom header, then the sequence's body header.
pub struct Lv2AtomSequence {
    pub atom: Lv2Atom,
    pub body: Lv2AtomSequenceBody,
}

/// `size` rounded up to a multiple of eight, the alignment of events in a
/// sequence.
pub fn pad_size(size: u32) -> (r: u32)
    requires
        size <= u32::MAX - 7,
    ensures
        r % 8 == 0,
        size <= r < size + 8,
        r == (size + 7) / 8 * 8,
{
    let sum = size + 7;
    let r = sum & !7u32;
    assert(r == sum / 8 * 8 && r % 8 == 0) by (bit_vector)
        requires
            r == sum & !7u32,
    ;
    r
}

} // verus!
