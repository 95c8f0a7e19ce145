//! Numbering the URIs that plugins ask the host to map: the host knows the
//! atom sequence and MIDI event types, and maps every other URI to 0.

use vstd::prelude::*;
use vstd::string::StringSliceAdditionalSpecFns;
use crate::bundle::bytes_equal;

verus! {

/// The URI of the atom sequence type, with the terminating NUL that a
/// plugin passes.
pub const ATOM_SEQUENCE_URI: &'static str = "http://lv2plug.in/ns/ext/atom#Sequence\0";

/// The URI of the MIDI event type, with its terminating NUL.
pub const MIDI_EVENT_URI: &'static str = "http://lv2plug.in/ns/ext/midi#MidiEvent\0";

pub const ATOM_SEQUENCE_URID: u32 = 1;

pub const MIDI_EVENT_URID: u32 = 2;

/// The number of the URI whose bytes, terminating NUL included, are `uri`:
/// that of the atom sequence or MIDI event type, 0 for any other.
pub fn map_uri(uri: &[u8]) -> (r: u32)
    ensures
        r == if uri@ == ATOM_SEQUENCE_URI.spec_bytes() {
            ATOM_SEQUENCE_URID
        } else if uri@ == MIDI_EVENT_URI.spec_bytes() {
            MIDI_EVENT_URID
        } else {
            0
        },
{
    if bytes_equal(uri, ATOM_SEQUENCE_URI.as_bytes()) {
        ATOM_SEQUENCE_URID
    } else if bytes_equal(uri, MIDI_EVENT_URI.as_bytes()) {
        MIDI_EVENT_URID
    } else {
        0
    }
}

} // verus!
