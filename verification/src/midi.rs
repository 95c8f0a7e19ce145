//! MIDI events as the host hands them to plugins, and the packing of stereo
//! samples for the I2S output.

use vstd::prelude::*;

verus! {

/// A three-byte channel message with the time it arrived.
#[derive(Clone, Copy, Debug, PartialEq, Eq, Structural)]
pub struct MidiEvent {
    pub status: u8,
    pub data1: u8,
    pub data2: u8,
    pub reserved: u8,
    pub timestamp_micros: u64,
}

/// The status byte is a note off, a note on or a control change.
pub open spec fn is_forwarded_status(status: u8) -> bool {
    let kind = status / 16;
    kind == 8 || kind == 9 || kind == 11
}

/// The event a USB MIDI packet's three message bytes carry: note on, note off
/// and control change are kept, any other message, or fewer than three
/// bytes, gives `None`.
pub fn midi_event(data: &[u8], timestamp_micros: u64) -> (r: Option<MidiEvent>)
    ensures
        match r {
            Some(e) => data@.len() >= 3 && is_forwarded_status(data@[0]) && e == (MidiEvent {
                status: data@[0],
                data1: data@[1],
                data2: data@[2],
                reserved: 0,
                timestamp_micros,
            }),
            None => data@.len() < 3 || !is_forwarded_status(data@[0]),
        },
{
    if data.len() < 3 {
        return None;
    }
    let status = data[0];
    let kind = status & 0xf0;
    assert(kind == (status / 16) * 16) by (bit_vector)
        requires
            kind == status & 0xf0,
    ;
    if kind == 0x80 || kind == 0x90 || kind == 0xb0 {
        Some(MidiEvent { status, data1: data[1], data2: data[2], reserved: 0, timestamp_micros })
    } else {
        None
    }
}

/// A stereo frame of two 16-bit samples as one I2S word: left in the upper
/// half, right in the lower.
pub fn pack_lr_16(l: i16, r: i16) -> (w: u32)
    ensures
        w == (l as u16) as u32 * 65536 + (r as u16) as u32,
{
    let high = l as u16 as u32;
    let low = r as u16 as u32;
    let w = (high << 16) | low;
    assert(w == high * 65536 + low) by (bit_vector)
        requires
            high < 65536,
            low < 65536,
            w == (high << 16) | low,
    ;
    w
}

} // verus!
