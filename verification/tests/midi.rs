use picolv2::atom::pad_size;
use picolv2::midi::{midi_event, pack_lr_16, MidiEvent};

#[test]
fn forwards_notes_and_controllers() {
    assert_eq!(
        midi_event(&[0x91, 60, 100], 5),
        Some(MidiEvent { status: 0x91, data1: 60, data2: 100, reserved: 0, timestamp_micros: 5 })
    );
    assert!(midi_event(&[0x80, 60, 0, 9], 0).is_some());
    assert!(midi_event(&[0xb3, 7, 127], 0).is_some());
    assert!(midi_event(&[0xe0, 0, 64], 0).is_none());
    assert!(midi_event(&[0xf8, 0, 0], 0).is_none());
    assert!(midi_event(&[0x90, 60], 0).is_none());
}

#[test]
fn packs_stereo_frames() {
    assert_eq!(pack_lr_16(1, 2), 0x0001_0002);
    assert_eq!(pack_lr_16(-1, 0), 0xffff_0000);
    assert_eq!(pack_lr_16(0, -2), 0x0000_fffe);
    assert_eq!(pack_lr_16(i16::MIN, i16::MAX), 0x8000_7fff);
}

#[test]
fn pads_to_eight_bytes() {
    assert_eq!(pad_size(0), 0);
    assert_eq!(pad_size(1), 8);
    assert_eq!(pad_size(8), 8);
    assert_eq!(pad_size(13), 16);
    assert_eq!(pad_size(u32::MAX - 7), u32::MAX - 7);
}
