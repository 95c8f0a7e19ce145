use picolv2::urid::map_uri;

#[test]
fn maps_the_known_uris() {
    assert_eq!(map_uri(b"http://lv2plug.in/ns/ext/atom#Sequence\0"), 1);
    assert_eq!(map_uri(b"http://lv2plug.in/ns/ext/midi#MidiEvent\0"), 2);
    assert_eq!(map_uri(b"http://lv2plug.in/ns/ext/midi#MidiEvent"), 0);
    assert_eq!(map_uri(b"http://lv2plug.in/ns/ext/time#Position\0"), 0);
}
