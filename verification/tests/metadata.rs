use picolv2::decimal::{parse_u32, parse_u8};
use picolv2::metadata::{kind_for, tokens_end_inside, Cursor, PluginMetadata, PortKind};

const DESCRIPTION: &[u8] = b"@prefix lv2: <http://lv2plug.in/ns/lv2core#> .\n\
<urn:p> a lv2:Plugin ;\n\
  lv2:port [ a lv2:OutputPort , lv2:AudioPort ; lv2:index 1 ; lv2:symbol \"out\" ] ,\n\
  [ a lv2:InputPort , lv2:ControlPort ; lv2:index 2 ; lv2:default 0.75 ; lv2:name \"A \\\"quoted\\\" name\" ] , # comment\n\
  [ a lv2:InputPort , atom:AtomPort ; lv2:index 0 ] .\n";

#[test]
fn reads_ports() {
    let metadata = PluginMetadata::parse(DESCRIPTION).ok().unwrap();
    let out = metadata.port(PortKind::AudioOutput, 0).unwrap();
    assert_eq!(out.index, 1);
    assert!(out.default.is_none());
    let control = metadata.port(PortKind::ControlInput, 0).unwrap();
    assert_eq!(control.index, 2);
    assert_eq!(control.default, Some(b"0.75".to_vec()));
    let atom = metadata.port(PortKind::AtomInput, 0).unwrap();
    assert_eq!(atom.index, 0);
    assert!(metadata.port(PortKind::ControlInput, 1).is_none());
    assert!(metadata.port(PortKind::AudioInput, 0).is_none());
}

#[test]
fn refuses_malformed_descriptions() {
    assert!(PluginMetadata::parse(b"").is_err());
    assert!(PluginMetadata::parse(b"lv2:port x").is_err());
    assert!(PluginMetadata::parse(b"[ a lv2:AudioPort ]").is_err());
    assert!(PluginMetadata::parse(b"[ lv2:index x1 ]").is_err());
    assert!(PluginMetadata::parse(b"[ lv2:index 1 ; lv2:default 1.2.3 ]").is_err());
    assert!(PluginMetadata::parse(b"[ lv2:index").is_err());
    let many: Vec<u8> = (0..17).flat_map(|i| format!("[ lv2:index {i} ] ").into_bytes()).collect();
    assert!(PluginMetadata::parse(&many).is_err());
    let sixteen: Vec<u8> = (0..16).flat_map(|i| format!("[ lv2:index {i} ] ").into_bytes()).collect();
    assert!(PluginMetadata::parse(&sixteen).is_ok());
}

#[test]
fn tokens() {
    let mut cursor = Cursor::new(b"  a;[\"x\\\"y\" # c\n lv2:index,7]");
    let mut tokens = Vec::new();
    while let Some(t) = cursor.next() {
        tokens.push(t.to_vec());
    }
    let expected: Vec<Vec<u8>> = vec![b"a".to_vec(), b";".to_vec(), b"[".to_vec(), b"\"x\\\"y\"".to_vec(), b"lv2:index".to_vec(), b",".to_vec(), b"7".to_vec(), b"]".to_vec()];
    assert_eq!(tokens, expected);
}

#[test]
fn a_kind_listed_after_a_comma_is_read_as_a_field() {
    let metadata = PluginMetadata::parse(b"[ a lv2:AudioPort , lv2:OutputPort ; lv2:index 1 ]").ok().unwrap();
    assert!(metadata.port(PortKind::AudioInput, 0).is_some());
    assert!(metadata.port(PortKind::AudioOutput, 0).is_none());
}

#[test]
fn kinds() {
    assert_eq!(kind_for(PortKind::Unknown, b"lv2:InputPort"), PortKind::ControlInput);
    assert_eq!(kind_for(PortKind::AudioOutput, b"lv2:AudioPort"), PortKind::AudioOutput);
    assert_eq!(kind_for(PortKind::Unknown, b"lv2:AudioPort"), PortKind::AudioInput);
    assert_eq!(kind_for(PortKind::ControlInput, b"lv2:Other"), PortKind::ControlInput);
}

#[test]
fn decimal_numbers() {
    assert_eq!(parse_u32(b"4294967295"), Some(u32::MAX));
    assert_eq!(parse_u32(b"4294967296"), None);
    assert_eq!(parse_u32(b""), Some(0));
    assert_eq!(parse_u32(b"+1"), None);
    assert_eq!(parse_u8(b"255"), Some(255));
    assert_eq!(parse_u8(b"256"), None);
    assert_eq!(parse_u8(b"+7"), Some(7));
    assert_eq!(parse_u8(b"007"), Some(7));
    assert_eq!(parse_u8(b"+"), None);
    assert_eq!(parse_u8(b""), None);
    assert_eq!(parse_u8(b"-1"), None);
    for text in ["0", "12", "+3", "255", "256", "", "+", "a1", " 1", "99999999999"] {
        assert_eq!(parse_u8(text.as_bytes()), text.parse::<u8>().ok(), "{text}");
    }
}

#[test]
fn tells_whether_every_token_ends_inside() {
    assert!(tokens_end_inside(b"lv2:port [ a lv2:InputPort ; lv2:default \"x\\\"y\" ] ."));
    assert!(tokens_end_inside(b"\"open string"));
    assert!(!tokens_end_inside(b"lv2:port \"ends in \\"));
    assert!(tokens_end_inside(b"# only a comment \\"));
}
