use picolv2::metadata::PortKind;
use picolv2::plugin_ports::{compile_metadata, encode_metadata, metadata_ports, MetadataFormat, PortsError};
use picolv2::rdf::{parse, Triple};

const PREFIXES: &str = "@prefix lv2: <http://lv2plug.in/ns/lv2core#> .\n@prefix atom: <http://lv2plug.in/ns/ext/atom#> .\n";

fn triples(body: &str) -> Vec<Triple> {
    let source = format!("{PREFIXES}{body}");
    parse(source.as_bytes(), b"/p/plugin.ttl").ok().unwrap()
}

fn defaults(ts: &[Triple]) -> Vec<Option<u32>> {
    ts.iter()
        .map(|t| std::str::from_utf8(&t.object).ok().and_then(|s| s.parse::<f32>().ok()).map(f32::to_bits))
        .collect()
}

#[test]
fn lists_ports_by_index() {
    let ts = triples(
        "<urn:plug> lv2:port <urn:plug#gain> , <urn:plug#in> , <urn:plug#midi> .\n\
         <urn:plug#gain> a lv2:InputPort , lv2:ControlPort ; lv2:index 2 ; lv2:default 0.5 .\n\
         <urn:plug#in> a lv2:InputPort , lv2:AudioPort ; lv2:index 1 .\n\
         <urn:plug#midi> a lv2:InputPort , atom:AtomPort ; lv2:index 0 .\n",
    );
    let ports = metadata_ports(&ts, &defaults(&ts)).ok().unwrap();
    let summary: Vec<(u32, PortKind, Option<u32>)> = ports.iter().map(|p| (p.index, p.kind, p.default)).collect();
    assert_eq!(
        summary,
        vec![
            (0, PortKind::AtomInput, None),
            (1, PortKind::AudioInput, None),
            (2, PortKind::ControlInput, Some(0.5f32.to_bits())),
        ]
    );
    assert_eq!(ports[2].subject, b"urn:plug#gain");
}

#[test]
fn orders_equal_indices_by_subject() {
    let ts = triples(
        "<urn:p> lv2:port <urn:p#b> , <urn:p#a> .\n\
         <urn:p#b> a lv2:OutputPort , lv2:AudioPort ; lv2:index 0 .\n\
         <urn:p#a> a lv2:OutputPort , lv2:AudioPort ; lv2:index 0 .\n",
    );
    let ports = metadata_ports(&ts, &defaults(&ts)).ok().unwrap();
    assert_eq!(ports.len(), 2);
    assert_eq!(ports[0].subject, b"urn:p#a");
    assert_eq!(ports[1].subject, b"urn:p#b");
    assert_eq!(ports[0].kind, PortKind::AudioOutput);
}

#[test]
fn refuses_bad_port_descriptions() {
    let none = triples("<urn:p> a lv2:Plugin .\n");
    assert!(matches!(metadata_ports(&none, &defaults(&none)), Err(PortsError::PortCount)));
    let cv = triples("<urn:p> lv2:port <urn:p#cv> .\n<urn:p#cv> a lv2:OutputPort , lv2:ControlPort ; lv2:index 0 .\n");
    assert!(matches!(metadata_ports(&cv, &defaults(&cv)), Err(PortsError::UnsupportedPort(s)) if s == b"urn:p#cv"));
    let unindexed = triples("<urn:p> lv2:port <urn:p#in> .\n<urn:p#in> a lv2:InputPort , lv2:AudioPort .\n");
    assert!(matches!(metadata_ports(&unindexed, &defaults(&unindexed)), Err(PortsError::NoIndex(_))));
    let negative = triples("<urn:p> lv2:port <urn:p#in> .\n<urn:p#in> a lv2:InputPort , lv2:AudioPort ; lv2:index -1 .\n");
    assert!(matches!(metadata_ports(&negative, &defaults(&negative)), Err(PortsError::InvalidIndex(_))));
    let word = triples("<urn:p> lv2:port <urn:p#g> .\n<urn:p#g> a lv2:InputPort , lv2:ControlPort ; lv2:index 0 ; lv2:default \"loud\" .\n");
    assert!(matches!(metadata_ports(&word, &defaults(&word)), Err(PortsError::InvalidDefault(_))));
}

fn format() -> MetadataFormat {
    MetadataFormat {
        magic: b"TESTMETA".to_vec(),
        version: 0x0102_0304,
        audio_input: 10,
        audio_output: 11,
        control_input: 12,
        atom_input: 13,
        unknown: 14,
    }
}

#[test]
fn writes_compact_port_records() {
    let ts = triples(
        "<urn:plug> lv2:port <urn:plug#gain> , <urn:plug#in> .\n\
         <urn:plug#gain> a lv2:InputPort , lv2:ControlPort ; lv2:index 258 ; lv2:default 0.5 .\n\
         <urn:plug#in> a lv2:InputPort , lv2:AudioPort ; lv2:index 1 .\n",
    );
    let bytes = compile_metadata(&format(), &ts, &defaults(&ts)).ok().unwrap();
    let half = 0.5f32.to_bits().to_le_bytes();
    let mut expected = b"TESTMETA".to_vec();
    expected.extend_from_slice(&[4, 3, 2, 1, 2, 0, 0, 0]);
    expected.extend_from_slice(&[10, 0, 0, 0, 1, 0, 0, 0, 0, 0, 0, 0]);
    expected.extend_from_slice(&[12, 1, 0, 0, 2, 1, 0, 0]);
    expected.extend_from_slice(&half);
    assert_eq!(bytes, expected);
    assert_eq!(bytes.len(), 16 + 2 * 12);
    let ports = metadata_ports(&ts, &defaults(&ts)).ok().unwrap();
    assert_eq!(encode_metadata(&format(), &ports), expected);
}

#[test]
fn compile_metadata_passes_port_errors_on() {
    let none = triples("<urn:p> a lv2:Plugin .\n");
    assert!(matches!(compile_metadata(&format(), &none, &defaults(&none)), Err(PortsError::PortCount)));
    assert_eq!(encode_metadata(&format(), &[]), b"TESTMETA\x04\x03\x02\x01\x00\x00\x00\x00".to_vec());
}
