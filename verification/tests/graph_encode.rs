use picolv2::graph::{encode, float_bits_eq, GraphError, Node, SourceGraph, SourceMidiBinding};

fn node(subject: &str, prototype: &str, ports: &[(&str, u8)], overrides: &[(u8, f32)]) -> Node {
    Node {
        subject: subject.as_bytes().to_vec(),
        prototype: prototype.as_bytes().to_vec(),
        ports: ports.iter().map(|(p, _)| p.as_bytes().to_vec()).collect(),
        port_indices: ports.iter().map(|(p, i)| (p.as_bytes().to_vec(), *i)).collect(),
        overrides: overrides.iter().map(|(i, v)| (*i, v.to_bits())).collect(),
    }
}

fn arc(tail: &str, head: &str) -> (Vec<u8>, Vec<u8>) {
    (tail.as_bytes().to_vec(), head.as_bytes().to_vec())
}

fn binding(port: &str, channel: u8, controller: u8, flags: u8, minimum: f32, maximum: f32) -> SourceMidiBinding {
    SourceMidiBinding {
        port: port.as_bytes().to_vec(),
        channel,
        controller,
        flags,
        minimum: minimum.to_bits(),
        maximum: maximum.to_bits(),
    }
}

fn header(nodes: u16, edges: u16) -> Vec<u8> {
    let mut out = b"PICO GRP".to_vec();
    out.extend_from_slice(&4u32.to_le_bytes());
    out.extend_from_slice(&nodes.to_le_bytes());
    out.extend_from_slice(&edges.to_le_bytes());
    out
}

#[test]
fn encodes_nodes_edges_outputs_and_bindings() {
    let graph = SourceGraph {
        nodes: vec![
            node("fx", "urn:fx", &[("fx/in", 0), ("fx/out", 1)], &[(2, 0.5)]),
            node("syn", "urn:syn", &[("syn/out", 3), ("syn/cut", 4)], &[]),
        ],
        arcs: vec![arc("fx/out", "main/out"), arc("syn/out", "fx/in")],
        outputs: vec![(b"main/out".to_vec(), 0)],
        midi_bindings: vec![binding("syn/cut", 1, 74, 1, 20.0, 8000.0)],
    };
    let bytes = encode(graph).ok().unwrap();
    let mut expected = header(2, 1);
    // syn first: it feeds fx.
    expected.extend_from_slice(&7u16.to_le_bytes());
    expected.extend_from_slice(&0u16.to_le_bytes());
    expected.extend_from_slice(b"urn:syn");
    expected.extend_from_slice(&6u16.to_le_bytes());
    expected.extend_from_slice(&1u16.to_le_bytes());
    expected.extend_from_slice(b"urn:fx");
    expected.extend_from_slice(&[2, 0]);
    expected.extend_from_slice(&0.5f32.to_le_bytes());
    // edge syn/out (3) -> fx/in (0)
    expected.extend_from_slice(&0u16.to_le_bytes());
    expected.extend_from_slice(&[3, 0]);
    expected.extend_from_slice(&1u16.to_le_bytes());
    expected.extend_from_slice(&[0, 0]);
    // one output: fx/out
    expected.extend_from_slice(&1u16.to_le_bytes());
    expected.extend_from_slice(&1u16.to_le_bytes());
    expected.extend_from_slice(&[1, 0]);
    // one binding on syn/cut
    expected.extend_from_slice(&1u16.to_le_bytes());
    expected.extend_from_slice(&0u16.to_le_bytes());
    expected.extend_from_slice(&[4, 1, 74, 1, 0, 0]);
    expected.extend_from_slice(&20.0f32.to_le_bytes());
    expected.extend_from_slice(&8000.0f32.to_le_bytes());
    assert_eq!(bytes, expected);
}

#[test]
fn bindings_are_sorted_and_repeats_dropped() {
    let graph = SourceGraph {
        nodes: vec![node("a", "urn:a", &[("a/x", 5), ("a/y", 2)], &[])],
        arcs: vec![],
        outputs: vec![],
        midi_bindings: vec![
            binding("a/x", 0, 1, 0, 0.0, 1.0),
            binding("a/y", 0, 7, 0, 0.0, 1.0),
            binding("a/y", 0, 7, 0, -0.0, 1.0),
            binding("a/y", 0, 7, 0, f32::NAN, 1.0),
        ],
    };
    let bytes = encode(graph).ok().unwrap();
    // header, node (len 5, no overrides), no edges, no outputs
    let start = 16 + 4 + 5 + 2;
    assert_eq!(&bytes[start..start + 2], &3u16.to_le_bytes());
    let ports: Vec<u8> = (0..3).map(|k| bytes[start + 2 + 16 * k + 2]).collect();
    assert_eq!(ports, vec![2, 2, 5]);
    let minimum = |k: usize| u32::from_le_bytes(bytes[start + 2 + 16 * k + 8..start + 2 + 16 * k + 12].try_into().unwrap());
    assert_eq!(minimum(0), 0.0f32.to_bits());
    assert!(f32::from_bits(minimum(1)).is_nan());
}

#[test]
fn refusals() {
    let empty = SourceGraph { nodes: vec![], arcs: vec![], outputs: vec![], midi_bindings: vec![] };
    assert!(matches!(encode(empty), Err(GraphError::NoBlocks)));

    let unindexed = SourceGraph {
        nodes: vec![node("a", "urn:a", &[("a/o", 0)], &[]), node("b", "urn:b", &[], &[])],
        arcs: vec![arc("a/o", "b/i")],
        outputs: vec![],
        midi_bindings: vec![],
    };
    match encode(unindexed) {
        Err(GraphError::MissingPortIndex(port)) => assert_eq!(port, b"b/i".to_vec()),
        _ => panic!("expected a missing index"),
    }

    let cycle = SourceGraph {
        nodes: vec![node("a", "urn:a", &[("a/o", 0), ("a/i", 1)], &[]), node("b", "urn:b", &[("b/o", 0), ("b/i", 1)], &[])],
        arcs: vec![arc("a/o", "b/i"), arc("b/o", "a/i")],
        outputs: vec![],
        midi_bindings: vec![],
    };
    assert!(matches!(encode(cycle), Err(GraphError::Cycle)));

    let unbound = SourceGraph {
        nodes: vec![node("a", "urn:a", &[], &[])],
        arcs: vec![],
        outputs: vec![],
        midi_bindings: vec![binding("z/p", 0, 1, 0, 0.0, 1.0)],
    };
    match encode(unbound) {
        Err(GraphError::UnboundBinding(port)) => assert_eq!(port, b"z/p".to_vec()),
        _ => panic!("expected an unbound binding"),
    }
}

#[test]
fn float_bits_compare_as_floats() {
    assert!(float_bits_eq(0.0f32.to_bits(), (-0.0f32).to_bits()));
    assert!(!float_bits_eq(f32::NAN.to_bits(), f32::NAN.to_bits()));
    assert!(float_bits_eq(1.5f32.to_bits(), 1.5f32.to_bits()));
    assert!(!float_bits_eq(1.5f32.to_bits(), 2.5f32.to_bits()));
    assert!(!float_bits_eq(f32::INFINITY.to_bits(), f32::NEG_INFINITY.to_bits()));
}
