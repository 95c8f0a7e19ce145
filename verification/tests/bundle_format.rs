use picolv2::bundle::{Bundle, BundleError, Graph, GRAPH_MAGIC, GRAPH_VERSION, MAGIC, VERSION};

#[test]
fn parses_entries() {
    let mut bytes = Vec::from(MAGIC);
    bytes.extend_from_slice(&VERSION.to_le_bytes());
    bytes.extend_from_slice(&1u32.to_le_bytes());
    bytes.extend_from_slice(&16u32.to_le_bytes());
    bytes.extend_from_slice(&3u16.to_le_bytes());
    bytes.extend_from_slice(&[0, 0]);
    bytes.extend_from_slice(&2u32.to_le_bytes());
    bytes.extend_from_slice(&3u32.to_le_bytes());
    bytes.extend_from_slice(b"uriBITTL");
    bytes.extend_from_slice(&GRAPH_MAGIC);
    bytes.extend_from_slice(&GRAPH_VERSION.to_le_bytes());
    bytes.extend_from_slice(&0u16.to_le_bytes());
    bytes.extend_from_slice(&0u16.to_le_bytes());

    let entry = Bundle::parse(&bytes).unwrap().find(b"uri").unwrap();
    assert_eq!(entry.binary, b"BI");
    assert_eq!(entry.metadata, b"TTL");
}

#[test]
fn rejects_truncated_entries() {
    let mut bytes = Vec::from(MAGIC);
    bytes.extend_from_slice(&VERSION.to_le_bytes());
    bytes.extend_from_slice(&1u32.to_le_bytes());
    assert!(Bundle::parse(&bytes).is_err());
}

#[test]
fn accepts_flash_padding_after_graph() {
    let mut bytes = Vec::from(MAGIC);
    bytes.extend_from_slice(&VERSION.to_le_bytes());
    bytes.extend_from_slice(&0u32.to_le_bytes());
    bytes.extend_from_slice(&16u32.to_le_bytes());
    bytes.extend_from_slice(&GRAPH_MAGIC);
    bytes.extend_from_slice(&GRAPH_VERSION.to_le_bytes());
    bytes.extend_from_slice(&0u16.to_le_bytes());
    bytes.extend_from_slice(&0u16.to_le_bytes());
    bytes.extend_from_slice(&[0xff; 128]);

    let bundle = Bundle::parse(&bytes).unwrap();
    assert_eq!(bundle.graph().unwrap().node_count, 0);
}

#[test]
fn parses_edge_fields() {
    let mut bytes = Vec::from(GRAPH_MAGIC);
    bytes.extend_from_slice(&GRAPH_VERSION.to_le_bytes());
    bytes.extend_from_slice(&2u16.to_le_bytes());
    bytes.extend_from_slice(&1u16.to_le_bytes());
    for uri in [b"source".as_slice(), b"destination".as_slice()] {
        bytes.extend_from_slice(&(uri.len() as u16).to_le_bytes());
        bytes.extend_from_slice(&[0, 0]);
        bytes.extend_from_slice(uri);
    }
    bytes.extend_from_slice(&0u16.to_le_bytes());
    bytes.extend_from_slice(&[0, 0]);
    bytes.extend_from_slice(&1u16.to_le_bytes());
    bytes.extend_from_slice(&[0, 0]);

    let graph = Graph::parse(&bytes).unwrap();
    let edge = graph.edge(0).unwrap();
    assert_eq!(edge.source_node, 0);
    assert_eq!(edge.destination_node, 1);
    assert_eq!(edge.source_port, 0);
    assert_eq!(edge.destination_port, 0);
}

fn header(count: u32, graph_length: u32) -> Vec<u8> {
    let mut bytes = Vec::from(MAGIC);
    bytes.extend_from_slice(&VERSION.to_le_bytes());
    bytes.extend_from_slice(&count.to_le_bytes());
    bytes.extend_from_slice(&graph_length.to_le_bytes());
    bytes
}

fn empty_graph() -> Vec<u8> {
    let mut bytes = Vec::from(GRAPH_MAGIC);
    bytes.extend_from_slice(&GRAPH_VERSION.to_le_bytes());
    bytes.extend_from_slice(&0u16.to_le_bytes());
    bytes.extend_from_slice(&0u16.to_le_bytes());
    bytes
}

#[test]
fn rejects_wrong_magic_and_version() {
    let mut bytes = header(0, 16);
    bytes.extend_from_slice(&empty_graph());
    let mut wrong_magic = bytes.clone();
    wrong_magic[0] = b'X';
    assert_eq!(Bundle::parse(&wrong_magic).err(), Some(BundleError::Header));
    let mut wrong_version = bytes.clone();
    wrong_version[8] = 1;
    assert_eq!(Bundle::parse(&wrong_version).err(), Some(BundleError::Header));
    assert_eq!(Bundle::parse(&bytes[..19]).err(), Some(BundleError::Header));
    assert!(Bundle::parse(&bytes).is_ok());
}

#[test]
fn reports_truncated_and_graph_length() {
    let mut bytes = header(1, 16);
    bytes.extend_from_slice(&3u16.to_le_bytes());
    bytes.extend_from_slice(&[0, 0]);
    bytes.extend_from_slice(&2u32.to_le_bytes());
    bytes.extend_from_slice(&30u32.to_le_bytes());
    bytes.extend_from_slice(b"uriBI");
    assert_eq!(Bundle::parse(&bytes).err(), Some(BundleError::Truncated));

    let mut short_graph = header(0, 17);
    short_graph.extend_from_slice(&empty_graph());
    assert_eq!(Bundle::parse(&short_graph).err(), Some(BundleError::GraphLength));
}

#[test]
fn find_reports_missing_uri_and_graph_errors() {
    let mut bytes = header(1, 4);
    bytes.extend_from_slice(&1u16.to_le_bytes());
    bytes.extend_from_slice(&[0, 0]);
    bytes.extend_from_slice(&0u32.to_le_bytes());
    bytes.extend_from_slice(&0u32.to_le_bytes());
    bytes.extend_from_slice(b"a");
    bytes.extend_from_slice(b"junk");
    let bundle = Bundle::parse(&bytes).unwrap();
    assert_eq!(bundle.plugin_count(), 1);
    assert_eq!(bundle.find(b"b").err(), Some(BundleError::NotFound));
    assert_eq!(bundle.find(b"a").unwrap().uri, b"a");
    assert_eq!(bundle.entry_at(1).err(), Some(BundleError::Truncated));
    assert_eq!(bundle.graph().err(), Some(BundleError::Graph));
}

#[test]
fn graph_nodes_and_out_of_range_requests() {
    let mut bytes = Vec::from(GRAPH_MAGIC);
    bytes.extend_from_slice(&GRAPH_VERSION.to_le_bytes());
    bytes.extend_from_slice(&1u16.to_le_bytes());
    bytes.extend_from_slice(&0u16.to_le_bytes());
    bytes.extend_from_slice(&4u16.to_le_bytes());
    bytes.extend_from_slice(&[0, 0]);
    bytes.extend_from_slice(b"node");
    let graph = Graph::parse(&bytes).unwrap();
    assert_eq!(graph.node(0).unwrap().uri, b"node");
    assert!(graph.node(1).is_err());
    assert!(graph.edge(0).is_err());
    bytes.push(0);
    assert!(Graph::parse(&bytes).is_err());
}
