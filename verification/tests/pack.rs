use picolv2::bundle::{Bundle, Graph, GRAPH_MAGIC, GRAPH_VERSION, MAX_SIZE};
use picolv2::pack::{flash_image, pack_bundle, PackError, PluginEntry, BUNDLE_OFFSET, IMAGE_SIZE};

fn graph_with_nodes(nodes: &[&[u8]]) -> Vec<u8> {
    let mut bytes = Vec::from(GRAPH_MAGIC);
    bytes.extend_from_slice(&GRAPH_VERSION.to_le_bytes());
    bytes.extend_from_slice(&(nodes.len() as u16).to_le_bytes());
    bytes.extend_from_slice(&0u16.to_le_bytes());
    for node in nodes {
        bytes.extend_from_slice(&(node.len() as u16).to_le_bytes());
        bytes.extend_from_slice(&[0, 0]);
        bytes.extend_from_slice(node);
    }
    bytes
}

fn entry(uri: &[u8], binary: &[u8], metadata: &[u8]) -> PluginEntry {
    PluginEntry { uri: uri.to_vec(), binary: binary.to_vec(), metadata: metadata.to_vec() }
}

#[test]
fn packed_bundle_reads_back() {
    let graph = graph_with_nodes(&[b"urn:a", b"urn:b"]);
    let plugins = vec![entry(b"urn:a", b"AAA", b"meta-a"), entry(b"urn:b", b"", b"m")];
    let bytes = pack_bundle(&plugins, &graph).unwrap();
    let bundle = Bundle::parse(&bytes).unwrap();
    assert_eq!(bundle.plugin_count(), 2);
    let b = bundle.find(b"urn:b").unwrap();
    assert_eq!(b.binary, b"");
    assert_eq!(b.metadata, b"m");
    let a = bundle.entry_at(0).unwrap();
    assert_eq!(a.binary, b"AAA");
    let parsed = bundle.graph().unwrap();
    assert_eq!(parsed.node_count, 2);
    assert_eq!(parsed.node(1).unwrap().uri, b"urn:b");
}

#[test]
fn pack_refusals_in_order() {
    let graph = graph_with_nodes(&[b"urn:a"]);
    assert_eq!(pack_bundle(&[], &graph).unwrap_err(), PackError::PluginCount);
    let plugins = vec![entry(b"urn:a", b"", b"")];
    assert_eq!(pack_bundle(&plugins, b"not a graph").unwrap_err(), PackError::InvalidGraph);
    let duplicate = vec![entry(b"urn:a", b"", b""), entry(b"urn:a", b"", b"")];
    assert_eq!(pack_bundle(&duplicate, &graph).unwrap_err(), PackError::DuplicateUri(1));
    let long_uri = vec![0x61u8; 70000];
    let long = vec![entry(&long_uri, b"", b""), entry(b"urn:a", b"", b"")];
    assert_eq!(pack_bundle(&long, &graph).unwrap_err(), PackError::UriTooLong(0));
    let huge = vec![entry(b"urn:a", &vec![0u8; MAX_SIZE], b"")];
    assert_eq!(
        pack_bundle(&huge, &graph).unwrap_err(),
        PackError::TooLarge(20 + 12 + 5 + MAX_SIZE + graph.len())
    );
}

#[test]
fn flash_image_places_firmware_and_bundle() {
    let graph = graph_with_nodes(&[b"urn:a"]);
    let bundle = pack_bundle(&[entry(b"urn:a", b"BIN", b"TTL")], &graph).unwrap();
    let image = flash_image(b"firmware", &bundle).unwrap();
    assert_eq!(image.len(), IMAGE_SIZE);
    assert_eq!(&image[..8], b"firmware");
    assert_eq!(image[8], 0xff);
    assert_eq!(&image[BUNDLE_OFFSET..BUNDLE_OFFSET + bundle.len()], bundle.as_slice());
    assert_eq!(image[IMAGE_SIZE - 1], 0xff);
    let region = Bundle::parse(&image[BUNDLE_OFFSET..]).unwrap();
    assert_eq!(region.find(b"urn:a").unwrap().binary, b"BIN");
    assert!(Graph::parse(&graph).is_ok());
    let too_big = vec![0u8; BUNDLE_OFFSET + 1];
    assert_eq!(flash_image(&too_big, &bundle).unwrap_err(), PackError::FirmwareOverlap);
}

#[test]
fn flash_image_refuses_an_oversized_bundle() {
    let bundle = vec![0u8; MAX_SIZE + 1];
    assert_eq!(flash_image(b"firmware", &bundle).unwrap_err(), PackError::TooLarge(MAX_SIZE + 1));
    let too_big = vec![0u8; BUNDLE_OFFSET + 1];
    assert_eq!(flash_image(&too_big, &bundle).unwrap_err(), PackError::TooLarge(MAX_SIZE + 1));
}
