use picolv2::builder::{
    firmware_extent, firmware_from_elf_bytes, firmware_from_segments, graph_plugins, image_summary,
    is_elf, suggested_output_name, FirmwareError, InfoError, OutputFormat, Segment,
};
use picolv2::bundle::Graph;
use picolv2::ingen::compile;
use picolv2::pack::{flash_image, pack_bundle, PluginEntry};
use picolv2::rdf::{parse, Triple};

fn segment(kind: u32, physical_address: u64, file_size: u64, offset: u64) -> Segment {
    Segment { kind, physical_address, file_size, offset }
}

#[test]
fn places_loadable_segments() {
    let elf: Vec<u8> = (0u8..32).collect();
    let segments = [
        segment(1, 0x1000_0000, 4, 8),
        segment(6, 0x1000_0000, 4, 0),
        segment(1, 0x1000_0008, 2, 20),
        segment(1, 0x1000_0010, 0, 0),
    ];
    let fw = firmware_from_segments(&elf, &segments).ok().unwrap();
    assert_eq!(fw, vec![8, 9, 10, 11, 0, 0, 0, 0, 20, 21]);
}

#[test]
fn a_later_segment_can_cut_the_image() {
    let elf: Vec<u8> = (0u8..32).collect();
    let segments = [segment(1, 0x1000_0000, 8, 0), segment(1, 0x1000_0002, 2, 16)];
    assert_eq!(firmware_from_segments(&elf, &segments).ok().unwrap(), vec![0, 1, 16, 17]);
}

#[test]
fn segment_refusals() {
    let elf = vec![0u8; 16];
    assert!(matches!(firmware_from_segments(&elf, &[segment(1, 0x0fff_ffff, 1, 0)]), Err(FirmwareError::BelowFlash)));
    assert!(matches!(firmware_from_segments(&elf, &[segment(1, u64::MAX, 0x1000_0001, 0)]), Err(FirmwareError::AddressOverflow)));
    assert!(matches!(firmware_from_segments(&elf, &[segment(1, 0x1000_0000, 4, 14)]), Err(FirmwareError::OutsideFile)));
    assert!(matches!(firmware_from_segments(&elf, &[segment(2, 0x1000_0000, 4, 0)]), Err(FirmwareError::NoLoadableData)));
    assert!(matches!(firmware_from_segments(&elf, &[]), Err(FirmwareError::NoLoadableData)));
}

fn tiny_elf() -> Vec<u8> {
    let mut elf = vec![0x7f, b'E', b'L', b'F', 1, 1, 1, 0];
    elf.extend_from_slice(&[0; 8]);
    elf.extend_from_slice(&2u16.to_le_bytes()); // executable
    elf.extend_from_slice(&0x28u16.to_le_bytes()); // ARM
    elf.extend_from_slice(&1u32.to_le_bytes());
    elf.extend_from_slice(&0x1000_0000u32.to_le_bytes()); // entry
    elf.extend_from_slice(&52u32.to_le_bytes()); // program headers
    elf.extend_from_slice(&0u32.to_le_bytes()); // no section headers
    elf.extend_from_slice(&0u32.to_le_bytes());
    elf.extend_from_slice(&52u16.to_le_bytes());
    elf.extend_from_slice(&32u16.to_le_bytes());
    elf.extend_from_slice(&1u16.to_le_bytes());
    elf.extend_from_slice(&40u16.to_le_bytes());
    elf.extend_from_slice(&0u16.to_le_bytes());
    elf.extend_from_slice(&0u16.to_le_bytes());
    assert_eq!(elf.len(), 52);
    elf.extend_from_slice(&1u32.to_le_bytes()); // PT_LOAD
    elf.extend_from_slice(&84u32.to_le_bytes()); // offset
    elf.extend_from_slice(&0x1000_0000u32.to_le_bytes()); // vaddr
    elf.extend_from_slice(&0x1000_0000u32.to_le_bytes()); // paddr
    elf.extend_from_slice(&4u32.to_le_bytes()); // filesz
    elf.extend_from_slice(&4u32.to_le_bytes()); // memsz
    elf.extend_from_slice(&5u32.to_le_bytes());
    elf.extend_from_slice(&4u32.to_le_bytes());
    elf.extend_from_slice(&[0xde, 0xad, 0xbe, 0xef]);
    elf
}

#[test]
fn reads_an_elf_file() {
    let elf = tiny_elf();
    assert!(is_elf(&elf));
    assert_eq!(firmware_from_elf_bytes(&elf).ok().unwrap(), vec![0xde, 0xad, 0xbe, 0xef]);
    assert!(!is_elf(b"\x7fEL"));
    match firmware_from_elf_bytes(b"not an elf file at all") {
        Err(FirmwareError::Elf(message)) => assert!(!message.is_empty()),
        _ => panic!("expected goblin to refuse the file"),
    }
}

#[test]
fn extent_of_the_firmware() {
    let mut image = vec![0xffu8; 64];
    assert_eq!(firmware_extent(&image), 0);
    image[9] = 0;
    assert_eq!(firmware_extent(&image), 10);
}

#[test]
fn summarises_an_image() {
    let source = b"@prefix ingen: <http://drobilla.net/ns/ingen#> .\n@prefix lv2: <http://lv2plug.in/ns/lv2core#> .\n\
<a> a ingen:Block ; lv2:prototype <urn:a> .\n<b> a ingen:Block ; lv2:prototype <urn:a> .\n\
<a/o> lv2:index 1 .\n<b/i> lv2:index 0 .\n\
<> ingen:arc [ ingen:tail <a/o> ; ingen:head <b/i> ] .\n";
    let triples = parse(source, b"/g/main.ttl").ok().unwrap();
    let graph = compile(&triples).ok().unwrap();
    let parsed = Graph::parse(&graph).unwrap();
    let plugins = graph_plugins(&parsed).unwrap();
    assert_eq!(plugins, vec![b"urn:a".to_vec()]);
    let entries = vec![PluginEntry { uri: b"urn:a".to_vec(), binary: vec![1, 2, 3], metadata: vec![4] }];
    let bundle = pack_bundle(&entries, &graph).ok().unwrap();
    let image = flash_image(&[7, 7, 7], &bundle).ok().unwrap();
    let info = image_summary(&image).ok().unwrap();
    assert_eq!(info.image_len, 2 * 1024 * 1024);
    assert_eq!(info.firmware_size, 3);
    assert_eq!(info.bundle_len, 512 * 1024);
    assert_eq!(info.plugins.len(), 1);
    assert_eq!(info.plugins[0].uri, b"urn:a".to_vec());
    assert_eq!((info.plugins[0].binary_len, info.plugins[0].metadata_len), (3, 1));
    assert_eq!(info.nodes, vec![b"urn:a".to_vec(), b"urn:a".to_vec()]);
    assert_eq!(info.edges.len(), 1);
    assert_eq!((info.edges[0].source_node, info.edges[0].destination_node), (0, 1));
    assert!(matches!(image_summary(&image[..100]), Err(InfoError::ImageTooSmall)));
    let erased = vec![0xffu8; 2 * 1024 * 1024];
    assert!(matches!(image_summary(&erased), Err(InfoError::Bundle(_))));
}

#[test]
fn suggests_an_output_name() {
    assert_eq!(suggested_output_name(Some(b"tine-piano.ingen"), OutputFormat::Uf2), b"tine-piano.uf2");
    assert_eq!(suggested_output_name(Some(b"board.pedalboard"), OutputFormat::RawBinary), b"board.pedalboard.bin");
    assert_eq!(suggested_output_name(Some(b".ingen"), OutputFormat::Uf2), b".uf2");
    assert_eq!(suggested_output_name(None, OutputFormat::RawBinary), b"pico_patch.bin");
}

#[test]
fn refuses_a_node_uri_that_is_not_utf8() {
    let t = |s: &[u8], p: &str, o: &[u8]| Triple { subject: s.to_vec(), predicate: p.as_bytes().to_vec(), object: o.to_vec() };
    let triples = vec![
        t(b"urn:g#a", "http://www.w3.org/1999/02/22-rdf-syntax-ns#type", b"http://drobilla.net/ns/ingen#Block"),
        t(b"urn:g#a", "http://lv2plug.in/ns/lv2core#prototype", &[b'u', 0xff]),
    ];
    let graph = compile(&triples).ok().unwrap();
    let parsed = Graph::parse(&graph).unwrap();
    assert_eq!(graph_plugins(&parsed), None);
}
