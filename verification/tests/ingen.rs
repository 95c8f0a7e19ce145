use picolv2::bundle::Graph;
use picolv2::ingen::{compile, manifest_graph, IngenError};
use picolv2::rdf::{parse, Triple};

const PREFIXES: &str = "@prefix ingen: <http://drobilla.net/ns/ingen#> .\n@prefix lv2: <http://lv2plug.in/ns/lv2core#> .\n@prefix rdfs: <http://www.w3.org/2000/01/rdf-schema#> .\n";

fn triples(body: &str) -> Vec<Triple> {
    let source = format!("{PREFIXES}{body}");
    parse(source.as_bytes(), b"/g/main.ttl").ok().unwrap()
}

fn triple(s: &str, p: &str, o: &str) -> Triple {
    Triple { subject: s.as_bytes().to_vec(), predicate: p.as_bytes().to_vec(), object: o.as_bytes().to_vec() }
}

#[test]
fn compiles_a_synth_into_a_delay() {
    let ts = triples(
        "<delay> a ingen:Block ; lv2:prototype <https://example.org/delay> ; lv2:port <delay/in> , <delay/out> .\n\
         <delay/in> lv2:index 0 .\n<delay/out> lv2:index 1 .\n\
         <synth> a ingen:Block ; lv2:prototype <https://example.org/synth> ; lv2:port <synth/midi> , <synth/out> .\n\
         <synth/midi> lv2:index 0 .\n<synth/out> lv2:index 1 .\n\
         <> ingen:arc [ ingen:tail <synth/out> ; ingen:head <delay/in> ] .\n\
         <> ingen:arc [ ingen:tail <delay/out> ; ingen:head <out> ] .\n",
    );
    let bytes = compile(&ts).ok().unwrap();
    let graph = Graph::parse(&bytes).unwrap();
    assert_eq!(graph.node_count, 2);
    assert_eq!(graph.edge_count, 1);
    assert_eq!(graph.node(0).unwrap().uri, b"https://example.org/synth");
    assert_eq!(graph.node(1).unwrap().uri, b"https://example.org/delay");
    let edge = graph.edge(0).unwrap();
    assert_eq!((edge.source_node, edge.source_port, edge.destination_node, edge.destination_port), (0, 1, 1, 0));
}

#[test]
fn takes_the_smallest_free_block_first() {
    let ts = triples(
        "<a> a ingen:Block ; lv2:prototype <urn:a> .\n\
         <b> a ingen:Block ; lv2:prototype <urn:b> .\n\
         <c> a ingen:Block ; lv2:prototype <urn:c> .\n\
         <c/o> lv2:index 2 .\n<a/i> lv2:index 3 .\n\
         <> ingen:arc [ ingen:tail <c/o> ; ingen:head <a/i> ] .\n",
    );
    let bytes = compile(&ts).ok().unwrap();
    let graph = Graph::parse(&bytes).unwrap();
    let uris: Vec<&[u8]> = (0..3).map(|i| graph.node(i).unwrap().uri).collect();
    assert_eq!(uris, vec![&b"urn:b"[..], b"urn:c", b"urn:a"]);
    let edge = graph.edge(0).unwrap();
    assert_eq!((edge.source_node, edge.source_port, edge.destination_node, edge.destination_port), (1, 2, 2, 3));
}

#[test]
fn repeated_connections_give_one_edge() {
    let ts = triples(
        "<a> a ingen:Block ; lv2:prototype <urn:a> ; lv2:port <a/o1> , <a/o2> .\n\
         <a/o1> lv2:index 1 .\n<a/o2> lv2:index 2 .\n<b/i> lv2:index 0 .\n\
         <b> a ingen:Block ; lv2:prototype <urn:b> .\n\
         <> ingen:arc [ ingen:tail <a/o1> ; ingen:head <b/i> ] , [ ingen:tail <a/o1> ; ingen:head <b/i> ] .\n",
    );
    let graph_bytes = compile(&ts).ok().unwrap();
    assert_eq!(Graph::parse(&graph_bytes).unwrap().edge_count, 1);
    let two_ports = triples(
        "<a> a ingen:Block ; lv2:prototype <urn:a> ; lv2:port <a/o1> , <a/o2> .\n\
         <a/o1> lv2:index 1 .\n<a/o2> lv2:index 2 .\n<b/i> lv2:index 0 .\n\
         <b> a ingen:Block ; lv2:prototype <urn:b> .\n\
         <> ingen:arc [ ingen:tail <a/o1> ; ingen:head <b/i> ] , [ ingen:tail <a/o2> ; ingen:head <b/i> ] .\n",
    );
    let bytes = compile(&two_ports).ok().unwrap();
    let graph = Graph::parse(&bytes).unwrap();
    assert_eq!(graph.edge_count, 2);
    assert_eq!(graph.edge(0).unwrap().source_port, 1);
    assert_eq!(graph.edge(1).unwrap().source_port, 2);
}

#[test]
fn unindexed_ports_get_port_zero() {
    let ts = triples(
        "<a> a ingen:Block ; lv2:prototype <urn:a> .\n<b> a ingen:Block ; lv2:prototype <urn:b> .\n\
         <b/i> lv2:index 3 .\n\
         <> ingen:arc [ ingen:tail <a/o> ; ingen:head <b/i> ] .\n",
    );
    let bytes = compile(&ts).ok().unwrap();
    let edge = Graph::parse(&bytes).unwrap().edge(0).unwrap();
    assert_eq!((edge.source_port, edge.destination_port), (0, 3));
    let bad = triples(
        "<a> a ingen:Block ; lv2:prototype <urn:a> .\n<b> a ingen:Block ; lv2:prototype <urn:b> .\n\
         <a/o> lv2:index 300 .\n<b/i> lv2:index 2 .\n\
         <> ingen:arc [ ingen:tail <a/o> ; ingen:head <b/i> ] .\n",
    );
    let bytes = compile(&bad).ok().unwrap();
    let edge = Graph::parse(&bytes).unwrap().edge(0).unwrap();
    assert_eq!((edge.source_port, edge.destination_port), (0, 2));
}

#[test]
fn refuses_cycles() {
    let ts = triples(
        "<a> a ingen:Block ; lv2:prototype <urn:a> .\n<b> a ingen:Block ; lv2:prototype <urn:b> .\n\
         <a/o> lv2:index 1 .\n<a/i> lv2:index 0 .\n<b/o> lv2:index 1 .\n<b/i> lv2:index 0 .\n\
         <> ingen:arc [ ingen:tail <a/o> ; ingen:head <b/i> ] , [ ingen:tail <b/o> ; ingen:head <a/i> ] .\n",
    );
    assert!(matches!(compile(&ts), Err(IngenError::Cycle)));
}

#[test]
fn refuses_graphs_without_blocks() {
    assert!(matches!(compile(&triples("<x> <http://x/p> 1 .\n")), Err(IngenError::NoBlocks)));
}

#[test]
fn refuses_blank_blocks_and_missing_prototypes() {
    assert!(matches!(compile(&triples("[] a ingen:Block .\n")), Err(IngenError::BlankBlock)));
    match compile(&triples("<a> a ingen:Block .\n")) {
        Err(IngenError::MissingPrototype(subject)) => assert_eq!(subject, b"file:///g/a".to_vec()),
        _ => panic!("expected a missing prototype"),
    }
}

#[test]
fn graph_bytes_for_one_block() {
    let ts = vec![
        triple("b", "http://www.w3.org/1999/02/22-rdf-syntax-ns#type", "http://drobilla.net/ns/ingen#Block"),
        triple("b", "http://lv2plug.in/ns/lv2core#prototype", "urn:p"),
    ];
    let bytes = compile(&ts).ok().unwrap();
    let mut expected = b"PICO GRP".to_vec();
    expected.extend_from_slice(&1u32.to_le_bytes());
    expected.extend_from_slice(&1u16.to_le_bytes());
    expected.extend_from_slice(&0u16.to_le_bytes());
    expected.extend_from_slice(&5u16.to_le_bytes());
    expected.extend_from_slice(&[0, 0]);
    expected.extend_from_slice(b"urn:p");
    assert_eq!(bytes, expected);
}

#[test]
fn manifest_names_its_graph() {
    let ts = triples("<g.ttl> a ingen:Graph ; rdfs:seeAlso <main.ttl> .\n");
    assert_eq!(manifest_graph(&ts), Some(&b"file:///g/main.ttl"[..]));
    let ts = triples("<g.ttl> a ingen:GraphPrototype .\n");
    assert_eq!(manifest_graph(&ts), Some(&b"file:///g/g.ttl"[..]));
    let ts = triples("<x> rdfs:seeAlso <other.ttl> .\n");
    assert_eq!(manifest_graph(&ts), Some(&b"file:///g/other.ttl"[..]));
    assert_eq!(manifest_graph(&triples("<x> <http://x/p> 1 .\n")), None);
}
