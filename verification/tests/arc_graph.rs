use picolv2::arc_graph::{arc_graph, ingen_graph, node_for_port, ArcGraphError};
use picolv2::bundle::Graph;
use picolv2::ingen::Block;
use picolv2::rdf::Triple;

const PREFIXES: &str = "@prefix ingen: <http://drobilla.net/ns/ingen#> .\n@prefix lv2: <http://lv2plug.in/ns/lv2core#> .\n";

const RDF_TYPE: &str = "http://www.w3.org/1999/02/22-rdf-syntax-ns#type";
const BLOCK: &str = "http://drobilla.net/ns/ingen#Block";
const ARC: &str = "http://drobilla.net/ns/ingen#Arc";
const TAIL: &str = "http://drobilla.net/ns/ingen#tail";
const HEAD: &str = "http://drobilla.net/ns/ingen#head";
const PROTOTYPE: &str = "http://lv2plug.in/ns/lv2core#prototype";

fn document(body: &str) -> String {
    format!("{PREFIXES}{body}")
}

fn triple(s: &str, p: &str, o: &str) -> Triple {
    Triple { subject: s.as_bytes().to_vec(), predicate: p.as_bytes().to_vec(), object: o.as_bytes().to_vec() }
}

fn block(subject: &str) -> Block {
    Block { subject: subject.as_bytes().to_vec(), prototype: b"urn:p".to_vec(), ports: Vec::new() }
}

#[test]
fn packs_blocks_and_arcs_in_document_order() {
    let source = document(
        "<delay> a ingen:Block ; lv2:prototype <https://example.org/delay> .\n\
         <synth> a ingen:Block ; lv2:prototype <https://example.org/synth> .\n\
         <arc> a ingen:Arc ; ingen:tail <synth/out> ; ingen:head <delay/in> .\n",
    );
    let bytes = ingen_graph(source.as_bytes(), b"/g/main.ttl").ok().unwrap();
    let graph = Graph::parse(&bytes).unwrap();
    assert_eq!(graph.node_count, 2);
    assert_eq!(graph.edge_count, 1);
    assert_eq!(graph.node(0).unwrap().uri, b"https://example.org/delay");
    assert_eq!(graph.node(1).unwrap().uri, b"https://example.org/synth");
    let edge = graph.edge(0).unwrap();
    assert_eq!((edge.source_node, edge.source_port, edge.destination_node, edge.destination_port), (1, 0, 0, 0));
}

#[test]
fn writes_the_version_one_layout() {
    let ts = vec![
        triple("urn:a", RDF_TYPE, BLOCK),
        triple("urn:a", PROTOTYPE, "urn:p"),
        triple("urn:x", RDF_TYPE, ARC),
        triple("urn:x", TAIL, "urn:a/o"),
        triple("urn:x", HEAD, "urn:a/i"),
    ];
    let bytes = arc_graph(&ts).ok().unwrap();
    let mut expected = b"PICO GRP".to_vec();
    expected.extend_from_slice(&[1, 0, 0, 0, 1, 0, 1, 0]);
    expected.extend_from_slice(&[5, 0, 0, 0]);
    expected.extend_from_slice(b"urn:p");
    expected.extend_from_slice(&[0, 0, 0, 0, 0, 0, 0, 0]);
    assert_eq!(bytes, expected);
}

#[test]
fn keeps_a_block_declared_twice_twice() {
    let ts = vec![
        triple("urn:a", RDF_TYPE, BLOCK),
        triple("urn:a", PROTOTYPE, "urn:p"),
        triple("urn:a", RDF_TYPE, BLOCK),
    ];
    let bytes = arc_graph(&ts).ok().unwrap();
    assert_eq!(Graph::parse(&bytes).unwrap().node_count, 2);
}

#[test]
fn refuses_what_the_packer_refuses() {
    let blank = vec![triple("_:b", RDF_TYPE, BLOCK)];
    assert!(matches!(arc_graph(&blank), Err(ArcGraphError::BlankBlock)));
    let unnamed = vec![triple("urn:a", RDF_TYPE, BLOCK)];
    assert!(matches!(arc_graph(&unnamed), Err(ArcGraphError::MissingPrototype(s)) if s == b"urn:a"));
    assert!(matches!(arc_graph(&[]), Err(ArcGraphError::NoBlocks)));
    let base = vec![triple("urn:a", RDF_TYPE, BLOCK), triple("urn:a", PROTOTYPE, "urn:p"), triple("urn:x", RDF_TYPE, ARC)];
    assert!(matches!(arc_graph(&base), Err(ArcGraphError::MissingTail)));
    let mut no_head = base.clone_triples();
    no_head.push(triple("urn:x", TAIL, "urn:a/o"));
    assert!(matches!(arc_graph(&no_head), Err(ArcGraphError::MissingHead)));
    let mut stray = no_head.clone_triples();
    stray.push(triple("urn:x", HEAD, "urn:b/i"));
    assert!(matches!(arc_graph(&stray), Err(ArcGraphError::PortWithoutBlock(p)) if p == b"urn:b/i"));
}

trait CloneTriples {
    fn clone_triples(&self) -> Vec<Triple>;
}

impl CloneTriples for Vec<Triple> {
    fn clone_triples(&self) -> Vec<Triple> {
        self.iter().map(|t| Triple { subject: t.subject.clone(), predicate: t.predicate.clone(), object: t.object.clone() }).collect()
    }
}

#[test]
fn finds_the_block_that_owns_a_port() {
    let nodes = vec![block("urn:a"), block("urn:ab")];
    assert!(matches!(node_for_port(&nodes, b"urn:a/out"), Ok(0)));
    assert!(matches!(node_for_port(&nodes, b"urn:ab/in"), Ok(1)));
    assert!(matches!(node_for_port(&nodes, b"urn:a"), Err(ArcGraphError::PortWithoutBlock(_))));
    assert!(matches!(node_for_port(&nodes, b"urn:abc/in"), Err(ArcGraphError::PortWithoutBlock(_))));
}

#[test]
fn reports_syntax_and_base_errors() {
    assert!(matches!(ingen_graph(b"this is not turtle", b"/g/main.ttl"), Err(ArcGraphError::Syntax(_))));
    let source = document("<a> a ingen:Block ; lv2:prototype <urn:p> .\n");
    assert!(matches!(ingen_graph(source.as_bytes(), b"/g/a b/main.ttl"), Err(ArcGraphError::BaseIri)));
}
