use picolv2::rdf::{
    base_iri_for, make_roots_relative, object_for, parse, parse_mod, percent_encode_path,
    subject_key, term_key, RdfNode, RdfTerm, Triple, TurtleError,
};

fn triple(s: &str, p: &str, o: &str) -> Triple {
    Triple { subject: s.as_bytes().to_vec(), predicate: p.as_bytes().to_vec(), object: o.as_bytes().to_vec() }
}

#[test]
fn percent_encodes_reserved_path_bytes() {
    assert_eq!(percent_encode_path(b"/tmp/a b/x~y_z-1.ttl"), b"/tmp/a%20b/x~y_z-1.ttl".to_vec());
    assert_eq!(percent_encode_path("/é".as_bytes()), b"/%C3%A9".to_vec());
    assert_eq!(percent_encode_path(b"C:/dir#1"), b"C:/dir%231".to_vec());
}

#[test]
fn base_iri_is_a_file_iri() {
    assert_eq!(base_iri_for(b"/g/mod basic.pedalboard/x.ttl"), b"file:///g/mod%20basic.pedalboard/x.ttl".to_vec());
}

#[test]
fn root_relative_identifiers_become_relative() {
    assert_eq!(make_roots_relative(b"<:bpm> <:x> <a:b> <:"), b"<./:bpm> <./:x> <a:b> <./:".to_vec());
    assert_eq!(make_roots_relative(b"<<::"), b"<<./::".to_vec());
}

#[test]
fn keys_of_terms() {
    assert_eq!(subject_key(&RdfNode::Blank(b"b0".to_vec())), b"_:b0".to_vec());
    assert_eq!(subject_key(&RdfNode::Named(b"http://x/a".to_vec())), b"http://x/a".to_vec());
    assert_eq!(term_key(&RdfTerm::Literal(b"0.5".to_vec())), b"0.5".to_vec());
    assert_eq!(term_key(&RdfTerm::Blank(b"n".to_vec())), b"_:n".to_vec());
}

#[test]
fn object_for_takes_the_first_match() {
    let triples = vec![triple("a", "p", "1"), triple("b", "p", "2"), triple("a", "p", "3")];
    assert_eq!(object_for(&triples, b"a", b"p"), Some(&b"1"[..]));
    assert_eq!(object_for(&triples, b"b", b"p"), Some(&b"2"[..]));
    assert_eq!(object_for(&triples, b"c", b"p"), None);
}

#[test]
fn parses_turtle_with_a_file_base() {
    let source = b"@prefix lv2: <http://lv2plug.in/ns/lv2core#> .\n<blk> lv2:prototype <https://example.org/p> ; lv2:index 3 .\n[] lv2:port <blk/in> .\n";
    let triples = parse(source, b"/graphs/g.ingen/main.ttl").ok().unwrap();
    assert_eq!(triples.len(), 3);
    assert_eq!(triples[0].subject, b"file:///graphs/g.ingen/blk".to_vec());
    assert_eq!(triples[0].predicate, b"http://lv2plug.in/ns/lv2core#prototype".to_vec());
    assert_eq!(triples[0].object, b"https://example.org/p".to_vec());
    assert_eq!(triples[1].object, b"3".to_vec());
    assert!(triples[2].subject.starts_with(b"_:"));
    assert_eq!(triples[2].object, b"file:///graphs/g.ingen/blk/in".to_vec());
}

#[test]
fn reports_syntax_errors() {
    match parse(b"<a> <b> .", b"/x.ttl") {
        Err(TurtleError::Syntax(message)) => assert!(!message.is_empty()),
        _ => panic!("expected a syntax error"),
    }
}

#[test]
fn mod_documents_accept_root_relative_identifiers() {
    assert!(parse(b"<:bpm> <http://x/p> 120 .", b"/p/board.ttl").is_err());
    let triples = parse_mod(b"<:bpm> <http://x/p> 120 .", b"/p/board.ttl").ok().unwrap();
    assert_eq!(triples.len(), 1);
    assert_eq!(triples[0].subject, b"file:///p/:bpm".to_vec());
}

#[test]
fn blank_nodes_keep_one_name_per_node() {
    let source = b"_:x <http://x/p> [ <http://x/q> _:x ] .\n_:y <http://x/p> _:x .\n";
    let triples = parse(source, b"/d.ttl").ok().unwrap();
    assert_eq!(triples.len(), 3);
    let outer = triples.iter().find(|t| t.subject == b"_:x").unwrap();
    let inner = triples.iter().find(|t| t.predicate == b"http://x/q").unwrap();
    assert_eq!(inner.object, b"_:x".to_vec());
    assert_eq!(outer.object, inner.subject);
    assert!(inner.subject.starts_with(b"_:"));
    assert_ne!(inner.subject, b"_:x".to_vec());
    assert_eq!(triples[2].subject, b"_:y".to_vec());
    assert_eq!(triples[2].object, b"_:x".to_vec());
}

#[test]
fn documents_without_root_relative_identifiers_read_alike() {
    let source = b"<a> <http://x/p> \"v\" , <b> .\n";
    let plain = parse(source, b"/m/doc.ttl").ok().unwrap();
    let rewritten = parse_mod(source, b"/m/doc.ttl").ok().unwrap();
    assert_eq!(plain.len(), rewritten.len());
    for (a, b) in plain.iter().zip(rewritten.iter()) {
        assert_eq!((&a.subject, &a.predicate, &a.object), (&b.subject, &b.predicate, &b.object));
    }
}
