use picolv2::manifest::{
    graph_document, input_kind, join_path, local_path, manifest_directory, percent_decode, resolve_input,
    resolve_manifest, strip_file_scheme, InputKind, ManifestError, manifest_location, file_name, bundle_manifest,
    InputPathError,
};
use picolv2::rdf::{percent_encode_path, Triple};

const RDF_TYPE: &str = "http://www.w3.org/1999/02/22-rdf-syntax-ns#type";
const SEE_ALSO: &str = "http://www.w3.org/2000/01/rdf-schema#seeAlso";
const INGEN_GRAPH: &str = "http://drobilla.net/ns/ingen#Graph";
const PEDALBOARD: &str = "http://moddevices.com/ns/modpedal#Pedalboard";
const PROTOTYPE: &str = "http://lv2plug.in/ns/lv2core#prototype";
const GRAPH_PROTOTYPE: &str = "http://drobilla.net/ns/ingen#GraphPrototype";

fn triple(s: &str, p: &str, o: &str) -> Triple {
    Triple { subject: s.as_bytes().to_vec(), predicate: p.as_bytes().to_vec(), object: o.as_bytes().to_vec() }
}

#[test]
fn tells_the_kinds_apart() {
    let ingen = vec![triple("file:/b/main.ttl", RDF_TYPE, INGEN_GRAPH)];
    assert_eq!(input_kind(&ingen), Some(InputKind::Ingen));
    let prototype = vec![triple("file:/b/main.ttl", PROTOTYPE, GRAPH_PROTOTYPE)];
    assert_eq!(input_kind(&prototype), Some(InputKind::Ingen));
    let both = vec![
        triple("file:/b/main.ttl", RDF_TYPE, INGEN_GRAPH),
        triple("file:/b/board.ttl", RDF_TYPE, PEDALBOARD),
    ];
    assert_eq!(input_kind(&both), Some(InputKind::ModPedalboard));
    assert_eq!(input_kind(&[triple("a", SEE_ALSO, "b")]), None);
}

#[test]
fn finds_the_graph_document() {
    let declared = vec![
        triple("urn:other", SEE_ALSO, "file:/b/other.ttl"),
        triple("file:/b/g", RDF_TYPE, INGEN_GRAPH),
        triple("file:/b/g", SEE_ALSO, "file:/b/main.ttl"),
    ];
    assert_eq!(graph_document(&declared, InputKind::Ingen), Some(&b"file:/b/main.ttl"[..]));
    let bare = vec![triple("file:/b/main.ttl", RDF_TYPE, INGEN_GRAPH)];
    assert_eq!(graph_document(&bare, InputKind::Ingen), Some(&b"file:/b/main.ttl"[..]));
    assert_eq!(graph_document(&bare, InputKind::ModPedalboard), None);
    let see_also_only = vec![triple("urn:x", SEE_ALSO, "file:/b/x.ttl")];
    assert_eq!(graph_document(&see_also_only, InputKind::ModPedalboard), Some(&b"file:/b/x.ttl"[..]));
}

#[test]
fn decodes_percent_escapes() {
    assert_eq!(percent_decode(b"a%20b"), Some(b"a b".to_vec()));
    assert_eq!(percent_decode(b"%41%6a"), Some(b"Aj".to_vec()));
    assert_eq!(percent_decode(b"%+a"), Some(vec![10]));
    assert_eq!(percent_decode(b"plain"), Some(b"plain".to_vec()));
    assert_eq!(percent_decode(b"%2"), None);
    assert_eq!(percent_decode(b"%zz"), None);
    assert_eq!(percent_decode(b"%-1"), None);
    assert_eq!(percent_decode(b"%++"), None);
}

#[test]
fn strips_the_file_scheme() {
    assert_eq!(strip_file_scheme(b"file:/a/b"), b"/a/b");
    assert_eq!(strip_file_scheme(b"/a/b"), b"/a/b");
    assert_eq!(strip_file_scheme(b"fil"), b"fil");
}

#[test]
fn turns_an_iri_into_a_local_path() {
    assert!(matches!(local_path(b"file:/x/a%C3%A9.ttl"), Ok(p) if p == "/x/aé.ttl".as_bytes()));
    assert!(matches!(local_path(b"main.ttl"), Ok(p) if p == b"main.ttl"));
    assert!(matches!(local_path(b"file:/x/%FF"), Err(ManifestError::NotUtf8)));
    assert!(matches!(local_path(b"file:/x/%F"), Err(ManifestError::PercentEscape)));
}

#[test]
fn decoding_undoes_path_encoding() {
    for path in ["/home/me/My Patches/é piano.ingen/main.ttl", "/a%b/c", "/plain/path"] {
        let encoded = percent_encode_path(path.as_bytes());
        assert_eq!(percent_decode(&encoded), Some(path.as_bytes().to_vec()));
    }
}

#[test]
fn resolves_a_manifest() {
    let ts = vec![
        triple("file:/b/board", RDF_TYPE, PEDALBOARD),
        triple("file:/b/board", SEE_ALSO, "file:/b/my%20board.ttl"),
    ];
    assert!(matches!(resolve_manifest(&ts), Ok((InputKind::ModPedalboard, p)) if p == b"/b/my board.ttl"));
    assert!(matches!(resolve_manifest(&[triple("a", "b", "c")]), Err(ManifestError::UnknownKind)));
    let undeclared = vec![triple("file:/b/g", PROTOTYPE, GRAPH_PROTOTYPE)];
    assert!(matches!(resolve_manifest(&undeclared), Err(ManifestError::NoGraph)));
    let bad = vec![triple("file:/b/g", RDF_TYPE, INGEN_GRAPH), triple("file:/b/g", SEE_ALSO, "file:/b/%G0")];
    assert!(matches!(resolve_manifest(&bad), Err(ManifestError::PercentEscape)));
}

#[test]
fn reads_a_relative_graph_path_against_the_manifest_directory() {
    let ts = vec![triple("urn:g", RDF_TYPE, INGEN_GRAPH), triple("urn:g", SEE_ALSO, "main%20graph.ttl")];
    assert!(matches!(resolve_input(b"bundles/g.ingen/manifest.ttl", &ts),
        Ok((InputKind::Ingen, p)) if p == b"bundles/g.ingen/main graph.ttl"));
    assert!(matches!(resolve_input(b"manifest.ttl", &ts), Ok((_, p)) if p == b"main graph.ttl"));
    assert!(matches!(resolve_input(b"/manifest.ttl", &ts), Ok((_, p)) if p == b"/main graph.ttl"));
    let absolute = vec![triple("file:/b/g", RDF_TYPE, INGEN_GRAPH)];
    assert!(matches!(resolve_input(b"x/manifest.ttl", &absolute), Ok((_, p)) if p == b"/b/g"));
    assert!(matches!(resolve_input(b"x/manifest.ttl", &[]), Err(ManifestError::UnknownKind)));
}

#[test]
fn joins_paths_like_the_file_system() {
    assert_eq!(manifest_directory(b"a/b//manifest.ttl"), b"a/b".to_vec());
    assert_eq!(manifest_directory(b"//manifest.ttl"), b"/".to_vec());
    assert_eq!(manifest_directory(b"manifest.ttl"), Vec::<u8>::new());
    assert_eq!(join_path(b"/", b"x.ttl"), b"/x.ttl".to_vec());
    assert_eq!(join_path(b"a", b"/x.ttl"), b"/x.ttl".to_vec());
    assert_eq!(join_path(b"a/b", b"x.ttl"), b"a/b/x.ttl".to_vec());
}

#[test]
fn rejects_bare_turtle_graph() {
    // The graph document itself is a file, but not a bundle's manifest.
    let result = manifest_location(b"../patches/throwaway/tine-piano-plus-delay.ingen/main.ttl", false, false, true);
    assert!(result.is_err());
}

#[test]
fn test_rejects_bare_ttl_without_manifest() {
    let result = manifest_location(b"../graphs/tine-piano-plus-delay.ingen/main.ttl", false, false, true);
    assert!(result.is_err());
}

#[test]
fn finds_the_manifest_of_an_input() {
    assert_eq!(manifest_location(b"g.ingen", true, true, false), Ok(b"g.ingen/manifest.ttl".to_vec()));
    assert_eq!(manifest_location(b"g.ingen/", true, true, false), Ok(b"g.ingen/manifest.ttl".to_vec()));
    assert_eq!(manifest_location(b"g.ingen", true, false, false), Err(InputPathError::NoManifest));
    assert_eq!(manifest_location(b"g.ingen/manifest.ttl", false, false, true), Ok(b"g.ingen/manifest.ttl".to_vec()));
    assert_eq!(manifest_location(b"g.ingen/manifest.ttl", false, false, false), Err(InputPathError::NotABundle));
    assert_eq!(file_name(b"a/b/manifest.ttl//"), b"manifest.ttl".to_vec());
    assert_eq!(file_name(b"manifest.ttl"), b"manifest.ttl".to_vec());
    assert_eq!(bundle_manifest(b""), b"manifest.ttl".to_vec());
}

#[test]
fn local_paths_must_be_well_formed_utf8() {
    assert!(matches!(local_path(b"file:/x/%F0%9F%8E%B9.ttl"), Ok(p) if p == "/x/🎹.ttl".as_bytes()));
    assert!(matches!(local_path("file:/x/日本.ttl".as_bytes()), Ok(p) if p == "/x/日本.ttl".as_bytes()));
    assert!(matches!(local_path(b"file:/x/%ED%A0%80"), Err(ManifestError::NotUtf8)));
    assert!(matches!(local_path(b"file:/x/%C0%80"), Err(ManifestError::NotUtf8)));
    assert!(matches!(local_path(b"file:/x/%E2%82"), Err(ManifestError::NotUtf8)));
    assert!(matches!(local_path(b"file:/x/%F4%90%80%80"), Err(ManifestError::NotUtf8)));
}
