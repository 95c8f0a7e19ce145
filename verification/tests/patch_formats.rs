use picolv2::patch_formats::ingen::{arcs, audio_outputs, load};
use picolv2::patch_formats::mod_pedalboard::{self, instance_name, port_symbol, PluginPorts};
use picolv2::patch_formats::LoadError;
use picolv2::rdf::{parse, parse_mod, Triple};

const PREFIXES: &str = "@prefix ingen: <http://drobilla.net/ns/ingen#> .\n@prefix lv2: <http://lv2plug.in/ns/lv2core#> .\n";

fn values(triples: &[Triple]) -> Vec<Option<u32>> {
    triples
        .iter()
        .map(|t| std::str::from_utf8(&t.object).ok().and_then(|s| s.parse::<f32>().ok()).map(f32::to_bits))
        .collect()
}

fn ingen(body: &str) -> Vec<Triple> {
    parse(format!("{PREFIXES}{body}").as_bytes(), b"/g/main.ttl").ok().unwrap()
}

fn pedalboard(body: &str) -> Vec<Triple> {
    parse_mod(format!("{PREFIXES}{body}").as_bytes(), b"/p/board.ttl").ok().unwrap()
}

#[test]
fn loads_an_ingen_graph() {
    let ts = ingen(
        "<delay> a ingen:Block ; lv2:prototype <urn:delay> ; lv2:port <delay/in> , <delay/time> .\n\
         <delay/in> lv2:index 0 .\n<delay/time> lv2:index 2 ; ingen:value 0.25 .\n\
         <out> a lv2:AudioPort , lv2:OutputPort ; lv2:index 1 .\n\
         <> ingen:arc [ ingen:tail <delay/in> ; ingen:head <out> ] .\n",
    );
    let graph = load(&ts, &values(&ts)).ok().unwrap();
    assert_eq!(graph.nodes.len(), 1);
    let node = &graph.nodes[0];
    assert_eq!(node.prototype, b"urn:delay".to_vec());
    assert_eq!(node.port_indices, vec![(b"file:///g/delay/in".to_vec(), 0), (b"file:///g/delay/time".to_vec(), 2)]);
    assert_eq!(node.overrides, vec![(2, 0.25f32.to_bits())]);
    assert_eq!(graph.arcs, vec![(b"file:///g/delay/in".to_vec(), b"file:///g/out".to_vec())]);
    assert_eq!(graph.outputs, vec![(b"file:///g/out".to_vec(), 1)]);
    assert!(graph.midi_bindings.is_empty());
}

#[test]
fn ingen_arcs_and_outputs() {
    let ts = ingen(
        "<> ingen:arc [ ingen:tail <b/o> ; ingen:head <c/i> ] , [ ingen:tail <a/o> ; ingen:head <c/i> ] .\n\
         <o2> a lv2:AudioPort , lv2:OutputPort ; lv2:index 2 .\n<o1> a lv2:AudioPort , lv2:OutputPort ; lv2:index 1 .\n",
    );
    assert_eq!(arcs(&ts).len(), 2);
    let found = audio_outputs(&ts).ok().unwrap();
    assert_eq!(found.len(), 2);
    let graph = load(&ts, &values(&ts)).ok().unwrap();
    assert_eq!(graph.arcs[0].0, b"file:///g/a/o".to_vec());
    assert_eq!(graph.outputs[0], (b"file:///g/o1".to_vec(), 1));
}

#[test]
fn ingen_refusals() {
    let bad_index = ingen("<a> a ingen:Block ; lv2:prototype <urn:a> ; lv2:port <a/p> .\n<a/p> lv2:index 300 .\n");
    assert!(matches!(load(&bad_index, &values(&bad_index)), Err(LoadError::InvalidIndex(_))));
    let bad_value = ingen("<a> a ingen:Block ; lv2:prototype <urn:a> ; lv2:port <a/p> .\n<a/p> lv2:index 1 ; ingen:value \"loud\" .\n");
    assert!(matches!(load(&bad_value, &values(&bad_value)), Err(LoadError::InvalidValue(_, _))));
    let bad_output = ingen("<o> a lv2:AudioPort , lv2:OutputPort ; lv2:index \"x\" .\n");
    assert!(matches!(load(&bad_output, &values(&bad_output)), Err(LoadError::InvalidOutputIndex(_))));
    let blank = ingen("[] a ingen:Block .\n");
    assert!(matches!(load(&blank, &values(&blank)), Err(LoadError::BlankBlock)));
}

fn dx10_ports() -> Vec<PluginPorts> {
    vec![PluginPorts {
        uri: b"http://moddevices.com/plugins/mda/DX10".to_vec(),
        ports: vec![(b"attack".to_vec(), 0), (b"out".to_vec(), 16)],
        flags: vec![(b"attack".to_vec(), 2)],
    }]
}

#[test]
fn loads_a_pedalboard_by_port_symbols() {
    let ts = pedalboard(
        "<DX10> a ingen:Block ; lv2:prototype <http://moddevices.com/plugins/mda/DX10> ; ingen:enabled true ;\n\
         lv2:port <DX10/attack> , <DX10/:bypass> , <DX10/out> .\n\
         <DX10/attack> ingen:value 123.5 ;\n\
           <http://lv2plug.in/ns/ext/midi#binding> [ <http://lv2plug.in/ns/ext/midi#channel> 0 ;\n\
             <http://lv2plug.in/ns/ext/midi#controllerNumber> 1 ; lv2:minimum 2.5 ; lv2:maximum 4000.0 ] .\n\
         <DX10/:bypass> ingen:value 0 .\n\
         <playback_1> a lv2:AudioPort , lv2:OutputPort ; lv2:index 0 .\n\
         <> ingen:arc [ ingen:tail <DX10/out> ; ingen:head <playback_1> ] .\n",
    );
    let graph = mod_pedalboard::load(&ts, &values(&ts), &dx10_ports()).ok().unwrap();
    assert_eq!(graph.midi_bindings.len(), 1);
    let binding = &graph.midi_bindings[0];
    assert_eq!(binding.port, b"file:///p/DX10/attack".to_vec());
    assert_eq!((binding.channel, binding.controller, binding.flags), (0, 1, 2));
    assert_eq!((binding.minimum, binding.maximum), (2.5f32.to_bits(), 4000.0f32.to_bits()));
    let node = &graph.nodes[0];
    assert_eq!(node.port_indices, vec![(b"file:///p/DX10/attack".to_vec(), 0), (b"file:///p/DX10/out".to_vec(), 16)]);
    assert_eq!(node.overrides, vec![(0, 123.5f32.to_bits())]);
    assert_eq!(graph.outputs, vec![(b"file:///p/playback_1".to_vec(), 0)]);
}

#[test]
fn pedalboard_refusals() {
    let bypassed = pedalboard(
        "<DX10> a ingen:Block ; lv2:prototype <http://moddevices.com/plugins/mda/DX10> ; lv2:port <DX10/:bypass> .\n<DX10/:bypass> ingen:value 1 .\n",
    );
    match mod_pedalboard::load(&bypassed, &values(&bypassed), &dx10_ports()) {
        Err(LoadError::Bypassed(name)) => assert_eq!(name, b"DX10".to_vec()),
        _ => panic!("expected a bypassed block"),
    }
    let disabled = pedalboard("<DX10> a ingen:Block ; ingen:enabled false ; lv2:prototype <urn:x> .\n");
    assert!(matches!(mod_pedalboard::load(&disabled, &values(&disabled), &dx10_ports()), Err(LoadError::Disabled(_))));
    let unknown = pedalboard(
        "<DX10> a ingen:Block ; lv2:prototype <http://moddevices.com/plugins/mda/DX10> ; lv2:port <DX10/decay> .\n",
    );
    match mod_pedalboard::load(&unknown, &values(&unknown), &dx10_ports()) {
        Err(LoadError::UnknownPort(name, symbol, _)) => {
            assert_eq!(name, b"DX10".to_vec());
            assert_eq!(symbol, b"decay".to_vec());
        }
        _ => panic!("expected an unknown port"),
    }
    let missing = pedalboard("<X> a ingen:Block ; lv2:prototype <urn:none> .\n");
    assert!(matches!(mod_pedalboard::load(&missing, &values(&missing), &dx10_ports()), Err(LoadError::PluginUnavailable(_))));
    let unbound = pedalboard(
        "<DX10> a ingen:Block ; lv2:prototype <http://moddevices.com/plugins/mda/DX10> ; lv2:port <DX10/attack> .\n\
         <DX10/attack> <http://lv2plug.in/ns/ext/midi#binding> [ <http://lv2plug.in/ns/ext/midi#channel> 0 ] .\n",
    );
    assert!(matches!(
        mod_pedalboard::load(&unbound, &values(&unbound), &dx10_ports()),
        Err(LoadError::InvalidBinding(p)) if p == b"file:///p/DX10/attack"
    ));
    let foreign = pedalboard("<DX10> a ingen:Block ; lv2:prototype <http://moddevices.com/plugins/mda/DX10> ; lv2:port <other/x> .\n");
    assert!(matches!(mod_pedalboard::load(&foreign, &values(&foreign), &dx10_ports()), Err(LoadError::ForeignPort(_, _))));
}

#[test]
fn port_symbols_and_instance_names() {
    assert_eq!(port_symbol(b"file:///p/DX10", b"file:///p/DX10/attack").ok().unwrap(), b"attack");
    assert!(port_symbol(b"file:///p/DX10", b"file:///p/DX10x/attack").is_err());
    assert_eq!(instance_name(b"file:///p/DX10"), b"DX10");
    assert_eq!(instance_name(b"plain"), b"plain");
    assert_eq!(instance_name(b"ends/"), b"");
}
