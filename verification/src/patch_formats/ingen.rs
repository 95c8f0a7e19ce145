//! Reading an Ingen graph document into the common graph model.

use vstd::prelude::*;
use vstd::string::StringSliceAdditionalSpecFns;
use crate::bundle::bytes_equal;
use crate::decimal::{parse_u8, parse_u8_spec};
use crate::graph::{indexed_views, node_views, pair_views, Node, NodeView, SourceGraph, SourceGraphView};
use crate::ingen::{
    arcs_upto, blank_prefix, byte_strings, collect_arcs, declares_block, ports_for, ports_upto, sorted_arcs,
    INGEN_BLOCK, LV2_PROTOTYPE,
};
use crate::patch_formats::{
    output_port_views, sorted_arc_pairs, sorted_output_ports, sorted_outputs, LoadError, LoadFault,
    OutputPort,
};
use crate::rdf::{find_triple, first_match, has_prefix, object_for, object_of, starts_with, Triple, RDF_TYPE};

verus! {

pub const LV2_INDEX: &'static str = "http://lv2plug.in/ns/lv2core#index";

pub const LV2_AUDIO_PORT: &'static str = "http://lv2plug.in/ns/lv2core#AudioPort";

pub const LV2_OUTPUT_PORT: &'static str = "http://lv2plug.in/ns/lv2core#OutputPort";

pub const INGEN_VALUE: &'static str = "http://drobilla.net/ns/ingen#value";

/// The LV2 indices of the first `k` of `ports`, and the values set on them:
/// a port without `lv2:index` is passed over; `values[j]` holds the float
/// bits of statement `j`'s object where it reads as a float.
pub open spec fn port_settings(
    ts: Seq<Triple>,
    values: Seq<Option<u32>>,
    ports: Seq<Seq<u8>>,
    k: int,
) -> Result<(Seq<(Seq<u8>, u8)>, Seq<(u8, u32)>), LoadFault>
    decreases k,
{
    if k <= 0 {
        Ok((Seq::empty(), Seq::empty()))
    } else {
        match port_settings(ts, values, ports, k - 1) {
            Err(e) => Err(e),
            Ok(prev) => {
                let port = ports[k - 1];
                match object_of(ts, port, LV2_INDEX.spec_bytes()) {
                    None => Ok(prev),
                    Some(text) => match parse_u8_spec(text) {
                        None => Err(LoadFault::InvalidIndex(port)),
                        Some(index) => {
                            let indices = prev.0.push((port, index));
                            match first_match(ts, port, INGEN_VALUE.spec_bytes()) {
                                None => Ok((indices, prev.1)),
                                Some(j) => match values[j] {
                                    None => Err(LoadFault::InvalidValue(port, ts[j].object@)),
                                    Some(bits) => Ok((indices, prev.1.push((index, bits)))),
                                },
                            }
                        },
                    },
                }
            },
        }
    }
}

pub open spec fn has_node(ns: Seq<NodeView>, subject: Seq<u8>) -> bool {
    exists|i: int| 0 <= i < ns.len() && #[trigger] ns[i].subject == subject
}

/// The nodes declared among the first `n` statements, each once, in the
/// order of their first declaration.
pub open spec fn nodes_upto(ts: Seq<Triple>, values: Seq<Option<u32>>, n: int) -> Result<
    Seq<NodeView>,
    LoadFault,
>
    decreases n,
{
    if n <= 0 {
        Ok(Seq::empty())
    } else {
        match nodes_upto(ts, values, n - 1) {
            Err(e) => Err(e),
            Ok(ns) => {
                let t = ts[n - 1];
                if !declares_block(t) {
                    Ok(ns)
                } else if has_prefix(t.subject@, blank_prefix()) {
                    Err(LoadFault::BlankBlock)
                } else if has_node(ns, t.subject@) {
                    Ok(ns)
                } else {
                    match object_of(ts, t.subject@, LV2_PROTOTYPE.spec_bytes()) {
                        None => Err(LoadFault::MissingPrototype(t.subject@)),
                        Some(p) => {
                            let ports = ports_upto(ts, t.subject@, ts.len() as int);
                            match port_settings(ts, values, ports, ports.len() as int) {
                                Err(e) => Err(e),
                                Ok(settings) => Ok(
                                    ns.push(
                                        NodeView {
                                            subject: t.subject@,
                                            prototype: p,
                                            ports,
                                            port_indices: settings.0,
                                            overrides: settings.1,
                                        },
                                    ),
                                ),
                            }
                        },
                    }
                }
            },
        }
    }
}

/// Some statement types `subject` as an output port.
pub open spec fn is_output_port(ts: Seq<Triple>, subject: Seq<u8>) -> bool {
    exists|j: int|
        0 <= j < ts.len() && #[trigger] ts[j].subject@ == subject && ts[j].predicate@
            == RDF_TYPE.spec_bytes() && ts[j].object@ == LV2_OUTPUT_PORT.spec_bytes()
}

/// The audio output ports typed among the first `n` statements that have an
/// `lv2:index`, with that index.
pub open spec fn audio_outputs_upto(ts: Seq<Triple>, n: int) -> Result<Seq<(Seq<u8>, u8)>, LoadFault>
    decreases n,
{
    if n <= 0 {
        Ok(Seq::empty())
    } else {
        match audio_outputs_upto(ts, n - 1) {
            Err(e) => Err(e),
            Ok(os) => {
                let t = ts[n - 1];
                if !(t.predicate@ == RDF_TYPE.spec_bytes() && t.object@ == LV2_AUDIO_PORT.spec_bytes()) {
                    Ok(os)
                } else if !is_output_port(ts, t.subject@) {
                    Ok(os)
                } else {
                    match object_of(ts, t.subject@, LV2_INDEX.spec_bytes()) {
                        None => Ok(os),
                        Some(text) => match parse_u8_spec(text) {
                            None => Err(LoadFault::InvalidOutputIndex(t.subject@)),
                            Some(index) => Ok(os.push((t.subject@, index))),
                        },
                    }
                }
            },
        }
    }
}

/// The graph an Ingen document describes, or why it describes none.
pub open spec fn load_spec(ts: Seq<Triple>, values: Seq<Option<u32>>) -> Result<SourceGraphView, LoadFault> {
    match nodes_upto(ts, values, ts.len() as int) {
        Err(e) => Err(e),
        Ok(ns) => match audio_outputs_upto(ts, ts.len() as int) {
            Err(e) => Err(e),
            Ok(os) => Ok(
                SourceGraphView {
                    nodes: ns,
                    arcs: sorted_arcs(arcs_upto(ts, ts.len() as int)),
                    outputs: sorted_output_ports(os),
                    bindings: Seq::empty(),
                },
            ),
        },
    }
}

/// What `port` sets on its plugin: its LV2 index and the bits of its
/// `ingen:value`, where it has an index that reads as a `u8` and a value
/// that reads as a float.
pub open spec fn port_value(ts: Seq<Triple>, values: Seq<Option<u32>>, port: Seq<u8>) -> Option<(u8, u32)> {
    match object_of(ts, port, LV2_INDEX.spec_bytes()) {
        None => None,
        Some(text) => match (parse_u8_spec(text), first_match(ts, port, INGEN_VALUE.spec_bytes())) {
            (Some(index), Some(j)) => match values[j] {
                Some(bits) => Some((index, bits)),
                None => None,
            },
            _ => None,
        },
    }
}

/// The settings of those of `ports` that set a value, in their order.
pub open spec fn set_values(ts: Seq<Triple>, values: Seq<Option<u32>>, ports: Seq<Seq<u8>>) -> Seq<(u8, u32)> {
    ports.filter(|p: Seq<u8>| port_value(ts, values, p) is Some).map_values(
        |p: Seq<u8>| port_value(ts, values, p)->0,
    )
}

proof fn lemma_port_settings_values(ts: Seq<Triple>, values: Seq<Option<u32>>, ports: Seq<Seq<u8>>, k: int)
    requires
        0 <= k <= ports.len(),
    ensures
        port_settings(ts, values, ports, k) matches Ok(p) ==> p.1 == set_values(ts, values, ports.take(k)),
    decreases k,
{
    reveal(Seq::filter);
    if k == 0 {
        assert(ports.take(0) =~= Seq::<Seq<u8>>::empty());
        assert(set_values(ts, values, ports.take(0)) =~= Seq::<(u8, u32)>::empty());
    } else {
        lemma_port_settings_values(ts, values, ports, k - 1);
        let t = ports.take(k);
        let pred = |p: Seq<u8>| port_value(ts, values, p) is Some;
        let f = |p: Seq<u8>| port_value(ts, values, p)->0;
        assert(t.drop_last() =~= ports.take(k - 1));
        assert(t.last() == ports[k - 1]);
        let sub = ports.take(k - 1).filter(pred);
        if pred(ports[k - 1]) {
            assert(t.filter(pred) == sub.push(ports[k - 1]));
            assert(sub.push(ports[k - 1]).map_values(f) =~= sub.map_values(f).push(f(ports[k - 1])));
        } else {
            assert(t.filter(pred) == sub);
        }
    }
}

/// Every port of a block of a loaded Ingen graph that has an `lv2:index`
/// and an `ingen:value` gives the block one override, its index and the
/// value's bits, whatever the value; overrides come in the order the block
/// lists its ports, and no other port gives one.
pub proof fn lemma_load_overrides(ts: Seq<Triple>, values: Seq<Option<u32>>)
    ensures
        load_spec(ts, values) matches Ok(g) ==> forall|i: int|
            0 <= i < g.nodes.len() ==> #[trigger] g.nodes[i].overrides == set_values(ts, values, g.nodes[i].ports),
{
    lemma_nodes_overrides(ts, values, ts.len() as int);
}

proof fn lemma_nodes_overrides(ts: Seq<Triple>, values: Seq<Option<u32>>, n: int)
    ensures
        nodes_upto(ts, values, n) matches Ok(ns) ==> forall|i: int|
            0 <= i < ns.len() ==> #[trigger] ns[i].overrides == set_values(ts, values, ns[i].ports),
    decreases n,
{
    if n > 0 {
        lemma_nodes_overrides(ts, values, n - 1);
        let t = ts[n - 1];
        let ports = ports_upto(ts, t.subject@, ts.len() as int);
        lemma_port_settings_values(ts, values, ports, ports.len() as int);
        assert(ports.take(ports.len() as int) =~= ports);
    }
}

proof fn lemma_settings_error_stays(
    ts: Seq<Triple>,
    values: Seq<Option<u32>>,
    ports: Seq<Seq<u8>>,
    k: int,
    n: int,
)
    requires
        0 <= k <= n,
        port_settings(ts, values, ports, k) is Err,
    ensures
        port_settings(ts, values, ports, n) == port_settings(ts, values, ports, k),
    decreases n - k,
{
    if n > k {
        lemma_settings_error_stays(ts, values, ports, k, n - 1);
    }
}

proof fn lemma_nodes_error_stays(ts: Seq<Triple>, values: Seq<Option<u32>>, k: int, n: int)
    requires
        0 <= k <= n,
        nodes_upto(ts, values, k) is Err,
    ensures
        nodes_upto(ts, values, n) == nodes_upto(ts, values, k),
    decreases n - k,
{
    if n > k {
        lemma_nodes_error_stays(ts, values, k, n - 1);
    }
}

proof fn lemma_outputs_error_stays(ts: Seq<Triple>, k: int, n: int)
    requires
        0 <= k <= n,
        audio_outputs_upto(ts, k) is Err,
    ensures
        audio_outputs_upto(ts, n) == audio_outputs_upto(ts, k),
    decreases n - k,
{
    if n > k {
        lemma_outputs_error_stays(ts, k, n - 1);
    }
}

/// The LV2 indices of `ports` and the values set on them.
pub fn read_port_settings(triples: &[Triple], values: &[Option<u32>], ports: &Vec<Vec<u8>>) -> (r: Result<
    (Vec<(Vec<u8>, u8)>, Vec<(u8, u32)>),
    LoadError,
>)
    requires
        values@.len() == triples@.len(),
    ensures
        match r {
            Ok((indices, overrides)) => port_settings(
                triples@,
                values@,
                byte_strings(ports@),
                ports@.len() as int,
            ) == Ok::<(Seq<(Seq<u8>, u8)>, Seq<(u8, u32)>), LoadFault>(
                (indexed_views(indices@), overrides@),
            ),
            Err(e) => port_settings(triples@, values@, byte_strings(ports@), ports@.len() as int)
                == Err::<(Seq<(Seq<u8>, u8)>, Seq<(u8, u32)>), LoadFault>(e@),
        },
{
    let ghost ps = byte_strings(ports@);
    let mut indices: Vec<(Vec<u8>, u8)> = Vec::new();
    let mut overrides: Vec<(u8, u32)> = Vec::new();
    let mut k: usize = 0;
    assert(indexed_views(indices@) =~= Seq::<(Seq<u8>, u8)>::empty());
    while k < ports.len()
        invariant
            k <= ports@.len(),
            values@.len() == triples@.len(),
            ps == byte_strings(ports@),
            port_settings(triples@, values@, ps, k as int) == Ok::<
                (Seq<(Seq<u8>, u8)>, Seq<(u8, u32)>),
                LoadFault,
            >((indexed_views(indices@), overrides@)),
        decreases ports@.len() - k,
    {
        let port = ports[k].as_slice();
        assert(port@ == ps[k as int]);
        match object_for(triples, port, LV2_INDEX.as_bytes()) {
            None => {},
            Some(text) => {
                let index = match parse_u8(text) {
                    Some(i) => i,
                    None => {
                        proof {
                            lemma_settings_error_stays(triples@, values@, ps, k + 1, ports@.len() as int);
                        }
                        return Err(LoadError::InvalidIndex(ports[k].clone()));
                    },
                };
                let ghost prev = indexed_views(indices@);
                indices.push((ports[k].clone(), index));
                assert(indexed_views(indices@) =~= prev.push((ps[k as int], index)));
                match find_triple(triples, port, INGEN_VALUE.as_bytes()) {
                    None => {},
                    Some(j) => {
                        proof {
                            crate::rdf::lemma_first_match_from(triples@, port@, INGEN_VALUE.spec_bytes(), 0);
                        }
                        match values[j] {
                            Some(bits) => overrides.push((index, bits)),
                            None => {
                                proof {
                                    lemma_settings_error_stays(triples@, values@, ps, k + 1, ports@.len() as int);
                                }
                                return Err(LoadError::InvalidValue(ports[k].clone(), triples[j].object.clone()));
                            },
                        }
                    },
                }
            },
        }
        k = k + 1;
    }
    Ok((indices, overrides))
}

fn node_known(nodes: &Vec<Node>, subject: &[u8]) -> (r: bool)
    ensures
        r == has_node(node_views(nodes@), subject@),
{
    let mut i: usize = 0;
    while i < nodes.len()
        invariant
            i <= nodes@.len(),
            forall|j: int| 0 <= j < i ==> nodes@[j].subject@ != subject@,
        decreases nodes@.len() - i,
    {
        if bytes_equal(nodes[i].subject.as_slice(), subject) {
            assert(node_views(nodes@)[i as int].subject == subject@);
            return true;
        }
        i = i + 1;
    }
    assert forall|j: int| 0 <= j < nodes@.len() implies #[trigger] node_views(nodes@)[j].subject != subject@ by {
        assert(nodes@[j].subject@ != subject@);
    }
    false
}

/// Collects the nodes the statements declare, in order of first declaration.
pub fn collect_nodes(triples: &[Triple], values: &[Option<u32>]) -> (r: Result<Vec<Node>, LoadError>)
    requires
        values@.len() == triples@.len(),
    ensures
        match r {
            Ok(ns) => nodes_upto(triples@, values@, triples@.len() as int) == Ok::<
                Seq<NodeView>,
                LoadFault,
            >(node_views(ns@)),
            Err(e) => nodes_upto(triples@, values@, triples@.len() as int) == Err::<
                Seq<NodeView>,
                LoadFault,
            >(e@),
        },
{
    let mut nodes: Vec<Node> = Vec::new();
    let mut i: usize = 0;
    assert(node_views(nodes@) =~= Seq::<NodeView>::empty());
    while i < triples.len()
        invariant
            i <= triples@.len(),
            values@.len() == triples@.len(),
            nodes_upto(triples@, values@, i as int) == Ok::<Seq<NodeView>, LoadFault>(
                node_views(nodes@),
            ),
        decreases triples@.len() - i,
    {
        let ghost before = node_views(nodes@);
        let t = &triples[i];
        if bytes_equal(t.predicate.as_slice(), RDF_TYPE.as_bytes()) && bytes_equal(
            t.object.as_slice(),
            INGEN_BLOCK.as_bytes(),
        ) {
            let blank: [u8; 2] = [95u8, 58u8];
            proof {
                assert(blank@ =~= blank_prefix());
            }
            if starts_with(t.subject.as_slice(), &blank) {
                proof {
                    lemma_nodes_error_stays(triples@, values@, i + 1, triples@.len() as int);
                }
                return Err(LoadError::BlankBlock);
            }
            if !node_known(&nodes, t.subject.as_slice()) {
                let prototype = match object_for(
                    triples,
                    t.subject.as_slice(),
                    LV2_PROTOTYPE.as_bytes(),
                ) {
                    Some(p) => p,
                    None => {
                        proof {
                            lemma_nodes_error_stays(triples@, values@, i + 1, triples@.len() as int);
                        }
                        return Err(LoadError::MissingPrototype(t.subject.clone()));
                    },
                };
                let ports = ports_for(triples, t.subject.as_slice());
                let (port_indices, overrides) = match read_port_settings(triples, values, &ports) {
                    Ok(settings) => settings,
                    Err(e) => {
                        proof {
                            lemma_nodes_error_stays(triples@, values@, i + 1, triples@.len() as int);
                        }
                        return Err(e);
                    },
                };
                let node = Node {
                    subject: t.subject.clone(),
                    prototype: vstd::slice::slice_to_vec(prototype),
                    ports,
                    port_indices,
                    overrides,
                };
                nodes.push(node);
                assert(node_views(nodes@) =~= before.push(nodes@.last()@));
            }
        }
        i = i + 1;
    }
    Ok(nodes)
}

/// The connections the statements describe: for each statement with
/// `ingen:head`, its subject's `ingen:tail` and its object, in order.
pub fn arcs(triples: &[Triple]) -> (r: Vec<(Vec<u8>, Vec<u8>)>)
    ensures
        pair_views(r@) == arcs_upto(triples@, triples@.len() as int),
{
    let collected = collect_arcs(triples);
    let mut out: Vec<(Vec<u8>, Vec<u8>)> = Vec::new();
    let mut i: usize = 0;
    while i < collected.len()
        invariant
            i <= collected@.len(),
            pair_views(out@) == crate::ingen::connection_views(collected@).subrange(0, i as int),
        decreases collected@.len() - i,
    {
        let ghost prev = pair_views(out@);
        let tail = collected[i].tail.clone();
        let head = collected[i].head.clone();
        out.push((tail, head));
        assert(pair_views(out@) =~= prev.push((collected@[i as int].tail@, collected@[i as int].head@)));
        assert(crate::ingen::connection_views(collected@).subrange(0, i + 1) =~= crate::ingen::connection_views(
            collected@,
        ).subrange(0, i as int).push((collected@[i as int].tail@, collected@[i as int].head@)));
        i = i + 1;
    }
    assert(crate::ingen::connection_views(collected@).subrange(0, collected@.len() as int)
        =~= crate::ingen::connection_views(collected@));
    out
}

fn is_output_port_exec(triples: &[Triple], subject: &[u8]) -> (r: bool)
    ensures
        r == is_output_port(triples@, subject@),
{
    let mut j: usize = 0;
    while j < triples.len()
        invariant
            j <= triples@.len(),
            forall|k: int|
                0 <= k < j ==> !(#[trigger] triples@[k].subject@ == subject@ && triples@[k].predicate@
                    == RDF_TYPE.spec_bytes() && triples@[k].object@ == LV2_OUTPUT_PORT.spec_bytes()),
        decreases triples@.len() - j,
    {
        let t = &triples[j];
        if bytes_equal(t.subject.as_slice(), subject) && bytes_equal(t.predicate.as_slice(), RDF_TYPE.as_bytes())
            && bytes_equal(t.object.as_slice(), LV2_OUTPUT_PORT.as_bytes()) {
            return true;
        }
        j = j + 1;
    }
    false
}

/// The graph's audio outputs: each port typed `lv2:AudioPort` and
/// `lv2:OutputPort` that has an `lv2:index`, with that index, in the order
/// of their `lv2:AudioPort` statements.
pub fn audio_outputs(triples: &[Triple]) -> (r: Result<Vec<OutputPort>, LoadError>)
    ensures
        match r {
            Ok(os) => audio_outputs_upto(triples@, triples@.len() as int) == Ok::<
                Seq<(Seq<u8>, u8)>,
                LoadFault,
            >(output_port_views(os@)),
            Err(e) => audio_outputs_upto(triples@, triples@.len() as int) == Err::<
                Seq<(Seq<u8>, u8)>,
                LoadFault,
            >(e@),
        },
{
    let mut outputs: Vec<OutputPort> = Vec::new();
    let mut i: usize = 0;
    assert(output_port_views(outputs@) =~= Seq::<(Seq<u8>, u8)>::empty());
    while i < triples.len()
        invariant
            i <= triples@.len(),
            audio_outputs_upto(triples@, i as int) == Ok::<Seq<(Seq<u8>, u8)>, LoadFault>(
                output_port_views(outputs@),
            ),
        decreases triples@.len() - i,
    {
        let ghost before = output_port_views(outputs@);
        let t = &triples[i];
        if bytes_equal(t.predicate.as_slice(), RDF_TYPE.as_bytes()) && bytes_equal(
            t.object.as_slice(),
            LV2_AUDIO_PORT.as_bytes(),
        ) && is_output_port_exec(triples, t.subject.as_slice()) {
            match object_for(triples, t.subject.as_slice(), LV2_INDEX.as_bytes()) {
                None => {},
                Some(text) => match parse_u8(text) {
                    Some(index) => {
                        outputs.push(OutputPort { subject: t.subject.clone(), index });
                        assert(output_port_views(outputs@) =~= before.push((t.subject@, index)));
                    },
                    None => {
                        proof {
                            lemma_outputs_error_stays(triples@, i + 1, triples@.len() as int);
                        }
                        return Err(LoadError::InvalidOutputIndex(t.subject.clone()));
                    },
                },
            }
        }
        i = i + 1;
    }
    Ok(outputs)
}

/// Reads the statements of an Ingen graph document into the common graph
/// model. `values[j]` is the bit pattern of statement `j`'s object read as
/// a 32-bit float, or `None` where it does not read as one.
pub fn load(triples: &[Triple], values: &[Option<u32>]) -> (r: Result<SourceGraph, LoadError>)
    requires
        values@.len() == triples@.len(),
    ensures
        match r {
            Ok(g) => load_spec(triples@, values@) == Ok::<SourceGraphView, LoadFault>(g@),
            Err(e) => load_spec(triples@, values@) == Err::<SourceGraphView, LoadFault>(e@),
        },
{
    let nodes = match collect_nodes(triples, values) {
        Ok(nodes) => nodes,
        Err(e) => return Err(e),
    };
    let arcs = sorted_arc_pairs(collect_arcs(triples));
    let found = match audio_outputs(triples) {
        Ok(found) => found,
        Err(e) => return Err(e),
    };
    let outputs = sorted_outputs(found);
    let graph = SourceGraph { nodes, arcs, outputs, midi_bindings: Vec::new() };
    assert(graph@.bindings =~= Seq::<crate::graph::BindingView>::empty());
    Ok(graph)
}

} // verus!
