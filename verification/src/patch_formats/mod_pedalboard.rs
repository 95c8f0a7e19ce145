//! Reading a MOD pedalboard into the common graph model. A pedalboard names
//! its ports by instance port symbols, so their LV2 indices come from the
//! plugins that will be placed in the image.

use vstd::prelude::*;
use vstd::string::StringSliceAdditionalSpecFns;
use crate::bundle::bytes_equal;
use crate::decimal::{parse_u8, parse_u8_spec};
use crate::graph::{
    binding_views, indexed_views, node_views, BindingView, Node, NodeView, SourceGraph, SourceGraphView,
    SourceMidiBinding,
};
use crate::ingen::{
    arcs_upto, blank_prefix, byte_strings, collect_arcs, declares_block, ports_for, ports_upto,
    sorted_arcs, INGEN_BLOCK, LV2_PROTOTYPE,
};
use crate::patch_formats::ingen::{audio_outputs, audio_outputs_upto, has_node, INGEN_VALUE};
use crate::patch_formats::{sorted_arc_pairs, sorted_output_ports, sorted_outputs, LoadError, LoadFault};
use crate::rdf::{find_triple, first_match, has_prefix, object_for, object_of, starts_with, Triple, RDF_TYPE};

verus! {

pub const INGEN_ENABLED: &'static str = "http://drobilla.net/ns/ingen#enabled";

pub const MIDI_BINDING: &'static str = "http://lv2plug.in/ns/ext/midi#binding";

pub const MIDI_CHANNEL: &'static str = "http://lv2plug.in/ns/ext/midi#channel";

pub const MIDI_CONTROLLER_NUMBER: &'static str = "http://lv2plug.in/ns/ext/midi#controllerNumber";

pub const LV2_MINIMUM: &'static str = "http://lv2plug.in/ns/lv2core#minimum";

pub const LV2_MAXIMUM: &'static str = "http://lv2plug.in/ns/lv2core#maximum";

/// The port symbols of one plugin with their LV2 indices, and the MIDI
/// binding flags (logarithmic, integer, toggled, trigger) that the plugin's
/// description gives its ports; a port it does not list has flags 0.
pub struct PluginPorts {
    pub uri: Vec<u8>,
    pub ports: Vec<(Vec<u8>, u8)>,
    pub flags: Vec<(Vec<u8>, u8)>,
}

pub open spec fn plugin_views(ps: Seq<PluginPorts>) -> Seq<(Seq<u8>, Seq<(Seq<u8>, u8)>)> {
    Seq::new(ps.len(), |i: int| (ps[i].uri@, indexed_views(ps[i].ports@)))
}

/// Each plugin's URI with its table of binding flags.
pub open spec fn flag_views(ps: Seq<PluginPorts>) -> Seq<(Seq<u8>, Seq<(Seq<u8>, u8)>)> {
    Seq::new(ps.len(), |i: int| (ps[i].uri@, indexed_views(ps[i].flags@)))
}

/// The port table of the first plugin with URI `uri`.
pub open spec fn plugin_table(ps: Seq<(Seq<u8>, Seq<(Seq<u8>, u8)>)>, uri: Seq<u8>) -> Option<
    Seq<(Seq<u8>, u8)>,
>
    decreases ps.len(),
{
    if ps.len() == 0 {
        None
    } else if ps[0].0 == uri {
        Some(ps[0].1)
    } else {
        plugin_table(ps.drop_first(), uri)
    }
}

/// What follows the last `/` of `s`, or all of `s` where it has none.
pub open spec fn last_segment(s: Seq<u8>) -> Seq<u8>
    decreases s.len(),
{
    if s.len() == 0 {
        s
    } else if s.last() == 47 {
        Seq::empty()
    } else {
        last_segment(s.drop_last()).push(s.last())
    }
}

/// The instance name of a block: the last segment of its subject.
pub fn instance_name(subject: &[u8]) -> (r: &[u8])
    ensures
        r@ == last_segment(subject@),
{
    let mut start: usize = subject.len();
    assert(subject@.subrange(0, start as int) =~= subject@);
    assert(subject@.subrange(start as int, subject@.len() as int) =~= Seq::<u8>::empty());
    assert(last_segment(subject@) + Seq::<u8>::empty() =~= last_segment(subject@));
    while start > 0 && subject[start - 1] != 47
        invariant
            start <= subject@.len(),
            last_segment(subject@) == last_segment(subject@.subrange(0, start as int)) + subject@.subrange(
                start as int,
                subject@.len() as int,
            ),
        decreases start,
    {
        let ghost p = subject@.subrange(0, start as int);
        assert(p.drop_last() =~= subject@.subrange(0, start - 1));
        assert(subject@.subrange(start - 1, subject@.len() as int) =~= seq![p.last()]
            + subject@.subrange(start as int, subject@.len() as int));
        assert(last_segment(p) == last_segment(p.drop_last()).push(p.last()));
        assert(last_segment(p.drop_last()).push(p.last()) + subject@.subrange(
            start as int,
            subject@.len() as int,
        ) =~= last_segment(p.drop_last()) + subject@.subrange(start - 1, subject@.len() as int));
        start = start - 1;
    }
    proof {
        let p = subject@.subrange(0, start as int);
        if start > 0 {
            assert(p.last() == 47);
        }
        assert(last_segment(p) =~= Seq::<u8>::empty() || start == 0);
        assert(Seq::<u8>::empty() + subject@.subrange(start as int, subject@.len() as int)
            =~= subject@.subrange(start as int, subject@.len() as int));
    }
    let (_, name) = subject.split_at(start);
    name
}

/// The symbol of `port` within `block`: what follows the block's subject and
/// a `/`.
pub open spec fn port_symbol_spec(block: Seq<u8>, port: Seq<u8>) -> Option<Seq<u8>> {
    if has_prefix(port, block.push(47u8)) {
        Some(port.subrange(block.len() + 1int, port.len() as int))
    } else {
        None
    }
}

/// The symbol of `port` within `block`, or the refusal naming both.
pub fn port_symbol<'a>(block: &[u8], port: &'a [u8]) -> (r: Result<&'a [u8], LoadError>)
    ensures
        match r {
            Ok(symbol) => port_symbol_spec(block@, port@) == Some(symbol@),
            Err(e) => port_symbol_spec(block@, port@) is None && e@ == LoadFault::ForeignPort(
                port@,
                block@,
            ),
        },
{
    if port.len() > block.len() && starts_with(port, block) && port[block.len()] == 47u8 {
        proof {
            assert(port@.subrange(0, block@.len() + 1int) =~= block@.push(47u8));
        }
        let (_, symbol) = port.split_at(block.len() + 1);
        Ok(symbol)
    } else {
        proof {
            let p = block@.push(47u8);
            if has_prefix(port@, p) {
                assert(port@.subrange(0, block@.len() as int) =~= p.subrange(0, block@.len() as int));
                assert(p.subrange(0, block@.len() as int) =~= block@);
                assert(port@[block@.len() as int] == port@.subrange(0, p.len() as int)[block@.len() as int]);
            }
        }
        Err(LoadError::ForeignPort(vstd::slice::slice_to_vec(port), vstd::slice::slice_to_vec(block)))
    }
}

pub open spec fn bypass_symbol() -> Seq<u8> {
    seq![58u8, 98u8, 121u8, 112u8, 97u8, 115u8, 115u8]
}

pub open spec fn false_literal() -> Seq<u8> {
    seq![102u8, 97u8, 108u8, 115u8, 101u8]
}

/// The float bits are not those of a zero.
pub open spec fn nonzero_bits(bits: u32) -> bool {
    bits % 2147483648 != 0
}

/// The index paired with the first entry for `symbol`.
pub open spec fn symbol_index(table: Seq<(Seq<u8>, u8)>, symbol: Seq<u8>) -> Option<u8> {
    crate::graph::lookup(table, symbol)
}

/// The LV2 indices and values of the first `k` of a block's `ports`, the
/// block's plugin having port table `table`.
pub open spec fn mod_port_settings(
    ts: Seq<Triple>,
    values: Seq<Option<u32>>,
    block: Seq<u8>,
    prototype: Seq<u8>,
    table: Seq<(Seq<u8>, u8)>,
    ports: Seq<Seq<u8>>,
    k: int,
) -> Result<(Seq<(Seq<u8>, u8)>, Seq<(u8, u32)>), LoadFault>
    decreases k,
{
    if k <= 0 {
        Ok((Seq::empty(), Seq::empty()))
    } else {
        match mod_port_settings(ts, values, block, prototype, table, ports, k - 1) {
            Err(e) => Err(e),
            Ok(prev) => {
                let port = ports[k - 1];
                match port_symbol_spec(block, port) {
                    None => Err(LoadFault::ForeignPort(port, block)),
                    Some(symbol) => if symbol == bypass_symbol() {
                        match first_match(ts, port, INGEN_VALUE.spec_bytes()) {
                            None => Ok(prev),
                            Some(j) => match values[j] {
                                None => Err(LoadFault::InvalidBypass(port, ts[j].object@)),
                                Some(bits) => if nonzero_bits(bits) {
                                    Err(LoadFault::Bypassed(last_segment(block)))
                                } else {
                                    Ok(prev)
                                },
                            },
                        }
                    } else {
                        match symbol_index(table, symbol) {
                            None => Err(LoadFault::UnknownPort(last_segment(block), symbol, prototype)),
                            Some(index) => {
                                let indices = prev.0.push((port, index));
                                match first_match(ts, port, INGEN_VALUE.spec_bytes()) {
                                    None => Ok((indices, prev.1)),
                                    Some(j) => match values[j] {
                                        None => Err(LoadFault::InvalidValue(port, ts[j].object@)),
                                        Some(bits) => Ok((indices, prev.1.push((index, bits)))),
                                    },
                                }
                            },
                        }
                    },
                }
            },
        }
    }
}

/// What `port` of `block` sets on the block's plugin, whose port table is
/// `table`: for a port other than `:bypass` whose symbol the table knows,
/// that symbol's LV2 index and the bits of the port's `ingen:value`, where
/// it has one that reads as a float.
pub open spec fn mod_port_value(
    ts: Seq<Triple>,
    values: Seq<Option<u32>>,
    block: Seq<u8>,
    table: Seq<(Seq<u8>, u8)>,
    port: Seq<u8>,
) -> Option<(u8, u32)> {
    match port_symbol_spec(block, port) {
        None => None,
        Some(symbol) => if symbol == bypass_symbol() {
            None
        } else {
            match (symbol_index(table, symbol), first_match(ts, port, INGEN_VALUE.spec_bytes())) {
                (Some(index), Some(j)) => match values[j] {
                    Some(bits) => Some((index, bits)),
                    None => None,
                },
                _ => None,
            }
        },
    }
}

/// The settings of those of `ports` that set a value, in their order.
pub open spec fn mod_set_values(
    ts: Seq<Triple>,
    values: Seq<Option<u32>>,
    block: Seq<u8>,
    table: Seq<(Seq<u8>, u8)>,
    ports: Seq<Seq<u8>>,
) -> Seq<(u8, u32)> {
    ports.filter(|p: Seq<u8>| mod_port_value(ts, values, block, table, p) is Some).map_values(
        |p: Seq<u8>| mod_port_value(ts, values, block, table, p)->0,
    )
}

proof fn lemma_mod_port_settings_values(
    ts: Seq<Triple>,
    values: Seq<Option<u32>>,
    block: Seq<u8>,
    prototype: Seq<u8>,
    table: Seq<(Seq<u8>, u8)>,
    ports: Seq<Seq<u8>>,
    k: int,
)
    requires
        0 <= k <= ports.len(),
    ensures
        mod_port_settings(ts, values, block, prototype, table, ports, k) matches Ok(p) ==> p.1 == mod_set_values(
            ts,
            values,
            block,
            table,
            ports.take(k),
        ),
    decreases k,
{
    reveal(Seq::filter);
    if k == 0 {
        assert(ports.take(0) =~= Seq::<Seq<u8>>::empty());
        assert(mod_set_values(ts, values, block, table, ports.take(0)) =~= Seq::<(u8, u32)>::empty());
    } else {
        lemma_mod_port_settings_values(ts, values, block, prototype, table, ports, k - 1);
        let t = ports.take(k);
        let pred = |p: Seq<u8>| mod_port_value(ts, values, block, table, p) is Some;
        let f = |p: Seq<u8>| mod_port_value(ts, values, block, table, p)->0;
        assert(t.drop_last() =~= ports.take(k - 1));
        assert(t.last() == ports[k - 1]);
        let sub = ports.take(k - 1).filter(pred);
        if pred(ports[k - 1]) {
            assert(t.filter(pred) == sub.push(ports[k - 1]));
            assert(sub.push(ports[k - 1]).map_values(f) =~= sub.map_values(f).push(f(ports[k - 1])));
        } else {
            assert(t.filter(pred) == sub);
        }
    }
}

proof fn lemma_mod_nodes_overrides(
    ts: Seq<Triple>,
    values: Seq<Option<u32>>,
    plugins: Seq<(Seq<u8>, Seq<(Seq<u8>, u8)>)>,
    n: int,
)
    ensures
        mod_nodes_upto(ts, values, plugins, n) matches Ok(ns) ==> forall|i: int|
            #![trigger ns[i]]
            0 <= i < ns.len() ==> plugin_table(plugins, ns[i].prototype) is Some
                && ns[i].overrides == mod_set_values(
                ts,
                values,
                ns[i].subject,
                plugin_table(plugins, ns[i].prototype)->0,
                ns[i].ports,
            ),
    decreases n,
{
    if n > 0 {
        lemma_mod_nodes_overrides(ts, values, plugins, n - 1);
        let t = ts[n - 1];
        let subject = t.subject@;
        let ports = ports_upto(ts, subject, ts.len() as int);
        assert(ports.take(ports.len() as int) =~= ports);
        if let Ok(ns) = mod_nodes_upto(ts, values, plugins, n) {
            let prev = mod_nodes_upto(ts, values, plugins, n - 1)->Ok_0;
            if ns.len() > prev.len() {
                let p = object_of(ts, subject, LV2_PROTOTYPE.spec_bytes())->Some_0;
                let table = plugin_table(plugins, p)->Some_0;
                lemma_mod_port_settings_values(ts, values, subject, p, table, ports, ports.len() as int);
                assert(ns == prev.push(ns[prev.len() as int]));
                assert forall|i: int| 0 <= i < ns.len() implies #[trigger] plugin_table(plugins, ns[i].prototype) is Some
                    && ns[i].overrides == mod_set_values(
                    ts,
                    values,
                    ns[i].subject,
                    plugin_table(plugins, ns[i].prototype)->0,
                    ns[i].ports,
                ) by {
                    if i < prev.len() {
                        assert(ns[i] == prev[i]);
                        assert(prev[i].overrides == mod_set_values(
                            ts,
                            values,
                            prev[i].subject,
                            plugin_table(plugins, prev[i].prototype)->0,
                            prev[i].ports,
                        ));
                    } else {
                        let settings = mod_port_settings(ts, values, subject, p, table, ports, ports.len() as int)->Ok_0;
                        assert(ns[i].overrides == settings.1);
                        assert(ns[i].prototype == p);
                        assert(ns[i].subject == subject);
                        assert(ns[i].ports == ports);
                    }
                }
            } else {
                assert(ns == prev);
                assert forall|i: int| 0 <= i < ns.len() implies #[trigger] plugin_table(plugins, ns[i].prototype) is Some
                    && ns[i].overrides == mod_set_values(
                    ts,
                    values,
                    ns[i].subject,
                    plugin_table(plugins, ns[i].prototype)->0,
                    ns[i].ports,
                ) by {
                    assert(prev[i].overrides == mod_set_values(
                        ts,
                        values,
                        prev[i].subject,
                        plugin_table(plugins, prev[i].prototype)->0,
                        prev[i].ports,
                    ));
                }
            }
        }
    }
}

/// Every port of a block of a loaded pedalboard, other than `:bypass`,
/// whose symbol the block's plugin knows and which has an `ingen:value`
/// gives the block one override: the symbol's LV2 index and the value's
/// bits, whatever the value, zero included; overrides come in the order
/// the block lists its ports, and no other port gives one.
pub proof fn lemma_load_overrides(
    ts: Seq<Triple>,
    values: Seq<Option<u32>>,
    plugins: Seq<(Seq<u8>, Seq<(Seq<u8>, u8)>)>,
    flags: Seq<(Seq<u8>, Seq<(Seq<u8>, u8)>)>,
)
    ensures
        load_spec(ts, values, plugins, flags) matches Ok(g) ==> forall|i: int|
            #![trigger g.nodes[i]]
            0 <= i < g.nodes.len() ==> plugin_table(plugins, g.nodes[i].prototype) is Some
                && g.nodes[i].overrides == mod_set_values(
                ts,
                values,
                g.nodes[i].subject,
                plugin_table(plugins, g.nodes[i].prototype)->0,
                g.nodes[i].ports,
            ),
{
    lemma_mod_nodes_overrides(ts, values, plugins, ts.len() as int);
}

/// The blocks of the pedalboard declared among the first `n` statements.
pub open spec fn mod_nodes_upto(
    ts: Seq<Triple>,
    values: Seq<Option<u32>>,
    plugins: Seq<(Seq<u8>, Seq<(Seq<u8>, u8)>)>,
    n: int,
) -> Result<Seq<NodeView>, LoadFault>
    decreases n,
{
    if n <= 0 {
        Ok(Seq::empty())
    } else {
        match mod_nodes_upto(ts, values, plugins, n - 1) {
            Err(e) => Err(e),
            Ok(ns) => {
                let t = ts[n - 1];
                let subject = t.subject@;
                if !declares_block(t) {
                    Ok(ns)
                } else if has_prefix(subject, blank_prefix()) {
                    Err(LoadFault::BlankBlock)
                } else if has_node(ns, subject) {
                    Ok(ns)
                } else if object_of(ts, subject, INGEN_ENABLED.spec_bytes()) == Some(false_literal()) {
                    Err(LoadFault::Disabled(last_segment(subject)))
                } else {
                    match object_of(ts, subject, LV2_PROTOTYPE.spec_bytes()) {
                        None => Err(LoadFault::MissingPrototype(subject)),
                        Some(p) => match plugin_table(plugins, p) {
                            None => Err(LoadFault::PluginUnavailable(p)),
                            Some(table) => {
                                let ports = ports_upto(ts, subject, ts.len() as int);
                                match mod_port_settings(ts, values, subject, p, table, ports, ports.len() as int) {
                                    Err(e) => Err(e),
                                    Ok(settings) => Ok(
                                        ns.push(
                                            NodeView {
                                                subject,
                                                prototype: p,
                                                ports,
                                                port_indices: settings.0,
                                                overrides: settings.1,
                                            },
                                        ),
                                    ),
                                }
                            },
                        },
                    }
                }
            },
        }
    }
}

/// The graph a pedalboard describes, or why it describes none.
pub open spec fn load_spec(
    ts: Seq<Triple>,
    values: Seq<Option<u32>>,
    plugins: Seq<(Seq<u8>, Seq<(Seq<u8>, u8)>)>,
    flags: Seq<(Seq<u8>, Seq<(Seq<u8>, u8)>)>,
) -> Result<SourceGraphView, LoadFault> {
    match mod_nodes_upto(ts, values, plugins, ts.len() as int) {
        Err(e) => Err(e),
        Ok(ns) => match audio_outputs_upto(ts, ts.len() as int) {
            Err(e) => Err(e),
            Ok(os) => match bindings_upto(ts, values, ns, flags, ts.len() as int) {
                Err(e) => Err(e),
                Ok(bs) => Ok(
                    SourceGraphView {
                        nodes: ns,
                        arcs: sorted_arcs(arcs_upto(ts, ts.len() as int)),
                        outputs: sorted_output_ports(os),
                        bindings: bs,
                    },
                ),
            },
        },
    }
}

// ---------------------------------------------------------------------------
// MIDI controller bindings.

/// The first block at or after `k` under which `port` lies.
pub open spec fn owner_from(ns: Seq<NodeView>, port: Seq<u8>, k: int) -> Option<int>
    decreases ns.len() - k,
{
    if k < 0 || k >= ns.len() {
        None
    } else if port_symbol_spec(ns[k].subject, port) is Some {
        Some(k)
    } else {
        owner_from(ns, port, k + 1)
    }
}

/// The binding flags of `port`: those its plugin's description gives the
/// port's symbol, or 0.
pub open spec fn binding_flags(ns: Seq<NodeView>, flags: Seq<(Seq<u8>, Seq<(Seq<u8>, u8)>)>, port: Seq<u8>) -> u8 {
    match owner_from(ns, port, 0) {
        None => 0,
        Some(k) => match plugin_table(flags, ns[k].prototype) {
            None => 0,
            Some(table) => match crate::graph::lookup(table, port_symbol_spec(ns[k].subject, port)->Some_0) {
                None => 0,
                Some(f) => f,
            },
        },
    }
}

/// The channel, controller number, minimum and maximum of the binding node
/// `b`, or `None` where one is missing or malformed.
pub open spec fn binding_record(ts: Seq<Triple>, values: Seq<Option<u32>>, b: Seq<u8>) -> Option<(u8, u8, u32, u32)> {
    match (
        first_match(ts, b, MIDI_CHANNEL.spec_bytes()),
        first_match(ts, b, MIDI_CONTROLLER_NUMBER.spec_bytes()),
        first_match(ts, b, LV2_MINIMUM.spec_bytes()),
        first_match(ts, b, LV2_MAXIMUM.spec_bytes()),
    ) {
        (Some(c), Some(n), Some(lo), Some(hi)) => match (
            parse_u8_spec(ts[c].object@),
            parse_u8_spec(ts[n].object@),
            values[lo],
            values[hi],
        ) {
            (Some(channel), Some(controller), Some(minimum), Some(maximum)) => Some(
                (channel, controller, minimum, maximum),
            ),
            _ => None,
        },
        _ => None,
    }
}

/// The MIDI bindings among the first `n` statements: each `midi:binding`
/// of a port, in document order.
pub open spec fn bindings_upto(
    ts: Seq<Triple>,
    values: Seq<Option<u32>>,
    ns: Seq<NodeView>,
    flags: Seq<(Seq<u8>, Seq<(Seq<u8>, u8)>)>,
    n: int,
) -> Result<Seq<BindingView>, LoadFault>
    decreases n,
{
    if n <= 0 {
        Ok(Seq::empty())
    } else {
        match bindings_upto(ts, values, ns, flags, n - 1) {
            Err(e) => Err(e),
            Ok(prev) => {
                let t = ts[n - 1];
                if t.predicate@ != MIDI_BINDING.spec_bytes() {
                    Ok(prev)
                } else {
                    match binding_record(ts, values, t.object@) {
                        None => Err(LoadFault::InvalidBinding(t.subject@)),
                        Some(r) => Ok(
                            prev.push(
                                BindingView {
                                    port: t.subject@,
                                    channel: r.0,
                                    controller: r.1,
                                    flags: binding_flags(ns, flags, t.subject@),
                                    minimum: r.2,
                                    maximum: r.3,
                                },
                            ),
                        ),
                    }
                }
            },
        }
    }
}

proof fn lemma_bindings_error_stays(
    ts: Seq<Triple>,
    values: Seq<Option<u32>>,
    ns: Seq<NodeView>,
    flags: Seq<(Seq<u8>, Seq<(Seq<u8>, u8)>)>,
    k: int,
    n: int,
)
    requires
        0 <= k <= n,
        bindings_upto(ts, values, ns, flags, k) is Err,
    ensures
        bindings_upto(ts, values, ns, flags, n) == bindings_upto(ts, values, ns, flags, k),
    decreases n - k,
{
    if n > k {
        lemma_bindings_error_stays(ts, values, ns, flags, k, n - 1);
    }
}

proof fn lemma_settings_error_stays(
    ts: Seq<Triple>,
    values: Seq<Option<u32>>,
    block: Seq<u8>,
    prototype: Seq<u8>,
    table: Seq<(Seq<u8>, u8)>,
    ports: Seq<Seq<u8>>,
    k: int,
    n: int,
)
    requires
        0 <= k <= n,
        mod_port_settings(ts, values, block, prototype, table, ports, k) is Err,
    ensures
        mod_port_settings(ts, values, block, prototype, table, ports, n) == mod_port_settings(
            ts,
            values,
            block,
            prototype,
            table,
            ports,
            k,
        ),
    decreases n - k,
{
    if n > k {
        lemma_settings_error_stays(ts, values, block, prototype, table, ports, k, n - 1);
    }
}

proof fn lemma_nodes_error_stays(
    ts: Seq<Triple>,
    values: Seq<Option<u32>>,
    plugins: Seq<(Seq<u8>, Seq<(Seq<u8>, u8)>)>,
    k: int,
    n: int,
)
    requires
        0 <= k <= n,
        mod_nodes_upto(ts, values, plugins, k) is Err,
    ensures
        mod_nodes_upto(ts, values, plugins, n) == mod_nodes_upto(ts, values, plugins, k),
    decreases n - k,
{
    if n > k {
        lemma_nodes_error_stays(ts, values, plugins, k, n - 1);
    }
}

/// The port table of the first plugin with URI `uri`.
fn find_plugin<'a>(plugins: &'a [PluginPorts], uri: &[u8]) -> (r: Option<&'a Vec<(Vec<u8>, u8)>>)
    ensures
        match r {
            Some(t) => plugin_table(plugin_views(plugins@), uri@) == Some(indexed_views(t@)),
            None => plugin_table(plugin_views(plugins@), uri@) is None,
        },
{
    let ghost all = plugin_views(plugins@);
    let mut i: usize = 0;
    assert(all.subrange(0, all.len() as int) =~= all);
    while i < plugins.len()
        invariant
            i <= plugins@.len(),
            all == plugin_views(plugins@),
            plugin_table(all, uri@) == plugin_table(all.subrange(i as int, all.len() as int), uri@),
        decreases plugins@.len() - i,
    {
        let ghost tail = all.subrange(i as int, all.len() as int);
        if bytes_equal(plugins[i].uri.as_slice(), uri) {
            return Some(&plugins[i].ports);
        }
        assert(tail.drop_first() =~= all.subrange(i + 1, all.len() as int));
        i = i + 1;
    }
    None
}

fn symbol_index_of(table: &Vec<(Vec<u8>, u8)>, symbol: &[u8]) -> (r: Option<u8>)
    ensures
        r == symbol_index(indexed_views(table@), symbol@),
{
    crate::graph::output_index_of(table, symbol)
}

/// The LV2 indices of a block's ports and the values set on them.
fn read_port_settings(
    triples: &[Triple],
    values: &[Option<u32>],
    block: &[u8],
    prototype: &[u8],
    table: &Vec<(Vec<u8>, u8)>,
    ports: &Vec<Vec<u8>>,
) -> (r: Result<(Vec<(Vec<u8>, u8)>, Vec<(u8, u32)>), LoadError>)
    requires
        values@.len() == triples@.len(),
    ensures
        match r {
            Ok((indices, overrides)) => mod_port_settings(
                triples@,
                values@,
                block@,
                prototype@,
                indexed_views(table@),
                byte_strings(ports@),
                ports@.len() as int,
            ) == Ok::<(Seq<(Seq<u8>, u8)>, Seq<(u8, u32)>), LoadFault>(
                (indexed_views(indices@), overrides@),
            ),
            Err(e) => mod_port_settings(
                triples@,
                values@,
                block@,
                prototype@,
                indexed_views(table@),
                byte_strings(ports@),
                ports@.len() as int,
            ) == Err::<(Seq<(Seq<u8>, u8)>, Seq<(u8, u32)>), LoadFault>(e@),
        },
{
    let ghost ps = byte_strings(ports@);
    let ghost tv = indexed_views(table@);
    let bypass: [u8; 7] = [58u8, 98u8, 121u8, 112u8, 97u8, 115u8, 115u8];
    assert(bypass@ =~= bypass_symbol());
    let mut indices: Vec<(Vec<u8>, u8)> = Vec::new();
    let mut overrides: Vec<(u8, u32)> = Vec::new();
    let mut k: usize = 0;
    assert(indexed_views(indices@) =~= Seq::<(Seq<u8>, u8)>::empty());
    while k < ports.len()
        invariant
            k <= ports@.len(),
            values@.len() == triples@.len(),
            ps == byte_strings(ports@),
            tv == indexed_views(table@),
            bypass@ == bypass_symbol(),
            mod_port_settings(triples@, values@, block@, prototype@, tv, ps, k as int) == Ok::<
                (Seq<(Seq<u8>, u8)>, Seq<(u8, u32)>),
                LoadFault,
            >((indexed_views(indices@), overrides@)),
        decreases ports@.len() - k,
    {
        let port = ports[k].as_slice();
        assert(port@ == ps[k as int]);
        let symbol = match port_symbol(block, port) {
            Ok(symbol) => symbol,
            Err(e) => {
                proof {
                    lemma_settings_error_stays(triples@, values@, block@, prototype@, tv, ps, k + 1, ports@.len() as int);
                }
                return Err(e);
            },
        };
        let value_at = find_triple(triples, port, INGEN_VALUE.as_bytes());
        proof {
            crate::rdf::lemma_first_match_from(triples@, port@, INGEN_VALUE.spec_bytes(), 0);
        }
        if bytes_equal(symbol, &bypass) {
            match value_at {
                None => {},
                Some(j) => match values[j] {
                    None => {
                        proof {
                            lemma_settings_error_stays(triples@, values@, block@, prototype@, tv, ps, k + 1, ports@.len() as int);
                        }
                        return Err(LoadError::InvalidBypass(ports[k].clone(), triples[j].object.clone()));
                    },
                    Some(bits) => {
                        if bits % 2147483648 != 0 {
                            proof {
                                lemma_settings_error_stays(triples@, values@, block@, prototype@, tv, ps, k + 1, ports@.len() as int);
                            }
                            return Err(LoadError::Bypassed(vstd::slice::slice_to_vec(instance_name(block))));
                        }
                    },
                },
            }
        } else {
            let index = match symbol_index_of(table, symbol) {
                Some(i) => i,
                None => {
                    proof {
                        lemma_settings_error_stays(triples@, values@, block@, prototype@, tv, ps, k + 1, ports@.len() as int);
                    }
                    return Err(
                        LoadError::UnknownPort(
                            vstd::slice::slice_to_vec(instance_name(block)),
                            vstd::slice::slice_to_vec(symbol),
                            vstd::slice::slice_to_vec(prototype),
                        ),
                    );
                },
            };
            let ghost prev = indexed_views(indices@);
            indices.push((ports[k].clone(), index));
            assert(indexed_views(indices@) =~= prev.push((ps[k as int], index)));
            match value_at {
                None => {},
                Some(j) => match values[j] {
                    Some(bits) => overrides.push((index, bits)),
                    None => {
                        proof {
                            lemma_settings_error_stays(triples@, values@, block@, prototype@, tv, ps, k + 1, ports@.len() as int);
                        }
                        return Err(LoadError::InvalidValue(ports[k].clone(), triples[j].object.clone()));
                    },
                },
            }
        }
        k = k + 1;
    }
    Ok((indices, overrides))
}

fn node_known(nodes: &Vec<Node>, subject: &[u8]) -> (r: bool)
    ensures
        r == has_node(node_views(nodes@), subject@),
{
    let mut i: usize = 0;
    while i < nodes.len()
        invariant
            i <= nodes@.len(),
            forall|j: int| 0 <= j < i ==> nodes@[j].subject@ != subject@,
        decreases nodes@.len() - i,
    {
        if bytes_equal(nodes[i].subject.as_slice(), subject) {
            assert(node_views(nodes@)[i as int].subject == subject@);
            return true;
        }
        i = i + 1;
    }
    assert forall|j: int| 0 <= j < nodes@.len() implies #[trigger] node_views(nodes@)[j].subject != subject@ by {
        assert(nodes@[j].subject@ != subject@);
    }
    false
}

/// Collects the blocks of the pedalboard, in order of first declaration.
fn collect_nodes(triples: &[Triple], values: &[Option<u32>], plugins: &[PluginPorts]) -> (r: Result<
    Vec<Node>,
    LoadError,
>)
    requires
        values@.len() == triples@.len(),
    ensures
        match r {
            Ok(ns) => mod_nodes_upto(triples@, values@, plugin_views(plugins@), triples@.len() as int)
                == Ok::<Seq<NodeView>, LoadFault>(node_views(ns@)),
            Err(e) => mod_nodes_upto(triples@, values@, plugin_views(plugins@), triples@.len() as int)
                == Err::<Seq<NodeView>, LoadFault>(e@),
        },
{
    let ghost pv = plugin_views(plugins@);
    let blank: [u8; 2] = [95u8, 58u8];
    let disabled: [u8; 5] = [102u8, 97u8, 108u8, 115u8, 101u8];
    assert(blank@ =~= blank_prefix());
    assert(disabled@ =~= false_literal());
    let mut nodes: Vec<Node> = Vec::new();
    let mut i: usize = 0;
    assert(node_views(nodes@) =~= Seq::<NodeView>::empty());
    while i < triples.len()
        invariant
            i <= triples@.len(),
            values@.len() == triples@.len(),
            pv == plugin_views(plugins@),
            blank@ == blank_prefix(),
            disabled@ == false_literal(),
            mod_nodes_upto(triples@, values@, pv, i as int) == Ok::<Seq<NodeView>, LoadFault>(
                node_views(nodes@),
            ),
        decreases triples@.len() - i,
    {
        let ghost before = node_views(nodes@);
        let t = &triples[i];
        let subject = t.subject.as_slice();
        if bytes_equal(t.predicate.as_slice(), RDF_TYPE.as_bytes()) && bytes_equal(
            t.object.as_slice(),
            INGEN_BLOCK.as_bytes(),
        ) {
            if starts_with(subject, &blank) {
                proof {
                    lemma_nodes_error_stays(triples@, values@, pv, i + 1, triples@.len() as int);
                }
                return Err(LoadError::BlankBlock);
            }
            if !node_known(&nodes, subject) {
                let enabled = object_for(triples, subject, INGEN_ENABLED.as_bytes());
                let is_disabled = match enabled {
                    Some(v) => bytes_equal(v, &disabled),
                    None => false,
                };
                if is_disabled {
                    proof {
                        lemma_nodes_error_stays(triples@, values@, pv, i + 1, triples@.len() as int);
                    }
                    return Err(LoadError::Disabled(vstd::slice::slice_to_vec(instance_name(subject))));
                }
                let prototype = match object_for(triples, subject, LV2_PROTOTYPE.as_bytes()) {
                    Some(p) => p,
                    None => {
                        proof {
                            lemma_nodes_error_stays(triples@, values@, pv, i + 1, triples@.len() as int);
                        }
                        return Err(LoadError::MissingPrototype(t.subject.clone()));
                    },
                };
                let table = match find_plugin(plugins, prototype) {
                    Some(table) => table,
                    None => {
                        proof {
                            lemma_nodes_error_stays(triples@, values@, pv, i + 1, triples@.len() as int);
                        }
                        return Err(LoadError::PluginUnavailable(vstd::slice::slice_to_vec(prototype)));
                    },
                };
                let ports = ports_for(triples, subject);
                let (port_indices, overrides) = match read_port_settings(
                    triples,
                    values,
                    subject,
                    prototype,
                    table,
                    &ports,
                ) {
                    Ok(settings) => settings,
                    Err(e) => {
                        proof {
                            lemma_nodes_error_stays(triples@, values@, pv, i + 1, triples@.len() as int);
                        }
                        return Err(e);
                    },
                };
                let node = Node {
                    subject: t.subject.clone(),
                    prototype: vstd::slice::slice_to_vec(prototype),
                    ports,
                    port_indices,
                    overrides,
                };
                nodes.push(node);
                assert(node_views(nodes@) =~= before.push(nodes@.last()@));
            }
        }
        i = i + 1;
    }
    Ok(nodes)
}

/// The binding-flag table of the first plugin with URI `uri`.
fn find_flags<'a>(plugins: &'a [PluginPorts], uri: &[u8]) -> (r: Option<&'a Vec<(Vec<u8>, u8)>>)
    ensures
        match r {
            Some(t) => plugin_table(flag_views(plugins@), uri@) == Some(indexed_views(t@)),
            None => plugin_table(flag_views(plugins@), uri@) is None,
        },
{
    let ghost all = flag_views(plugins@);
    let mut i: usize = 0;
    assert(all.subrange(0, all.len() as int) =~= all);
    while i < plugins.len()
        invariant
            i <= plugins@.len(),
            all == flag_views(plugins@),
            plugin_table(all, uri@) == plugin_table(all.subrange(i as int, all.len() as int), uri@),
        decreases plugins@.len() - i,
    {
        let ghost tail = all.subrange(i as int, all.len() as int);
        if bytes_equal(plugins[i].uri.as_slice(), uri) {
            return Some(&plugins[i].flags);
        }
        assert(tail.drop_first() =~= all.subrange(i + 1, all.len() as int));
        i = i + 1;
    }
    None
}

/// The binding flags of `port`.
fn binding_flags_of(nodes: &Vec<Node>, plugins: &[PluginPorts], port: &[u8]) -> (r: u8)
    ensures
        r == binding_flags(node_views(nodes@), flag_views(plugins@), port@),
{
    let ghost ns = node_views(nodes@);
    let mut k: usize = 0;
    while k < nodes.len()
        invariant
            k <= nodes@.len(),
            ns == node_views(nodes@),
            owner_from(ns, port@, 0) == owner_from(ns, port@, k as int),
        decreases nodes@.len() - k,
    {
        match port_symbol(nodes[k].subject.as_slice(), port) {
            Ok(symbol) => {
                return match find_flags(plugins, nodes[k].prototype.as_slice()) {
                    None => 0,
                    Some(table) => match symbol_index_of(table, symbol) {
                        None => 0,
                        Some(f) => f,
                    },
                };
            },
            Err(_) => {},
        }
        k = k + 1;
    }
    0
}

/// The channel, controller number, minimum and maximum of the binding
/// node `b`.
fn read_binding(triples: &[Triple], values: &[Option<u32>], b: &[u8]) -> (r: Option<(u8, u8, u32, u32)>)
    requires
        values@.len() == triples@.len(),
    ensures
        r == binding_record(triples@, values@, b@),
{
    let c = find_triple(triples, b, MIDI_CHANNEL.as_bytes());
    let n = find_triple(triples, b, MIDI_CONTROLLER_NUMBER.as_bytes());
    let lo = find_triple(triples, b, LV2_MINIMUM.as_bytes());
    let hi = find_triple(triples, b, LV2_MAXIMUM.as_bytes());
    proof {
        crate::rdf::lemma_first_match_from(triples@, b@, MIDI_CHANNEL.spec_bytes(), 0);
        crate::rdf::lemma_first_match_from(triples@, b@, MIDI_CONTROLLER_NUMBER.spec_bytes(), 0);
        crate::rdf::lemma_first_match_from(triples@, b@, LV2_MINIMUM.spec_bytes(), 0);
        crate::rdf::lemma_first_match_from(triples@, b@, LV2_MAXIMUM.spec_bytes(), 0);
    }
    match (c, n, lo, hi) {
        (Some(c), Some(n), Some(lo), Some(hi)) => match (
            parse_u8(triples[c].object.as_slice()),
            parse_u8(triples[n].object.as_slice()),
            values[lo],
            values[hi],
        ) {
            (Some(channel), Some(controller), Some(minimum), Some(maximum)) => Some(
                (channel, controller, minimum, maximum),
            ),
            _ => None,
        },
        _ => None,
    }
}

/// The MIDI bindings of the pedalboard's ports, in document order.
fn collect_bindings(
    triples: &[Triple],
    values: &[Option<u32>],
    nodes: &Vec<Node>,
    plugins: &[PluginPorts],
) -> (r: Result<Vec<SourceMidiBinding>, LoadError>)
    requires
        values@.len() == triples@.len(),
    ensures
        match r {
            Ok(bs) => bindings_upto(triples@, values@, node_views(nodes@), flag_views(plugins@), triples@.len() as int)
                == Ok::<Seq<BindingView>, LoadFault>(binding_views(bs@)),
            Err(e) => bindings_upto(triples@, values@, node_views(nodes@), flag_views(plugins@), triples@.len() as int)
                == Err::<Seq<BindingView>, LoadFault>(e@),
        },
{
    let ghost ns = node_views(nodes@);
    let ghost fv = flag_views(plugins@);
    let mut out: Vec<SourceMidiBinding> = Vec::new();
    let mut i: usize = 0;
    assert(binding_views(out@) =~= Seq::<BindingView>::empty());
    while i < triples.len()
        invariant
            i <= triples@.len(),
            values@.len() == triples@.len(),
            ns == node_views(nodes@),
            fv == flag_views(plugins@),
            bindings_upto(triples@, values@, ns, fv, i as int) == Ok::<Seq<BindingView>, LoadFault>(
                binding_views(out@),
            ),
        decreases triples@.len() - i,
    {
        let t = &triples[i];
        if bytes_equal(t.predicate.as_slice(), MIDI_BINDING.as_bytes()) {
            match read_binding(triples, values, t.object.as_slice()) {
                None => {
                    proof {
                        lemma_bindings_error_stays(triples@, values@, ns, fv, i + 1, triples@.len() as int);
                    }
                    return Err(LoadError::InvalidBinding(t.subject.clone()));
                },
                Some((channel, controller, minimum, maximum)) => {
                    let flags = binding_flags_of(nodes, plugins, t.subject.as_slice());
                    let ghost before = binding_views(out@);
                    out.push(
                        SourceMidiBinding {
                            port: t.subject.clone(),
                            channel,
                            controller,
                            flags,
                            minimum,
                            maximum,
                        },
                    );
                    assert(binding_views(out@) =~= before.push(out@.last()@));
                },
            }
        }
        i = i + 1;
    }
    Ok(out)
}

/// Reads the statements of a MOD pedalboard into the common graph model.
/// `values[j]` is the bit pattern of statement `j`'s object read as a 32-bit
/// float, or `None` where it does not read as one; `plugins` gives the port
/// symbols, LV2 indices and binding flags of the plugins that can be used.
/// A port's `midi:binding` node gives its MIDI controller binding: channel,
/// controller number, minimum and maximum.
pub fn load(triples: &[Triple], values: &[Option<u32>], plugins: &[PluginPorts]) -> (r: Result<
    SourceGraph,
    LoadError,
>)
    requires
        values@.len() == triples@.len(),
    ensures
        match r {
            Ok(g) => load_spec(triples@, values@, plugin_views(plugins@), flag_views(plugins@)) == Ok::<
                SourceGraphView,
                LoadFault,
            >(g@),
            Err(e) => load_spec(triples@, values@, plugin_views(plugins@), flag_views(plugins@)) == Err::<
                SourceGraphView,
                LoadFault,
            >(e@),
        },
{
    let nodes = match collect_nodes(triples, values, plugins) {
        Ok(nodes) => nodes,
        Err(e) => return Err(e),
    };
    let arcs = sorted_arc_pairs(collect_arcs(triples));
    let found = match audio_outputs(triples) {
        Ok(found) => found,
        Err(e) => return Err(e),
    };
    let outputs = sorted_outputs(found);
    let midi_bindings = match collect_bindings(triples, values, &nodes, plugins) {
        Ok(bs) => bs,
        Err(e) => return Err(e),
    };
    let graph = SourceGraph { nodes, arcs, outputs, midi_bindings };
    Ok(graph)
}

} // verus!
