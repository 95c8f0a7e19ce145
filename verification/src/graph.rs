//! The common model of a plugin graph read from an Ingen bundle or a MOD
//! pedalboard, and its encoding as a graph of format version 4: nodes with
//! their parameter overrides, edges between LV2 ports, the graph's audio
//! outputs and its MIDI controller bindings.
//!
//! Parameter values are carried as the bit patterns of their 32-bit floats.

use vstd::prelude::*;
use crate::bundle::{graph_magic_seq, lemma_magic_seq, GRAPH_MAGIC};
use crate::ingen::{byte_strings, claims_port, port_claimed, u16_bytes};
use crate::le::{le_bytes_u32, push_u16, push_u32};
use crate::order::{key_set, keys, lemma_sorted_set_exists, seq_lt, sort_unique, sorted_set, strictly_sorted, Keyed};
use crate::pack::append_bytes;
use crate::bundle::bytes_equal;
use crate::topo::{
    lemma_topological_order_is_spec, respects_edges, smallest_first_order,
    topological_order,
};

verus! {

/// Version of the graph encoding with ports, outputs, overrides and MIDI
/// bindings.
pub const GRAPH_VERSION: u32 = 4;

/// A plugin instance of the graph.
pub struct Node {
    pub subject: Vec<u8>,
    pub prototype: Vec<u8>,
    pub ports: Vec<Vec<u8>>,
    /// Each port's subject with its LV2 index.
    pub port_indices: Vec<(Vec<u8>, u8)>,
    /// Control values set on the instance: LV2 index and value bits.
    pub overrides: Vec<(u8, u32)>,
}

/// A MIDI controller bound to a control port.
pub struct SourceMidiBinding {
    pub port: Vec<u8>,
    pub channel: u8,
    pub controller: u8,
    pub flags: u8,
    pub minimum: u32,
    pub maximum: u32,
}

/// A graph as read from its source document.
pub struct SourceGraph {
    pub nodes: Vec<Node>,
    /// Connections from a tail port to a head port.
    pub arcs: Vec<(Vec<u8>, Vec<u8>)>,
    /// The graph's audio outputs: port subject and output index.
    pub outputs: Vec<(Vec<u8>, u8)>,
    pub midi_bindings: Vec<SourceMidiBinding>,
}

pub struct NodeView {
    pub subject: Seq<u8>,
    pub prototype: Seq<u8>,
    pub ports: Seq<Seq<u8>>,
    pub port_indices: Seq<(Seq<u8>, u8)>,
    pub overrides: Seq<(u8, u32)>,
}

pub struct BindingView {
    pub port: Seq<u8>,
    pub channel: u8,
    pub controller: u8,
    pub flags: u8,
    pub minimum: u32,
    pub maximum: u32,
}

pub struct SourceGraphView {
    pub nodes: Seq<NodeView>,
    pub arcs: Seq<(Seq<u8>, Seq<u8>)>,
    pub outputs: Seq<(Seq<u8>, u8)>,
    pub bindings: Seq<BindingView>,
}

pub open spec fn indexed_views(v: Seq<(Vec<u8>, u8)>) -> Seq<(Seq<u8>, u8)> {
    Seq::new(v.len(), |i: int| (v[i].0@, v[i].1))
}

pub open spec fn pair_views(v: Seq<(Vec<u8>, Vec<u8>)>) -> Seq<(Seq<u8>, Seq<u8>)> {
    Seq::new(v.len(), |i: int| (v[i].0@, v[i].1@))
}

impl View for Node {
    type V = NodeView;

    open spec fn view(&self) -> NodeView {
        NodeView {
            subject: self.subject@,
            prototype: self.prototype@,
            ports: byte_strings(self.ports@),
            port_indices: indexed_views(self.port_indices@),
            overrides: self.overrides@,
        }
    }
}

impl View for SourceMidiBinding {
    type V = BindingView;

    open spec fn view(&self) -> BindingView {
        BindingView {
            port: self.port@,
            channel: self.channel,
            controller: self.controller,
            flags: self.flags,
            minimum: self.minimum,
            maximum: self.maximum,
        }
    }
}

pub open spec fn node_views(ns: Seq<Node>) -> Seq<NodeView> {
    Seq::new(ns.len(), |i: int| ns[i]@)
}

pub open spec fn binding_views(bs: Seq<SourceMidiBinding>) -> Seq<BindingView> {
    Seq::new(bs.len(), |i: int| bs[i]@)
}

impl View for SourceGraph {
    type V = SourceGraphView;

    open spec fn view(&self) -> SourceGraphView {
        SourceGraphView {
            nodes: node_views(self.nodes@),
            arcs: pair_views(self.arcs@),
            outputs: indexed_views(self.outputs@),
            bindings: binding_views(self.midi_bindings@),
        }
    }
}

/// Why a graph could not be encoded.
pub enum GraphError {
    /// The graph holds no plugin instance.
    NoBlocks,
    /// A connected port has no LV2 index.
    MissingPortIndex(Vec<u8>),
    /// The connections between instances form a cycle.
    Cycle,
    /// A MIDI binding names a port that belongs to no instance.
    UnboundBinding(Vec<u8>),
}

pub enum GraphFault {
    NoBlocks,
    MissingPortIndex(Seq<u8>),
    Cycle,
    UnboundBinding(Seq<u8>),
}

impl View for GraphError {
    type V = GraphFault;

    open spec fn view(&self) -> GraphFault {
        match self {
            GraphError::NoBlocks => GraphFault::NoBlocks,
            GraphError::MissingPortIndex(p) => GraphFault::MissingPortIndex(p@),
            GraphError::Cycle => GraphFault::Cycle,
            GraphError::UnboundBinding(p) => GraphFault::UnboundBinding(p@),
        }
    }
}

// ---------------------------------------------------------------------------
// Ports.

pub open spec fn find_node_from(ns: Seq<NodeView>, port: Seq<u8>, i: int) -> Option<int>
    decreases ns.len() - i,
{
    if i < 0 || i >= ns.len() {
        None
    } else if claims_port(ns[i].subject, ns[i].ports, port) {
        Some(i)
    } else {
        find_node_from(ns, port, i + 1)
    }
}

/// The first node that `port` belongs to.
pub open spec fn find_node(ns: Seq<NodeView>, port: Seq<u8>) -> Option<int> {
    find_node_from(ns, port, 0)
}

pub fn find_node_index(nodes: &Vec<Node>, port: &[u8]) -> (r: Option<usize>)
    ensures
        match r {
            Some(i) => find_node(node_views(nodes@), port@) == Some(i as int) && i < nodes@.len(),
            None => find_node(node_views(nodes@), port@) is None,
        },
{
    let ghost ns = node_views(nodes@);
    let mut i: usize = 0;
    while i < nodes.len()
        invariant
            i <= nodes@.len(),
            ns == node_views(nodes@),
            find_node(ns, port@) == find_node_from(ns, port@, i as int),
        decreases nodes@.len() - i,
    {
        if port_claimed(nodes[i].subject.as_slice(), &nodes[i].ports, port) {
            return Some(i);
        }
        i = i + 1;
    }
    None
}

/// The index paired with the first entry for `port`.
pub open spec fn lookup(entries: Seq<(Seq<u8>, u8)>, port: Seq<u8>) -> Option<u8>
    decreases entries.len(),
{
    if entries.len() == 0 {
        None
    } else if entries[0].0 == port {
        Some(entries[0].1)
    } else {
        lookup(entries.drop_first(), port)
    }
}

/// Every node's port indices after the first `i` nodes, in order.
pub open spec fn indices_from(ns: Seq<NodeView>, i: int) -> Seq<(Seq<u8>, u8)>
    decreases ns.len() - i,
{
    if i < 0 || i >= ns.len() {
        Seq::empty()
    } else {
        ns[i].port_indices + indices_from(ns, i + 1)
    }
}

/// The LV2 index of `port`: the first entry for it among the nodes' port
/// indices.
pub open spec fn port_index(ns: Seq<NodeView>, port: Seq<u8>) -> Option<u8> {
    lookup(indices_from(ns, 0), port)
}

pub fn port_index_of(nodes: &Vec<Node>, port: &[u8]) -> (r: Option<u8>)
    ensures
        r == port_index(node_views(nodes@), port@),
{
    let ghost ns = node_views(nodes@);
    let mut i: usize = 0;
    while i < nodes.len()
        invariant
            i <= nodes@.len(),
            ns == node_views(nodes@),
            port_index(ns, port@) == lookup(indices_from(ns, i as int), port@),
        decreases nodes@.len() - i,
    {
        let entries = &nodes[i].port_indices;
        let ghost rest = indices_from(ns, i + 1);
        let mut j: usize = 0;
        assert(ns[i as int].port_indices == indexed_views(entries@));
        assert(indices_from(ns, i as int) == ns[i as int].port_indices + rest);
        assert(indexed_views(entries@).subrange(0, entries@.len() as int) =~= indexed_views(entries@));
        while j < entries.len()
            invariant
                j <= entries@.len(),
                i < nodes@.len(),
                ns == node_views(nodes@),
                entries@ == nodes@[i as int].port_indices@,
                rest == indices_from(ns, i + 1),
                port_index(ns, port@) == lookup(
                    indexed_views(entries@).subrange(j as int, entries@.len() as int) + rest,
                    port@,
                ),
            decreases entries@.len() - j,
        {
            let ghost tail = indexed_views(entries@).subrange(j as int, entries@.len() as int);
            assert((tail + rest)[0] == (entries@[j as int].0@, entries@[j as int].1));
            if bytes_equal(entries[j].0.as_slice(), port) {
                return Some(entries[j].1);
            }
            assert((tail + rest).drop_first() =~= indexed_views(entries@).subrange(
                j + 1,
                entries@.len() as int,
            ) + rest);
            j = j + 1;
        }
        assert(indexed_views(entries@).subrange(j as int, entries@.len() as int) + rest =~= rest);
        i = i + 1;
    }
    None
}

/// The output index paired with the first entry for `port`.
pub fn output_index_of(outputs: &Vec<(Vec<u8>, u8)>, port: &[u8]) -> (r: Option<u8>)
    ensures
        r == lookup(indexed_views(outputs@), port@),
{
    let ghost all = indexed_views(outputs@);
    let mut j: usize = 0;
    assert(all.subrange(0, all.len() as int) =~= all);
    while j < outputs.len()
        invariant
            j <= outputs@.len(),
            all == indexed_views(outputs@),
            lookup(all, port@) == lookup(all.subrange(j as int, all.len() as int), port@),
        decreases outputs@.len() - j,
    {
        let ghost tail = all.subrange(j as int, all.len() as int);
        if bytes_equal(outputs[j].0.as_slice(), port) {
            return Some(outputs[j].1);
        }
        assert(tail.drop_first() =~= all.subrange(j + 1, all.len() as int));
        j = j + 1;
    }
    None
}

// ---------------------------------------------------------------------------
// Keys of the sorted records.

impl Keyed for (usize, u8, usize, u8) {
    open spec fn key(&self) -> Seq<int> {
        seq![self.0 as int, self.1 as int, self.2 as int, self.3 as int]
    }

    fn key_less(&self, other: &Self) -> (r: bool) {
        proof {
            lemma_seq_lt_of_four(self.key(), other.key());
        }
        self.0 < other.0 || (self.0 == other.0 && (self.1 < other.1 || (self.1 == other.1 && (self.2
            < other.2 || (self.2 == other.2 && self.3 < other.3)))))
    }

    fn key_equal(&self, other: &Self) -> (r: bool) {
        proof {
            if self.key() == other.key() {
                assert(self.key()[0] == other.key()[0] && self.key()[1] == other.key()[1]);
                assert(self.key()[2] == other.key()[2] && self.key()[3] == other.key()[3]);
            }
        }
        self.0 == other.0 && self.1 == other.1 && self.2 == other.2 && self.3 == other.3
    }
}

impl Keyed for (u8, usize, u8) {
    open spec fn key(&self) -> Seq<int> {
        seq![self.0 as int, self.1 as int, self.2 as int]
    }

    fn key_less(&self, other: &Self) -> (r: bool) {
        proof {
            lemma_seq_lt_of_three(self.key(), other.key());
        }
        self.0 < other.0 || (self.0 == other.0 && (self.1 < other.1 || (self.1 == other.1 && self.2
            < other.2)))
    }

    fn key_equal(&self, other: &Self) -> (r: bool) {
        proof {
            if self.key() == other.key() {
                assert(self.key()[0] == other.key()[0] && self.key()[1] == other.key()[1]);
                assert(self.key()[2] == other.key()[2]);
            }
        }
        self.0 == other.0 && self.1 == other.1 && self.2 == other.2
    }
}

/// A MIDI binding as encoded, with its place among the bindings of the
/// source graph.
#[derive(Clone, Copy)]
pub struct BindingRecord {
    pub node: usize,
    pub port: u8,
    pub channel: u8,
    pub controller: u8,
    pub flags: u8,
    pub minimum: u32,
    pub maximum: u32,
    pub position: usize,
}

impl Keyed for BindingRecord {
    /// Sorted by node, port, channel and controller; equal ones keep their
    /// order.
    open spec fn key(&self) -> Seq<int> {
        seq![
            self.node as int,
            self.port as int,
            self.channel as int,
            self.controller as int,
            self.position as int,
        ]
    }

    fn key_less(&self, other: &Self) -> (r: bool) {
        proof {
            lemma_seq_lt_of_five(self.key(), other.key());
        }
        self.node < other.node || (self.node == other.node && (self.port < other.port || (self.port
            == other.port && (self.channel < other.channel || (self.channel == other.channel && (
        self.controller < other.controller || (self.controller == other.controller && self.position
            < other.position)))))))
    }

    fn key_equal(&self, other: &Self) -> (r: bool) {
        proof {
            if self.key() == other.key() {
                assert(self.key()[0] == other.key()[0] && self.key()[1] == other.key()[1]);
                assert(self.key()[2] == other.key()[2] && self.key()[3] == other.key()[3]);
                assert(self.key()[4] == other.key()[4]);
            }
        }
        self.node == other.node && self.port == other.port && self.channel == other.channel
            && self.controller == other.controller && self.position == other.position
    }
}

proof fn lemma_seq_lt_step(a: Seq<int>, b: Seq<int>)
    requires
        a.len() > 0,
        b.len() > 0,
    ensures
        seq_lt(a, b) == (a[0] < b[0] || (a[0] == b[0] && seq_lt(a.drop_first(), b.drop_first()))),
{
}

proof fn lemma_seq_lt_of_one(a: Seq<int>, b: Seq<int>)
    requires
        a.len() == 1,
        b.len() == 1,
    ensures
        seq_lt(a, b) == (a[0] < b[0]),
{
    lemma_seq_lt_step(a, b);
    assert(a.drop_first().len() == 0 && b.drop_first().len() == 0);
}

proof fn lemma_seq_lt_of_two(a: Seq<int>, b: Seq<int>)
    requires
        a.len() == 2,
        b.len() == 2,
    ensures
        seq_lt(a, b) == (a[0] < b[0] || (a[0] == b[0] && a[1] < b[1])),
{
    lemma_seq_lt_step(a, b);
    lemma_seq_lt_of_one(a.drop_first(), b.drop_first());
}

proof fn lemma_seq_lt_of_three(a: Seq<int>, b: Seq<int>)
    requires
        a.len() == 3,
        b.len() == 3,
    ensures
        seq_lt(a, b) == (a[0] < b[0] || (a[0] == b[0] && (a[1] < b[1] || (a[1] == b[1] && a[2] < b[2])))),
{
    lemma_seq_lt_step(a, b);
    lemma_seq_lt_of_two(a.drop_first(), b.drop_first());
}

proof fn lemma_seq_lt_of_four(a: Seq<int>, b: Seq<int>)
    requires
        a.len() == 4,
        b.len() == 4,
    ensures
        seq_lt(a, b) == (a[0] < b[0] || (a[0] == b[0] && (a[1] < b[1] || (a[1] == b[1] && (a[2] < b[2]
            || (a[2] == b[2] && a[3] < b[3])))))),
{
    lemma_seq_lt_step(a, b);
    lemma_seq_lt_of_three(a.drop_first(), b.drop_first());
}

proof fn lemma_seq_lt_of_five(a: Seq<int>, b: Seq<int>)
    requires
        a.len() == 5,
        b.len() == 5,
    ensures
        seq_lt(a, b) == (a[0] < b[0] || (a[0] == b[0] && (a[1] < b[1] || (a[1] == b[1] && (a[2] < b[2]
            || (a[2] == b[2] && (a[3] < b[3] || (a[3] == b[3] && a[4] < b[4])))))))),
{
    lemma_seq_lt_step(a, b);
    lemma_seq_lt_of_four(a.drop_first(), b.drop_first());
}

// ---------------------------------------------------------------------------
// Edges, outputs and bindings before sorting.

/// For the first `n` connections: an edge between two distinct nodes, with
/// the LV2 indices of its two ports, for each connection that has one.
pub open spec fn edges_upto(ns: Seq<NodeView>, arcs: Seq<(Seq<u8>, Seq<u8>)>, n: int) -> Result<
    Seq<Seq<int>>,
    GraphFault,
>
    decreases n,
{
    if n <= 0 {
        Ok(Seq::empty())
    } else {
        match edges_upto(ns, arcs, n - 1) {
            Err(e) => Err(e),
            Ok(es) => {
                let a = arcs[n - 1];
                match (find_node(ns, a.0), find_node(ns, a.1)) {
                    (Some(s), Some(d)) => if s == d {
                        Ok(es)
                    } else {
                        match port_index(ns, a.0) {
                            None => Err(GraphFault::MissingPortIndex(a.0)),
                            Some(sp) => match port_index(ns, a.1) {
                                None => Err(GraphFault::MissingPortIndex(a.1)),
                                Some(dp) => Ok(es.push(seq![s, sp as int, d, dp as int])),
                            },
                        }
                    },
                    _ => Ok(es),
                }
            },
        }
    }
}

/// For the first `n` connections: each one that ends at a graph output
/// rather than at a node gives that output's index, its source node and the
/// LV2 index of its source port.
pub open spec fn outputs_upto(
    ns: Seq<NodeView>,
    arcs: Seq<(Seq<u8>, Seq<u8>)>,
    outs: Seq<(Seq<u8>, u8)>,
    n: int,
) -> Result<Seq<Seq<int>>, GraphFault>
    decreases n,
{
    if n <= 0 {
        Ok(Seq::empty())
    } else {
        match outputs_upto(ns, arcs, outs, n - 1) {
            Err(e) => Err(e),
            Ok(os) => {
                let a = arcs[n - 1];
                if find_node(ns, a.1) is Some {
                    Ok(os)
                } else {
                    match lookup(outs, a.1) {
                        None => Ok(os),
                        Some(index) => match find_node(ns, a.0) {
                            None => Ok(os),
                            Some(src) => match port_index(ns, a.0) {
                                None => Err(GraphFault::MissingPortIndex(a.0)),
                                Some(port) => Ok(os.push(seq![index as int, src, port as int])),
                            },
                        },
                    }
                }
            },
        }
    }
}

/// The first `n` MIDI bindings with their node renumbered by `rank` and
/// their port's LV2 index.
pub open spec fn bindings_upto(
    ns: Seq<NodeView>,
    bs: Seq<BindingView>,
    rank: Seq<usize>,
    n: int,
) -> Result<Seq<BindingRecord>, GraphFault>
    decreases n,
{
    if n <= 0 {
        Ok(Seq::empty())
    } else {
        match bindings_upto(ns, bs, rank, n - 1) {
            Err(e) => Err(e),
            Ok(rs) => {
                let b = bs[n - 1];
                match find_node(ns, b.port) {
                    None => Err(GraphFault::UnboundBinding(b.port)),
                    Some(node) => match port_index(ns, b.port) {
                        None => Err(GraphFault::MissingPortIndex(b.port)),
                        Some(port) => Ok(
                            rs.push(
                                BindingRecord {
                                    node: rank[node],
                                    port,
                                    channel: b.channel,
                                    controller: b.controller,
                                    flags: b.flags,
                                    minimum: b.minimum,
                                    maximum: b.maximum,
                                    position: (n - 1) as usize,
                                },
                            ),
                        ),
                    },
                }
            },
        }
    }
}

proof fn lemma_edges_error_stays(ns: Seq<NodeView>, arcs: Seq<(Seq<u8>, Seq<u8>)>, k: int, n: int)
    requires
        0 <= k <= n,
        edges_upto(ns, arcs, k) is Err,
    ensures
        edges_upto(ns, arcs, n) == edges_upto(ns, arcs, k),
    decreases n - k,
{
    if n > k {
        lemma_edges_error_stays(ns, arcs, k, n - 1);
    }
}

proof fn lemma_outputs_error_stays(
    ns: Seq<NodeView>,
    arcs: Seq<(Seq<u8>, Seq<u8>)>,
    outs: Seq<(Seq<u8>, u8)>,
    k: int,
    n: int,
)
    requires
        0 <= k <= n,
        outputs_upto(ns, arcs, outs, k) is Err,
    ensures
        outputs_upto(ns, arcs, outs, n) == outputs_upto(ns, arcs, outs, k),
    decreases n - k,
{
    if n > k {
        lemma_outputs_error_stays(ns, arcs, outs, k, n - 1);
    }
}

proof fn lemma_bindings_error_stays(
    ns: Seq<NodeView>,
    bs: Seq<BindingView>,
    rank: Seq<usize>,
    k: int,
    n: int,
)
    requires
        0 <= k <= n,
        bindings_upto(ns, bs, rank, k) is Err,
    ensures
        bindings_upto(ns, bs, rank, n) == bindings_upto(ns, bs, rank, k),
    decreases n - k,
{
    if n > k {
        lemma_bindings_error_stays(ns, bs, rank, k, n - 1);
    }
}

fn edge_candidates(nodes: &Vec<Node>, arcs: &Vec<(Vec<u8>, Vec<u8>)>) -> (r: Result<
    Vec<(usize, u8, usize, u8)>,
    GraphError,
>)
    ensures
        match r {
            Ok(es) => {
                &&& edges_upto(node_views(nodes@), pair_views(arcs@), arcs@.len() as int) == Ok::<
                    Seq<Seq<int>>,
                    GraphFault,
                >(keys(es@))
                &&& forall|i: int| 0 <= i < es@.len() ==> #[trigger] es@[i].0 < nodes@.len() && es@[i].2 < nodes@.len()
            },
            Err(e) => edges_upto(node_views(nodes@), pair_views(arcs@), arcs@.len() as int) == Err::<
                Seq<Seq<int>>,
                GraphFault,
            >(e@),
        },
{
    let ghost ns = node_views(nodes@);
    let ghost cs = pair_views(arcs@);
    let mut edges: Vec<(usize, u8, usize, u8)> = Vec::new();
    let mut i: usize = 0;
    assert(keys(edges@) =~= Seq::<Seq<int>>::empty());
    while i < arcs.len()
        invariant
            i <= arcs@.len(),
            ns == node_views(nodes@),
            cs == pair_views(arcs@),
            edges_upto(ns, cs, i as int) == Ok::<Seq<Seq<int>>, GraphFault>(keys(edges@)),
            forall|j: int| 0 <= j < edges@.len() ==> #[trigger] edges@[j].0 < nodes@.len() && edges@[j].2 < nodes@.len(),
        decreases arcs@.len() - i,
    {
        let tail = arcs[i].0.as_slice();
        let head = arcs[i].1.as_slice();
        let ghost before = edges@;
        match (find_node_index(nodes, tail), find_node_index(nodes, head)) {
            (Some(s), Some(d)) => {
                if s != d {
                    let sp = match port_index_of(nodes, tail) {
                        Some(p) => p,
                        None => {
                            proof {
                                lemma_edges_error_stays(ns, cs, i + 1, arcs@.len() as int);
                            }
                            return Err(GraphError::MissingPortIndex(vstd::slice::slice_to_vec(tail)));
                        },
                    };
                    let dp = match port_index_of(nodes, head) {
                        Some(p) => p,
                        None => {
                            proof {
                                lemma_edges_error_stays(ns, cs, i + 1, arcs@.len() as int);
                            }
                            return Err(GraphError::MissingPortIndex(vstd::slice::slice_to_vec(head)));
                        },
                    };
                    edges.push((s, sp, d, dp));
                    assert(keys(edges@) =~= keys(before).push(seq![s as int, sp as int, d as int, dp as int]));
                }
            },
            _ => {},
        }
        assert forall|j: int| 0 <= j < edges@.len() implies #[trigger] edges@[j].0 < nodes@.len() && edges@[j].2
            < nodes@.len() by {
            if j < before.len() {
                assert(edges@[j] == before[j]);
            }
        }
        i = i + 1;
    }
    Ok(edges)
}

fn output_candidates(
    nodes: &Vec<Node>,
    arcs: &Vec<(Vec<u8>, Vec<u8>)>,
    outputs: &Vec<(Vec<u8>, u8)>,
) -> (r: Result<Vec<(u8, usize, u8)>, GraphError>)
    ensures
        match r {
            Ok(os) => {
                &&& outputs_upto(
                    node_views(nodes@),
                    pair_views(arcs@),
                    indexed_views(outputs@),
                    arcs@.len() as int,
                ) == Ok::<Seq<Seq<int>>, GraphFault>(keys(os@))
                &&& forall|i: int| 0 <= i < os@.len() ==> #[trigger] os@[i].1 < nodes@.len()
            },
            Err(e) => outputs_upto(
                node_views(nodes@),
                pair_views(arcs@),
                indexed_views(outputs@),
                arcs@.len() as int,
            ) == Err::<Seq<Seq<int>>, GraphFault>(e@),
        },
{
    let ghost ns = node_views(nodes@);
    let ghost cs = pair_views(arcs@);
    let ghost outs = indexed_views(outputs@);
    let mut found: Vec<(u8, usize, u8)> = Vec::new();
    let mut i: usize = 0;
    assert(keys(found@) =~= Seq::<Seq<int>>::empty());
    while i < arcs.len()
        invariant
            i <= arcs@.len(),
            ns == node_views(nodes@),
            cs == pair_views(arcs@),
            outs == indexed_views(outputs@),
            outputs_upto(ns, cs, outs, i as int) == Ok::<Seq<Seq<int>>, GraphFault>(keys(found@)),
            forall|j: int| 0 <= j < found@.len() ==> #[trigger] found@[j].1 < nodes@.len(),
        decreases arcs@.len() - i,
    {
        let tail = arcs[i].0.as_slice();
        let head = arcs[i].1.as_slice();
        let ghost before = found@;
        if find_node_index(nodes, head).is_none() {
            match output_index_of(outputs, head) {
                Some(index) => {
                    match find_node_index(nodes, tail) {
                        Some(src) => {
                            let port = match port_index_of(nodes, tail) {
                                Some(p) => p,
                                None => {
                                    proof {
                                        lemma_outputs_error_stays(ns, cs, outs, i + 1, arcs@.len() as int);
                                    }
                                    return Err(
                                        GraphError::MissingPortIndex(vstd::slice::slice_to_vec(tail)),
                                    );
                                },
                            };
                            found.push((index, src, port));
                            assert(keys(found@) =~= keys(before).push(
                                seq![index as int, src as int, port as int],
                            ));
                        },
                        None => {},
                    }
                },
                None => {},
            }
        }
        assert forall|j: int| 0 <= j < found@.len() implies #[trigger] found@[j].1 < nodes@.len() by {
            if j < before.len() {
                assert(found@[j] == before[j]);
            }
        }
        i = i + 1;
    }
    Ok(found)
}

fn binding_candidates(
    nodes: &Vec<Node>,
    bindings: &Vec<SourceMidiBinding>,
    rank: &Vec<usize>,
) -> (r: Result<Vec<BindingRecord>, GraphError>)
    requires
        rank@.len() == nodes@.len(),
    ensures
        match r {
            Ok(rs) => {
                &&& bindings_upto(
                    node_views(nodes@),
                    binding_views(bindings@),
                    rank@,
                    bindings@.len() as int,
                ) == Ok::<Seq<BindingRecord>, GraphFault>(rs@)
                &&& forall|i: int| 0 <= i < rs@.len() ==> (#[trigger] rs@[i]).position == i
            },
            Err(e) => bindings_upto(
                node_views(nodes@),
                binding_views(bindings@),
                rank@,
                bindings@.len() as int,
            ) == Err::<Seq<BindingRecord>, GraphFault>(e@),
        },
{
    let ghost ns = node_views(nodes@);
    let ghost bs = binding_views(bindings@);
    let mut records: Vec<BindingRecord> = Vec::new();
    let mut i: usize = 0;
    while i < bindings.len()
        invariant
            i <= bindings@.len(),
            rank@.len() == nodes@.len(),
            ns == node_views(nodes@),
            bs == binding_views(bindings@),
            records@.len() == i,
            bindings_upto(ns, bs, rank@, i as int) == Ok::<Seq<BindingRecord>, GraphFault>(records@),
            forall|j: int| 0 <= j < records@.len() ==> (#[trigger] records@[j]).position == j,
        decreases bindings@.len() - i,
    {
        let b = &bindings[i];
        let node = match find_node_index(nodes, b.port.as_slice()) {
            Some(n) => n,
            None => {
                proof {
                    lemma_bindings_error_stays(ns, bs, rank@, i + 1, bindings@.len() as int);
                }
                return Err(GraphError::UnboundBinding(b.port.clone()));
            },
        };
        let port = match port_index_of(nodes, b.port.as_slice()) {
            Some(p) => p,
            None => {
                proof {
                    lemma_bindings_error_stays(ns, bs, rank@, i + 1, bindings@.len() as int);
                }
                return Err(GraphError::MissingPortIndex(b.port.clone()));
            },
        };
        records.push(
            BindingRecord {
                node: rank[node],
                port,
                channel: b.channel,
                controller: b.controller,
                flags: b.flags,
                minimum: b.minimum,
                maximum: b.maximum,
                position: i,
            },
        );
        i = i + 1;
    }
    Ok(records)
}

// ---------------------------------------------------------------------------
// Repeated bindings.

/// The bits of a 32-bit float that is not a number.
pub open spec fn is_nan_bits(b: u32) -> bool {
    (b / 8388608) % 256 == 255 && b % 8388608 != 0
}

/// The floats with bits `a` and `b` compare equal: neither is NaN, and they
/// are the same value (the two zeros being equal).
pub open spec fn float_bits_equal(a: u32, b: u32) -> bool {
    !is_nan_bits(a) && !is_nan_bits(b) && (a == b || (a % 2147483648 == 0 && b % 2147483648 == 0))
}

pub fn float_bits_eq(a: u32, b: u32) -> (r: bool)
    ensures
        r == float_bits_equal(a, b),
{
    let a_nan = (a / 8388608) % 256 == 255 && a % 8388608 != 0;
    let b_nan = (b / 8388608) % 256 == 255 && b % 8388608 != 0;
    !a_nan && !b_nan && (a == b || (a % 2147483648 == 0 && b % 2147483648 == 0))
}

/// Two encoded bindings are equal: every field but the position, the
/// bounds compared as floats.
pub open spec fn same_binding(a: BindingRecord, b: BindingRecord) -> bool {
    &&& a.node == b.node
    &&& a.port == b.port
    &&& a.channel == b.channel
    &&& a.controller == b.controller
    &&& a.flags == b.flags
    &&& float_bits_equal(a.minimum, b.minimum)
    &&& float_bits_equal(a.maximum, b.maximum)
}

/// `s` without any binding equal to the one kept just before it.
pub open spec fn dedup_bindings(s: Seq<BindingRecord>) -> Seq<BindingRecord>
    decreases s.len(),
{
    if s.len() == 0 {
        s
    } else {
        let d = dedup_bindings(s.drop_last());
        if d.len() > 0 && same_binding(d.last(), s.last()) {
            d
        } else {
            d.push(s.last())
        }
    }
}

/// The bindings sorted by node, port, channel and controller, equal keys
/// in their original order.
pub open spec fn sorted_bindings(rs: Seq<BindingRecord>) -> Seq<BindingRecord> {
    let sk = sorted_set(key_set(keys(rs)));
    Seq::new(sk.len(), |i: int| rs[sk[i][4]])
}

fn remove_repeated(sorted: Vec<BindingRecord>) -> (r: Vec<BindingRecord>)
    ensures
        r@ == dedup_bindings(sorted@),
{
    let mut out: Vec<BindingRecord> = Vec::new();
    let mut i: usize = 0;
    assert(sorted@.subrange(0, 0) =~= Seq::<BindingRecord>::empty());
    while i < sorted.len()
        invariant
            i <= sorted@.len(),
            out@ == dedup_bindings(sorted@.subrange(0, i as int)),
        decreases sorted@.len() - i,
    {
        let b = sorted[i];
        let ghost prefix = sorted@.subrange(0, i + 1);
        assert(prefix.drop_last() =~= sorted@.subrange(0, i as int));
        assert(prefix.last() == b);
        let keep = if out.len() == 0 {
            true
        } else {
            let last = out[out.len() - 1];
            !(last.node == b.node && last.port == b.port && last.channel == b.channel && last.controller
                == b.controller && last.flags == b.flags && float_bits_eq(last.minimum, b.minimum)
                && float_bits_eq(last.maximum, b.maximum))
        };
        if keep {
            out.push(b);
        }
        i = i + 1;
    }
    assert(sorted@.subrange(0, sorted@.len() as int) =~= sorted@);
    out
}

// ---------------------------------------------------------------------------
// The encoding.

pub open spec fn override_record(o: (u8, u32)) -> Seq<u8> {
    seq![o.0, 0u8] + le_bytes_u32(o.1)
}

pub open spec fn override_records(os: Seq<(u8, u32)>, k: int) -> Seq<u8>
    decreases k,
{
    if k <= 0 {
        Seq::empty()
    } else {
        override_records(os, k - 1) + override_record(os[k - 1])
    }
}

/// A node: URI length, override count, URI, then each override as LV2
/// index, a reserved byte and the value's four bytes.
pub open spec fn node_record(n: NodeView) -> Seq<u8> {
    u16_bytes(n.prototype.len() as int) + u16_bytes(n.overrides.len() as int) + n.prototype
        + override_records(n.overrides, n.overrides.len() as int)
}

pub open spec fn node_records(ns: Seq<NodeView>, order: Seq<usize>, k: int) -> Seq<u8>
    decreases k,
{
    if k <= 0 {
        Seq::empty()
    } else {
        node_records(ns, order, k - 1) + node_record(ns[order[k - 1] as int])
    }
}

/// An edge: source node, source port, a reserved byte, destination node,
/// destination port, a reserved byte.
pub open spec fn edge_record(e: Seq<int>) -> Seq<u8> {
    u16_bytes(e[0]) + seq![e[1] as u8, 0u8] + u16_bytes(e[2]) + seq![e[3] as u8, 0u8]
}

pub open spec fn edge_records(es: Seq<Seq<int>>, k: int) -> Seq<u8>
    decreases k,
{
    if k <= 0 {
        Seq::empty()
    } else {
        edge_records(es, k - 1) + edge_record(es[k - 1])
    }
}

/// An output: node, port, a reserved byte.
pub open spec fn output_record(o: Seq<int>) -> Seq<u8> {
    u16_bytes(o[0]) + seq![o[1] as u8, 0u8]
}

pub open spec fn output_records(os: Seq<Seq<int>>, k: int) -> Seq<u8>
    decreases k,
{
    if k <= 0 {
        Seq::empty()
    } else {
        output_records(os, k - 1) + output_record(os[k - 1])
    }
}

/// A binding: node, port, channel, controller, flags, two reserved bytes,
/// minimum and maximum.
pub open spec fn binding_bytes(b: BindingRecord) -> Seq<u8> {
    u16_bytes(b.node as int) + seq![b.port, b.channel, b.controller, b.flags, 0u8, 0u8]
        + le_bytes_u32(b.minimum) + le_bytes_u32(b.maximum)
}

pub open spec fn binding_records(bs: Seq<BindingRecord>, k: int) -> Seq<u8>
    decreases k,
{
    if k <= 0 {
        Seq::empty()
    } else {
        binding_records(bs, k - 1) + binding_bytes(bs[k - 1])
    }
}

pub open spec fn encoded_bytes(
    ns: Seq<NodeView>,
    order: Seq<usize>,
    edges: Seq<Seq<int>>,
    outputs: Seq<Seq<int>>,
    bindings: Seq<BindingRecord>,
) -> Seq<u8> {
    graph_magic_seq() + le_bytes_u32(GRAPH_VERSION) + u16_bytes(ns.len() as int) + u16_bytes(
        edges.len() as int,
    ) + node_records(ns, order, ns.len() as int) + edge_records(edges, edges.len() as int)
        + u16_bytes(outputs.len() as int) + output_records(outputs, outputs.len() as int)
        + u16_bytes(bindings.len() as int) + binding_records(bindings, bindings.len() as int)
}

/// The node pairs of edge records.
pub open spec fn node_pairs(es: Seq<Seq<int>>) -> Seq<(usize, usize)> {
    Seq::new(es.len(), |i: int| (es[i][0] as usize, es[i][2] as usize))
}

/// Edge records with each node replaced by its position.
pub open spec fn renumbered_edges(es: Seq<Seq<int>>, rank: Seq<usize>) -> Seq<Seq<int>> {
    Seq::new(es.len(), |i: int| seq![rank[es[i][0]] as int, es[i][1], rank[es[i][2]] as int, es[i][3]])
}

/// Output records with their node replaced by its position, the output
/// index dropped.
pub open spec fn placed_outputs(os: Seq<Seq<int>>, rank: Seq<usize>) -> Seq<Seq<int>> {
    Seq::new(os.len(), |i: int| seq![rank[os[i][1]] as int, os[i][2]])
}

/// The encoding of graph `g`, or why there is none.
pub open spec fn encode_spec(g: SourceGraphView) -> Result<Seq<u8>, GraphFault> {
    let ns = g.nodes;
    if ns.len() == 0 {
        Err(GraphFault::NoBlocks)
    } else {
        match edges_upto(ns, g.arcs, g.arcs.len() as int) {
            Err(e) => Err(e),
            Ok(ecands) => {
                let raw = sorted_set(key_set(ecands));
                match outputs_upto(ns, g.arcs, g.outputs, g.arcs.len() as int) {
                    Err(e) => Err(e),
                    Ok(ocands) => {
                        let outs = encoded_outputs(g);
                        match smallest_first_order(ns.len() as int, node_pairs(raw)) {
                            None => Err(GraphFault::Cycle),
                            Some(p) => match bindings_upto(ns, g.bindings, p.1, g.bindings.len() as int) {
                                Err(e) => Err(e),
                                Ok(bcands) => Ok(
                                    encoded_bytes(
                                        ns,
                                        p.0,
                                        sorted_set(key_set(renumbered_edges(raw, p.1))),
                                        placed_outputs(outs, p.1),
                                        dedup_bindings(sorted_bindings(bcands)),
                                    ),
                                ),
                            },
                        }
                    },
                }
            },
        }
    }
}

fn push_u16_truncated(out: &mut Vec<u8>, n: usize)
    ensures
        final(out)@ == old(out)@ + u16_bytes(n as int),
{
    push_u16(out, (n % 65536) as u16);
}

fn write_node(out: &mut Vec<u8>, node: &Node)
    ensures
        final(out)@ == old(out)@ + node_record(node@),
{
    let ghost start = old(out)@;
    push_u16_truncated(out, node.prototype.len());
    push_u16_truncated(out, node.overrides.len());
    append_bytes(out, node.prototype.as_slice());
    let ghost head = out@;
    let mut k: usize = 0;
    while k < node.overrides.len()
        invariant
            k <= node.overrides@.len(),
            out@ == head + override_records(node.overrides@, k as int),
        decreases node.overrides@.len() - k,
    {
        let (index, bits) = node.overrides[k];
        out.push(index);
        out.push(0u8);
        push_u32(out, bits);
        k = k + 1;
        assert(out@ =~= head + override_records(node.overrides@, k as int));
    }
    assert(out@ =~= start + node_record(node@));
}

fn write_encoded(
    nodes: &Vec<Node>,
    order: &Vec<usize>,
    edges: &Vec<(usize, u8, usize, u8)>,
    outputs: &Vec<(usize, u8)>,
    bindings: &Vec<BindingRecord>,
) -> (r: Vec<u8>)
    requires
        order@.len() == nodes@.len(),
        forall|i: int| 0 <= i < order@.len() ==> #[trigger] order@[i] < nodes@.len(),
    ensures
        r@ == encoded_bytes(
            node_views(nodes@),
            order@,
            keys(edges@),
            Seq::new(outputs@.len(), |i: int| seq![outputs@[i].0 as int, outputs@[i].1 as int]),
            bindings@,
        ),
{
    let ghost ns = node_views(nodes@);
    let ghost outs = Seq::new(outputs@.len(), |i: int| seq![outputs@[i].0 as int, outputs@[i].1 as int]);
    let mut out: Vec<u8> = Vec::new();
    proof {
        lemma_magic_seq();
    }
    append_bytes(&mut out, &GRAPH_MAGIC);
    push_u32(&mut out, GRAPH_VERSION);
    push_u16_truncated(&mut out, nodes.len());
    push_u16_truncated(&mut out, edges.len());
    let ghost header = out@;
    let mut k: usize = 0;
    while k < order.len()
        invariant
            k <= order@.len(),
            order@.len() == nodes@.len(),
            ns == node_views(nodes@),
            forall|i: int| 0 <= i < order@.len() ==> #[trigger] order@[i] < nodes@.len(),
            out@ == header + node_records(ns, order@, k as int),
        decreases order@.len() - k,
    {
        write_node(&mut out, &nodes[order[k]]);
        k = k + 1;
        assert(out@ =~= header + node_records(ns, order@, k as int));
    }
    let ghost with_nodes = out@;
    let mut j: usize = 0;
    while j < edges.len()
        invariant
            j <= edges@.len(),
            out@ == with_nodes + edge_records(keys(edges@), j as int),
        decreases edges@.len() - j,
    {
        let (s, sp, d, dp) = edges[j];
        push_u16_truncated(&mut out, s);
        out.push(sp);
        out.push(0u8);
        push_u16_truncated(&mut out, d);
        out.push(dp);
        out.push(0u8);
        j = j + 1;
        assert(out@ =~= with_nodes + edge_records(keys(edges@), j as int));
    }
    push_u16_truncated(&mut out, outputs.len());
    let ghost with_edges = out@;
    let mut o: usize = 0;
    while o < outputs.len()
        invariant
            o <= outputs@.len(),
            outs == Seq::new(outputs@.len(), |i: int| seq![outputs@[i].0 as int, outputs@[i].1 as int]),
            out@ == with_edges + output_records(outs, o as int),
        decreases outputs@.len() - o,
    {
        let (node, port) = outputs[o];
        push_u16_truncated(&mut out, node);
        out.push(port);
        out.push(0u8);
        o = o + 1;
        assert(out@ =~= with_edges + output_records(outs, o as int));
    }
    push_u16_truncated(&mut out, bindings.len());
    let ghost with_outputs = out@;
    let mut b: usize = 0;
    while b < bindings.len()
        invariant
            b <= bindings@.len(),
            out@ == with_outputs + binding_records(bindings@, b as int),
        decreases bindings@.len() - b,
    {
        let binding = bindings[b];
        push_u16_truncated(&mut out, binding.node);
        out.push(binding.port);
        out.push(binding.channel);
        out.push(binding.controller);
        out.push(binding.flags);
        out.push(0u8);
        out.push(0u8);
        push_u32(&mut out, binding.minimum);
        push_u32(&mut out, binding.maximum);
        b = b + 1;
        assert(out@ =~= with_outputs + binding_records(bindings@, b as int));
    }
    assert(out@ =~= encoded_bytes(ns, order@, keys(edges@), outs, bindings@));
    out
}

fn node_pairs_of(raw: &Vec<(usize, u8, usize, u8)>) -> (r: Vec<(usize, usize)>)
    ensures
        r@ == node_pairs(keys(raw@)),
{
    let mut out: Vec<(usize, usize)> = Vec::new();
    let mut i: usize = 0;
    while i < raw.len()
        invariant
            i <= raw@.len(),
            out@ == node_pairs(keys(raw@)).subrange(0, i as int),
        decreases raw@.len() - i,
    {
        let (s, _, d, _) = raw[i];
        out.push((s, d));
        i = i + 1;
        assert(out@ =~= node_pairs(keys(raw@)).subrange(0, i as int));
    }
    assert(node_pairs(keys(raw@)).subrange(0, raw@.len() as int) =~= node_pairs(keys(raw@)));
    out
}

fn renumber_edges(raw: &Vec<(usize, u8, usize, u8)>, rank: &Vec<usize>) -> (r: Vec<(usize, u8, usize, u8)>)
    requires
        forall|i: int| 0 <= i < raw@.len() ==> #[trigger] raw@[i].0 < rank@.len() && raw@[i].2 < rank@.len(),
    ensures
        keys(r@) == renumbered_edges(keys(raw@), rank@),
{
    let mut out: Vec<(usize, u8, usize, u8)> = Vec::new();
    let mut i: usize = 0;
    while i < raw.len()
        invariant
            i <= raw@.len(),
            forall|j: int| 0 <= j < raw@.len() ==> #[trigger] raw@[j].0 < rank@.len() && raw@[j].2 < rank@.len(),
            keys(out@) == renumbered_edges(keys(raw@), rank@).subrange(0, i as int),
        decreases raw@.len() - i,
    {
        let (s, sp, d, dp) = raw[i];
        let ghost prev = keys(out@);
        out.push((rank[s], sp, rank[d], dp));
        proof {
            let k = keys(raw@)[i as int];
            assert(k == seq![s as int, sp as int, d as int, dp as int]);
            assert(keys(out@) =~= prev.push(
                seq![rank@[s as int] as int, sp as int, rank@[d as int] as int, dp as int],
            ));
            assert(renumbered_edges(keys(raw@), rank@)[i as int] == seq![
                rank@[s as int] as int,
                sp as int,
                rank@[d as int] as int,
                dp as int,
            ]);
        }
        i = i + 1;
        assert(keys(out@) =~= renumbered_edges(keys(raw@), rank@).subrange(0, i as int));
    }
    assert(renumbered_edges(keys(raw@), rank@).subrange(0, raw@.len() as int) =~= renumbered_edges(
        keys(raw@),
        rank@,
    ));
    out
}

fn place_outputs(found: &Vec<(u8, usize, u8)>, rank: &Vec<usize>) -> (r: Vec<(usize, u8)>)
    requires
        forall|i: int| 0 <= i < found@.len() ==> #[trigger] found@[i].1 < rank@.len(),
    ensures
        Seq::new(r@.len(), |i: int| seq![r@[i].0 as int, r@[i].1 as int]) == placed_outputs(
            keys(found@),
            rank@,
        ),
{
    let mut out: Vec<(usize, u8)> = Vec::new();
    let mut i: usize = 0;
    while i < found.len()
        invariant
            i <= found@.len(),
            forall|j: int| 0 <= j < found@.len() ==> #[trigger] found@[j].1 < rank@.len(),
            Seq::new(out@.len(), |k: int| seq![out@[k].0 as int, out@[k].1 as int]) == placed_outputs(
                keys(found@),
                rank@,
            ).subrange(0, i as int),
        decreases found@.len() - i,
    {
        let (_, src, port) = found[i];
        let ghost prev = Seq::new(out@.len(), |k: int| seq![out@[k].0 as int, out@[k].1 as int]);
        out.push((rank[src], port));
        proof {
            let k = keys(found@)[i as int];
            assert(k[1] == src as int && k[2] == port as int);
            let item = seq![rank@[src as int] as int, port as int];
            assert(Seq::new(out@.len(), |k: int| seq![out@[k].0 as int, out@[k].1 as int]) =~= prev.push(item));
            assert(placed_outputs(keys(found@), rank@)[i as int] == item);
            assert(placed_outputs(keys(found@), rank@).subrange(0, i + 1) =~= placed_outputs(
                keys(found@),
                rank@,
            ).subrange(0, i as int).push(item));
        }
        i = i + 1;
        assert(Seq::new(out@.len(), |k: int| seq![out@[k].0 as int, out@[k].1 as int]) =~= placed_outputs(
            keys(found@),
            rank@,
        ).subrange(0, i as int));
    }
    assert(placed_outputs(keys(found@), rank@).subrange(0, found@.len() as int) =~= placed_outputs(
        keys(found@),
        rank@,
    ));
    out
}

/// Renumbered edges between ranked nodes run forward.
proof fn lemma_encoded_edges_forward(
    raw: Seq<Seq<int>>,
    rank: Seq<usize>,
    moved: Seq<Seq<int>>,
    es: Seq<Seq<int>>,
)
    requires
        respects_edges(node_pairs(raw), rank),
        forall|i: int| 0 <= i < raw.len() ==> (#[trigger] raw[i]).len() == 4 && 0 <= raw[i][0] && 0 <= raw[i][2],
        forall|i: int| 0 <= i < raw.len() ==> raw[i][0] <= usize::MAX && raw[i][2] <= usize::MAX,
        moved == renumbered_edges(raw, rank),
        key_set(es) == key_set(moved),
    ensures
        forall|j: int| 0 <= j < es.len() ==> (#[trigger] es[j])[0] < es[j][2],
{
    assert forall|j: int| 0 <= j < es.len() implies (#[trigger] es[j])[0] < es[j][2] by {
        assert(es.contains(es[j]));
        assert(key_set(es).contains(es[j]));
        assert(moved.contains(es[j]));
        let c = choose|c: int| 0 <= c < moved.len() && moved[c] == es[j];
        assert(node_pairs(raw)[c] == (raw[c][0] as usize, raw[c][2] as usize));
        assert(rank[node_pairs(raw)[c].0 as int] < rank[node_pairs(raw)[c].1 as int]);
    }
}

/// The sorted binding records are [`sorted_bindings`] of the candidates.
proof fn lemma_sorted_records(cands: Seq<BindingRecord>, sorted: Seq<BindingRecord>)
    requires
        forall|i: int| 0 <= i < cands.len() ==> (#[trigger] cands[i]).position == i,
        keys(sorted) == sorted_set(key_set(keys(cands))),
        forall|i: int| 0 <= i < sorted.len() ==> cands.contains(#[trigger] sorted[i]),
    ensures
        sorted == sorted_bindings(cands),
{
    let sk = sorted_set(key_set(keys(cands)));
    assert forall|i: int| 0 <= i < sorted.len() implies sorted[i] == cands[sk[i][4]] by {
        let j = choose|j: int| 0 <= j < cands.len() && cands[j] == sorted[i];
        assert(keys(sorted)[i] == sorted[i].key());
        assert(sk[i][4] == sorted[i].position as int);
        assert(cands[j].position == j);
    }
    assert(sorted =~= sorted_bindings(cands));
}

/// The edge records of graph `g`'s encoding, between node positions.
pub open spec fn encoded_edges(g: SourceGraphView) -> Seq<Seq<int>> {
    match edges_upto(g.nodes, g.arcs, g.arcs.len() as int) {
        Ok(ecands) => {
            let raw = sorted_set(key_set(ecands));
            match smallest_first_order(g.nodes.len() as int, node_pairs(raw)) {
                Some(p) => sorted_set(key_set(renumbered_edges(raw, p.1))),
                None => Seq::empty(),
            }
        },
        Err(_) => Seq::empty(),
    }
}

/// The output triple that arc `a` gives: where it runs from a node's port
/// that has an LV2 index to a graph output rather than to a node, the
/// output's index, the node and the port's index.
pub open spec fn arc_output(ns: Seq<NodeView>, a: (Seq<u8>, Seq<u8>), outs: Seq<(Seq<u8>, u8)>, o: Seq<int>) -> bool {
    &&& find_node(ns, a.1) is None
    &&& lookup(outs, a.1) is Some
    &&& find_node(ns, a.0) is Some
    &&& port_index(ns, a.0) is Some
    &&& o == seq![lookup(outs, a.1)->0 as int, find_node(ns, a.0)->0, port_index(ns, a.0)->0 as int]
}

/// The output triples of graph `g`'s encoding, before their node is
/// replaced by its position.
pub open spec fn encoded_outputs(g: SourceGraphView) -> Seq<Seq<int>> {
    match outputs_upto(g.nodes, g.arcs, g.outputs, g.arcs.len() as int) {
        Ok(ocands) => sorted_set(key_set(ocands)),
        Err(_) => Seq::empty(),
    }
}

proof fn lemma_outputs_upto_contains(
    ns: Seq<NodeView>,
    arcs: Seq<(Seq<u8>, Seq<u8>)>,
    outs: Seq<(Seq<u8>, u8)>,
    n: int,
)
    requires
        0 <= n <= arcs.len(),
    ensures
        outputs_upto(ns, arcs, outs, n) matches Ok(c) ==> forall|o: Seq<int>|
            c.contains(o) <==> exists|i: int| 0 <= i < n && #[trigger] arc_output(ns, arcs[i], outs, o),
    decreases n,
{
    if n > 0 {
        lemma_outputs_upto_contains(ns, arcs, outs, n - 1);
        if let Ok(c) = outputs_upto(ns, arcs, outs, n) {
            let prev = outputs_upto(ns, arcs, outs, n - 1)->Ok_0;
            let a = arcs[n - 1];
            assert forall|o: Seq<int>|
                c.contains(o) <==> exists|i: int| 0 <= i < n && #[trigger] arc_output(ns, arcs[i], outs, o) by {
                if c.contains(o) {
                    let k = choose|k: int| 0 <= k < c.len() && c[k] == o;
                    if k < prev.len() {
                        assert(prev[k] == o);
                        assert(prev.contains(o));
                        let i = choose|i: int| 0 <= i < n - 1 && #[trigger] arc_output(ns, arcs[i], outs, o);
                        assert(0 <= i < n && arc_output(ns, arcs[i], outs, o));
                    } else {
                        assert(arc_output(ns, arcs[n - 1], outs, o));
                    }
                }
                if exists|i: int| 0 <= i < n && #[trigger] arc_output(ns, arcs[i], outs, o) {
                    let i = choose|i: int| 0 <= i < n && #[trigger] arc_output(ns, arcs[i], outs, o);
                    if i < n - 1 {
                        assert(prev.contains(o));
                        let k = choose|k: int| 0 <= k < prev.len() && prev[k] == o;
                        assert(c[k] == o);
                    } else {
                        assert(c[c.len() - 1] == o);
                    }
                }
            }
        }
    }
}

/// The outputs that a graph's encoding records: for each distinct triple of
/// output index, source node and source port index that some arc gives, one
/// record, and none other; in increasing order, so by output index first.
/// Two outputs fed by one port are two records.
pub proof fn lemma_encoded_outputs(g: SourceGraphView)
    ensures
        encode_spec(g) is Ok ==> {
            let eo = encoded_outputs(g);
            &&& strictly_sorted(eo)
            &&& forall|o: Seq<int>|
                eo.contains(o) <==> exists|i: int|
                    0 <= i < g.arcs.len() && #[trigger] arc_output(g.nodes, g.arcs[i], g.outputs, o)
            &&& forall|i: int, j: int| 0 <= i < j < eo.len() ==> (#[trigger] eo[i])[0] <= (#[trigger] eo[j])[0]
        },
{
    if let Ok(c) = outputs_upto(g.nodes, g.arcs, g.outputs, g.arcs.len() as int) {
        let eo = encoded_outputs(g);
        lemma_sorted_set_exists(c);
        lemma_outputs_upto_contains(g.nodes, g.arcs, g.outputs, g.arcs.len() as int);
        assert forall|o: Seq<int>| eo.contains(o) <==> c.contains(o) by {
            assert(key_set(eo).contains(o) == eo.contains(o));
            assert(key_set(c).contains(o) == c.contains(o));
        }
        assert forall|i: int, j: int| 0 <= i < j < eo.len() implies (#[trigger] eo[i])[0] <= (#[trigger] eo[j])[0] by {
            assert(seq_lt(eo[i], eo[j]));
            assert(eo.contains(eo[i]) && eo.contains(eo[j]));
            let ci = choose|k: int| 0 <= k < c.len() && c[k] == eo[i];
            let cj = choose|k: int| 0 <= k < c.len() && c[k] == eo[j];
            assert(eo[i].len() == 3 && eo[j].len() == 3);
        }
    }
}

/// Encodes a graph: nodes ordered so that every edge runs forward (the
/// smallest-numbered free node first), edges and outputs between LV2 ports,
/// and the MIDI bindings sorted by node, port, channel and controller with
/// repeats removed.
pub fn encode(source: SourceGraph) -> (r: Result<Vec<u8>, GraphError>)
    ensures
        match r {
            Ok(bytes) => encode_spec(source@) == Ok::<Seq<u8>, GraphFault>(bytes@),
            Err(e) => encode_spec(source@) == Err::<Seq<u8>, GraphFault>(e@),
        },
        r is Ok ==> forall|j: int|
            0 <= j < encoded_edges(source@).len() ==> (#[trigger] encoded_edges(source@)[j])[0]
                < encoded_edges(source@)[j][2],
        r is Ok ==> forall|o: Seq<int>|
            encoded_outputs(source@).contains(o) <==> exists|i: int|
                0 <= i < source@.arcs.len() && #[trigger] arc_output(source@.nodes, source@.arcs[i], source@.outputs, o),
        r is Ok ==> strictly_sorted(encoded_outputs(source@)),
        r is Ok ==> forall|i: int, j: int|
            0 <= i < j < encoded_outputs(source@).len() ==> (#[trigger] encoded_outputs(source@)[i])[0]
                <= (#[trigger] encoded_outputs(source@)[j])[0],
{
    let ghost g = source@;
    let nodes = &source.nodes;
    if nodes.len() == 0 {
        return Err(GraphError::NoBlocks);
    }
    let n = nodes.len();
    let edge_found = match edge_candidates(nodes, &source.arcs) {
        Ok(es) => es,
        Err(e) => return Err(e),
    };
    let raw = sort_unique(edge_found);
    let output_found = match output_candidates(nodes, &source.arcs, &source.outputs) {
        Ok(os) => os,
        Err(e) => return Err(e),
    };
    let graph_outputs = sort_unique(output_found);
    proof {
        let g = source@;
        let c = keys(output_found@);
        let eo = encoded_outputs(g);
        assert(eo == keys(graph_outputs@));
        lemma_outputs_upto_contains(g.nodes, g.arcs, g.outputs, g.arcs.len() as int);
        assert forall|o: Seq<int>| eo.contains(o) <==> c.contains(o) by {
            assert(key_set(keys(graph_outputs@)).contains(o) == eo.contains(o));
            assert(key_set(c).contains(o) == c.contains(o));
        }
        assert forall|i: int, j: int| 0 <= i < j < eo.len() implies (#[trigger] eo[i])[0] <= (#[trigger] eo[j])[0] by {
            assert(seq_lt(eo[i], eo[j]));
            assert(keys(output_found@).contains(eo[i]));
            let ci = choose|k: int| 0 <= k < c.len() && c[k] == eo[i];
            let cj = choose|k: int| 0 <= k < c.len() && c[k] == eo[j];
            assert(eo[i].len() == 3 && eo[j].len() == 3);
        }
    }
    proof {
        assert forall|i: int| 0 <= i < raw@.len() implies #[trigger] raw@[i].0 < n && raw@[i].2 < n by {
            assert(keys(raw@).contains(keys(raw@)[i]));
            assert(key_set(keys(edge_found@)).contains(keys(raw@)[i]));
            let c = choose|c: int| 0 <= c < keys(edge_found@).len() && keys(edge_found@)[c] == keys(raw@)[i];
            assert(edge_found@[c].0 < n && edge_found@[c].2 < n);
        }
        assert forall|i: int| 0 <= i < graph_outputs@.len() implies #[trigger] graph_outputs@[i].1 < n by {
            assert(keys(graph_outputs@).contains(keys(graph_outputs@)[i]));
            assert(key_set(keys(output_found@)).contains(keys(graph_outputs@)[i]));
            let c = choose|c: int|
                0 <= c < keys(output_found@).len() && keys(output_found@)[c] == keys(graph_outputs@)[i];
            assert(output_found@[c].1 < n);
        }
    }
    let pairs = node_pairs_of(&raw);
    proof {
        assert forall|e: int| 0 <= e < pairs@.len() implies #[trigger] pairs@[e].0 < n && pairs@[e].1 < n by {
            assert(raw@[e].0 < n && raw@[e].2 < n);
        }
    }
    let (order, rank) = match topological_order(n, pairs.as_slice()) {
        Some(p) => p,
        None => {
            proof {
                lemma_topological_order_is_spec(n as int, pairs@, None);
            }
            return Err(GraphError::Cycle);
        },
    };
    proof {
        lemma_topological_order_is_spec(n as int, pairs@, Some((order@, rank@)));
    }
    let moved = renumber_edges(&raw, &rank);
    let edges = sort_unique(moved);
    proof {
        lemma_encoded_edges_forward(keys(raw@), rank@, keys(moved@), keys(edges@));
    }
    let outputs = place_outputs(&graph_outputs, &rank);
    let binding_found = match binding_candidates(nodes, &source.midi_bindings, &rank) {
        Ok(rs) => rs,
        Err(e) => return Err(e),
    };
    let sorted = sort_unique(binding_found);
    proof {
        lemma_sorted_records(binding_found@, sorted@);
    }
    let bindings = remove_repeated(sorted);
    let bytes = write_encoded(nodes, &order, &edges, &outputs, &bindings);
    Ok(bytes)
}

} // verus!
