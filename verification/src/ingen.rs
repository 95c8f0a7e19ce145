//! Compiling the statements of an Ingen graph into the compact graph that a
//! flash bundle carries: each plugin block becomes a node, each connection
//! between two blocks an edge, and the nodes are ordered so that every edge
//! runs forward.

use vstd::prelude::*;
use vstd::string::StringSliceAdditionalSpecFns;
use crate::bundle::{
    bytes_equal, graph_edge_count, graph_edge_spec, graph_edges_start, graph_magic_seq,
    graph_node_count, graph_node_spec, graph_nodes_end, graph_ok, lemma_magic_seq, GRAPH_MAGIC,
    GRAPH_VERSION,
};
use crate::le::{
    le_bytes_u16, le_bytes_u32, le_u16, lemma_le_u16_roundtrip, lemma_le_u32_roundtrip,
    push_u16, push_u32,
};
use crate::order::{
    bytes_key, compare_bytes, key_set, keys, lemma_pair_key_injective,
    lemma_bytes_key_injective, lemma_pair_key_order, pair_key, seq_lt, sort_unique, sorted_set,
    Keyed,
};
use crate::pack::append_bytes;
use crate::decimal::{parse_u8, parse_u8_spec};
use crate::patch_formats::ingen::LV2_INDEX;
use crate::rdf::{
    find_triple, first_match, has_prefix, is_about, lemma_first_match_from, object_for, object_of, starts_with,
    Triple, RDF_TYPE,
};
use crate::topo::{
    edges_within, lemma_topological_order_is_spec,
    respects_edges, smallest_first_order, topological_order,
};

verus! {

pub const INGEN_GRAPH: &'static str = "http://drobilla.net/ns/ingen#Graph";

pub const INGEN_GRAPH_PROTOTYPE: &'static str = "http://drobilla.net/ns/ingen#GraphPrototype";

pub const INGEN_BLOCK: &'static str = "http://drobilla.net/ns/ingen#Block";

pub const INGEN_TAIL: &'static str = "http://drobilla.net/ns/ingen#tail";

pub const INGEN_HEAD: &'static str = "http://drobilla.net/ns/ingen#head";

pub const LV2_PROTOTYPE: &'static str = "http://lv2plug.in/ns/lv2core#prototype";

pub const LV2_PORT: &'static str = "http://lv2plug.in/ns/lv2core#port";

pub const RDFS_SEE_ALSO: &'static str = "http://www.w3.org/2000/01/rdf-schema#seeAlso";

/// A plugin block of the graph.
pub struct Block {
    pub subject: Vec<u8>,
    pub prototype: Vec<u8>,
    pub ports: Vec<Vec<u8>>,
}

pub struct BlockView {
    pub subject: Seq<u8>,
    pub prototype: Seq<u8>,
    pub ports: Seq<Seq<u8>>,
}

pub open spec fn byte_strings(v: Seq<Vec<u8>>) -> Seq<Seq<u8>> {
    Seq::new(v.len(), |i: int| v[i]@)
}

impl View for Block {
    type V = BlockView;

    open spec fn view(&self) -> BlockView {
        BlockView { subject: self.subject@, prototype: self.prototype@, ports: byte_strings(self.ports@) }
    }
}

pub open spec fn block_views(bs: Seq<Block>) -> Seq<BlockView> {
    Seq::new(bs.len(), |i: int| bs[i]@)
}

/// Why an Ingen graph could not be compiled.
pub enum IngenError {
    /// A block is a blank node.
    BlankBlock,
    /// The block with this subject names no plugin.
    MissingPrototype(Vec<u8>),
    /// The graph holds no plugin block.
    NoBlocks,
    /// The connections between blocks form a cycle.
    Cycle,
}

pub enum IngenFault {
    BlankBlock,
    MissingPrototype(Seq<u8>),
    NoBlocks,
    Cycle,
}

impl View for IngenError {
    type V = IngenFault;

    open spec fn view(&self) -> IngenFault {
        match self {
            IngenError::BlankBlock => IngenFault::BlankBlock,
            IngenError::MissingPrototype(s) => IngenFault::MissingPrototype(s@),
            IngenError::NoBlocks => IngenFault::NoBlocks,
            IngenError::Cycle => IngenFault::Cycle,
        }
    }
}

// ---------------------------------------------------------------------------
// Blocks.

/// The statement declares its subject an Ingen block.
pub open spec fn declares_block(t: Triple) -> bool {
    t.predicate@ == RDF_TYPE.spec_bytes() && t.object@ == INGEN_BLOCK.spec_bytes()
}

/// The ports listed for `subject` among the first `n` statements, in order.
pub open spec fn ports_upto(ts: Seq<Triple>, subject: Seq<u8>, n: int) -> Seq<Seq<u8>>
    decreases n,
{
    if n <= 0 {
        Seq::empty()
    } else {
        ports_upto(ts, subject, n - 1) + if is_about(ts[n - 1], subject, LV2_PORT.spec_bytes()) {
            seq![ts[n - 1].object@]
        } else {
            Seq::empty()
        }
    }
}

pub open spec fn blank_prefix() -> Seq<u8> {
    seq![95u8, 58u8]
}

pub open spec fn has_block(bs: Seq<BlockView>, subject: Seq<u8>) -> bool {
    exists|i: int| 0 <= i < bs.len() && #[trigger] bs[i].subject == subject
}

/// The blocks declared among the first `n` statements, each once, in the
/// order of their first declaration.
pub open spec fn blocks_upto(ts: Seq<Triple>, n: int) -> Result<Seq<BlockView>, IngenFault>
    decreases n,
{
    if n <= 0 {
        Ok(Seq::empty())
    } else {
        match blocks_upto(ts, n - 1) {
            Err(e) => Err(e),
            Ok(bs) => {
                let t = ts[n - 1];
                if !declares_block(t) {
                    Ok(bs)
                } else if has_prefix(t.subject@, blank_prefix()) {
                    Err(IngenFault::BlankBlock)
                } else if has_block(bs, t.subject@) {
                    Ok(bs)
                } else {
                    match object_of(ts, t.subject@, LV2_PROTOTYPE.spec_bytes()) {
                        None => Err(IngenFault::MissingPrototype(t.subject@)),
                        Some(p) => Ok(
                            bs.push(
                                BlockView {
                                    subject: t.subject@,
                                    prototype: p,
                                    ports: ports_upto(ts, t.subject@, ts.len() as int),
                                },
                            ),
                        ),
                    }
                }
            },
        }
    }
}

/// A refusal among the first statements stands for every longer prefix.
proof fn lemma_blocks_error_stays(ts: Seq<Triple>, k: int, n: int)
    requires
        0 <= k <= n,
        blocks_upto(ts, k) is Err,
    ensures
        blocks_upto(ts, n) == blocks_upto(ts, k),
    decreases n - k,
{
    if n > k {
        lemma_blocks_error_stays(ts, k, n - 1);
    }
}

/// The ports listed for `subject`, in order.
pub fn ports_for(triples: &[Triple], subject: &[u8]) -> (r: Vec<Vec<u8>>)
    ensures
        byte_strings(r@) == ports_upto(triples@, subject@, triples@.len() as int),
{
    let mut ports: Vec<Vec<u8>> = Vec::new();
    let mut i: usize = 0;
    while i < triples.len()
        invariant
            i <= triples@.len(),
            byte_strings(ports@) == ports_upto(triples@, subject@, i as int),
        decreases triples@.len() - i,
    {
        let t = &triples[i];
        if bytes_equal(t.subject.as_slice(), subject) && bytes_equal(
            t.predicate.as_slice(),
            LV2_PORT.as_bytes(),
        ) {
            ports.push(t.object.clone());
        }
        i = i + 1;
        assert(byte_strings(ports@) =~= ports_upto(triples@, subject@, i as int));
    }
    ports
}

fn block_known(blocks: &Vec<Block>, subject: &[u8]) -> (r: bool)
    ensures
        r == has_block(block_views(blocks@), subject@),
{
    let mut i: usize = 0;
    while i < blocks.len()
        invariant
            i <= blocks@.len(),
            forall|j: int| 0 <= j < i ==> blocks@[j].subject@ != subject@,
        decreases blocks@.len() - i,
    {
        if bytes_equal(blocks[i].subject.as_slice(), subject) {
            assert(block_views(blocks@)[i as int].subject == subject@);
            return true;
        }
        i = i + 1;
    }
    assert forall|j: int| 0 <= j < blocks@.len() implies #[trigger] block_views(blocks@)[j].subject
        != subject@ by {
        assert(blocks@[j].subject@ != subject@);
    }
    false
}

/// Collects the blocks the statements declare, in order of first declaration.
pub fn collect_blocks(triples: &[Triple]) -> (r: Result<Vec<Block>, IngenError>)
    ensures
        match r {
            Ok(bs) => blocks_upto(triples@, triples@.len() as int) == Ok::<
                Seq<BlockView>,
                IngenFault,
            >(block_views(bs@)),
            Err(e) => blocks_upto(triples@, triples@.len() as int) == Err::<
                Seq<BlockView>,
                IngenFault,
            >(e@),
        },
{
    let mut blocks: Vec<Block> = Vec::new();
    let mut i: usize = 0;
    assert(block_views(blocks@) =~= Seq::<BlockView>::empty());
    while i < triples.len()
        invariant
            i <= triples@.len(),
            blocks_upto(triples@, i as int) == Ok::<Seq<BlockView>, IngenFault>(
                block_views(blocks@),
            ),
        decreases triples@.len() - i,
    {
        let ghost before = block_views(blocks@);
        let t = &triples[i];
        if bytes_equal(t.predicate.as_slice(), RDF_TYPE.as_bytes()) && bytes_equal(
            t.object.as_slice(),
            INGEN_BLOCK.as_bytes(),
        ) {
            let blank: [u8; 2] = [95u8, 58u8];
            if starts_with(t.subject.as_slice(), &blank) {
                proof {
                    assert(blank@ =~= blank_prefix());
                    lemma_blocks_error_stays(triples@, i + 1, triples@.len() as int);
                }
                return Err(IngenError::BlankBlock);
            }
            proof {
                assert(blank@ =~= blank_prefix());
            }
            if !block_known(&blocks, t.subject.as_slice()) {
                let prototype = match object_for(
                    triples,
                    t.subject.as_slice(),
                    LV2_PROTOTYPE.as_bytes(),
                ) {
                    Some(p) => p,
                    None => {
                        proof {
                            lemma_blocks_error_stays(triples@, i + 1, triples@.len() as int);
                        }
                        return Err(IngenError::MissingPrototype(t.subject.clone()));
                    },
                };
                let ports = ports_for(triples, t.subject.as_slice());
                let block = Block {
                    subject: t.subject.clone(),
                    prototype: vstd::slice::slice_to_vec(prototype),
                    ports,
                };
                blocks.push(block);
                assert(block_views(blocks@) =~= before.push(blocks@.last()@));
            }
        }
        i = i + 1;
    }
    Ok(blocks)
}

// ---------------------------------------------------------------------------
// Connections.

/// A connection from the port `tail` to the port `head`.
pub struct Connection {
    pub tail: Vec<u8>,
    pub head: Vec<u8>,
}

pub open spec fn arc_key(a: (Seq<u8>, Seq<u8>)) -> Seq<int> {
    pair_key(a.0, bytes_key(a.1))
}

pub open spec fn arc_keys(arcs: Seq<(Seq<u8>, Seq<u8>)>) -> Seq<Seq<int>> {
    Seq::new(arcs.len(), |i: int| arc_key(arcs[i]))
}

pub open spec fn connection_views(cs: Seq<Connection>) -> Seq<(Seq<u8>, Seq<u8>)> {
    Seq::new(cs.len(), |i: int| (cs[i].tail@, cs[i].head@))
}

impl Keyed for Connection {
    open spec fn key(&self) -> Seq<int> {
        arc_key((self.tail@, self.head@))
    }

    fn key_less(&self, other: &Self) -> (r: bool) {
        proof {
            lemma_pair_key_order(self.tail@, bytes_key(self.head@), other.tail@, bytes_key(other.head@));
        }
        let first = compare_bytes(self.tail.as_slice(), other.tail.as_slice());
        if first != 0 {
            first < 0
        } else {
            compare_bytes(self.head.as_slice(), other.head.as_slice()) < 0
        }
    }

    fn key_equal(&self, other: &Self) -> (r: bool) {
        let same = bytes_equal(self.tail.as_slice(), other.tail.as_slice()) && bytes_equal(
            self.head.as_slice(),
            other.head.as_slice(),
        );
        proof {
            if self.key() == other.key() {
                lemma_pair_key_injective(self.tail@, bytes_key(self.head@), other.tail@, bytes_key(other.head@));
                lemma_bytes_key_injective(self.head@, other.head@);
            }
        }
        same
    }
}

/// The connections among the first `n` statements: for each statement with
/// `ingen:head`, its subject's `ingen:tail` (when it has one) and its object.
pub open spec fn arcs_upto(ts: Seq<Triple>, n: int) -> Seq<(Seq<u8>, Seq<u8>)>
    decreases n,
{
    if n <= 0 {
        Seq::empty()
    } else {
        let t = ts[n - 1];
        arcs_upto(ts, n - 1) + if t.predicate@ == INGEN_HEAD.spec_bytes() {
            match object_of(ts, t.subject@, INGEN_TAIL.spec_bytes()) {
                Some(tail) => seq![(tail, t.object@)],
                None => Seq::empty(),
            }
        } else {
            Seq::empty()
        }
    }
}

/// `arcs` sorted, each connection once.
pub open spec fn sorted_arcs(arcs: Seq<(Seq<u8>, Seq<u8>)>) -> Seq<(Seq<u8>, Seq<u8>)> {
    choose|s: Seq<(Seq<u8>, Seq<u8>)>| arc_keys(s) == sorted_set(key_set(arc_keys(arcs)))
}

pub fn collect_arcs(triples: &[Triple]) -> (r: Vec<Connection>)
    ensures
        connection_views(r@) == arcs_upto(triples@, triples@.len() as int),
{
    let mut arcs: Vec<Connection> = Vec::new();
    let mut i: usize = 0;
    while i < triples.len()
        invariant
            i <= triples@.len(),
            connection_views(arcs@) == arcs_upto(triples@, i as int),
        decreases triples@.len() - i,
    {
        let t = &triples[i];
        if bytes_equal(t.predicate.as_slice(), INGEN_HEAD.as_bytes()) {
            match object_for(triples, t.subject.as_slice(), INGEN_TAIL.as_bytes()) {
                Some(tail) => {
                    arcs.push(
                        Connection { tail: vstd::slice::slice_to_vec(tail), head: t.object.clone() },
                    );
                },
                None => {},
            }
        }
        i = i + 1;
        assert(connection_views(arcs@) =~= arcs_upto(triples@, i as int));
    }
    arcs
}

/// The sorted connections are [`sorted_arcs`] of the collected ones.
pub proof fn lemma_sorted_connections(items: Seq<Connection>, sorted: Seq<Connection>)
    requires
        keys(sorted) == sorted_set(key_set(keys(items))),
    ensures
        connection_views(sorted) == sorted_arcs(connection_views(items)),
{
    let cands = connection_views(items);
    assert(keys(items) =~= arc_keys(cands));
    let views = connection_views(sorted);
    assert(arc_keys(views) =~= keys(sorted));
    let chosen = sorted_arcs(cands);
    assert(arc_keys(chosen) == sorted_set(key_set(arc_keys(cands))));
    assert(chosen.len() == views.len()) by {
        assert(arc_keys(chosen).len() == arc_keys(views).len());
    }
    assert forall|i: int| 0 <= i < views.len() implies chosen[i] == views[i] by {
        assert(arc_keys(chosen)[i] == arc_keys(views)[i]);
        lemma_pair_key_injective(chosen[i].0, bytes_key(chosen[i].1), views[i].0, bytes_key(views[i].1));
        lemma_bytes_key_injective(chosen[i].1, views[i].1);
    }
    assert(chosen =~= views);
}

// ---------------------------------------------------------------------------
// Which block a port belongs to.

/// `port` is one of `ports`, lies under `subject` (after a `/`), or is it.
pub open spec fn claims_port(subject: Seq<u8>, ports: Seq<Seq<u8>>, port: Seq<u8>) -> bool {
    ports.contains(port) || has_prefix(port, subject.push(47u8)) || port == subject
}

/// `port` belongs to the block.
pub open spec fn claims(b: BlockView, port: Seq<u8>) -> bool {
    claims_port(b.subject, b.ports, port)
}

pub open spec fn find_block_from(bs: Seq<BlockView>, port: Seq<u8>, i: int) -> Option<int>
    decreases bs.len() - i,
{
    if i < 0 || i >= bs.len() {
        None
    } else if claims(bs[i], port) {
        Some(i)
    } else {
        find_block_from(bs, port, i + 1)
    }
}

/// The first block that claims `port`.
pub open spec fn find_block(bs: Seq<BlockView>, port: Seq<u8>) -> Option<int> {
    find_block_from(bs, port, 0)
}

proof fn lemma_find_block_from(bs: Seq<BlockView>, port: Seq<u8>, i: int)
    ensures
        match find_block_from(bs, port, i) {
            Some(k) => i <= k < bs.len() && 0 <= k,
            None => true,
        },
    decreases bs.len() - i,
{
    if 0 <= i < bs.len() && !claims(bs[i], port) {
        lemma_find_block_from(bs, port, i + 1);
    }
}

/// `port` is one of `ports`, lies under `subject`, or is it.
pub fn port_claimed(subject: &[u8], ports: &Vec<Vec<u8>>, port: &[u8]) -> (r: bool)
    ensures
        r == claims_port(subject@, byte_strings(ports@), port@),
{
    let ghost listed = byte_strings(ports@);
    let mut i: usize = 0;
    while i < ports.len()
        invariant
            i <= ports@.len(),
            listed == byte_strings(ports@),
            forall|j: int| 0 <= j < i ==> ports@[j]@ != port@,
        decreases ports@.len() - i,
    {
        if bytes_equal(ports[i].as_slice(), port) {
            assert(listed[i as int] == port@);
            return true;
        }
        i = i + 1;
    }
    assert(!listed.contains(port@)) by {
        if listed.contains(port@) {
            let j = choose|j: int| 0 <= j < listed.len() && listed[j] == port@;
            assert(ports@[j]@ == port@);
        }
    }
    let under = port.len() > subject.len() && starts_with(port, subject) && port[subject.len()] == 47u8;
    proof {
        let p = subject@.push(47u8);
        if under {
            assert(port@.subrange(0, p.len() as int) =~= p);
        }
        if has_prefix(port@, p) {
            assert(port@.subrange(0, subject@.len() as int) =~= p.subrange(0, subject@.len() as int));
            assert(p.subrange(0, subject@.len() as int) =~= subject@);
            assert(port@[subject@.len() as int] == port@.subrange(0, p.len() as int)[subject@.len() as int]);
        }
    }
    under || bytes_equal(port, subject)
}

/// The index of the first block that claims `port`.
pub fn find_block_index(blocks: &Vec<Block>, port: &[u8]) -> (r: Option<usize>)
    ensures
        match r {
            Some(i) => find_block(block_views(blocks@), port@) == Some(i as int),
            None => find_block(block_views(blocks@), port@) is None,
        },
{
    let ghost bs = block_views(blocks@);
    let mut i: usize = 0;
    while i < blocks.len()
        invariant
            i <= blocks@.len(),
            bs == block_views(blocks@),
            find_block(bs, port@) == find_block_from(bs, port@, i as int),
        decreases blocks@.len() - i,
    {
        if port_claimed(blocks[i].subject.as_slice(), &blocks[i].ports, port) {
            return Some(i);
        }
        i = i + 1;
    }
    None
}

// ---------------------------------------------------------------------------
// Edges.

impl Keyed for (usize, usize) {
    open spec fn key(&self) -> Seq<int> {
        seq![self.0 as int, self.1 as int]
    }

    fn key_less(&self, other: &Self) -> (r: bool) {
        proof {
            reveal_with_fuel(seq_lt, 3);
            assert(self.key().drop_first() =~= seq![self.1 as int]);
            assert(other.key().drop_first() =~= seq![other.1 as int]);
            assert(seq![self.1 as int].drop_first() =~= Seq::<int>::empty());
            assert(seq![other.1 as int].drop_first() =~= Seq::<int>::empty());
        }
        self.0 < other.0 || (self.0 == other.0 && self.1 < other.1)
    }

    fn key_equal(&self, other: &Self) -> (r: bool) {
        proof {
            if self.key() == other.key() {
                assert(self.key()[0] == other.key()[0]);
                assert(self.key()[1] == other.key()[1]);
            }
        }
        self.0 == other.0 && self.1 == other.1
    }
}

/// The node pairs of edge keys: source and destination node.
pub open spec fn key_pairs(ks: Seq<Seq<int>>) -> Seq<(usize, usize)> {
    Seq::new(ks.len(), |i: int| (ks[i][0] as usize, ks[i][2] as usize))
}

/// The port number of `port`: its first `lv2:index` read as a `u8`, and 0
/// where it has none or that index is not a `u8`.
pub open spec fn port_number(ts: Seq<Triple>, port: Seq<u8>) -> u8 {
    match first_match(ts, port, LV2_INDEX.spec_bytes()) {
        None => 0,
        Some(i) => match parse_u8_spec(ts[i].object@) {
            None => 0,
            Some(n) => n,
        },
    }
}

/// For the first `n` connections, each that joins two distinct blocks as
/// its source block, the port number of its tail, its destination block and
/// the port number of its head.
pub open spec fn edge_candidates(
    ts: Seq<Triple>,
    bs: Seq<BlockView>,
    arcs: Seq<(Seq<u8>, Seq<u8>)>,
    n: int,
) -> Seq<Seq<int>>
    decreases n,
{
    if n <= 0 {
        Seq::empty()
    } else {
        let prev = edge_candidates(ts, bs, arcs, n - 1);
        match (find_block(bs, arcs[n - 1].0), find_block(bs, arcs[n - 1].1)) {
            (Some(s), Some(d)) => if s != d {
                prev.push(
                    seq![s, port_number(ts, arcs[n - 1].0) as int, d, port_number(ts, arcs[n - 1].1) as int],
                )
            } else {
                prev
            },
            _ => prev,
        }
    }
}

/// The edges between blocks, sorted, each once.
pub open spec fn block_edges(ts: Seq<Triple>, bs: Seq<BlockView>, arcs: Seq<(Seq<u8>, Seq<u8>)>) -> Seq<
    Seq<int>,
> {
    sorted_set(key_set(edge_candidates(ts, bs, arcs, arcs.len() as int)))
}

/// The edges with each block replaced by its position.
pub open spec fn renumbered(edges: Seq<Seq<int>>, rank: Seq<usize>) -> Seq<Seq<int>> {
    Seq::new(
        edges.len(),
        |i: int| seq![rank[edges[i][0]] as int, edges[i][1], rank[edges[i][2]] as int, edges[i][3]],
    )
}

// ---------------------------------------------------------------------------
// The compiled graph.

pub open spec fn u16_bytes(n: int) -> Seq<u8> {
    le_bytes_u16((n % 65536) as u16)
}

pub open spec fn graph_header(nodes: int, edges: int) -> Seq<u8> {
    graph_magic_seq() + le_bytes_u32(GRAPH_VERSION) + u16_bytes(nodes) + u16_bytes(edges)
}

/// A node record: the plugin URI's length, two reserved bytes, the URI.
pub open spec fn node_record(prototype: Seq<u8>) -> Seq<u8> {
    u16_bytes(prototype.len() as int) + seq![0u8, 0u8] + prototype
}

pub open spec fn node_records(bs: Seq<BlockView>, order: Seq<usize>, k: int) -> Seq<u8>
    decreases k,
{
    if k <= 0 {
        Seq::empty()
    } else {
        node_records(bs, order, k - 1) + node_record(bs[order[k - 1] as int].prototype)
    }
}

/// An edge record: source node, source port, a reserved byte, destination
/// node, destination port, a reserved byte.
pub open spec fn edge_record(e: Seq<int>) -> Seq<u8> {
    u16_bytes(e[0]) + seq![e[1] as u8, 0u8] + u16_bytes(e[2]) + seq![e[3] as u8, 0u8]
}

pub open spec fn edge_records(es: Seq<Seq<int>>, k: int) -> Seq<u8>
    decreases k,
{
    if k <= 0 {
        Seq::empty()
    } else {
        edge_records(es, k - 1) + edge_record(es[k - 1])
    }
}

pub open spec fn compiled_bytes(bs: Seq<BlockView>, order: Seq<usize>, edges: Seq<Seq<int>>) -> Seq<u8> {
    graph_header(bs.len() as int, edges.len() as int) + node_records(bs, order, bs.len() as int)
        + edge_records(edges, edges.len() as int)
}

/// The compiled graph of the statements `ts`, or why there is none.
pub open spec fn compile_spec(ts: Seq<Triple>) -> Result<Seq<u8>, IngenFault> {
    match blocks_upto(ts, ts.len() as int) {
        Err(e) => Err(e),
        Ok(bs) => if bs.len() == 0 {
            Err(IngenFault::NoBlocks)
        } else {
            let raw = block_edges(ts, bs, sorted_arcs(arcs_upto(ts, ts.len() as int)));
            match smallest_first_order(bs.len() as int, key_pairs(raw)) {
                None => Err(IngenFault::Cycle),
                Some(p) => Ok(compiled_bytes(bs, p.0, sorted_set(key_set(renumbered(raw, p.1))))),
            }
        },
    }
}

/// The blocks of a graph that compiles.
pub open spec fn compiled_blocks(ts: Seq<Triple>) -> Seq<BlockView> {
    match blocks_upto(ts, ts.len() as int) {
        Ok(bs) => bs,
        Err(_) => Seq::empty(),
    }
}

pub open spec fn compiled_raw_edges(ts: Seq<Triple>) -> Seq<Seq<int>> {
    block_edges(ts, compiled_blocks(ts), sorted_arcs(arcs_upto(ts, ts.len() as int)))
}

/// The node order of a graph that compiles, with each block's position.
pub open spec fn compiled_order(ts: Seq<Triple>) -> (Seq<usize>, Seq<usize>) {
    match smallest_first_order(compiled_blocks(ts).len() as int, key_pairs(compiled_raw_edges(ts))) {
        Some(p) => p,
        None => (Seq::empty(), Seq::empty()),
    }
}

/// The edges of a graph that compiles, between node positions.
pub open spec fn compiled_edges(ts: Seq<Triple>) -> Seq<Seq<int>> {
    sorted_set(key_set(renumbered(compiled_raw_edges(ts), compiled_order(ts).1)))
}

/// Every count and URI length of the compiled graph fits its 16-bit field.
pub open spec fn fits_graph_format(ts: Seq<Triple>) -> bool {
    &&& compiled_blocks(ts).len() < 65536
    &&& forall|i: int| 0 <= i < compiled_blocks(ts).len() ==> #[trigger] compiled_blocks(ts)[i].prototype.len() < 65536
    &&& compiled_edges(ts).len() < 65536
}

/// The port number of `port`.
fn port_number_exec(triples: &[Triple], port: &[u8]) -> (r: u8)
    ensures
        r == port_number(triples@, port@),
{
    match find_triple(triples, port, LV2_INDEX.as_bytes()) {
        None => 0,
        Some(i) => {
            proof {
                lemma_first_match_from(triples@, port@, LV2_INDEX.spec_bytes(), 0);
            }
            match parse_u8(triples[i].object.as_slice()) {
                None => 0,
                Some(n) => n,
            }
        },
    }
}

fn candidate_edges(triples: &[Triple], blocks: &Vec<Block>, arcs: &Vec<Connection>) -> (r: Vec<
    (usize, u8, usize, u8),
>)
    ensures
        edge_candidates(triples@, block_views(blocks@), connection_views(arcs@), arcs@.len() as int) == keys(r@),
        forall|i: int| 0 <= i < r@.len() ==> #[trigger] r@[i].0 < blocks@.len() && r@[i].2 < blocks@.len(),
{
    let ghost bs = block_views(blocks@);
    let ghost cs = connection_views(arcs@);
    let mut edges: Vec<(usize, u8, usize, u8)> = Vec::new();
    let mut i: usize = 0;
    assert(keys(edges@) =~= Seq::<Seq<int>>::empty());
    while i < arcs.len()
        invariant
            i <= arcs@.len(),
            bs == block_views(blocks@),
            cs == connection_views(arcs@),
            edge_candidates(triples@, bs, cs, i as int) == keys(edges@),
            forall|j: int| 0 <= j < edges@.len() ==> #[trigger] edges@[j].0 < blocks@.len() && edges@[j].2 < blocks@.len(),
        decreases arcs@.len() - i,
    {
        let source = find_block_index(blocks, arcs[i].tail.as_slice());
        let destination = find_block_index(blocks, arcs[i].head.as_slice());
        proof {
            lemma_find_block_from(bs, cs[i as int].0, 0);
            lemma_find_block_from(bs, cs[i as int].1, 0);
        }
        let ghost before = edges@;
        match (source, destination) {
            (Some(s), Some(d)) => {
                if s != d {
                    let sp = port_number_exec(triples, arcs[i].tail.as_slice());
                    let dp = port_number_exec(triples, arcs[i].head.as_slice());
                    edges.push((s, sp, d, dp));
                    assert(edges@ == before.push((s, sp, d, dp)));
                    assert(keys(edges@) =~= keys(before).push(seq![s as int, sp as int, d as int, dp as int]));
                }
            },
            _ => {},
        }
        assert forall|j: int| 0 <= j < edges@.len() implies #[trigger] edges@[j].0 < blocks@.len()
            && edges@[j].2 < blocks@.len() by {
            if j < before.len() {
                assert(edges@[j] == before[j]);
            }
        }
        i = i + 1;
    }
    edges
}

/// The source and destination node of each edge.
fn node_pairs(edges: &Vec<(usize, u8, usize, u8)>) -> (r: Vec<(usize, usize)>)
    ensures
        r@ == key_pairs(keys(edges@)),
{
    let mut out: Vec<(usize, usize)> = Vec::new();
    let mut i: usize = 0;
    while i < edges.len()
        invariant
            i <= edges@.len(),
            out@ == key_pairs(keys(edges@)).subrange(0, i as int),
        decreases edges@.len() - i,
    {
        out.push((edges[i].0, edges[i].2));
        i = i + 1;
        assert(out@ =~= key_pairs(keys(edges@)).subrange(0, i as int));
    }
    assert(key_pairs(keys(edges@)).subrange(0, edges@.len() as int) =~= key_pairs(keys(edges@)));
    out
}

/// Edges listed with each block replaced by its position.
fn renumber(edges: &Vec<(usize, u8, usize, u8)>, rank: &Vec<usize>) -> (r: Vec<(usize, u8, usize, u8)>)
    requires
        forall|i: int| 0 <= i < edges@.len() ==> #[trigger] edges@[i].0 < rank@.len() && edges@[i].2 < rank@.len(),
    ensures
        keys(r@) == renumbered(keys(edges@), rank@),
{
    let mut out: Vec<(usize, u8, usize, u8)> = Vec::new();
    let mut i: usize = 0;
    while i < edges.len()
        invariant
            i <= edges@.len(),
            forall|j: int| 0 <= j < edges@.len() ==> #[trigger] edges@[j].0 < rank@.len() && edges@[j].2 < rank@.len(),
            keys(out@) == renumbered(keys(edges@).subrange(0, i as int), rank@),
        decreases edges@.len() - i,
    {
        let (s, sp, d, dp) = edges[i];
        let ghost prev = keys(out@);
        out.push((rank[s], sp, rank[d], dp));
        proof {
            let ks = keys(edges@).subrange(0, i + 1);
            let item = seq![rank@[s as int] as int, sp as int, rank@[d as int] as int, dp as int];
            assert(ks[i as int] == seq![s as int, sp as int, d as int, dp as int]);
            assert(keys(out@) =~= prev.push(item));
            assert(renumbered(ks, rank@) =~= renumbered(keys(edges@).subrange(0, i as int), rank@).push(item));
        }
        i = i + 1;
        assert(keys(out@) =~= renumbered(keys(edges@).subrange(0, i as int), rank@));
    }
    assert(keys(edges@).subrange(0, edges@.len() as int) =~= keys(edges@));
    out
}

fn push_u16_truncated(out: &mut Vec<u8>, n: usize)
    ensures
        final(out)@ == old(out)@ + u16_bytes(n as int),
{
    push_u16(out, (n % 65536) as u16);
}

/// Writes the compiled graph: header, the nodes in `order`, the edges.
pub(crate) fn write_graph(blocks: &Vec<Block>, order: &Vec<usize>, edges: &Vec<(usize, u8, usize, u8)>) -> (r: Vec<u8>)
    requires
        order@.len() == blocks@.len(),
        forall|i: int| 0 <= i < order@.len() ==> #[trigger] order@[i] < blocks@.len(),
    ensures
        r@ == compiled_bytes(block_views(blocks@), order@, keys(edges@)),
{
    let ghost bs = block_views(blocks@);
    let mut out: Vec<u8> = Vec::new();
    proof {
        lemma_magic_seq();
    }
    append_bytes(&mut out, &GRAPH_MAGIC);
    push_u32(&mut out, GRAPH_VERSION);
    push_u16_truncated(&mut out, blocks.len());
    push_u16_truncated(&mut out, edges.len());
    let ghost header = out@;
    assert(header =~= graph_header(bs.len() as int, keys(edges@).len() as int));
    let mut k: usize = 0;
    while k < order.len()
        invariant
            k <= order@.len(),
            order@.len() == blocks@.len(),
            bs == block_views(blocks@),
            forall|i: int| 0 <= i < order@.len() ==> #[trigger] order@[i] < blocks@.len(),
            out@ == header + node_records(bs, order@, k as int),
        decreases order@.len() - k,
    {
        let block = &blocks[order[k]];
        push_u16_truncated(&mut out, block.prototype.len());
        out.push(0u8);
        out.push(0u8);
        append_bytes(&mut out, block.prototype.as_slice());
        k = k + 1;
        assert(out@ =~= header + node_records(bs, order@, k as int));
    }
    let ghost with_nodes = out@;
    let mut j: usize = 0;
    while j < edges.len()
        invariant
            j <= edges@.len(),
            out@ == with_nodes + edge_records(keys(edges@), j as int),
        decreases edges@.len() - j,
    {
        let (s, sp, d, dp) = edges[j];
        push_u16_truncated(&mut out, s);
        out.push(sp);
        out.push(0u8);
        push_u16_truncated(&mut out, d);
        out.push(dp);
        out.push(0u8);
        j = j + 1;
        assert(out@ =~= with_nodes + edge_records(keys(edges@), j as int));
    }
    out
}

/// Renumbered edges between ranked nodes run forward and stay in range.
proof fn lemma_edges_run_forward(
    n: int,
    raw: Seq<(usize, u8, usize, u8)>,
    rank: Seq<usize>,
    moved: Seq<Seq<int>>,
    es: Seq<Seq<int>>,
)
    requires
        rank.len() == n,
        forall|v: int| 0 <= v < n ==> #[trigger] rank[v] < n,
        forall|e: int| 0 <= e < raw.len() ==> #[trigger] raw[e].0 < n && raw[e].2 < n,
        respects_edges(key_pairs(keys(raw)), rank),
        moved == renumbered(keys(raw), rank),
        key_set(es) == key_set(moved),
    ensures
        forall|j: int|
            0 <= j < es.len() ==> (#[trigger] es[j]).len() == 4 && 0 <= es[j][0] < es[j][2] < n && 0 <= es[j][1]
                < 256 && 0 <= es[j][3] < 256,
{
    assert forall|j: int| 0 <= j < es.len() implies (#[trigger] es[j]).len() == 4 && 0 <= es[j][0] < es[j][2] < n
        && 0 <= es[j][1] < 256 && 0 <= es[j][3] < 256 by {
        assert(es.contains(es[j]));
        assert(key_set(es).contains(es[j]));
        assert(moved.contains(es[j]));
        let c = choose|c: int| 0 <= c < moved.len() && moved[c] == es[j];
        assert(raw[c].0 < n && raw[c].2 < n);
        assert(keys(raw)[c] == seq![raw[c].0 as int, raw[c].1 as int, raw[c].2 as int, raw[c].3 as int]);
        let pr = key_pairs(keys(raw));
        assert(pr[c].0 == raw[c].0 && pr[c].1 == raw[c].2);
        assert(rank[pr[c].0 as int] < rank[pr[c].1 as int]);
        assert(rank[raw[c].0 as int] < rank[raw[c].2 as int]);
    }
}

/// Compiles the statements of an Ingen graph. Blocks become nodes, in the
/// order in which they were first declared, connections between two blocks
/// become edges that carry the `lv2:index` of their tail and head ports (0
/// for a port without one that fits a byte); the nodes are then ordered so
/// that every edge runs from an earlier node to a later one, taking at each
/// step the smallest-numbered block whose sources are placed.
pub fn compile(triples: &[Triple]) -> (r: Result<Vec<u8>, IngenError>)
    ensures
        match r {
            Ok(bytes) => compile_spec(triples@) == Ok::<Seq<u8>, IngenFault>(bytes@),
            Err(e) => compile_spec(triples@) == Err::<Seq<u8>, IngenFault>(e@),
        },
        r matches Ok(bytes) ==> fits_graph_format(triples@) ==> {
            let s = bytes@;
            let bs = compiled_blocks(triples@);
            &&& graph_ok(s)
            &&& graph_node_count(s) == bs.len()
            &&& forall|i: int| 0 <= i < bs.len() ==> #[trigger] graph_node_spec(s, i) == bs[compiled_order(triples@).0[i] as int].prototype
            &&& forall|j: int| 0 <= j < graph_edge_count(s) ==> #[trigger] graph_edge_spec(s, j).0 < graph_edge_spec(s, j).2
        },
{
    let blocks = match collect_blocks(triples) {
        Ok(blocks) => blocks,
        Err(e) => return Err(e),
    };
    let ghost bs = block_views(blocks@);
    if blocks.len() == 0 {
        return Err(IngenError::NoBlocks);
    }
    let collected = collect_arcs(triples);
    let ghost collected_views = connection_views(collected@);
    let arcs = sort_unique(collected);
    proof {
        lemma_sorted_connections(collected@, arcs@);
    }
    let candidates = candidate_edges(triples, &blocks, &arcs);
    let raw = sort_unique(candidates);
    let ghost raw_keys = keys(raw@);
    proof {
        assert(block_edges(triples@, bs, sorted_arcs(collected_views)) == raw_keys);
        assert forall|e: int| 0 <= e < raw@.len() implies #[trigger] raw@[e].0 < blocks@.len() && raw@[e].2
            < blocks@.len() by {
            assert(key_set(keys(raw@)).contains(raw_keys[e]));
            assert(keys(raw@).contains(raw_keys[e]));
            assert(key_set(keys(candidates@)).contains(raw_keys[e]));
            let c = choose|c: int| 0 <= c < keys(candidates@).len() && keys(candidates@)[c] == raw_keys[e];
            assert(candidates@[c].0 < blocks@.len());
            assert(keys(candidates@)[c] == seq![candidates@[c].0 as int, candidates@[c].1 as int, candidates@[c].2 as int, candidates@[c].3 as int]);
        }
    }
    let pairs = node_pairs(&raw);
    proof {
        assert forall|e: int| 0 <= e < pairs@.len() implies #[trigger] pairs@[e].0 < blocks@.len() && pairs@[e].1
            < blocks@.len() by {
            assert(keys(raw@)[e] == seq![raw@[e].0 as int, raw@[e].1 as int, raw@[e].2 as int, raw@[e].3 as int]);
        }
        assert(edges_within(blocks@.len() as int, pairs@));
    }
    let (order, rank) = match topological_order(blocks.len(), pairs.as_slice()) {
        Some(pair) => pair,
        None => {
            proof {
                lemma_topological_order_is_spec(blocks@.len() as int, pairs@, None);
            }
            return Err(IngenError::Cycle);
        },
    };
    proof {
        lemma_topological_order_is_spec(blocks@.len() as int, pairs@, Some((order@, rank@)));
    }
    let renumbered_edges = renumber(&raw, &rank);
    let edges = sort_unique(renumbered_edges);
    let bytes = write_graph(&blocks, &order, &edges);
    proof {
        if fits_graph_format(triples@) {
            lemma_edges_run_forward(blocks@.len() as int, raw@, rank@, keys(renumbered_edges@), keys(edges@));
            lemma_compiled_bytes_read_back(bs, order@, keys(edges@));
        }
    }
    Ok(bytes)
}

// ---------------------------------------------------------------------------
// Reading a compiled graph back.

proof fn lemma_node_records_prefix(bs: Seq<BlockView>, order: Seq<usize>, k: int, n: int)
    requires
        0 <= k <= n,
    ensures
        node_records(bs, order, k).len() <= node_records(bs, order, n).len(),
        node_records(bs, order, n).subrange(0, node_records(bs, order, k).len() as int)
            == node_records(bs, order, k),
    decreases n - k,
{
    if k < n {
        lemma_node_records_prefix(bs, order, k, n - 1);
        let a = node_records(bs, order, k);
        let b = node_records(bs, order, n - 1);
        assert(node_records(bs, order, n).subrange(0, a.len() as int) =~= b.subrange(0, a.len() as int));
    } else {
        assert(node_records(bs, order, n).subrange(0, node_records(bs, order, n).len() as int)
            =~= node_records(bs, order, n));
    }
}

proof fn lemma_edge_records_prefix(es: Seq<Seq<int>>, k: int, n: int)
    requires
        0 <= k <= n,
    ensures
        edge_records(es, k).len() == 8 * k,
        edge_records(es, n).len() == 8 * n,
        edge_records(es, n).subrange(0, 8 * k) == edge_records(es, k),
    decreases n - k,
{
    if k < n {
        lemma_edge_records_prefix(es, k, n - 1);
        assert(edge_records(es, n).subrange(0, 8 * k) =~= edge_records(es, n - 1).subrange(0, 8 * k));
    } else {
        lemma_edge_records_len(es, n);
        assert(edge_records(es, n).subrange(0, 8 * n) =~= edge_records(es, n));
    }
}

proof fn lemma_edge_records_len(es: Seq<Seq<int>>, n: int)
    requires
        0 <= n,
    ensures
        edge_records(es, n).len() == 8 * n,
    decreases n,
{
    if n > 0 {
        lemma_edge_records_len(es, n - 1);
    }
}

/// Walking the node records of compiled bytes finds each record in turn.
proof fn lemma_walk_nodes(bs: Seq<BlockView>, order: Seq<usize>, edges: Seq<Seq<int>>, k: int)
    requires
        0 <= k <= bs.len(),
        order.len() == bs.len(),
        forall|i: int| 0 <= i < order.len() ==> #[trigger] order[i] < bs.len(),
        forall|i: int| 0 <= i < bs.len() ==> #[trigger] bs[i].prototype.len() < 65536,
    ensures
        graph_nodes_end(compiled_bytes(bs, order, edges), 16, k as nat) == Some(
            16 + node_records(bs, order, k).len() as int,
        ),
    decreases k,
{
    if k > 0 {
        let s = compiled_bytes(bs, order, edges);
        let n = bs.len() as int;
        lemma_walk_nodes(bs, order, edges, k - 1);
        lemma_node_records_prefix(bs, order, k, n);
        lemma_node_records_prefix(bs, order, k - 1, n);
        let p: int = 16 + node_records(bs, order, k - 1).len() as int;
        let proto = bs[order[k - 1] as int].prototype;
        let rec = node_record(proto);
        let all = node_records(bs, order, n);
        let h = graph_header(n, edges.len() as int);
        assert(h.len() == 16);
        assert(s =~= h + all + edge_records(edges, edges.len() as int));
        assert(all.subrange(0, node_records(bs, order, k).len() as int) == node_records(bs, order, k - 1) + rec);
        assert(s.subrange(p, p + 2) =~= rec.subrange(0, 2)) by {
            assert forall|i: int| 0 <= i < 2 implies s.subrange(p, p + 2)[i] == rec.subrange(0, 2)[i] by {
                assert(s[p + i] == all[p - 16 + i]);
                assert(all[p - 16 + i] == all.subrange(0, node_records(bs, order, k).len() as int)[p - 16 + i]);
            }
        }
        assert(rec.subrange(0, 2) =~= u16_bytes(proto.len() as int));
        assert((proto.len() % 65536) as u16 == proto.len());
        lemma_le_u16_roundtrip(s, p, proto.len() as u16);
    }
}

/// The compiled bytes are a well-formed graph whose nodes and edges are the
/// ones written, when every count and length fits in 16 bits.
pub proof fn lemma_compiled_bytes_read_back(bs: Seq<BlockView>, order: Seq<usize>, edges: Seq<Seq<int>>)
    requires
        order.len() == bs.len(),
        bs.len() < 65536,
        edges.len() < 65536,
        forall|i: int| 0 <= i < order.len() ==> #[trigger] order[i] < bs.len(),
        forall|i: int| 0 <= i < bs.len() ==> #[trigger] bs[i].prototype.len() < 65536,
        forall|j: int|
            0 <= j < edges.len() ==> (#[trigger] edges[j]).len() == 4 && 0 <= edges[j][0] < 65536 && 0
                <= edges[j][1] < 256 && 0 <= edges[j][2] < 65536 && 0 <= edges[j][3] < 256,
    ensures
        ({
            let s = compiled_bytes(bs, order, edges);
            &&& graph_ok(s)
            &&& graph_node_count(s) == bs.len()
            &&& graph_edge_count(s) == edges.len()
            &&& forall|i: int| 0 <= i < bs.len() ==> #[trigger] graph_node_spec(s, i) == bs[order[i] as int].prototype
            &&& forall|j: int| 0 <= j < edges.len() ==> #[trigger] graph_edge_spec(s, j) == (edges[j][0], edges[j][1], edges[j][2], edges[j][3])
        }),
{
    let s = compiled_bytes(bs, order, edges);
    let n = bs.len() as int;
    let m = edges.len() as int;
    let h = graph_header(n, m);
    let all = node_records(bs, order, n);
    let es = edge_records(edges, m);
    assert(s =~= h + all + es);
    lemma_magic_seq();
    assert(s.subrange(0, 8) =~= graph_magic_seq());
    assert(s.subrange(8, 12) =~= le_bytes_u32(GRAPH_VERSION));
    lemma_le_u32_roundtrip(s, 8, GRAPH_VERSION);
    assert(s.subrange(12, 14) =~= le_bytes_u16(n as u16));
    lemma_le_u16_roundtrip(s, 12, n as u16);
    assert(s.subrange(14, 16) =~= le_bytes_u16(m as u16));
    lemma_le_u16_roundtrip(s, 14, m as u16);
    lemma_walk_nodes(bs, order, edges, n);
    lemma_edge_records_len(edges, m);
    assert(graph_ok(s));
    assert forall|i: int| 0 <= i < n implies #[trigger] graph_node_spec(s, i) == bs[order[i] as int].prototype by {
        lemma_node_read_back(bs, order, edges, i);
    }
    assert forall|j: int| 0 <= j < m implies #[trigger] graph_edge_spec(s, j) == (edges[j][0], edges[j][1], edges[j][2], edges[j][3]) by {
        lemma_edge_read_back(bs, order, edges, j);
    }
}

proof fn lemma_node_read_back(bs: Seq<BlockView>, order: Seq<usize>, edges: Seq<Seq<int>>, i: int)
    requires
        order.len() == bs.len(),
        0 <= i < bs.len(),
        forall|k: int| 0 <= k < order.len() ==> #[trigger] order[k] < bs.len(),
        forall|k: int| 0 <= k < bs.len() ==> #[trigger] bs[k].prototype.len() < 65536,
    ensures
        graph_node_spec(compiled_bytes(bs, order, edges), i) == bs[order[i] as int].prototype,
{
    let s = compiled_bytes(bs, order, edges);
    let n = bs.len() as int;
    let all = node_records(bs, order, n);
    assert(s =~= graph_header(n, edges.len() as int) + all + edge_records(edges, edges.len() as int));
    lemma_walk_nodes(bs, order, edges, i);
    lemma_walk_nodes(bs, order, edges, i + 1);
    lemma_node_records_prefix(bs, order, i + 1, n);
    let p: int = 16 + node_records(bs, order, i).len() as int;
    let proto = bs[order[i] as int].prototype;
    assert(le_u16(s, p) == proto.len());
    let upto = node_records(bs, order, i + 1);
    assert(upto =~= node_records(bs, order, i) + node_record(proto));
    assert forall|q: int| 0 <= q < proto.len() implies s[p + 4 + q] == proto[q] by {
        assert(s[p + 4 + q] == all[p - 16 + 4 + q]);
        assert(all[p - 16 + 4 + q] == all.subrange(0, upto.len() as int)[p - 16 + 4 + q]);
    }
    assert(s.subrange(p + 4, p + 4 + le_u16(s, p)) =~= proto);
}

proof fn lemma_edge_read_back(bs: Seq<BlockView>, order: Seq<usize>, edges: Seq<Seq<int>>, j: int)
    requires
        order.len() == bs.len(),
        bs.len() < 65536,
        0 <= j < edges.len(),
        forall|k: int| 0 <= k < order.len() ==> #[trigger] order[k] < bs.len(),
        forall|k: int| 0 <= k < bs.len() ==> #[trigger] bs[k].prototype.len() < 65536,
        edges[j].len() == 4 && 0 <= edges[j][0] < 65536 && 0 <= edges[j][1] < 256 && 0 <= edges[j][2] < 65536
            && 0 <= edges[j][3] < 256,
    ensures
        graph_edge_spec(compiled_bytes(bs, order, edges), j) == (edges[j][0], edges[j][1], edges[j][2], edges[j][3]),
{
    let s = compiled_bytes(bs, order, edges);
    let n = bs.len() as int;
    let m = edges.len() as int;
    let all = node_records(bs, order, n);
    let es = edge_records(edges, m);
    assert(s =~= graph_header(n, m) + all + es);
    lemma_magic_seq();
    assert(s.subrange(12, 14) =~= le_bytes_u16(n as u16));
    lemma_le_u16_roundtrip(s, 12, n as u16);
    lemma_walk_nodes(bs, order, edges, n);
    lemma_edge_records_prefix(edges, j + 1, m);
    lemma_edge_records_len(edges, j);
    let o: int = 16 + all.len() + 8 * j;
    assert(graph_edges_start(s) == 16 + all.len());
    let e = edges[j];
    let rec = edge_record(e);
    assert(es.subrange(0, 8 * (j + 1)) == edge_records(edges, j) + rec);
    assert forall|q: int| 0 <= q < 8 implies s[o + q] == rec[q] by {
        assert(s[o + q] == es[8 * j + q]);
        assert(es[8 * j + q] == es.subrange(0, 8 * (j + 1))[8 * j + q]);
    }
    assert((e[0] % 65536) as u16 == e[0] as u16);
    assert((e[2] % 65536) as u16 == e[2] as u16);
    assert(u16_bytes(e[0]) == le_bytes_u16(e[0] as u16));
    assert(u16_bytes(e[2]) == le_bytes_u16(e[2] as u16));
    assert(rec.subrange(0, 2) =~= u16_bytes(e[0]));
    assert(rec.subrange(4, 6) =~= u16_bytes(e[2]));
    assert(s.subrange(o, o + 2) =~= rec.subrange(0, 2));
    assert(s.subrange(o + 4, o + 6) =~= rec.subrange(4, 6));
    assert(s.subrange(o, o + 2) =~= le_bytes_u16(e[0] as u16));
    lemma_le_u16_roundtrip(s, o, e[0] as u16);
    assert(s.subrange(o + 4, o + 6) =~= le_bytes_u16(e[2] as u16));
    lemma_le_u16_roundtrip(s, o + 4, e[2] as u16);
    assert(rec[2] == e[1] as u8 && rec[6] == e[3] as u8);
    assert((e[1] as u8) as int == e[1] && (e[3] as u8) as int == e[3]);
    assert(s[o + 2] == rec[2]);
    assert(s[o + 6] == rec[6]);
    assert(graph_edge_spec(s, j) == (le_u16(s, o), s[o + 2] as int, le_u16(s, o + 4), s[o + 6] as int));
}

// ---------------------------------------------------------------------------
// Finding the graph document of a bundle.

/// The statement declares its subject an Ingen graph.
pub open spec fn declares_graph(t: Triple) -> bool {
    ||| t.predicate@ == RDF_TYPE.spec_bytes() && (t.object@ == INGEN_GRAPH.spec_bytes() || t.object@
        == INGEN_GRAPH_PROTOTYPE.spec_bytes())
    ||| t.predicate@ == LV2_PROTOTYPE.spec_bytes() && t.object@ == INGEN_GRAPH_PROTOTYPE.spec_bytes()
}

/// The first statement at or after `i` that declares an Ingen graph.
pub open spec fn first_graph_from(ts: Seq<Triple>, i: int) -> Option<int>
    decreases ts.len() - i,
{
    if i < 0 || i >= ts.len() {
        None
    } else if declares_graph(ts[i]) {
        Some(i)
    } else {
        first_graph_from(ts, i + 1)
    }
}

/// The first statement at or after `i` with `rdfs:seeAlso`.
pub open spec fn first_see_also_from(ts: Seq<Triple>, i: int) -> Option<int>
    decreases ts.len() - i,
{
    if i < 0 || i >= ts.len() {
        None
    } else if ts[i].predicate@ == RDFS_SEE_ALSO.spec_bytes() {
        Some(i)
    } else {
        first_see_also_from(ts, i + 1)
    }
}

/// Where a bundle manifest says its graph is: the `rdfs:seeAlso` of the
/// first graph it declares, or that graph's own IRI; failing a declaration,
/// the object of its first `rdfs:seeAlso`.
pub open spec fn manifest_graph_spec(ts: Seq<Triple>) -> Option<Seq<u8>> {
    match first_graph_from(ts, 0) {
        Some(i) => match object_of(ts, ts[i].subject@, RDFS_SEE_ALSO.spec_bytes()) {
            Some(o) => Some(o),
            None => Some(ts[i].subject@),
        },
        None => match first_see_also_from(ts, 0) {
            Some(i) => Some(ts[i].object@),
            None => None,
        },
    }
}

fn declares_graph_exec(t: &Triple) -> (r: bool)
    ensures
        r == declares_graph(*t),
{
    let p = t.predicate.as_slice();
    let o = t.object.as_slice();
    (bytes_equal(p, RDF_TYPE.as_bytes()) && (bytes_equal(o, INGEN_GRAPH.as_bytes()) || bytes_equal(
        o,
        INGEN_GRAPH_PROTOTYPE.as_bytes(),
    ))) || (bytes_equal(p, LV2_PROTOTYPE.as_bytes()) && bytes_equal(o, INGEN_GRAPH_PROTOTYPE.as_bytes()))
}

/// The IRI of the graph document that a bundle manifest names, or `None`
/// when it names none.
pub fn manifest_graph(triples: &[Triple]) -> (r: Option<&[u8]>)
    ensures
        match r {
            Some(uri) => manifest_graph_spec(triples@) == Some(uri@),
            None => manifest_graph_spec(triples@) is None,
        },
{
    let mut i: usize = 0;
    while i < triples.len()
        invariant
            i <= triples@.len(),
            first_graph_from(triples@, 0) == first_graph_from(triples@, i as int),
        decreases triples@.len() - i,
    {
        if declares_graph_exec(&triples[i]) {
            return match object_for(triples, triples[i].subject.as_slice(), RDFS_SEE_ALSO.as_bytes()) {
                Some(o) => Some(o),
                None => Some(triples[i].subject.as_slice()),
            };
        }
        i = i + 1;
    }
    let mut j: usize = 0;
    while j < triples.len()
        invariant
            j <= triples@.len(),
            first_graph_from(triples@, 0) is None,
            first_see_also_from(triples@, 0) == first_see_also_from(triples@, j as int),
        decreases triples@.len() - j,
    {
        if bytes_equal(triples[j].predicate.as_slice(), RDFS_SEE_ALSO.as_bytes()) {
            return Some(triples[j].object.as_slice());
        }
        j = j + 1;
    }
    None
}

} // verus!
