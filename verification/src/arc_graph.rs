//! The graph reader of the bundle packer: the plugin blocks of an Ingen
//! document and its `ingen:Arc` connections, read with rio_turtle and
//! written, in document order, as a graph of format version 1.

use vstd::prelude::*;
use vstd::string::StringSliceAdditionalSpecFns;
use rio_api::model::{Subject, Term};
use rio_api::parser::TriplesParser;
use rio_turtle::{TurtleError, TurtleParser};
use crate::bundle::{bytes_equal, graph_edge_count, graph_edge_spec, graph_node_count, graph_node_spec, graph_ok};
use crate::ingen::{
    blank_prefix, block_views, compiled_bytes, declares_block, lemma_compiled_bytes_read_back, write_graph, Block, BlockView,
    INGEN_BLOCK, INGEN_HEAD, INGEN_TAIL, LV2_PROTOTYPE,
};
use crate::manifest::file_scheme;
use crate::order::keys;
use crate::pack::append_bytes;
use crate::rdf::{
    has_prefix, object_for, object_of, raw_keys, raw_views, starts_with, triple_parts, triples_from_raw,
    RawTriple, RdfNode, RdfNodeView, RdfTerm, RdfTermView, Triple, RDF_TYPE,
};

verus! {

pub const INGEN_ARC: &'static str = "http://drobilla.net/ns/ingen#Arc";

/// Why an Ingen document gives no graph.
pub enum ArcGraphError {
    /// The file IRI of the document's path was refused as a base IRI.
    BaseIri,
    /// The document is not valid Turtle; the parser's description.
    Syntax(Vec<u8>),
    /// A block is a blank node.
    BlankBlock,
    /// The block with this subject names no plugin.
    MissingPrototype(Vec<u8>),
    /// The document holds no plugin block.
    NoBlocks,
    /// An arc has no `ingen:tail`.
    MissingTail,
    /// An arc has no `ingen:head`.
    MissingHead,
    /// This port of an arc belongs to no block.
    PortWithoutBlock(Vec<u8>),
}

pub enum ArcGraphFault {
    BaseIri,
    Syntax(Seq<u8>),
    BlankBlock,
    MissingPrototype(Seq<u8>),
    NoBlocks,
    MissingTail,
    MissingHead,
    PortWithoutBlock(Seq<u8>),
}

impl View for ArcGraphError {
    type V = ArcGraphFault;

    open spec fn view(&self) -> ArcGraphFault {
        match self {
            ArcGraphError::BaseIri => ArcGraphFault::BaseIri,
            ArcGraphError::Syntax(m) => ArcGraphFault::Syntax(m@),
            ArcGraphError::BlankBlock => ArcGraphFault::BlankBlock,
            ArcGraphError::MissingPrototype(s) => ArcGraphFault::MissingPrototype(s@),
            ArcGraphError::NoBlocks => ArcGraphFault::NoBlocks,
            ArcGraphError::MissingTail => ArcGraphFault::MissingTail,
            ArcGraphError::MissingHead => ArcGraphFault::MissingHead,
            ArcGraphError::PortWithoutBlock(p) => ArcGraphFault::PortWithoutBlock(p@),
        }
    }
}

// ---------------------------------------------------------------------------
// Nodes.

/// The nodes declared among the first `n` statements: one for every
/// statement that declares a block, in order, with the block's first
/// `lv2:prototype`.
pub open spec fn arc_nodes_upto(ts: Seq<Triple>, n: int) -> Result<Seq<BlockView>, ArcGraphFault>
    decreases n,
{
    if n <= 0 {
        Ok(Seq::empty())
    } else {
        match arc_nodes_upto(ts, n - 1) {
            Err(e) => Err(e),
            Ok(ns) => {
                let t = ts[n - 1];
                if !declares_block(t) {
                    Ok(ns)
                } else if has_prefix(t.subject@, blank_prefix()) {
                    Err(ArcGraphFault::BlankBlock)
                } else {
                    match object_of(ts, t.subject@, LV2_PROTOTYPE.spec_bytes()) {
                        None => Err(ArcGraphFault::MissingPrototype(t.subject@)),
                        Some(p) => Ok(
                            ns.push(BlockView { subject: t.subject@, prototype: p, ports: Seq::empty() }),
                        ),
                    }
                }
            },
        }
    }
}

proof fn lemma_nodes_error_stays(ts: Seq<Triple>, k: int, n: int)
    requires
        0 <= k <= n,
        arc_nodes_upto(ts, k) is Err,
    ensures
        arc_nodes_upto(ts, n) == arc_nodes_upto(ts, k),
    decreases n - k,
{
    if n > k {
        lemma_nodes_error_stays(ts, k, n - 1);
    }
}

/// The nodes of an Ingen document, one per block declaration.
pub fn collect_nodes(triples: &[Triple]) -> (r: Result<Vec<Block>, ArcGraphError>)
    ensures
        match r {
            Ok(ns) => arc_nodes_upto(triples@, triples@.len() as int) == Ok::<
                Seq<BlockView>,
                ArcGraphFault,
            >(block_views(ns@)),
            Err(e) => arc_nodes_upto(triples@, triples@.len() as int) == Err::<
                Seq<BlockView>,
                ArcGraphFault,
            >(e@),
        },
{
    let mut nodes: Vec<Block> = Vec::new();
    let mut i: usize = 0;
    assert(block_views(nodes@) =~= Seq::<BlockView>::empty());
    while i < triples.len()
        invariant
            i <= triples@.len(),
            arc_nodes_upto(triples@, i as int) == Ok::<Seq<BlockView>, ArcGraphFault>(
                block_views(nodes@),
            ),
        decreases triples@.len() - i,
    {
        let ghost before = block_views(nodes@);
        let t = &triples[i];
        if bytes_equal(t.predicate.as_slice(), RDF_TYPE.as_bytes()) && bytes_equal(
            t.object.as_slice(),
            INGEN_BLOCK.as_bytes(),
        ) {
            let blank: [u8; 2] = [95u8, 58u8];
            if starts_with(t.subject.as_slice(), &blank) {
                proof {
                    assert(blank@ =~= blank_prefix());
                    lemma_nodes_error_stays(triples@, i + 1, triples@.len() as int);
                }
                return Err(ArcGraphError::BlankBlock);
            }
            proof {
                assert(blank@ =~= blank_prefix());
            }
            let prototype = match object_for(triples, t.subject.as_slice(), LV2_PROTOTYPE.as_bytes()) {
                Some(p) => p,
                None => {
                    proof {
                        lemma_nodes_error_stays(triples@, i + 1, triples@.len() as int);
                    }
                    return Err(ArcGraphError::MissingPrototype(t.subject.clone()));
                },
            };
            let node = Block {
                subject: t.subject.clone(),
                prototype: vstd::slice::slice_to_vec(prototype),
                ports: Vec::new(),
            };
            nodes.push(node);
            assert(block_views(nodes@) =~= before.push(nodes@.last()@));
            assert(nodes@.last()@.ports =~= Seq::<Seq<u8>>::empty());
        }
        i = i + 1;
    }
    Ok(nodes)
}

// ---------------------------------------------------------------------------
// Arcs.

/// `port` is a port of the block `node`: the block's IRI, a `/`, and more.
pub open spec fn owns_port(node: Seq<u8>, port: Seq<u8>) -> bool {
    has_prefix(port, node) && port.len() > node.len() && port[node.len() as int] == 47
}

/// The first node at or after `i` that owns `port`.
pub open spec fn node_for_port_from(ns: Seq<BlockView>, port: Seq<u8>, i: int) -> Option<int>
    decreases ns.len() - i,
{
    if i < 0 || i >= ns.len() {
        None
    } else if owns_port(ns[i].subject, port) {
        Some(i)
    } else {
        node_for_port_from(ns, port, i + 1)
    }
}

proof fn lemma_node_for_port_from(ns: Seq<BlockView>, port: Seq<u8>, i: int)
    ensures
        match node_for_port_from(ns, port, i) {
            Some(k) => 0 <= i <= k < ns.len(),
            None => true,
        },
    decreases ns.len() - i,
{
    if 0 <= i < ns.len() && !owns_port(ns[i].subject, port) {
        lemma_node_for_port_from(ns, port, i + 1);
    }
}

/// The position of the first node that owns `port`.
pub fn node_for_port(nodes: &[Block], port: &[u8]) -> (r: Result<usize, ArcGraphError>)
    ensures
        match r {
            Ok(i) => node_for_port_from(block_views(nodes@), port@, 0) == Some(i as int),
            Err(e) => node_for_port_from(block_views(nodes@), port@, 0) is None
                && e@ == ArcGraphFault::PortWithoutBlock(port@),
        },
{
    let ghost ns = block_views(nodes@);
    let mut i: usize = 0;
    while i < nodes.len()
        invariant
            i <= nodes@.len(),
            ns == block_views(nodes@),
            node_for_port_from(ns, port@, 0) == node_for_port_from(ns, port@, i as int),
        decreases nodes@.len() - i,
    {
        let subject = nodes[i].subject.as_slice();
        if starts_with(port, subject) && port.len() > subject.len() && port[subject.len()] == 47 {
            return Ok(i);
        }
        i = i + 1;
    }
    Err(ArcGraphError::PortWithoutBlock(vstd::slice::slice_to_vec(port)))
}

/// The statement declares its subject an Ingen arc.
pub open spec fn declares_arc(t: Triple) -> bool {
    t.predicate@ == RDF_TYPE.spec_bytes() && t.object@ == INGEN_ARC.spec_bytes()
}

/// The edges of the arcs among the first `n` statements: for each, the node
/// that owns its tail and the node that owns its head, with port 0 on both.
pub open spec fn arc_edges_upto(ts: Seq<Triple>, ns: Seq<BlockView>, n: int) -> Result<
    Seq<Seq<int>>,
    ArcGraphFault,
>
    decreases n,
{
    if n <= 0 {
        Ok(Seq::empty())
    } else {
        match arc_edges_upto(ts, ns, n - 1) {
            Err(e) => Err(e),
            Ok(es) => {
                let t = ts[n - 1];
                if !declares_arc(t) {
                    Ok(es)
                } else {
                    match object_of(ts, t.subject@, INGEN_TAIL.spec_bytes()) {
                        None => Err(ArcGraphFault::MissingTail),
                        Some(tail) => match object_of(ts, t.subject@, INGEN_HEAD.spec_bytes()) {
                            None => Err(ArcGraphFault::MissingHead),
                            Some(head) => match node_for_port_from(ns, tail, 0) {
                                None => Err(ArcGraphFault::PortWithoutBlock(tail)),
                                Some(s) => match node_for_port_from(ns, head, 0) {
                                    None => Err(ArcGraphFault::PortWithoutBlock(head)),
                                    Some(d) => Ok(es.push(seq![s, 0, d, 0])),
                                },
                            },
                        },
                    }
                }
            },
        }
    }
}

proof fn lemma_edges_error_stays(ts: Seq<Triple>, ns: Seq<BlockView>, k: int, n: int)
    requires
        0 <= k <= n,
        arc_edges_upto(ts, ns, k) is Err,
    ensures
        arc_edges_upto(ts, ns, n) == arc_edges_upto(ts, ns, k),
    decreases n - k,
{
    if n > k {
        lemma_edges_error_stays(ts, ns, k, n - 1);
    }
}

/// The edges of the arcs of an Ingen document, in document order.
pub fn collect_edges(triples: &[Triple], nodes: &[Block]) -> (r: Result<Vec<(usize, u8, usize, u8)>, ArcGraphError>)
    ensures
        match r {
            Ok(es) => arc_edges_upto(triples@, block_views(nodes@), triples@.len() as int) == Ok::<
                Seq<Seq<int>>,
                ArcGraphFault,
            >(keys(es@)),
            Err(e) => arc_edges_upto(triples@, block_views(nodes@), triples@.len() as int) == Err::<
                Seq<Seq<int>>,
                ArcGraphFault,
            >(e@),
        },
{
    let ghost ns = block_views(nodes@);
    let mut edges: Vec<(usize, u8, usize, u8)> = Vec::new();
    let mut i: usize = 0;
    assert(keys(edges@) =~= Seq::<Seq<int>>::empty());
    while i < triples.len()
        invariant
            i <= triples@.len(),
            ns == block_views(nodes@),
            arc_edges_upto(triples@, ns, i as int) == Ok::<Seq<Seq<int>>, ArcGraphFault>(keys(edges@)),
        decreases triples@.len() - i,
    {
        let ghost before = keys(edges@);
        let t = &triples[i];
        if bytes_equal(t.predicate.as_slice(), RDF_TYPE.as_bytes()) && bytes_equal(
            t.object.as_slice(),
            INGEN_ARC.as_bytes(),
        ) {
            let arc = t.subject.as_slice();
            let tail = match object_for(triples, arc, INGEN_TAIL.as_bytes()) {
                Some(tail) => tail,
                None => {
                    proof {
                        lemma_edges_error_stays(triples@, ns, i + 1, triples@.len() as int);
                    }
                    return Err(ArcGraphError::MissingTail);
                },
            };
            let head = match object_for(triples, arc, INGEN_HEAD.as_bytes()) {
                Some(head) => head,
                None => {
                    proof {
                        lemma_edges_error_stays(triples@, ns, i + 1, triples@.len() as int);
                    }
                    return Err(ArcGraphError::MissingHead);
                },
            };
            let source = match node_for_port(nodes, tail) {
                Ok(s) => s,
                Err(e) => {
                    proof {
                        lemma_edges_error_stays(triples@, ns, i + 1, triples@.len() as int);
                    }
                    return Err(e);
                },
            };
            let destination = match node_for_port(nodes, head) {
                Ok(d) => d,
                Err(e) => {
                    proof {
                        lemma_edges_error_stays(triples@, ns, i + 1, triples@.len() as int);
                    }
                    return Err(e);
                },
            };
            edges.push((source, 0u8, destination, 0u8));
            assert(keys(edges@) =~= before.push(seq![source as int, 0, destination as int, 0]));
        }
        i = i + 1;
    }
    Ok(edges)
}

// ---------------------------------------------------------------------------
// The graph.

/// The node order of the packer's graph: the order of declaration.
pub open spec fn declaration_order(n: int) -> Seq<usize> {
    Seq::new(n as nat, |i: int| i as usize)
}

/// The graph that the statements `ts` of an Ingen document give, or why
/// there is none.
pub open spec fn arc_graph_spec(ts: Seq<Triple>) -> Result<Seq<u8>, ArcGraphFault> {
    match arc_nodes_upto(ts, ts.len() as int) {
        Err(e) => Err(e),
        Ok(ns) => if ns.len() == 0 {
            Err(ArcGraphFault::NoBlocks)
        } else {
            match arc_edges_upto(ts, ns, ts.len() as int) {
                Err(e) => Err(e),
                Ok(es) => Ok(compiled_bytes(ns, declaration_order(ns.len() as int), es)),
            }
        },
    }
}

/// Builds the graph of an Ingen document from its statements: a node for
/// each block declaration, an edge for each arc, both in document order.
pub fn arc_graph(triples: &[Triple]) -> (r: Result<Vec<u8>, ArcGraphError>)
    ensures
        match r {
            Ok(bytes) => arc_graph_spec(triples@) == Ok::<Seq<u8>, ArcGraphFault>(bytes@),
            Err(e) => arc_graph_spec(triples@) == Err::<Seq<u8>, ArcGraphFault>(e@),
        },
{
    let nodes = collect_nodes(triples)?;
    if nodes.len() == 0 {
        return Err(ArcGraphError::NoBlocks);
    }
    let edges = collect_edges(triples, nodes.as_slice())?;
    let mut order: Vec<usize> = Vec::new();
    let mut k: usize = 0;
    while k < nodes.len()
        invariant
            k <= nodes@.len(),
            order@ =~= declaration_order(k as int),
        decreases nodes@.len() - k,
    {
        order.push(k);
        k = k + 1;
    }
    Ok(write_graph(&nodes, &order, &edges))
}


/// The nodes of a document whose graph builds.
pub open spec fn arc_nodes(ts: Seq<Triple>) -> Seq<BlockView> {
    match arc_nodes_upto(ts, ts.len() as int) {
        Ok(ns) => ns,
        Err(_) => Seq::empty(),
    }
}

/// The edges of a document whose graph builds.
pub open spec fn arc_edges(ts: Seq<Triple>) -> Seq<Seq<int>> {
    match arc_edges_upto(ts, arc_nodes(ts), ts.len() as int) {
        Ok(es) => es,
        Err(_) => Seq::empty(),
    }
}

proof fn lemma_edges_in_range(ts: Seq<Triple>, ns: Seq<BlockView>, n: int)
    ensures
        match arc_edges_upto(ts, ns, n) {
            Ok(es) => forall|j: int|
                0 <= j < es.len() ==> (#[trigger] es[j]).len() == 4 && 0 <= es[j][0] < ns.len() && es[j][1] == 0
                    && 0 <= es[j][2] < ns.len() && es[j][3] == 0,
            Err(_) => true,
        },
    decreases n,
{
    if n > 0 {
        lemma_edges_in_range(ts, ns, n - 1);
        let t = ts[n - 1];
        match object_of(ts, t.subject@, INGEN_TAIL.spec_bytes()) {
            Some(tail) => match object_of(ts, t.subject@, INGEN_HEAD.spec_bytes()) {
                Some(head) => {
                    lemma_node_for_port_from(ns, tail, 0);
                    lemma_node_for_port_from(ns, head, 0);
                },
                None => {},
            },
            None => {},
        }
    }
}

/// A built graph reads back, where its counts and URI lengths fit their
/// 16-bit fields: the graph reader accepts it and finds each node's plugin
/// URI and each edge's two nodes, in document order.
pub proof fn lemma_arc_graph_reads_back(ts: Seq<Triple>)
    requires
        arc_graph_spec(ts) is Ok,
        arc_nodes(ts).len() < 65536,
        forall|i: int| 0 <= i < arc_nodes(ts).len() ==> #[trigger] arc_nodes(ts)[i].prototype.len() < 65536,
        arc_edges(ts).len() < 65536,
    ensures
        ({
            let s = arc_graph_spec(ts)->Ok_0;
            let ns = arc_nodes(ts);
            let es = arc_edges(ts);
            &&& graph_ok(s)
            &&& graph_node_count(s) == ns.len()
            &&& graph_edge_count(s) == es.len()
            &&& forall|i: int| 0 <= i < ns.len() ==> #[trigger] graph_node_spec(s, i) == ns[i].prototype
            &&& forall|j: int| 0 <= j < es.len() ==> #[trigger] graph_edge_spec(s, j) == (es[j][0], 0int, es[j][2], 0int)
        }),
{
    let ns = arc_nodes(ts);
    let es = arc_edges(ts);
    let order = declaration_order(ns.len() as int);
    lemma_edges_in_range(ts, ns, ts.len() as int);
    lemma_compiled_bytes_read_back(ns, order, es);
    let s = compiled_bytes(ns, order, es);
    assert forall|i: int| 0 <= i < ns.len() implies #[trigger] graph_node_spec(s, i) == ns[i].prototype by {
        assert(order[i] as int == i);
    }
}

// ---------------------------------------------------------------------------
// Reading the document.

#[verifier::external_type_specification]
#[verifier::external_body]
pub struct ExRioSubject<'a>(Subject<'a>);

#[verifier::external_type_specification]
#[verifier::external_body]
pub struct ExRioTerm<'a>(Term<'a>);

/// A rio subject as the library's subject: its IRI or its blank label as
/// bytes, or a quoted statement.
#[verifier::external_body]
fn rio_subject(subject: &Subject<'_>) -> RdfNode {
    match subject {
        Subject::NamedNode(n) => RdfNode::Named(n.iri.as_bytes().to_vec()),
        Subject::BlankNode(b) => RdfNode::Blank(b.id.as_bytes().to_vec()),
        Subject::Triple(_) => RdfNode::Quoted,
    }
}

/// A rio object as the library's object: its IRI, its blank label, a
/// literal as rio writes it out, or a quoted statement.
#[verifier::external_body]
fn rio_term(term: &Term<'_>) -> RdfTerm {
    match term {
        Term::NamedNode(n) => RdfTerm::Named(n.iri.as_bytes().to_vec()),
        Term::BlankNode(b) => RdfTerm::Blank(b.id.as_bytes().to_vec()),
        Term::Literal(l) => RdfTerm::Literal(l.to_string().into_bytes()),
        Term::Triple(_) => RdfTerm::Quoted,
    }
}

/// Why rio_turtle read no statements.
pub enum RioError {
    /// oxiri refused the base IRI.
    BaseIri,
    /// rio_turtle's description of a syntax error.
    Syntax(Vec<u8>),
}

/// What rio_turtle reads of the document `source` under the base IRI
/// `base`: its statements in document order; or `Err(None)` where oxiri
/// refuses the base, `Err(Some(m))` for a syntax error that rio describes
/// as `m`.
pub uninterp spec fn rio_document(source: Seq<u8>, base: Seq<u8>) -> Result<
    Seq<(RdfNodeView, Seq<u8>, RdfTermView)>,
    Option<Seq<u8>>,
>;

/// `rio_turtle::TurtleParser::new` over `source`, with the base IRI that
/// `oxiri::Iri::parse` reads from `base`, run to the end or to the first
/// syntax error. The contract names the result: rio numbers anonymous
/// blank nodes in order, so it depends on the two arguments alone.
#[verifier::external_body]
fn rio_triples(source: &[u8], base: &[u8]) -> (r: Result<Vec<RawTriple>, RioError>)
    ensures
        match r {
            Ok(ts) => rio_document(source@, base@) == Ok::<Seq<(RdfNodeView, Seq<u8>, RdfTermView)>, Option<Seq<u8>>>(raw_views(ts@)),
            Err(RioError::BaseIri) => rio_document(source@, base@) == Err::<Seq<(RdfNodeView, Seq<u8>, RdfTermView)>, Option<Seq<u8>>>(None),
            Err(RioError::Syntax(m)) => rio_document(source@, base@) == Err::<Seq<(RdfNodeView, Seq<u8>, RdfTermView)>, Option<Seq<u8>>>(Some(m@)),
        },
{
    let Ok(base) = oxiri::Iri::parse(String::from_utf8_lossy(base).into_owned()) else {
        return Err(RioError::BaseIri);
    };
    TurtleParser::new(source, Some(base))
        .into_iter(|t| Ok::<RawTriple, TurtleError>(RawTriple {
            subject: rio_subject(&t.subject),
            predicate: t.predicate.iri.as_bytes().to_vec(),
            object: rio_term(&t.object),
        }))
        .collect::<Result<Vec<RawTriple>, TurtleError>>()
        .map_err(|e| RioError::Syntax(e.to_string().into_bytes()))
}

/// The base IRI under which the packer reads the document at `path`:
/// `file:` and the path as it is.
pub open spec fn packer_base(path: Seq<u8>) -> Seq<u8> {
    file_scheme() + path
}

/// Reads the Ingen document `source`, found at `path`, and builds its graph
/// as [`arc_graph`] does from the statements that rio_turtle reads.
pub fn ingen_graph(source: &[u8], path: &[u8]) -> (r: Result<Vec<u8>, ArcGraphError>)
    ensures
        match rio_document(source@, packer_base(path@)) {
            Err(None) => r is Err && r->Err_0@ == ArcGraphFault::BaseIri,
            Err(Some(m)) => r is Err && r->Err_0@ == ArcGraphFault::Syntax(m),
            Ok(raws) => exists|ts: Seq<Triple>|
                #![trigger triple_parts(ts)]
                triple_parts(ts) == raw_keys(raws) && match r {
                    Ok(bytes) => arc_graph_spec(ts) == Ok::<Seq<u8>, ArcGraphFault>(bytes@),
                    Err(e) => arc_graph_spec(ts) == Err::<Seq<u8>, ArcGraphFault>(e@),
                },
        },
{
    let mut base: Vec<u8> = Vec::new();
    base.push(102u8);
    base.push(105u8);
    base.push(108u8);
    base.push(101u8);
    base.push(58u8);
    append_bytes(&mut base, path);
    assert(base@ =~= packer_base(path@));
    match rio_triples(source, base.as_slice()) {
        Err(RioError::BaseIri) => Err(ArcGraphError::BaseIri),
        Err(RioError::Syntax(m)) => Err(ArcGraphError::Syntax(m)),
        Ok(raws) => {
            let triples = triples_from_raw(raws.as_slice());
            arc_graph(triples.as_slice())
        },
    }
}

} // verus!
