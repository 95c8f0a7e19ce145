//! RDF triples as byte strings, and the Turtle reader that produces them.
//!
//! Every term is kept as its UTF-8 bytes: an IRI as written after base
//! resolution, a blank node as `_:` followed by its label, and a literal as its
//! lexical value.

use vstd::prelude::*;
use oxttl::TurtleParser;
use oxrdf::{NamedOrBlankNode, Term};
use oxrdf::Triple as Statement;
use crate::bundle::bytes_equal;
use crate::pack::append_bytes;

verus! {

pub const RDF_TYPE: &'static str = "http://www.w3.org/1999/02/22-rdf-syntax-ns#type";

/// One statement, with each of its three terms reduced to a key.
pub struct Triple {
    pub subject: Vec<u8>,
    pub predicate: Vec<u8>,
    pub object: Vec<u8>,
}

/// The subject position of a statement as the parser reports it.
pub enum RdfNode {
    Named(Vec<u8>),
    Blank(Vec<u8>),
    /// A quoted statement (RDF-star), which no graph document here uses.
    Quoted,
}

/// The object position of a statement as the parser reports it: a literal
/// as the parser writes it out.
pub enum RdfTerm {
    Named(Vec<u8>),
    Blank(Vec<u8>),
    Literal(Vec<u8>),
    /// A quoted statement (RDF-star), which no graph document here uses.
    Quoted,
}

/// A statement as the parser reports it, before its terms become keys.
pub struct RawTriple {
    pub subject: RdfNode,
    pub predicate: Vec<u8>,
    pub object: RdfTerm,
}

pub enum RdfNodeView {
    Named(Seq<u8>),
    Blank(Seq<u8>),
    Quoted,
}

pub enum RdfTermView {
    Named(Seq<u8>),
    Blank(Seq<u8>),
    Literal(Seq<u8>),
    Quoted,
}

impl View for RdfNode {
    type V = RdfNodeView;

    open spec fn view(&self) -> RdfNodeView {
        match self {
            RdfNode::Named(iri) => RdfNodeView::Named(iri@),
            RdfNode::Blank(label) => RdfNodeView::Blank(label@),
            RdfNode::Quoted => RdfNodeView::Quoted,
        }
    }
}

impl View for RdfTerm {
    type V = RdfTermView;

    open spec fn view(&self) -> RdfTermView {
        match self {
            RdfTerm::Named(iri) => RdfTermView::Named(iri@),
            RdfTerm::Blank(label) => RdfTermView::Blank(label@),
            RdfTerm::Literal(value) => RdfTermView::Literal(value@),
            RdfTerm::Quoted => RdfTermView::Quoted,
        }
    }
}

impl View for RawTriple {
    type V = (RdfNodeView, Seq<u8>, RdfTermView);

    open spec fn view(&self) -> (RdfNodeView, Seq<u8>, RdfTermView) {
        (self.subject@, self.predicate@, self.object@)
    }
}

/// Why a document could not be read.
pub enum TurtleError {
    /// The file IRI built from the document's path was refused as a base.
    BaseIri,
    /// The document is not valid Turtle; the parser's own description.
    Syntax(Vec<u8>),
}

pub enum TurtleFault {
    BaseIri,
    Syntax(Seq<u8>),
}

impl View for TurtleError {
    type V = TurtleFault;

    open spec fn view(&self) -> TurtleFault {
        match self {
            TurtleError::BaseIri => TurtleFault::BaseIri,
            TurtleError::Syntax(m) => TurtleFault::Syntax(m@),
        }
    }
}

/// A reading's outcome with the triples and the message taken by their
/// views.
pub open spec fn turtle_result(r: Result<Vec<Triple>, TurtleError>) -> Result<Seq<Triple>, TurtleFault> {
    match r {
        Ok(v) => Ok(v@),
        Err(e) => Err(e@),
    }
}

// ---------------------------------------------------------------------------
// Keys.

/// The key of a blank node: `_:` and its label.
pub open spec fn blank_key(label: Seq<u8>) -> Seq<u8> {
    seq![95u8, 58u8] + label
}

/// The key of a subject: the IRI, `_:` and the blank label, or nothing for
/// a quoted statement.
pub open spec fn node_key(n: RdfNodeView) -> Seq<u8> {
    match n {
        RdfNodeView::Named(iri) => iri,
        RdfNodeView::Blank(label) => blank_key(label),
        RdfNodeView::Quoted => Seq::empty(),
    }
}

/// The key of an object: the IRI, `_:` and the blank label, the literal's
/// text, or nothing for a quoted statement.
pub open spec fn object_key(t: RdfTermView) -> Seq<u8> {
    match t {
        RdfTermView::Named(iri) => iri,
        RdfTermView::Blank(label) => blank_key(label),
        RdfTermView::Literal(value) => value,
        RdfTermView::Quoted => Seq::empty(),
    }
}

pub open spec fn subject_key_spec(n: RdfNode) -> Seq<u8> {
    node_key(n@)
}

pub open spec fn term_key_spec(t: RdfTerm) -> Seq<u8> {
    object_key(t@)
}

/// The keys of the statements `raws`, in order.
pub open spec fn raw_keys(raws: Seq<(RdfNodeView, Seq<u8>, RdfTermView)>) -> Seq<(Seq<u8>, Seq<u8>, Seq<u8>)> {
    Seq::new(raws.len(), |i: int| (node_key(raws[i].0), raws[i].1, object_key(raws[i].2)))
}

/// The three keys of each statement, in order.
pub open spec fn triple_parts(ts: Seq<Triple>) -> Seq<(Seq<u8>, Seq<u8>, Seq<u8>)> {
    Seq::new(ts.len(), |i: int| (ts[i].subject@, ts[i].predicate@, ts[i].object@))
}

pub open spec fn raw_views(raws: Seq<RawTriple>) -> Seq<(RdfNodeView, Seq<u8>, RdfTermView)> {
    Seq::new(raws.len(), |i: int| raws[i]@)
}

fn blank_node_key(label: &[u8]) -> (r: Vec<u8>)
    ensures
        r@ == blank_key(label@),
{
    let mut out: Vec<u8> = Vec::new();
    out.push(95u8);
    out.push(58u8);
    append_bytes(&mut out, label);
    assert(out@ =~= blank_key(label@));
    out
}

/// The key of a subject: the IRI itself, or `_:` and the blank node label.
pub fn subject_key(subject: &RdfNode) -> (r: Vec<u8>)
    ensures
        r@ == subject_key_spec(*subject),
{
    match subject {
        RdfNode::Named(iri) => iri.clone(),
        RdfNode::Blank(label) => blank_node_key(label.as_slice()),
        RdfNode::Quoted => Vec::new(),
    }
}

/// The key of an object: the IRI, `_:` and the blank node label, or the
/// literal's lexical value.
pub fn term_key(term: &RdfTerm) -> (r: Vec<u8>)
    ensures
        r@ == term_key_spec(*term),
{
    match term {
        RdfTerm::Named(iri) => iri.clone(),
        RdfTerm::Blank(label) => blank_node_key(label.as_slice()),
        RdfTerm::Literal(value) => value.clone(),
        RdfTerm::Quoted => Vec::new(),
    }
}

/// A parsed statement with its terms turned into keys.
pub fn triple_from_raw(raw: &RawTriple) -> (r: Triple)
    ensures
        r.subject@ == subject_key_spec(raw.subject),
        r.predicate@ == raw.predicate@,
        r.object@ == term_key_spec(raw.object),
{
    Triple {
        subject: subject_key(&raw.subject),
        predicate: raw.predicate.clone(),
        object: term_key(&raw.object),
    }
}

/// The statements `raws` with their terms turned into keys, in order.
pub fn triples_from_raw(raws: &[RawTriple]) -> (r: Vec<Triple>)
    ensures
        triple_parts(r@) == raw_keys(raw_views(raws@)),
{
    let mut out: Vec<Triple> = Vec::new();
    let mut i: usize = 0;
    while i < raws.len()
        invariant
            i <= raws@.len(),
            out@.len() == i,
            triple_parts(out@) == raw_keys(raw_views(raws@.subrange(0, i as int))),
        decreases raws@.len() - i,
    {
        let ghost before = out@;
        let t = triple_from_raw(&raws[i]);
        out.push(t);
        proof {
            let now = raw_views(raws@.subrange(0, i + 1));
            let prev = raw_views(raws@.subrange(0, i as int));
            assert forall|k: int| 0 <= k < i implies #[trigger] now[k] == prev[k] by {}
            assert(now[i as int] == raws@[i as int]@);
            assert(triple_parts(out@) =~= raw_keys(now)) by {
                assert forall|k: int| 0 <= k <= i implies #[trigger] triple_parts(out@)[k] == raw_keys(now)[k] by {
                    if k < i {
                        assert(out@[k] == before[k]);
                        assert(triple_parts(before)[k] == raw_keys(prev)[k]);
                    }
                }
            }
        }
        i = i + 1;
    }
    assert(raws@.subrange(0, raws@.len() as int) =~= raws@);
    out
}

// ---------------------------------------------------------------------------
// Lookup.

pub open spec fn is_about(t: Triple, subject: Seq<u8>, predicate: Seq<u8>) -> bool {
    t.subject@ == subject && t.predicate@ == predicate
}

/// The index of the first statement at or after `i` about `subject` with
/// `predicate`.
pub open spec fn first_match_from(
    triples: Seq<Triple>,
    subject: Seq<u8>,
    predicate: Seq<u8>,
    i: int,
) -> Option<int>
    decreases triples.len() - i,
{
    if i < 0 || i >= triples.len() {
        None
    } else if is_about(triples[i], subject, predicate) {
        Some(i)
    } else {
        first_match_from(triples, subject, predicate, i + 1)
    }
}

pub open spec fn first_match(triples: Seq<Triple>, subject: Seq<u8>, predicate: Seq<u8>) -> Option<
    int,
> {
    first_match_from(triples, subject, predicate, 0)
}

/// The object of the first statement about `subject` with `predicate`.
pub open spec fn object_of(triples: Seq<Triple>, subject: Seq<u8>, predicate: Seq<u8>) -> Option<
    Seq<u8>,
> {
    match first_match(triples, subject, predicate) {
        Some(i) => Some(triples[i].object@),
        None => None,
    }
}

/// A found index lies inside the sequence and its statement matches.
pub proof fn lemma_first_match_from(
    triples: Seq<Triple>,
    subject: Seq<u8>,
    predicate: Seq<u8>,
    i: int,
)
    ensures
        match first_match_from(triples, subject, predicate, i) {
            Some(k) => i <= k < triples.len() && is_about(triples[k], subject, predicate),
            None => true,
        },
    decreases triples.len() - i,
{
    if 0 <= i < triples.len() && !is_about(triples[i], subject, predicate) {
        lemma_first_match_from(triples, subject, predicate, i + 1);
    }
}

/// The index of the first statement about `subject` with `predicate`.
pub fn find_triple(triples: &[Triple], subject: &[u8], predicate: &[u8]) -> (r: Option<usize>)
    ensures
        match r {
            Some(i) => first_match(triples@, subject@, predicate@) == Some(i as int),
            None => first_match(triples@, subject@, predicate@) is None,
        },
{
    let mut i: usize = 0;
    while i < triples.len()
        invariant
            i <= triples@.len(),
            first_match(triples@, subject@, predicate@) == first_match_from(
                triples@,
                subject@,
                predicate@,
                i as int,
            ),
        decreases triples@.len() - i,
    {
        if bytes_equal(triples[i].subject.as_slice(), subject) && bytes_equal(
            triples[i].predicate.as_slice(),
            predicate,
        ) {
            return Some(i);
        }
        i = i + 1;
    }
    None
}

/// The object of the first statement about `subject` with `predicate`.
pub fn object_for<'a>(triples: &'a [Triple], subject: &[u8], predicate: &[u8]) -> (r: Option<
    &'a [u8],
>)
    ensures
        match r {
            Some(o) => object_of(triples@, subject@, predicate@) == Some(o@),
            None => object_of(triples@, subject@, predicate@) is None,
        },
{
    match find_triple(triples, subject, predicate) {
        Some(i) => {
            proof {
                lemma_first_match_from(triples@, subject@, predicate@, 0);
            }
            Some(triples[i].object.as_slice())
        },
        None => None,
    }
}

// ---------------------------------------------------------------------------
// Byte-string helpers.

/// `s` begins with `prefix`.
pub open spec fn has_prefix(s: Seq<u8>, prefix: Seq<u8>) -> bool {
    prefix.len() <= s.len() && s.subrange(0, prefix.len() as int) == prefix
}

pub fn starts_with(s: &[u8], prefix: &[u8]) -> (r: bool)
    ensures
        r == has_prefix(s@, prefix@),
{
    if prefix.len() > s.len() {
        return false;
    }
    let mut i: usize = 0;
    while i < prefix.len()
        invariant
            prefix@.len() <= s@.len(),
            i <= prefix@.len(),
            forall|k: int| 0 <= k < i ==> s@[k] == prefix@[k],
        decreases prefix@.len() - i,
    {
        if s[i] != prefix[i] {
            assert(s@.subrange(0, prefix@.len() as int)[i as int] != prefix@[i as int]);
            return false;
        }
        i = i + 1;
    }
    assert(s@.subrange(0, prefix@.len() as int) =~= prefix@);
    true
}

// ---------------------------------------------------------------------------
// Base IRI of a document.

pub open spec fn is_ascii_alphanumeric(b: u8) -> bool {
    (48 <= b <= 57) || (65 <= b <= 90) || (97 <= b <= 122)
}

/// Bytes a path keeps as they are in a file IRI.
pub open spec fn path_byte_kept(b: u8) -> bool {
    is_ascii_alphanumeric(b) || b == 45 || b == 46 || b == 95 || b == 126 || b == 47 || b == 58
}

/// The upper-case hexadecimal digit of `d`.
pub open spec fn hex_digit(d: int) -> u8 {
    if d < 10 {
        (48 + d) as u8
    } else {
        (55 + d) as u8
    }
}

pub open spec fn encode_path_byte(b: u8) -> Seq<u8> {
    if path_byte_kept(b) {
        seq![b]
    } else {
        seq![37u8, hex_digit((b / 16) as int), hex_digit((b % 16) as int)]
    }
}

/// `path` with every byte outside the kept set written as `%` and two
/// upper-case hexadecimal digits.
pub open spec fn encode_path(path: Seq<u8>) -> Seq<u8>
    decreases path.len(),
{
    if path.len() == 0 {
        Seq::empty()
    } else {
        encode_path(path.drop_last()) + encode_path_byte(path.last())
    }
}

fn hex_digit_exec(d: u8) -> (r: u8)
    requires
        d < 16,
    ensures
        r == hex_digit(d as int),
{
    if d < 10 {
        48 + d
    } else {
        55 + d
    }
}

/// Percent-encodes a file system path for use in a `file://` IRI.
pub fn percent_encode_path(path: &[u8]) -> (r: Vec<u8>)
    ensures
        r@ == encode_path(path@),
{
    let mut out: Vec<u8> = Vec::new();
    let mut i: usize = 0;
    while i < path.len()
        invariant
            i <= path@.len(),
            out@ == encode_path(path@.subrange(0, i as int)),
        decreases path@.len() - i,
    {
        let b = path[i];
        let kept = (48 <= b && b <= 57) || (65 <= b && b <= 90) || (97 <= b && b <= 122) || b == 45
            || b == 46 || b == 95 || b == 126 || b == 47 || b == 58;
        if kept {
            out.push(b);
        } else {
            out.push(37u8);
            out.push(hex_digit_exec(b / 16));
            out.push(hex_digit_exec(b % 16));
        }
        proof {
            let next = path@.subrange(0, i + 1);
            assert(next.drop_last() =~= path@.subrange(0, i as int));
            assert(next.last() == b);
        }
        i = i + 1;
        assert(out@ =~= encode_path(path@.subrange(0, i as int)));
    }
    assert(path@.subrange(0, path@.len() as int) =~= path@);
    out
}

/// `file://` followed by the encoded path.
pub open spec fn base_iri_spec(path: Seq<u8>) -> Seq<u8> {
    seq![102u8, 105u8, 108u8, 101u8, 58u8, 47u8, 47u8] + encode_path(path)
}

/// The base IRI under which the document at `absolute_path` is read.
pub fn base_iri_for(absolute_path: &[u8]) -> (r: Vec<u8>)
    ensures
        r@ == base_iri_spec(absolute_path@),
{
    let mut out: Vec<u8> = Vec::new();
    out.push(102u8);
    out.push(105u8);
    out.push(108u8);
    out.push(101u8);
    out.push(58u8);
    out.push(47u8);
    out.push(47u8);
    let encoded = percent_encode_path(absolute_path);
    append_bytes(&mut out, encoded.as_slice());
    assert(out@ =~= base_iri_spec(absolute_path@));
    out
}

// ---------------------------------------------------------------------------
// Root-relative identifiers.

/// `source` with every `<:` written as `<./:`, scanning left to right.
pub open spec fn relative_roots(s: Seq<u8>) -> Seq<u8>
    decreases s.len(),
{
    if s.len() == 0 {
        Seq::empty()
    } else if s.len() >= 2 && s[0] == 60 && s[1] == 58 {
        seq![60u8, 46u8, 47u8, 58u8] + relative_roots(s.subrange(2, s.len() as int))
    } else {
        seq![s[0]] + relative_roots(s.subrange(1, s.len() as int))
    }
}

/// Rewrites root-relative identifiers such as `<:bpm>` as `<./:bpm>`.
pub fn make_roots_relative(source: &[u8]) -> (r: Vec<u8>)
    ensures
        r@ == relative_roots(source@),
{
    let mut out: Vec<u8> = Vec::new();
    let mut i: usize = 0;
    assert(source@.subrange(0, source@.len() as int) =~= source@);
    assert(out@ + relative_roots(source@) =~= relative_roots(source@));
    while i < source.len()
        invariant
            i <= source@.len(),
            relative_roots(source@) == out@ + relative_roots(
                source@.subrange(i as int, source@.len() as int),
            ),
        decreases source@.len() - i,
    {
        let ghost rest = source@.subrange(i as int, source@.len() as int);
        let ghost prev = out@;
        if source.len() - i >= 2 && source[i] == 60 && source[i + 1] == 58 {
            out.push(60u8);
            out.push(46u8);
            out.push(47u8);
            out.push(58u8);
            proof {
                let tail = source@.subrange(i + 2, source@.len() as int);
                assert(rest.subrange(2, rest.len() as int) =~= tail);
                assert(relative_roots(rest) == seq![60u8, 46u8, 47u8, 58u8] + relative_roots(tail));
                assert(prev + (seq![60u8, 46u8, 47u8, 58u8] + relative_roots(tail)) =~= out@
                    + relative_roots(tail));
            }
            i = i + 2;
        } else {
            out.push(source[i]);
            proof {
                let tail = source@.subrange(i + 1, source@.len() as int);
                assert(rest.subrange(1, rest.len() as int) =~= tail);
                assert(relative_roots(rest) == seq![rest[0]] + relative_roots(tail));
                assert(prev + (seq![rest[0]] + relative_roots(tail)) =~= out@ + relative_roots(
                    tail,
                ));
            }
            i = i + 1;
        }
    }
    assert(source@.subrange(source@.len() as int, source@.len() as int) =~= Seq::<u8>::empty());
    assert(out@ + Seq::<u8>::empty() =~= out@);
    out
}

// ---------------------------------------------------------------------------
// Statements up to the names of their blank nodes.

/// A subject with its blank label replaced by a number.
pub enum CanonNode {
    Named(Seq<u8>),
    Blank(int),
    Quoted,
}

/// An object with its blank label replaced by a number.
pub enum CanonTerm {
    Named(Seq<u8>),
    Blank(int),
    Literal(Seq<u8>),
    Quoted,
}

pub open spec fn node_labels(n: RdfNodeView) -> Seq<Seq<u8>> {
    match n {
        RdfNodeView::Blank(label) => seq![label],
        _ => Seq::empty(),
    }
}

pub open spec fn term_labels(t: RdfTermView) -> Seq<Seq<u8>> {
    match t {
        RdfTermView::Blank(label) => seq![label],
        _ => Seq::empty(),
    }
}

/// The blank labels of `raws` in order of appearance: each statement's
/// subject's, then its object's.
pub open spec fn blank_labels(raws: Seq<(RdfNodeView, Seq<u8>, RdfTermView)>) -> Seq<Seq<u8>>
    decreases raws.len(),
{
    if raws.len() == 0 {
        Seq::empty()
    } else {
        blank_labels(raws.drop_last()) + node_labels(raws.last().0) + term_labels(raws.last().2)
    }
}

/// The position of the first `x` in `s`, or `s.len()` where there is none.
pub open spec fn first_position(s: Seq<Seq<u8>>, x: Seq<u8>) -> int
    decreases s.len(),
{
    if s.len() == 0 {
        0
    } else if s[0] == x {
        0
    } else {
        1 + first_position(s.drop_first(), x)
    }
}

pub open spec fn canon_node(labels: Seq<Seq<u8>>, n: RdfNodeView) -> CanonNode {
    match n {
        RdfNodeView::Named(iri) => CanonNode::Named(iri),
        RdfNodeView::Blank(label) => CanonNode::Blank(first_position(labels, label)),
        RdfNodeView::Quoted => CanonNode::Quoted,
    }
}

pub open spec fn canon_term(labels: Seq<Seq<u8>>, t: RdfTermView) -> CanonTerm {
    match t {
        RdfTermView::Named(iri) => CanonTerm::Named(iri),
        RdfTermView::Blank(label) => CanonTerm::Blank(first_position(labels, label)),
        RdfTermView::Literal(value) => CanonTerm::Literal(value),
        RdfTermView::Quoted => CanonTerm::Quoted,
    }
}

/// The statements `raws` with each blank label replaced by the position of
/// its first appearance: two runs that differ only in the names they give
/// blank nodes have the same canonical statements.
pub open spec fn canonical_statements(raws: Seq<(RdfNodeView, Seq<u8>, RdfTermView)>) -> Seq<
    (CanonNode, Seq<u8>, CanonTerm),
> {
    let labels = blank_labels(raws);
    Seq::new(raws.len(), |i: int| (canon_node(labels, raws[i].0), raws[i].1, canon_term(labels, raws[i].2)))
}

// ---------------------------------------------------------------------------
// Reading a document.

#[verifier::external_type_specification]
#[verifier::external_body]
pub struct ExStatement(Statement);

/// The subject of an oxrdf triple, as the bytes of its IRI or blank label.
#[verifier::external_body]
fn statement_subject(statement: &Statement) -> RdfNode {
    match &statement.subject {
        NamedOrBlankNode::NamedNode(n) => RdfNode::Named(n.as_str().as_bytes().to_vec()),
        NamedOrBlankNode::BlankNode(b) => RdfNode::Blank(b.as_str().as_bytes().to_vec()),
    }
}

/// The object of an oxrdf triple: the bytes of its IRI, of its blank label,
/// or of a literal's lexical value.
#[verifier::external_body]
fn statement_object(statement: &Statement) -> RdfTerm {
    match &statement.object {
        Term::NamedNode(n) => RdfTerm::Named(n.as_str().as_bytes().to_vec()),
        Term::BlankNode(b) => RdfTerm::Blank(b.as_str().as_bytes().to_vec()),
        Term::Literal(l) => RdfTerm::Literal(l.value().as_bytes().to_vec()),
    }
}

/// What oxttl reads of the Turtle document `source` under the base IRI
/// `base`: its statements in document order, each term as its IRI, blank
/// node or literal value, with blank nodes named as in
/// [`canonical_statements`]; or `Err(None)` where oxiri refuses the base,
/// `Err(Some(m))` for the first syntax error, which oxttl describes as `m`.
pub uninterp spec fn oxttl_document(source: Seq<u8>, base: Seq<u8>) -> Result<
    Seq<(CanonNode, Seq<u8>, CanonTerm)>,
    Option<Seq<u8>>,
>;

/// `oxttl::TurtleParser::new().with_base_iri(base)` and then `for_slice`
/// over `source`, run to the end or to the first syntax error. The contract
/// names the result up to the names of blank nodes: oxttl keeps a label
/// written in the document and gives each anonymous blank node a label drawn
/// from 128 random bits. It rests on those random labels differing from each
/// other and from the document's own labels, which is overwhelmingly likely
/// but not certain.
#[verifier::external_body]
fn oxttl_triples(source: &[u8], base: &[u8]) -> (r: Result<Vec<RawTriple>, TurtleError>)
    ensures
        match r {
            Ok(raws) => oxttl_document(source@, base@) == Ok::<Seq<(CanonNode, Seq<u8>, CanonTerm)>, Option<Seq<u8>>>(
                canonical_statements(raw_views(raws@)),
            ),
            Err(TurtleError::BaseIri) => oxttl_document(source@, base@) == Err::<Seq<(CanonNode, Seq<u8>, CanonTerm)>, Option<Seq<u8>>>(None),
            Err(TurtleError::Syntax(m)) => oxttl_document(source@, base@) == Err::<Seq<(CanonNode, Seq<u8>, CanonTerm)>, Option<Seq<u8>>>(Some(m@)),
        },
{
    let Ok(parser) = TurtleParser::new().with_base_iri(String::from_utf8_lossy(base).into_owned()) else {
        return Err(TurtleError::BaseIri);
    };
    parser
        .for_slice(source)
        .map(|s| s.map(|t| RawTriple {
            subject: statement_subject(&t),
            predicate: t.predicate.as_str().as_bytes().to_vec(),
            object: statement_object(&t),
        }))
        .collect::<Result<Vec<RawTriple>, oxttl::TurtleSyntaxError>>()
        .map_err(|e| TurtleError::Syntax(e.to_string().into_bytes()))
}

/// What [`parse`] gives for the document `source` read under `base`: the
/// keys of the statements that oxttl reads, or its refusal.
pub open spec fn parsed_as(source: Seq<u8>, base: Seq<u8>, r: Result<Seq<Triple>, TurtleFault>) -> bool {
    match oxttl_document(source, base) {
        Err(None) => r == Err::<Seq<Triple>, TurtleFault>(TurtleFault::BaseIri),
        Err(Some(m)) => r == Err::<Seq<Triple>, TurtleFault>(TurtleFault::Syntax(m)),
        Ok(canon) => r matches Ok(ts) && exists|raws: Seq<(RdfNodeView, Seq<u8>, RdfTermView)>|
            #![trigger canonical_statements(raws)]
            triple_parts(ts) == raw_keys(raws) && canonical_statements(raws) == canon,
    }
}

/// Reads the Turtle document `source`, found at `absolute_path`, with the
/// file IRI of that path as its base, and turns every statement into a
/// triple of keys, in document order, through [`triples_from_raw`].
pub fn parse(source: &[u8], absolute_path: &[u8]) -> (r: Result<Vec<Triple>, TurtleError>)
    ensures
        parsed_as(source@, base_iri_spec(absolute_path@), turtle_result(r)),
{
    let base = base_iri_for(absolute_path);
    match oxttl_triples(source, base.as_slice()) {
        Err(e) => Err(e),
        Ok(raws) => {
            let triples = triples_from_raw(raws.as_slice());
            assert(canonical_statements(raw_views(raws@)) == canonical_statements(raw_views(raws@)));
            Ok(triples)
        },
    }
}

/// Reads a MOD pedalboard document: root-relative identifiers such as
/// `<:bpm>` are not valid relative IRIs, so each `<:` is first written as
/// `<./:`, then the document is read as by [`parse`].
pub fn parse_mod(source: &[u8], absolute_path: &[u8]) -> (r: Result<Vec<Triple>, TurtleError>)
    ensures
        parsed_as(relative_roots(source@), base_iri_spec(absolute_path@), turtle_result(r)),
{
    let rewritten = make_roots_relative(source);
    parse(rewritten.as_slice(), absolute_path)
}

/// A document with no `<:` reads the same with and without the rewriting
/// of root-relative identifiers: [`parse_mod`] then promises of it what
/// [`parse`] does.
pub proof fn lemma_no_roots_unchanged(source: Seq<u8>)
    requires
        forall|i: int| 0 <= i < source.len() - 1 ==> !(#[trigger] source[i] == 60u8 && source[i + 1] == 58u8),
    ensures
        relative_roots(source) == source,
        forall|base: Seq<u8>, r: Result<Seq<Triple>, TurtleFault>|
            #[trigger] parsed_as(relative_roots(source), base, r) == parsed_as(source, base, r),
    decreases source.len(),
{
    if source.len() > 0 {
        let rest = source.subrange(1, source.len() as int);
        assert forall|i: int| 0 <= i < rest.len() - 1 implies !(#[trigger] rest[i] == 60u8 && rest[i + 1] == 58u8) by {
            assert(rest[i] == source[i + 1] && rest[i + 1] == source[i + 2]);
        }
        lemma_no_roots_unchanged(rest);
        assert(seq![source[0]] + rest =~= source);
    } else {
        assert(source =~= Seq::<u8>::empty());
    }
    assert(relative_roots(source) == source);
}

} // verus!
