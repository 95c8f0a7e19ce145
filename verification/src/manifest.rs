//! Reading a bundle manifest: which kind of graph it declares, where the
//! graph document is, and the local path that the document's IRI names.

use vstd::prelude::*;
use vstd::string::StringSliceAdditionalSpecFns;
use crate::bundle::bytes_equal;
use crate::ingen::{
    declares_graph, first_see_also_from, INGEN_GRAPH, INGEN_GRAPH_PROTOTYPE, LV2_PROTOTYPE,
    RDFS_SEE_ALSO,
};
use crate::rdf::{encode_path, encode_path_byte, has_prefix, hex_digit, object_for, object_of, path_byte_kept, Triple, RDF_TYPE};

verus! {

pub const MOD_PEDALBOARD: &'static str = "http://moddevices.com/ns/modpedal#Pedalboard";

/// The two kinds of graph bundle.
#[derive(Clone, Copy, Debug, PartialEq, Eq, Structural)]
pub enum InputKind {
    Ingen,
    ModPedalboard,
}

/// Why a manifest names no usable graph document.
pub enum ManifestError {
    /// The manifest declares neither an Ingen graph nor a MOD pedalboard.
    UnknownKind,
    /// The manifest names no graph document.
    NoGraph,
    /// A `%` in the document's IRI is not followed by two hexadecimal digits.
    PercentEscape,
    /// The decoded path is not UTF-8.
    NotUtf8,
}

pub enum ManifestFault {
    UnknownKind,
    NoGraph,
    PercentEscape,
    NotUtf8,
}

impl View for ManifestError {
    type V = ManifestFault;

    open spec fn view(&self) -> ManifestFault {
        match self {
            ManifestError::UnknownKind => ManifestFault::UnknownKind,
            ManifestError::NoGraph => ManifestFault::NoGraph,
            ManifestError::PercentEscape => ManifestFault::PercentEscape,
            ManifestError::NotUtf8 => ManifestFault::NotUtf8,
        }
    }
}

// ---------------------------------------------------------------------------
// The kind of a manifest.

/// The statement declares its subject a MOD pedalboard.
pub open spec fn declares_pedalboard(t: Triple) -> bool {
    t.predicate@ == RDF_TYPE.spec_bytes() && t.object@ == MOD_PEDALBOARD.spec_bytes()
}

/// A MOD pedalboard where any statement declares one; otherwise an Ingen
/// graph where any statement declares one.
pub open spec fn input_kind_spec(ts: Seq<Triple>) -> Option<InputKind> {
    if exists|i: int| 0 <= i < ts.len() && #[trigger] declares_pedalboard(ts[i]) {
        Some(InputKind::ModPedalboard)
    } else if exists|i: int| 0 <= i < ts.len() && #[trigger] declares_graph(ts[i]) {
        Some(InputKind::Ingen)
    } else {
        None
    }
}

fn declares_pedalboard_exec(t: &Triple) -> (r: bool)
    ensures
        r == declares_pedalboard(*t),
{
    bytes_equal(t.predicate.as_slice(), RDF_TYPE.as_bytes()) && bytes_equal(
        t.object.as_slice(),
        MOD_PEDALBOARD.as_bytes(),
    )
}

fn declares_graph_exec(t: &Triple) -> (r: bool)
    ensures
        r == declares_graph(*t),
{
    let p = t.predicate.as_slice();
    let o = t.object.as_slice();
    (bytes_equal(p, RDF_TYPE.as_bytes()) && (bytes_equal(o, INGEN_GRAPH.as_bytes()) || bytes_equal(
        o,
        INGEN_GRAPH_PROTOTYPE.as_bytes(),
    ))) || (bytes_equal(p, LV2_PROTOTYPE.as_bytes()) && bytes_equal(
        o,
        INGEN_GRAPH_PROTOTYPE.as_bytes(),
    ))
}

/// The kind of graph that a manifest declares, or `None` for neither.
pub fn input_kind(triples: &[Triple]) -> (r: Option<InputKind>)
    ensures
        r == input_kind_spec(triples@),
{
    let mut i: usize = 0;
    while i < triples.len()
        invariant
            i <= triples@.len(),
            forall|k: int| 0 <= k < i ==> !#[trigger] declares_pedalboard(triples@[k]),
        decreases triples@.len() - i,
    {
        if declares_pedalboard_exec(&triples[i]) {
            return Some(InputKind::ModPedalboard);
        }
        i = i + 1;
    }
    let mut j: usize = 0;
    while j < triples.len()
        invariant
            j <= triples@.len(),
            forall|k: int| 0 <= k < triples@.len() ==> !#[trigger] declares_pedalboard(triples@[k]),
            forall|k: int| 0 <= k < j ==> !#[trigger] declares_graph(triples@[k]),
        decreases triples@.len() - j,
    {
        if declares_graph_exec(&triples[j]) {
            return Some(InputKind::Ingen);
        }
        j = j + 1;
    }
    None
}

// ---------------------------------------------------------------------------
// The graph document of a manifest.

/// The statement gives its subject the type that marks a graph of `kind`.
pub open spec fn declares_kind(t: Triple, kind: InputKind) -> bool {
    t.predicate@ == RDF_TYPE.spec_bytes() && match kind {
        InputKind::Ingen => t.object@ == INGEN_GRAPH.spec_bytes() || t.object@
            == INGEN_GRAPH_PROTOTYPE.spec_bytes(),
        InputKind::ModPedalboard => t.object@ == MOD_PEDALBOARD.spec_bytes(),
    }
}

/// The first statement at or after `i` that types its subject as a graph of
/// `kind`.
pub open spec fn first_declaring_from(ts: Seq<Triple>, kind: InputKind, i: int) -> Option<int>
    decreases ts.len() - i,
{
    if i < 0 || i >= ts.len() {
        None
    } else if declares_kind(ts[i], kind) {
        Some(i)
    } else {
        first_declaring_from(ts, kind, i + 1)
    }
}

/// The IRI of the graph document: the `rdfs:seeAlso` of the first graph of
/// `kind` that the manifest declares, or that graph's own IRI; failing a
/// declaration, the object of the first `rdfs:seeAlso`.
pub open spec fn graph_document_spec(ts: Seq<Triple>, kind: InputKind) -> Option<Seq<u8>> {
    match first_declaring_from(ts, kind, 0) {
        Some(i) => match object_of(ts, ts[i].subject@, RDFS_SEE_ALSO.spec_bytes()) {
            Some(o) => Some(o),
            None => Some(ts[i].subject@),
        },
        None => match first_see_also_from(ts, 0) {
            Some(i) => Some(ts[i].object@),
            None => None,
        },
    }
}

proof fn lemma_first_see_also(ts: Seq<Triple>, i: int)
    ensures
        match first_see_also_from(ts, i) {
            Some(k) => 0 <= k < ts.len() && i <= k,
            None => true,
        },
    decreases ts.len() - i,
{
    if 0 <= i < ts.len() && ts[i].predicate@ != RDFS_SEE_ALSO.spec_bytes() {
        lemma_first_see_also(ts, i + 1);
    }
}

fn declares_kind_exec(t: &Triple, kind: InputKind) -> (r: bool)
    ensures
        r == declares_kind(*t, kind),
{
    if !bytes_equal(t.predicate.as_slice(), RDF_TYPE.as_bytes()) {
        return false;
    }
    let o = t.object.as_slice();
    match kind {
        InputKind::Ingen => bytes_equal(o, INGEN_GRAPH.as_bytes()) || bytes_equal(
            o,
            INGEN_GRAPH_PROTOTYPE.as_bytes(),
        ),
        InputKind::ModPedalboard => bytes_equal(o, MOD_PEDALBOARD.as_bytes()),
    }
}

/// The IRI of the graph document that a manifest of `kind` names, or `None`
/// when it names none.
pub fn graph_document(triples: &[Triple], kind: InputKind) -> (r: Option<&[u8]>)
    ensures
        match r {
            Some(uri) => graph_document_spec(triples@, kind) == Some(uri@),
            None => graph_document_spec(triples@, kind) is None,
        },
{
    let mut i: usize = 0;
    while i < triples.len()
        invariant
            i <= triples@.len(),
            first_declaring_from(triples@, kind, 0) == first_declaring_from(triples@, kind, i as int),
        decreases triples@.len() - i,
    {
        if declares_kind_exec(&triples[i], kind) {
            return match object_for(triples, triples[i].subject.as_slice(), RDFS_SEE_ALSO.as_bytes()) {
                Some(o) => Some(o),
                None => Some(triples[i].subject.as_slice()),
            };
        }
        i = i + 1;
    }
    let mut j: usize = 0;
    while j < triples.len()
        invariant
            j <= triples@.len(),
            first_declaring_from(triples@, kind, 0) is None,
            first_see_also_from(triples@, 0) == first_see_also_from(triples@, j as int),
        decreases triples@.len() - j,
    {
        if bytes_equal(triples[j].predicate.as_slice(), RDFS_SEE_ALSO.as_bytes()) {
            proof {
                lemma_first_see_also(triples@, 0);
            }
            return Some(triples[j].object.as_slice());
        }
        j = j + 1;
    }
    None
}

// ---------------------------------------------------------------------------
// The local path that a file IRI names.

/// The scheme that a file IRI starts with: `file:`.
pub open spec fn file_scheme() -> Seq<u8> {
    seq![102u8, 105, 108, 101, 58]
}

/// `uri` without a leading `file:`.
pub open spec fn without_file_scheme(uri: Seq<u8>) -> Seq<u8> {
    if has_prefix(uri, file_scheme()) {
        uri.skip(5)
    } else {
        uri
    }
}

/// `uri` without a leading `file:`.
pub fn strip_file_scheme(uri: &[u8]) -> (r: &[u8])
    ensures
        r@ == without_file_scheme(uri@),
{
    if uri.len() >= 5 && uri[0] == 102 && uri[1] == 105 && uri[2] == 108 && uri[3] == 101 && uri[4] == 58 {
        assert(uri@.subrange(0, 5) =~= file_scheme());
        let (_, rest) = uri.split_at(5);
        rest
    } else {
        proof {
            if uri@.len() >= 5 && uri@.subrange(0, 5) == file_scheme() {
                assert(uri@.subrange(0, 5)[0] == uri@[0]);
                assert(uri@.subrange(0, 5)[1] == uri@[1]);
                assert(uri@.subrange(0, 5)[2] == uri@[2]);
                assert(uri@.subrange(0, 5)[3] == uri@[3]);
                assert(uri@.subrange(0, 5)[4] == uri@[4]);
            }
        }
        uri
    }
}

/// The value of a hexadecimal digit, of either case.
pub open spec fn hex_value(c: u8) -> Option<u8> {
    if 48 <= c <= 57 {
        Some((c - 48) as u8)
    } else if 65 <= c <= 70 {
        Some((c - 55) as u8)
    } else if 97 <= c <= 102 {
        Some((c - 87) as u8)
    } else {
        None
    }
}

/// The byte that the two characters after a `%` stand for: a hexadecimal
/// number of two digits, or of one digit after a `+`.
pub open spec fn escaped_byte(a: u8, b: u8) -> Option<u8> {
    if a == 43 {
        hex_value(b)
    } else {
        match (hex_value(a), hex_value(b)) {
            (Some(high), Some(low)) => Some((high * 16 + low) as u8),
            _ => None,
        }
    }
}

/// `s` with each `%` and the two characters after it replaced by the byte
/// they stand for, or `None` where an escape is cut short or malformed.
pub open spec fn percent_decoded(s: Seq<u8>) -> Option<Seq<u8>>
    decreases s.len(),
{
    if s.len() == 0 {
        Some(Seq::empty())
    } else if s[0] == 37 {
        if s.len() < 3 {
            None
        } else {
            match escaped_byte(s[1], s[2]) {
                None => None,
                Some(v) => match percent_decoded(s.skip(3)) {
                    Some(rest) => Some(seq![v] + rest),
                    None => None,
                },
            }
        }
    } else {
        match percent_decoded(s.skip(1)) {
            Some(rest) => Some(seq![s[0]] + rest),
            None => None,
        }
    }
}

/// Decoding goes escape by escape: two strings that each decode, put one
/// after the other, decode to their two results one after the other.
pub proof fn lemma_decode_concat(x: Seq<u8>, y: Seq<u8>)
    requires
        percent_decoded(x) is Some,
        percent_decoded(y) is Some,
    ensures
        percent_decoded(x + y) == Some(percent_decoded(x).unwrap() + percent_decoded(y).unwrap()),
    decreases x.len(),
{
    let dy = percent_decoded(y).unwrap();
    if x.len() == 0 {
        assert(x + y =~= y);
        assert(percent_decoded(x).unwrap() + dy =~= dy);
    } else if x[0] == 37 {
        lemma_decode_concat(x.skip(3), y);
        let v = escaped_byte(x[1], x[2]).unwrap();
        let rx = percent_decoded(x.skip(3)).unwrap();
        assert((x + y)[0] == x[0] && (x + y)[1] == x[1] && (x + y)[2] == x[2]);
        assert((x + y).skip(3) =~= x.skip(3) + y);
        assert(seq![v] + (rx + dy) =~= (seq![v] + rx) + dy);
    } else {
        lemma_decode_concat(x.skip(1), y);
        let rx = percent_decoded(x.skip(1)).unwrap();
        assert((x + y)[0] == x[0]);
        assert((x + y).skip(1) =~= x.skip(1) + y);
        assert(seq![x[0]] + (rx + dy) =~= (seq![x[0]] + rx) + dy);
    }
}

proof fn lemma_hex_digit_value(d: int)
    requires
        0 <= d < 16,
    ensures
        hex_value(hex_digit(d)) == Some(d as u8),
        hex_digit(d) != 43,
{
}

proof fn lemma_decode_encoded_byte(b: u8)
    ensures
        percent_decoded(encode_path_byte(b)) == Some(seq![b]),
{
    let e = encode_path_byte(b);
    assert(percent_decoded(Seq::<u8>::empty()) == Some(Seq::<u8>::empty()));
    if path_byte_kept(b) {
        assert(e.skip(1) =~= Seq::<u8>::empty());
        assert(seq![b] + Seq::<u8>::empty() =~= seq![b]);
    } else {
        let high = (b / 16) as int;
        let low = (b % 16) as int;
        lemma_hex_digit_value(high);
        lemma_hex_digit_value(low);
        assert(e.skip(3) =~= Seq::<u8>::empty());
        assert(((high * 16 + low) as u8) == b);
        assert(seq![b] + Seq::<u8>::empty() =~= seq![b]);
    }
}

/// Decoding a path written as `percent_encode_path` writes it gives the path
/// back.
pub proof fn lemma_decode_encoded_path(path: Seq<u8>)
    ensures
        percent_decoded(encode_path(path)) == Some(path),
    decreases path.len(),
{
    if path.len() == 0 {
        assert(percent_decoded(Seq::<u8>::empty()) == Some(Seq::<u8>::empty()));
    } else {
        lemma_decode_encoded_path(path.drop_last());
        lemma_decode_encoded_byte(path.last());
        lemma_decode_concat(encode_path(path.drop_last()), encode_path_byte(path.last()));
        assert(path.drop_last() + seq![path.last()] =~= path);
    }
}

fn hex_value_exec(c: u8) -> (r: Option<u8>)
    ensures
        r == hex_value(c),
{
    if 48 <= c && c <= 57 {
        Some(c - 48)
    } else if 65 <= c && c <= 70 {
        Some(c - 55)
    } else if 97 <= c && c <= 102 {
        Some(c - 87)
    } else {
        None
    }
}

fn escaped_byte_exec(a: u8, b: u8) -> (r: Option<u8>)
    ensures
        r == escaped_byte(a, b),
{
    if a == 43 {
        hex_value_exec(b)
    } else {
        match (hex_value_exec(a), hex_value_exec(b)) {
            (Some(high), Some(low)) => Some(high * 16 + low),
            _ => None,
        }
    }
}

/// Decodes the percent escapes of `value`; `None` where one is cut short or
/// is not a hexadecimal number.
pub fn percent_decode(value: &[u8]) -> (r: Option<Vec<u8>>)
    ensures
        match r {
            Some(decoded) => percent_decoded(value@) == Some(decoded@),
            None => percent_decoded(value@) is None,
        },
{
    let mut result: Vec<u8> = Vec::new();
    let mut index: usize = 0;
    proof {
        assert(value@.skip(0) =~= value@);
        match percent_decoded(value@) {
            Some(d) => assert(result@ + d =~= d),
            None => {},
        }
    }
    while index < value.len()
        invariant
            index <= value@.len(),
            percent_decoded(value@) == match percent_decoded(value@.skip(index as int)) {
                Some(rest) => Some(result@ + rest),
                None => None::<Seq<u8>>,
            },
        decreases value@.len() - index,
    {
        let ghost s = value@.skip(index as int);
        if value[index] == 37 {
            if value.len() - index < 3 {
                return None;
            }
            match escaped_byte_exec(value[index + 1], value[index + 2]) {
                None => {
                    return None;
                },
                Some(v) => {
                    proof {
                        assert(s.skip(3) =~= value@.skip(index + 3));
                        match percent_decoded(s.skip(3)) {
                            Some(rest) => assert(result@.push(v) + rest =~= result@ + (seq![v] + rest)),
                            None => {},
                        }
                    }
                    result.push(v);
                    index = index + 3;
                },
            }
        } else {
            let b = value[index];
            proof {
                assert(s.skip(1) =~= value@.skip(index + 1));
                match percent_decoded(s.skip(1)) {
                    Some(rest) => assert(result@.push(b) + rest =~= result@ + (seq![b] + rest)),
                    None => {},
                }
            }
            result.push(b);
            index = index + 1;
        }
    }
    assert(result@ + Seq::<u8>::empty() =~= result@);
    Some(result)
}

/// The length of the well-formed UTF-8 encoding of one scalar at `p`, or
/// `None` where none starts there.
fn first_scalar_length(bytes: &[u8], p: usize) -> (r: Option<usize>)
    requires
        p < bytes@.len(),
    ensures
        ({
            let rest = bytes@.subrange(p as int, bytes@.len() as int);
            match r {
                Some(n) => vstd::utf8::valid_first_scalar(rest) && n == vstd::utf8::length_of_first_scalar(rest),
                None => !vstd::utf8::valid_first_scalar(rest),
            }
        }),
{
    let ghost rest = bytes@.subrange(p as int, bytes@.len() as int);
    let avail = bytes.len() - p;
    let b0 = bytes[p];
    assert(rest[0] == b0);
    if b0 <= 0x7f {
        let cp: u32 = (b0 & 0x7f) as u32;
        if 0xd800 <= cp && cp <= 0xdfff {
            return None;
        }
        return Some(1);
    }
    if 0xc0 <= b0 && b0 <= 0xdf {
        if avail < 2 {
            return None;
        }
        let b1 = bytes[p + 1];
        assert(rest[1] == b1);
        if !(0x80 <= b1 && b1 <= 0xbf) {
            return None;
        }
        let cp: u32 = (((b0 & 0x1f) as u32) << 6) | ((b1 & 0x3f) as u32);
        if cp < 0x80 || (0xd800 <= cp && cp <= 0xdfff) {
            return None;
        }
        return Some(2);
    }
    if 0xe0 <= b0 && b0 <= 0xef {
        if avail < 3 {
            return None;
        }
        let b1 = bytes[p + 1];
        let b2 = bytes[p + 2];
        assert(rest[1] == b1 && rest[2] == b2);
        if !(0x80 <= b1 && b1 <= 0xbf && 0x80 <= b2 && b2 <= 0xbf) {
            return None;
        }
        let cp: u32 = (((b0 & 0x0f) as u32) << 12) | (((b1 & 0x3f) as u32) << 6) | ((b2 & 0x3f) as u32);
        if cp < 0x800 || (0xd800 <= cp && cp <= 0xdfff) {
            return None;
        }
        return Some(3);
    }
    if 0xf0 <= b0 && b0 <= 0xf7 {
        if avail < 4 {
            return None;
        }
        let b1 = bytes[p + 1];
        let b2 = bytes[p + 2];
        let b3 = bytes[p + 3];
        assert(rest[1] == b1 && rest[2] == b2 && rest[3] == b3);
        if !(0x80 <= b1 && b1 <= 0xbf && 0x80 <= b2 && b2 <= 0xbf && 0x80 <= b3 && b3 <= 0xbf) {
            return None;
        }
        let cp: u32 = (((b0 & 0x07) as u32) << 18) | (((b1 & 0x3f) as u32) << 12) | (((b2 & 0x3f) as u32) << 6)
            | ((b3 & 0x3f) as u32);
        if cp < 0x10000 || cp > 0x10ffff || (0xd800 <= cp && cp <= 0xdfff) {
            return None;
        }
        return Some(4);
    }
    None
}

/// Whether `bytes` are well-formed UTF-8.
pub(crate) fn is_utf8(bytes: &[u8]) -> (r: bool)
    ensures
        r == vstd::utf8::valid_utf8(bytes@),
{
    let mut p: usize = 0;
    assert(bytes@.subrange(0, bytes@.len() as int) =~= bytes@);
    while p < bytes.len()
        invariant
            p <= bytes@.len(),
            vstd::utf8::valid_utf8(bytes@) == vstd::utf8::valid_utf8(bytes@.subrange(p as int, bytes@.len() as int)),
        decreases bytes@.len() - p,
    {
        let ghost rest = bytes@.subrange(p as int, bytes@.len() as int);
        let n = match first_scalar_length(bytes, p) {
            None => return false,
            Some(n) => n,
        };
        assert(vstd::utf8::pop_first_scalar(rest) =~= bytes@.subrange(p + n, bytes@.len() as int));
        p = p + n;
    }
    assert(bytes@.subrange(p as int, bytes@.len() as int) =~= Seq::<u8>::empty());
    true
}

/// The path that a graph document's IRI names: without `file:`, with its
/// percent escapes decoded, and well-formed UTF-8.
pub open spec fn local_path_spec(uri: Seq<u8>) -> Result<Seq<u8>, ManifestFault> {
    match percent_decoded(without_file_scheme(uri)) {
        None => Err(ManifestFault::PercentEscape),
        Some(path) => if vstd::utf8::valid_utf8(path) {
            Ok(path)
        } else {
            Err(ManifestFault::NotUtf8)
        },
    }
}

/// The path that the IRI of a graph document names, as the manifest gives
/// it; a relative one is still to be read against the manifest's directory.
pub fn local_path(uri: &[u8]) -> (r: Result<Vec<u8>, ManifestError>)
    ensures
        match r {
            Ok(path) => local_path_spec(uri@) == Ok::<Seq<u8>, ManifestFault>(path@),
            Err(e) => local_path_spec(uri@) == Err::<Seq<u8>, ManifestFault>(e@),
        },
{
    match percent_decode(strip_file_scheme(uri)) {
        None => Err(ManifestError::PercentEscape),
        Some(path) => if is_utf8(path.as_slice()) {
            Ok(path)
        } else {
            Err(ManifestError::NotUtf8)
        },
    }
}

/// What a manifest says of its graph: the kind, and the path of the graph
/// document.
pub open spec fn resolve_manifest_spec(ts: Seq<Triple>) -> Result<(InputKind, Seq<u8>), ManifestFault> {
    match input_kind_spec(ts) {
        None => Err(ManifestFault::UnknownKind),
        Some(kind) => match graph_document_spec(ts, kind) {
            None => Err(ManifestFault::NoGraph),
            Some(uri) => match local_path_spec(uri) {
                Ok(path) => Ok((kind, path)),
                Err(e) => Err(e),
            },
        },
    }
}

/// Reads the statements of a bundle manifest: the kind of graph it declares
/// and the path of its graph document.
pub fn resolve_manifest(triples: &[Triple]) -> (r: Result<(InputKind, Vec<u8>), ManifestError>)
    ensures
        match r {
            Ok((kind, path)) => resolve_manifest_spec(triples@) == Ok::<(InputKind, Seq<u8>), ManifestFault>((kind, path@)),
            Err(e) => resolve_manifest_spec(triples@) == Err::<(InputKind, Seq<u8>), ManifestFault>(e@),
        },
{
    let kind = match input_kind(triples) {
        None => return Err(ManifestError::UnknownKind),
        Some(kind) => kind,
    };
    let uri = match graph_document(triples, kind) {
        None => return Err(ManifestError::NoGraph),
        Some(uri) => uri,
    };
    match local_path(uri) {
        Ok(path) => Ok((kind, path)),
        Err(e) => Err(e),
    }
}

// ---------------------------------------------------------------------------
// The graph document's path, read against the manifest's directory.

/// The position of the last `/` in `path`, if it holds one.
pub open spec fn last_slash(path: Seq<u8>) -> Option<int>
    decreases path.len(),
{
    if path.len() == 0 {
        None
    } else if path.last() == 0x2fu8 {
        Some(path.len() - 1)
    } else {
        last_slash(path.drop_last())
    }
}

proof fn lemma_last_slash(path: Seq<u8>)
    ensures
        last_slash(path) matches Some(i) ==> 0 <= i < path.len() && path[i] == 0x2fu8,
    decreases path.len(),
{
    if path.len() > 0 && path.last() != 0x2fu8 {
        lemma_last_slash(path.drop_last());
    }
}

/// `path` without the `/` bytes it ends with.
pub open spec fn trim_trailing_slashes(path: Seq<u8>) -> Seq<u8>
    decreases path.len(),
{
    if path.len() > 0 && path.last() == 0x2fu8 {
        trim_trailing_slashes(path.drop_last())
    } else {
        path
    }
}

/// The directory of the manifest at `manifest_path`: what comes before its
/// last `/`, without trailing slashes, `/` where only slashes come before
/// it, and nothing where the path holds no `/`.
pub open spec fn manifest_dir(manifest_path: Seq<u8>) -> Seq<u8> {
    match last_slash(manifest_path) {
        None => Seq::empty(),
        Some(i) => {
            let dir = trim_trailing_slashes(manifest_path.take(i));
            if dir.len() == 0 {
                seq![0x2fu8]
            } else {
                dir
            }
        },
    }
}

/// `path` read against the directory `dir`: an absolute path stands as it
/// is, a relative one follows the directory and a `/`.
pub open spec fn joined_path(dir: Seq<u8>, path: Seq<u8>) -> Seq<u8> {
    if path.len() > 0 && path[0] == 0x2fu8 {
        path
    } else if dir.len() == 0 {
        path
    } else if dir.last() == 0x2fu8 {
        dir + path
    } else {
        dir + seq![0x2fu8] + path
    }
}

/// What a manifest at `manifest_path` says of its graph: the kind, and the
/// path of the graph document read against the manifest's directory.
pub open spec fn resolve_input_spec(manifest_path: Seq<u8>, ts: Seq<Triple>) -> Result<
    (InputKind, Seq<u8>),
    ManifestFault,
> {
    match resolve_manifest_spec(ts) {
        Ok((kind, path)) => Ok((kind, joined_path(manifest_dir(manifest_path), path))),
        Err(e) => Err(e),
    }
}

/// Where the manifest names an absolute graph path, the manifest's own
/// location changes nothing; a relative one ends up inside the manifest's
/// directory.
pub proof fn lemma_graph_path_against_manifest(manifest_path: Seq<u8>, ts: Seq<Triple>)
    ensures
        resolve_manifest_spec(ts) matches Ok((kind, path)) ==> {
            &&& path.len() > 0 && path[0] == 0x2fu8 ==> resolve_input_spec(manifest_path, ts)
                == resolve_manifest_spec(ts)
            &&& !(path.len() > 0 && path[0] == 0x2fu8) && manifest_dir(manifest_path).len() > 0 ==> (
            resolve_input_spec(manifest_path, ts) matches Ok((k, joined)) && k == kind && has_prefix(
                joined,
                manifest_dir(manifest_path),
            ) && joined.subrange(joined.len() - path.len(), joined.len() as int) == path)
        },
{
    if let Ok((kind, path)) = resolve_manifest_spec(ts) {
        let dir = manifest_dir(manifest_path);
        if !(path.len() > 0 && path[0] == 0x2fu8) && dir.len() > 0 {
            let joined = joined_path(dir, path);
            if dir.last() == 0x2fu8 {
                assert(joined.subrange(0, dir.len() as int) =~= dir);
                assert(joined.subrange(joined.len() - path.len(), joined.len() as int) =~= path);
            } else {
                assert(joined.subrange(0, dir.len() as int) =~= dir);
                assert(joined.subrange(joined.len() - path.len(), joined.len() as int) =~= path);
            }
        }
    }
}

/// The position of the last `/` in `path`.
fn find_last_slash(path: &[u8]) -> (r: Option<usize>)
    ensures
        match r {
            Some(i) => last_slash(path@) == Some(i as int),
            None => last_slash(path@) is None,
        },
{
    let mut n: usize = path.len();
    assert(path@.take(n as int) =~= path@);
    while n > 0
        invariant
            n <= path@.len(),
            last_slash(path@) == last_slash(path@.take(n as int)),
        decreases n,
    {
        assert(path@.take(n as int).drop_last() =~= path@.take(n - 1));
        if path[n - 1] == 0x2f {
            return Some(n - 1);
        }
        n = n - 1;
    }
    None
}

/// The directory of the manifest at `manifest_path`.
pub fn manifest_directory(manifest_path: &[u8]) -> (r: Vec<u8>)
    ensures
        r@ == manifest_dir(manifest_path@),
{
    match find_last_slash(manifest_path) {
        None => Vec::new(),
        Some(i) => {
            proof {
                lemma_last_slash(manifest_path@);
            }
            let mut end: usize = i;
            while end > 0 && manifest_path[end - 1] == 0x2f
                invariant
                    end <= i < manifest_path@.len(),
                    trim_trailing_slashes(manifest_path@.take(i as int)) == trim_trailing_slashes(
                        manifest_path@.take(end as int),
                    ),
                decreases end,
            {
                assert(manifest_path@.take(end as int).drop_last() =~= manifest_path@.take(end - 1));
                end = end - 1;
            }
            proof {
                let t = manifest_path@.take(end as int);
                if end > 0 {
                    assert(t.last() == manifest_path@[end - 1]);
                }
                assert(trim_trailing_slashes(t) == t);
            }
            if end == 0 {
                vec![0x2fu8]
            } else {
                let mut dir: Vec<u8> = Vec::new();
                let mut k: usize = 0;
                while k < end
                    invariant
                        k <= end <= manifest_path@.len(),
                        dir@ == manifest_path@.take(k as int),
                    decreases end - k,
                {
                    dir.push(manifest_path[k]);
                    k = k + 1;
                    assert(dir@ =~= manifest_path@.take(k as int));
                }
                dir
            }
        },
    }
}

/// `path` read against the directory `dir`.
pub fn join_path(dir: &[u8], path: &[u8]) -> (r: Vec<u8>)
    ensures
        r@ == joined_path(dir@, path@),
{
    let mut out: Vec<u8> = Vec::new();
    if path.len() > 0 && path[0] == 0x2f {
        crate::pack::append_bytes(&mut out, path);
        assert(out@ =~= path@);
        return out;
    }
    if dir.len() > 0 {
        crate::pack::append_bytes(&mut out, dir);
        if dir[dir.len() - 1] != 0x2f {
            out.push(0x2f);
        }
    }
    crate::pack::append_bytes(&mut out, path);
    assert(out@ =~= joined_path(dir@, path@));
    out
}

/// Reads the statements of the bundle manifest at `manifest_path`: the kind
/// of graph it declares and the path of its graph document, a relative one
/// read against the manifest's directory.
pub fn resolve_input(manifest_path: &[u8], triples: &[Triple]) -> (r: Result<(InputKind, Vec<u8>), ManifestError>)
    ensures
        match r {
            Ok((kind, path)) => resolve_input_spec(manifest_path@, triples@) == Ok::<
                (InputKind, Seq<u8>),
                ManifestFault,
            >((kind, path@)),
            Err(e) => resolve_input_spec(manifest_path@, triples@) == Err::<(InputKind, Seq<u8>), ManifestFault>(
                e@,
            ),
        },
{
    match resolve_manifest(triples) {
        Ok((kind, path)) => {
            let dir = manifest_directory(manifest_path);
            Ok((kind, join_path(dir.as_slice(), path.as_slice())))
        },
        Err(e) => Err(e),
    }
}

// ---------------------------------------------------------------------------
// Where the manifest of an input is.

pub const MANIFEST_FILE: &'static str = "manifest.ttl";

/// The last component of `path`: what follows its last `/`, trailing
/// slashes aside.
pub open spec fn file_name_of(path: Seq<u8>) -> Seq<u8> {
    let t = trim_trailing_slashes(path);
    match last_slash(t) {
        None => t,
        Some(i) => t.subrange(i + 1, t.len() as int),
    }
}

/// The manifest inside the bundle directory `dir`.
pub open spec fn bundle_manifest_spec(dir: Seq<u8>) -> Seq<u8> {
    joined_path(dir, MANIFEST_FILE.spec_bytes())
}

/// Why an input names no manifest.
#[derive(Clone, Copy, Debug, PartialEq, Eq, Structural)]
pub enum InputPathError {
    /// The input is a directory without a `manifest.ttl` file.
    NoManifest,
    /// The input is neither a directory nor a `manifest.ttl` file.
    NotABundle,
}

/// The manifest that the input `path` names: the `manifest.ttl` of a
/// directory, or the path itself where it is a file of that name. The file
/// system's answers come in as `is_dir` (the path is a directory),
/// `manifest_is_file` (the directory's `manifest.ttl` is a file) and
/// `is_file` (the path is a file).
pub open spec fn manifest_location_spec(
    path: Seq<u8>,
    is_dir: bool,
    manifest_is_file: bool,
    is_file: bool,
) -> Result<Seq<u8>, InputPathError> {
    if is_dir {
        if manifest_is_file {
            Ok(bundle_manifest_spec(path))
        } else {
            Err(InputPathError::NoManifest)
        }
    } else if file_name_of(path) == MANIFEST_FILE.spec_bytes() && is_file {
        Ok(path)
    } else {
        Err(InputPathError::NotABundle)
    }
}

/// The manifest inside the bundle directory `dir`.
pub fn bundle_manifest(dir: &[u8]) -> (r: Vec<u8>)
    ensures
        r@ == bundle_manifest_spec(dir@),
{
    join_path(dir, MANIFEST_FILE.as_bytes())
}

/// The last component of `path`.
pub fn file_name(path: &[u8]) -> (r: Vec<u8>)
    ensures
        r@ == file_name_of(path@),
{
    let mut end: usize = path.len();
    assert(path@.take(end as int) =~= path@);
    while end > 0 && path[end - 1] == 0x2f
        invariant
            end <= path@.len(),
            trim_trailing_slashes(path@) == trim_trailing_slashes(path@.take(end as int)),
        decreases end,
    {
        assert(path@.take(end as int).drop_last() =~= path@.take(end - 1));
        end = end - 1;
    }
    let ghost t = path@.take(end as int);
    proof {
        if end > 0 {
            assert(t.last() == path@[end - 1]);
        }
        assert(trim_trailing_slashes(t) == t);
    }
    let (trimmed, _) = path.split_at(end);
    assert(trimmed@ =~= t);
    let start = match find_last_slash(trimmed) {
        None => 0,
        Some(i) => {
            proof {
                lemma_last_slash(t);
            }
            i + 1
        },
    };
    let mut out: Vec<u8> = Vec::new();
    let mut k: usize = start;
    while k < end
        invariant
            start <= k <= end <= path@.len(),
            out@ == path@.subrange(start as int, k as int),
        decreases end - k,
    {
        out.push(path[k]);
        k = k + 1;
        assert(out@ =~= path@.subrange(start as int, k as int));
    }
    assert(out@ =~= file_name_of(path@));
    out
}

/// The manifest that the input `path` names; see [`manifest_location_spec`].
pub fn manifest_location(path: &[u8], is_dir: bool, manifest_is_file: bool, is_file: bool) -> (r: Result<
    Vec<u8>,
    InputPathError,
>)
    ensures
        match r {
            Ok(m) => manifest_location_spec(path@, is_dir, manifest_is_file, is_file) == Ok::<Seq<u8>, InputPathError>(m@),
            Err(e) => manifest_location_spec(path@, is_dir, manifest_is_file, is_file) == Err::<Seq<u8>, InputPathError>(e),
        },
{
    if is_dir {
        if manifest_is_file {
            Ok(bundle_manifest(path))
        } else {
            Err(InputPathError::NoManifest)
        }
    } else {
        let name = file_name(path);
        if bytes_equal(name.as_slice(), MANIFEST_FILE.as_bytes()) && is_file {
            Ok(vstd::slice::slice_to_vec(path))
        } else {
            Err(InputPathError::NotABundle)
        }
    }
}

} // verus!
