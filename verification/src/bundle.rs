//! The flash-resident plugin bundle: a little-endian header, a run of plugin
//! entries and a compiled plugin graph.  Nothing is copied: entries and graph
//! nodes are borrowed slices of the bundle bytes.

use vstd::prelude::*;
use crate::le::{le_u16, le_u32, read_u16, read_u32, read_u8};

verus! {

/// `b"PICO LV2"`.
pub const MAGIC: [u8; 8] = [0x50, 0x49, 0x43, 0x4f, 0x20, 0x4c, 0x56, 0x32];

/// Bundle format version.
pub const VERSION: u32 = 2;

/// Address of the bundle in the Pico's flash.
pub const FLASH_ADDRESS: usize = 0x1018_0000;

/// Size reserved for the bundle.
pub const MAX_SIZE: usize = 524288;

/// `b"PICO GRP"`.
pub const GRAPH_MAGIC: [u8; 8] = [0x50, 0x49, 0x43, 0x4f, 0x20, 0x47, 0x52, 0x50];

/// Graph format version.
pub const GRAPH_VERSION: u32 = 1;

pub const HEADER_SIZE: usize = 20;

pub const RECORD_SIZE: usize = 12;

pub const GRAPH_HEADER_SIZE: usize = 16;

pub const EDGE_SIZE: usize = 8;

pub open spec fn magic_seq() -> Seq<u8> {
    seq![0x50u8, 0x49u8, 0x43u8, 0x4fu8, 0x20u8, 0x4cu8, 0x56u8, 0x32u8]
}

pub open spec fn graph_magic_seq() -> Seq<u8> {
    seq![0x50u8, 0x49u8, 0x43u8, 0x4fu8, 0x20u8, 0x47u8, 0x52u8, 0x50u8]
}

/// Why a bundle, or a request on it, was refused.
#[derive(Clone, Copy, Debug, PartialEq, Eq, Structural)]
pub enum BundleError {
    Header,
    Truncated,
    GraphLength,
    Graph,
    NotFound,
}

// ---------------------------------------------------------------------------
// The format, stated over byte sequences.

/// The header is present, carries the magic and the supported version.
pub open spec fn header_ok(s: Seq<u8>) -> bool {
    &&& s.len() >= 20
    &&& s.subrange(0, 8) == magic_seq()
    &&& le_u32(s, 8) == VERSION
}

/// Number of plugin entries declared by the header.
pub open spec fn declared_count(s: Seq<u8>) -> int {
    le_u32(s, 12)
}

/// Length of the graph declared by the header.
pub open spec fn declared_graph_length(s: Seq<u8>) -> int {
    le_u32(s, 16)
}

pub open spec fn record_uri_length(s: Seq<u8>, o: int) -> int {
    le_u16(s, o)
}

pub open spec fn record_binary_length(s: Seq<u8>, o: int) -> int {
    le_u32(s, o + 4)
}

pub open spec fn record_metadata_length(s: Seq<u8>, o: int) -> int {
    le_u32(s, o + 8)
}

/// The end of the entry whose record starts at `o`, when the record and the
/// three payloads it announces all lie inside `s`.
pub open spec fn entry_end(s: Seq<u8>, o: int) -> Option<int> {
    if 0 <= o && o + 12 <= s.len() {
        let end = o + 12 + record_uri_length(s, o) + record_binary_length(s, o)
            + record_metadata_length(s, o);
        if end <= s.len() {
            Some(end)
        } else {
            None
        }
    } else {
        None
    }
}

/// Where the record of entry `n` starts when the entries start at `o` and
/// the first `n` of them are well formed.
pub open spec fn entries_end(s: Seq<u8>, o: int, n: nat) -> Option<int>
    decreases n,
{
    if n == 0 {
        Some(o)
    } else {
        match entries_end(s, o, (n - 1) as nat) {
            Some(p) => entry_end(s, p),
            None => None,
        }
    }
}

/// The record offset of entry `i` (`i` entries in).
pub open spec fn entry_offset(s: Seq<u8>, i: int) -> Option<int> {
    if i < 0 {
        None
    } else {
        entries_end(s, 20, i as nat)
    }
}

/// The outcome of parsing `s` as a bundle.
pub open spec fn bundle_check(s: Seq<u8>) -> Result<(), BundleError> {
    if !header_ok(s) {
        Err(BundleError::Header)
    } else {
        match entries_end(s, 20, declared_count(s) as nat) {
            None => Err(BundleError::Truncated),
            Some(e) => if e + declared_graph_length(s) <= s.len() {
                Ok(())
            } else {
                Err(BundleError::GraphLength)
            },
        }
    }
}

/// The three payloads of entry `i`: URI, binary and metadata.
pub open spec fn entry_spec(s: Seq<u8>, i: int) -> (Seq<u8>, Seq<u8>, Seq<u8>) {
    let o = entry_offset(s, i).unwrap();
    let uri_start = o + 12;
    let binary_start = uri_start + record_uri_length(s, o);
    let metadata_start = binary_start + record_binary_length(s, o);
    let metadata_end = metadata_start + record_metadata_length(s, o);
    (
        s.subrange(uri_start, binary_start),
        s.subrange(binary_start, metadata_start),
        s.subrange(metadata_start, metadata_end),
    )
}

/// The graph bytes of a well-formed bundle.
pub open spec fn graph_bytes_spec(s: Seq<u8>) -> Seq<u8> {
    let e = entries_end(s, 20, declared_count(s) as nat).unwrap();
    s.subrange(e, e + declared_graph_length(s))
}

/// The index of the first entry whose URI is `uri`, when there is one.
pub open spec fn first_with_uri(s: Seq<u8>, uri: Seq<u8>, i: int) -> bool {
    &&& 0 <= i < declared_count(s)
    &&& entry_spec(s, i).0 == uri
    &&& forall|j: int| 0 <= j < i ==> entry_spec(s, j).0 != uri
}

// ---- graphs ----

/// The end of the node records after `n` nodes starting at `o`; a node record
/// is a `u16` URI length, two reserved bytes and the URI.
pub open spec fn graph_nodes_end(s: Seq<u8>, o: int, n: nat) -> Option<int>
    decreases n,
{
    if n == 0 {
        Some(o)
    } else {
        match graph_nodes_end(s, o, (n - 1) as nat) {
            Some(p) => if 0 <= p && p + 2 <= s.len() {
                Some(p + 4 + le_u16(s, p))
            } else {
                None
            },
            None => None,
        }
    }
}

pub open spec fn graph_node_count(s: Seq<u8>) -> int {
    le_u16(s, 12)
}

pub open spec fn graph_edge_count(s: Seq<u8>) -> int {
    le_u16(s, 14)
}

/// `s` is a well-formed graph: header, then exactly the node records and the
/// eight-byte edge records.
pub open spec fn graph_ok(s: Seq<u8>) -> bool {
    &&& s.len() >= 16
    &&& s.subrange(0, 8) == graph_magic_seq()
    &&& le_u32(s, 8) == GRAPH_VERSION
    &&& graph_nodes_end(s, 16, graph_node_count(s) as nat) matches Some(e)
    &&& e + 8 * graph_edge_count(s) == s.len()
}

/// The URI of node `i` of a well-formed graph.
pub open spec fn graph_node_spec(s: Seq<u8>, i: int) -> Seq<u8> {
    let o = graph_nodes_end(s, 16, i as nat).unwrap();
    s.subrange(o + 4, o + 4 + le_u16(s, o))
}

/// Where the edge records of a well-formed graph start.
pub open spec fn graph_edges_start(s: Seq<u8>) -> int {
    graph_nodes_end(s, 16, graph_node_count(s) as nat).unwrap()
}

/// Edge `j` of a well-formed graph, as (source node, source port,
/// destination node, destination port).
pub open spec fn graph_edge_spec(s: Seq<u8>, j: int) -> (int, int, int, int) {
    let o = graph_edges_start(s) + 8 * j;
    (le_u16(s, o), s[o + 2] as int, le_u16(s, o + 4), s[o + 6] as int)
}

// ---------------------------------------------------------------------------
// Lemmas on the offsets.

pub proof fn lemma_entries_end_monotone(s: Seq<u8>, o: int, i: nat, n: nat)
    requires
        0 <= o,
        i <= n,
        entries_end(s, o, n) is Some,
    ensures
        entries_end(s, o, i) is Some,
        o <= entries_end(s, o, i).unwrap() <= entries_end(s, o, n).unwrap() <= if n == 0 {
            entries_end(s, o, n).unwrap()
        } else {
            s.len() as int
        },
    decreases n,
{
    if n > 0 {
        if i < n {
            lemma_entries_end_monotone(s, o, i, (n - 1) as nat);
        } else {
            lemma_entries_end_monotone(s, o, (n - 1) as nat, (n - 1) as nat);
        }
    }
}

pub proof fn lemma_graph_nodes_end_monotone(s: Seq<u8>, o: int, i: nat, n: nat)
    requires
        0 <= o,
        i <= n,
        graph_nodes_end(s, o, n) is Some,
    ensures
        graph_nodes_end(s, o, i) is Some,
        o <= graph_nodes_end(s, o, i).unwrap() <= graph_nodes_end(s, o, n).unwrap(),
        i < n ==> graph_nodes_end(s, o, i).unwrap() + 2 <= s.len(),
    decreases n,
{
    if n > 0 {
        if i < n {
            lemma_graph_nodes_end_monotone(s, o, i, (n - 1) as nat);
            lemma_graph_nodes_end_monotone(s, o, (n - 1) as nat, (n - 1) as nat);
        } else {
            lemma_graph_nodes_end_monotone(s, o, (n - 1) as nat, (n - 1) as nat);
        }
    }
}

// ---------------------------------------------------------------------------
// Executable reader.

/// Compares two byte strings.
pub fn bytes_equal(a: &[u8], b: &[u8]) -> (r: bool)
    ensures
        r == (a@ == b@),
{
    if a.len() != b.len() {
        return false;
    }
    let mut i: usize = 0;
    while i < a.len()
        invariant
            a@.len() == b@.len(),
            i <= a@.len(),
            forall|k: int| 0 <= k < i ==> a@[k] == b@[k],
        decreases a@.len() - i,
    {
        if a[i] != b[i] {
            return false;
        }
        i = i + 1;
    }
    assert(a@ =~= b@);
    true
}

/// `bytes` starts with the eight bytes of `magic`.
fn starts_with_magic(bytes: &[u8], magic: &[u8; 8]) -> (r: bool)
    requires
        bytes@.len() >= 8,
    ensures
        r == (bytes@.subrange(0, 8) == magic@),
{
    let mut i: usize = 0;
    while i < 8
        invariant
            bytes@.len() >= 8,
            i <= 8,
            forall|k: int| 0 <= k < i ==> bytes@[k] == magic@[k],
        decreases 8 - i,
    {
        if bytes[i] != magic[i] {
            assert(bytes@.subrange(0, 8)[i as int] != magic@[i as int]);
            return false;
        }
        i = i + 1;
    }
    assert(bytes@.subrange(0, 8) =~= magic@);
    true
}

pub proof fn lemma_magic_seq()
    ensures
        MAGIC@ == magic_seq(),
        GRAPH_MAGIC@ == graph_magic_seq(),
{
    assert(MAGIC@ =~= magic_seq());
    assert(GRAPH_MAGIC@ =~= graph_magic_seq());
}

/// Reads the record at `offset` and returns the end offsets of the URI, the
/// binary and the metadata, refusing records that do not fit in `bytes`.
fn read_entry(bytes: &[u8], offset: usize) -> (r: Result<(usize, usize, usize), BundleError>)
    ensures
        match r {
            Ok((uri_end, binary_end, metadata_end)) => {
                &&& entry_end(bytes@, offset as int) == Some(metadata_end as int)
                &&& uri_end == offset + 12 + record_uri_length(bytes@, offset as int)
                &&& binary_end == uri_end + record_binary_length(bytes@, offset as int)
            },
            Err(e) => e == BundleError::Truncated && entry_end(bytes@, offset as int) is None,
        },
{
    if offset >= bytes.len() || bytes.len() - offset < RECORD_SIZE {
        return Err(BundleError::Truncated);
    }
    let uri_length = match read_u16(bytes, offset) {
        Some(v) => v as usize,
        None => return Err(BundleError::Truncated),
    };
    let binary_length = match read_u32(bytes, offset + 4) {
        Some(v) => v as usize,
        None => return Err(BundleError::Truncated),
    };
    let metadata_length = match read_u32(bytes, offset + 8) {
        Some(v) => v as usize,
        None => return Err(BundleError::Truncated),
    };
    let start = offset + RECORD_SIZE;
    let uri_end = match start.checked_add(uri_length) {
        Some(v) => v,
        None => return Err(BundleError::Truncated),
    };
    let binary_end = match uri_end.checked_add(binary_length) {
        Some(v) => v,
        None => return Err(BundleError::Truncated),
    };
    let metadata_end = match binary_end.checked_add(metadata_length) {
        Some(v) => v,
        None => return Err(BundleError::Truncated),
    };
    if metadata_end > bytes.len() {
        return Err(BundleError::Truncated);
    }
    Ok((uri_end, binary_end, metadata_end))
}

/// One plugin in a bundle: its URI, its binary and its metadata.
pub struct Entry<'a> {
    pub uri: &'a [u8],
    pub binary: &'a [u8],
    pub metadata: &'a [u8],
}

impl<'a> Entry<'a> {
    pub open spec fn parts(&self) -> (Seq<u8>, Seq<u8>, Seq<u8>) {
        (self.uri@, self.binary@, self.metadata@)
    }
}

/// A validated bundle.
pub struct Bundle<'a> {
    bytes: &'a [u8],
    count: u32,
    graph_length: usize,
}

impl<'a> View for Bundle<'a> {
    type V = Seq<u8>;

    closed spec fn view(&self) -> Seq<u8> {
        self.bytes@
    }
}

impl<'a> Bundle<'a> {
    #[verifier::type_invariant]
    closed spec fn inv(self) -> bool {
        &&& bundle_check(self.bytes@) is Ok
        &&& self.count == declared_count(self.bytes@)
        &&& self.graph_length == declared_graph_length(self.bytes@)
    }

    /// Number of plugin entries.
    pub open spec fn spec_count(&self) -> int {
        declared_count(self@)
    }

    /// Validates the header, every entry and the graph's extent.
    pub fn parse(bytes: &'a [u8]) -> (r: Result<Self, BundleError>)
        ensures
            match r {
                Ok(b) => bundle_check(bytes@) is Ok && b@ == bytes@,
                Err(e) => bundle_check(bytes@) == Err::<(), BundleError>(e),
            },
    {
        proof {
            lemma_magic_seq();
        }
        if bytes.len() < HEADER_SIZE || !starts_with_magic(bytes, &MAGIC) {
            return Err(BundleError::Header);
        }
        match read_u32(bytes, 8) {
            Some(v) => if v != VERSION {
                return Err(BundleError::Header);
            },
            None => return Err(BundleError::Header),
        }
        let count = match read_u32(bytes, 12) {
            Some(v) => v,
            None => return Err(BundleError::Header),
        };
        let graph_length = match read_u32(bytes, 16) {
            Some(v) => v as usize,
            None => return Err(BundleError::Header),
        };
        let mut offset: usize = HEADER_SIZE;
        let mut index: u32 = 0;
        while index < count
            invariant
                header_ok(bytes@),
                count == declared_count(bytes@),
                index <= count,
                entries_end(bytes@, 20, index as nat) == Some(offset as int),
            decreases count - index,
        {
            match read_entry(bytes, offset) {
                Ok((_, _, end)) => {
                    offset = end;
                },
                Err(e) => {
                    proof {
                        lemma_entries_none_after(bytes@, index as nat, count as nat);
                    }
                    return Err(e);
                },
            }
            index = index + 1;
        }
        let end = match offset.checked_add(graph_length) {
            Some(v) => v,
            None => return Err(BundleError::GraphLength),
        };
        if end > bytes.len() {
            return Err(BundleError::GraphLength);
        }
        Ok(Bundle { bytes, count, graph_length })
    }

    /// Number of plugin entries.
    pub fn plugin_count(&self) -> (r: u32)
        ensures
            r == self.spec_count(),
    {
        proof {
            use_type_invariant(self);
        }
        self.count
    }

    /// Entry `requested_index`, or `Truncated` past the last entry.
    pub fn entry_at(&self, requested_index: u32) -> (r: Result<Entry<'a>, BundleError>)
        ensures
            match r {
                Ok(e) => requested_index < self.spec_count() && e.parts() == entry_spec(
                    self@,
                    requested_index as int,
                ),
                Err(e) => e == BundleError::Truncated && requested_index >= self.spec_count(),
            },
    {
        proof {
            use_type_invariant(self);
        }
        let mut offset: usize = HEADER_SIZE;
        let mut index: u32 = 0;
        while index < self.count
            invariant
                bundle_check(self.bytes@) is Ok,
                self.count == declared_count(self.bytes@),
                index <= self.count,
                index <= requested_index,
                entries_end(self.bytes@, 20, index as nat) == Some(offset as int),
            decreases self.count - index,
        {
            proof {
                lemma_entries_end_monotone(
                    self.bytes@,
                    20,
                    (index + 1) as nat,
                    self.count as nat,
                );
            }
            match read_entry(self.bytes, offset) {
                Ok((uri_end, binary_end, metadata_end)) => {
                    if index == requested_index {
                        let uri = &self.bytes[offset + RECORD_SIZE..uri_end];
                        let binary = &self.bytes[uri_end..binary_end];
                        let metadata = &self.bytes[binary_end..metadata_end];
                        return Ok(Entry { uri, binary, metadata });
                    }
                    offset = metadata_end;
                },
                Err(e) => {
                    return Err(e);
                },
            }
            index = index + 1;
        }
        Err(BundleError::Truncated)
    }

    /// The first entry whose URI is `uri`, or `NotFound`.
    pub fn find(&self, uri: &[u8]) -> (r: Result<Entry<'a>, BundleError>)
        ensures
            match r {
                Ok(e) => exists|i: int|
                    first_with_uri(self@, uri@, i) && e.parts() == #[trigger] entry_spec(self@, i),
                Err(e) => e == BundleError::NotFound && forall|i: int|
                    0 <= i < self.spec_count() ==> #[trigger] entry_spec(self@, i).0 != uri@,
            },
    {
        proof {
            use_type_invariant(self);
        }
        let mut index: u32 = 0;
        while index < self.count
            invariant
                self.count == self.spec_count(),
                index <= self.count,
                forall|j: int| 0 <= j < index ==> #[trigger] entry_spec(self@, j).0 != uri@,
            decreases self.count - index,
        {
            let entry = match self.entry_at(index) {
                Ok(e) => e,
                Err(e) => return Err(e),
            };
            if bytes_equal(entry.uri, uri) {
                assert(first_with_uri(self@, uri@, index as int));
                return Ok(entry);
            }
            index = index + 1;
        }
        Err(BundleError::NotFound)
    }

    /// The graph that follows the entries.
    pub fn graph_bytes(&self) -> (r: Result<&'a [u8], BundleError>)
        ensures
            r matches Ok(g) && g@ == graph_bytes_spec(self@),
    {
        proof {
            use_type_invariant(self);
        }
        let mut offset: usize = HEADER_SIZE;
        let mut index: u32 = 0;
        while index < self.count
            invariant
                bundle_check(self.bytes@) is Ok,
                self.count == declared_count(self.bytes@),
                index <= self.count,
                entries_end(self.bytes@, 20, index as nat) == Some(offset as int),
            decreases self.count - index,
        {
            proof {
                lemma_entries_end_monotone(
                    self.bytes@,
                    20,
                    (index + 1) as nat,
                    self.count as nat,
                );
            }
            match read_entry(self.bytes, offset) {
                Ok((_, _, end)) => {
                    offset = end;
                },
                Err(e) => {
                    return Err(e);
                },
            }
            index = index + 1;
        }
        let total = self.bytes.len();
        let end = offset + self.graph_length;
        Ok(&self.bytes[offset..end])
    }

    /// The compiled plugin graph, or `Graph` when it does not parse.
    pub fn graph(&self) -> (r: Result<Graph<'a>, BundleError>)
        ensures
            match r {
                Ok(g) => graph_ok(graph_bytes_spec(self@)) && g.spec_bytes() == graph_bytes_spec(self@)
                    && g.wf(),
                Err(e) => e == BundleError::Graph && !graph_ok(graph_bytes_spec(self@)),
            },
    {
        let bytes = match self.graph_bytes() {
            Ok(b) => b,
            Err(e) => return Err(e),
        };
        match Graph::parse(bytes) {
            Ok(g) => Ok(g),
            Err(_) => Err(BundleError::Graph),
        }
    }
}

/// Once an entry fails, every later count fails too.
proof fn lemma_entries_none_after(s: Seq<u8>, i: nat, n: nat)
    requires
        i < n,
        entries_end(s, 20, i) is Some,
        entry_end(s, entries_end(s, 20, i).unwrap()) is None,
    ensures
        entries_end(s, 20, n) is None,
    decreases n,
{
    if n > i + 1 {
        lemma_entries_none_after(s, i, (n - 1) as nat);
    }
}

/// One node of a compiled graph: the URI of its plugin.
#[derive(Clone, Copy)]
pub struct Node<'a> {
    pub uri: &'a [u8],
}

/// One connection of a compiled graph.
#[derive(Clone, Copy)]
pub struct Edge {
    pub source_node: u16,
    pub source_port: u8,
    pub destination_node: u16,
    pub destination_port: u8,
}

/// A validated compiled graph.
pub struct Graph<'a> {
    bytes: &'a [u8],
    pub node_count: u16,
    pub edge_count: u16,
}

impl<'a> Graph<'a> {
    /// The bytes the graph was parsed from.
    pub closed spec fn spec_bytes(&self) -> Seq<u8> {
        self.bytes@
    }

    /// Number of nodes, as held by the graph.
    pub closed spec fn spec_node_count(&self) -> int {
        self.node_count as int
    }

    /// Number of edges, as held by the graph.
    pub closed spec fn spec_edge_count(&self) -> int {
        self.edge_count as int
    }

    /// The graph's counts are those of its well-formed bytes.
    pub open spec fn wf(&self) -> bool {
        &&& graph_ok(self.spec_bytes())
        &&& self.spec_node_count() == graph_node_count(self.spec_bytes())
        &&& self.spec_edge_count() == graph_edge_count(self.spec_bytes())
    }

    /// Number of nodes.
    pub fn node_count(&self) -> (r: u16)
        ensures
            r == self.spec_node_count(),
    {
        self.node_count
    }

    /// Number of edges.
    pub fn edge_count(&self) -> (r: u16)
        ensures
            r == self.spec_edge_count(),
    {
        self.edge_count
    }

    /// Validates a compiled graph.
    pub fn parse(bytes: &'a [u8]) -> (r: Result<Self, ()>)
        ensures
            match r {
                Ok(g) => graph_ok(bytes@) && g.spec_bytes() == bytes@ && g.wf(),
                Err(_) => !graph_ok(bytes@),
            },
    {
        proof {
            lemma_magic_seq();
        }
        if bytes.len() < GRAPH_HEADER_SIZE || !starts_with_magic(bytes, &GRAPH_MAGIC) {
            return Err(());
        }
        match read_u32(bytes, 8) {
            Some(v) => if v != GRAPH_VERSION {
                return Err(());
            },
            None => return Err(()),
        }
        let node_count = match read_u16(bytes, 12) {
            Some(v) => v,
            None => return Err(()),
        };
        let edge_count = match read_u16(bytes, 14) {
            Some(v) => v,
            None => return Err(()),
        };
        let total = bytes.len();
        let mut offset: usize = GRAPH_HEADER_SIZE;
        let mut index: u16 = 0;
        while index < node_count
            invariant
                total == bytes@.len(),
                bytes@.len() >= 16,
                bytes@.subrange(0, 8) == graph_magic_seq(),
                le_u32(bytes@, 8) == GRAPH_VERSION,
                node_count == graph_node_count(bytes@),
                edge_count == graph_edge_count(bytes@),
                index <= node_count,
                graph_nodes_end(bytes@, 16, index as nat) == Some(offset as int),
            decreases node_count - index,
        {
            let uri_length = match read_u16(bytes, offset) {
                Some(v) => v as usize,
                None => {
                    proof {
                        lemma_graph_nodes_none_after(bytes@, index as nat, node_count as nat);
                    }
                    return Err(());
                },
            };
            let next = match offset.checked_add(4) {
                Some(v) => v,
                None => {
                    proof {
                        assert(graph_nodes_end(bytes@, 16, (index + 1) as nat) == Some(
                            offset + 4 + uri_length,
                        ));
                        lemma_graph_nodes_too_long(bytes@, (index + 1) as nat, node_count as nat, edge_count as int);
                    }
                    return Err(());
                },
            };
            offset = match next.checked_add(uri_length) {
                Some(v) => v,
                None => {
                    proof {
                        assert(graph_nodes_end(bytes@, 16, (index + 1) as nat) == Some(
                            offset + 4 + uri_length,
                        ));
                        lemma_graph_nodes_too_long(bytes@, (index + 1) as nat, node_count as nat, edge_count as int);
                    }
                    return Err(());
                },
            };
            index = index + 1;
        }
        let edges_length = edge_count as usize * EDGE_SIZE;
        let end = match offset.checked_add(edges_length) {
            Some(v) => v,
            None => return Err(()),
        };
        if end != bytes.len() {
            return Err(());
        }
        Ok(Graph { bytes, node_count, edge_count })
    }

    /// Walks the node records up to node `requested_index` and returns the
    /// offset of its record (or of the edges, past the last node).
    fn node_offset(&self, requested_index: u16) -> (r: usize)
        requires
            self.wf(),
            requested_index <= self.spec_node_count(),
        ensures
            graph_nodes_end(self.spec_bytes(), 16, requested_index as nat) == Some(r as int),
    {
        proof {
            lemma_graph_nodes_end_monotone(self.bytes@, 16, requested_index as nat, self.node_count as nat);
        }
        let total = self.bytes.len();
        let mut offset: usize = GRAPH_HEADER_SIZE;
        let mut index: u16 = 0;
        while index < requested_index
            invariant
                total == self.bytes@.len(),
                self.wf(),
                requested_index <= self.node_count,
                index <= requested_index,
                graph_nodes_end(self.bytes@, 16, index as nat) == Some(offset as int),
            decreases requested_index - index,
        {
            proof {
                lemma_graph_nodes_end_monotone(self.bytes@, 16, index as nat, self.node_count as nat);
                lemma_graph_nodes_end_monotone(self.bytes@, 16, (index + 1) as nat, self.node_count as nat);
            }
            let uri_length = match read_u16(self.bytes, offset) {
                Some(v) => v as usize,
                None => 0,
            };
            offset = offset + 4 + uri_length;
            index = index + 1;
        }
        offset
    }

    /// Node `requested_index`, or `Err` past the last node.
    pub fn node(&self, requested_index: u16) -> (r: Result<Node<'a>, ()>)
        requires
            self.wf(),
        ensures
            match r {
                Ok(n) => requested_index < self.spec_node_count() && n.uri@ == graph_node_spec(
                    self.spec_bytes(),
                    requested_index as int,
                ),
                Err(_) => requested_index >= self.spec_node_count(),
            },
    {
        if requested_index >= self.node_count {
            return Err(());
        }
        let offset = self.node_offset(requested_index);
        proof {
            lemma_graph_nodes_end_monotone(self.bytes@, 16, requested_index as nat, self.node_count as nat);
            lemma_graph_nodes_end_monotone(self.bytes@, 16, (requested_index + 1) as nat, self.node_count as nat);
        }
        let uri_length = match read_u16(self.bytes, offset) {
            Some(v) => v as usize,
            None => return Err(()),
        };
        let total = self.bytes.len();
        let uri_start = offset + 4;
        let uri_end = uri_start + uri_length;
        Ok(Node { uri: &self.bytes[uri_start..uri_end] })
    }

    /// Edge `requested_index`, or `Err` past the last edge.
    pub fn edge(&self, requested_index: u16) -> (r: Result<Edge, ()>)
        requires
            self.wf(),
        ensures
            match r {
                Ok(e) => requested_index < self.spec_edge_count() && (
                    e.source_node as int,
                    e.source_port as int,
                    e.destination_node as int,
                    e.destination_port as int,
                ) == graph_edge_spec(self.spec_bytes(), requested_index as int),
                Err(_) => requested_index >= self.spec_edge_count(),
            },
    {
        if requested_index >= self.edge_count {
            return Err(());
        }
        let total = self.bytes.len();
        let offset = self.node_offset(self.node_count);
        let edge_offset = offset + requested_index as usize * EDGE_SIZE;
        let source_node = match read_u16(self.bytes, edge_offset) {
            Some(v) => v,
            None => return Err(()),
        };
        let source_port = match read_u8(self.bytes, edge_offset + 2) {
            Some(v) => v,
            None => return Err(()),
        };
        let destination_node = match read_u16(self.bytes, edge_offset + 4) {
            Some(v) => v,
            None => return Err(()),
        };
        let destination_port = match read_u8(self.bytes, edge_offset + 6) {
            Some(v) => v,
            None => return Err(()),
        };
        Ok(Edge { source_node, source_port, destination_node, destination_port })
    }
}

proof fn lemma_graph_nodes_none_after(s: Seq<u8>, i: nat, n: nat)
    requires
        i < n,
        graph_nodes_end(s, 16, i) is Some,
        graph_nodes_end(s, 16, i).unwrap() + 2 > s.len(),
    ensures
        graph_nodes_end(s, 16, n) is None,
    decreases n,
{
    if n > i + 1 {
        lemma_graph_nodes_none_after(s, i, (n - 1) as nat);
    }
}

/// A node offset past `usize::MAX` rules the graph out.
proof fn lemma_graph_nodes_too_long(s: Seq<u8>, i: nat, n: nat, edges: int)
    requires
        i <= n,
        graph_nodes_end(s, 16, i) is Some,
        graph_nodes_end(s, 16, i).unwrap() > usize::MAX,
        s.len() <= usize::MAX,
        edges >= 0,
    ensures
        !(graph_nodes_end(s, 16, n) matches Some(e) && e + 8 * edges == s.len()),
{
    if graph_nodes_end(s, 16, n) is Some {
        lemma_graph_nodes_end_monotone(s, 16, i, n);
    }
}

} // verus!
