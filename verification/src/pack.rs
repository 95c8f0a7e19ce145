//! Writing bundles and flash images: the inverse of the reader in `bundle`.

use vstd::prelude::*;
use crate::le::{le_bytes_u16, le_bytes_u32, push_u16, push_u32, lemma_le_u16_roundtrip, lemma_le_u32_roundtrip};
use crate::bundle::{
    bytes_equal,
    bundle_check, declared_count, declared_graph_length, entries_end, entry_end, entry_offset,
    entry_spec, first_with_uri, graph_bytes_spec, graph_ok, header_ok, magic_seq, record_binary_length,
    record_metadata_length, record_uri_length, Graph, FLASH_ADDRESS, MAGIC,
    MAX_SIZE, VERSION,
};

verus! {

/// Size of a whole flash image.
pub const IMAGE_SIZE: usize = 2097152;

/// Start of the Pico's flash in its address space.
pub const FLASH_BASE: usize = 0x1000_0000;

/// One plugin to store in a bundle.
pub struct PluginEntry {
    pub uri: Vec<u8>,
    pub binary: Vec<u8>,
    pub metadata: Vec<u8>,
}

impl View for PluginEntry {
    type V = (Seq<u8>, Seq<u8>, Seq<u8>);

    open spec fn view(&self) -> (Seq<u8>, Seq<u8>, Seq<u8>) {
        (self.uri@, self.binary@, self.metadata@)
    }
}

/// Why a bundle or an image could not be written.
#[derive(Clone, Copy, Debug, PartialEq, Eq, Structural)]
pub enum PackError {
    /// No plugin, or more than a `u32` can count.
    PluginCount,
    /// The graph does not parse.
    InvalidGraph,
    /// The plugin at this index repeats the URI of an earlier one.
    DuplicateUri(usize),
    /// The URI of the plugin at this index does not fit a `u16` length.
    UriTooLong(usize),
    /// The bundle would be this many bytes, more than `MAX_SIZE`.
    TooLarge(usize),
    /// The firmware reaches into the bundle region.
    FirmwareOverlap,
}

// ---------------------------------------------------------------------------
// The layout written.

/// The bytes of one entry: record then payloads.
pub open spec fn entry_bytes(e: (Seq<u8>, Seq<u8>, Seq<u8>)) -> Seq<u8> {
    le_bytes_u16(e.0.len() as u16) + seq![0u8, 0u8] + le_bytes_u32(e.1.len() as u32)
        + le_bytes_u32(e.2.len() as u32) + e.0 + e.1 + e.2
}

/// The bytes of a run of entries.
pub open spec fn entries_bytes(p: Seq<(Seq<u8>, Seq<u8>, Seq<u8>)>) -> Seq<u8>
    decreases p.len(),
{
    if p.len() == 0 {
        Seq::empty()
    } else {
        entries_bytes(p.drop_last()) + entry_bytes(p.last())
    }
}

/// The header of a bundle of `count` entries and a graph of `graph_length`
/// bytes.
pub open spec fn header_bytes(count: int, graph_length: int) -> Seq<u8> {
    magic_seq() + le_bytes_u32(VERSION) + le_bytes_u32(count as u32) + le_bytes_u32(
        graph_length as u32,
    )
}

/// A whole bundle.
pub open spec fn bundle_bytes(p: Seq<(Seq<u8>, Seq<u8>, Seq<u8>)>, g: Seq<u8>) -> Seq<u8> {
    header_bytes(p.len() as int, g.len() as int) + entries_bytes(p) + g
}

/// Every length fits the field that records it.
pub open spec fn fits_fields(p: Seq<(Seq<u8>, Seq<u8>, Seq<u8>)>, g: Seq<u8>) -> bool {
    &&& p.len() <= u32::MAX
    &&& g.len() <= u32::MAX
    &&& forall|i: int|
        0 <= i < p.len() ==> {
            &&& (#[trigger] p[i]).0.len() <= u16::MAX
            &&& p[i].1.len() <= u32::MAX
            &&& p[i].2.len() <= u32::MAX
        }
}

/// The URI of entry `i` repeats that of an earlier entry.
pub open spec fn repeats_earlier(p: Seq<(Seq<u8>, Seq<u8>, Seq<u8>)>, i: int) -> bool {
    exists|j: int| 0 <= j < i && #[trigger] p[j].0 == p[i].0
}

/// The first per-entry problem among the first `n` entries, checked entry by
/// entry: a repeated URI, then a URI too long for its field.
pub open spec fn uri_problem(p: Seq<(Seq<u8>, Seq<u8>, Seq<u8>)>, n: nat) -> Option<PackError>
    decreases n,
{
    if n == 0 {
        None
    } else {
        match uri_problem(p, (n - 1) as nat) {
            Some(e) => Some(e),
            None => {
                let i = n - 1;
                if repeats_earlier(p, i) {
                    Some(PackError::DuplicateUri(i as usize))
                } else if p[i].0.len() > u16::MAX {
                    Some(PackError::UriTooLong(i as usize))
                } else {
                    None
                }
            },
        }
    }
}

/// `n`, or `usize::MAX` when `n` does not fit.
pub open spec fn saturate(n: int) -> usize {
    if n > usize::MAX {
        usize::MAX
    } else {
        n as usize
    }
}

/// The plugin entries as triples of byte sequences.
pub open spec fn entries_view(plugins: Seq<PluginEntry>) -> Seq<(Seq<u8>, Seq<u8>, Seq<u8>)> {
    plugins.map_values(|e: PluginEntry| e@)
}

/// The outcome of packing `p` and `g`, in the order the checks are made.
pub open spec fn pack_outcome(p: Seq<(Seq<u8>, Seq<u8>, Seq<u8>)>, g: Seq<u8>) -> Result<
    Seq<u8>,
    PackError,
> {
    if p.len() == 0 || p.len() > u32::MAX {
        Err(PackError::PluginCount)
    } else if !graph_ok(g) {
        Err(PackError::InvalidGraph)
    } else if let Some(e) = uri_problem(p, p.len()) {
        Err(e)
    } else if bundle_bytes(p, g).len() > MAX_SIZE {
        Err(PackError::TooLarge(saturate(bundle_bytes(p, g).len() as int)))
    } else {
        Ok(bundle_bytes(p, g))
    }
}

// ---------------------------------------------------------------------------
// Proof that the reader reads back what the writer wrote.

proof fn lemma_entries_take(p: Seq<(Seq<u8>, Seq<u8>, Seq<u8>)>, k: int)
    requires
        0 <= k < p.len(),
    ensures
        entries_bytes(p.take(k + 1)) == entries_bytes(p.take(k)) + entry_bytes(p[k]),
{
    assert(p.take(k + 1).drop_last() =~= p.take(k));
    assert(p.take(k + 1).last() == p[k]);
}

/// The bytes of the first `k` entries are a prefix of those of the first `n`.
proof fn lemma_entries_prefix(p: Seq<(Seq<u8>, Seq<u8>, Seq<u8>)>, k: int, n: int)
    requires
        0 <= k <= n <= p.len(),
    ensures
        entries_bytes(p.take(k)).len() <= entries_bytes(p.take(n)).len(),
        entries_bytes(p.take(n)).subrange(0, entries_bytes(p.take(k)).len() as int)
            == entries_bytes(p.take(k)),
    decreases n - k,
{
    if k == n {
        assert(entries_bytes(p.take(n)).subrange(0, entries_bytes(p.take(k)).len() as int)
            =~= entries_bytes(p.take(k)));
    } else {
        lemma_entries_prefix(p, k, n - 1);
        lemma_entries_take(p, n - 1);
        let a = entries_bytes(p.take(n - 1));
        let b = entry_bytes(p[n - 1]);
        let c = entries_bytes(p.take(k));
        assert((a + b).subrange(0, c.len() as int) =~= a.subrange(0, c.len() as int));
    }
}

/// Bytes of an entry read back through the record fields.
proof fn lemma_entry_fields(s: Seq<u8>, o: int, e: (Seq<u8>, Seq<u8>, Seq<u8>))
    requires
        0 <= o,
        o + entry_bytes(e).len() <= s.len(),
        s.subrange(o, o + entry_bytes(e).len()) == entry_bytes(e),
        e.0.len() <= u16::MAX,
        e.1.len() <= u32::MAX,
        e.2.len() <= u32::MAX,
    ensures
        entry_end(s, o) == Some(o + entry_bytes(e).len()),
        record_uri_length(s, o) == e.0.len(),
        record_binary_length(s, o) == e.1.len(),
        record_metadata_length(s, o) == e.2.len(),
        s.subrange(o + 12, o + 12 + e.0.len()) == e.0,
        s.subrange(o + 12 + e.0.len(), o + 12 + e.0.len() + e.1.len()) == e.1,
        s.subrange(o + 12 + e.0.len() + e.1.len(), o + 12 + e.0.len() + e.1.len() + e.2.len())
            == e.2,
{
    let x = entry_bytes(e);
    let w = s.subrange(o, o + x.len());
    assert(x.len() == 12 + e.0.len() + e.1.len() + e.2.len());
    assert(s.subrange(o, o + 2) =~= w.subrange(0, 2));
    assert(w.subrange(0, 2) =~= le_bytes_u16(e.0.len() as u16));
    lemma_le_u16_roundtrip(s, o, e.0.len() as u16);
    assert(s.subrange(o + 4, o + 8) =~= w.subrange(4, 8));
    assert(w.subrange(4, 8) =~= le_bytes_u32(e.1.len() as u32));
    lemma_le_u32_roundtrip(s, o + 4, e.1.len() as u32);
    assert(s.subrange(o + 8, o + 12) =~= w.subrange(8, 12));
    assert(w.subrange(8, 12) =~= le_bytes_u32(e.2.len() as u32));
    lemma_le_u32_roundtrip(s, o + 8, e.2.len() as u32);
    let a: int = 12 + e.0.len() as int;
    let b: int = a + e.1.len();
    assert(s.subrange(o + 12, o + a) =~= w.subrange(12, a));
    assert(w.subrange(12, a) =~= e.0);
    assert(s.subrange(o + a, o + b) =~= w.subrange(a, b));
    assert(w.subrange(a, b) =~= e.1);
    assert(s.subrange(o + b, o + x.len() as int) =~= w.subrange(b, x.len() as int));
    assert(w.subrange(b, x.len() as int) =~= e.2);
}

/// Walking the records of written entries lands on each written record.
proof fn lemma_walk(s: Seq<u8>, p: Seq<(Seq<u8>, Seq<u8>, Seq<u8>)>, g: Seq<u8>, k: int)
    requires
        fits_fields(p, g),
        0 <= k <= p.len(),
        s.len() >= 20 + entries_bytes(p).len(),
        s.subrange(20, 20 + entries_bytes(p).len() as int) == entries_bytes(p),
    ensures
        entries_end(s, 20, k as nat) == Some(20 + entries_bytes(p.take(k)).len() as int),
    decreases k,
{
    if k > 0 {
        lemma_walk(s, p, g, k - 1);
        let o: int = 20 + entries_bytes(p.take(k - 1)).len() as int;
        lemma_entries_take(p, k - 1);
        assert(p.take(p.len() as int) =~= p);
        lemma_entries_prefix(p, k, p.len() as int);
        let a = entries_bytes(p.take(k - 1));
        let e = entry_bytes(p[k - 1]);
        let all = entries_bytes(p);
        assert(all.subrange(0, (a + e).len() as int) == a + e);
        assert(s.subrange(o, o + e.len() as int) =~= all.subrange(a.len() as int, (a + e).len() as int));
        assert((a + e).subrange(a.len() as int, (a + e).len() as int) =~= e);
        assert(all.subrange(a.len() as int, (a + e).len() as int) =~= (all.subrange(
            0,
            (a + e).len() as int,
        )).subrange(a.len() as int, (a + e).len() as int));
        lemma_entry_fields(s, o, p[k - 1]);
    }
}

/// Entry `i` of a written bundle reads back as the `i`-th entry given.
proof fn lemma_entry_readback(s: Seq<u8>, p: Seq<(Seq<u8>, Seq<u8>, Seq<u8>)>, g: Seq<u8>, i: int)
    requires
        fits_fields(p, g),
        0 <= i < p.len(),
        s.len() >= 20 + entries_bytes(p).len(),
        s.subrange(20, 20 + entries_bytes(p).len() as int) == entries_bytes(p),
    ensures
        entry_spec(s, i) == p[i],
{
    let es = entries_bytes(p);
    lemma_walk(s, p, g, i);
    let o: int = 20 + entries_bytes(p.take(i)).len() as int;
    lemma_entries_take(p, i);
    assert(p.take(p.len() as int) =~= p);
    lemma_entries_prefix(p, i + 1, p.len() as int);
    let a = entries_bytes(p.take(i));
    let x = entry_bytes(p[i]);
    assert(es.subrange(0, (a + x).len() as int) == a + x);
    assert(s.subrange(o, o + x.len() as int) =~= es.subrange(a.len() as int, (a + x).len() as int));
    assert((a + x).subrange(a.len() as int, (a + x).len() as int) =~= x);
    assert(es.subrange(a.len() as int, (a + x).len() as int) =~= (es.subrange(
        0,
        (a + x).len() as int,
    )).subrange(a.len() as int, (a + x).len() as int));
    lemma_entry_fields(s, o, p[i]);
    assert(entry_offset(s, i) == Some(o));
    assert(entry_spec(s, i).0 =~= p[i].0);
    assert(entry_spec(s, i).1 =~= p[i].1);
    assert(entry_spec(s, i).2 =~= p[i].2);
}

/// The header of a written bundle.
proof fn lemma_header_readback(p: Seq<(Seq<u8>, Seq<u8>, Seq<u8>)>, g: Seq<u8>, s: Seq<u8>)
    requires
        fits_fields(p, g),
        s.len() >= 20,
        s.subrange(0, 20) == header_bytes(p.len() as int, g.len() as int),
    ensures
        header_ok(s),
        declared_count(s) == p.len(),
        declared_graph_length(s) == g.len(),
{
    let h = header_bytes(p.len() as int, g.len() as int);
    assert(s.subrange(0, 8) =~= h.subrange(0, 8));
    assert(h.subrange(0, 8) =~= magic_seq());
    assert(s.subrange(8, 12) =~= h.subrange(8, 12));
    assert(h.subrange(8, 12) =~= le_bytes_u32(VERSION));
    lemma_le_u32_roundtrip(s, 8, VERSION);
    assert(s.subrange(12, 16) =~= h.subrange(12, 16));
    assert(h.subrange(12, 16) =~= le_bytes_u32(p.len() as u32));
    lemma_le_u32_roundtrip(s, 12, p.len() as u32);
    assert(s.subrange(16, 20) =~= h.subrange(16, 20));
    assert(h.subrange(16, 20) =~= le_bytes_u32(g.len() as u32));
    lemma_le_u32_roundtrip(s, 16, g.len() as u32);
}

/// Packing and then reading gives back every entry and the graph, also
/// when the bundle is followed by padding (as it is in flash).
pub proof fn lemma_bundle_roundtrip(
    p: Seq<(Seq<u8>, Seq<u8>, Seq<u8>)>,
    g: Seq<u8>,
    padding: Seq<u8>,
)
    requires
        fits_fields(p, g),
    ensures
        ({
            let s = bundle_bytes(p, g) + padding;
            &&& bundle_check(s) is Ok
            &&& declared_count(s) == p.len()
            &&& declared_graph_length(s) == g.len()
            &&& forall|i: int| 0 <= i < p.len() ==> #[trigger] entry_spec(s, i) == p[i]
            &&& graph_bytes_spec(s) == g
        }),
{
    let s = bundle_bytes(p, g) + padding;
    let h = header_bytes(p.len() as int, g.len() as int);
    let es = entries_bytes(p);
    assert(h.len() == 20);
    assert(s.subrange(0, 20) =~= h);
    lemma_header_readback(p, g, s);
    assert(s.subrange(20, 20 + es.len() as int) =~= es);
    assert(p.take(p.len() as int) =~= p);
    lemma_walk(s, p, g, p.len() as int);
    let e: int = 20 + es.len() as int;
    assert(s.subrange(e, e + g.len() as int) =~= g);
    assert forall|i: int| 0 <= i < p.len() implies #[trigger] entry_spec(s, i) == p[i] by {
        lemma_entry_readback(s, p, g, i);
    }
}

// ---------------------------------------------------------------------------
// Executable writer.

/// Appends every byte of `data` to `out`.
pub fn append_bytes(out: &mut Vec<u8>, data: &[u8])
    ensures
        final(out)@ == old(out)@ + data@,
{
    let ghost start = out@;
    let mut i: usize = 0;
    while i < data.len()
        invariant
            i <= data@.len(),
            out@ == start + data@.subrange(0, i as int),
        decreases data@.len() - i,
    {
        out.push(data[i]);
        i = i + 1;
        assert(out@ =~= start + data@.subrange(0, i as int));
    }
    assert(data@.subrange(0, data@.len() as int) =~= data@);
}

/// The URI of `plugins[i]` repeats that of an earlier plugin.
fn repeats_earlier_uri(plugins: &[PluginEntry], i: usize) -> (r: bool)
    requires
        i < plugins@.len(),
    ensures
        r == repeats_earlier(entries_view(plugins@), i as int),
{
    let ghost p = entries_view(plugins@);
    let mut j: usize = 0;
    while j < i
        invariant
            i < plugins@.len(),
            j <= i,
            p == entries_view(plugins@),
            forall|k: int| 0 <= k < j ==> #[trigger] p[k].0 != p[i as int].0,
        decreases i - j,
    {
        if bytes_equal(plugins[j].uri.as_slice(), plugins[i].uri.as_slice()) {
            assert(p[j as int].0 == p[i as int].0);
            return true;
        }
        j = j + 1;
    }
    false
}

proof fn lemma_uri_problem_stable(p: Seq<(Seq<u8>, Seq<u8>, Seq<u8>)>, m: nat, n: nat)
    requires
        m <= n,
        uri_problem(p, m) is Some,
    ensures
        uri_problem(p, n) == uri_problem(p, m),
    decreases n,
{
    if n > m {
        lemma_uri_problem_stable(p, m, (n - 1) as nat);
    }
}

proof fn lemma_no_uri_problem_distinct(p: Seq<(Seq<u8>, Seq<u8>, Seq<u8>)>, n: nat)
    requires
        n <= p.len(),
        uri_problem(p, n) is None,
    ensures
        forall|i: int, j: int| 0 <= j < i < n ==> p[j].0 != p[i].0,
    decreases n,
{
    if n > 0 {
        lemma_no_uri_problem_distinct(p, (n - 1) as nat);
        assert(!repeats_earlier(p, n - 1));
    }
}

/// Plugin URIs are unique in a bundle: whatever packing accepts holds no
/// URI twice.
pub proof fn lemma_packed_uris_unique(p: Seq<(Seq<u8>, Seq<u8>, Seq<u8>)>, g: Seq<u8>)
    requires
        pack_outcome(p, g) is Ok,
    ensures
        forall|i: int, j: int| 0 <= j < i < p.len() ==> p[j].0 != p[i].0,
{
    lemma_no_uri_problem_distinct(p, p.len());
}

/// A bundle that packing accepts has every length within its field.
proof fn lemma_packed_fits(p: Seq<(Seq<u8>, Seq<u8>, Seq<u8>)>, g: Seq<u8>)
    requires
        pack_outcome(p, g) is Ok,
    ensures
        fits_fields(p, g),
{
    lemma_uri_problem_none_fits(p, p.len());
    let all = entries_bytes(p);
    assert(bundle_bytes(p, g).len() == 20 + all.len() + g.len());
    assert forall|i: int| 0 <= i < p.len() implies {
        &&& (#[trigger] p[i]).1.len() <= u32::MAX
        &&& p[i].2.len() <= u32::MAX
    } by {
        lemma_entries_take(p, i);
        lemma_entries_prefix(p, i + 1, p.len() as int);
        assert(p.take(p.len() as int) =~= p);
    }
}

/// A packed bundle gives each plugin back by its URI: for every plugin
/// packed, the first entry with its URI is that plugin, as given.
pub proof fn lemma_packed_find(p: Seq<(Seq<u8>, Seq<u8>, Seq<u8>)>, g: Seq<u8>, i: int)
    requires
        pack_outcome(p, g) is Ok,
        0 <= i < p.len(),
    ensures
        first_with_uri(bundle_bytes(p, g), p[i].0, i),
        entry_spec(bundle_bytes(p, g), i) == p[i],
{
    lemma_packed_fits(p, g);
    lemma_packed_uris_unique(p, g);
    let s = bundle_bytes(p, g);
    lemma_bundle_roundtrip(p, g, Seq::empty());
    assert(s + Seq::<u8>::empty() =~= s);
    assert forall|j: int| 0 <= j < i implies entry_spec(s, j).0 != p[i].0 by {
        assert(entry_spec(s, j) == p[j]);
    }
}

/// Appends the bytes of one entry.
fn push_entry(out: &mut Vec<u8>, entry: &PluginEntry)
    requires
        entry.uri@.len() <= u16::MAX,
        entry.binary@.len() <= u32::MAX,
        entry.metadata@.len() <= u32::MAX,
    ensures
        final(out)@ == old(out)@ + entry_bytes(entry@),
{
    let ghost start = out@;
    push_u16(out, entry.uri.len() as u16);
    out.push(0);
    out.push(0);
    push_u32(out, entry.binary.len() as u32);
    push_u32(out, entry.metadata.len() as u32);
    append_bytes(out, entry.uri.as_slice());
    append_bytes(out, entry.binary.as_slice());
    append_bytes(out, entry.metadata.as_slice());
    assert(out@ =~= start + entry_bytes(entry@));
}

proof fn lemma_uri_problem_none_fits(p: Seq<(Seq<u8>, Seq<u8>, Seq<u8>)>, n: nat)
    requires
        n <= p.len(),
        uri_problem(p, n) is None,
    ensures
        forall|i: int| 0 <= i < n ==> (#[trigger] p[i]).0.len() <= u16::MAX,
    decreases n,
{
    if n > 0 {
        lemma_uri_problem_none_fits(p, (n - 1) as nat);
    }
}

/// Writes the bundle holding `plugins` and `graph`, after the checks that
/// the packer makes: a plugin count that is at least one and fits a `u32`,
/// a graph that parses, distinct URIs that fit their `u16` length, and a
/// total size of at most `MAX_SIZE`.
#[verifier::rlimit(30)]
pub fn pack_bundle(plugins: &[PluginEntry], graph: &[u8]) -> (r: Result<Vec<u8>, PackError>)
    ensures
        match (r, pack_outcome(entries_view(plugins@), graph@)) {
            (Ok(v), Ok(w)) => v@ == w,
            (Err(e), Err(f)) => e == f,
            _ => false,
        },
{
    let ghost p = entries_view(plugins@);
    let n = plugins.len();
    if n == 0 || n as u64 > 4294967295u64 {
        return Err(PackError::PluginCount);
    }
    match Graph::parse(graph) {
        Ok(_) => {},
        Err(_) => return Err(PackError::InvalidGraph),
    }
    assert(graph_ok(graph@));
    let mut i: usize = 0;
    while i < n
        invariant
            n == plugins@.len(),
            1 <= n <= u32::MAX,
            graph_ok(graph@),
            p == entries_view(plugins@),
            i <= n,
            uri_problem(p, i as nat) is None,
        decreases n - i,
    {
        if repeats_earlier_uri(plugins, i) {
            proof {
                lemma_uri_problem_stable(p, (i + 1) as nat, n as nat);
            }
            return Err(PackError::DuplicateUri(i));
        }
        if plugins[i].uri.len() > 65535 {
            proof {
                lemma_uri_problem_stable(p, (i + 1) as nat, n as nat);
            }
            return Err(PackError::UriTooLong(i));
        }
        i = i + 1;
    }
    proof {
        lemma_uri_problem_none_fits(p, n as nat);
    }
    // Total size, saturated at usize::MAX.
    let mut total: usize = HEADER_BYTES;
    let mut k: usize = 0;
    while k < n
        invariant
            n == plugins@.len(),
            p == entries_view(plugins@),
            k <= n,
            total == saturate(20 + entries_bytes(p.take(k as int)).len() as int),
        decreases n - k,
    {
        proof {
            lemma_entries_take(p, k as int);
        }
        let entry = &plugins[k];
        total = saturating_sum(total, 12);
        total = saturating_sum(total, entry.uri.len());
        total = saturating_sum(total, entry.binary.len());
        total = saturating_sum(total, entry.metadata.len());
        k = k + 1;
    }
    assert(p.take(n as int) =~= p);
    total = saturating_sum(total, graph.len());
    if total > MAX_SIZE {
        return Err(PackError::TooLarge(total));
    }
    // Every length now fits its field.
    let mut out: Vec<u8> = Vec::new();
    append_bytes(&mut out, &MAGIC);
    push_u32(&mut out, VERSION);
    push_u32(&mut out, n as u32);
    push_u32(&mut out, graph.len() as u32);
    proof {
        crate::bundle::lemma_magic_seq();
        assert(out@ =~= header_bytes(n as int, graph@.len() as int));
    }
    let mut k: usize = 0;
    while k < n
        invariant
            n == plugins@.len(),
            p == entries_view(plugins@),
            k <= n,
            20 + entries_bytes(p).len() + graph@.len() <= MAX_SIZE,
            forall|i: int| 0 <= i < n ==> (#[trigger] p[i]).0.len() <= u16::MAX,
            out@ == header_bytes(n as int, graph@.len() as int) + entries_bytes(p.take(k as int)),
        decreases n - k,
    {
        proof {
            lemma_entries_take(p, k as int);
            lemma_entries_prefix(p, k as int + 1, n as int);
        }
        let entry = &plugins[k];
        proof {
            let a = entries_bytes(p.take(k as int));
            let x = entry_bytes(p[k as int]);
            assert(p.take(n as int) =~= p);
            assert(entries_bytes(p.take(k as int + 1)).len() <= entries_bytes(p).len());
            assert(x.len() <= entries_bytes(p).len());
            assert(p[k as int] == entry@);
        }
        push_entry(&mut out, entry);
        k = k + 1;
        assert(out@ =~= header_bytes(n as int, graph@.len() as int) + entries_bytes(
            p.take(k as int),
        ));
    }
    append_bytes(&mut out, graph);
    assert(out@ =~= bundle_bytes(p, graph@));
    Ok(out)
}

/// Bytes of the fixed bundle header.
pub const HEADER_BYTES: usize = 20;

/// `a + b`, or `usize::MAX` when the sum does not fit.
pub fn saturating_sum(a: usize, b: usize) -> (r: usize)
    ensures
        r == saturate(a + b),
{
    match a.checked_add(b) {
        Some(v) => v,
        None => usize::MAX,
    }
}

/// Offset of the bundle inside a flash image.
pub const BUNDLE_OFFSET: usize = 0x18_0000;

/// `n` erased flash bytes.
pub open spec fn erased(n: int) -> Seq<u8> {
    Seq::new(n as nat, |_i: int| 0xffu8)
}

/// The flash image holding `firmware` at the start of flash and `bundle` at
/// the bundle address, every other byte erased.
pub open spec fn image_bytes(firmware: Seq<u8>, bundle: Seq<u8>) -> Seq<u8> {
    firmware + erased(BUNDLE_OFFSET - firmware.len()) + bundle + erased(
        IMAGE_SIZE - BUNDLE_OFFSET - bundle.len(),
    )
}

/// Appends `count` erased bytes.
pub fn push_erased(out: &mut Vec<u8>, count: usize)
    ensures
        final(out)@ == old(out)@ + erased(count as int),
{
    let ghost start = out@;
    let mut i: usize = 0;
    while i < count
        invariant
            i <= count,
            out@ == start + erased(i as int),
        decreases count - i,
    {
        out.push(0xff);
        i = i + 1;
        assert(out@ =~= start + erased(i as int));
    }
}

/// Lays out a flash image: the firmware from the start of flash and the
/// bundle at `FLASH_ADDRESS`, refusing a bundle larger than its region and
/// then firmware that reaches the bundle.
pub fn flash_image(firmware: &[u8], bundle: &[u8]) -> (r: Result<Vec<u8>, PackError>)
    ensures
        match r {
            Ok(image) => bundle@.len() <= MAX_SIZE && firmware@.len() <= BUNDLE_OFFSET && image@ == image_bytes(
                firmware@,
                bundle@,
            ) && image@.len() == IMAGE_SIZE,
            Err(e) => if bundle@.len() > MAX_SIZE {
                e == PackError::TooLarge(bundle@.len() as usize)
            } else {
                e == PackError::FirmwareOverlap && firmware@.len() > BUNDLE_OFFSET
            },
        },
{
    if bundle.len() > MAX_SIZE {
        return Err(PackError::TooLarge(bundle.len()));
    }
    let bundle_offset = FLASH_ADDRESS - FLASH_BASE;
    if firmware.len() > bundle_offset {
        return Err(PackError::FirmwareOverlap);
    }
    let mut image: Vec<u8> = Vec::new();
    append_bytes(&mut image, firmware);
    push_erased(&mut image, bundle_offset - firmware.len());
    append_bytes(&mut image, bundle);
    push_erased(&mut image, IMAGE_SIZE - bundle_offset - bundle.len());
    Ok(image)
}

/// The firmware reads the bundle region of a written image back as the
/// bundle followed by erased flash: every entry and the graph come back.
pub proof fn lemma_image_bundle_readback(
    firmware: Seq<u8>,
    p: Seq<(Seq<u8>, Seq<u8>, Seq<u8>)>,
    g: Seq<u8>,
)
    requires
        fits_fields(p, g),
        firmware.len() <= BUNDLE_OFFSET,
        bundle_bytes(p, g).len() <= MAX_SIZE,
    ensures
        ({
            let region = image_bytes(firmware, bundle_bytes(p, g)).subrange(
                BUNDLE_OFFSET as int,
                IMAGE_SIZE as int,
            );
            &&& region.len() == MAX_SIZE
            &&& bundle_check(region) is Ok
            &&& declared_count(region) == p.len()
            &&& forall|i: int| 0 <= i < p.len() ==> #[trigger] entry_spec(region, i) == p[i]
            &&& graph_bytes_spec(region) == g
        }),
{
    let b = bundle_bytes(p, g);
    let pad = erased(IMAGE_SIZE - BUNDLE_OFFSET - b.len());
    let image = image_bytes(firmware, b);
    assert(image.subrange(BUNDLE_OFFSET as int, IMAGE_SIZE as int) =~= b + pad);
    lemma_bundle_roundtrip(p, g, pad);
}

} // verus!
