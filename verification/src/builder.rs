//! Turning a firmware ELF into the bytes it places in flash, choosing the
//! plugins a graph needs, and summarising a written image.

use vstd::prelude::*;
use crate::bundle::{
    declared_count, entry_spec, graph_bytes_spec, graph_edge_count, graph_edge_spec, graph_node_count,
    graph_node_spec, graph_ok, bundle_check, bytes_equal, Bundle, BundleError, Edge, Graph,
};
use crate::pack::{append_bytes, BUNDLE_OFFSET};

verus! {

/// The program header type of a loadable segment.
pub const PT_LOAD: u32 = 1;

/// Where flash starts in the address space.
pub const FLASH_BASE: u64 = 0x1000_0000;

/// What the firmware layout needs of a program header: type, physical
/// address, size in the file, offset in the file.
#[derive(Clone, Copy)]
pub struct Segment {
    pub kind: u32,
    pub physical_address: u64,
    pub file_size: u64,
    pub offset: u64,
}

/// Why an ELF file gives no firmware image.
pub enum FirmwareError {
    /// goblin refused the file; its description.
    Elf(Vec<u8>),
    BelowFlash,
    AddressOverflow,
    OffsetTooLarge,
    SegmentTooLarge,
    SizeOverflow,
    OutsideFile,
    AddressTooLarge,
    NoLoadableData,
}

pub enum FirmwareFault {
    Elf(Seq<u8>),
    BelowFlash,
    AddressOverflow,
    OffsetTooLarge,
    SegmentTooLarge,
    SizeOverflow,
    OutsideFile,
    AddressTooLarge,
    NoLoadableData,
}

impl View for FirmwareError {
    type V = FirmwareFault;

    open spec fn view(&self) -> FirmwareFault {
        match self {
            FirmwareError::Elf(m) => FirmwareFault::Elf(m@),
            FirmwareError::BelowFlash => FirmwareFault::BelowFlash,
            FirmwareError::AddressOverflow => FirmwareFault::AddressOverflow,
            FirmwareError::OffsetTooLarge => FirmwareFault::OffsetTooLarge,
            FirmwareError::SegmentTooLarge => FirmwareFault::SegmentTooLarge,
            FirmwareError::SizeOverflow => FirmwareFault::SizeOverflow,
            FirmwareError::OutsideFile => FirmwareFault::OutsideFile,
            FirmwareError::AddressTooLarge => FirmwareFault::AddressTooLarge,
            FirmwareError::NoLoadableData => FirmwareFault::NoLoadableData,
        }
    }
}

/// `s` made `n` bytes long: cut, or padded with zeros.
pub open spec fn resized(s: Seq<u8>, n: int) -> Seq<u8> {
    if n <= s.len() {
        s.subrange(0, n)
    } else {
        s + Seq::new((n - s.len()) as nat, |_i: int| 0u8)
    }
}

/// The firmware after the first `k` segments are placed: each loadable,
/// non-empty segment cuts or pads the firmware to where it ends and writes
/// its bytes from where it starts.
pub open spec fn place_segments(elf: Seq<u8>, segments: Seq<Segment>, k: int) -> Result<Seq<u8>, FirmwareFault>
    decreases k,
{
    if k <= 0 {
        Ok(Seq::empty())
    } else {
        match place_segments(elf, segments, k - 1) {
            Err(e) => Err(e),
            Ok(fw) => {
                let s = segments[k - 1];
                if s.kind != PT_LOAD || s.file_size == 0 {
                    Ok(fw)
                } else if s.physical_address < FLASH_BASE {
                    Err(FirmwareFault::BelowFlash)
                } else if s.physical_address - FLASH_BASE + s.file_size > u64::MAX {
                    Err(FirmwareFault::AddressOverflow)
                } else if s.offset > usize::MAX {
                    Err(FirmwareFault::OffsetTooLarge)
                } else if s.file_size > usize::MAX {
                    Err(FirmwareFault::SegmentTooLarge)
                } else if s.offset + s.file_size > usize::MAX {
                    Err(FirmwareFault::SizeOverflow)
                } else if s.offset + s.file_size > elf.len() {
                    Err(FirmwareFault::OutsideFile)
                } else if s.physical_address - FLASH_BASE + s.file_size > usize::MAX {
                    Err(FirmwareFault::AddressTooLarge)
                } else {
                    let start = s.physical_address - FLASH_BASE;
                    let end = start + s.file_size;
                    Ok(resized(fw, end).subrange(0, start) + elf.subrange(s.offset as int, s.offset + s.file_size))
                }
            },
        }
    }
}

/// The firmware image that the segments of `elf` place in flash.
pub open spec fn firmware_image(elf: Seq<u8>, segments: Seq<Segment>) -> Result<Seq<u8>, FirmwareFault> {
    match place_segments(elf, segments, segments.len() as int) {
        Err(e) => Err(e),
        Ok(fw) => if fw.len() == 0 {
            Err(FirmwareFault::NoLoadableData)
        } else {
            Ok(fw)
        },
    }
}

proof fn lemma_place_error_stays(elf: Seq<u8>, segments: Seq<Segment>, k: int, n: int)
    requires
        0 <= k <= n,
        place_segments(elf, segments, k) is Err,
    ensures
        place_segments(elf, segments, n) == place_segments(elf, segments, k),
    decreases n - k,
{
    if n > k {
        lemma_place_error_stays(elf, segments, k, n - 1);
    }
}

/// Cuts or pads `fw` to `n` bytes.
fn resize(fw: &mut Vec<u8>, n: usize)
    ensures
        final(fw)@ == resized(old(fw)@, n as int),
{
    if n <= fw.len() {
        fw.truncate(n);
        assert(fw@ =~= resized(old(fw)@, n as int));
    } else {
        let ghost start = fw@;
        while fw.len() < n
            invariant
                start.len() <= fw@.len() <= n,
                fw@ == start + Seq::new((fw@.len() - start.len()) as nat, |_i: int| 0u8),
            decreases n - fw@.len(),
        {
            fw.push(0u8);
            assert(fw@ =~= start + Seq::new((fw@.len() - start.len()) as nat, |_i: int| 0u8));
        }
    }
}

/// Writes the segments of an ELF file where they go in flash, counting from
/// the start of flash.
pub fn firmware_from_segments(elf: &[u8], segments: &[Segment]) -> (r: Result<Vec<u8>, FirmwareError>)
    ensures
        match r {
            Ok(fw) => firmware_image(elf@, segments@) == Ok::<Seq<u8>, FirmwareFault>(fw@),
            Err(e) => firmware_image(elf@, segments@) == Err::<Seq<u8>, FirmwareFault>(e@),
        },
{
    let mut firmware: Vec<u8> = Vec::new();
    let mut k: usize = 0;
    while k < segments.len()
        invariant
            k <= segments@.len(),
            place_segments(elf@, segments@, k as int) == Ok::<Seq<u8>, FirmwareFault>(firmware@),
        decreases segments@.len() - k,
    {
        let s = segments[k];
        if s.kind != PT_LOAD || s.file_size == 0 {
            k = k + 1;
            continue;
        }
        let fail = if s.physical_address < FLASH_BASE {
            Some(FirmwareError::BelowFlash)
        } else if s.file_size > u64::MAX - (s.physical_address - FLASH_BASE) {
            Some(FirmwareError::AddressOverflow)
        } else if s.offset > usize::MAX as u64 {
            Some(FirmwareError::OffsetTooLarge)
        } else if s.file_size > usize::MAX as u64 {
            Some(FirmwareError::SegmentTooLarge)
        } else if s.file_size as usize > usize::MAX - s.offset as usize {
            Some(FirmwareError::SizeOverflow)
        } else if s.offset as usize + s.file_size as usize > elf.len() {
            Some(FirmwareError::OutsideFile)
        } else if s.physical_address - FLASH_BASE + s.file_size > usize::MAX as u64 {
            Some(FirmwareError::AddressTooLarge)
        } else {
            None
        };
        match fail {
            Some(e) => {
                proof {
                    lemma_place_error_stays(elf@, segments@, k + 1, segments@.len() as int);
                }
                return Err(e);
            },
            None => {},
        }
        let start = (s.physical_address - FLASH_BASE) as usize;
        let end = (s.physical_address - FLASH_BASE + s.file_size) as usize;
        let source = s.offset as usize;
        resize(&mut firmware, end);
        let ghost placed = firmware@;
        firmware.truncate(start);
        let (_, tail) = elf.split_at(source);
        let (data, _) = tail.split_at(s.file_size as usize);
        append_bytes(&mut firmware, data);
        assert(data@ =~= elf@.subrange(source as int, source + s.file_size));
        assert(firmware@ =~= placed.subrange(0, start as int) + data@);
        k = k + 1;
    }
    if firmware.len() == 0 {
        return Err(FirmwareError::NoLoadableData);
    }
    Ok(firmware)
}

// ---------------------------------------------------------------------------
// Reading the ELF file.

/// What `goblin::elf::Elf::parse` gives for `bytes`: the type, physical
/// address, file size and file offset of each program header, in order, or
/// the text of goblin's error.
pub uninterp spec fn elf_program_headers(bytes: Seq<u8>) -> Result<Seq<(u32, u64, u64, u64)>, Seq<u8>>;

/// `goblin::elf::Elf::parse`, keeping of each program header the type, the
/// physical address, the file size and the file offset. The contract names
/// the result only: it depends on `bytes` alone.
#[verifier::external_body]
fn parse_program_headers(bytes: &[u8]) -> (r: Result<Vec<(u32, u64, u64, u64)>, Vec<u8>>)
    ensures
        match r {
            Ok(headers) => elf_program_headers(bytes@) == Ok::<Seq<(u32, u64, u64, u64)>, Seq<u8>>(headers@),
            Err(message) => elf_program_headers(bytes@) == Err::<Seq<(u32, u64, u64, u64)>, Seq<u8>>(message@),
        },
{
    match goblin::elf::Elf::parse(bytes) {
        Ok(elf) => Ok(elf.program_headers.iter().map(|h| (h.p_type, h.p_paddr, h.p_filesz, h.p_offset)).collect()),
        Err(error) => Err(error.to_string().into_bytes()),
    }
}

pub open spec fn segment_of(h: (u32, u64, u64, u64)) -> Segment {
    Segment { kind: h.0, physical_address: h.1, file_size: h.2, offset: h.3 }
}

pub open spec fn segments_of(hs: Seq<(u32, u64, u64, u64)>) -> Seq<Segment> {
    Seq::new(hs.len(), |i: int| segment_of(hs[i]))
}

/// The program headers as segments.
pub fn to_segments(headers: &Vec<(u32, u64, u64, u64)>) -> (r: Vec<Segment>)
    ensures
        r@ == segments_of(headers@),
{
    let mut out: Vec<Segment> = Vec::new();
    let mut i: usize = 0;
    while i < headers.len()
        invariant
            i <= headers@.len(),
            out@ == segments_of(headers@).subrange(0, i as int),
        decreases headers@.len() - i,
    {
        let (kind, physical_address, file_size, offset) = headers[i];
        out.push(Segment { kind, physical_address, file_size, offset });
        i = i + 1;
        assert(out@ =~= segments_of(headers@).subrange(0, i as int));
    }
    assert(segments_of(headers@).subrange(0, headers@.len() as int) =~= segments_of(headers@));
    out
}

/// The firmware image of the ELF file `elf`, or why there is none.
pub open spec fn elf_firmware(elf: Seq<u8>) -> Result<Seq<u8>, FirmwareFault> {
    match elf_program_headers(elf) {
        Err(message) => Err(FirmwareFault::Elf(message)),
        Ok(headers) => firmware_image(elf, segments_of(headers)),
    }
}

/// The bytes that the firmware ELF file `elf` places in flash, from the
/// start of flash.
pub fn firmware_from_elf_bytes(elf: &[u8]) -> (r: Result<Vec<u8>, FirmwareError>)
    ensures
        match r {
            Ok(fw) => elf_firmware(elf@) == Ok::<Seq<u8>, FirmwareFault>(fw@),
            Err(e) => elf_firmware(elf@) == Err::<Seq<u8>, FirmwareFault>(e@),
        },
{
    let headers = match parse_program_headers(elf) {
        Ok(headers) => headers,
        Err(message) => return Err(FirmwareError::Elf(message)),
    };
    let segments = to_segments(&headers);
    firmware_from_segments(elf, segments.as_slice())
}

pub open spec fn elf_magic() -> Seq<u8> {
    seq![0x7fu8, 0x45u8, 0x4cu8, 0x46u8]
}

/// The file starts with the ELF magic, `\x7fELF`.
pub fn is_elf(bytes: &[u8]) -> (r: bool)
    ensures
        r == (bytes@.len() >= 4 && bytes@.subrange(0, 4) == elf_magic()),
{
    let magic: [u8; 4] = [0x7f, 0x45, 0x4c, 0x46];
    assert(magic@ =~= elf_magic());
    if bytes.len() < 4 {
        return false;
    }
    let (head, _) = bytes.split_at(4);
    bytes_equal(head, &magic)
}

// ---------------------------------------------------------------------------
// The plugins a graph uses.

/// `uris` without repeats, each where it first occurs.
pub open spec fn first_occurrences(uris: Seq<Seq<u8>>) -> Seq<Seq<u8>>
    decreases uris.len(),
{
    if uris.len() == 0 {
        uris
    } else {
        let d = first_occurrences(uris.drop_last());
        if d.contains(uris.last()) {
            d
        } else {
            d.push(uris.last())
        }
    }
}

/// The plugin URIs of the graph's nodes, in node order.
pub open spec fn node_uris(g: Seq<u8>) -> Seq<Seq<u8>> {
    Seq::new(graph_node_count(g) as nat, |i: int| graph_node_spec(g, i))
}

/// The plugins a graph needs: each node's plugin URI once, in the order of
/// the nodes; `None` where a node's URI is not UTF-8.
pub fn graph_plugins(graph: &Graph) -> (r: Option<Vec<Vec<u8>>>)
    requires
        graph.wf(),
    ensures
        match r {
            Some(plugins) => crate::ingen::byte_strings(plugins@) == first_occurrences(
                node_uris(graph.spec_bytes()),
            ),
            None => exists|k: int|
                0 <= k < node_uris(graph.spec_bytes()).len() && !vstd::utf8::valid_utf8(
                    #[trigger] node_uris(graph.spec_bytes())[k],
                ),
        },
        r is None <== exists|k: int|
            0 <= k < node_uris(graph.spec_bytes()).len() && !vstd::utf8::valid_utf8(
                #[trigger] node_uris(graph.spec_bytes())[k],
            ),
{
    let ghost all = node_uris(graph.spec_bytes());
    let mut plugins: Vec<Vec<u8>> = Vec::new();
    let mut i: u16 = 0;
    assert(all.subrange(0, 0) =~= Seq::<Seq<u8>>::empty());
    let count = graph.node_count();
    while i < count
        invariant
            graph.wf(),
            all == node_uris(graph.spec_bytes()),
            count == graph.spec_node_count(),
            i <= graph.spec_node_count(),
            crate::ingen::byte_strings(plugins@) == first_occurrences(all.subrange(0, i as int)),
            forall|k: int| 0 <= k < i ==> vstd::utf8::valid_utf8(#[trigger] all[k]),
        decreases graph.spec_node_count() - i,
    {
        let node = graph.node(i).unwrap();
        let ghost prefix = all.subrange(0, i + 1);
        assert(prefix.drop_last() =~= all.subrange(0, i as int));
        assert(prefix.last() == node.uri@);
        if !crate::manifest::is_utf8(node.uri) {
            assert(!vstd::utf8::valid_utf8(all[i as int]));
            return None;
        }
        let mut seen = false;
        let mut j: usize = 0;
        while j < plugins.len()
            invariant
                j <= plugins@.len(),
                seen == exists|k: int| 0 <= k < j && #[trigger] plugins@[k]@ == node.uri@,
            decreases plugins@.len() - j,
        {
            if bytes_equal(plugins[j].as_slice(), node.uri) {
                seen = true;
            }
            j = j + 1;
        }
        proof {
            let d = crate::ingen::byte_strings(plugins@);
            if seen {
                let k = choose|k: int| 0 <= k < plugins@.len() && #[trigger] plugins@[k]@ == node.uri@;
                assert(d[k] == node.uri@);
            } else {
                assert(!d.contains(node.uri@)) by {
                    if d.contains(node.uri@) {
                        let k = choose|k: int| 0 <= k < d.len() && d[k] == node.uri@;
                        assert(plugins@[k]@ == node.uri@);
                    }
                }
            }
        }
        if !seen {
            let ghost before = crate::ingen::byte_strings(plugins@);
            plugins.push(vstd::slice::slice_to_vec(node.uri));
            assert(crate::ingen::byte_strings(plugins@) =~= before.push(node.uri@));
        }
        i = i + 1;
    }
    assert(all.subrange(0, i as int) =~= all);
    Some(plugins)
}

// ---------------------------------------------------------------------------
// What a written image holds.

/// The length of `s` without its trailing erased bytes.
pub open spec fn used_length(s: Seq<u8>) -> int
    decreases s.len(),
{
    if s.len() == 0 {
        0
    } else if s.last() != 0xff {
        s.len() as int
    } else {
        used_length(s.drop_last())
    }
}

/// The firmware's extent in an image: up to its last byte that is not
/// erased, within the region before the bundle.
pub fn firmware_extent(image: &[u8]) -> (r: usize)
    ensures
        r == used_length(image@.subrange(0, if image@.len() < BUNDLE_OFFSET { image@.len() as int } else { BUNDLE_OFFSET as int })),
{
    let limit = if image.len() < BUNDLE_OFFSET {
        image.len()
    } else {
        BUNDLE_OFFSET
    };
    let ghost region = image@.subrange(0, limit as int);
    let mut n: usize = limit;
    assert(region.subrange(0, n as int) =~= region);
    while n > 0 && image[n - 1] == 0xff
        invariant
            n <= limit,
            limit <= image@.len(),
            region == image@.subrange(0, limit as int),
            used_length(region) == used_length(region.subrange(0, n as int)),
        decreases n,
    {
        assert(region.subrange(0, n as int).drop_last() =~= region.subrange(0, n - 1));
        n = n - 1;
    }
    assert(region.subrange(0, limit as int) =~= region);
    n
}

/// One plugin of a bundle: its URI and the sizes of its binary and its
/// metadata.
pub struct PluginSummary {
    pub uri: Vec<u8>,
    pub binary_len: usize,
    pub metadata_len: usize,
}

/// What a flash image holds.
pub struct ImageSummary {
    pub image_len: usize,
    pub firmware_size: usize,
    pub bundle_len: usize,
    pub plugins: Vec<PluginSummary>,
    pub nodes: Vec<Vec<u8>>,
    pub edges: Vec<Edge>,
}

/// Why an image cannot be summarised.
#[derive(Clone, Copy, Debug, PartialEq, Eq, Structural)]
pub enum InfoError {
    /// The image ends before the bundle region.
    ImageTooSmall,
    /// The bundle region is not a bundle.
    Bundle(BundleError),
    /// The bundle's graph is not a graph.
    Graph(BundleError),
}

/// The bundle region of an image at least as long as the firmware region.
pub open spec fn bundle_region(image: Seq<u8>) -> Seq<u8> {
    image.subrange(BUNDLE_OFFSET as int, image.len() as int)
}

/// Reads what an image holds: the firmware's extent, the bundle's plugins
/// and its graph's nodes and edges.
pub fn image_summary(image: &[u8]) -> (r: Result<ImageSummary, InfoError>)
    ensures
        match r {
            Ok(info) => {
                let b = bundle_region(image@);
                let g = graph_bytes_spec(b);
                &&& image@.len() >= BUNDLE_OFFSET
                &&& bundle_check(b) is Ok
                &&& graph_ok(g)
                &&& info.image_len == image@.len()
                &&& info.firmware_size == used_length(image@.subrange(0, BUNDLE_OFFSET as int))
                &&& info.bundle_len == b.len()
                &&& info.plugins@.len() == declared_count(b)
                &&& forall|i: int| 0 <= i < info.plugins@.len() ==> {
                    let e = entry_spec(b, i);
                    &&& (#[trigger] info.plugins@[i]).uri@ == e.0
                    &&& info.plugins@[i].binary_len == e.1.len()
                    &&& info.plugins@[i].metadata_len == e.2.len()
                }
                &&& crate::ingen::byte_strings(info.nodes@) == node_uris(g)
                &&& info.edges@.len() == graph_edge_count(g)
                &&& forall|j: int| 0 <= j < info.edges@.len() ==> {
                    let e = #[trigger] info.edges@[j];
                    graph_edge_spec(g, j) == (e.source_node as int, e.source_port as int, e.destination_node as int, e.destination_port as int)
                }
            },
            Err(InfoError::ImageTooSmall) => image@.len() < BUNDLE_OFFSET,
            Err(InfoError::Bundle(e)) => image@.len() >= BUNDLE_OFFSET && bundle_check(bundle_region(image@))
                == Err::<(), BundleError>(e),
            Err(InfoError::Graph(e)) => image@.len() >= BUNDLE_OFFSET && bundle_check(bundle_region(image@)) is Ok
                && !graph_ok(graph_bytes_spec(bundle_region(image@))) && e == BundleError::Graph,
        },
{
    if image.len() < BUNDLE_OFFSET {
        return Err(InfoError::ImageTooSmall);
    }
    let (_, bundle_bytes) = image.split_at(BUNDLE_OFFSET);
    assert(bundle_bytes@ =~= bundle_region(image@));
    let bundle = match Bundle::parse(bundle_bytes) {
        Ok(b) => b,
        Err(e) => return Err(InfoError::Bundle(e)),
    };
    let firmware_size = firmware_extent(image);
    let count = bundle.plugin_count();
    let mut plugins: Vec<PluginSummary> = Vec::new();
    let mut i: u32 = 0;
    while i < count
        invariant
            i <= count,
            count == bundle.spec_count(),
            bundle@ == bundle_region(image@),
            plugins@.len() == i,
            forall|k: int| 0 <= k < i ==> {
                let e = entry_spec(bundle@, k);
                &&& (#[trigger] plugins@[k]).uri@ == e.0
                &&& plugins@[k].binary_len == e.1.len()
                &&& plugins@[k].metadata_len == e.2.len()
            },
        decreases count - i,
    {
        let entry = bundle.entry_at(i).unwrap();
        plugins.push(
            PluginSummary {
                uri: vstd::slice::slice_to_vec(entry.uri),
                binary_len: entry.binary.len(),
                metadata_len: entry.metadata.len(),
            },
        );
        i = i + 1;
    }
    let graph = match bundle.graph() {
        Ok(g) => g,
        Err(e) => return Err(InfoError::Graph(e)),
    };
    let ghost g = graph.spec_bytes();
    let node_count = graph.node_count();
    let mut nodes: Vec<Vec<u8>> = Vec::new();
    let mut n: u16 = 0;
    while n < node_count
        invariant
            graph.wf(),
            g == graph.spec_bytes(),
            node_count == graph.spec_node_count(),
            n <= node_count,
            crate::ingen::byte_strings(nodes@) == node_uris(g).subrange(0, n as int),
        decreases node_count - n,
    {
        let node = graph.node(n).unwrap();
        let ghost before = crate::ingen::byte_strings(nodes@);
        nodes.push(vstd::slice::slice_to_vec(node.uri));
        assert(crate::ingen::byte_strings(nodes@) =~= before.push(node.uri@));
        n = n + 1;
        assert(crate::ingen::byte_strings(nodes@) =~= node_uris(g).subrange(0, n as int));
    }
    assert(node_uris(g).subrange(0, n as int) =~= node_uris(g));
    let edge_count = graph.edge_count();
    let mut edges: Vec<Edge> = Vec::new();
    let mut j: u16 = 0;
    while j < edge_count
        invariant
            graph.wf(),
            g == graph.spec_bytes(),
            edge_count == graph.spec_edge_count(),
            j <= edge_count,
            edges@.len() == j,
            forall|k: int| 0 <= k < j ==> {
                let e = #[trigger] edges@[k];
                graph_edge_spec(g, k) == (e.source_node as int, e.source_port as int, e.destination_node as int, e.destination_port as int)
            },
        decreases edge_count - j,
    {
        let edge = graph.edge(j).unwrap();
        edges.push(edge);
        j = j + 1;
    }
    Ok(ImageSummary {
        image_len: image.len(),
        firmware_size,
        bundle_len: bundle_bytes.len(),
        plugins,
        nodes,
        edges,
    })
}


// ---------------------------------------------------------------------------
// Naming the output.

/// The two files an image can be written as.
#[derive(Debug, Clone, Copy, PartialEq, Eq, Structural)]
pub enum OutputFormat {
    Uf2,
    RawBinary,
}

/// The file extension of `format`: `uf2` or `bin`.
pub open spec fn extension(format: OutputFormat) -> Seq<u8> {
    match format {
        OutputFormat::Uf2 => seq![117u8, 102, 50],
        OutputFormat::RawBinary => seq![98u8, 105, 110],
    }
}

/// `.ingen`, the suffix of an Ingen bundle directory.
pub open spec fn ingen_suffix() -> Seq<u8> {
    seq![46u8, 105, 110, 103, 101, 110]
}

/// `pico_patch`, the name used where the patch path has no file name.
pub open spec fn fallback_stem() -> Seq<u8> {
    seq![112u8, 105, 99, 111, 95, 112, 97, 116, 99, 104]
}

/// `name` ends with `suffix`.
pub open spec fn has_suffix(name: Seq<u8>, suffix: Seq<u8>) -> bool {
    suffix.len() <= name.len() && name.subrange(name.len() - suffix.len(), name.len() as int) == suffix
}

/// The output file name suggested for a patch whose last path component is
/// `patch_name`: that name without `.ingen`, or `pico_patch` where there is
/// none, a dot, and the extension of `format`.
pub open spec fn suggested_name(patch_name: Option<Seq<u8>>, format: OutputFormat) -> Seq<u8> {
    let stem = match patch_name {
        Some(n) => if has_suffix(n, ingen_suffix()) {
            n.subrange(0, n.len() - 6)
        } else {
            n
        },
        None => fallback_stem(),
    };
    stem + seq![46u8] + extension(format)
}

/// The output file name suggested for a patch whose last path component is
/// `patch_name` (`None` where the path has none).
pub fn suggested_output_name(patch_name: Option<&[u8]>, format: OutputFormat) -> (r: Vec<u8>)
    ensures
        r@ == suggested_name(
            match patch_name {
                Some(n) => Some(n@),
                None => None,
            },
            format,
        ),
{
    let mut out: Vec<u8> = Vec::new();
    match patch_name {
        Some(n) => {
            let len = n.len();
            let ends_ingen = len >= 6 && n[len - 6] == 46 && n[len - 5] == 105 && n[len - 4] == 110
                && n[len - 3] == 103 && n[len - 2] == 101 && n[len - 1] == 110;
            proof {
                if len >= 6 {
                    let tail = n@.subrange(len - 6, len as int);
                    assert(tail[0] == n@[len - 6] && tail[1] == n@[len - 5] && tail[2] == n@[len - 4]);
                    assert(tail[3] == n@[len - 3] && tail[4] == n@[len - 2] && tail[5] == n@[len - 1]);
                    if ends_ingen {
                        assert(tail =~= ingen_suffix());
                    }
                }
            }
            if ends_ingen {
                let (stem, _) = n.split_at(len - 6);
                append_bytes(&mut out, stem);
            } else {
                append_bytes(&mut out, n);
            }
        },
        None => {
            let stem: [u8; 10] = [112u8, 105, 99, 111, 95, 112, 97, 116, 99, 104];
            append_bytes(&mut out, &stem);
            assert(stem@ =~= fallback_stem());
        },
    }
    out.push(46u8);
    match format {
        OutputFormat::Uf2 => {
            out.push(117u8);
            out.push(102u8);
            out.push(50u8);
        },
        OutputFormat::RawBinary => {
            out.push(98u8);
            out.push(105u8);
            out.push(110u8);
        },
    }
    assert(out@ =~= suggested_name(
        match patch_name {
            Some(n) => Some(n@),
            None => None,
        },
        format,
    ));
    out
}

} // verus!
