//! Converting a raw flash image to UF2, the format of the Pico's USB
//! bootloader: one 512-byte block per 256-byte chunk of the image that holds
//! anything but erased flash.

use vstd::prelude::*;
use crate::le::{le_bytes_u32, le_u32, lemma_le_u32_roundtrip, push_u32};
use crate::pack::{append_bytes, IMAGE_SIZE};

verus! {

pub const UF2_BLOCK_SIZE: usize = 512;

pub const UF2_PAYLOAD_SIZE: usize = 256;

pub const UF2_MAGIC_START0: u32 = 0x0a324655;

pub const UF2_MAGIC_START1: u32 = 0x9e5d5157;

pub const UF2_MAGIC_END: u32 = 0x0ab16f30;

pub const UF2_FLAG_FAMILY_ID_PRESENT: u32 = 0x00002000;

pub const RP2350_FAMILY_ID: u32 = 0xe48bff56;

/// Address of the start of flash.
pub const UF2_FLASH_BASE: u32 = 0x1000_0000;

/// The error text for an image larger than flash.
pub fn image_too_large_message() -> (r: String)
    ensures
        r@ == "flash image exceeds 2 MiB"@,
{
    broadcast use vstd::string::group_string_axioms;
    "flash image exceeds 2 MiB".to_string()
}

/// Number of 256-byte chunks of an image of `len` bytes (the last may be short).
pub open spec fn chunk_count(len: int) -> int {
    (len + 255) / 256
}

/// Chunk `k` of `image`.
pub open spec fn chunk(image: Seq<u8>, k: int) -> Seq<u8> {
    let start = 256 * k;
    let end = if start + 256 <= image.len() {
        start + 256
    } else {
        image.len() as int
    };
    image.subrange(start, end)
}

/// Every byte of `c` is erased flash.
pub open spec fn all_erased(c: Seq<u8>) -> bool {
    forall|i: int| 0 <= i < c.len() ==> c[i] == 0xffu8
}

/// How many of the first `k` chunks hold data.
pub open spec fn populated_before(image: Seq<u8>, k: int) -> int
    decreases k,
{
    if k <= 0 {
        0
    } else {
        populated_before(image, k - 1) + if all_erased(chunk(image, k - 1)) {
            0int
        } else {
            1int
        }
    }
}

/// How many chunks hold data.
pub open spec fn populated_count(image: Seq<u8>) -> int {
    populated_before(image, chunk_count(image.len() as int))
}

/// One UF2 block.
#[verifier::opaque]
pub open spec fn block_bytes(address: int, number: int, total: int, payload: Seq<u8>) -> Seq<u8> {
    le_bytes_u32(UF2_MAGIC_START0) + le_bytes_u32(UF2_MAGIC_START1) + le_bytes_u32(
        UF2_FLAG_FAMILY_ID_PRESENT,
    ) + le_bytes_u32(address as u32) + le_bytes_u32(256) + le_bytes_u32(number as u32)
        + le_bytes_u32(total as u32) + le_bytes_u32(RP2350_FAMILY_ID) + payload + Seq::new(
        (476 - payload.len()) as nat,
        |_i: int| 0u8,
    ) + le_bytes_u32(UF2_MAGIC_END)
}

/// The blocks for the first `k` chunks.
pub open spec fn blocks_before(image: Seq<u8>, k: int) -> Seq<u8>
    decreases k,
{
    if k <= 0 {
        Seq::empty()
    } else {
        blocks_before(image, k - 1) + if all_erased(chunk(image, k - 1)) {
            Seq::empty()
        } else {
            block_bytes(
                UF2_FLASH_BASE + 256 * (k - 1),
                populated_before(image, k - 1),
                populated_count(image),
                chunk(image, k - 1),
            )
        }
    }
}

/// The UF2 file for `image`.
pub open spec fn uf2_bytes(image: Seq<u8>) -> Seq<u8> {
    blocks_before(image, chunk_count(image.len() as int))
}

/// Writes the little-endian bytes of `value` at `offset`.
pub fn write_u32(bytes: &mut [u8], offset: usize, value: u32)
    requires
        offset + 4 <= old(bytes)@.len(),
    ensures
        final(bytes)@ == old(bytes)@.subrange(0, offset as int) + le_bytes_u32(value)
            + old(bytes)@.subrange(offset + 4, old(bytes)@.len() as int),
{
    let _length = bytes.len();
    bytes[offset] = (value % 256) as u8;
    bytes[offset + 1] = ((value / 256) % 256) as u8;
    bytes[offset + 2] = ((value / 65536) % 256) as u8;
    bytes[offset + 3] = (value / 16777216) as u8;
    assert(bytes@ =~= old(bytes)@.subrange(0, offset as int) + le_bytes_u32(value) + old(
        bytes,
    )@.subrange(offset + 4, old(bytes)@.len() as int));
}

/// Whether chunk `k` of `image` is all erased flash.
fn chunk_is_erased(image: &[u8], start: usize, end: usize) -> (r: bool)
    requires
        start <= end <= image@.len(),
    ensures
        r == all_erased(image@.subrange(start as int, end as int)),
{
    let mut i = start;
    while i < end
        invariant
            start <= i <= end <= image@.len(),
            forall|j: int| start <= j < i ==> image@[j] == 0xffu8,
        decreases end - i,
    {
        if image[i] != 0xff {
            assert(image@.subrange(start as int, end as int)[i - start] != 0xffu8);
            return false;
        }
        i = i + 1;
    }
    assert forall|j: int| 0 <= j < end - start implies image@.subrange(
        start as int,
        end as int,
    )[j] == 0xffu8 by {
        assert(image@[start + j] == 0xffu8);
    }
    true
}

/// Bounds of chunk `k`.
fn chunk_bounds(image: &[u8], k: usize) -> (r: (usize, usize))
    requires
        image@.len() <= IMAGE_SIZE,
        k < chunk_count(image@.len() as int),
    ensures
        r.0 <= r.1 <= image@.len(),
        image@.subrange(r.0 as int, r.1 as int) == chunk(image@, k as int),
        r.0 == 256 * k,
{
    let start = k * UF2_PAYLOAD_SIZE;
    let end = if image.len() - start >= UF2_PAYLOAD_SIZE {
        start + UF2_PAYLOAD_SIZE
    } else {
        image.len()
    };
    (start, end)
}

/// Appends one block.
fn push_block(out: &mut Vec<u8>, address: u32, number: u32, total: u32, payload: &[u8])
    requires
        payload@.len() <= 256,
    ensures
        final(out)@ == old(out)@ + block_bytes(address as int, number as int, total as int, payload@),
{
    let ghost start = out@;
    push_u32(out, UF2_MAGIC_START0);
    push_u32(out, UF2_MAGIC_START1);
    push_u32(out, UF2_FLAG_FAMILY_ID_PRESENT);
    push_u32(out, address);
    push_u32(out, UF2_PAYLOAD_SIZE as u32);
    push_u32(out, number);
    push_u32(out, total);
    push_u32(out, RP2350_FAMILY_ID);
    append_bytes(out, payload);
    let pad = 476 - payload.len();
    let ghost before_pad = out@;
    let mut i: usize = 0;
    while i < pad
        invariant
            i <= pad,
            out@ == before_pad + Seq::new(i as nat, |_j: int| 0u8),
        decreases pad - i,
    {
        out.push(0);
        i = i + 1;
        assert(out@ =~= before_pad + Seq::new(i as nat, |_j: int| 0u8));
    }
    push_u32(out, UF2_MAGIC_END);
    assert(out@ =~= start + block_bytes(address as int, number as int, total as int, payload@)) by {
        reveal(block_bytes);
    }
}

proof fn lemma_populated_bounded(image: Seq<u8>, k: int)
    requires
        0 <= k,
    ensures
        0 <= populated_before(image, k) <= k,
    decreases k,
{
    if k > 0 {
        lemma_populated_bounded(image, k - 1);
    }
}

proof fn lemma_populated_monotone(image: Seq<u8>, a: int, b: int)
    requires
        0 <= a <= b,
    ensures
        populated_before(image, a) <= populated_before(image, b),
    decreases b - a,
{
    if a < b {
        lemma_populated_monotone(image, a, b - 1);
    }
}

proof fn lemma_chunk_len(image: Seq<u8>, k: int)
    requires
        0 <= k < chunk_count(image.len() as int),
    ensures
        1 <= chunk(image, k).len() <= 256,
{
}

proof fn lemma_block_len(address: int, number: int, total: int, payload: Seq<u8>)
    requires
        payload.len() <= 476,
    ensures
        block_bytes(address, number, total, payload).len() == 512,
{
    reveal(block_bytes);
}

proof fn lemma_blocks_len(image: Seq<u8>, k: int)
    requires
        0 <= k <= chunk_count(image.len() as int),
    ensures
        blocks_before(image, k).len() == 512 * populated_before(image, k),
    decreases k,
{
    if k > 0 {
        lemma_blocks_len(image, k - 1);
        lemma_chunk_len(image, k - 1);
        if !all_erased(chunk(image, k - 1)) {
            lemma_block_len(
                UF2_FLASH_BASE + 256 * (k - 1),
                populated_before(image, k - 1),
                populated_count(image),
                chunk(image, k - 1),
            );
        }
    }
}

proof fn lemma_block_at(image: Seq<u8>, k: int, c: int)
    requires
        0 <= c < k <= chunk_count(image.len() as int),
        !all_erased(chunk(image, c)),
    ensures
        ({
            let n = populated_before(image, c);
            blocks_before(image, k).subrange(512 * n, 512 * n + 512) == block_bytes(
                UF2_FLASH_BASE + 256 * c,
                n,
                populated_count(image),
                chunk(image, c),
            )
        }),
    decreases k,
{
    let n = populated_before(image, c);
    let b = block_bytes(UF2_FLASH_BASE + 256 * c, n, populated_count(image), chunk(image, c));
    lemma_blocks_len(image, k - 1);
    lemma_chunk_len(image, c);
    lemma_block_len(UF2_FLASH_BASE + 256 * c, n, populated_count(image), chunk(image, c));
    if c == k - 1 {
        assert(blocks_before(image, k) == blocks_before(image, k - 1) + b);
        assert(blocks_before(image, k).subrange(512 * n, 512 * n + 512) =~= b);
    } else {
        lemma_block_at(image, k - 1, c);
        lemma_populated_monotone(image, c + 1, k - 1);
        lemma_populated_bounded(image, c);
        assert(populated_before(image, c + 1) == n + 1);
        let prefix = blocks_before(image, k - 1);
        let tail = blocks_before(image, k).subrange(prefix.len() as int, blocks_before(image, k).len() as int);
        assert(blocks_before(image, k) =~= prefix + tail);
        assert(512 * n + 512 <= prefix.len());
        assert((prefix + tail).subrange(512 * n, 512 * n + 512) =~= prefix.subrange(512 * n, 512 * n + 512));
    }
}

/// What the UF2 file holds: one 512-byte block per chunk with data, and
/// block number `n` is the `n`-th chunk with data, addressed where that
/// chunk lies in flash and carrying its bytes.
pub proof fn lemma_uf2_blocks(image: Seq<u8>)
    ensures
        uf2_bytes(image).len() == 512 * populated_count(image),
        forall|c: int|
            0 <= c < chunk_count(image.len() as int) && !all_erased(#[trigger] chunk(image, c)) ==> {
                let n = populated_before(image, c);
                uf2_bytes(image).subrange(512 * n, 512 * n + 512) == block_bytes(
                    UF2_FLASH_BASE + 256 * c,
                    n,
                    populated_count(image),
                    chunk(image, c),
                )
            },
{
    let m = chunk_count(image.len() as int);
    lemma_blocks_len(image, m);
    assert forall|c: int|
        0 <= c < m && !all_erased(#[trigger] chunk(image, c)) implies {
            let n = populated_before(image, c);
            uf2_bytes(image).subrange(512 * n, 512 * n + 512) == block_bytes(
                UF2_FLASH_BASE + 256 * c,
                n,
                populated_count(image),
                chunk(image, c),
            )
        } by {
        lemma_block_at(image, m, c);
    }
}

/// The fields of one block, read back from its bytes.
#[verifier::rlimit(40)]
proof fn lemma_block_fields(address: int, number: int, total: int, payload: Seq<u8>)
    requires
        payload.len() <= 256,
    ensures
        ({
            let blk = block_bytes(address, number, total, payload);
            &&& blk.len() == 512
            &&& le_u32(blk, 0) == UF2_MAGIC_START0
            &&& le_u32(blk, 4) == UF2_MAGIC_START1
            &&& le_u32(blk, 8) == UF2_FLAG_FAMILY_ID_PRESENT
            &&& le_u32(blk, 12) == address as u32
            &&& le_u32(blk, 16) == 256
            &&& le_u32(blk, 20) == number as u32
            &&& le_u32(blk, 24) == total as u32
            &&& le_u32(blk, 28) == RP2350_FAMILY_ID
            &&& blk.subrange(32, 32 + payload.len() as int) == payload
            &&& forall|i: int| 32 + payload.len() <= i < 508 ==> blk[i] == 0u8
            &&& le_u32(blk, 508) == UF2_MAGIC_END
        }),
{
    reveal(block_bytes);
    let blk = block_bytes(address, number, total, payload);
    let magics = le_bytes_u32(UF2_MAGIC_START0) + le_bytes_u32(UF2_MAGIC_START1);
    let fields = le_bytes_u32(UF2_FLAG_FAMILY_ID_PRESENT) + le_bytes_u32(address as u32);
    let sizes = le_bytes_u32(256) + le_bytes_u32(number as u32) + le_bytes_u32(total as u32);
    let h = magics + fields + sizes + le_bytes_u32(RP2350_FAMILY_ID);
    let pad = Seq::new((476 - payload.len()) as nat, |_i: int| 0u8);
    assert(blk =~= h + payload + pad + le_bytes_u32(UF2_MAGIC_END));
    assert(h.len() == 32);
    assert(blk.subrange(0, 4) =~= le_bytes_u32(UF2_MAGIC_START0));
    assert(blk.subrange(4, 8) =~= le_bytes_u32(UF2_MAGIC_START1));
    assert(blk.subrange(8, 12) =~= le_bytes_u32(UF2_FLAG_FAMILY_ID_PRESENT));
    assert(blk.subrange(12, 16) =~= le_bytes_u32(address as u32));
    assert(blk.subrange(16, 20) =~= le_bytes_u32(256));
    assert(blk.subrange(20, 24) =~= le_bytes_u32(number as u32));
    assert(blk.subrange(24, 28) =~= le_bytes_u32(total as u32));
    assert(blk.subrange(28, 32) =~= le_bytes_u32(RP2350_FAMILY_ID));
    assert(blk.subrange(508, 512) =~= le_bytes_u32(UF2_MAGIC_END));
    assert(blk.subrange(32, 32 + payload.len() as int) =~= payload);
    lemma_le_u32_roundtrip(blk, 0, UF2_MAGIC_START0);
    lemma_le_u32_roundtrip(blk, 4, UF2_MAGIC_START1);
    lemma_le_u32_roundtrip(blk, 8, UF2_FLAG_FAMILY_ID_PRESENT);
    lemma_le_u32_roundtrip(blk, 12, address as u32);
    lemma_le_u32_roundtrip(blk, 16, 256);
    lemma_le_u32_roundtrip(blk, 20, number as u32);
    lemma_le_u32_roundtrip(blk, 24, total as u32);
    lemma_le_u32_roundtrip(blk, 28, RP2350_FAMILY_ID);
    lemma_le_u32_roundtrip(blk, 508, UF2_MAGIC_END);
    assert forall|i: int| 32 + payload.len() <= i < 508 implies blk[i] == 0u8 by {
        assert(blk[i] == pad[i - 32 - payload.len()]);
    }
}

proof fn lemma_le_u32_inside(s: Seq<u8>, a: int, off: int)
    requires
        0 <= a,
        0 <= off,
        a + off + 4 <= s.len(),
    ensures
        le_u32(s, a + off) == le_u32(s.subrange(a, s.len() as int), off),
{
}

/// Each block number below `populated_before(image, k)` belongs to one of
/// the first `k` chunks that hold data.
proof fn lemma_block_source(image: Seq<u8>, k: int, b: int)
    requires
        0 <= b < populated_before(image, k),
        0 <= k,
    ensures
        exists|c: int|
            0 <= c < k && !all_erased(#[trigger] chunk(image, c)) && populated_before(image, c) == b,
    decreases k,
{
    if b < populated_before(image, k - 1) {
        lemma_block_source(image, k - 1, b);
        let c = choose|c: int|
            0 <= c < k - 1 && !all_erased(#[trigger] chunk(image, c)) && populated_before(image, c) == b;
        assert(0 <= c < k && !all_erased(chunk(image, c)) && populated_before(image, c) == b);
    } else {
        lemma_populated_bounded(image, k - 1);
        assert(!all_erased(chunk(image, k - 1)) && populated_before(image, k - 1) == b);
    }
}

proof fn lemma_le_u32_in_block(u: Seq<u8>, base: int, blk: Seq<u8>, off: int)
    requires
        0 <= base,
        base + 512 <= u.len(),
        0 <= off <= 508,
        u.subrange(base, base + 512) == blk,
    ensures
        le_u32(u, base + off) == le_u32(blk, off),
{
    assert(u[base + off] == blk[off]);
    assert(u[base + off + 1] == blk[off + 1]);
    assert(u[base + off + 2] == blk[off + 2]);
    assert(u[base + off + 3] == blk[off + 3]);
}

/// The fields of the block that carries chunk `c`, read from the file.
#[verifier::rlimit(40)]
proof fn lemma_chunk_block_fields(image: Seq<u8>, c: int)
    requires
        image.len() <= IMAGE_SIZE,
        0 <= c < chunk_count(image.len() as int),
        !all_erased(chunk(image, c)),
    ensures
        ({
            let u = uf2_bytes(image);
            let n = populated_before(image, c);
            &&& 0 <= n < populated_count(image)
            &&& le_u32(u, 512 * n) == UF2_MAGIC_START0
            &&& le_u32(u, 512 * n + 4) == UF2_MAGIC_START1
            &&& le_u32(u, 512 * n + 8) == UF2_FLAG_FAMILY_ID_PRESENT
            &&& le_u32(u, 512 * n + 12) == UF2_FLASH_BASE + 256 * c
            &&& le_u32(u, 512 * n + 16) == 256
            &&& le_u32(u, 512 * n + 20) == n
            &&& le_u32(u, 512 * n + 24) == populated_count(image)
            &&& le_u32(u, 512 * n + 28) == RP2350_FAMILY_ID
            &&& le_u32(u, 512 * n + 508) == UF2_MAGIC_END
            &&& u.subrange(512 * n + 32, 512 * n + 32 + chunk(image, c).len()) == chunk(image, c)
        }),
{
    let u = uf2_bytes(image);
    let m = chunk_count(image.len() as int);
    let n = populated_before(image, c);
    let total = populated_count(image);
    lemma_uf2_blocks(image);
    lemma_chunk_len(image, c);
    lemma_populated_bounded(image, c);
    lemma_populated_bounded(image, m);
    lemma_populated_monotone(image, c + 1, m);
    assert(n + 1 <= total);
    let blk = block_bytes(UF2_FLASH_BASE + 256 * c, n, total, chunk(image, c));
    lemma_block_fields(UF2_FLASH_BASE + 256 * c, n, total, chunk(image, c));
    assert(u.subrange(512 * n, 512 * n + 512) == blk);
    lemma_le_u32_in_block(u, 512 * n, blk, 0);
    lemma_le_u32_in_block(u, 512 * n, blk, 4);
    lemma_le_u32_in_block(u, 512 * n, blk, 8);
    lemma_le_u32_in_block(u, 512 * n, blk, 12);
    lemma_le_u32_in_block(u, 512 * n, blk, 16);
    lemma_le_u32_in_block(u, 512 * n, blk, 20);
    lemma_le_u32_in_block(u, 512 * n, blk, 24);
    lemma_le_u32_in_block(u, 512 * n, blk, 28);
    lemma_le_u32_in_block(u, 512 * n, blk, 508);
    assert(c < 8192);
    assert((UF2_FLASH_BASE + 256 * c) as u32 == UF2_FLASH_BASE + 256 * c);
    assert(u.subrange(512 * n + 32, 512 * n + 32 + chunk(image, c).len()) =~= blk.subrange(
        32,
        32 + chunk(image, c).len() as int,
    ));
}

/// Every block of the UF2 file of an image that fits flash is a well-formed
/// RP2350 block: both start magics, the family-ID flag, a payload size of
/// 256, its own block number `b`, the total block count, the RP2350 family
/// and the end magic; and the block that carries a chunk of the image that
/// holds data sits at the flash address of that chunk and carries its bytes.
pub proof fn lemma_uf2_block_fields(image: Seq<u8>)
    requires
        image.len() <= IMAGE_SIZE,
    ensures
        uf2_bytes(image).len() == 512 * populated_count(image),
        forall|b: int|
            0 <= b < populated_count(image) ==> {
                &&& le_u32(uf2_bytes(image), #[trigger] (512 * b)) == UF2_MAGIC_START0
                &&& le_u32(uf2_bytes(image), 512 * b + 4) == UF2_MAGIC_START1
                &&& le_u32(uf2_bytes(image), 512 * b + 8) == UF2_FLAG_FAMILY_ID_PRESENT
                &&& le_u32(uf2_bytes(image), 512 * b + 16) == 256
                &&& le_u32(uf2_bytes(image), 512 * b + 20) == b
                &&& le_u32(uf2_bytes(image), 512 * b + 24) == populated_count(image)
                &&& le_u32(uf2_bytes(image), 512 * b + 28) == RP2350_FAMILY_ID
                &&& le_u32(uf2_bytes(image), 512 * b + 508) == UF2_MAGIC_END
            },
        forall|c: int|
            0 <= c < chunk_count(image.len() as int) && !all_erased(#[trigger] chunk(image, c)) ==> {
                let n = populated_before(image, c);
                &&& le_u32(uf2_bytes(image), 512 * n + 12) == UF2_FLASH_BASE + 256 * c
                &&& uf2_bytes(image).subrange(512 * n + 32, 512 * n + 32 + chunk(image, c).len())
                    == chunk(image, c)
            },
{
    let m = chunk_count(image.len() as int);
    lemma_uf2_blocks(image);
    assert forall|c: int|
        0 <= c < m && !all_erased(#[trigger] chunk(image, c)) implies {
            let n = populated_before(image, c);
            &&& le_u32(uf2_bytes(image), 512 * n + 12) == UF2_FLASH_BASE + 256 * c
            &&& uf2_bytes(image).subrange(512 * n + 32, 512 * n + 32 + chunk(image, c).len())
                == chunk(image, c)
        } by {
        lemma_chunk_block_fields(image, c);
    }
    assert forall|b: int| 0 <= b < populated_count(image) implies {
        &&& le_u32(uf2_bytes(image), #[trigger] (512 * b)) == UF2_MAGIC_START0
        &&& le_u32(uf2_bytes(image), 512 * b + 4) == UF2_MAGIC_START1
        &&& le_u32(uf2_bytes(image), 512 * b + 8) == UF2_FLAG_FAMILY_ID_PRESENT
        &&& le_u32(uf2_bytes(image), 512 * b + 16) == 256
        &&& le_u32(uf2_bytes(image), 512 * b + 20) == b
        &&& le_u32(uf2_bytes(image), 512 * b + 24) == populated_count(image)
        &&& le_u32(uf2_bytes(image), 512 * b + 28) == RP2350_FAMILY_ID
        &&& le_u32(uf2_bytes(image), 512 * b + 508) == UF2_MAGIC_END
    } by {
        lemma_block_source(image, m, b);
        let c = choose|c: int|
            0 <= c < m && !all_erased(#[trigger] chunk(image, c)) && populated_before(image, c) == b;
        lemma_chunk_block_fields(image, c);
    }
}

/// Converts a raw flash image into UF2 blocks, skipping chunks of erased
/// flash.
pub fn image_to_uf2(image: &[u8]) -> (r: Result<Vec<u8>, String>)
    ensures
        match r {
            Ok(v) => image@.len() <= IMAGE_SIZE && v@ == uf2_bytes(image@),
            Err(e) => e@ == "flash image exceeds 2 MiB"@ && image@.len() > IMAGE_SIZE,
        },
{
    if image.len() > IMAGE_SIZE {
        return Err(image_too_large_message());
    }
    let chunks = (image.len() + UF2_PAYLOAD_SIZE - 1) / UF2_PAYLOAD_SIZE;
    let mut populated: usize = 0;
    let mut k: usize = 0;
    while k < chunks
        invariant
            image@.len() <= IMAGE_SIZE,
            chunks == chunk_count(image@.len() as int),
            k <= chunks,
            populated == populated_before(image@, k as int),
            populated <= k,
        decreases chunks - k,
    {
        let (start, end) = chunk_bounds(image, k);
        if !chunk_is_erased(image, start, end) {
            populated = populated + 1;
        }
        k = k + 1;
    }
    let mut result: Vec<u8> = Vec::new();
    let mut block_number: u32 = 0;
    let mut k: usize = 0;
    while k < chunks
        invariant
            image@.len() <= IMAGE_SIZE,
            chunks == chunk_count(image@.len() as int),
            k <= chunks,
            populated == populated_count(image@),
            populated <= chunks,
            block_number == populated_before(image@, k as int),
            block_number <= k,
            result@ == blocks_before(image@, k as int),
        decreases chunks - k,
    {
        proof {
            lemma_populated_bounded(image@, k as int);
        }
        let (start, end) = chunk_bounds(image, k);
        if !chunk_is_erased(image, start, end) {
            let address = UF2_FLASH_BASE + (k * UF2_PAYLOAD_SIZE) as u32;
            push_block(&mut result, address, block_number, populated as u32, &image[start..end]);
            block_number = block_number + 1;
        }
        k = k + 1;
    }
    Ok(result)
}

} // verus!
