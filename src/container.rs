//! The container: header, seek table and block region.
use vstd::prelude::*;
use crate::bytes::{lemma_u32_round_trip, push_range, push_u32, read_u32, u32_at, u32_bytes};
use crate::structs::{BlockHeader, MapHeader, BLOCK_HEADER_SIZE, MAP_HEADER_SIZE, MAP_MAGIC};

verus! {

/// Why a container could not be read or written.
#[derive(Debug, Clone, Copy, PartialEq, Eq, Structural)]
pub enum ContainerError {
    /// The header, the seek table or a block lies past the end of the input.
    Truncated,
    /// The block region or the block count does not fit in 32 bits.
    TooLarge,
}

/// A block as stored: its header and its compressed payload.
#[derive(Debug)]
pub struct Block {
    pub header: BlockHeader,
    pub payload: Vec<u8>,
}

/// A container as read: its header, its seek table (one slot per block and a
/// final slot holding the length of the block region) and its blocks.
#[derive(Debug)]
pub struct Container {
    pub header: MapHeader,
    pub seek_table: Vec<u32>,
    pub blocks: Vec<Block>,
}

/// Number of blocks that the header announces.
pub open spec fn block_count(b: Seq<u8>) -> int {
    MapHeader::spec_read(b, 0).entry_count as int
}

/// Position right after the seek table, where the block region starts.
pub open spec fn region_start(b: Seq<u8>) -> int {
    12 + 4 * (block_count(b) + 1)
}

/// Slot `i` of the seek table.
pub open spec fn seek_at(b: Seq<u8>, i: int) -> u32 {
    u32_at(b, 12 + 4 * i)
}

/// Position of the header of block `i`.
pub open spec fn block_pos(b: Seq<u8>, i: int) -> int {
    region_start(b) + seek_at(b, i)
}

/// The header of block `i`.
pub open spec fn block_header_at(b: Seq<u8>, i: int) -> BlockHeader {
    BlockHeader::spec_read(b, block_pos(b, i))
}

/// The payload of block `i`: `compressed_size` bytes after its header.
pub open spec fn block_payload_at(b: Seq<u8>, i: int) -> Seq<u8> {
    let p = block_pos(b, i) + 9;
    b.subrange(p, p + block_header_at(b, i).compressed_size)
}

/// The header and the payload of block `i` lie within the input.
pub open spec fn block_ok(b: Seq<u8>, i: int) -> bool {
    &&& block_pos(b, i) + 9 <= b.len()
    &&& block_pos(b, i) + 9 + block_header_at(b, i).compressed_size <= b.len()
}

/// A container whose header, seek table and blocks can all be read.
pub open spec fn container_ok(b: Seq<u8>) -> bool {
    &&& b.len() >= 12
    &&& region_start(b) <= b.len()
    &&& forall|i: int| 0 <= i < block_count(b) ==> block_ok(b, i)
}

/// Offset of block `i` within the block region written for `bs`.
pub open spec fn region_offset(bs: Seq<Block>, i: int) -> int
    decreases i,
{
    if i <= 0 {
        0
    } else {
        region_offset(bs, i - 1) + 9 + bs[i - 1].payload@.len()
    }
}

/// Reads the header, the seek table and every block of a container. The
/// final seek-table slot is kept but never read as a block.
pub fn parse_container(b: &[u8]) -> (r: Result<Container, ContainerError>)
    ensures
        match r {
            Ok(c) => {
                &&& container_ok(b@)
                &&& c.header == MapHeader::spec_read(b@, 0)
                &&& c.seek_table@.len() == block_count(b@) + 1
                &&& forall|i: int| 0 <= i <= block_count(b@) ==> c.seek_table@[i] == seek_at(b@, i)
                &&& c.blocks@.len() == block_count(b@)
                &&& forall|i: int|
                    0 <= i < block_count(b@) ==> {
                        &&& (#[trigger] c.blocks@[i]).header == block_header_at(b@, i)
                        &&& c.blocks@[i].payload@ == block_payload_at(b@, i)
                    }
            },
            Err(e) => !container_ok(b@) && e == ContainerError::Truncated,
        },
{
    let len = b.len();
    if len < MAP_HEADER_SIZE {
        return Err(ContainerError::Truncated);
    }
    let header = MapHeader::read(b, 0);
    let count = header.entry_count as usize;
    if count >= (len - 12) / 4 {
        return Err(ContainerError::Truncated);
    }
    let start = 12 + 4 * (count + 1);
    let mut seek_table: Vec<u32> = Vec::new();
    let mut i: usize = 0;
    while i <= count
        invariant
            len == b@.len(),
            count == block_count(b@),
            start == region_start(b@),
            start <= len,
            i <= count + 1,
            seek_table@.len() == i,
            forall|j: int| 0 <= j < i ==> seek_table@[j] == seek_at(b@, j),
        decreases count + 1 - i,
    {
        seek_table.push(read_u32(b, 12 + 4 * i));
        i = i + 1;
    }
    let mut blocks: Vec<Block> = Vec::new();
    let mut i: usize = 0;
    while i < count
        invariant
            len == b@.len(),
            count == block_count(b@),
            start == region_start(b@),
            start <= len,
            i <= count,
            seek_table@.len() == count + 1,
            forall|j: int| 0 <= j <= count ==> seek_table@[j] == seek_at(b@, j),
            blocks@.len() == i,
            forall|j: int| 0 <= j < i ==> block_ok(b@, j),
            forall|j: int|
                0 <= j < i ==> {
                    &&& (#[trigger] blocks@[j]).header == block_header_at(b@, j)
                    &&& blocks@[j].payload@ == block_payload_at(b@, j)
                },
        decreases count - i,
    {
        let off = seek_table[i] as usize;
        if off > len - start || len - start - off < BLOCK_HEADER_SIZE {
            assert(!block_ok(b@, i as int));
            return Err(ContainerError::Truncated);
        }
        let pos = start + off;
        let bh = BlockHeader::read(b, pos);
        let size = bh.compressed_size as usize;
        if size > len - pos - BLOCK_HEADER_SIZE {
            assert(!block_ok(b@, i as int));
            return Err(ContainerError::Truncated);
        }
        let mut payload: Vec<u8> = Vec::new();
        push_range(&mut payload, b, pos + BLOCK_HEADER_SIZE, pos + BLOCK_HEADER_SIZE + size);
        assert(payload@ =~= block_payload_at(b@, i as int));
        blocks.push(Block { header: bh, payload });
        i = i + 1;
    }
    Ok(Container { header, seek_table, blocks })
}

proof fn lemma_region_offset_grows(bs: Seq<Block>, i: int, j: int)
    requires
        0 <= i <= j,
    ensures
        region_offset(bs, i) <= region_offset(bs, j),
    decreases j,
{
    if i < j {
        lemma_region_offset_grows(bs, i, j - 1);
    }
}

/// The header that a written container starts with.
pub open spec fn written_header(n: int) -> MapHeader {
    MapHeader { magic: MAP_MAGIC, version: 1, entry_count: n as u32 }
}

/// `seek` holds the offsets of the first `i` blocks.
#[verifier::opaque]
spec fn seek_written(seek: Seq<u8>, bs: Seq<Block>, i: int) -> bool {
    forall|j: int|
        0 <= j < i ==> seek.subrange(4 * j, 4 * j + 4) == u32_bytes(
            #[trigger] region_offset(bs, j) as u32,
        )
}

/// `region` holds the headers and payloads of the first `i` blocks.
#[verifier::opaque]
spec fn region_written(region: Seq<u8>, bs: Seq<Block>, i: int) -> bool {
    forall|j: int|
        0 <= j < i ==> {
            &&& region.subrange(#[trigger] region_offset(bs, j), region_offset(bs, j) + 9)
                == bs[j].header.spec_bytes()
            &&& region.subrange(region_offset(bs, j) + 9, region_offset(bs, j + 1)) == bs[j].payload@
        }
}

proof fn lemma_seek_step(s0: Seq<u8>, s1: Seq<u8>, bs: Seq<Block>, i: int)
    requires
        0 <= i,
        s0.len() == 4 * i,
        seek_written(s0, bs, i),
        s1 == s0 + u32_bytes(region_offset(bs, i) as u32),
    ensures
        seek_written(s1, bs, i + 1),
{
    reveal(seek_written);
    assert forall|j: int| 0 <= j < i + 1 implies s1.subrange(4 * j, 4 * j + 4) == u32_bytes(
        #[trigger] region_offset(bs, j) as u32,
    ) by {
        if j < i {
            assert(s1.subrange(4 * j, 4 * j + 4) =~= s0.subrange(4 * j, 4 * j + 4));
        } else {
            assert(s1.subrange(4 * j, 4 * j + 4) =~= u32_bytes(region_offset(bs, i) as u32));
        }
    }
}

proof fn lemma_region_step(r0: Seq<u8>, r1: Seq<u8>, bs: Seq<Block>, i: int)
    requires
        0 <= i < bs.len(),
        r0.len() == region_offset(bs, i),
        region_written(r0, bs, i),
        r1 == r0 + bs[i].header.spec_bytes() + bs[i].payload@,
    ensures
        region_written(r1, bs, i + 1),
        r1.len() == region_offset(bs, i + 1),
{
    reveal(region_written);
    assert forall|j: int| 0 <= j < i + 1 implies {
        &&& r1.subrange(#[trigger] region_offset(bs, j), region_offset(bs, j) + 9)
            == bs[j].header.spec_bytes()
        &&& r1.subrange(region_offset(bs, j) + 9, region_offset(bs, j + 1)) == bs[j].payload@
    } by {
        if j < i {
            lemma_region_offset_grows(bs, j + 1, i);
            lemma_region_offset_grows(bs, 0, j);
            assert(r1.subrange(region_offset(bs, j), region_offset(bs, j) + 9) =~= r0.subrange(
                region_offset(bs, j),
                region_offset(bs, j) + 9,
            ));
            assert(r1.subrange(region_offset(bs, j) + 9, region_offset(bs, j + 1)) =~= r0.subrange(
                region_offset(bs, j) + 9,
                region_offset(bs, j + 1),
            ));
        } else {
            assert(r1.subrange(region_offset(bs, j), region_offset(bs, j) + 9)
                =~= bs[j].header.spec_bytes());
            assert(r1.subrange(region_offset(bs, j) + 9, region_offset(bs, j + 1))
                =~= bs[j].payload@);
        }
    }
}

proof fn lemma_written_seek(o: Seq<u8>, seek: Seq<u8>, bs: Seq<Block>, i: int)
    requires
        bs.len() < u32::MAX,
        region_offset(bs, bs.len() as int) <= u32::MAX,
        seek.len() == 4 * (bs.len() + 1),
        seek_written(seek, bs, (bs.len() + 1) as int),
        o.len() >= 12 + seek.len(),
        o.subrange(12, 12 + seek.len() as int) == seek,
        0 <= i <= bs.len(),
    ensures
        seek_at(o, i) == region_offset(bs, i),
{
    reveal(seek_written);
    lemma_region_offset_grows(bs, i, bs.len() as int);
    lemma_region_offset_grows(bs, 0, i);
    assert(seek.subrange(4 * i, 4 * i + 4) == u32_bytes(region_offset(bs, i) as u32));
    assert(o.subrange(12 + 4 * i, 16 + 4 * i) =~= seek.subrange(4 * i, 4 * i + 4));
    lemma_u32_round_trip(region_offset(bs, i) as u32, o, 12 + 4 * i);
}

proof fn lemma_written_block(o: Seq<u8>, region: Seq<u8>, bs: Seq<Block>, rs: int, i: int)
    requires
        0 <= i < bs.len(),
        0 <= rs,
        region.len() == region_offset(bs, bs.len() as int),
        region_written(region, bs, bs.len() as int),
        o.len() == rs + region.len(),
        o.subrange(rs, rs + region.len()) == region,
    ensures
        BlockHeader::spec_read(o, rs + region_offset(bs, i)) == bs[i].header,
        rs + region_offset(bs, i) + 9 <= o.len(),
        o.subrange(rs + region_offset(bs, i) + 9, rs + region_offset(bs, i + 1)) == bs[i].payload@,
        rs + region_offset(bs, i + 1) <= o.len(),
{
    reveal(region_written);
    let n = bs.len() as int;
    lemma_region_offset_grows(bs, i + 1, n);
    lemma_region_offset_grows(bs, 0, i);
    let p = rs + region_offset(bs, i);
    assert(region.subrange(region_offset(bs, i), region_offset(bs, i) + 9)
        == bs[i].header.spec_bytes());
    assert(o.subrange(p, p + 9) =~= region.subrange(region_offset(bs, i), region_offset(bs, i) + 9));
    bs[i].header.lemma_round_trip(o, p);
    assert(o.subrange(p + 9, rs + region_offset(bs, i + 1)) =~= region.subrange(
        region_offset(bs, i) + 9,
        region_offset(bs, i + 1),
    ));
}

proof fn lemma_written_container(o: Seq<u8>, seek: Seq<u8>, region: Seq<u8>, bs: Seq<Block>)
    requires
        bs.len() < u32::MAX,
        region.len() == region_offset(bs, bs.len() as int),
        region.len() <= u32::MAX,
        seek.len() == 4 * (bs.len() + 1),
        seek_written(seek, bs, (bs.len() + 1) as int),
        region_written(region, bs, bs.len() as int),
        forall|i: int|
            0 <= i < bs.len() ==> (#[trigger] bs[i]).header.compressed_size == bs[i].payload@.len(),
        o == written_header(bs.len() as int).spec_bytes() + seek + region,
    ensures
        container_ok(o),
        MapHeader::spec_read(o, 0) == written_header(bs.len() as int),
        block_count(o) == bs.len(),
        forall|i: int| 0 <= i <= bs.len() ==> #[trigger] seek_at(o, i) == region_offset(bs, i),
        o.len() == region_start(o) + region_offset(bs, bs.len() as int),
        forall|i: int|
            0 <= i < bs.len() ==> {
                &&& #[trigger] block_header_at(o, i) == bs[i].header
                &&& block_payload_at(o, i) == bs[i].payload@
            },
{
    let n = bs.len() as int;
    let rs = 12 + 4 * (n + 1);
    assert(o.subrange(0, 12) =~= written_header(n).spec_bytes());
    written_header(n).lemma_round_trip(o, 0);
    assert(o.subrange(12, 12 + seek.len() as int) =~= seek);
    assert(o.subrange(rs, rs + region.len()) =~= region);
    assert forall|i: int| 0 <= i <= n implies #[trigger] seek_at(o, i) == region_offset(bs, i) by {
        lemma_written_seek(o, seek, bs, i);
    }
    assert forall|i: int| 0 <= i < n implies {
        &&& #[trigger] block_header_at(o, i) == bs[i].header
        &&& block_payload_at(o, i) == bs[i].payload@
        &&& block_ok(o, i)
    } by {
        lemma_written_seek(o, seek, bs, i);
        lemma_written_block(o, region, bs, rs, i);
    }
    assert(block_count(o) == n);
    assert(region_start(o) == rs);
    assert forall|i: int| 0 <= i < block_count(o) implies block_ok(o, i) by {
        assert(block_header_at(o, i) == bs[i].header);
    }
}

/// Writes a container holding `blocks` in order: the header with version 1
/// and the block count, a seek table whose slot `i` is the offset of block
/// `i` within the block region and whose final slot is the region's length,
/// then each block's header and payload.
#[verifier::rlimit(40)]
pub fn assemble_container(blocks: &Vec<Block>) -> (r: Result<Vec<u8>, ContainerError>)
    requires
        forall|i: int|
            0 <= i < blocks@.len() ==> (#[trigger] blocks@[i]).header.compressed_size
                == blocks@[i].payload@.len(),
    ensures
        ({
            let bs = blocks@;
            let n = bs.len() as int;
            match r {
                Ok(out) => {
                    &&& n < u32::MAX
                    &&& region_offset(bs, n) <= u32::MAX
                    &&& container_ok(out@)
                    &&& MapHeader::spec_read(out@, 0) == written_header(n)
                    &&& block_count(out@) == n
                    &&& forall|i: int| 0 <= i <= n ==> #[trigger] seek_at(out@, i) == region_offset(bs, i)
                    &&& out@.len() == region_start(out@) + region_offset(bs, n)
                    &&& forall|i: int|
                        0 <= i < n ==> {
                            &&& #[trigger] block_header_at(out@, i) == bs[i].header
                            &&& block_payload_at(out@, i) == bs[i].payload@
                        }
                },
                Err(e) => e == ContainerError::TooLarge && (n >= u32::MAX || region_offset(bs, n)
                    > u32::MAX),
            }
        }),
{
    let ghost bs = blocks@;
    let n = blocks.len();
    if n >= 0xFFFF_FFFFusize {
        return Err(ContainerError::TooLarge);
    }
    let mut region: Vec<u8> = Vec::new();
    let mut seek: Vec<u8> = Vec::new();
    proof {
        reveal(seek_written);
        reveal(region_written);
    }
    let mut i: usize = 0;
    while i < n
        invariant
            bs == blocks@,
            n == bs.len(),
            i <= n,
            region@.len() == region_offset(bs, i as int),
            region@.len() <= u32::MAX,
            seek@.len() == 4 * i,
            seek_written(seek@, bs, i as int),
            region_written(region@, bs, i as int),
        decreases n - i,
    {
        let off = region.len();
        let blen = blocks[i].payload.len();
        if blen > 0xFFFF_FFFFusize - off || 0xFFFF_FFFFusize - off - blen < BLOCK_HEADER_SIZE {
            proof {
                lemma_region_offset_grows(bs, i as int + 1, n as int);
            }
            return Err(ContainerError::TooLarge);
        }
        let ghost r0 = region@;
        let ghost s0 = seek@;
        push_u32(&mut seek, off as u32);
        blocks[i].header.write(&mut region);
        push_range(&mut region, blocks[i].payload.as_slice(), 0, blen);
        proof {
            assert(blocks[i as int].payload@.subrange(0, blen as int) =~= blocks[i as int].payload@);
            lemma_seek_step(s0, seek@, bs, i as int);
            lemma_region_step(r0, region@, bs, i as int);
        }
        i = i + 1;
    }
    let ghost s0 = seek@;
    push_u32(&mut seek, region.len() as u32);
    proof {
        lemma_seek_step(s0, seek@, bs, n as int);
    }
    let header = MapHeader { magic: MAP_MAGIC, version: 1, entry_count: n as u32 };
    let mut out: Vec<u8> = Vec::new();
    header.write(&mut out);
    push_range(&mut out, seek.as_slice(), 0, seek.len());
    push_range(&mut out, region.as_slice(), 0, region.len());
    proof {
        assert(seek@.subrange(0, seek@.len() as int) =~= seek@);
        assert(region@.subrange(0, region@.len() as int) =~= region@);
        assert(out@ =~= written_header(n as int).spec_bytes() + seek@ + region@);
        lemma_written_container(out@, seek@, region@, bs);
    }
    Ok(out)
}

} // verus!
