//! Unpacking a container into tables and texts, and packing tables with
//! edited texts into a new container.
use vstd::prelude::*;
use std::collections::HashMap;
use crate::bytes::push_range;
use crate::codec::{zstd_decode, zstd_decoded, zstd_encode, zstd_encoded, ZSTD_TAG};
use crate::container::{
    assemble_container, block_count, block_header_at, block_payload_at, container_ok,
    parse_container, region_offset, region_start, seek_at, written_header, Block, ContainerError,
};
use crate::merge::{merge_fits, merge_table, merged_table, texts_view};
use crate::merge_lemmas::{lemma_rebuilt_texts, read_back};
use crate::structs::{BlockHeader, MapHeader};
use crate::table::{pairs_view, table_ok, TableError};
use crate::texts::{
    all_texts, collect_texts, ids_increasing, latest, repeats, tables_ok, tables_view,
};

verus! {

/// Why a container could not be unpacked or packed.
#[derive(Debug, Clone, Copy, PartialEq, Eq, Structural)]
pub enum CodecError {
    /// The container's structure could not be read or written.
    Container(ContainerError),
    /// A table could not be read or rebuilt.
    Table(TableError),
    /// A zstd block failed to decode.
    Corrupt,
    /// A block decoded to another length than its header announces.
    SizeMismatch,
    /// zstd failed to encode a table.
    EncodeFailed,
}

/// What a block holds once decoded.
#[derive(Debug)]
pub enum BlockContent {
    /// The decoded bytes of a zstd block.
    Data(Vec<u8>),
    /// A block with another compression tag; it is skipped.
    Unsupported(u8),
}

/// Checks what zstd returned for a block against the block's header.
pub fn check_decoded(header: &BlockHeader, decoded: Option<Vec<u8>>) -> (r: Result<
    BlockContent,
    CodecError,
>)
    ensures
        match decoded {
            None => r == Err::<BlockContent, CodecError>(CodecError::Corrupt),
            Some(d) => if d@.len() == header.decompressed_size {
                (r matches Ok(BlockContent::Data(x)) && x@ == d@)
            } else {
                r == Err::<BlockContent, CodecError>(CodecError::SizeMismatch)
            },
        },
{
    match decoded {
        None => Err(CodecError::Corrupt),
        Some(d) => {
            if d.len() == header.decompressed_size as usize {
                Ok(BlockContent::Data(d))
            } else {
                Err(CodecError::SizeMismatch)
            }
        },
    }
}

/// Decodes a block: a zstd block gives its decoded bytes, which must have
/// the length that the header announces; a block with any other tag is
/// reported as unsupported and not decoded.
pub fn decode_block(block: &Block) -> (r: Result<BlockContent, CodecError>)
    ensures
        block.header.compression_type != ZSTD_TAG ==> (r matches Ok(BlockContent::Unsupported(tag))
            && tag == block.header.compression_type),
        block.header.compression_type == ZSTD_TAG ==> match zstd_decoded(block.payload@) {
            None => r == Err::<BlockContent, CodecError>(CodecError::Corrupt),
            Some(d) => if d.len() == block.header.decompressed_size {
                (r matches Ok(BlockContent::Data(x)) && x@ == d)
            } else {
                r == Err::<BlockContent, CodecError>(CodecError::SizeMismatch)
            },
        },
{
    if block.header.compression_type != ZSTD_TAG {
        return Ok(BlockContent::Unsupported(block.header.compression_type));
    }
    let decoded = zstd_decode(block.payload.as_slice());
    check_decoded(&block.header, decoded)
}

/// The blocks among the first `k` whose tag is not zstd's, as pairs of
/// index and tag, in index order.
pub open spec fn unsupported_blocks(c: Seq<u8>, k: int) -> Seq<(usize, u8)>
    decreases k,
{
    if k <= 0 {
        Seq::empty()
    } else {
        let tag = block_header_at(c, k - 1).compression_type;
        if tag != ZSTD_TAG {
            unsupported_blocks(c, k - 1).push(((k - 1) as usize, tag))
        } else {
            unsupported_blocks(c, k - 1)
        }
    }
}

/// Each zstd block among the first `k` decodes, to the length that its
/// header announces.
pub open spec fn all_decoded(c: Seq<u8>, k: int) -> bool {
    forall|i: int|
        0 <= i < k && block_header_at(c, i).compression_type == ZSTD_TAG ==> (zstd_decoded(
            #[trigger] block_payload_at(c, i),
        ) matches Some(d) && d.len() == block_header_at(c, i).decompressed_size)
}

/// A container unpacked: each block's decoded bytes (`None` for a block
/// with an unsupported tag), the tags of the skipped blocks by index, the
/// texts of all tables sorted by id, and the ids that occurred again after
/// their first text, in the order met.
#[derive(Debug)]
pub struct Unpacked {
    pub tables: Vec<Option<Vec<u8>>>,
    pub skipped: Vec<(usize, u8)>,
    pub texts: Vec<(u64, Vec<u8>)>,
    pub duplicates: Vec<u64>,
}

/// Unpacks a container: reads it, decodes each block, and gathers the texts
/// of the tables from index 1 on. A block with an unsupported tag gives no
/// table and no texts and is listed in `skipped`.
pub fn unpack_container(b: &[u8]) -> (r: Result<Unpacked, CodecError>)
    ensures
        match r {
            Ok(u) => {
                let ts = tables_view(u.tables@);
                &&& decoded_as(b@, ts)
                &&& all_decoded(b@, block_count(b@))
                &&& u.skipped@ == unsupported_blocks(b@, block_count(b@))
                &&& tables_ok(ts)
                &&& u.duplicates@ == repeats(all_texts(ts, ts.len() as int))
                &&& ids_increasing(pairs_view(u.texts@))
                &&& forall|id: u64| #[trigger]
                    latest(pairs_view(u.texts@), id) == latest(all_texts(ts, ts.len() as int), id)
            },
            Err(CodecError::Container(e)) => !container_ok(b@) && e == ContainerError::Truncated,
            Err(CodecError::Corrupt) => container_ok(b@) && exists|i: int|
                0 <= i < block_count(b@) && block_header_at(b@, i).compression_type == ZSTD_TAG
                    && zstd_decoded(#[trigger] block_payload_at(b@, i)) is None,
            Err(CodecError::SizeMismatch) => container_ok(b@) && exists|i: int|
                0 <= i < block_count(b@) && block_header_at(b@, i).compression_type == ZSTD_TAG
                    && (zstd_decoded(#[trigger] block_payload_at(b@, i)) matches Some(d) && d.len()
                    != block_header_at(b@, i).decompressed_size),
            Err(CodecError::Table(e)) => container_ok(b@) && e == TableError::Truncated && exists|
                i: int,
            |
                1 <= i < block_count(b@) && block_header_at(b@, i).compression_type == ZSTD_TAG
                    && (zstd_decoded(#[trigger] block_payload_at(b@, i)) matches Some(d)
                    && !table_ok(d)),
            Err(CodecError::EncodeFailed) => false,
        },
{
    let c = match parse_container(b) {
        Ok(c) => c,
        Err(e) => return Err(CodecError::Container(e)),
    };
    let mut tables: Vec<Option<Vec<u8>>> = Vec::new();
    let mut skipped: Vec<(usize, u8)> = Vec::new();
    let mut i: usize = 0;
    while i < c.blocks.len()
        invariant
            container_ok(b@),
            c.blocks@.len() == block_count(b@),
            forall|j: int|
                0 <= j < block_count(b@) ==> {
                    &&& (#[trigger] c.blocks@[j]).header == block_header_at(b@, j)
                    &&& c.blocks@[j].payload@ == block_payload_at(b@, j)
                },
            i <= c.blocks@.len(),
            tables@.len() == i,
            forall|j: int|
                0 <= j < i ==> {
                    let h = block_header_at(b@, j);
                    &&& h.compression_type != ZSTD_TAG ==> (#[trigger] tables_view(tables@)[j]) is None
                    &&& h.compression_type == ZSTD_TAG ==> zstd_decoded(block_payload_at(b@, j))
                        == tables_view(tables@)[j]
                },
            all_decoded(b@, i as int),
            skipped@ == unsupported_blocks(b@, i as int),
        decreases c.blocks@.len() - i,
    {
        let ghost before = tables@;
        assert(c.blocks@[i as int].header == block_header_at(b@, i as int));
        match decode_block(&c.blocks[i]) {
            Ok(BlockContent::Data(d)) => {
                let ghost dv = d@;
                tables.push(Some(d));
                assert(tables_view(tables@)[i as int] == Some(dv));
                assert(zstd_decoded(block_payload_at(b@, i as int)) == Some(dv));
            },
            Ok(BlockContent::Unsupported(tag)) => {
                tables.push(None);
                skipped.push((i, tag));
                assert(skipped@ =~= unsupported_blocks(b@, i + 1));
                assert(tables_view(tables@)[i as int] is None);
                assert(block_header_at(b@, i as int).compression_type != ZSTD_TAG);
            },
            Err(e) => {
                assert(block_header_at(b@, i as int).compression_type == ZSTD_TAG);
                assert(c.blocks@[i as int].payload@ == block_payload_at(b@, i as int));
                return Err(e);
            },
        }
        assert forall|j: int| 0 <= j <= i implies {
            let h = block_header_at(b@, j);
            &&& h.compression_type != ZSTD_TAG ==> (#[trigger] tables_view(tables@)[j]) is None
            &&& h.compression_type == ZSTD_TAG ==> zstd_decoded(block_payload_at(b@, j))
                == tables_view(tables@)[j]
        } by {
            if j < i {
                assert(tables_view(tables@)[j] == tables_view(before)[j]);
            }
        }
        i = i + 1;
    }
    let (texts, duplicates) = match collect_texts(&tables) {
        Ok(t) => t,
        Err(e) => {
            proof {
                let ts = tables_view(tables@);
                let i = choose|i: int|
                    1 <= i < ts.len() && !(#[trigger] ts[i] matches Some(t) ==> table_ok(t));
                assert(block_header_at(b@, i).compression_type == ZSTD_TAG);
            }
            return Err(CodecError::Table(e));
        },
    };
    Ok(Unpacked { tables, skipped, texts, duplicates })
}

/// Every stored table from index 1 on can be read and rebuilt with `ov`.
pub open spec fn tables_mergeable(ts: Seq<Vec<u8>>, ov: Map<u64, Seq<u8>>) -> bool {
    forall|i: int| 1 <= i < ts.len() ==> table_ok(#[trigger] ts[i]@) && merge_fits(ts[i]@, ov)
}

/// What packing makes of stored table `i`: table 0 as it is, any other
/// rebuilt with the overrides.
pub open spec fn packed_table(ts: Seq<Vec<u8>>, ov: Map<u64, Seq<u8>>, i: int) -> Seq<u8> {
    if i == 0 {
        ts[0]@
    } else {
        merged_table(ts[i]@, ov)
    }
}

/// Rebuilds each stored table with the overrides; table 0 is an opaque
/// buffer and is kept as it is.
pub fn merge_tables(tables: &Vec<Vec<u8>>, ov: &HashMap<u64, Vec<u8>>) -> (r: Result<
    Vec<Vec<u8>>,
    TableError,
>)
    ensures
        match r {
            Ok(m) => {
                &&& tables_mergeable(tables@, texts_view(ov@))
                &&& m@.len() == tables@.len()
                &&& forall|i: int|
                    0 <= i < m@.len() ==> (#[trigger] m@[i])@ == packed_table(
                        tables@,
                        texts_view(ov@),
                        i,
                    )
            },
            Err(_) => !tables_mergeable(tables@, texts_view(ov@)),
        },
{
    let ghost ovm = texts_view(ov@);
    let mut out: Vec<Vec<u8>> = Vec::new();
    let mut i: usize = 0;
    while i < tables.len()
        invariant
            ovm == texts_view(ov@),
            i <= tables@.len(),
            out@.len() == i,
            forall|j: int| 1 <= j < i ==> table_ok(#[trigger] tables@[j]@) && merge_fits(tables@[j]@, ovm),
            forall|j: int| 0 <= j < i ==> (#[trigger] out@[j])@ == packed_table(tables@, ovm, j),
        decreases tables@.len() - i,
    {
        if i == 0 {
            let mut raw: Vec<u8> = Vec::new();
            push_range(&mut raw, tables[0].as_slice(), 0, tables[0].len());
            assert(raw@ =~= tables@[0]@);
            out.push(raw);
        } else {
            match merge_table(tables[i].as_slice(), ov) {
                Ok(m) => out.push(m),
                Err(e) => return Err(e),
            }
        }
        i = i + 1;
    }
    Ok(out)
}

/// The block that packing writes for a table.
pub open spec fn packed_block_header(t: Seq<u8>) -> BlockHeader {
    BlockHeader {
        compression_type: ZSTD_TAG,
        compressed_size: zstd_encoded(t).len() as u32,
        decompressed_size: t.len() as u32,
    }
}

/// Every table is at most `u32::MAX` bytes long.
pub open spec fn tables_fit(ts: Seq<Vec<u8>>) -> bool {
    forall|i: int| 0 <= i < ts.len() ==> (#[trigger] ts[i])@.len() <= u32::MAX
}

/// Compresses each table into a zstd block whose header records the
/// compressed and the decompressed length. Every table's length is checked
/// before any is compressed.
pub fn compress_tables(tables: &Vec<Vec<u8>>) -> (r: Result<Vec<Block>, CodecError>)
    ensures
        tables@.len() == 0 ==> r is Ok,
        !tables_fit(tables@) ==> r == Err::<Vec<Block>, CodecError>(
            CodecError::Container(ContainerError::TooLarge),
        ),
        match r {
            Ok(bs) => {
                &&& bs@.len() == tables@.len()
                &&& forall|i: int|
                    0 <= i < bs@.len() ==> {
                        &&& (#[trigger] bs@[i]).payload@ == zstd_encoded(tables@[i]@)
                        &&& bs@[i].header == packed_block_header(tables@[i]@)
                        &&& zstd_decoded(zstd_encoded(tables@[i]@)) == Some(tables@[i]@)
                        &&& tables@[i]@.len() <= u32::MAX
                        &&& zstd_encoded(tables@[i]@).len() <= u32::MAX
                    }
            },
            Err(CodecError::Container(ContainerError::TooLarge)) => !tables_fit(tables@) || exists|
                i: int,
            |
                0 <= i < tables@.len() && zstd_encoded(#[trigger] tables@[i]@).len() > u32::MAX,
            Err(e) => e == CodecError::EncodeFailed && tables_fit(tables@) && tables@.len() > 0,
        },
{
    let mut i: usize = 0;
    while i < tables.len()
        invariant
            i <= tables@.len(),
            forall|j: int| 0 <= j < i ==> (#[trigger] tables@[j])@.len() <= u32::MAX,
        decreases tables@.len() - i,
    {
        if tables[i].len() > 0xFFFF_FFFFusize {
            return Err(CodecError::Container(ContainerError::TooLarge));
        }
        i = i + 1;
    }
    let mut out: Vec<Block> = Vec::new();
    let mut i: usize = 0;
    while i < tables.len()
        invariant
            tables_fit(tables@),
            i <= tables@.len(),
            out@.len() == i,
            forall|j: int|
                0 <= j < i ==> {
                    &&& (#[trigger] out@[j]).payload@ == zstd_encoded(tables@[j]@)
                    &&& out@[j].header == packed_block_header(tables@[j]@)
                    &&& zstd_decoded(zstd_encoded(tables@[j]@)) == Some(tables@[j]@)
                    &&& tables@[j]@.len() <= u32::MAX
                    &&& zstd_encoded(tables@[j]@).len() <= u32::MAX
                },
        decreases tables@.len() - i,
    {
        let t = &tables[i];
        assert(t@.len() <= u32::MAX);
        let payload = match zstd_encode(t.as_slice()) {
            Some(p) => p,
            None => return Err(CodecError::EncodeFailed),
        };
        if payload.len() > 0xFFFF_FFFFusize {
            assert(zstd_encoded(tables@[i as int]@).len() > u32::MAX);
            return Err(CodecError::Container(ContainerError::TooLarge));
        }
        let header = BlockHeader {
            compression_type: ZSTD_TAG,
            compressed_size: payload.len() as u32,
            decompressed_size: t.len() as u32,
        };
        assert(t@ == tables@[i as int]@);
        assert(header == packed_block_header(tables@[i as int]@));
        let ghost before = out@;
        out.push(Block { header, payload });
        assert(forall|j: int| 0 <= j < i ==> out@[j] == before[j]);
        i = i + 1;
    }
    Ok(out)
}

/// A container packed: the rebuilt tables and the container bytes.
#[derive(Debug)]
pub struct Packed {
    pub tables: Vec<Vec<u8>>,
    pub container: Vec<u8>,
}

/// Packs stored tables into a new container: each table but table 0 is
/// rebuilt with the overrides, then every table is compressed into a zstd
/// block, in index order.
#[verifier::rlimit(40)]
pub fn pack_container(tables: &Vec<Vec<u8>>, ov: &HashMap<u64, Vec<u8>>) -> (r: Result<
    Packed,
    CodecError,
>)
    ensures
        tables@.len() == 0 ==> r is Ok,
        !tables_mergeable(tables@, texts_view(ov@)) <==> r matches Err(CodecError::Table(_)),
        match r {
            Ok(p) => {
                let c = p.container@;
                &&& tables_mergeable(tables@, texts_view(ov@))
                &&& p.tables@.len() == tables@.len()
                &&& written_as(c, tables_seq(p.tables@))
                &&& forall|i: int|
                    0 <= i < tables@.len() ==> {
                        &&& (#[trigger] p.tables@[i])@ == packed_table(tables@, texts_view(ov@), i)
                        &&& block_payload_at(c, i) == zstd_encoded(p.tables@[i]@)
                    }
            },
            Err(CodecError::Table(_)) => true,
            Err(CodecError::Container(e)) => {
                let pv = packed_tables(tables@, texts_view(ov@));
                &&& e == ContainerError::TooLarge
                &&& tables_mergeable(tables@, texts_view(ov@))
                &&& (tables@.len() >= u32::MAX || packed_region_len(pv, pv.len() as int) > u32::MAX
                    || exists|i: int|
                    0 <= i < pv.len() && (#[trigger] pv[i].len() > u32::MAX || zstd_encoded(
                        pv[i],
                    ).len() > u32::MAX))
            },
            Err(e) => e == CodecError::EncodeFailed && tables_mergeable(tables@, texts_view(ov@))
                && tables@.len() > 0,
        },
{
    let merged = match merge_tables(tables, ov) {
        Ok(m) => m,
        Err(e) => return Err(CodecError::Table(e)),
    };
    let ghost pv = tables_seq(merged@);
    assert(pv =~= packed_tables(tables@, texts_view(ov@)));
    let blocks = match compress_tables(&merged) {
        Ok(b) => b,
        Err(e) => {
            proof {
                if !tables_fit(merged@) {
                    let i = choose|i: int| 0 <= i < merged@.len() && !((#[trigger] merged@[i])@.len() <= u32::MAX);
                    assert(pv[i].len() > u32::MAX);
                } else if e == CodecError::Container(ContainerError::TooLarge) {
                    let i = choose|i: int|
                        0 <= i < merged@.len() && zstd_encoded(#[trigger] merged@[i]@).len() > u32::MAX;
                    assert(pv[i] == merged@[i]@);
                }
            }
            return Err(e);
        },
    };
    proof {
        lemma_region_len(blocks@, pv, blocks@.len() as int);
    }
    let container = match assemble_container(&blocks) {
        Ok(c) => c,
        Err(e) => return Err(CodecError::Container(e)),
    };
    assert forall|i: int| 0 <= i < tables@.len() implies {
        &&& #[trigger] block_header_at(container@, i) == packed_block_header(pv[i])
        &&& zstd_decoded(block_payload_at(container@, i)) == Some(pv[i])
        &&& block_payload_at(container@, i) == zstd_encoded(merged@[i]@)
    } by {
        assert(pv[i] == merged@[i]@);
        assert(blocks@[i].header == packed_block_header(merged@[i]@));
        assert(blocks@[i].payload@ == zstd_encoded(merged@[i]@));
    }
    assert forall|i: int| 0 <= i <= pv.len() implies #[trigger] seek_at(container@, i)
        == packed_region_len(pv, i) by {
        lemma_region_len(blocks@, pv, i);
    }
    assert(written_as(container@, pv));
    Ok(Packed { tables: merged, container })
}

/// Decoding container `c` gave the tables `ts`, as `unpack_container`
/// states of a container that it unpacks.
pub open spec fn decoded_as(c: Seq<u8>, ts: Seq<Option<Seq<u8>>>) -> bool {
    &&& container_ok(c)
    &&& ts.len() == block_count(c)
    &&& forall|i: int|
        0 <= i < block_count(c) ==> {
            let h = block_header_at(c, i);
            &&& h.compression_type != ZSTD_TAG ==> (#[trigger] ts[i]) is None
            &&& h.compression_type == ZSTD_TAG ==> zstd_decoded(block_payload_at(c, i)) == ts[i]
        }
}

/// Container `c` holds `packed` as zstd blocks, as `pack_container` states
/// of the container that it writes.
pub open spec fn written_as(c: Seq<u8>, packed: Seq<Seq<u8>>) -> bool {
    &&& container_ok(c)
    &&& MapHeader::spec_read(c, 0) == written_header(packed.len() as int)
    &&& block_count(c) == packed.len()
    &&& forall|i: int| 0 <= i <= packed.len() ==> #[trigger] seek_at(c, i) == packed_region_len(packed, i)
    &&& c.len() == region_start(c) + packed_region_len(packed, packed.len() as int)
    &&& forall|i: int|
        0 <= i < packed.len() ==> {
            &&& #[trigger] block_header_at(c, i) == packed_block_header(packed[i])
            &&& zstd_decoded(block_payload_at(c, i)) == Some(packed[i])
        }
}

/// What packing makes of every stored table.
pub open spec fn packed_tables(ts: Seq<Vec<u8>>, ov: Map<u64, Seq<u8>>) -> Seq<Seq<u8>> {
    Seq::new(ts.len(), |i: int| packed_table(ts, ov, i))
}

/// Length of the block region holding the first `i` of `packed` as zstd
/// blocks, each a 9-byte header and its compressed bytes; this is where
/// block `i` starts.
pub open spec fn packed_region_len(packed: Seq<Seq<u8>>, i: int) -> int
    decreases i,
{
    if i <= 0 {
        0
    } else {
        packed_region_len(packed, i - 1) + 9 + zstd_encoded(packed[i - 1]).len()
    }
}

proof fn lemma_region_len(bs: Seq<Block>, packed: Seq<Seq<u8>>, i: int)
    requires
        0 <= i <= bs.len(),
        bs.len() == packed.len(),
        forall|j: int| 0 <= j < bs.len() ==> (#[trigger] bs[j]).payload@ == zstd_encoded(packed[j]),
    ensures
        region_offset(bs, i) == packed_region_len(packed, i),
    decreases i,
{
    if i > 0 {
        lemma_region_len(bs, packed, i - 1);
    }
}

/// The views of a list of tables.
pub open spec fn tables_seq(ts: Seq<Vec<u8>>) -> Seq<Seq<u8>> {
    ts.map_values(|t: Vec<u8>| t@)
}

/// Every stored table is present.
pub open spec fn all_present(ts: Seq<Vec<u8>>) -> Seq<Option<Seq<u8>>> {
    ts.map_values(|t: Vec<u8>| Some(t@))
}

/// Packing stored tables with `ov` and unpacking the container again: every
/// table reads back as packed (table 0 unchanged, the others rebuilt), and in
/// the gathered map an id that had a text and has an override carries what
/// the overriding text reads back as (the text itself unless it starts with
/// the empty mark), while every other id keeps the text it had.
pub proof fn lemma_pack_then_unpack(
    tables: Seq<Vec<u8>>,
    ov: Map<u64, Seq<u8>>,
    packed: Seq<Seq<u8>>,
    c: Seq<u8>,
    ts: Seq<Option<Seq<u8>>>,
    id: u64,
)
    requires
        tables_mergeable(tables, ov),
        packed.len() == tables.len(),
        forall|i: int| 0 <= i < tables.len() ==> #[trigger] packed[i] == packed_table(tables, ov, i),
        written_as(c, packed),
        decoded_as(c, ts),
    ensures
        forall|i: int| 0 <= i < tables.len() ==> #[trigger] ts[i] == Some(packed[i]),
        latest(all_texts(ts, ts.len() as int), id) == (if ov.contains_key(id) && latest(
            all_texts(all_present(tables), tables.len() as int),
            id,
        ) is Some {
            Some(read_back(ov[id]))
        } else {
            latest(all_texts(all_present(tables), tables.len() as int), id)
        }),
{
    let orig = all_present(tables);
    assert forall|i: int| 0 <= i < tables.len() implies #[trigger] ts[i] == Some(packed[i]) by {
        assert(block_header_at(c, i) == packed_block_header(packed[i]));
    }
    assert forall|i: int| 1 <= i < orig.len() implies match #[trigger] orig[i] {
        Some(t) => table_ok(t) && merge_fits(t, ov) && ts[i] == Some(merged_table(t, ov)),
        None => ts[i] is None,
    } by {
        assert(ts[i] == Some(packed[i]));
        assert(table_ok(tables[i]@));
    }
    lemma_rebuilt_texts(orig, ts, ov, id);
}

} // verus!
