//! Fixed-layout little-endian records of the container format.
use vstd::prelude::*;
use crate::bytes::{
    lemma_u32_round_trip, lemma_u64_round_trip, push_u32, push_u64, read_u32, read_u64, u32_at,
    u32_bytes, u64_at, u64_bytes,
};

verus! {

/// Magic number written at the start of every container.
pub const MAP_MAGIC: u32 = 0xDEADBEEF;

/// Container header: `magic`, `version`, `entry_count` (the number of blocks),
/// each a little-endian `u32`; 12 bytes.
#[derive(Debug, Clone, Copy, PartialEq, Eq, Structural)]
pub struct MapHeader {
    pub magic: u32,
    pub version: u32,
    pub entry_count: u32,
}

/// Block header: a one-byte `compression_type`, then `compressed_size` and
/// `decompressed_size` as little-endian `u32`; 9 bytes, no padding.
#[derive(Debug, Clone, Copy, PartialEq, Eq, Structural)]
pub struct BlockHeader {
    pub compression_type: u8,
    pub compressed_size: u32,
    pub decompressed_size: u32,
}

/// Table header: `entry_count`, `value_count` and `timestamp` as
/// little-endian `u64`; 24 bytes.
#[derive(Debug, Clone, Copy, PartialEq, Eq, Structural)]
pub struct TableHeader {
    pub entry_count: u64,
    pub value_count: u64,
    pub timestamp: u64,
}

/// Table entry: `id` as little-endian `u64`, then `offset` and `length` as
/// little-endian `u32`; 16 bytes.
#[derive(Debug, Clone, Copy, PartialEq, Eq, Structural)]
pub struct TableEntry {
    pub id: u64,
    pub offset: u32,
    pub length: u32,
}

pub const MAP_HEADER_SIZE: usize = 12;
pub const BLOCK_HEADER_SIZE: usize = 9;
pub const TABLE_HEADER_SIZE: usize = 24;
pub const TABLE_ENTRY_SIZE: usize = 16;

impl MapHeader {
    /// The record stored at `b[p..]`.
    pub open spec fn spec_read(b: Seq<u8>, p: int) -> MapHeader {
        MapHeader { magic: u32_at(b, p), version: u32_at(b, p + 4), entry_count: u32_at(b, p + 8) }
    }

    /// The bytes of the record.
    pub open spec fn spec_bytes(self) -> Seq<u8> {
        u32_bytes(self.magic) + u32_bytes(self.version) + u32_bytes(self.entry_count)
    }

    /// Reads the header stored at `b[p..p + 12]`.
    pub fn read(b: &[u8], p: usize) -> (r: MapHeader)
        requires
            p + 12 <= b.len(),
        ensures
            r == MapHeader::spec_read(b@, p as int),
    {
        MapHeader { magic: read_u32(b, p), version: read_u32(b, p + 4), entry_count: read_u32(b, p + 8) }
    }

    /// Appends the 12 bytes of the header.
    pub fn write(&self, out: &mut Vec<u8>)
        ensures
            final(out)@ == old(out)@ + self.spec_bytes(),
    {
        push_u32(out, self.magic);
        push_u32(out, self.version);
        push_u32(out, self.entry_count);
        assert(out@ =~= old(out)@ + self.spec_bytes());
    }

    /// The bytes of a header read back give the header.
    pub proof fn lemma_round_trip(self, b: Seq<u8>, p: int)
        requires
            0 <= p,
            p + 12 <= b.len(),
            b.subrange(p, p + 12) == self.spec_bytes(),
        ensures
            MapHeader::spec_read(b, p) == self,
    {
        let s = b.subrange(p, p + 12);
        assert(b.subrange(p, p + 4) =~= s.subrange(0, 4));
        assert(b.subrange(p + 4, p + 8) =~= s.subrange(4, 8));
        assert(b.subrange(p + 8, p + 12) =~= s.subrange(8, 12));
        assert(s.subrange(0, 4) =~= u32_bytes(self.magic));
        assert(s.subrange(4, 8) =~= u32_bytes(self.version));
        assert(s.subrange(8, 12) =~= u32_bytes(self.entry_count));
        lemma_u32_round_trip(self.magic, b, p);
        lemma_u32_round_trip(self.version, b, p + 4);
        lemma_u32_round_trip(self.entry_count, b, p + 8);
    }
}

impl BlockHeader {
    /// The record stored at `b[p..]`.
    pub open spec fn spec_read(b: Seq<u8>, p: int) -> BlockHeader {
        BlockHeader {
            compression_type: b[p],
            compressed_size: u32_at(b, p + 1),
            decompressed_size: u32_at(b, p + 5),
        }
    }

    /// The bytes of the record.
    pub open spec fn spec_bytes(self) -> Seq<u8> {
        seq![self.compression_type] + u32_bytes(self.compressed_size) + u32_bytes(
            self.decompressed_size,
        )
    }

    /// Reads the header stored at `b[p..p + 9]`.
    pub fn read(b: &[u8], p: usize) -> (r: BlockHeader)
        requires
            p + 9 <= b.len(),
        ensures
            r == BlockHeader::spec_read(b@, p as int),
    {
        BlockHeader {
            compression_type: b[p],
            compressed_size: read_u32(b, p + 1),
            decompressed_size: read_u32(b, p + 5),
        }
    }

    /// Appends the 9 bytes of the header.
    pub fn write(&self, out: &mut Vec<u8>)
        ensures
            final(out)@ == old(out)@ + self.spec_bytes(),
    {
        out.push(self.compression_type);
        push_u32(out, self.compressed_size);
        push_u32(out, self.decompressed_size);
        assert(out@ =~= old(out)@ + self.spec_bytes());
    }

    /// The bytes of a header read back give the header.
    pub proof fn lemma_round_trip(self, b: Seq<u8>, p: int)
        requires
            0 <= p,
            p + 9 <= b.len(),
            b.subrange(p, p + 9) == self.spec_bytes(),
        ensures
            BlockHeader::spec_read(b, p) == self,
    {
        let s = b.subrange(p, p + 9);
        assert(b[p] == s[0]);
        assert(b.subrange(p + 1, p + 5) =~= s.subrange(1, 5));
        assert(b.subrange(p + 5, p + 9) =~= s.subrange(5, 9));
        assert(s.subrange(1, 5) =~= u32_bytes(self.compressed_size));
        assert(s.subrange(5, 9) =~= u32_bytes(self.decompressed_size));
        lemma_u32_round_trip(self.compressed_size, b, p + 1);
        lemma_u32_round_trip(self.decompressed_size, b, p + 5);
    }
}

impl TableHeader {
    /// The record stored at `b[p..]`.
    pub open spec fn spec_read(b: Seq<u8>, p: int) -> TableHeader {
        TableHeader {
            entry_count: u64_at(b, p),
            value_count: u64_at(b, p + 8),
            timestamp: u64_at(b, p + 16),
        }
    }

    /// The bytes of the record.
    pub open spec fn spec_bytes(self) -> Seq<u8> {
        u64_bytes(self.entry_count) + u64_bytes(self.value_count) + u64_bytes(self.timestamp)
    }

    /// Reads the header stored at `b[p..p + 24]`.
    pub fn read(b: &[u8], p: usize) -> (r: TableHeader)
        requires
            p + 24 <= b.len(),
        ensures
            r == TableHeader::spec_read(b@, p as int),
    {
        TableHeader {
            entry_count: read_u64(b, p),
            value_count: read_u64(b, p + 8),
            timestamp: read_u64(b, p + 16),
        }
    }

    /// Appends the 24 bytes of the header.
    pub fn write(&self, out: &mut Vec<u8>)
        ensures
            final(out)@ == old(out)@ + self.spec_bytes(),
    {
        push_u64(out, self.entry_count);
        push_u64(out, self.value_count);
        push_u64(out, self.timestamp);
        assert(out@ =~= old(out)@ + self.spec_bytes());
    }

    /// The bytes of a header read back give the header.
    pub proof fn lemma_round_trip(self, b: Seq<u8>, p: int)
        requires
            0 <= p,
            p + 24 <= b.len(),
            b.subrange(p, p + 24) == self.spec_bytes(),
        ensures
            TableHeader::spec_read(b, p) == self,
    {
        let s = b.subrange(p, p + 24);
        assert(b.subrange(p, p + 8) =~= s.subrange(0, 8));
        assert(b.subrange(p + 8, p + 16) =~= s.subrange(8, 16));
        assert(b.subrange(p + 16, p + 24) =~= s.subrange(16, 24));
        assert(s.subrange(0, 8) =~= u64_bytes(self.entry_count));
        assert(s.subrange(8, 16) =~= u64_bytes(self.value_count));
        assert(s.subrange(16, 24) =~= u64_bytes(self.timestamp));
        lemma_u64_round_trip(self.entry_count, b, p);
        lemma_u64_round_trip(self.value_count, b, p + 8);
        lemma_u64_round_trip(self.timestamp, b, p + 16);
    }
}

impl TableEntry {
    /// The record stored at `b[p..]`.
    pub open spec fn spec_read(b: Seq<u8>, p: int) -> TableEntry {
        TableEntry { id: u64_at(b, p), offset: u32_at(b, p + 8), length: u32_at(b, p + 12) }
    }

    /// The bytes of the record.
    pub open spec fn spec_bytes(self) -> Seq<u8> {
        u64_bytes(self.id) + u32_bytes(self.offset) + u32_bytes(self.length)
    }

    /// An entry with a zero id or a zero length refers to no value.
    pub open spec fn has_value(self) -> bool {
        self.id > 0 && self.length > 0
    }

    /// Reads the entry stored at `b[p..p + 16]`.
    pub fn read(b: &[u8], p: usize) -> (r: TableEntry)
        requires
            p + 16 <= b.len(),
        ensures
            r == TableEntry::spec_read(b@, p as int),
    {
        TableEntry { id: read_u64(b, p), offset: read_u32(b, p + 8), length: read_u32(b, p + 12) }
    }

    /// Appends the 16 bytes of the entry.
    pub fn write(&self, out: &mut Vec<u8>)
        ensures
            final(out)@ == old(out)@ + self.spec_bytes(),
    {
        push_u64(out, self.id);
        push_u32(out, self.offset);
        push_u32(out, self.length);
        assert(out@ =~= old(out)@ + self.spec_bytes());
    }

    /// The bytes of an entry read back give the entry.
    pub proof fn lemma_round_trip(self, b: Seq<u8>, p: int)
        requires
            0 <= p,
            p + 16 <= b.len(),
            b.subrange(p, p + 16) == self.spec_bytes(),
        ensures
            TableEntry::spec_read(b, p) == self,
    {
        let s = b.subrange(p, p + 16);
        assert(b.subrange(p, p + 8) =~= s.subrange(0, 8));
        assert(b.subrange(p + 8, p + 12) =~= s.subrange(8, 12));
        assert(b.subrange(p + 12, p + 16) =~= s.subrange(12, 16));
        assert(s.subrange(0, 8) =~= u64_bytes(self.id));
        assert(s.subrange(8, 12) =~= u32_bytes(self.offset));
        assert(s.subrange(12, 16) =~= u32_bytes(self.length));
        lemma_u64_round_trip(self.id, b, p);
        lemma_u32_round_trip(self.offset, b, p + 8);
        lemma_u32_round_trip(self.length, b, p + 12);
    }
}

} // verus!
