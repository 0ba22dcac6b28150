//! Layout of a decompressed table and extraction of its texts.
use vstd::prelude::*;
use crate::bytes::push_range;
use crate::structs::{TableEntry, TableHeader, TABLE_ENTRY_SIZE, TABLE_HEADER_SIZE};

verus! {

/// Byte that marks an entry's value as the empty text.
pub const EMPTY_MARK: u8 = 0xFF;

/// Why a table could not be read or rebuilt.
#[derive(Debug, Clone, Copy, PartialEq, Eq, Structural)]
pub enum TableError {
    /// The header, the bucket region, the entry array or a value lies past
    /// the end of the buffer.
    Truncated,
    /// A rebuilt offset or length does not fit in 32 bits.
    TooLarge,
}

/// Number of entries that the table header announces.
pub open spec fn entry_count(t: Seq<u8>) -> int {
    TableHeader::spec_read(t, 0).entry_count as int
}

/// Size of the opaque bucket region that follows the header.
pub open spec fn bucket_size(n: int) -> int {
    if n + 17 > 24 {
        n + 17
    } else {
        24
    }
}

/// Position of the first entry.
pub open spec fn entries_start(t: Seq<u8>) -> int {
    24 + bucket_size(entry_count(t))
}

/// Position of the entry in slot `k`.
pub open spec fn entry_pos(t: Seq<u8>, k: int) -> int {
    entries_start(t) + 16 * k
}

/// The entry in slot `k`.
pub open spec fn entry_at(t: Seq<u8>, k: int) -> TableEntry {
    TableEntry::spec_read(t, entry_pos(t, k))
}

/// Where the value of slot `k` starts: eight bytes past the entry's own
/// position, plus its offset.
pub open spec fn value_pos(t: Seq<u8>, k: int) -> int {
    entry_pos(t, k) + 8 + entry_at(t, k).offset
}

/// The header and the entry array lie within the buffer.
pub open spec fn layout_ok(t: Seq<u8>) -> bool {
    &&& t.len() >= 24
    &&& entries_start(t) + 16 * entry_count(t) <= t.len()
}

/// The value of slot `k` lies within the buffer.
pub open spec fn slot_ok(t: Seq<u8>, k: int) -> bool {
    let e = entry_at(t, k);
    let p = value_pos(t, k);
    e.has_value() ==> {
        &&& p < t.len()
        &&& t[p] != EMPTY_MARK ==> p + e.length <= t.len()
    }
}

/// A table whose every part can be read.
pub open spec fn table_ok(t: Seq<u8>) -> bool {
    &&& layout_ok(t)
    &&& forall|k: int| 0 <= k < entry_count(t) ==> slot_ok(t, k)
}

/// The text of slot `k`: empty where the value starts with the empty mark,
/// else the `length` bytes at the value position.
pub open spec fn value_of(t: Seq<u8>, k: int) -> Seq<u8> {
    let p = value_pos(t, k);
    if t[p] == EMPTY_MARK {
        Seq::empty()
    } else {
        t.subrange(p, p + entry_at(t, k).length)
    }
}

/// The `(id, text)` pairs of the first `k` slots that carry a value, in slot
/// order.
pub open spec fn texts_upto(t: Seq<u8>, k: int) -> Seq<(u64, Seq<u8>)>
    decreases k,
{
    if k <= 0 {
        Seq::empty()
    } else if entry_at(t, k - 1).has_value() {
        texts_upto(t, k - 1).push((entry_at(t, k - 1).id, value_of(t, k - 1)))
    } else {
        texts_upto(t, k - 1)
    }
}

/// The `(id, text)` pairs of a table, in slot order.
pub open spec fn table_texts(t: Seq<u8>) -> Seq<(u64, Seq<u8>)> {
    texts_upto(t, entry_count(t))
}

/// The view of a list of `(id, text)` pairs.
pub open spec fn pairs_view(v: Seq<(u64, Vec<u8>)>) -> Seq<(u64, Seq<u8>)> {
    v.map_values(|p: (u64, Vec<u8>)| (p.0, p.1@))
}

/// Reads and checks the header and the entry array; returns the entry count
/// and the position of the first entry.
pub fn read_layout(t: &[u8]) -> (r: Result<(u64, usize), TableError>)
    ensures
        match r {
            Ok((n, start)) => layout_ok(t@) && n == entry_count(t@) && start == entries_start(t@),
            Err(e) => !layout_ok(t@) && e == TableError::Truncated,
        },
{
    if t.len() < TABLE_HEADER_SIZE {
        return Err(TableError::Truncated);
    }
    let header = TableHeader::read(t, 0);
    let n = header.entry_count;
    if n > t.len() as u64 / 16 {
        return Err(TableError::Truncated);
    }
    let buckets: u64 = if n + 17 > 24 { n + 17 } else { 24 };
    let start = TABLE_HEADER_SIZE as u64 + buckets;
    if start > t.len() as u64 || n > (t.len() as u64 - start) / 16 {
        return Err(TableError::Truncated);
    }
    Ok((n, start as usize))
}

/// Reads the entry of slot `k` and checks that its value lies within the
/// buffer; returns the entry and the value's position.
pub fn read_slot(t: &[u8], start: usize, k: u64) -> (r: Result<(TableEntry, usize), TableError>)
    requires
        layout_ok(t@),
        start == entries_start(t@),
        k < entry_count(t@),
    ensures
        match r {
            Ok((e, p)) => slot_ok(t@, k as int) && e == entry_at(t@, k as int) && (e.has_value()
                ==> p == value_pos(t@, k as int)),
            Err(err) => !slot_ok(t@, k as int) && err == TableError::Truncated,
        },
{
    let len = t.len();
    assert(start + 16 * k <= len);
    let pos = start + (k as usize) * TABLE_ENTRY_SIZE;
    let e = TableEntry::read(t, pos);
    if e.id > 0 && e.length > 0 {
        if e.offset as usize >= len - pos - 8 {
            return Err(TableError::Truncated);
        }
        let p = pos + 8 + e.offset as usize;
        if t[p] != EMPTY_MARK && e.length as usize > len - p {
            return Err(TableError::Truncated);
        }
        Ok((e, p))
    } else {
        Ok((e, 0))
    }
}

/// Extracts the `(id, text)` pairs of a table in slot order. A value that
/// starts with the empty mark gives the empty text.
pub fn parse_table(t: &[u8]) -> (r: Result<Vec<(u64, Vec<u8>)>, TableError>)
    ensures
        match r {
            Ok(v) => table_ok(t@) && pairs_view(v@) == table_texts(t@),
            Err(e) => !table_ok(t@) && e == TableError::Truncated,
        },
{
    let (n, start) = match read_layout(t) {
        Ok(x) => x,
        Err(e) => return Err(e),
    };
    let mut out: Vec<(u64, Vec<u8>)> = Vec::new();
    let mut k: u64 = 0;
    while k < n
        invariant
            layout_ok(t@),
            n == entry_count(t@),
            start == entries_start(t@),
            k <= n,
            forall|j: int| 0 <= j < k ==> slot_ok(t@, j),
            pairs_view(out@) == texts_upto(t@, k as int),
        decreases n - k,
    {
        let (e, p) = match read_slot(t, start, k) {
            Ok(x) => x,
            Err(err) => return Err(err),
        };
        if e.id > 0 && e.length > 0 {
            let mut text: Vec<u8> = Vec::new();
            if t[p] != EMPTY_MARK {
                push_range(&mut text, t, p, p + e.length as usize);
            }
            assert(text@ =~= value_of(t@, k as int));
            out.push((e.id, text));
        }
        k = k + 1;
        assert(pairs_view(out@) =~= texts_upto(t@, k as int));
    }
    Ok(out)
}

} // verus!
