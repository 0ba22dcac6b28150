//! Rebuilding a table with edited texts.
use vstd::prelude::*;
use std::collections::HashMap;
use crate::bytes::push_range;
use crate::structs::TableEntry;
use crate::table::{
    entries_start, entry_at, entry_count, read_layout, read_slot, slot_ok, table_ok, value_of,
    TableError, EMPTY_MARK,
};

verus! {

broadcast use vstd::std_specs::hash::group_hash_axioms;

/// The view of an identifier-to-text map.
pub open spec fn texts_view(m: Map<u64, Vec<u8>>) -> Map<u64, Seq<u8>> {
    m.map_values(|v: Vec<u8>| v@)
}

/// How a text is stored in a value blob: the empty text as the single empty
/// mark, any other text as its bytes.
pub open spec fn stored_text(s: Seq<u8>) -> Seq<u8> {
    if s.len() == 0 {
        seq![EMPTY_MARK]
    } else {
        s
    }
}

/// The bytes that the rebuilt blob holds for slot `k`: nothing for a slot
/// without a value, else the overriding text if there is one, else the
/// slot's original text.
pub open spec fn slot_text(t: Seq<u8>, ov: Map<u64, Seq<u8>>, k: int) -> Seq<u8> {
    let e = entry_at(t, k);
    if !e.has_value() {
        Seq::empty()
    } else if ov.contains_key(e.id) {
        stored_text(ov[e.id])
    } else {
        stored_text(value_of(t, k))
    }
}

/// The rebuilt blob for the first `k` slots.
pub open spec fn blob_upto(t: Seq<u8>, ov: Map<u64, Seq<u8>>, k: int) -> Seq<u8>
    decreases k,
{
    if k <= 0 {
        Seq::empty()
    } else {
        blob_upto(t, ov, k - 1) + slot_text(t, ov, k - 1)
    }
}

/// Offset that makes the value of slot `k` start at the first byte that the
/// rebuilt blob holds for it.
pub open spec fn new_offset(t: Seq<u8>, ov: Map<u64, Seq<u8>>, k: int) -> int {
    16 * (entry_count(t) - k) - 8 + blob_upto(t, ov, k).len()
}

/// The rebuilt offset and length of slot `k` fit in 32 bits.
pub open spec fn slot_fits(t: Seq<u8>, ov: Map<u64, Seq<u8>>, k: int) -> bool {
    entry_at(t, k).has_value() ==> new_offset(t, ov, k) + slot_text(t, ov, k).len() <= u32::MAX
}

/// Every rebuilt offset and length fits in 32 bits.
pub open spec fn merge_fits(t: Seq<u8>, ov: Map<u64, Seq<u8>>) -> bool {
    forall|k: int| 0 <= k < entry_count(t) ==> slot_fits(t, ov, k)
}

/// The rebuilt entry of slot `k`: a slot without a value keeps its id and
/// length and gets the offset `0xFFFFFFFF`.
pub open spec fn new_entry(t: Seq<u8>, ov: Map<u64, Seq<u8>>, k: int) -> TableEntry {
    let e = entry_at(t, k);
    if !e.has_value() {
        TableEntry { id: e.id, offset: 0xFFFF_FFFFu32, length: e.length }
    } else {
        TableEntry {
            id: e.id,
            offset: new_offset(t, ov, k) as u32,
            length: slot_text(t, ov, k).len() as u32,
        }
    }
}

/// The bytes of the first `k` rebuilt entries.
pub open spec fn entries_upto(t: Seq<u8>, ov: Map<u64, Seq<u8>>, k: int) -> Seq<u8>
    decreases k,
{
    if k <= 0 {
        Seq::empty()
    } else {
        entries_upto(t, ov, k - 1) + new_entry(t, ov, k - 1).spec_bytes()
    }
}

/// The rebuilt table: the original header and bucket region, the rebuilt
/// entry array, and the rebuilt blob.
pub open spec fn merged_table(t: Seq<u8>, ov: Map<u64, Seq<u8>>) -> Seq<u8> {
    t.subrange(0, entries_start(t)) + entries_upto(t, ov, entry_count(t)) + blob_upto(
        t,
        ov,
        entry_count(t),
    )
}

/// Checks that every part of a table can be read.
pub fn check_table(t: &[u8]) -> (r: Result<(u64, usize), TableError>)
    ensures
        match r {
            Ok((n, start)) => table_ok(t@) && n == entry_count(t@) && start == entries_start(t@),
            Err(e) => !table_ok(t@) && e == TableError::Truncated,
        },
{
    let (n, start) = match read_layout(t) {
        Ok(x) => x,
        Err(e) => return Err(e),
    };
    let mut k: u64 = 0;
    while k < n
        invariant
            crate::table::layout_ok(t@),
            n == entry_count(t@),
            start == entries_start(t@),
            k <= n,
            forall|j: int| 0 <= j < k ==> slot_ok(t@, j),
        decreases n - k,
    {
        match read_slot(t, start, k) {
            Ok(_) => {},
            Err(err) => return Err(err),
        }
        k = k + 1;
    }
    Ok((n, start))
}

/// Rebuilds a table so that each slot with a value holds the overriding text
/// where `ov` has one for its id, and its original text otherwise. The header
/// and the bucket region are kept byte for byte; entries keep their slots;
/// the blob is laid out anew in slot order. An overriding text is stored as
/// given, so one that starts with the empty mark reads back as the empty text.
pub fn merge_table(t: &[u8], ov: &HashMap<u64, Vec<u8>>) -> (r: Result<Vec<u8>, TableError>)
    ensures
        match r {
            Ok(b) => table_ok(t@) && merge_fits(t@, texts_view(ov@)) && b@ == merged_table(
                t@,
                texts_view(ov@),
            ),
            Err(TableError::Truncated) => !table_ok(t@),
            Err(TableError::TooLarge) => table_ok(t@) && !merge_fits(t@, texts_view(ov@)),
        },
{
    let ghost m = texts_view(ov@);
    let (n, start) = match check_table(t) {
        Ok(x) => x,
        Err(e) => return Err(e),
    };
    let len = t.len();
    let mut entries: Vec<u8> = Vec::new();
    let mut blob: Vec<u8> = Vec::new();
    let mut k: u64 = 0;
    while k < n
        invariant
            table_ok(t@),
            n == entry_count(t@),
            start == entries_start(t@),
            len == t@.len(),
            k <= n,
            m == texts_view(ov@),
            forall|j: int| 0 <= j < k ==> slot_fits(t@, m, j),
            entries@ == entries_upto(t@, m, k as int),
            blob@ == blob_upto(t@, m, k as int),
            blob@.len() <= u32::MAX,
        decreases n - k,
    {
        assert(slot_ok(t@, k as int));
        let (e, p) = match read_slot(t, start, k) {
            Ok(x) => x,
            Err(err) => return Err(err),
        };
        if e.id > 0 && e.length > 0 {
            let ghost before = blob@;
            let start_len = blob.len();
            let rem: u64 = (n - k) * 16 - 8;
            if rem > 0xFFFF_FFFFu64 || blob.len() as u64 > 0xFFFF_FFFFu64 - rem {
                assert(!slot_fits(t@, m, k as int));
                return Err(TableError::TooLarge);
            }
            let off: u64 = rem + blob.len() as u64;
            match ov.get(&e.id) {
                Some(v) => {
                    if v.len() == 0 {
                        blob.push(EMPTY_MARK);
                    } else {
                        push_range(&mut blob, v.as_slice(), 0, v.len());
                    }
                },
                None => {
                    if t[p] == EMPTY_MARK {
                        blob.push(EMPTY_MARK);
                    } else {
                        push_range(&mut blob, t, p, p + e.length as usize);
                    }
                },
            }
            assert(blob@ =~= before + slot_text(t@, m, k as int));
            let added = blob.len() - start_len;
            if added as u64 > 0xFFFF_FFFFu64 - off {
                assert(!slot_fits(t@, m, k as int));
                return Err(TableError::TooLarge);
            }
            let ne = TableEntry { id: e.id, offset: off as u32, length: added as u32 };
            assert(ne == new_entry(t@, m, k as int));
            ne.write(&mut entries);
        } else {
            let ne = TableEntry { id: e.id, offset: 0xFFFF_FFFFu32, length: e.length };
            ne.write(&mut entries);
        }
        k = k + 1;
    }
    let mut out: Vec<u8> = Vec::new();
    push_range(&mut out, t, 0, start);
    push_range(&mut out, entries.as_slice(), 0, entries.len());
    push_range(&mut out, blob.as_slice(), 0, blob.len());
    assert(entries@.subrange(0, entries@.len() as int) =~= entries@);
    assert(blob@.subrange(0, blob@.len() as int) =~= blob@);
    Ok(out)
}

} // verus!
