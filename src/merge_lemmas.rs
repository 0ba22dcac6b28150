//! What a rebuilt table reads back as.
use vstd::prelude::*;
use crate::merge::{
    blob_upto, entries_upto, merge_fits, merged_table, new_entry, slot_fits, slot_text,
    stored_text,
};
use crate::structs::TableHeader;
use crate::texts::{all_texts, latest};
use crate::table::{
    entries_start, entry_at, entry_count, layout_ok, slot_ok, table_ok, table_texts,
    texts_upto, value_of, value_pos, EMPTY_MARK,
};

verus! {

/// No overriding text starts with the empty mark (a text that did would read
/// back as the empty text).
pub open spec fn texts_storable(ov: Map<u64, Seq<u8>>) -> bool {
    forall|id: u64| #[trigger] ov.contains_key(id) && ov[id].len() > 0 ==> ov[id][0] != EMPTY_MARK
}

/// What a stored text reads back as: a text that starts with the empty mark
/// reads back as the empty text, any other text as itself.
pub open spec fn read_back(x: Seq<u8>) -> Seq<u8> {
    if x.len() > 0 && x[0] == EMPTY_MARK {
        Seq::empty()
    } else {
        x
    }
}

/// The text that rebuilding stores for slot `k`: the overriding text where
/// there is one, else the slot's original text.
pub open spec fn chosen_text(t: Seq<u8>, ov: Map<u64, Seq<u8>>, k: int) -> Seq<u8> {
    let id = entry_at(t, k).id;
    if ov.contains_key(id) {
        ov[id]
    } else {
        value_of(t, k)
    }
}

/// The text that slot `k` reads back as after rebuilding.
pub open spec fn expected_text(t: Seq<u8>, ov: Map<u64, Seq<u8>>, k: int) -> Seq<u8> {
    read_back(chosen_text(t, ov, k))
}

/// Where no overriding text starts with the empty mark, every overriding
/// text reads back as itself.
pub proof fn lemma_storable_reads_back(ov: Map<u64, Seq<u8>>, id: u64)
    requires
        texts_storable(ov),
        ov.contains_key(id),
    ensures
        read_back(ov[id]) == ov[id],
{
}

/// A list of `(id, text)` pairs where each text with an override is replaced
/// by what the overriding text reads back as.
pub open spec fn override_texts(s: Seq<(u64, Seq<u8>)>, ov: Map<u64, Seq<u8>>) -> Seq<
    (u64, Seq<u8>),
> {
    s.map_values(
        |p: (u64, Seq<u8>)|
            if ov.contains_key(p.0) {
                (p.0, read_back(ov[p.0]))
            } else {
                p
            },
    )
}

proof fn lemma_entries_upto(t: Seq<u8>, ov: Map<u64, Seq<u8>>, k: int, j: int)
    requires
        0 <= j < k,
    ensures
        entries_upto(t, ov, k).len() == 16 * k,
        entries_upto(t, ov, k).subrange(16 * j, 16 * j + 16) == new_entry(t, ov, j).spec_bytes(),
    decreases k,
{
    lemma_entries_len(t, ov, k);
    lemma_entries_len(t, ov, k - 1);
    let prev = entries_upto(t, ov, k - 1);
    let cur = entries_upto(t, ov, k);
    if j < k - 1 {
        lemma_entries_upto(t, ov, k - 1, j);
        assert(cur.subrange(16 * j, 16 * j + 16) =~= prev.subrange(16 * j, 16 * j + 16));
    } else {
        assert(cur.subrange(16 * j, 16 * j + 16) =~= new_entry(t, ov, j).spec_bytes());
    }
}

proof fn lemma_entries_len(t: Seq<u8>, ov: Map<u64, Seq<u8>>, k: int)
    requires
        0 <= k,
    ensures
        entries_upto(t, ov, k).len() == 16 * k,
    decreases k,
{
    if k > 0 {
        lemma_entries_len(t, ov, k - 1);
    }
}

proof fn lemma_blob_prefix(t: Seq<u8>, ov: Map<u64, Seq<u8>>, j: int, k: int)
    requires
        0 <= j <= k,
    ensures
        blob_upto(t, ov, j).len() <= blob_upto(t, ov, k).len(),
        blob_upto(t, ov, k).subrange(0, blob_upto(t, ov, j).len() as int) == blob_upto(t, ov, j),
    decreases k,
{
    if j < k {
        lemma_blob_prefix(t, ov, j, k - 1);
        let prev = blob_upto(t, ov, k - 1);
        assert(blob_upto(t, ov, k).subrange(0, blob_upto(t, ov, j).len() as int) =~= prev.subrange(
            0,
            blob_upto(t, ov, j).len() as int,
        ));
    } else {
        assert(blob_upto(t, ov, k).subrange(0, blob_upto(t, ov, k).len() as int) =~= blob_upto(
            t,
            ov,
            k,
        ));
    }
}

/// Where the rebuilt blob holds the bytes of slot `k`.
proof fn lemma_blob_slot(t: Seq<u8>, ov: Map<u64, Seq<u8>>, k: int, n: int)
    requires
        0 <= k < n,
    ensures
        blob_upto(t, ov, k).len() + slot_text(t, ov, k).len() <= blob_upto(t, ov, n).len(),
        blob_upto(t, ov, n).subrange(
            blob_upto(t, ov, k).len() as int,
            (blob_upto(t, ov, k).len() + slot_text(t, ov, k).len()) as int,
        ) == slot_text(t, ov, k),
{
    lemma_blob_prefix(t, ov, k + 1, n);
    let a = blob_upto(t, ov, k).len() as int;
    let b = a + slot_text(t, ov, k).len();
    assert(blob_upto(t, ov, n).subrange(a, b) =~= blob_upto(t, ov, k + 1).subrange(a, b));
    assert(blob_upto(t, ov, k + 1).subrange(a, b) =~= slot_text(t, ov, k));
}

/// The rebuilt table keeps the header, so it announces the same entries at
/// the same place, and each slot holds its rebuilt entry.
proof fn lemma_merged_layout(t: Seq<u8>, ov: Map<u64, Seq<u8>>)
    requires
        layout_ok(t),
    ensures
        ({
            let m = merged_table(t, ov);
            &&& entry_count(m) == entry_count(t)
            &&& entries_start(m) == entries_start(t)
            &&& m.len() == entries_start(t) + 16 * entry_count(t) + blob_upto(
                t,
                ov,
                entry_count(t),
            ).len()
            &&& layout_ok(m)
            &&& forall|k: int| 0 <= k < entry_count(t) ==> #[trigger] entry_at(m, k) == new_entry(t, ov, k)
        }),
{
    let m = merged_table(t, ov);
    let n = entry_count(t);
    let es = entries_start(t);
    lemma_entries_len(t, ov, n);
    let h = TableHeader::spec_read(t, 0);
    assert(m.subrange(0, 24) =~= t.subrange(0, 24));
    assert(TableHeader::spec_read(m, 0) == h) by {
        assert forall|i: int| 0 <= i < 24 implies m[i] == t[i] by {}
    }
    assert forall|k: int| 0 <= k < n implies #[trigger] entry_at(m, k) == new_entry(t, ov, k) by {
        lemma_entries_upto(t, ov, n, k);
        let p = es + 16 * k;
        assert(m.subrange(p, p + 16) =~= entries_upto(t, ov, n).subrange(16 * k, 16 * k + 16));
        new_entry(t, ov, k).lemma_round_trip(m, p);
    }
}

/// Each slot of a rebuilt table reads back as its expected text: an
/// overridden id gives the overriding text (the empty text where that text
/// starts with the empty mark), any other id its original text, and the empty
/// text is stored as a length of one and the empty mark.
pub proof fn lemma_merged_slot(t: Seq<u8>, ov: Map<u64, Seq<u8>>, k: int)
    requires
        table_ok(t),
        merge_fits(t, ov),
        0 <= k < entry_count(t),
    ensures
        ({
            let m = merged_table(t, ov);
            &&& entry_at(m, k).id == entry_at(t, k).id
            &&& entry_at(m, k).has_value() == entry_at(t, k).has_value()
            &&& slot_ok(m, k)
            &&& entry_at(t, k).has_value() ==> value_of(m, k) == expected_text(t, ov, k)
            &&& entry_at(t, k).has_value() && !ov.contains_key(entry_at(t, k).id) ==> value_of(m, k)
                == value_of(t, k)
            &&& entry_at(t, k).has_value() && chosen_text(t, ov, k).len() == 0 ==> {
                &&& entry_at(m, k).length == 1
                &&& m[value_pos(m, k)] == EMPTY_MARK
            }
        }),
{
    let m = merged_table(t, ov);
    let n = entry_count(t);
    lemma_merged_layout(t, ov);
    assert(entry_at(m, k) == new_entry(t, ov, k));
    let e = entry_at(t, k);
    if e.has_value() {
        assert(slot_fits(t, ov, k));
        assert(slot_ok(t, k));
        let text = slot_text(t, ov, k);
        let x = chosen_text(t, ov, k);
        assert(text == stored_text(x));
        assert(!ov.contains_key(e.id) ==> read_back(x) == x) by {
            if !ov.contains_key(e.id) && x.len() > 0 {
                assert(x[0] == t[value_pos(t, k)]);
            }
        }
        lemma_blob_slot(t, ov, k, n);
        let bl = blob_upto(t, ov, k).len() as int;
        let vp = entries_start(t) + 16 * n + bl;
        assert(value_pos(m, k) == vp);
        let all = blob_upto(t, ov, n);
        assert(m.subrange(vp, vp + text.len()) =~= all.subrange(bl, bl + text.len()));
        assert(m[vp] == text[0]) by {
            assert(m.subrange(vp, vp + text.len())[0] == m[vp]);
        }
        if x.len() > 0 && x[0] != EMPTY_MARK {
            assert(value_of(m, k) =~= x);
        } else {
            assert(value_of(m, k) =~= read_back(x));
        }
    }
}

proof fn lemma_merged_texts_upto(t: Seq<u8>, ov: Map<u64, Seq<u8>>, k: int)
    requires
        table_ok(t),
        merge_fits(t, ov),
        0 <= k <= entry_count(t),
    ensures
        texts_upto(merged_table(t, ov), k) == override_texts(texts_upto(t, k), ov),
    decreases k,
{
    if k > 0 {
        lemma_merged_texts_upto(t, ov, k - 1);
        lemma_merged_slot(t, ov, k - 1);
        let m = merged_table(t, ov);
        assert(texts_upto(m, k) =~= override_texts(texts_upto(t, k), ov));
    }
}

/// Reading a rebuilt table gives the original `(id, text)` pairs in the same
/// order, where every id that has an override carries what the overriding
/// text reads back as, and every other id keeps its original text.
pub proof fn lemma_merged_texts(t: Seq<u8>, ov: Map<u64, Seq<u8>>)
    requires
        table_ok(t),
        merge_fits(t, ov),
    ensures
        table_ok(merged_table(t, ov)),
        table_texts(merged_table(t, ov)) == override_texts(table_texts(t), ov),
{
    let m = merged_table(t, ov);
    lemma_merged_layout(t, ov);
    assert forall|k: int| 0 <= k < entry_count(m) implies slot_ok(m, k) by {
        lemma_merged_slot(t, ov, k);
    }
    lemma_merged_texts_upto(t, ov, entry_count(t));
}

proof fn lemma_remerge_slot(t: Seq<u8>, ov: Map<u64, Seq<u8>>, k: int)
    requires
        table_ok(t),
        merge_fits(t, ov),
        texts_storable(ov),
        0 <= k < entry_count(t),
    ensures
        slot_text(merged_table(t, ov), Map::empty(), k) == slot_text(t, ov, k),
        entry_at(merged_table(t, ov), k) == new_entry(t, ov, k),
{
    lemma_merged_layout(t, ov);
    lemma_merged_slot(t, ov, k);
}

proof fn lemma_remerge_slots(t: Seq<u8>, ov: Map<u64, Seq<u8>>, k: int)
    requires
        table_ok(t),
        merge_fits(t, ov),
        texts_storable(ov),
        0 <= k <= entry_count(t),
    ensures
        blob_upto(merged_table(t, ov), Map::empty(), k) == blob_upto(t, ov, k),
        entries_upto(merged_table(t, ov), Map::empty(), k) == entries_upto(t, ov, k),
    decreases k,
{
    if k > 0 {
        let m = merged_table(t, ov);
        let none = Map::<u64, Seq<u8>>::empty();
        lemma_remerge_slots(t, ov, k - 1);
        lemma_remerge_slot(t, ov, k - 1);
        assert(entry_count(m) == entry_count(t)) by {
            lemma_merged_layout(t, ov);
        }
        assert(new_entry(m, none, k - 1) == new_entry(t, ov, k - 1));
    }
}

/// Rebuilding an already rebuilt table with no overrides gives it back byte
/// for byte.
pub proof fn lemma_merge_idempotent(t: Seq<u8>, ov: Map<u64, Seq<u8>>)
    requires
        table_ok(t),
        merge_fits(t, ov),
        texts_storable(ov),
    ensures
        table_ok(merged_table(t, ov)),
        merge_fits(merged_table(t, ov), Map::empty()),
        merged_table(merged_table(t, ov), Map::empty()) == merged_table(t, ov),
{
    let m = merged_table(t, ov);
    let none = Map::<u64, Seq<u8>>::empty();
    let n = entry_count(t);
    lemma_merged_texts(t, ov);
    lemma_merged_layout(t, ov);
    lemma_remerge_slots(t, ov, n);
    assert forall|k: int| 0 <= k < entry_count(m) implies slot_fits(m, none, k) by {
        lemma_remerge_slots(t, ov, k);
        lemma_remerge_slot(t, ov, k);
        assert(slot_fits(t, ov, k));
    }
    lemma_entries_len(t, ov, n);
    assert(m.subrange(0, entries_start(t)) =~= t.subrange(0, entries_start(t)));
    assert(merged_table(m, none) =~= m);
}

proof fn lemma_override_concat(a: Seq<(u64, Seq<u8>)>, b: Seq<(u64, Seq<u8>)>, ov: Map<u64, Seq<u8>>)
    ensures
        override_texts(a + b, ov) == override_texts(a, ov) + override_texts(b, ov),
{
    assert(override_texts(a + b, ov) =~= override_texts(a, ov) + override_texts(b, ov));
}

/// The text that an id carries after overriding: what the overriding text
/// reads back as where the id had a text and has an override, else the text
/// it had.
pub proof fn lemma_latest_override(s: Seq<(u64, Seq<u8>)>, ov: Map<u64, Seq<u8>>, id: u64)
    ensures
        latest(override_texts(s, ov), id) == (if ov.contains_key(id) && latest(s, id) is Some {
            Some(read_back(ov[id]))
        } else {
            latest(s, id)
        }),
    decreases s.len(),
{
    if s.len() > 0 {
        assert(override_texts(s, ov).drop_last() =~= override_texts(s.drop_last(), ov));
        lemma_latest_override(s.drop_last(), ov, id);
    }
}

/// Tables rebuilt with `ov` from `orig`, index for index; index 0 is never
/// read as a table.
pub open spec fn rebuilt_from(
    orig: Seq<Option<Seq<u8>>>,
    packed: Seq<Option<Seq<u8>>>,
    ov: Map<u64, Seq<u8>>,
) -> bool {
    &&& packed.len() == orig.len()
    &&& forall|i: int|
        1 <= i < orig.len() ==> match #[trigger] orig[i] {
            Some(t) => table_ok(t) && merge_fits(t, ov) && packed[i] == Some(merged_table(t, ov)),
            None => packed[i] is None,
        }
}

proof fn lemma_all_texts_rebuilt(
    orig: Seq<Option<Seq<u8>>>,
    packed: Seq<Option<Seq<u8>>>,
    ov: Map<u64, Seq<u8>>,
    k: int,
)
    requires
        rebuilt_from(orig, packed, ov),
        0 <= k <= orig.len(),
    ensures
        all_texts(packed, k) == override_texts(all_texts(orig, k), ov),
    decreases k,
{
    if k <= 1 {
        assert(override_texts(Seq::empty(), ov) =~= Seq::empty());
    } else {
        lemma_all_texts_rebuilt(orig, packed, ov, k - 1);
        match orig[k - 1] {
            Some(t) => {
                lemma_merged_texts(t, ov);
                lemma_override_concat(all_texts(orig, k - 1), table_texts(t), ov);
            },
            None => {},
        }
    }
}

/// Over all tables together, after rebuilding every table with `ov`: an id
/// that had a text and has an override carries what the overriding text
/// reads back as (the text itself unless it starts with the empty mark);
/// every other id keeps the text it had, and no id gains or loses a text.
pub proof fn lemma_rebuilt_texts(
    orig: Seq<Option<Seq<u8>>>,
    packed: Seq<Option<Seq<u8>>>,
    ov: Map<u64, Seq<u8>>,
    id: u64,
)
    requires
        rebuilt_from(orig, packed, ov),
    ensures
        latest(all_texts(packed, packed.len() as int), id) == (if ov.contains_key(id) && latest(
            all_texts(orig, orig.len() as int),
            id,
        ) is Some {
            Some(read_back(ov[id]))
        } else {
            latest(all_texts(orig, orig.len() as int), id)
        }),
{
    lemma_all_texts_rebuilt(orig, packed, ov, orig.len() as int);
    lemma_latest_override(all_texts(orig, orig.len() as int), ov, id);
}

} // verus!
