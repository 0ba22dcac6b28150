//! The identifier-to-text map gathered from all tables, kept sorted by id,
//! and its division into fixed-size shards.
use vstd::prelude::*;
use crate::bytes::push_range;
use crate::table::{pairs_view, parse_table, table_ok, table_texts, TableError};

verus! {

/// Number of entries in each shard but possibly the last.
pub const ENTRIES_PER_SHARD: usize = 265;

/// The text that the last pair with `id` in `s` carries: later pairs win.
pub open spec fn latest(s: Seq<(u64, Seq<u8>)>, id: u64) -> Option<Seq<u8>>
    decreases s.len(),
{
    if s.len() == 0 {
        None
    } else if s.last().0 == id {
        Some(s.last().1)
    } else {
        latest(s.drop_last(), id)
    }
}

/// The ids of `s` that repeat an id seen before them, in order.
pub open spec fn repeats(s: Seq<(u64, Seq<u8>)>) -> Seq<u64>
    decreases s.len(),
{
    if s.len() == 0 {
        Seq::empty()
    } else if latest(s.drop_last(), s.last().0) is Some {
        repeats(s.drop_last()).push(s.last().0)
    } else {
        repeats(s.drop_last())
    }
}

/// Ids strictly increase along `s`.
pub open spec fn ids_increasing(s: Seq<(u64, Seq<u8>)>) -> bool {
    forall|i: int, j: int| 0 <= i < j < s.len() ==> s[i].0 < s[j].0
}

/// The pairs of every table from index 1 on, table after table; index 0 and
/// tables that could not be decoded (`None`) give none.
pub open spec fn all_texts(ts: Seq<Option<Seq<u8>>>, k: int) -> Seq<(u64, Seq<u8>)>
    decreases k,
{
    if k <= 1 {
        Seq::empty()
    } else {
        match ts[k - 1] {
            Some(t) => all_texts(ts, k - 1) + table_texts(t),
            None => all_texts(ts, k - 1),
        }
    }
}

proof fn lemma_latest_sorted(s: Seq<(u64, Seq<u8>)>, id: u64)
    requires
        ids_increasing(s),
    ensures
        latest(s, id) == (if exists|i: int| 0 <= i < s.len() && s[i].0 == id {
            Some(s[choose|i: int| 0 <= i < s.len() && s[i].0 == id].1)
        } else {
            None
        }),
    decreases s.len(),
{
    if s.len() > 0 {
        let p = s.drop_last();
        assert(ids_increasing(p));
        lemma_latest_sorted(p, id);
        if s.last().0 == id {
            let i = choose|i: int| 0 <= i < s.len() && s[i].0 == id;
            assert(i == s.len() - 1);
        } else {
            if exists|i: int| 0 <= i < s.len() && s[i].0 == id {
                let i = choose|i: int| 0 <= i < s.len() && s[i].0 == id;
                assert(p[i].0 == id);
                let j = choose|j: int| 0 <= j < p.len() && p[j].0 == id;
                assert(i == j);
            } else {
                assert(!exists|i: int| 0 <= i < p.len() && p[i].0 == id) by {
                    if exists|i: int| 0 <= i < p.len() && p[i].0 == id {
                        let i = choose|i: int| 0 <= i < p.len() && p[i].0 == id;
                        assert(s[i].0 == id);
                    }
                }
            }
        }
    }
}

proof fn lemma_latest_append(s: Seq<(u64, Seq<u8>)>, t: Seq<(u64, Seq<u8>)>, k: int, id: u64)
    requires
        0 <= k < t.len(),
    ensures
        latest(s + t.subrange(0, k + 1), id) == (if t[k].0 == id {
            Some(t[k].1)
        } else {
            latest(s + t.subrange(0, k), id)
        }),
{
    assert((s + t.subrange(0, k + 1)).drop_last() =~= s + t.subrange(0, k));
}

/// Sets the text of `id`, keeping the ids sorted; returns whether `id` had a
/// text already.
pub fn insert_text(v: &mut Vec<(u64, Vec<u8>)>, id: u64, text: Vec<u8>) -> (replaced: bool)
    requires
        ids_increasing(pairs_view(old(v)@)),
    ensures
        ids_increasing(pairs_view(final(v)@)),
        forall|x: u64|
            #[trigger] latest(pairs_view(final(v)@), x) == if x == id {
                Some(text@)
            } else {
                latest(pairs_view(old(v)@), x)
            },
        replaced == latest(pairs_view(old(v)@), id) is Some,
{
    let ghost s0 = pairs_view(v@);
    proof {
        assert forall|x: u64| #[trigger] latest(s0, x) == latest(s0, x) by {
            lemma_latest_sorted(s0, x);
        }
    }
    let mut i: usize = 0;
    while i < v.len() && v[i].0 < id
        invariant
            i <= v@.len(),
            s0 == pairs_view(v@),
            forall|j: int| 0 <= j < i ==> v@[j].0 < id,
        decreases v@.len() - i,
    {
        i = i + 1;
    }
    assert(i < v@.len() ==> v@[i as int].0 >= id);
    assert(i < v@.len() ==> s0[i as int].0 == v@[i as int].0);
    let replaced = i < v.len() && v[i].0 == id;
    if replaced {
        v.set(i, (id, text));
    } else {
        v.insert(i, (id, text));
    }
    proof {
        let s1 = pairs_view(v@);
        assert forall|a: int, b: int| 0 <= a < b < s1.len() implies s1[a].0 < s1[b].0 by {
            let a0 = if replaced || a < i { a } else { a - 1 };
            let b0 = if replaced || b < i { b } else { b - 1 };
            if !replaced && a == i {
                assert(b0 >= i);
                if b0 > i {
                    assert(s0[i as int].0 < s0[b0].0);
                }
            } else if !replaced && b == i {
                assert(a0 < i);
            } else if replaced && a == i {
                assert(s0[a].0 == id);
            } else if replaced && b == i {
                assert(s0[b].0 == id);
            } else {
                assert(s1[a].0 == s0[a0].0 && s1[b].0 == s0[b0].0);
            }
        }
        assert forall|x: u64| #[trigger] latest(s1, x) == if x == id {
            Some(text@)
        } else {
            latest(s0, x)
        } by {
            lemma_latest_sorted(s0, x);
            lemma_latest_sorted(s1, x);
            if x == id {
                assert(s1[i as int].0 == id);
            } else if exists|j: int| 0 <= j < s0.len() && s0[j].0 == x {
                let j = choose|j: int| 0 <= j < s0.len() && s0[j].0 == x;
                let j1 = if replaced || j < i { j } else { j + 1 };
                assert(s1[j1].0 == x);
                let c = choose|c: int| 0 <= c < s1.len() && s1[c].0 == x;
                assert(c == j1);
            } else {
                if exists|c: int| 0 <= c < s1.len() && s1[c].0 == x {
                    let c = choose|c: int| 0 <= c < s1.len() && s1[c].0 == x;
                    let j0 = if replaced || c < i { c } else { c - 1 };
                    assert(s0[j0].0 == x);
                }
            }
        }
        lemma_latest_sorted(s0, id);
        if !replaced {
            if exists|j: int| 0 <= j < s0.len() && s0[j].0 == id {
                let j = choose|j: int| 0 <= j < s0.len() && s0[j].0 == id;
                if j > i {
                    assert(s0[i as int].0 < s0[j].0);
                }
            }
        }
    }
    replaced
}

/// The view of a list of decoded tables.
pub open spec fn tables_view(v: Seq<Option<Vec<u8>>>) -> Seq<Option<Seq<u8>>> {
    v.map_values(
        |o: Option<Vec<u8>>|
            match o {
                Some(t) => Some(t@),
                None => None,
            },
    )
}

/// Every decoded table from index 1 on can be read.
pub open spec fn tables_ok(ts: Seq<Option<Seq<u8>>>) -> bool {
    forall|i: int| 1 <= i < ts.len() ==> (#[trigger] ts[i] matches Some(t) ==> table_ok(t))
}

/// Gathers the texts of every table from index 1 on into one map sorted by
/// id. Where an id occurs more than once, the later table (and, within a
/// table, the later slot) wins; each such repeat is listed. Table 0 is never
/// read as a table.
pub fn collect_texts(tables: &Vec<Option<Vec<u8>>>) -> (r: Result<
    (Vec<(u64, Vec<u8>)>, Vec<u64>),
    TableError,
>)
    ensures
        ({
            let ts = tables_view(tables@);
            match r {
                Ok((v, dups)) => {
                    &&& dups@ == repeats(all_texts(ts, ts.len() as int))
                    &&& tables_ok(ts)
                    &&& ids_increasing(pairs_view(v@))
                    &&& forall|id: u64| #[trigger]
                        latest(pairs_view(v@), id) == latest(all_texts(ts, ts.len() as int), id)
                },
                Err(e) => !tables_ok(ts) && e == TableError::Truncated,
            }
        }),
{
    let ghost ts = tables_view(tables@);
    let mut out: Vec<(u64, Vec<u8>)> = Vec::new();
    let mut dups: Vec<u64> = Vec::new();
    if tables.len() == 0 {
        return Ok((out, dups));
    }
    let mut i: usize = 1;
    while i < tables.len()
        invariant
            ts == tables_view(tables@),
            1 <= i <= tables@.len(),
            forall|j: int| 1 <= j < i ==> (#[trigger] ts[j] matches Some(t) ==> table_ok(t)),
            ids_increasing(pairs_view(out@)),
            forall|id: u64| #[trigger]
                latest(pairs_view(out@), id) == latest(all_texts(ts, i as int), id),
            dups@ == repeats(all_texts(ts, i as int)),
        decreases tables@.len() - i,
    {
        match &tables[i] {
            None => {},
            Some(t) => {
                assert(ts[i as int] == Some(t@));
                let pairs = match parse_table(t.as_slice()) {
                    Ok(p) => p,
                    Err(e) => return Err(e),
                };
                let ghost before = all_texts(ts, i as int);
                let ghost tt = table_texts(t@);
                assert(before + tt.subrange(0, 0) =~= before);
                let mut k: usize = 0;
                while k < pairs.len()
                    invariant
                        pairs_view(pairs@) == tt,
                        k <= pairs@.len(),
                        ids_increasing(pairs_view(out@)),
                        forall|id: u64| #[trigger]
                            latest(pairs_view(out@), id) == latest(before + tt.subrange(0, k as int), id),
                        dups@ == repeats(before + tt.subrange(0, k as int)),
                    decreases pairs@.len() - k,
                {
                    let mut text: Vec<u8> = Vec::new();
                    push_range(&mut text, pairs[k].1.as_slice(), 0, pairs[k].1.len());
                    assert(text@ =~= tt[k as int].1);
                    let id = pairs[k].0;
                    let replaced = insert_text(&mut out, id, text);
                    if replaced {
                        dups.push(id);
                    }
                    proof {
                        let s0 = before + tt.subrange(0, k as int);
                        let s1 = before + tt.subrange(0, k + 1);
                        assert(s1.drop_last() =~= s0);
                        assert(dups@ =~= repeats(s1));
                        assert forall|id: u64| #[trigger]
                            latest(pairs_view(out@), id) == latest(before + tt.subrange(0, k + 1), id) by {
                            lemma_latest_append(before, tt, k as int, id);
                        }
                    }
                    k = k + 1;
                }
                assert(tt.subrange(0, tt.len() as int) =~= tt);
            },
        }
        i = i + 1;
    }
    Ok((out, dups))
}

/// `bounds` splits `n` entries into consecutive shards of 265 entries, the
/// last holding the rest (from 1 to 265 entries).
pub open spec fn shard_layout(bounds: Seq<(usize, usize)>, n: int) -> bool {
    &&& bounds.len() == (n + 264) / 265
    &&& forall|k: int|
        0 <= k < bounds.len() ==> {
            &&& (#[trigger] bounds[k]).0 == 265 * k
            &&& bounds[k].1 == if k + 1 < bounds.len() {
                265 * (k + 1)
            } else {
                n
            }
            &&& bounds[k].0 < bounds[k].1
        }
}

/// The entries of the first `k` shards of `s`, one shard after another.
pub open spec fn shards_joined(s: Seq<(u64, Seq<u8>)>, bounds: Seq<(usize, usize)>, k: int) -> Seq<
    (u64, Seq<u8>),
>
    decreases k,
{
    if k <= 0 {
        Seq::empty()
    } else {
        shards_joined(s, bounds, k - 1) + s.subrange(bounds[k - 1].0 as int, bounds[k - 1].1 as int)
    }
}

proof fn lemma_shards_prefix(s: Seq<(u64, Seq<u8>)>, bounds: Seq<(usize, usize)>, k: int)
    requires
        shard_layout(bounds, s.len() as int),
        0 <= k <= bounds.len(),
    ensures
        shards_joined(s, bounds, k) == s.subrange(0, if k == 0 { 0 } else { bounds[k - 1].1 as int }),
    decreases k,
{
    if k > 0 {
        lemma_shards_prefix(s, bounds, k - 1);
        let a = bounds[k - 1].0 as int;
        let b = bounds[k - 1].1 as int;
        if k > 1 {
            assert(bounds[k - 2].1 == a);
        }
        assert(s.subrange(0, a) + s.subrange(a, b) =~= s.subrange(0, b));
    }
}

/// Joining the shards of the whole list, in order, gives the list back.
pub proof fn lemma_shards_cover(s: Seq<(u64, Seq<u8>)>, bounds: Seq<(usize, usize)>)
    requires
        shard_layout(bounds, s.len() as int),
    ensures
        shards_joined(s, bounds, bounds.len() as int) == s,
{
    lemma_shards_prefix(s, bounds, bounds.len() as int);
    if bounds.len() == 0 {
        assert(s.len() == 0);
        assert(s =~= Seq::empty());
    } else {
        assert(s.subrange(0, s.len() as int) =~= s);
    }
}

/// Splits `n` entries into consecutive shards of `ENTRIES_PER_SHARD`
/// entries, the last possibly smaller; returns each shard's bounds
/// `(start, end)`. No entries give no shards.
pub fn shard_bounds(n: usize) -> (r: Vec<(usize, usize)>)
    ensures
        shard_layout(r@, n as int),
{
    let count: usize = n / ENTRIES_PER_SHARD + if n % ENTRIES_PER_SHARD != 0 { 1 } else { 0 };
    assert(count == (n + 264) / 265);
    let mut r: Vec<(usize, usize)> = Vec::new();
    let mut k: usize = 0;
    while k < count
        invariant
            count == (n + 264) / 265,
            k <= count,
            r@.len() == k,
            forall|j: int|
                0 <= j < k ==> {
                    &&& (#[trigger] r@[j]).0 == 265 * j
                    &&& r@[j].1 == if j + 1 < count {
                        265 * (j + 1)
                    } else {
                        n as int
                    }
                    &&& r@[j].0 < r@[j].1
                },
        decreases count - k,
    {
        assert(265 * k < n) by (nonlinear_arith)
            requires
                k < count,
                count == (n + 264) / 265,
        ;
        let start = k * ENTRIES_PER_SHARD;
        let end = if k + 1 < count {
            assert(265 * (k + 1) <= n) by (nonlinear_arith)
                requires
                    k + 1 < count,
                    count == (n + 264) / 265,
            ;
            start + ENTRIES_PER_SHARD
        } else {
            n
        };
        r.push((start, end));
        k = k + 1;
    }
    r
}

} // verus!
