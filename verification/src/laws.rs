//! Laws of the store and the pipeline: properties that span several
//! operations, stated once and proved for every input.

use vstd::prelude::*;
use crate::record::RecordModel;
use crate::record::RespModel;
use crate::record::valid_embedding;
use crate::cache::EntryModel;
use crate::cache::spec_pending;
use crate::cache::spec_target;
use crate::store::find_row;
use crate::store::has_path;
use crate::store::lemma_find_row;
use crate::store::lemma_upsert_all_app;
use crate::store::lemma_upsert_all_wf;
use crate::store::lemma_upsert_one_wf;
use crate::store::paths_unique;
use crate::store::upsert_all;
use crate::store::upsert_one;
use crate::pipeline::ChunkItemModel;
use crate::pipeline::all_embeddings_valid;
use crate::pipeline::chunk_record;
use crate::pipeline::chunk_records;
use crate::pipeline::final_path;
use crate::pipeline::indexed_model;
use crate::pipeline::placeholder_model;
use crate::pipeline::rename_at;

verus! {

/// Upserting two records keyed by the same path — in one batch, in
/// this order — leaves exactly one row under that path, holding the
/// later record wholesale: when matched, update all; when not
/// matched, insert. The table grows by one row only when the path
/// was new.
pub proof fn lemma_upsert_same_path(s: Seq<RecordModel>, r1: RecordModel, r2: RecordModel)
    requires
        paths_unique(s),
        forall|i: int| 0 <= i < s.len() ==> (#[trigger] s[i]).wf(),
        r1.wf(),
        r2.wf(),
        r1.path == r2.path,
    ensures
        ({
            let t = upsert_all(s, seq![r1, r2]);
            &&& paths_unique(t)
            &&& find_row(t, r2.path) is Some
            &&& t[find_row(t, r2.path)->Some_0] == r2
            &&& forall|i: int| 0 <= i < t.len() && (#[trigger] t[i]).path == r2.path ==> t[i] == r2
            &&& t.len() == if has_path(s, r1.path) {
                s.len() as int
            } else {
                s.len() + 1int
            }
        }),
{
    let batch = seq![r1, r2];
    let s1 = upsert_one(s, r1);
    let s2 = upsert_one(s1, r2);
    assert(batch.subrange(1, 2) =~= seq![r2]);
    assert(seq![r2].subrange(1, 1) =~= Seq::<RecordModel>::empty());
    assert(upsert_all(s, batch) == upsert_all(s1, seq![r2]));
    assert(upsert_all(s1, seq![r2]) == upsert_all(s2, Seq::<RecordModel>::empty()));
    assert(upsert_all(s, batch) == s2);
    lemma_upsert_one_wf(s, r1);
    lemma_upsert_one_wf(s1, r2);
    assert(has_path(s1, r2.path));
    assert(s2.len() == s1.len());
    lemma_find_row(s2, r2.path);
    assert forall|i: int| 0 <= i < s2.len() && (#[trigger] s2[i]).path == r2.path implies s2[i]
        == r2 by {
        let m = find_row(s2, r2.path)->Some_0;
        if i != m {
            assert(s2[i].path == s2[m].path);
        }
    }
}

/// A path marked pending whose rename was parked in the cache before
/// its batch completed is persisted under the new path, not the
/// original: on a successful call, the chunk's records carry the
/// item's row identity under the cache's target path, indexed.
pub proof fn lemma_deferred_rename_wins(
    items: Seq<ChunkItemModel>,
    root: Seq<char>,
    ok: Option<Seq<RespModel>>,
    rn: Seq<Option<Seq<char>>>,
    c: Seq<EntryModel>,
    now: u64,
    k: int,
)
    requires
        0 <= k < items.len(),
        spec_pending(c, items[k].path, now),
        spec_target(c, items[k].path) is Some,
        ok is Some,
    ensures
        exists|j: int|
            {
                &&& 0 <= j < chunk_records(items, root, ok, rn, c, now).len()
                &&& #[trigger] chunk_records(items, root, ok, rn, c, now)[j] == indexed_model(
                    items[k],
                    root,
                    ok->Some_0[k],
                    rename_at(rn, k),
                    c,
                )
                &&& chunk_records(items, root, ok, rn, c, now)[j].id == items[k].id
                &&& chunk_records(items, root, ok, rn, c, now)[j].path == spec_target(
                    c,
                    items[k].path,
                )->Some_0
                &&& chunk_records(items, root, ok, rn, c, now)[j].idxed
            },
    decreases items.len(),
{
    let rs = chunk_records(items, root, ok, rn, c, now);
    if k == items.len() - 1 {
        let rest = chunk_records(items.drop_last(), root, ok, rn, c, now);
        let j = rest.len() as int;
        assert(items.last() == items[k]);
        assert(rs[j] == chunk_record(items[k], root, ok, rename_at(rn, k), k, c));
        assert(final_path(items[k], rename_at(rn, k), c) == spec_target(c, items[k].path)->Some_0);
    } else {
        lemma_deferred_rename_wins(items.drop_last(), root, ok, rn, c, now, k);
        assert(items.drop_last()[k] == items[k]);
        let rest = chunk_records(items.drop_last(), root, ok, rn, c, now);
        let j = choose|j: int|
            0 <= j < rest.len() && rest[j] == indexed_model(
                items[k],
                root,
                ok->Some_0[k],
                rename_at(rn, k),
                c,
            );
        if spec_pending(c, items.last().path, now) {
            assert(rs[j] == rest[j]);
        } else {
            assert(rs == rest);
        }
    }
}

/// A failed or malformed service call downgrades the whole chunk:
/// every record it persists is a placeholder — not indexed, no
/// description, no embedding — and every pending item still gets its
/// row, under its original path.
pub proof fn lemma_failure_keeps_placeholders(
    items: Seq<ChunkItemModel>,
    root: Seq<char>,
    rn: Seq<Option<Seq<char>>>,
    c: Seq<EntryModel>,
    now: u64,
)
    ensures
        ({
            let rs = chunk_records(items, root, None, rn, c, now);
            &&& forall|j: int|
                0 <= j < rs.len() ==> !(#[trigger] rs[j]).idxed && rs[j].desc is None
                    && rs[j].vec is None
            &&& forall|k: int|
                0 <= k < items.len() && spec_pending(c, (#[trigger] items[k]).path, now)
                    ==> exists|j: int|
                    0 <= j < rs.len() && rs[j] == placeholder_model(items[k], root)
        }),
    decreases items.len(),
{
    let rs = chunk_records(items, root, None, rn, c, now);
    if items.len() > 0 {
        lemma_failure_keeps_placeholders(items.drop_last(), root, rn, c, now);
        let rest = chunk_records(items.drop_last(), root, None, rn, c, now);
        assert forall|k: int|
            0 <= k < items.len() && spec_pending(c, (#[trigger] items[k]).path, now) implies exists|
            j: int,
        | 0 <= j < rs.len() && rs[j] == placeholder_model(items[k], root) by {
            if k == items.len() - 1 {
                assert(items.last() == items[k]);
                assert(rs[rest.len() as int] == placeholder_model(items[k], root));
            } else {
                assert(items.drop_last()[k] == items[k]);
                let j = choose|j: int|
                    0 <= j < rest.len() && rest[j] == placeholder_model(items[k], root);
                assert(rs[j] == placeholder_model(items[k], root));
            }
        }
    }
}

/// Every record a chunk persists is well-formed, provided a
/// successful outcome carries enough well-formed embeddings.
proof fn lemma_chunk_records_wf(
    items: Seq<ChunkItemModel>,
    root: Seq<char>,
    ok: Option<Seq<RespModel>>,
    rn: Seq<Option<Seq<char>>>,
    c: Seq<EntryModel>,
    now: u64,
)
    requires
        ok matches Some(rs) ==> rs.len() >= items.len() && all_embeddings_valid(rs),
    ensures
        forall|j: int|
            0 <= j < chunk_records(items, root, ok, rn, c, now).len() ==> (#[trigger] chunk_records(
                items,
                root,
                ok,
                rn,
                c,
                now,
            )[j]).wf(),
    decreases items.len(),
{
    if items.len() > 0 {
        lemma_chunk_records_wf(items.drop_last(), root, ok, rn, c, now);
        let rs = chunk_records(items, root, ok, rn, c, now);
        let rest = chunk_records(items.drop_last(), root, ok, rn, c, now);
        if spec_pending(c, items.last().path, now) {
            let k = items.len() - 1;
            assert(rs[rest.len() as int] == chunk_record(
                items.last(),
                root,
                ok,
                rename_at(rn, k),
                k,
                c,
            ));
            match ok {
                Some(resps) => {
                    assert(valid_embedding(resps[k].vec));
                },
                None => {},
            }
            assert forall|j: int| 0 <= j < rs.len() implies (#[trigger] rs[j]).wf() by {
                if j < rest.len() {
                    assert(rs[j] == rest[j]);
                }
            }
        }
    }
}

/// Merging a record whose path differs from `t` touches neither the
/// presence nor the content of the row keyed `t`.
proof fn lemma_upsert_frame_one(s: Seq<RecordModel>, r: RecordModel, t: Seq<char>)
    requires
        paths_unique(s),
        forall|i: int| 0 <= i < s.len() ==> (#[trigger] s[i]).wf(),
        r.wf(),
        t != r.path,
    ensures
        find_row(upsert_one(s, r), t) == find_row(s, t),
        match find_row(s, t) {
            Some(i) => upsert_one(s, r)[i] == s[i],
            None => true,
        },
{
    lemma_upsert_one_wf(s, r);
    lemma_find_row(s, r.path);
    lemma_find_row(s, t);
    match find_row(s, t) {
        Some(i) => {
            match find_row(s, r.path) {
                Some(i2) => {
                    assert(s[i].path == t && s[i2].path == r.path);
                    assert(i != i2);
                    assert(upsert_one(s, r) == s.update(i2, r));
                },
                None => {
                    assert(upsert_one(s, r) == s.push(r));
                },
            }
        },
        None => {},
    }
}

/// The persisted outcome of a rename parked during indexing: once the
/// chunk's batch is merged into the table, the row keyed by the
/// cache's target path holds exactly the item's indexed record —
/// identity kept, path rewritten — provided no later item of the
/// chunk resolves to that same path.
pub proof fn lemma_rename_persisted(
    table: Seq<RecordModel>,
    items: Seq<ChunkItemModel>,
    root: Seq<char>,
    resps: Seq<RespModel>,
    rn: Seq<Option<Seq<char>>>,
    c: Seq<EntryModel>,
    now: u64,
    k: int,
)
    requires
        paths_unique(table),
        forall|i: int| 0 <= i < table.len() ==> (#[trigger] table[i]).wf(),
        resps.len() >= items.len(),
        all_embeddings_valid(resps),
        0 <= k < items.len(),
        spec_pending(c, items[k].path, now),
        spec_target(c, items[k].path) is Some,
        forall|k2: int|
            k < k2 < items.len() && spec_pending(c, (#[trigger] items[k2]).path, now)
                ==> final_path(items[k2], rename_at(rn, k2), c) != spec_target(
                c,
                items[k].path,
            )->Some_0,
    ensures
        ({
            let t = spec_target(c, items[k].path)->Some_0;
            let merged = upsert_all(table, chunk_records(items, root, Some(resps), rn, c, now));
            &&& find_row(merged, t) is Some
            &&& merged[find_row(merged, t)->Some_0] == indexed_model(
                items[k],
                root,
                resps[k],
                rename_at(rn, k),
                c,
            )
        }),
    decreases items.len(),
{
    let t = spec_target(c, items[k].path)->Some_0;
    let rs = chunk_records(items, root, Some(resps), rn, c, now);
    let rest = chunk_records(items.drop_last(), root, Some(resps), rn, c, now);
    let merged = upsert_all(table, rs);
    lemma_chunk_records_wf(items, root, Some(resps), rn, c, now);
    if k == items.len() - 1 {
        // The item's own record is the last one merged; an upsert
        // always leaves its record as the row under its path.
        assert(items.last() == items[k]);
        let rec = chunk_record(items[k], root, Some(resps), rename_at(rn, k), k, c);
        assert(rec.path == t);
        assert(rs =~= rest + seq![rec]);
        lemma_upsert_all_app(table, rest, seq![rec]);
        lemma_chunk_records_wf(items.drop_last(), root, Some(resps), rn, c, now);
        lemma_upsert_all_wf(table, rest);
        let before = upsert_all(table, rest);
        let single = seq![rec];
        assert(single.subrange(1, 1) =~= Seq::<RecordModel>::empty());
        assert(upsert_all(before, single) == upsert_all(
            upsert_one(before, single[0]),
            single.subrange(1, 1),
        ));
        assert(upsert_all(upsert_one(before, rec), Seq::<RecordModel>::empty()) == upsert_one(
            before,
            rec,
        ));
        lemma_upsert_one_wf(before, rec);
        assert(merged == upsert_one(before, rec));
    } else {
        lemma_rename_persisted(table, items.drop_last(), root, resps, rn, c, now, k);
        assert(items.drop_last()[k] == items[k]);
        let sub = upsert_all(table, rest);
        if spec_pending(c, items.last().path, now) {
            let kl = items.len() - 1;
            let rec = chunk_record(items.last(), root, Some(resps), rename_at(rn, kl), kl, c);
            assert(rec.path == final_path(items.last(), rename_at(rn, kl), c));
            assert(rec.path != t);
            assert(rs =~= rest + seq![rec]);
            lemma_upsert_all_app(table, rest, seq![rec]);
            lemma_chunk_records_wf(items.drop_last(), root, Some(resps), rn, c, now);
            lemma_upsert_all_wf(table, rest);
            assert(rec.wf()) by {
                assert(rs[rest.len() as int] == rec);
            }
            let single = seq![rec];
            assert(single.subrange(1, 1) =~= Seq::<RecordModel>::empty());
            assert(upsert_all(sub, single) == upsert_all(
                upsert_one(sub, single[0]),
                single.subrange(1, 1),
            ));
            assert(upsert_all(upsert_one(sub, rec), Seq::<RecordModel>::empty()) == upsert_one(
                sub,
                rec,
            ));
            lemma_upsert_frame_one(sub, rec, t);
        } else {
            assert(rs =~= rest);
            assert(upsert_all(table, rs) == upsert_all(table, rest)) by {
                assert(rs == rest);
            }
        }
    }
}

} // verus!
