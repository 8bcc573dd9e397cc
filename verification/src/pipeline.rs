//! The indexing orchestrator and command surface.
//!
//! A `Pipeline` owns the index store and the in-flight path cache and
//! makes every decision of the indexing flow. The outside work — file
//! reads, the thumbnail codec, the vision service call, physical
//! renames and the clock — happens in the caller, whose outcomes
//! enter here as plain values; everything from those values to the
//! persisted rows is verified.

use vstd::prelude::*;
use crate::errors::AppError;
use crate::record::ImgIdx;
use crate::record::ImgSearchResult;
use crate::record::ImageIndexResp;
use crate::record::RespModel;
use crate::record::RecordModel;
use crate::record::ResultModel;
use crate::record::result_of;
use crate::record::valid_embedding;
use crate::record::EMBED_BOUND;
use crate::record::EMBED_DIM;
use crate::store::IndexStore;
use crate::store::ANN_BUILD_THRESHOLD;
use crate::store::all_scored;
use crate::store::candidates;
use crate::store::find_row;
use crate::store::has_path;
use crate::store::results_of;
use crate::store::set_path;
use crate::store::sorted_by_score;
use crate::store::spec_min;
use crate::store::upsert_all;
use crate::cache::InFlightCache;
use crate::cache::EntryModel;
use crate::cache::entry_for;
use crate::cache::spec_pending;
use crate::cache::spec_target;
use crate::cache::CACHE_TTL;
use crate::text::spec_base_name;
use crate::text::spec_path_under;

verus! {

/// Paths are indexed in chunks of this many, bounding memory and the
/// size of one service call.
pub const CHUNK_SIZE: usize = 5;

/// Mathematical model of one chunk entry.
pub ghost struct ChunkItemModel {
    pub id: Seq<char>,
    pub path: Seq<char>,
    pub sign: Seq<char>,
    pub thumbnail: Seq<char>,
}

/// One file travelling through the pipeline: its row identity, source
/// path, content signature and thumbnail path.
pub struct ChunkItem {
    pub id: String,
    pub path: String,
    pub sign: String,
    pub thumbnail: String,
}

impl View for ChunkItem {
    type V = ChunkItemModel;

    open spec fn view(&self) -> ChunkItemModel {
        ChunkItemModel {
            id: self.id@,
            path: self.path@,
            sign: self.sign@,
            thumbnail: self.thumbnail@,
        }
    }
}

/// The models of a vector of chunk items.
pub open spec fn items_of(v: Seq<ChunkItem>) -> Seq<ChunkItemModel> {
    v.map_values(|it: ChunkItem| it@)
}

/// The views of a vector of paths.
pub open spec fn path_views(v: Seq<String>) -> Seq<Seq<char>> {
    v.map_values(|s: String| s@)
}

/// The placeholder row written for a discovered file.
pub open spec fn placeholder_model(it: ChunkItemModel, root: Seq<char>) -> RecordModel {
    RecordModel {
        id: it.id,
        name: spec_base_name(it.path),
        path: it.path,
        root,
        sign: it.sign,
        thumbnail: it.thumbnail,
        idxed: false,
        desc: None,
        vec: None,
    }
}

/// The views of the per-item physical-rename outcomes.
pub open spec fn rename_views(v: Seq<Option<String>>) -> Seq<Option<Seq<char>>> {
    v.map_values(|o: Option<String>| crate::cache::opt_str_view(o))
}

/// The models of the service replies.
pub open spec fn resp_views(v: Seq<ImageIndexResp>) -> Seq<RespModel> {
    v.map_values(|r: ImageIndexResp| r@)
}

/// The paths of the chunk items.
pub open spec fn item_paths(items: Seq<ChunkItemModel>) -> Seq<Seq<char>> {
    items.map_values(|it: ChunkItemModel| it.path)
}

/// Every reply carries a well-formed embedding.
pub open spec fn all_embeddings_valid(rs: Seq<RespModel>) -> bool {
    forall|i: int| 0 <= i < rs.len() ==> valid_embedding((#[trigger] rs[i]).vec)
}

/// The usable service outcome: the replies, when the call succeeded,
/// answered one reply per item, and every embedding is well-formed;
/// otherwise nothing, and the whole chunk stays placeholders.
pub open spec fn effective_resps(outcome: Result<Vec<ImageIndexResp>, AppError>, n: int) -> Option<
    Seq<RespModel>,
> {
    match outcome {
        Result::Ok(rs) => if rs@.len() == n && all_embeddings_valid(resp_views(rs@)) {
            Some(resp_views(rs@))
        } else {
            None
        },
        Result::Err(_) => None,
    }
}

/// The rename outcome for item `k`, absent when out of range.
pub open spec fn rename_at(rn: Seq<Option<Seq<char>>>, k: int) -> Option<Seq<char>> {
    if 0 <= k < rn.len() {
        rn[k]
    } else {
        None
    }
}

/// The path under which one item is persisted: a rename parked in
/// the cache wins, else a physical rename the caller performed on the
/// service's suggestion, else the original path.
pub open spec fn final_path(
    it: ChunkItemModel,
    rn: Option<Seq<char>>,
    c: Seq<EntryModel>,
) -> Seq<char> {
    match spec_target(c, it.path) {
        Some(t) => t,
        None => match rn {
            Some(p) => p,
            None => it.path,
        },
    }
}

/// The indexed row written for one item when the service answered.
pub open spec fn indexed_model(
    it: ChunkItemModel,
    root: Seq<char>,
    resp: RespModel,
    rn: Option<Seq<char>>,
    c: Seq<EntryModel>,
) -> RecordModel {
    let p = final_path(it, rn, c);
    RecordModel {
        id: it.id,
        name: spec_base_name(p),
        path: p,
        root,
        sign: it.sign,
        thumbnail: it.thumbnail,
        idxed: true,
        desc: Some(resp.desc),
        vec: Some(resp.vec),
    }
}

/// The row written for item `k` of a chunk.
pub open spec fn chunk_record(
    it: ChunkItemModel,
    root: Seq<char>,
    ok: Option<Seq<RespModel>>,
    rn: Option<Seq<char>>,
    k: int,
    c: Seq<EntryModel>,
) -> RecordModel {
    match ok {
        Some(rs) => indexed_model(it, root, rs[k], rn, c),
        None => placeholder_model(it, root),
    }
}

/// The records a chunk persists: one per item still pending, in item
/// order; indexed rows on success, placeholders on failure.
pub open spec fn chunk_records(
    items: Seq<ChunkItemModel>,
    root: Seq<char>,
    ok: Option<Seq<RespModel>>,
    rn: Seq<Option<Seq<char>>>,
    c: Seq<EntryModel>,
    now: u64,
) -> Seq<RecordModel>
    decreases items.len(),
{
    if items.len() == 0 {
        Seq::empty()
    } else {
        let rest = chunk_records(items.drop_last(), root, ok, rn, c, now);
        let k = items.len() - 1;
        if spec_pending(c, items.last().path, now) {
            rest.push(chunk_record(items.last(), root, ok, rename_at(rn, k), k, c))
        } else {
            rest
        }
    }
}

/// An owned copy of an embedding vector.
fn clone_embedding(v: &Vec<i64>) -> (r: Vec<i64>)
    ensures
        r@ =~= v@,
{
    let mut out: Vec<i64> = Vec::new();
    let n = v.len();
    let mut i: usize = 0;
    while i < n
        invariant
            n == v@.len(),
            0 <= i <= n,
            out@ =~= v@.take(i as int),
        decreases n - i,
    {
        out.push(v[i]);
        proof {
            assert(out@ =~= v@.take(i + 1));
        }
        i += 1;
    }
    proof {
        assert(v@.take(n as int) =~= v@);
    }
    out
}

/// Is this a well-formed fixed-point embedding?
#[verifier::loop_isolation(false)]
pub fn check_embedding(v: &Vec<i64>) -> (r: bool)
    ensures
        r == valid_embedding(v@),
{
    if v.len() != EMBED_DIM {
        return false;
    }
    let n = v.len();
    let mut i: usize = 0;
    while i < n
        invariant
            0 <= i <= n,
            forall|j: int| 0 <= j < i ==> -EMBED_BOUND <= #[trigger] v@[j] <= EMBED_BOUND,
        decreases n - i,
    {
        let x = v[i];
        if x < -EMBED_BOUND || x > EMBED_BOUND {
            return false;
        }
        i += 1;
    }
    true
}

/// Does every reply carry a well-formed embedding?
#[verifier::loop_isolation(false)]
fn check_all_embeddings(rs: &Vec<ImageIndexResp>) -> (r: bool)
    ensures
        r == all_embeddings_valid(resp_views(rs@)),
{
    let n = rs.len();
    let mut i: usize = 0;
    while i < n
        invariant
            0 <= i <= n,
            forall|j: int| 0 <= j < i ==> valid_embedding((#[trigger] resp_views(rs@)[j]).vec),
        decreases n - i,
    {
        proof {
            assert(resp_views(rs@)[i as int] == rs@[i as int]@);
        }
        if !check_embedding(&rs[i].vec) {
            return false;
        }
        i += 1;
    }
    true
}

/// Screen the service outcome: keep the replies only when the call
/// succeeded, answered one reply per item, and every embedding is
/// well-formed.
fn effective(outcome: Result<Vec<ImageIndexResp>, AppError>, n: usize) -> (r: Option<Vec<ImageIndexResp>>)
    ensures
        match r {
            Some(rs) => effective_resps(outcome, n as int) == Some(resp_views(rs@)) && rs@.len()
                == n,
            None => effective_resps(outcome, n as int) is None,
        },
{
    match outcome {
        Ok(rs) => {
            if rs.len() == n && check_all_embeddings(&rs) {
                Some(rs)
            } else {
                None
            }
        },
        Err(_) => None,
    }
}

/// The orchestrator: the store, the cache, and whether the external
/// indexing service is configured.
pub struct Pipeline {
    pub store: IndexStore,
    pub cache: InFlightCache,
    pub server_ready: bool,
}

impl Pipeline {
    /// Store and cache well-formed.
    pub open spec fn wf(self) -> bool {
        &&& self.store.wf()
        &&& self.cache.wf()
    }

    /// A fresh pipeline: empty store, empty cache, service not yet
    /// configured.
    pub fn new() -> (r: Pipeline)
        ensures
            r.wf(),
            r.store@ =~= Seq::<RecordModel>::empty(),
            !r.store.ann_index_built(),
            r.cache@ =~= Seq::<EntryModel>::empty(),
            !r.server_ready,
    {
        Pipeline { store: IndexStore::new(), cache: InFlightCache::new(), server_ready: false }
    }

    /// Record that a credential was accepted (or dropped): the
    /// external service handle is swapped in or out.
    pub fn set_server_ready(&mut self, ready: bool)
        ensures
            final(self).server_ready == ready,
            final(self).store == old(self).store,
            final(self).cache == old(self).cache,
    {
        self.server_ready = ready;
    }

    /// Mark every given path as pending, with a fresh TTL.
    #[verifier::loop_isolation(false)]
    pub fn mark_pending_all(&mut self, paths: &Vec<String>, now: u64)
        requires
            old(self).wf(),
            now + CACHE_TTL <= u64::MAX,
        ensures
            final(self).wf(),
            final(self).store == old(self).store,
            final(self).server_ready == old(self).server_ready,
            forall|q: Seq<char>|
                #[trigger] entry_for(final(self).cache@, q) == if path_views(paths@).contains(q) {
                    Some(
                        EntryModel { path: q, target: None, expires_at: (now + CACHE_TTL) as u64 },
                    )
                } else {
                    entry_for(old(self).cache@, q)
                },
    {
        let n = paths.len();
        let mut i: usize = 0;
        while i < n
            invariant
                0 <= i <= n,
                self.wf(),
                self.store == old(self).store,
                self.server_ready == old(self).server_ready,
                forall|q: Seq<char>|
                    #[trigger] entry_for(self.cache@, q) == if path_views(paths@).take(
                        i as int,
                    ).contains(q) {
                        Some(
                            EntryModel {
                                path: q,
                                target: None,
                                expires_at: (now + CACHE_TTL) as u64,
                            },
                        )
                    } else {
                        entry_for(old(self).cache@, q)
                    },
            decreases n - i,
        {
            let ghost c0: Seq<EntryModel> = self.cache@;
            self.cache.mark_pending(paths[i].as_str(), now);
            proof {
                let pv = path_views(paths@);
                assert(pv[i as int] == paths@[i as int]@);
                assert forall|q: Seq<char>| #[trigger] entry_for(self.cache@, q) == (if pv.take(
                    i + 1,
                ).contains(q) {
                    Some(
                        EntryModel { path: q, target: None, expires_at: (now + CACHE_TTL) as u64 },
                    )
                } else {
                    entry_for(old(self).cache@, q)
                }) by {
                    if q == pv[i as int] {
                        assert(pv.take(i + 1)[i as int] == pv[i as int]);
                        assert(pv.take(i + 1).contains(q));
                    } else {
                        assert(entry_for(self.cache@, q) == entry_for(c0, q));
                        assert forall|w: int| 0 <= w < i + 1 && #[trigger] pv.take(i + 1)[w] == q
                            implies w < i by {
                            assert(pv.take(i + 1)[w] == pv[w]);
                        }
                        if pv.take(i + 1).contains(q) {
                            let w = choose|w: int| 0 <= w < i + 1 && #[trigger] pv.take(i + 1)[w] == q;
                            assert(pv.take(i as int)[w] == q);
                            assert(pv.take(i as int).contains(q));
                        } else {
                            if pv.take(i as int).contains(q) {
                                let w = choose|w: int|
                                    0 <= w < i && #[trigger] pv.take(i as int)[w] == q;
                                assert(pv.take(i + 1)[w] == q);
                            }
                        }
                    }
                }
            }
            i += 1;
        }
        proof {
            assert(path_views(paths@).take(n as int) =~= path_views(paths@));
        }
    }

    /// Persist a placeholder row for every item, so discovered files
    /// are visible in listings before (or without) an embedding.
    #[verifier::loop_isolation(false)]
    pub fn save_placeholders(&mut self, root: &str, items: &Vec<ChunkItem>)
        requires
            old(self).wf(),
        ensures
            final(self).wf(),
            final(self).cache == old(self).cache,
            final(self).server_ready == old(self).server_ready,
            final(self).store@ == upsert_all(
                old(self).store@,
                items_of(items@).map_values(|it: ChunkItemModel| placeholder_model(it, root@)),
            ),
            final(self).store.ann_index_built() == old(self).store.ann_index_built(),
    {
        let ghost goal: Seq<RecordModel> = items_of(items@).map_values(
            |it: ChunkItemModel| placeholder_model(it, root@),
        );
        let mut records: Vec<ImgIdx> = Vec::new();
        let n = items.len();
        let mut i: usize = 0;
        while i < n
            invariant
                0 <= i <= n,
                crate::store::models_of(records@) =~= goal.take(i as int),
            decreases n - i,
        {
            let ghost r0: Seq<ImgIdx> = records@;
            let rec = ImgIdx::new_empty(
                items[i].id.clone(),
                items[i].path.clone(),
                root.to_owned(),
                items[i].sign.clone(),
                items[i].thumbnail.clone(),
            );
            records.push(rec);
            proof {
                assert(goal[i as int] == placeholder_model(items@[i as int]@, root@));
                assert(rec@ == goal[i as int]);
                assert(crate::store::models_of(records@) =~= goal.take(i + 1));
            }
            i += 1;
        }
        proof {
            assert(goal.take(n as int) =~= goal);
            assert forall|k: int| 0 <= k < records@.len() implies (#[trigger] records@[k]@).wf() by {
                assert(records@[k]@ == crate::store::models_of(records@)[k]);
                assert(goal[k] == placeholder_model(items_of(items@)[k], root@));
            }
        }
        self.store.save_batch(records);
    }

    /// Take up to one chunk off the front of a work list.
    pub fn take_chunk(items: &mut Vec<ChunkItem>) -> (r: Vec<ChunkItem>)
        ensures
            r@ == old(items)@.take(spec_min(CHUNK_SIZE as int, old(items)@.len() as int)),
            final(items)@ == old(items)@.skip(
                spec_min(CHUNK_SIZE as int, old(items)@.len() as int),
            ),
    {
        let ghost orig: Seq<ChunkItem> = items@;
        let mut taken: Vec<ChunkItem> = Vec::new();
        while taken.len() < CHUNK_SIZE && items.len() > 0
            invariant
                taken@.len() <= CHUNK_SIZE,
                taken@.len() <= orig.len(),
                taken@ =~= orig.take(taken@.len() as int),
                items@ =~= orig.skip(taken@.len() as int),
                taken@.len() == CHUNK_SIZE || items@.len() == orig.len() - taken@.len(),
            decreases items@.len(),
        {
            let ghost k: int = taken@.len() as int;
            let x = items.remove(0);
            proof {
                assert(x == orig.skip(k)[0]);
                assert(x == orig[k]);
            }
            taken.push(x);
            proof {
                assert(taken@ =~= orig.take(k + 1));
                assert(items@ =~= orig.skip(k + 1));
            }
        }
        proof {
            let cut = spec_min(CHUNK_SIZE as int, orig.len() as int);
            assert(taken@.len() == cut);
        }
        taken
    }

    /// Persist one chunk after the service call. `outcome` is what
    /// the call returned; `renamed[k]` is the path item `k`'s source
    /// file now has if the caller renamed it on the service's
    /// suggestion. Items no longer pending (deleted, or finished by a
    /// racing run) are skipped. On success each remaining item is
    /// written as an indexed row under its resolved path, the row
    /// identity kept from its placeholder; on any failure — the call
    /// itself, a reply count mismatch, a malformed embedding — the
    /// whole chunk is persisted as placeholders and no error leaves
    /// this function. The chunk's cache entries are dropped, and the
    /// lazy vector index is built if the table has grown past the
    /// threshold.
    #[verifier::loop_isolation(false)]
    pub fn index_images(
        &mut self,
        root: &str,
        items: &Vec<ChunkItem>,
        outcome: Result<Vec<ImageIndexResp>, AppError>,
        renamed: &Vec<Option<String>>,
        now: u64,
    ) -> (r: Result<(), AppError>)
        requires
            old(self).wf(),
        ensures
            final(self).wf(),
            final(self).server_ready == old(self).server_ready,
            !old(self).server_ready ==> {
                &&& (r matches Result::Err(e) && e matches AppError::Auth(_))
                &&& final(self).store == old(self).store
                &&& final(self).cache == old(self).cache
            },
            old(self).server_ready ==> {
                &&& r is Ok
                &&& final(self).store@ == upsert_all(
                    old(self).store@,
                    chunk_records(
                        items_of(items@),
                        root@,
                        effective_resps(outcome, items@.len() as int),
                        rename_views(renamed@),
                        old(self).cache@,
                        now,
                    ),
                )
                &&& final(self).store.ann_index_built() == (old(self).store.ann_index_built()
                    || final(self).store@.len() >= ANN_BUILD_THRESHOLD)
                &&& forall|q: Seq<char>|
                    #[trigger] entry_for(final(self).cache@, q) == if item_paths(
                        items_of(items@),
                    ).contains(q) {
                        None
                    } else {
                        entry_for(old(self).cache@, q)
                    }
            },
    {
        if !self.server_ready {
            return Err(AppError::Auth(String::from_str("server not ready")));
        }
        let ghost out0: Result<Vec<ImageIndexResp>, AppError> = outcome;
        let ghost c0: Seq<EntryModel> = self.cache@;
        let ghost rnv: Seq<Option<Seq<char>>> = rename_views(renamed@);
        let n = items.len();
        let usable: Option<Vec<ImageIndexResp>> = effective(outcome, n);
        let ghost okm: Option<Seq<RespModel>> = effective_resps(out0, n as int);
        let mut records: Vec<ImgIdx> = Vec::new();
        let mut k: usize = 0;
        proof {
            assert(items_of(items@).take(0) =~= Seq::<ChunkItemModel>::empty());
        }
        while k < n
            invariant
                0 <= k <= n,
                self == old(self),
                crate::store::models_of(records@) =~= chunk_records(
                    items_of(items@).take(k as int),
                    root@,
                    okm,
                    rnv,
                    c0,
                    now,
                ),
                forall|m: int| 0 <= m < records@.len() ==> (#[trigger] records@[m]@).wf(),
            decreases n - k,
        {
            let ghost tk1: Seq<ChunkItemModel> = items_of(items@).take(k + 1);
            let ghost it: ChunkItemModel = items_of(items@)[k as int];
            proof {
                assert(tk1.drop_last() =~= items_of(items@).take(k as int));
                assert(tk1.last() == it);
                assert(it == items@[k as int]@);
            }
            let ghost r0: Seq<ImgIdx> = records@;
            if self.cache.contains(items[k].path.as_str(), now) {
                let rp: String = match self.cache.get(items[k].path.as_str(), now) {
                    Some(target) => match target {
                        Some(tgt) => tgt,
                        None => {
                            if k < renamed.len() {
                                proof {
                                    assert(rnv[k as int] == crate::cache::opt_str_view(
                                        renamed@[k as int],
                                    ));
                                }
                                match &renamed[k] {
                                    Some(p) => p.clone(),
                                    None => items[k].path.clone(),
                                }
                            } else {
                                items[k].path.clone()
                            }
                        },
                    },
                    None => {
                        proof {
                            assert(false);
                        }
                        items[k].path.clone()
                    },
                };
                proof {
                    assert(rp@ == final_path(it, rename_at(rnv, k as int), c0));
                }
                match &usable {
                    Some(rs) => {
                        proof {
                            assert(resp_views(rs@)[k as int] == rs@[k as int]@);
                            assert(valid_embedding(rs@[k as int]@.vec));
                        }
                        let emb = clone_embedding(&rs[k].vec);
                        let rec = ImgIdx::new(
                            items[k].id.clone(),
                            rp,
                            root.to_owned(),
                            items[k].sign.clone(),
                            items[k].thumbnail.clone(),
                            rs[k].desc.clone(),
                            emb,
                        );
                        proof {
                            assert(rec@ == chunk_record(
                                it,
                                root@,
                                okm,
                                rename_at(rnv, k as int),
                                k as int,
                                c0,
                            ));
                        }
                        records.push(rec);
                    },
                    None => {
                        let rec = ImgIdx::new_empty(
                            items[k].id.clone(),
                            items[k].path.clone(),
                            root.to_owned(),
                            items[k].sign.clone(),
                            items[k].thumbnail.clone(),
                        );
                        proof {
                            assert(rec@ == chunk_record(
                                it,
                                root@,
                                okm,
                                rename_at(rnv, k as int),
                                k as int,
                                c0,
                            ));
                        }
                        records.push(rec);
                    },
                }
                proof {
                    assert(spec_pending(c0, it.path, now));
                    assert(crate::store::models_of(records@) =~= chunk_records(
                        tk1,
                        root@,
                        okm,
                        rnv,
                        c0,
                        now,
                    ));
                }
            } else {
                proof {
                    assert(!spec_pending(c0, it.path, now));
                    assert(chunk_records(tk1, root@, okm, rnv, c0, now) == chunk_records(
                        items_of(items@).take(k as int),
                        root@,
                        okm,
                        rnv,
                        c0,
                        now,
                    ));
                }
            }
            k += 1;
        }
        proof {
            assert(items_of(items@).take(n as int) =~= items_of(items@));
        }
        let mut k2: usize = 0;
        while k2 < n
            invariant
                0 <= k2 <= n,
                self.cache.wf(),
                self.store == old(self).store,
                self.server_ready == old(self).server_ready,
                forall|q: Seq<char>|
                    #[trigger] entry_for(self.cache@, q) == if item_paths(items_of(items@)).take(
                        k2 as int,
                    ).contains(q) {
                        None
                    } else {
                        entry_for(c0, q)
                    },
            decreases n - k2,
        {
            let ghost cb: Seq<EntryModel> = self.cache@;
            self.cache.invalidate(items[k2].path.as_str());
            proof {
                let ip = item_paths(items_of(items@));
                assert(ip[k2 as int] == items@[k2 as int]@.path);
                assert forall|q: Seq<char>| #[trigger] entry_for(self.cache@, q) == (if ip.take(
                    k2 + 1,
                ).contains(q) {
                    None
                } else {
                    entry_for(c0, q)
                }) by {
                    if q == ip[k2 as int] {
                        assert(ip.take(k2 + 1)[k2 as int] == ip[k2 as int]);
                        assert(ip.take(k2 + 1).contains(q));
                        assert(entry_for(self.cache@, q) is None);
                    } else {
                        assert(entry_for(self.cache@, q) == entry_for(cb, q));
                        if ip.take(k2 + 1).contains(q) {
                            let w = choose|w: int|
                                0 <= w < k2 + 1 && #[trigger] ip.take(k2 + 1)[w] == q;
                            assert(ip.take(k2 as int)[w] == q);
                            assert(ip.take(k2 as int).contains(q));
                        } else {
                            if ip.take(k2 as int).contains(q) {
                                let w = choose|w: int|
                                    0 <= w < k2 && #[trigger] ip.take(k2 as int)[w] == q;
                                assert(ip.take(k2 + 1)[w] == q);
                            }
                        }
                    }
                }
            }
            k2 += 1;
        }
        proof {
            assert(item_paths(items_of(items@)).take(n as int) =~= item_paths(items_of(items@)));
        }
        self.store.save_batch(records);
        let _ = self.store.maybe_build_index();
        Ok(())
    }

    /// A rename arriving while `old_path` may be mid-index. If the
    /// path is pending, the rename is parked in the cache and applied
    /// when its batch is persisted; otherwise the store row is
    /// rewritten at once. A rename onto a path the table already has
    /// (other than itself) is refused, as rows are keyed by path.
    pub fn resolve_rename(&mut self, old_path: &str, new_path: &str, now: u64) -> (r: Result<
        (),
        AppError,
    >)
        requires
            old(self).wf(),
            now + CACHE_TTL <= u64::MAX,
        ensures
            final(self).wf(),
            final(self).server_ready == old(self).server_ready,
            spec_pending(old(self).cache@, old_path@, now) ==> {
                &&& r is Ok
                &&& final(self).store == old(self).store
                &&& entry_for(final(self).cache@, old_path@) == Some(
                    EntryModel {
                        path: old_path@,
                        target: Some(new_path@),
                        expires_at: (now + CACHE_TTL) as u64,
                    },
                )
                &&& forall|q: Seq<char>|
                    q != old_path@ ==> #[trigger] entry_for(final(self).cache@, q) == entry_for(
                        old(self).cache@,
                        q,
                    )
            },
            !spec_pending(old(self).cache@, old_path@, now) ==> {
                &&& final(self).cache == old(self).cache
                &&& if has_path(old(self).store@, new_path@) && new_path@ != old_path@ {
                    &&& (r matches Result::Err(e) && e matches AppError::Internal(_))
                    &&& final(self).store == old(self).store
                } else {
                    &&& r is Ok
                    &&& final(self).store.ann_index_built() == old(self).store.ann_index_built()
                    &&& match find_row(old(self).store@, old_path@) {
                        Some(i) => final(self).store@ == old(self).store@.update(
                            i,
                            set_path(old(self).store@[i], new_path@),
                        ),
                        None => final(self).store@ == old(self).store@,
                    }
                }
            },
    {
        if self.cache.contains(old_path, now) {
            self.cache.defer_rename(old_path, new_path, now);
            Ok(())
        } else {
            if self.store.contains_path(new_path) && !crate::text::str_eq(new_path, old_path) {
                return Err(
                    AppError::Internal(String::from_str("rename target already indexed")),
                );
            }
            self.store.update_path(old_path, new_path);
            Ok(())
        }
    }

    /// A directory rename: rewrite the path prefix of every row under
    /// it. Refused when rows already sit under the new prefix.
    pub fn rename_tree(&mut self, old_prefix: &str, new_prefix: &str) -> (r: Result<
        (),
        AppError,
    >)
        requires
            old(self).wf(),
        ensures
            final(self).wf(),
            final(self).server_ready == old(self).server_ready,
            final(self).cache == old(self).cache,
            if exists|i: int|
                0 <= i < old(self).store@.len() && spec_path_under(
                    (#[trigger] old(self).store@[i]).path,
                    new_prefix@,
                ) {
                &&& (r matches Result::Err(e) && e matches AppError::Internal(_))
                &&& final(self).store == old(self).store
            } else {
                &&& r is Ok
                &&& final(self).store.ann_index_built() == old(self).store.ann_index_built()
                &&& final(self).store@.len() == old(self).store@.len()
                &&& forall|i: int|
                    0 <= i < old(self).store@.len() ==> final(self).store@[i]
                        == crate::store::renamed_row(
                        #[trigger] old(self).store@[i],
                        old_prefix@,
                        new_prefix@,
                    )
            },
    {
        if self.store.has_path_under(new_prefix) {
            return Err(AppError::Internal(String::from_str("rename target already indexed")));
        }
        self.store.update_path_prefix(old_prefix, new_prefix);
        Ok(())
    }

    /// Delete a file or a directory subtree from the index, dropping
    /// any pending entries under it, and hand back exactly the
    /// thumbnail paths of the deleted rows for the caller to unlink.
    pub fn delete_path(&mut self, path: &str) -> (r: Vec<String>)
        requires
            old(self).wf(),
        ensures
            final(self).wf(),
            final(self).server_ready == old(self).server_ready,
            final(self).store.ann_index_built() == old(self).store.ann_index_built(),
            final(self).store@ == old(self).store@.filter(
                |m: RecordModel| !spec_path_under(m.path, path@),
            ),
            r@.map_values(|t: String| t@) == old(self).store@.filter(
                |m: RecordModel| spec_path_under(m.path, path@),
            ).map_values(|m: RecordModel| m.thumbnail),
            forall|q: Seq<char>|
                #[trigger] entry_for(final(self).cache@, q) == (match entry_for(
                    old(self).cache@,
                    q,
                ) {
                    Some(e) => if spec_path_under(e.path, path@) {
                        None
                    } else {
                        Some(e)
                    },
                    None => None,
                }),
    {
        self.cache.invalidate_prefix(path);
        self.store.remove_path_like(path)
    }

    /// Untrack a root: delete all its rows and drop pending entries
    /// under it. The caller removes the root's thumbnail directory.
    pub fn remove_root(&mut self, root: &str)
        requires
            old(self).wf(),
        ensures
            final(self).wf(),
            final(self).server_ready == old(self).server_ready,
            final(self).store.ann_index_built() == old(self).store.ann_index_built(),
            final(self).store@ == old(self).store@.filter(|m: RecordModel| m.root != root@),
            forall|q: Seq<char>|
                #[trigger] entry_for(final(self).cache@, q) == (match entry_for(
                    old(self).cache@,
                    q,
                ) {
                    Some(e) => if spec_path_under(e.path, root@) {
                        None
                    } else {
                        Some(e)
                    },
                    None => None,
                }),
    {
        self.store.remove_by_root(root);
        self.cache.invalidate_prefix(root);
    }

    /// Ranked similarity search over the indexed rows, given the
    /// outcome of vectorising the query text. Fails fast with an
    /// authentication error when the service is not configured, and
    /// hands the service's own failure through; a reply that is no
    /// well-formed embedding is an internal error.
    pub fn search(&self, vec_outcome: Result<Vec<i64>, AppError>, top: usize) -> (r: Result<
        Vec<ImgSearchResult>,
        AppError,
    >)
        requires
            self.wf(),
        ensures
            !self.server_ready ==> (r matches Result::Err(e) && e matches AppError::Auth(_)),
            self.server_ready ==> match vec_outcome {
                Result::Err(e) => r == Result::<Vec<ImgSearchResult>, AppError>::Err(e),
                Result::Ok(v) => if valid_embedding(v@) {
                    &&& r is Ok
                    &&& results_of(r->Ok_0@).len() == spec_min(
                        top as int,
                        candidates(self.store@, v@).len() as int,
                    )
                    &&& sorted_by_score(results_of(r->Ok_0@))
                    &&& all_scored(results_of(r->Ok_0@))
                    &&& exists|all: Seq<ResultModel>|
                        {
                            &&& all.to_multiset() == candidates(self.store@, v@).to_multiset()
                            &&& sorted_by_score(all)
                            &&& results_of(r->Ok_0@) == all.take(results_of(r->Ok_0@).len() as int)
                        }
                } else {
                    r matches Result::Err(e) && e matches AppError::Internal(_)
                },
            },
    {
        if !self.server_ready {
            return Err(AppError::Auth(String::from_str("server not ready")));
        }
        match vec_outcome {
            Err(e) => Err(e),
            Ok(v) => {
                if check_embedding(&v) {
                    Ok(self.store.search(&v, top))
                } else {
                    Err(AppError::Internal(String::from_str("malformed query embedding")))
                }
            },
        }
    }

    /// Every row as a listing, optionally only the indexed ones.
    pub fn show_all(&self, include_unindexed: bool) -> (r: Vec<ImgSearchResult>)
        ensures
            r@.map_values(|x: ImgSearchResult| x@) == (if include_unindexed {
                self.store@
            } else {
                self.store@.filter(|m: RecordModel| m.idxed)
            }).map_values(|m: RecordModel| result_of(m, None)),
    {
        self.store.get_all(include_unindexed)
    }
}

} // verus!
