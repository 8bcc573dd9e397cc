//! The index store: the table of image records, upserted by path.
//!
//! This is the verified model of the embedded vector table. Rows are
//! keyed by `path`; a batch write merges on that key ("when matched,
//! update all; when not matched, insert"). Deletion is by root, by
//! exact path, or by directory prefix; renames rewrite one path or a
//! whole prefix. An approximate-nearest-neighbour index is built
//! lazily once the table is large enough.

use vstd::prelude::*;
use crate::record::ImgIdx;
use crate::record::ImgSearchResult;
use crate::record::RecordModel;
use crate::record::ResultModel;
use crate::record::result_of;
use crate::record::to_result;
use crate::record::valid_embedding;
use crate::record::EMBED_BOUND;
use crate::text::spec_path_under;
use crate::text::path_under;
use crate::text::replace_prefix;
use crate::text::str_eq;

verus! {

/// Row count at which the vector index is (lazily) built.
pub const ANN_BUILD_THRESHOLD: usize = 256;

/// No two rows share a path.
pub open spec fn paths_unique(s: Seq<RecordModel>) -> bool {
    forall|i: int, j: int| 0 <= i < j < s.len() ==> s[i].path != s[j].path
}

/// Index of the first row with the given path, if any.
pub open spec fn find_row(s: Seq<RecordModel>, p: Seq<char>) -> Option<int>
    decreases s.len(),
{
    if s.len() == 0 {
        None
    } else if s[0].path == p {
        Some(0int)
    } else {
        match find_row(s.subrange(1, s.len() as int), p) {
            None => None,
            Some(i) => Some(i + 1),
        }
    }
}

/// Is some row keyed by this path?
pub open spec fn has_path(s: Seq<RecordModel>, p: Seq<char>) -> bool {
    find_row(s, p) is Some
}

pub proof fn lemma_find_row(s: Seq<RecordModel>, p: Seq<char>)
    ensures
        match find_row(s, p) {
            Some(i) => 0 <= i < s.len() && s[i].path == p && (forall|j: int|
                0 <= j < i ==> s[j].path != p),
            None => forall|j: int| 0 <= j < s.len() ==> s[j].path != p,
        },
    decreases s.len(),
{
    if s.len() > 0 && s[0].path != p {
        lemma_find_row(s.subrange(1, s.len() as int), p);
        assert forall|j: int| 1 <= j < s.len() implies s.subrange(1, s.len() as int)[j - 1]
            == s[j] by {}
    }
}

/// One record merged into the table by its path.
pub open spec fn upsert_one(s: Seq<RecordModel>, r: RecordModel) -> Seq<RecordModel> {
    match find_row(s, r.path) {
        Some(i) => s.update(i, r),
        None => s.push(r),
    }
}

/// A batch of records merged in order.
pub open spec fn upsert_all(s: Seq<RecordModel>, rs: Seq<RecordModel>) -> Seq<RecordModel>
    decreases rs.len(),
{
    if rs.len() == 0 {
        s
    } else {
        upsert_all(upsert_one(s, rs[0]), rs.subrange(1, rs.len() as int))
    }
}

pub proof fn lemma_upsert_one_wf(s: Seq<RecordModel>, r: RecordModel)
    requires
        paths_unique(s),
        forall|i: int| 0 <= i < s.len() ==> (#[trigger] s[i]).wf(),
        r.wf(),
    ensures
        paths_unique(upsert_one(s, r)),
        forall|i: int| 0 <= i < upsert_one(s, r).len() ==> (#[trigger] upsert_one(s, r)[i]).wf(),
        upsert_one(s, r).len() == if has_path(s, r.path) {
            s.len()
        } else {
            s.len() + 1
        },
        find_row(upsert_one(s, r), r.path) is Some,
        upsert_one(s, r)[find_row(upsert_one(s, r), r.path)->Some_0] == r,
        forall|q: Seq<char>|
            q != r.path ==> #[trigger] find_row(upsert_one(s, r), q) == find_row(s, q),
{
    lemma_find_row(s, r.path);
    let t = upsert_one(s, r);
    let at: int = match find_row(s, r.path) {
        Some(i) => i,
        None => s.len() as int,
    };
    match find_row(s, r.path) {
        Some(i) => {
            assert(paths_unique(t)) by {
                assert forall|x: int, y: int| 0 <= x < y < t.len() implies t[x].path
                    != t[y].path by {
                    if x != i && y != i {
                        assert(t[x] == s[x] && t[y] == s[y]);
                    }
                }
            }
            assert forall|q: Seq<char>| q != r.path implies #[trigger] find_row(t, q) == find_row(
                s,
                q,
            ) by {
                lemma_find_row_update_other(s, i, r, q);
            }
        },
        None => {
            assert(paths_unique(t)) by {
                assert forall|x: int, y: int| 0 <= x < y < t.len() implies t[x].path
                    != t[y].path by {
                    if y == s.len() {
                        assert(t[x] == s[x]);
                    }
                }
            }
            assert forall|q: Seq<char>| q != r.path implies #[trigger] find_row(t, q) == find_row(
                s,
                q,
            ) by {
                lemma_find_row_push_other(s, r, q);
            }
        },
    }
    assert(t[at] == r);
    lemma_find_row(t, r.path);
    match find_row(t, r.path) {
        Some(i2) => {
            if i2 != at {
                assert(t[i2].path == t[at].path);
                assert(false);
            }
        },
        None => {
            assert(t[at].path != r.path);
        },
    }
}

proof fn lemma_find_row_update_other(s: Seq<RecordModel>, i: int, r: RecordModel, q: Seq<char>)
    requires
        0 <= i < s.len(),
        s[i].path == r.path,
        q != r.path,
    ensures
        find_row(s.update(i, r), q) == find_row(s, q),
    decreases s.len(),
{
    let t = s.update(i, r);
    if i == 0 {
        assert(t.subrange(1, t.len() as int) =~= s.subrange(1, s.len() as int));
    } else {
        assert(t[0] == s[0]);
        if s[0].path != q {
            assert(t.subrange(1, t.len() as int) =~= s.subrange(1, s.len() as int).update(
                i - 1,
                r,
            ));
            lemma_find_row_update_other(s.subrange(1, s.len() as int), i - 1, r, q);
        }
    }
}

proof fn lemma_find_row_push_other(s: Seq<RecordModel>, r: RecordModel, q: Seq<char>)
    requires
        q != r.path,
    ensures
        find_row(s.push(r), q) == find_row(s, q),
    decreases s.len(),
{
    reveal_with_fuel(find_row, 2);
    let t = s.push(r);
    if s.len() == 0 {
        assert(t[0] == r);
        assert(t.subrange(1, t.len() as int) =~= Seq::<RecordModel>::empty());
    } else {
        assert(t[0] == s[0]);
        if s[0].path != q {
            assert(t.subrange(1, t.len() as int) =~= s.subrange(1, s.len() as int).push(r));
            lemma_find_row_push_other(s.subrange(1, s.len() as int), r, q);
        }
    }
}

pub proof fn lemma_upsert_all_app(s: Seq<RecordModel>, a: Seq<RecordModel>, b: Seq<RecordModel>)
    ensures
        upsert_all(s, a + b) == upsert_all(upsert_all(s, a), b),
    decreases a.len(),
{
    if a.len() == 0 {
        assert(a + b =~= b);
    } else {
        assert((a + b)[0] == a[0]);
        assert((a + b).subrange(1, (a + b).len() as int) =~= a.subrange(1, a.len() as int) + b);
        lemma_upsert_all_app(upsert_one(s, a[0]), a.subrange(1, a.len() as int), b);
    }
}

pub proof fn lemma_upsert_all_wf(s: Seq<RecordModel>, rs: Seq<RecordModel>)
    requires
        paths_unique(s),
        forall|i: int| 0 <= i < s.len() ==> (#[trigger] s[i]).wf(),
        forall|i: int| 0 <= i < rs.len() ==> (#[trigger] rs[i]).wf(),
    ensures
        paths_unique(upsert_all(s, rs)),
        forall|i: int|
            0 <= i < upsert_all(s, rs).len() ==> (#[trigger] upsert_all(s, rs)[i]).wf(),
    decreases rs.len(),
{
    if rs.len() > 0 {
        lemma_upsert_one_wf(s, rs[0]);
        lemma_upsert_all_wf(upsert_one(s, rs[0]), rs.subrange(1, rs.len() as int));
    }
}

/// The models of a vector of rows.
pub open spec fn models_of(v: Seq<ImgIdx>) -> Seq<RecordModel> {
    v.map_values(|r: ImgIdx| r@)
}

pub proof fn lemma_models_remove(v: Seq<ImgIdx>, i: int)
    requires
        0 <= i < v.len(),
    ensures
        models_of(v.remove(i)) =~= models_of(v).remove(i),
{
    assert forall|m: int| 0 <= m < v.len() - 1 implies models_of(v.remove(i))[m] == models_of(
        v,
    ).remove(i)[m] by {
        if m >= i {
            assert(v.remove(i)[m] == v[m + 1]);
        }
    }
}

pub proof fn lemma_models_insert(v: Seq<ImgIdx>, i: int, r: ImgIdx)
    requires
        0 <= i <= v.len(),
    ensures
        models_of(v.insert(i, r)) =~= models_of(v).insert(i, r@),
{
    assert forall|m: int| 0 <= m < v.len() + 1 implies models_of(v.insert(i, r))[m] == models_of(
        v,
    ).insert(i, r@)[m] by {
        if m < i {
            assert(v.insert(i, r)[m] == v[m]);
        } else if m == i {
            assert(v.insert(i, r)[m] == r);
        } else {
            assert(v.insert(i, r)[m] == v[m - 1]);
        }
    }
}

/// The table of image records plus the state of its lazy vector
/// index.
pub struct IndexStore {
    rows: Vec<ImgIdx>,
    ann_built: bool,
}

impl View for IndexStore {
    type V = Seq<RecordModel>;

    closed spec fn view(&self) -> Seq<RecordModel> {
        models_of(self.rows@)
    }
}

impl IndexStore {
    /// Has the approximate-nearest-neighbour index been built?
    pub closed spec fn ann_index_built(self) -> bool {
        self.ann_built
    }

    /// Every row well-formed, and paths unique across the table.
    pub open spec fn wf(self) -> bool {
        &&& paths_unique(self@)
        &&& forall|i: int| 0 <= i < self@.len() ==> (#[trigger] self@[i]).wf()
    }

    /// An empty table without a vector index.
    pub fn new() -> (r: IndexStore)
        ensures
            r@ =~= Seq::<RecordModel>::empty(),
            r.wf(),
            !r.ann_index_built(),
    {
        IndexStore { rows: Vec::new(), ann_built: false }
    }

    /// Number of rows.
    pub fn len(&self) -> (r: usize)
        ensures
            r == self@.len(),
    {
        self.rows.len()
    }

    /// Index of the row keyed by `path`, if any.
    fn find_path(&self, path: &str) -> (r: Option<usize>)
        ensures
            match r {
                Some(i) => find_row(self@, path@) == Some(i as int),
                None => find_row(self@, path@) is None,
            },
    {
        let n = self.rows.len();
        let mut i: usize = 0;
        while i < n
            invariant
                n == self.rows@.len(),
                0 <= i <= n,
                forall|j: int| 0 <= j < i ==> self@[j].path != path@,
            decreases n - i,
        {
            if str_eq(self.rows[i].path.as_str(), path) {
                proof {
                    assert(self@[i as int].path == path@);
                    lemma_find_row(self@, path@);
                    match find_row(self@, path@) {
                        Some(m) => {
                            if m < i {
                                assert(self@[m].path != path@);
                            }
                            if m > i {
                                assert(self@[i as int].path != path@);
                            }
                        },
                        None => {
                            assert(self@[i as int].path != path@);
                        },
                    }
                }
                return Some(i);
            }
            proof {
                assert(self@[i as int].path == self.rows@[i as int].path@);
            }
            i += 1;
        }
        proof {
            lemma_find_row(self@, path@);
        }
        None
    }

    /// Is some row keyed by this path?
    pub fn contains_path(&self, path: &str) -> (r: bool)
        ensures
            r == has_path(self@, path@),
    {
        match self.find_path(path) {
            Some(_) => true,
            None => false,
        }
    }

    /// Is some row's path equal to, or under, this prefix?
    #[verifier::loop_isolation(false)]
    pub fn has_path_under(&self, prefix: &str) -> (r: bool)
        ensures
            r == exists|i: int|
                0 <= i < self@.len() && spec_path_under(#[trigger] self@[i].path, prefix@),
    {
        let n = self.rows.len();
        let mut i: usize = 0;
        while i < n
            invariant
                0 <= i <= n,
                forall|j: int| 0 <= j < i ==> !spec_path_under(#[trigger] self@[j].path, prefix@),
            decreases n - i,
        {
            if path_under(self.rows[i].path.as_str(), prefix) {
                proof {
                    assert(self@[i as int].path == self.rows@[i as int].path@);
                    assert(spec_path_under(self@[i as int].path, prefix@));
                }
                return true;
            }
            proof {
                assert(self@[i as int].path == self.rows@[i as int].path@);
            }
            i += 1;
        }
        false
    }

    /// Merge a batch of records into the table, keyed by `path`:
    /// a record whose path is present replaces that row wholesale;
    /// any other is appended.
    pub fn save_batch(&mut self, records: Vec<ImgIdx>)
        requires
            old(self).wf(),
            forall|i: int| 0 <= i < records@.len() ==> (#[trigger] records@[i]@).wf(),
        ensures
            final(self)@ == upsert_all(old(self)@, models_of(records@)),
            final(self).wf(),
            final(self).ann_index_built() == old(self).ann_index_built(),
    {
        let ghost orig: Seq<RecordModel> = self@;
        let ghost rms: Seq<RecordModel> = models_of(records@);
        let mut pending = records;
        let ghost mut k: int = 0;
        while pending.len() > 0
            invariant
                0 <= k <= rms.len(),
                k + pending@.len() == rms.len(),
                models_of(pending@) =~= rms.subrange(k, rms.len() as int),
                self@ == upsert_all(orig, rms.subrange(0, k)),
                self.wf(),
                self.ann_built == old(self).ann_built,
                paths_unique(orig),
                forall|i: int| 0 <= i < orig.len() ==> (#[trigger] orig[i]).wf(),
                forall|i: int| 0 <= i < rms.len() ==> (#[trigger] rms[i]).wf(),
            decreases pending@.len(),
        {
            let ghost pending0: Seq<ImgIdx> = pending@;
            let rec = pending.remove(0);
            proof {
                assert(models_of(pending0)[0] == pending0[0]@);
                assert(rec@ == rms[k]);
                assert forall|j: int| 0 <= j < pending@.len() implies models_of(pending@)[j]
                    == rms.subrange(k + 1, rms.len() as int)[j] by {
                    assert(pending@[j] == pending0[j + 1]);
                    assert(models_of(pending0)[j + 1] == pending0[j + 1]@);
                }
            }
            let ghost before: Seq<RecordModel> = self@;
            match self.find_path(rec.path.as_str()) {
                Some(i) => {
                    proof {
                        lemma_find_row(before, rec.path@);
                        lemma_upsert_one_wf(before, rec@);
                    }
                    let _ = self.rows.remove(i);
                    self.rows.insert(i, rec);
                    proof {
                        assert(self@ =~= before.update(i as int, rms[k]));
                    }
                },
                None => {
                    proof {
                        lemma_upsert_one_wf(before, rec@);
                    }
                    self.rows.push(rec);
                    proof {
                        assert(self@ =~= before.push(rms[k]));
                    }
                },
            }
            proof {
                assert(self@ == upsert_one(before, rms[k]));
                let single = seq![rms[k]];
                assert(rms.subrange(0, k + 1) =~= rms.subrange(0, k) + single);
                lemma_upsert_all_app(orig, rms.subrange(0, k), single);
                assert(single.subrange(1, 1) =~= Seq::<RecordModel>::empty());
                assert(upsert_all(before, single) == upsert_all(
                    upsert_one(before, single[0]),
                    single.subrange(1, 1),
                ));
                assert(upsert_all(upsert_one(before, rms[k]), Seq::<RecordModel>::empty())
                    == upsert_one(before, rms[k]));
                assert(models_of(pending@) =~= rms.subrange(k + 1, rms.len() as int));
                k = k + 1;
            }
        }
        proof {
            assert(rms.subrange(0, rms.len() as int) =~= rms);
        }
    }

    /// Build the vector index if the table has grown past the
    /// threshold and none exists yet; idempotent and content-free.
    pub fn maybe_build_index(&mut self) -> (built: bool)
        ensures
            final(self)@ == old(self)@,
            built == (old(self)@.len() >= ANN_BUILD_THRESHOLD && !old(self).ann_index_built()),
            final(self).ann_index_built() == (old(self).ann_index_built() || old(self)@.len()
                >= ANN_BUILD_THRESHOLD),
    {
        if self.rows.len() >= ANN_BUILD_THRESHOLD && !self.ann_built {
            self.ann_built = true;
            true
        } else {
            false
        }
    }
}

/// Filtering a singleton keeps or drops its one element.
pub proof fn lemma_filter_one<A>(x: A, pred: spec_fn(A) -> bool)
    ensures
        seq![x].filter(pred) == if pred(x) {
            seq![x]
        } else {
            Seq::<A>::empty()
        },
{
    reveal_with_fuel(Seq::filter, 2);
    assert(seq![x].drop_last() =~= Seq::<A>::empty());
    if pred(x) {
        assert(seq![x].filter(pred) =~= seq![x]);
    } else {
        assert(seq![x].filter(pred) =~= Seq::<A>::empty());
    }
}

/// `map_values` distributes over concatenation.
pub proof fn lemma_map_values_add<A, B>(a: Seq<A>, b: Seq<A>, f: spec_fn(A) -> B)
    ensures
        (a + b).map_values(f) == a.map_values(f) + b.map_values(f),
{
    assert((a + b).map_values(f) =~= a.map_values(f) + b.map_values(f));
}

/// A path under a prefix carries the prefix verbatim.
pub proof fn lemma_under_is_prefix(path: Seq<char>, prefix: Seq<char>)
    requires
        spec_path_under(path, prefix),
    ensures
        prefix.is_prefix_of(path),
        path =~= prefix + path.skip(prefix.len() as int),
{
    if path == prefix {
        assert(prefix =~= path.subrange(0, prefix.len() as int));
    } else {
        assert((prefix + seq!['/']).is_prefix_of(path));
        assert forall|i: int| 0 <= i < prefix.len() implies path[i] == prefix[i] by {
            assert((prefix + seq!['/'])[i] == prefix[i]);
            assert(path.subrange(0, (prefix + seq!['/']).len() as int)[i] == path[i]);
        }
        assert(prefix =~= path.subrange(0, prefix.len() as int));
    }
    assert(path =~= prefix + path.skip(prefix.len() as int));
}

/// Rewriting a prefix lands the path under the new prefix.
pub proof fn lemma_rewrite_under(path: Seq<char>, oldp: Seq<char>, newp: Seq<char>)
    requires
        spec_path_under(path, oldp),
    ensures
        spec_path_under(newp + path.skip(oldp.len() as int), newp),
{
    let suffix = path.skip(oldp.len() as int);
    if path == oldp {
        assert(suffix =~= Seq::<char>::empty());
        assert(newp + suffix =~= newp);
    } else {
        assert((oldp + seq!['/']).is_prefix_of(path));
        assert(path[oldp.len() as int] == (oldp + seq!['/'])[oldp.len() as int]) by {
            assert(path.subrange(0, (oldp + seq!['/']).len() as int)[oldp.len() as int] == path[
                oldp.len() as int
            ]);
        }
        assert(suffix[0] == '/');
        assert((newp + seq!['/']).is_prefix_of(newp + suffix)) by {
            assert((newp + seq!['/']) =~= (newp + suffix).subrange(
                0,
                (newp + seq!['/']).len() as int,
            ));
        }
    }
}

/// A row with its path replaced; everything else untouched.
pub open spec fn set_path(m: RecordModel, p: Seq<char>) -> RecordModel {
    RecordModel { path: p, ..m }
}

/// A row whose path prefix `oldp` is rewritten to `newp`.
pub open spec fn rewrite_row(m: RecordModel, oldp: Seq<char>, newp: Seq<char>) -> RecordModel {
    set_path(m, newp + m.path.skip(oldp.len() as int))
}

/// The shape every row takes after a prefix rename.
pub open spec fn renamed_row(m: RecordModel, oldp: Seq<char>, newp: Seq<char>) -> RecordModel {
    if spec_path_under(m.path, oldp) {
        rewrite_row(m, oldp, newp)
    } else {
        m
    }
}

impl IndexStore {
    /// Rewrite the path of the row keyed `old_path`, if present, to
    /// `new_path`; a rename of one file. The target key must be free
    /// (or be the same key), as the table is keyed by path.
    pub fn update_path(&mut self, old_path: &str, new_path: &str)
        requires
            old(self).wf(),
            has_path(old(self)@, new_path@) ==> new_path@ == old_path@,
        ensures
            final(self).wf(),
            final(self).ann_index_built() == old(self).ann_index_built(),
            match find_row(old(self)@, old_path@) {
                Some(i) => final(self)@ == old(self)@.update(
                    i,
                    set_path(old(self)@[i], new_path@),
                ),
                None => final(self)@ == old(self)@,
            },
    {
        let ghost orig: Seq<RecordModel> = self@;
        let ghost rows0: Seq<ImgIdx> = self.rows@;
        match self.find_path(old_path) {
            Some(i) => {
                proof {
                    lemma_find_row(orig, old_path@);
                }
                let mut row = self.rows.remove(i);
                proof {
                    assert(row@ == orig[i as int]);
                }
                row.path = new_path.to_owned();
                let ghost rows1: Seq<ImgIdx> = self.rows@;
                self.rows.insert(i, row);
                proof {
                    lemma_models_remove(rows0, i as int);
                    lemma_models_insert(rows1, i as int, row);
                    assert(row@ == set_path(orig[i as int], new_path@));
                    assert(self@ =~= orig.update(i as int, set_path(orig[i as int], new_path@)));
                    let t = self@;
                    assert(paths_unique(t)) by {
                        lemma_find_row(orig, new_path@);
                        assert forall|x: int, y: int| 0 <= x < y < t.len() implies t[x].path
                            != t[y].path by {
                            if x != i && y != i {
                                assert(t[x] == orig[x] && t[y] == orig[y]);
                            } else {
                                let other: int = if x == i {
                                    y
                                } else {
                                    x
                                };
                                assert(t[other] == orig[other]);
                                if has_path(orig, new_path@) {
                                    assert(orig[other].path != old_path@);
                                } else {
                                    assert(orig[other].path != new_path@);
                                }
                            }
                        }
                    }
                }
            },
            None => {},
        }
    }

    /// Rewrite the path prefix of every row under a renamed
    /// directory; row identities and all other columns are kept. No
    /// row may already sit under the new prefix.
    pub fn update_path_prefix(&mut self, old_prefix: &str, new_prefix: &str)
        requires
            old(self).wf(),
            forall|j: int|
                0 <= j < old(self)@.len() ==> !spec_path_under(
                    (#[trigger] old(self)@[j]).path,
                    new_prefix@,
                ),
        ensures
            final(self).wf(),
            final(self).ann_index_built() == old(self).ann_index_built(),
            final(self)@.len() == old(self)@.len(),
            forall|i: int|
                0 <= i < old(self)@.len() ==> final(self)@[i] == renamed_row(
                    #[trigger] old(self)@[i],
                    old_prefix@,
                    new_prefix@,
                ),
    {
        let ghost orig: Seq<RecordModel> = self@;
        let n = self.rows.len();
        let mut i: usize = 0;
        while i < n
            invariant
                n == self.rows@.len(),
                n == orig.len(),
                0 <= i <= n,
                self.ann_built == old(self).ann_built,
                forall|m: int|
                    0 <= m < i ==> self@[m] == renamed_row(
                        #[trigger] orig[m],
                        old_prefix@,
                        new_prefix@,
                    ),
                forall|m: int| i <= m < n ==> self@[m] == orig[m],
            decreases n - i,
        {
            if path_under(self.rows[i].path.as_str(), old_prefix) {
                proof {
                    lemma_under_is_prefix(orig[i as int].path, old_prefix@);
                }
                let ghost before: Seq<RecordModel> = self@;
                let ghost rows0: Seq<ImgIdx> = self.rows@;
                let mut row = self.rows.remove(i);
                proof {
                    assert(row@ == before[i as int]);
                }
                let np = replace_prefix(row.path.as_str(), old_prefix, new_prefix);
                row.path = np;
                let ghost rows1: Seq<ImgIdx> = self.rows@;
                self.rows.insert(i, row);
                proof {
                    lemma_models_remove(rows0, i as int);
                    lemma_models_insert(rows1, i as int, row);
                    assert(row@ == rewrite_row(orig[i as int], old_prefix@, new_prefix@));
                    assert(self@ =~= before.update(
                        i as int,
                        rewrite_row(orig[i as int], old_prefix@, new_prefix@),
                    ));
                }
            }
            i += 1;
        }
        proof {
            let t = self@;
            let oldp = old_prefix@;
            let newp = new_prefix@;
            assert forall|m: int| 0 <= m < t.len() implies (#[trigger] t[m]).wf() by {
                assert(t[m] == renamed_row(orig[m], oldp, newp));
                assert(orig[m].wf());
            }
            assert(paths_unique(t)) by {
                assert forall|x: int, y: int| 0 <= x < y < t.len() implies t[x].path
                    != t[y].path by {
                    let ux = spec_path_under(orig[x].path, oldp);
                    let uy = spec_path_under(orig[y].path, oldp);
                    if ux {
                        lemma_under_is_prefix(orig[x].path, oldp);
                        lemma_rewrite_under(orig[x].path, oldp, newp);
                    }
                    if uy {
                        lemma_under_is_prefix(orig[y].path, oldp);
                        lemma_rewrite_under(orig[y].path, oldp, newp);
                    }
                    if ux && uy {
                        assert((newp + orig[x].path.skip(oldp.len() as int)).skip(
                            newp.len() as int,
                        ) =~= orig[x].path.skip(oldp.len() as int));
                        assert((newp + orig[y].path.skip(oldp.len() as int)).skip(
                            newp.len() as int,
                        ) =~= orig[y].path.skip(oldp.len() as int));
                        if t[x].path == t[y].path {
                            assert(orig[x].path =~= orig[y].path);
                        }
                    }
                }
            }
        }
    }

    /// Delete every row of one tracked root.
    #[verifier::loop_isolation(false)]
    pub fn remove_by_root(&mut self, root: &str)
        requires
            old(self).wf(),
        ensures
            final(self).wf(),
            final(self).ann_index_built() == old(self).ann_index_built(),
            final(self)@ == old(self)@.filter(|m: RecordModel| m.root != root@),
    {
        let ghost orig: Seq<RecordModel> = self@;
        let ghost pred = |m: RecordModel| m.root != root@;
        let mut i: usize = 0;
        let ghost mut j: int = 0;
        while i < self.rows.len()
            invariant
                0 <= j <= orig.len(),
                j == i + (orig.len() - self@.len()),
                i as int == orig.subrange(0, j).filter(pred).len(),
                self@ =~= orig.subrange(0, j).filter(pred) + orig.subrange(j, orig.len() as int),
                self.wf(),
                self.ann_built == old(self).ann_built,
            decreases self.rows@.len() - i,
        {
            let ghost before: Seq<RecordModel> = self@;
            let ghost rows0: Seq<ImgIdx> = self.rows@;
            proof {
                assert(before[i as int] == orig[j]);
                assert(before[i as int] == rows0[i as int]@);
                assert(orig.subrange(0, j + 1) =~= orig.subrange(0, j) + seq![orig[j]]);
                Seq::filter_distributes_over_add(orig.subrange(0, j), seq![orig[j]], pred);
                lemma_filter_one(orig[j], pred);
            }
            if str_eq(self.rows[i].root.as_str(), root) {
                let _ = self.rows.remove(i);
                proof {
                    assert(orig[j].root == root@);
                    assert(!pred(orig[j]));
                    assert(seq![orig[j]].filter(pred) =~= Seq::<RecordModel>::empty());
                    lemma_models_remove(rows0, i as int);
                    assert(self@ =~= before.remove(i as int));
                    assert(self@ =~= orig.subrange(0, j + 1).filter(pred) + orig.subrange(
                        j + 1,
                        orig.len() as int,
                    ));
                    assert(paths_unique(self@)) by {
                        assert forall|x: int, y: int| 0 <= x < y < self@.len() implies self@[x].path
                            != self@[y].path by {
                            if y < i as int {
                                assert(self@[x] == before[x] && self@[y] == before[y]);
                            } else if x < i as int {
                                assert(self@[x] == before[x] && self@[y] == before[y + 1]);
                            } else {
                                assert(self@[x] == before[x + 1] && self@[y] == before[y + 1]);
                            }
                        }
                    }
                }
            } else {
                i += 1;
                proof {
                    assert(orig[j].root != root@);
                    assert(pred(orig[j]));
                    assert(seq![orig[j]].filter(pred) =~= seq![orig[j]]);
                    assert(self@ =~= orig.subrange(0, j + 1).filter(pred) + orig.subrange(
                        j + 1,
                        orig.len() as int,
                    ));
                }
            }
            proof {
                j = j + 1;
            }
        }
        proof {
            assert(orig.subrange(0, orig.len() as int) =~= orig);
            assert(orig.subrange(orig.len() as int, orig.len() as int) =~= Seq::<
                RecordModel,
            >::empty());
            assert(self@ =~= orig.filter(pred));
        }
    }

    /// Delete the row keyed exactly `path`, handing back its
    /// thumbnail path so the caller can delete the file.
    pub fn remove_path(&mut self, path: &str) -> (r: Option<String>)
        requires
            old(self).wf(),
        ensures
            final(self).wf(),
            final(self).ann_index_built() == old(self).ann_index_built(),
            match find_row(old(self)@, path@) {
                Some(i) => final(self)@ == old(self)@.remove(i) && r is Some && r->Some_0@ == old(
                    self,
                )@[i].thumbnail,
                None => final(self)@ == old(self)@ && r is None,
            },
    {
        let ghost orig: Seq<RecordModel> = self@;
        let ghost rows0: Seq<ImgIdx> = self.rows@;
        match self.find_path(path) {
            Some(i) => {
                proof {
                    lemma_find_row(orig, path@);
                }
                let row = self.rows.remove(i);
                proof {
                    lemma_models_remove(rows0, i as int);
                    assert(row@ == orig[i as int]);
                    assert(self@ =~= orig.remove(i as int));
                    assert(paths_unique(self@)) by {
                        assert forall|x: int, y: int| 0 <= x < y < self@.len() implies self@[x].path
                            != self@[y].path by {
                            if y < i as int {
                                assert(self@[x] == orig[x] && self@[y] == orig[y]);
                            } else if x < i as int {
                                assert(self@[x] == orig[x] && self@[y] == orig[y + 1]);
                            } else {
                                assert(self@[x] == orig[x + 1] && self@[y] == orig[y + 1]);
                            }
                        }
                    }
                }
                Some(row.thumbnail)
            },
            None => None,
        }
    }

    /// Delete every row whose path is, or lies under, `prefix`, and
    /// hand back exactly their thumbnail paths, in table order.
    #[verifier::loop_isolation(false)]
    pub fn remove_path_like(&mut self, prefix: &str) -> (r: Vec<String>)
        requires
            old(self).wf(),
        ensures
            final(self).wf(),
            final(self).ann_index_built() == old(self).ann_index_built(),
            final(self)@ == old(self)@.filter(
                |m: RecordModel| !spec_path_under(m.path, prefix@),
            ),
            r@.map_values(|t: String| t@) == old(self)@.filter(
                |m: RecordModel| spec_path_under(m.path, prefix@),
            ).map_values(|m: RecordModel| m.thumbnail),
    {
        let ghost orig: Seq<RecordModel> = self@;
        let ghost keep = |m: RecordModel| !spec_path_under(m.path, prefix@);
        let ghost gone = |m: RecordModel| spec_path_under(m.path, prefix@);
        let mut thumbs: Vec<String> = Vec::new();
        let mut i: usize = 0;
        let ghost mut j: int = 0;
        while i < self.rows.len()
            invariant
                0 <= j <= orig.len(),
                j == i + (orig.len() - self@.len()),
                i as int == orig.subrange(0, j).filter(keep).len(),
                self@ =~= orig.subrange(0, j).filter(keep) + orig.subrange(j, orig.len() as int),
                thumbs@.map_values(|t: String| t@) =~= orig.subrange(0, j).filter(
                    gone,
                ).map_values(|m: RecordModel| m.thumbnail),
                self.wf(),
                self.ann_built == old(self).ann_built,
            decreases self.rows@.len() - i,
        {
            let ghost before: Seq<RecordModel> = self@;
            let ghost rows0: Seq<ImgIdx> = self.rows@;
            let ghost tb: Seq<String> = thumbs@;
            proof {
                assert(before[i as int] == orig[j]);
                assert(before[i as int] == rows0[i as int]@);
                assert(orig.subrange(0, j + 1) =~= orig.subrange(0, j) + seq![orig[j]]);
                Seq::filter_distributes_over_add(orig.subrange(0, j), seq![orig[j]], keep);
                Seq::filter_distributes_over_add(orig.subrange(0, j), seq![orig[j]], gone);
                lemma_filter_one(orig[j], keep);
                lemma_filter_one(orig[j], gone);
                lemma_map_values_add(
                    orig.subrange(0, j).filter(gone),
                    seq![orig[j]].filter(gone),
                    |m: RecordModel| m.thumbnail,
                );
            }
            if path_under(self.rows[i].path.as_str(), prefix) {
                let row = self.rows.remove(i);
                thumbs.push(row.thumbnail);
                proof {
                    assert(gone(orig[j]) && !keep(orig[j]));
                    assert(row@ == orig[j]);
                    lemma_models_remove(rows0, i as int);
                    assert(self@ =~= before.remove(i as int));
                    assert(self@ =~= orig.subrange(0, j + 1).filter(keep) + orig.subrange(
                        j + 1,
                        orig.len() as int,
                    ));
                    assert(thumbs@.map_values(|t: String| t@) =~= orig.subrange(0, j + 1).filter(
                        gone,
                    ).map_values(|m: RecordModel| m.thumbnail)) by {
                        assert(thumbs@ =~= tb.push(row.thumbnail));
                        assert(seq![orig[j]].filter(gone) =~= seq![orig[j]]);
                        assert(seq![orig[j]].map_values(|m: RecordModel| m.thumbnail)
                            =~= seq![orig[j].thumbnail]);
                    }
                    assert(paths_unique(self@)) by {
                        assert forall|x: int, y: int| 0 <= x < y < self@.len() implies self@[x].path
                            != self@[y].path by {
                            if y < i as int {
                                assert(self@[x] == before[x] && self@[y] == before[y]);
                            } else if x < i as int {
                                assert(self@[x] == before[x] && self@[y] == before[y + 1]);
                            } else {
                                assert(self@[x] == before[x + 1] && self@[y] == before[y + 1]);
                            }
                        }
                    }
                }
            } else {
                i += 1;
                proof {
                    assert(!gone(orig[j]) && keep(orig[j]));
                    assert(seq![orig[j]].filter(keep) =~= seq![orig[j]]);
                    assert(self@ =~= orig.subrange(0, j + 1).filter(keep) + orig.subrange(
                        j + 1,
                        orig.len() as int,
                    ));
                    assert(thumbs@.map_values(|t: String| t@) =~= orig.subrange(0, j + 1).filter(
                        gone,
                    ).map_values(|m: RecordModel| m.thumbnail)) by {
                        assert(seq![orig[j]].filter(gone) =~= Seq::<RecordModel>::empty());
                    }
                }
            }
            proof {
                j = j + 1;
            }
        }
        proof {
            assert(orig.subrange(0, orig.len() as int) =~= orig);
            assert(orig.subrange(orig.len() as int, orig.len() as int) =~= Seq::<
                RecordModel,
            >::empty());
            assert(self@ =~= orig.filter(keep));
        }
        thumbs
    }

    /// Every row, as listing results, in table order; with
    /// `include_unindexed` false only rows already indexed.
    #[verifier::loop_isolation(false)]
    pub fn get_all(&self, include_unindexed: bool) -> (r: Vec<ImgSearchResult>)
        ensures
            r@.map_values(|x: ImgSearchResult| x@) == (if include_unindexed {
                self@
            } else {
                self@.filter(|m: RecordModel| m.idxed)
            }).map_values(|m: RecordModel| result_of(m, None)),
    {
        let ghost pred = |m: RecordModel| m.idxed;
        let ghost wanted: Seq<RecordModel> = if include_unindexed {
            self@
        } else {
            self@.filter(pred)
        };
        let mut out: Vec<ImgSearchResult> = Vec::new();
        let n = self.rows.len();
        let mut i: usize = 0;
        while i < n
            invariant
                n == self.rows@.len(),
                0 <= i <= n,
                out@.map_values(|x: ImgSearchResult| x@) =~= (if include_unindexed {
                    self@.subrange(0, i as int)
                } else {
                    self@.subrange(0, i as int).filter(pred)
                }).map_values(|m: RecordModel| result_of(m, None)),
            decreases n - i,
        {
            let ghost sofar: Seq<ImgSearchResult> = out@;
            proof {
                assert(self@.subrange(0, i + 1) =~= self@.subrange(0, i as int) + seq![
                    self@[i as int],
                ]);
                Seq::filter_distributes_over_add(
                    self@.subrange(0, i as int),
                    seq![self@[i as int]],
                    pred,
                );
                lemma_filter_one(self@[i as int], pred);
                if include_unindexed {
                    lemma_map_values_add(
                        self@.subrange(0, i as int),
                        seq![self@[i as int]],
                        |m: RecordModel| result_of(m, None),
                    );
                } else {
                    lemma_map_values_add(
                        self@.subrange(0, i as int).filter(pred),
                        seq![self@[i as int]].filter(pred),
                        |m: RecordModel| result_of(m, None),
                    );
                }
            }
            if include_unindexed || self.rows[i].idxed {
                let item = crate::record::to_result(&self.rows[i], None);
                out.push(item);
                proof {
                    assert(out@ =~= sofar.push(item));
                    assert(seq![self@[i as int]].map_values(|m: RecordModel| result_of(m, None))
                        =~= seq![result_of(self@[i as int], None)]);
                }
            }
            i += 1;
        }
        proof {
            assert(self@.subrange(0, n as int) =~= self@);
        }
        out
    }
}

/// The smaller of two integers.
pub open spec fn spec_min(a: int, b: int) -> int {
    if a <= b {
        a
    } else {
        b
    }
}

/// Squared Euclidean distance of two fixed-point vectors; lower is
/// more similar.
pub open spec fn spec_dist(a: Seq<i64>, b: Seq<i64>) -> int
    decreases a.len(),
{
    if a.len() == 0 || b.len() == 0 {
        0
    } else {
        let d = a.last() - b.last();
        spec_dist(a.drop_last(), b.drop_last()) + d * d
    }
}

/// Exec squared distance. Components are bounded, so the sum of 768
/// squares stays far below the integer limits.
#[verifier::loop_isolation(false)]
pub fn distance(a: &Vec<i64>, b: &Vec<i64>) -> (r: u64)
    requires
        valid_embedding(a@),
        valid_embedding(b@),
    ensures
        r == spec_dist(a@, b@),
{
    let n = a.len();
    let mut acc: u64 = 0;
    let mut i: usize = 0;
    proof {
        assert(a@.take(0) =~= Seq::<i64>::empty());
    }
    while i < n
        invariant
            0 <= i <= n,
            acc == spec_dist(a@.take(i as int), b@.take(i as int)),
            acc <= i * 4_000_000_000_000,
        decreases n - i,
    {
        let ghost acc0: u64 = acc;
        assert(-EMBED_BOUND <= a@[i as int] <= EMBED_BOUND);
        assert(-EMBED_BOUND <= b@[i as int] <= EMBED_BOUND);
        let d: i64 = a[i] - b[i];
        proof {
            assert(0 <= d as int * d as int <= 4_000_000_000_000) by (nonlinear_arith)
                requires
                    -2_000_000 <= d as int <= 2_000_000,
            ;
        }
        let sq: i64 = d * d;
        acc = acc + (sq as u64);
        proof {
            assert(a@.take(i + 1).drop_last() =~= a@.take(i as int));
            assert(b@.take(i + 1).drop_last() =~= b@.take(i as int));
            assert(a@.take(i + 1).last() == a@[i as int]);
            assert(b@.take(i + 1).last() == b@[i as int]);
            assert(acc == spec_dist(a@.take(i + 1), b@.take(i + 1)));
        }
        i += 1;
    }
    proof {
        assert(a@.take(n as int) =~= a@);
        assert(b@.take(n as int) =~= b@);
    }
    acc
}

/// The models of a vector of results.
pub open spec fn results_of(v: Seq<ImgSearchResult>) -> Seq<ResultModel> {
    v.map_values(|x: ImgSearchResult| x@)
}

pub proof fn lemma_results_remove(v: Seq<ImgSearchResult>, i: int)
    requires
        0 <= i < v.len(),
    ensures
        results_of(v.remove(i)) =~= results_of(v).remove(i),
{
    assert forall|m: int| 0 <= m < v.len() - 1 implies results_of(v.remove(i))[m] == results_of(
        v,
    ).remove(i)[m] by {
        if m >= i {
            assert(v.remove(i)[m] == v[m + 1]);
        }
    }
}

/// The score a result carries (meaningful only when present).
pub open spec fn score_val(m: ResultModel) -> u64 {
    m.score->Some_0
}

/// Every result carries a score.
pub open spec fn all_scored(s: Seq<ResultModel>) -> bool {
    forall|i: int| 0 <= i < s.len() ==> (#[trigger] s[i]).score is Some
}

/// Scores never decrease along the sequence.
pub open spec fn sorted_by_score(s: Seq<ResultModel>) -> bool {
    forall|i: int, j: int| 0 <= i < j < s.len() ==> score_val(s[i]) <= score_val(s[j])
}

/// What a vector search ranks: every indexed row, scored by its
/// squared distance to the query.
pub open spec fn candidates(s: Seq<RecordModel>, q: Seq<i64>) -> Seq<ResultModel> {
    s.filter(|m: RecordModel| m.idxed).map_values(
        |m: RecordModel| result_of(m, Some(spec_dist(q, m.vec->Some_0) as u64)),
    )
}

/// The score of one result, in exec code.
fn score_of(x: &ImgSearchResult) -> (r: u64)
    requires
        x@.score is Some,
    ensures
        r == score_val(x@),
{
    match x.score {
        Some(s) => s,
        None => {
            proof {
                assert(false);
            }
            0
        },
    }
}

/// Index of a minimal-score element.
#[verifier::loop_isolation(false)]
fn min_score_index(v: &Vec<ImgSearchResult>) -> (r: usize)
    requires
        v@.len() > 0,
        all_scored(results_of(v@)),
    ensures
        r < v@.len(),
        forall|k: int|
            0 <= k < v@.len() ==> score_val(results_of(v@)[r as int]) <= score_val(
                #[trigger] results_of(v@)[k],
            ),
{
    let n = v.len();
    let mut best: usize = 0;
    proof {
        assert(results_of(v@)[0] == v@[0]@);
    }
    let mut bestscore: u64 = score_of(&v[0]);
    let mut i: usize = 1;
    while i < n
        invariant
            0 <= best < i <= n,
            bestscore == score_val(results_of(v@)[best as int]),
            forall|k: int|
                0 <= k < i ==> bestscore <= score_val(#[trigger] results_of(v@)[k]),
        decreases n - i,
    {
        proof {
            assert(results_of(v@)[i as int] == v@[i as int]@);
        }
        let s = score_of(&v[i]);
        if s < bestscore {
            best = i;
            bestscore = s;
        }
        i += 1;
    }
    best
}

/// Sort results by non-decreasing score, by repeatedly extracting a
/// minimal element; the multiset of results is preserved.
#[verifier::loop_isolation(false)]
fn sort_by_score(input: Vec<ImgSearchResult>) -> (out: Vec<ImgSearchResult>)
    requires
        all_scored(results_of(input@)),
    ensures
        results_of(out@).to_multiset() == results_of(input@).to_multiset(),
        sorted_by_score(results_of(out@)),
        all_scored(results_of(out@)),
        out@.len() == input@.len(),
{
    broadcast use vstd::seq_lib::group_to_multiset_ensures;
    broadcast use vstd::multiset::group_multiset_axioms;

    let ghost orig: Seq<ResultModel> = results_of(input@);
    let mut v = input;
    let mut out: Vec<ImgSearchResult> = Vec::new();
    proof {
        assert(results_of(out@) =~= Seq::<ResultModel>::empty());
        assert(results_of(out@).to_multiset().add(results_of(v@).to_multiset())
            =~= orig.to_multiset());
    }
    while v.len() > 0
        invariant
            all_scored(results_of(v@)),
            all_scored(results_of(out@)),
            sorted_by_score(results_of(out@)),
            results_of(out@).to_multiset().add(results_of(v@).to_multiset())
                == orig.to_multiset(),
            out@.len() + v@.len() == orig.len(),
            forall|x: int, y: int|
                0 <= x < results_of(out@).len() && 0 <= y < results_of(v@).len() ==> score_val(
                    #[trigger] results_of(out@)[x],
                ) <= score_val(#[trigger] results_of(v@)[y]),
        decreases v@.len(),
    {
        let m = min_score_index(&v);
        let ghost vm0: Seq<ResultModel> = results_of(v@);
        let ghost om0: Seq<ResultModel> = results_of(out@);
        let ghost vraw0: Seq<ImgSearchResult> = v@;
        let x = v.remove(m);
        out.push(x);
        proof {
            lemma_results_remove(vraw0, m as int);
            assert(results_of(v@) =~= vm0.remove(m as int));
            assert(results_of(out@) =~= om0.push(x@));
            assert(x@ == vm0[m as int]);
            assert(vm0.to_multiset().count(x@) > 0);
            assert(results_of(out@).to_multiset() =~= om0.to_multiset().insert(x@));
            assert(results_of(v@).to_multiset() =~= vm0.to_multiset().remove(x@));
            assert(om0.to_multiset().insert(x@).add(vm0.to_multiset().remove(x@))
                =~= om0.to_multiset().add(vm0.to_multiset()));
            assert forall|k: int| 0 <= k < results_of(v@).len() implies score_val(x@) <= score_val(
                #[trigger] results_of(v@)[k],
            ) by {
                if k < m {
                    assert(results_of(v@)[k] == vm0[k]);
                } else {
                    assert(results_of(v@)[k] == vm0[k + 1]);
                }
            }
        }
    }
    proof {
        assert(results_of(v@) =~= Seq::<ResultModel>::empty());
        assert(results_of(out@).to_multiset().add(Seq::<ResultModel>::empty().to_multiset())
            =~= results_of(out@).to_multiset());
    }
    out
}

pub proof fn lemma_results_take(v: Seq<ImgSearchResult>, k: int)
    requires
        0 <= k <= v.len(),
    ensures
        results_of(v.take(k)) =~= results_of(v).take(k),
{
}

impl IndexStore {
    /// Nearest-neighbour search: every indexed row scored by squared
    /// distance to the query, ranked by non-decreasing score, cut to
    /// at most `top` results. The result is a prefix of some
    /// score-sorted arrangement of all the scored rows.
    #[verifier::loop_isolation(false)]
    pub fn search(&self, query: &Vec<i64>, top: usize) -> (r: Vec<ImgSearchResult>)
        requires
            self.wf(),
            valid_embedding(query@),
        ensures
            results_of(r@).len() == spec_min(top as int, candidates(self@, query@).len() as int),
            sorted_by_score(results_of(r@)),
            all_scored(results_of(r@)),
            exists|all: Seq<ResultModel>|
                {
                    &&& all.to_multiset() == candidates(self@, query@).to_multiset()
                    &&& sorted_by_score(all)
                    &&& results_of(r@) == all.take(results_of(r@).len() as int)
                },
    {
        let ghost pred = |m: RecordModel| m.idxed;
        let ghost scored = |m: RecordModel| result_of(
            m,
            Some(spec_dist(query@, m.vec->Some_0) as u64),
        );
        let mut cands: Vec<ImgSearchResult> = Vec::new();
        let n = self.rows.len();
        let mut i: usize = 0;
        proof {
            assert(self@.take(0) =~= Seq::<RecordModel>::empty());
            assert(Seq::<RecordModel>::empty().filter(pred) =~= Seq::<RecordModel>::empty()) by {
                reveal_with_fuel(Seq::filter, 1);
            }
            assert(results_of(cands@) =~= candidates(self@.take(0), query@));
        }
        while i < n
            invariant
                0 <= i <= n,
                results_of(cands@) =~= candidates(self@.take(i as int), query@),
            decreases n - i,
        {
            let ghost c0: Seq<ImgSearchResult> = cands@;
            proof {
                assert(self@.take(i + 1) =~= self@.take(i as int) + seq![self@[i as int]]);
                Seq::filter_distributes_over_add(
                    self@.take(i as int),
                    seq![self@[i as int]],
                    pred,
                );
                lemma_filter_one(self@[i as int], pred);
                lemma_map_values_add(
                    self@.take(i as int).filter(pred),
                    seq![self@[i as int]].filter(pred),
                    scored,
                );
                assert(self@[i as int].wf());
                assert(self@[i as int] == self.rows@[i as int]@);
            }
            if self.rows[i].idxed {
                let d: u64 = match &self.rows[i].vec {
                    Some(vec) => distance(query, vec),
                    None => {
                        proof {
                            assert(false);
                        }
                        0
                    },
                };
                let item = to_result(&self.rows[i], Some(d));
                cands.push(item);
                proof {
                    assert(results_of(cands@) =~= c0.map_values(|x: ImgSearchResult| x@).push(
                        item@,
                    ));
                    assert(item@ == scored(self@[i as int]));
                    assert(seq![self@[i as int]].filter(pred) =~= seq![self@[i as int]]);
                    assert(seq![self@[i as int]].map_values(scored) =~= seq![
                        scored(self@[i as int]),
                    ]);
                }
            } else {
                proof {
                    assert(seq![self@[i as int]].filter(pred) =~= Seq::<RecordModel>::empty());
                    assert(Seq::<RecordModel>::empty().map_values(scored) =~= Seq::<
                        ResultModel,
                    >::empty());
                }
            }
            i += 1;
        }
        proof {
            assert(self@.take(n as int) =~= self@);
            assert(all_scored(results_of(cands@)));
        }
        let mut sorted = sort_by_score(cands);
        let ghost raw0: Seq<ImgSearchResult> = sorted@;
        let ghost all: Seq<ResultModel> = results_of(sorted@);
        let ghost fulllen: int = sorted@.len() as int;
        sorted.truncate(top);
        let ghost cut: int = spec_min(top as int, fulllen);
        proof {
            assert(all.len() == candidates(self@, query@).len()) by {
                broadcast use vstd::seq_lib::group_to_multiset_ensures;

                assert(all.to_multiset().len() == candidates(self@, query@).to_multiset().len());
            }
            if top as int <= fulllen {
                assert(sorted@ =~= raw0.take(top as int));
                lemma_results_take(raw0, top as int);
            } else {
                assert(sorted@ =~= raw0.take(fulllen));
                lemma_results_take(raw0, fulllen);
            }
            assert(results_of(sorted@) =~= all.take(cut));
        }
        sorted
    }
}

} // verus!
