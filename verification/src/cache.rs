//! The in-flight path cache.
//!
//! While a file is between "thumbnail generated" and "batch write
//! completed" it is *pending*: keyed here by its source path, with an
//! optional deferred rename target. A rename that races with an
//! in-progress indexing run is parked in the entry's target and
//! honoured when the batch is persisted. Entries carry an expiry
//! instant as a leak guard; the caller supplies the clock.

use vstd::prelude::*;
use crate::text::spec_path_under;
use crate::text::path_under;
use crate::text::str_eq;

verus! {

/// Seconds an entry lives without being refreshed.
pub const CACHE_TTL: u64 = 60;

/// Mathematical model of one cache entry.
pub ghost struct EntryModel {
    pub path: Seq<char>,
    pub target: Option<Seq<char>>,
    pub expires_at: u64,
}

struct CacheEntry {
    path: String,
    target: Option<String>,
    expires_at: u64,
}

impl View for CacheEntry {
    type V = EntryModel;

    closed spec fn view(&self) -> EntryModel {
        EntryModel {
            path: self.path@,
            target: match self.target {
                Some(t) => Some(t@),
                None => None,
            },
            expires_at: self.expires_at,
        }
    }
}

/// The view of an optional owned string.
pub open spec fn opt_str_view(o: Option<String>) -> Option<Seq<char>> {
    match o {
        Some(t) => Some(t@),
        None => None,
    }
}

/// No two entries share a path.
pub open spec fn entry_paths_unique(s: Seq<EntryModel>) -> bool {
    forall|i: int, j: int| 0 <= i < j < s.len() ==> s[i].path != s[j].path
}

/// Index of the first entry with the given path, if any.
pub open spec fn find_entry(s: Seq<EntryModel>, p: Seq<char>) -> Option<int>
    decreases s.len(),
{
    if s.len() == 0 {
        None
    } else if s[0].path == p {
        Some(0int)
    } else {
        match find_entry(s.subrange(1, s.len() as int), p) {
            None => None,
            Some(i) => Some(i + 1),
        }
    }
}

/// The entry keyed by `p`, if any.
pub open spec fn entry_for(s: Seq<EntryModel>, p: Seq<char>) -> Option<EntryModel> {
    match find_entry(s, p) {
        Some(i) => Some(s[i]),
        None => None,
    }
}

pub proof fn lemma_find_entry(s: Seq<EntryModel>, p: Seq<char>)
    ensures
        match find_entry(s, p) {
            Some(i) => 0 <= i < s.len() && s[i].path == p && (forall|j: int|
                0 <= j < i ==> s[j].path != p),
            None => forall|j: int| 0 <= j < s.len() ==> s[j].path != p,
        },
    decreases s.len(),
{
    if s.len() > 0 && s[0].path != p {
        lemma_find_entry(s.subrange(1, s.len() as int), p);
        assert forall|j: int| 1 <= j < s.len() implies s.subrange(1, s.len() as int)[j - 1]
            == s[j] by {}
    }
}

proof fn lemma_find_entry_update_other(s: Seq<EntryModel>, i: int, e: EntryModel, q: Seq<char>)
    requires
        0 <= i < s.len(),
        s[i].path == e.path,
        q != e.path,
    ensures
        find_entry(s.update(i, e), q) == find_entry(s, q),
        entry_for(s.update(i, e), q) == entry_for(s, q),
    decreases s.len(),
{
    let t = s.update(i, e);
    if i == 0 {
        assert(t.subrange(1, t.len() as int) =~= s.subrange(1, s.len() as int));
    } else {
        assert(t[0] == s[0]);
        if s[0].path != q {
            assert(t.subrange(1, t.len() as int) =~= s.subrange(1, s.len() as int).update(
                i - 1,
                e,
            ));
            lemma_find_entry_update_other(s.subrange(1, s.len() as int), i - 1, e, q);
        }
    }
    lemma_find_entry(s, q);
    match find_entry(s, q) {
        Some(m) => {
            assert(t[m] == s[m]);
        },
        None => {},
    }
}

proof fn lemma_find_entry_push_other(s: Seq<EntryModel>, e: EntryModel, q: Seq<char>)
    requires
        q != e.path,
    ensures
        find_entry(s.push(e), q) == find_entry(s, q),
        entry_for(s.push(e), q) == entry_for(s, q),
    decreases s.len(),
{
    reveal_with_fuel(find_entry, 2);
    let t = s.push(e);
    if s.len() == 0 {
        assert(t[0] == e);
        assert(t.subrange(1, t.len() as int) =~= Seq::<EntryModel>::empty());
    } else {
        assert(t[0] == s[0]);
        if s[0].path != q {
            assert(t.subrange(1, t.len() as int) =~= s.subrange(1, s.len() as int).push(e));
            lemma_find_entry_push_other(s.subrange(1, s.len() as int), e, q);
        }
    }
    lemma_find_entry(s, q);
    match find_entry(s, q) {
        Some(m) => {
            assert(t[m] == s[m]);
        },
        None => {},
    }
}

proof fn lemma_find_entry_remove_other(s: Seq<EntryModel>, i: int, q: Seq<char>)
    requires
        0 <= i < s.len(),
        s[i].path != q,
    ensures
        entry_for(s.remove(i), q) == entry_for(s, q),
    decreases s.len(),
{
    let t = s.remove(i);
    if i == 0 {
        let sub = s.subrange(1, s.len() as int);
        assert(t =~= sub);
        match find_entry(sub, q) {
            Some(m) => {
                assert(find_entry(s, q) == Some(m + 1));
                lemma_find_entry(sub, q);
                assert(sub[m] == s[m + 1]);
            },
            None => {
                assert(find_entry(s, q) is None);
            },
        }
    } else {
        assert(t[0] == s[0]);
        let ssub = s.subrange(1, s.len() as int);
        let tsub = t.subrange(1, t.len() as int);
        if s[0].path == q {
            assert(find_entry(s, q) == Some(0int));
            assert(find_entry(t, q) == Some(0int));
        } else {
            assert(tsub =~= ssub.remove(i - 1));
            lemma_find_entry_remove_other(ssub, i - 1, q);
            lemma_find_entry(ssub, q);
            lemma_find_entry(tsub, q);
            match find_entry(ssub, q) {
                Some(m) => {
                    assert(find_entry(s, q) == Some(m + 1));
                    assert(s[m + 1] == ssub[m]);
                    match find_entry(tsub, q) {
                        Some(m2) => {
                            assert(find_entry(t, q) == Some(m2 + 1));
                            assert(t[m2 + 1] == tsub[m2]);
                            assert(Some(tsub[m2]) == entry_for(ssub, q));
                        },
                        None => {
                            assert(entry_for(tsub, q) is None);
                            assert(false);
                        },
                    }
                },
                None => {
                    assert(find_entry(s, q) is None);
                    match find_entry(tsub, q) {
                        Some(m2) => {
                            assert(entry_for(tsub, q) is Some);
                            assert(false);
                        },
                        None => {
                            assert(find_entry(t, q) is None);
                        },
                    }
                },
            }
        }
    }
}

/// A filtered sequence keeps a member only if it satisfies the
/// predicate and stood in the original.
proof fn lemma_filter_subset<A>(s: Seq<A>, f: spec_fn(A) -> bool, x: A)
    requires
        s.filter(f).contains(x),
    ensures
        s.contains(x),
        f(x),
    decreases s.len(),
{
    reveal_with_fuel(Seq::filter, 2);
    if s.len() > 0 {
        if s.drop_last().filter(f).contains(x) {
            lemma_filter_subset(s.drop_last(), f, x);
            assert(s.contains(x)) by {
                let w = choose|w: int| 0 <= w < s.drop_last().len() && s.drop_last()[w] == x;
                assert(s[w] == x);
            }
        } else {
            assert(f(s.last()) && x == s.last());
            assert(s[s.len() - 1] == x);
        }
    }
}

/// The predicate keeping entries that do not sit under `prefix`.
pub open spec fn keeps_outside(prefix: Seq<char>) -> spec_fn(EntryModel) -> bool {
    |e: EntryModel| !spec_path_under(e.path, prefix)
}

/// What `entry_for` sees through a filter on entries.
proof fn lemma_entry_for_filter(s: Seq<EntryModel>, f: spec_fn(EntryModel) -> bool, q: Seq<char>)
    requires
        entry_paths_unique(s),
    ensures
        entry_for(s.filter(f), q) == (match entry_for(s, q) {
            Some(e) => if f(e) {
                Some(e)
            } else {
                None
            },
            None => None,
        }),
{
    broadcast use vstd::seq_lib::group_filter_ensures;

    let t = s.filter(f);
    lemma_find_entry(s, q);
    lemma_find_entry(t, q);
    match find_entry(t, q) {
        Some(i) => {
            let e = t[i];
            assert(t.contains(e));
            lemma_filter_subset(s, f, e);
            let w = choose|w: int| 0 <= w < s.len() && s[w] == e;
            match find_entry(s, q) {
                Some(m) => {
                    if m != w {
                        assert(s[m].path == s[w].path);
                        assert(false);
                    }
                },
                None => {
                    assert(s[w].path != q);
                    assert(false);
                },
            }
        },
        None => {
            match find_entry(s, q) {
                Some(m) => {
                    if f(s[m]) {
                        assert(t.contains(s[m]));
                        let w = choose|w: int| 0 <= w < t.len() && t[w] == s[m];
                        assert(t[w].path != q);
                        assert(false);
                    }
                },
                None => {},
            }
        },
    }
}

/// `entry_for` after dropping everything under a prefix.
proof fn lemma_entry_view_after_prefix_filter(s: Seq<EntryModel>, prefix: Seq<char>)
    requires
        entry_paths_unique(s),
    ensures
        forall|q: Seq<char>|
            #[trigger] entry_for(s.filter(keeps_outside(prefix)), q) == (match entry_for(s, q) {
                Some(e) => if spec_path_under(e.path, prefix) {
                    None
                } else {
                    Some(e)
                },
                None => None,
            }),
{
    assert forall|q: Seq<char>| #[trigger] entry_for(s.filter(keeps_outside(prefix)), q) == (
    match entry_for(s, q) {
        Some(e) => if spec_path_under(e.path, prefix) {
            None
        } else {
            Some(e)
        },
        None => None,
    }) by {
        lemma_entry_for_filter(s, keeps_outside(prefix), q);
    }
}

/// The in-flight path cache.
pub struct InFlightCache {
    entries: Vec<CacheEntry>,
}

impl View for InFlightCache {
    type V = Seq<EntryModel>;

    closed spec fn view(&self) -> Seq<EntryModel> {
        self.entries@.map_values(|e: CacheEntry| e@)
    }
}

/// Is the path pending at instant `now`: present and not expired?
pub open spec fn spec_pending(s: Seq<EntryModel>, p: Seq<char>, now: u64) -> bool {
    match entry_for(s, p) {
        Some(e) => now < e.expires_at,
        None => false,
    }
}

/// The deferred rename target of a pending path.
pub open spec fn spec_target(s: Seq<EntryModel>, p: Seq<char>) -> Option<Seq<char>> {
    match entry_for(s, p) {
        Some(e) => e.target,
        None => None,
    }
}

impl InFlightCache {
    /// No two entries share a path.
    pub open spec fn wf(self) -> bool {
        entry_paths_unique(self@)
    }

    /// An empty cache.
    pub fn new() -> (r: InFlightCache)
        ensures
            r@ =~= Seq::<EntryModel>::empty(),
            r.wf(),
    {
        InFlightCache { entries: Vec::new() }
    }

    /// Index of the entry keyed by `path`, if any.
    fn find(&self, path: &str) -> (r: Option<usize>)
        requires
            self.wf(),
        ensures
            match r {
                Some(i) => find_entry(self@, path@) == Some(i as int),
                None => find_entry(self@, path@) is None,
            },
    {
        let n = self.entries.len();
        let mut i: usize = 0;
        while i < n
            invariant
                n == self.entries@.len(),
                0 <= i <= n,
                forall|j: int| 0 <= j < i ==> self@[j].path != path@,
            decreases n - i,
        {
            if str_eq(self.entries[i].path.as_str(), path) {
                proof {
                    assert(self@[i as int].path == path@);
                    lemma_find_entry(self@, path@);
                    match find_entry(self@, path@) {
                        Some(m) => {
                            if m < i {
                                assert(self@[m].path != path@);
                            }
                            if m > i {
                                assert(self@[i as int].path != path@);
                            }
                        },
                        None => {
                            assert(self@[i as int].path != path@);
                        },
                    }
                }
                return Some(i);
            }
            proof {
                assert(self@[i as int].path == self.entries@[i as int].path@);
            }
            i += 1;
        }
        proof {
            lemma_find_entry(self@, path@);
        }
        None
    }

    /// Write the entry for `path`, replacing any present one.
    fn put(&mut self, path: &str, target: Option<String>, now: u64)
        requires
            old(self).wf(),
            now + CACHE_TTL <= u64::MAX,
        ensures
            final(self).wf(),
            entry_for(final(self)@, path@) == Some(
                EntryModel {
                    path: path@,
                    target: opt_str_view(target),
                    expires_at: (now + CACHE_TTL) as u64,
                },
            ),
            forall|q: Seq<char>|
                q != path@ ==> #[trigger] entry_for(final(self)@, q) == entry_for(old(self)@, q),
    {
        let ghost orig: Seq<EntryModel> = self@;
        let ghost rows0: Seq<CacheEntry> = self.entries@;
        let entry = CacheEntry { path: path.to_owned(), target, expires_at: now + CACHE_TTL };
        let ghost em: EntryModel = entry@;
        match self.find(path) {
            Some(i) => {
                proof {
                    lemma_find_entry(orig, path@);
                }
                let _ = self.entries.remove(i);
                let ghost rows1: Seq<CacheEntry> = self.entries@;
                self.entries.insert(i, entry);
                proof {
                    assert forall|m: int| 0 <= m < orig.len() implies self@[m] == orig.update(
                        i as int,
                        em,
                    )[m] by {
                        if m < i {
                            assert(self.entries@[m] == rows0[m]);
                        } else if m == i {
                            assert(self.entries@[m] == entry);
                        } else {
                            assert(self.entries@[m] == rows0[m]);
                        }
                    }
                    assert(self@ =~= orig.update(i as int, em));
                    let t = self@;
                    assert(entry_paths_unique(t)) by {
                        assert forall|x: int, y: int| 0 <= x < y < t.len() implies t[x].path
                            != t[y].path by {
                            if x != i && y != i {
                                assert(t[x] == orig[x] && t[y] == orig[y]);
                            }
                        }
                    }
                    assert(t[i as int] == em);
                    lemma_find_entry(t, path@);
                    match find_entry(t, path@) {
                        Some(i2) => {
                            if i2 != i {
                                assert(t[i2].path == t[i as int].path);
                                assert(false);
                            }
                        },
                        None => {
                            assert(t[i as int].path != path@);
                        },
                    }
                    assert forall|q: Seq<char>| q != path@ implies #[trigger] entry_for(t, q)
                        == entry_for(orig, q) by {
                        lemma_find_entry_update_other(orig, i as int, em, q);
                    }
                }
            },
            None => {
                self.entries.push(entry);
                proof {
                    assert(self@ =~= orig.push(em));
                    let t = self@;
                    lemma_find_entry(orig, path@);
                    assert(entry_paths_unique(t)) by {
                        assert forall|x: int, y: int| 0 <= x < y < t.len() implies t[x].path
                            != t[y].path by {
                            if y == orig.len() {
                                assert(t[x] == orig[x]);
                            }
                        }
                    }
                    assert(t[orig.len() as int] == em);
                    lemma_find_entry(t, path@);
                    match find_entry(t, path@) {
                        Some(i2) => {
                            if i2 != orig.len() as int {
                                assert(t[i2].path == t[orig.len() as int].path);
                                assert(false);
                            }
                        },
                        None => {
                            assert(t[orig.len() as int].path != path@);
                        },
                    }
                    assert forall|q: Seq<char>| q != path@ implies #[trigger] entry_for(t, q)
                        == entry_for(orig, q) by {
                        lemma_find_entry_push_other(orig, em, q);
                    }
                }
            },
        }
    }

    /// Mark a path as being indexed: no deferred rename, fresh TTL.
    pub fn mark_pending(&mut self, path: &str, now: u64)
        requires
            old(self).wf(),
            now + CACHE_TTL <= u64::MAX,
        ensures
            final(self).wf(),
            entry_for(final(self)@, path@) == Some(
                EntryModel { path: path@, target: None, expires_at: (now + CACHE_TTL) as u64 },
            ),
            spec_pending(final(self)@, path@, now),
            spec_target(final(self)@, path@) is None,
            forall|q: Seq<char>|
                q != path@ ==> #[trigger] entry_for(final(self)@, q) == entry_for(old(self)@, q),
    {
        self.put(path, None, now);
    }

    /// Park a rename on a pending path, to be honoured when its
    /// batch is persisted; refreshes the TTL.
    pub fn defer_rename(&mut self, old_path: &str, new_path: &str, now: u64)
        requires
            old(self).wf(),
            now + CACHE_TTL <= u64::MAX,
        ensures
            final(self).wf(),
            entry_for(final(self)@, old_path@) == Some(
                EntryModel {
                    path: old_path@,
                    target: Some(new_path@),
                    expires_at: (now + CACHE_TTL) as u64,
                },
            ),
            spec_pending(final(self)@, old_path@, now),
            spec_target(final(self)@, old_path@) == Some(new_path@),
            forall|q: Seq<char>|
                q != old_path@ ==> #[trigger] entry_for(final(self)@, q) == entry_for(
                    old(self)@,
                    q,
                ),
    {
        self.put(old_path, Some(new_path.to_owned()), now);
    }

    /// Is the path pending at instant `now`?
    pub fn contains(&self, path: &str, now: u64) -> (r: bool)
        requires
            self.wf(),
        ensures
            r == spec_pending(self@, path@, now),
    {
        match self.find(path) {
            Some(i) => {
                proof {
                    lemma_find_entry(self@, path@);
                }
                now < self.entries[i].expires_at
            },
            None => false,
        }
    }

    /// The entry for a pending path: its deferred rename target, or
    /// `None` inside `Some` when none was parked. `None` when the
    /// path is not pending at `now`.
    pub fn get(&self, path: &str, now: u64) -> (r: Option<Option<String>>)
        requires
            self.wf(),
        ensures
            r is Some <==> spec_pending(self@, path@, now),
            r matches Some(t) ==> opt_str_view(t) == spec_target(self@, path@),
    {
        match self.find(path) {
            Some(i) => {
                proof {
                    lemma_find_entry(self@, path@);
                }
                if now < self.entries[i].expires_at {
                    let t: Option<String> = match &self.entries[i].target {
                        Some(s) => Some(s.clone()),
                        None => None,
                    };
                    Some(t)
                } else {
                    None
                }
            },
            None => None,
        }
    }

    /// Drop the entry for `path`, pending or not.
    pub fn invalidate(&mut self, path: &str)
        requires
            old(self).wf(),
        ensures
            final(self).wf(),
            entry_for(final(self)@, path@) is None,
            forall|q: Seq<char>|
                q != path@ ==> #[trigger] entry_for(final(self)@, q) == entry_for(old(self)@, q),
    {
        let ghost orig: Seq<EntryModel> = self@;
        let ghost rows0: Seq<CacheEntry> = self.entries@;
        match self.find(path) {
            Some(i) => {
                proof {
                    lemma_find_entry(orig, path@);
                }
                let _ = self.entries.remove(i);
                proof {
                    assert forall|m: int| 0 <= m < orig.len() - 1 implies self@[m] == orig.remove(
                        i as int,
                    )[m] by {
                        if m >= i {
                            assert(self.entries@[m] == rows0[m + 1]);
                        }
                    }
                    assert(self@ =~= orig.remove(i as int));
                    let t = self@;
                    assert(entry_paths_unique(t)) by {
                        assert forall|x: int, y: int| 0 <= x < y < t.len() implies t[x].path
                            != t[y].path by {
                            if y < i as int {
                                assert(t[x] == orig[x] && t[y] == orig[y]);
                            } else if x < i as int {
                                assert(t[x] == orig[x] && t[y] == orig[y + 1]);
                            } else {
                                assert(t[x] == orig[x + 1] && t[y] == orig[y + 1]);
                            }
                        }
                    }
                    lemma_find_entry(t, path@);
                    match find_entry(t, path@) {
                        Some(m) => {
                            let s: int = if m < i {
                                m
                            } else {
                                m + 1
                            };
                            assert(orig[s].path == path@);
                            assert(s != i);
                            assert(false);
                        },
                        None => {},
                    }
                    assert forall|q: Seq<char>| q != path@ implies #[trigger] entry_for(t, q)
                        == entry_for(orig, q) by {
                        lemma_find_entry_remove_other(orig, i as int, q);
                    }
                }
            },
            None => {
                proof {
                    lemma_find_entry(orig, path@);
                }
            },
        }
    }

    /// Drop every entry whose path is, or lies under, `prefix`.
    #[verifier::loop_isolation(false)]
    #[verifier::rlimit(50)]
    pub fn invalidate_prefix(&mut self, prefix: &str)
        requires
            old(self).wf(),
        ensures
            final(self).wf(),
            forall|q: Seq<char>|
                #[trigger] entry_for(final(self)@, q) == (match entry_for(old(self)@, q) {
                    Some(e) => if spec_path_under(e.path, prefix@) {
                        None
                    } else {
                        Some(e)
                    },
                    None => None,
                }),
    {
        let ghost orig: Seq<EntryModel> = self@;
        let ghost keep = keeps_outside(prefix@);
        let mut i: usize = 0;
        let ghost mut j: int = 0;
        while i < self.entries.len()
            invariant
                0 <= j <= orig.len(),
                j == i + (orig.len() - self@.len()),
                i as int == orig.subrange(0, j).filter(keep).len(),
                self@ =~= orig.subrange(0, j).filter(keep) + orig.subrange(j, orig.len() as int),
                self.wf(),
            decreases self.entries@.len() - i,
        {
            let ghost before: Seq<EntryModel> = self@;
            let ghost rows0: Seq<CacheEntry> = self.entries@;
            proof {
                assert(before[i as int] == orig[j]);
                assert(before[i as int] == rows0[i as int]@);
                assert(orig.subrange(0, j + 1) =~= orig.subrange(0, j) + seq![orig[j]]);
                Seq::filter_distributes_over_add(orig.subrange(0, j), seq![orig[j]], keep);
                crate::store::lemma_filter_one(orig[j], keep);
            }
            if path_under(self.entries[i].path.as_str(), prefix) {
                let _ = self.entries.remove(i);
                proof {
                    assert(!keep(orig[j]));
                    assert(seq![orig[j]].filter(keep) =~= Seq::<EntryModel>::empty());
                    assert forall|m: int| 0 <= m < before.len() - 1 implies self@[m]
                        == before.remove(i as int)[m] by {
                        if m >= i {
                            assert(self.entries@[m] == rows0[m + 1]);
                        }
                    }
                    assert(self@ =~= before.remove(i as int));
                    assert(self@ =~= orig.subrange(0, j + 1).filter(keep) + orig.subrange(
                        j + 1,
                        orig.len() as int,
                    ));
                    assert(entry_paths_unique(self@)) by {
                        assert forall|x: int, y: int| 0 <= x < y < self@.len() implies self@[x].path
                            != self@[y].path by {
                            if y < i as int {
                                assert(self@[x] == before[x] && self@[y] == before[y]);
                            } else if x < i as int {
                                assert(self@[x] == before[x] && self@[y] == before[y + 1]);
                            } else {
                                assert(self@[x] == before[x + 1] && self@[y] == before[y + 1]);
                            }
                        }
                    }
                }
            } else {
                i += 1;
                proof {
                    assert(keep(orig[j]));
                    assert(seq![orig[j]].filter(keep) =~= seq![orig[j]]);
                    assert(self@ =~= orig.subrange(0, j + 1).filter(keep) + orig.subrange(
                        j + 1,
                        orig.len() as int,
                    ));
                }
            }
            proof {
                j = j + 1;
            }
        }
        proof {
            assert(orig.subrange(0, orig.len() as int) =~= orig);
            assert(orig.subrange(orig.len() as int, orig.len() as int) =~= Seq::<
                EntryModel,
            >::empty());
            assert(self@ =~= orig.filter(keep));
            lemma_entry_view_after_prefix_filter(orig, prefix@);
        }
    }
}

} // verus!
