//! The release pool: an idempotent fetch-audit record and an upsert
//! store of selected releases, with read-only aggregate statistics.

use vstd::prelude::*;
use crate::{Error, Torrent, Type};
use crate::normalize::{GroupData, group_data_parses, transform_groups};
use crate::select::{chosen, qualifies, select_variant, lemma_chosen_minimal};

verus! {

/// Audit record of one fetch, keyed by catalog id and kind.
#[derive(Debug)]
pub struct FetchRecord {
    pub source_id: u32,
    pub source_type: Type,
    pub name: String,
}

/// No two releases share an id.
pub open spec fn unique_ids(s: Seq<Torrent>) -> bool {
    forall|i: int, j: int| 0 <= i < j < s.len() ==> (#[trigger] s[i]).id != (#[trigger] s[j]).id
}

/// Every stored release satisfies the variant-selection filter.
pub open spec fn all_qualify(s: Seq<Torrent>) -> bool {
    forall|i: int| 0 <= i < s.len() ==> qualifies(#[trigger] s[i])
}

/// No two fetch records share a (source id, source kind) key.
pub open spec fn unique_fetch_keys(s: Seq<FetchRecord>) -> bool {
    forall|i: int, j: int|
        0 <= i < j < s.len() ==> !((#[trigger] s[i]).source_id == (#[trigger] s[j]).source_id
            && s[i].source_type == s[j].source_type)
}

/// Some release in the pool carries this id.
pub open spec fn has_id(s: Seq<Torrent>, id: u32) -> bool {
    exists|i: int| 0 <= i < s.len() && (#[trigger] s[i]).id == id
}

/// The index of the release carrying this id.
pub open spec fn idx_of_id(s: Seq<Torrent>, id: u32) -> int {
    choose|i: int| 0 <= i < s.len() && (#[trigger] s[i]).id == id
}

/// The pool after upserting one release: a full replacement of the row
/// with its id, or an append when the id is new.
pub open spec fn upsert_one(s: Seq<Torrent>, t: Torrent) -> Seq<Torrent> {
    if has_id(s, t.id) {
        s.update(idx_of_id(s, t.id), t)
    } else {
        s.push(t)
    }
}

/// The pool after upserting each release in order.
pub open spec fn upsert_all(s: Seq<Torrent>, rs: Seq<Torrent>) -> Seq<Torrent>
    decreases rs.len(),
{
    if rs.len() == 0 {
        s
    } else {
        upsert_one(upsert_all(s, rs.drop_last()), rs.last())
    }
}

/// A fetch was recorded if its key was absent, and nothing changed if
/// it was present.
pub open spec fn fetch_recorded(
    old_f: Seq<FetchRecord>,
    new_f: Seq<FetchRecord>,
    id: u32,
    ty: Type,
    name: Seq<char>,
) -> bool {
    if has_fetch(old_f, id, ty) {
        new_f == old_f
    } else {
        &&& new_f.len() == old_f.len() + 1
        &&& new_f.drop_last() == old_f
        &&& new_f.last().source_id == id
        &&& new_f.last().source_type == ty
        &&& new_f.last().name@ == name
    }
}

/// Some fetch record carries this key.
pub open spec fn has_fetch(s: Seq<FetchRecord>, id: u32, ty: Type) -> bool {
    exists|i: int|
        0 <= i < s.len() && (#[trigger] s[i]).source_id == id && s[i].source_type == ty
}

/// Upserting one release keeps ids unique and the filter invariant,
/// stores exactly that release under its id, and touches no other row.
pub proof fn lemma_upsert_one_wf(s: Seq<Torrent>, t: Torrent)
    requires
        unique_ids(s),
        all_qualify(s),
        qualifies(t),
    ensures
        unique_ids(upsert_one(s, t)),
        all_qualify(upsert_one(s, t)),
        has_id(upsert_one(s, t), t.id),
        forall|id: u32| #[trigger] has_id(upsert_one(s, t), id) <==> (has_id(s, id) || id == t.id),
{
    let r = upsert_one(s, t);
    if has_id(s, t.id) {
        let i = idx_of_id(s, t.id);
        assert(0 <= i < s.len() && s[i].id == t.id);
        assert(forall|k: int| 0 <= k < r.len() && k != i ==> r[k] == s[k]);
        assert(r[i] == t);
        assert forall|id: u32| #[trigger] has_id(r, id) implies (has_id(s, id) || id == t.id) by {
            let k = choose|k: int| 0 <= k < r.len() && (#[trigger] r[k]).id == id;
            if k != i {
                assert(s[k].id == id);
            }
        }
        assert forall|id: u32| has_id(s, id) || id == t.id implies #[trigger] has_id(r, id) by {
            if id == t.id {
                assert(r[i].id == id);
            } else {
                let k = choose|k: int| 0 <= k < s.len() && (#[trigger] s[k]).id == id;
                assert(k != i);
                assert(r[k].id == id);
            }
        }
    } else {
        assert(r == s.push(t));
        assert(r[r.len() - 1] == t);
        assert forall|id: u32| #[trigger] has_id(r, id) implies (has_id(s, id) || id == t.id) by {
            let k = choose|k: int| 0 <= k < r.len() && (#[trigger] r[k]).id == id;
            if k < s.len() {
                assert(s[k].id == id);
            }
        }
        assert forall|id: u32| has_id(s, id) || id == t.id implies #[trigger] has_id(r, id) by {
            if id == t.id {
                assert(r[r.len() - 1].id == id);
            } else {
                let k = choose|k: int| 0 <= k < s.len() && (#[trigger] s[k]).id == id;
                assert(r[k].id == id);
            }
        }
    }
}

/// Upserting the same release twice leaves the pool exactly as one
/// upsert leaves it, though each upsert reports a write.
pub proof fn lemma_upsert_idempotent(s: Seq<Torrent>, t: Torrent)
    requires
        unique_ids(s),
    ensures
        upsert_one(upsert_one(s, t), t) == upsert_one(s, t),
{
    let s1 = upsert_one(s, t);
    if has_id(s, t.id) {
        let i = idx_of_id(s, t.id);
        assert(0 <= i < s.len() && s[i].id == t.id);
        assert(s1 == s.update(i, t));
        assert(s1[i].id == t.id);
        assert(has_id(s1, t.id));
        let j = idx_of_id(s1, t.id);
        assert(0 <= j < s1.len() && s1[j].id == t.id);
        if j != i {
            assert(s1[j] == s[j]);
            assert(s[j].id == t.id && s[i].id == t.id);
            assert(false);
        }
        assert(upsert_one(s1, t) == s1.update(i, t));
        assert(s1.update(i, t) =~= s1);
    } else {
        assert(s1 == s.push(t));
        assert(s1[s.len() as int].id == t.id);
        assert(has_id(s1, t.id));
        let j = idx_of_id(s1, t.id);
        assert(0 <= j < s1.len() && s1[j].id == t.id);
        if j < s.len() {
            assert(s[j].id == t.id);
            assert(false);
        }
        assert(upsert_one(s1, t) == s1.update(s.len() as int, t));
        assert(s1.update(s.len() as int, t) =~= s1);
    }
}

/// The release pool and its fetch audit, as one store.
#[derive(Debug)]
pub struct Database {
    releases: Vec<Torrent>,
    fetches: Vec<FetchRecord>,
}

impl Database {
    /// The releases the store holds, in insertion order.
    pub closed spec fn releases_view(self) -> Seq<Torrent> {
        self.releases@
    }

    /// The fetch audit records the store holds, in insertion order.
    pub closed spec fn fetches_view(self) -> Seq<FetchRecord> {
        self.fetches@
    }

    /// The store's invariant: ids and fetch keys are unique, and every
    /// stored release satisfies the variant-selection filter.
    pub open spec fn wf(self) -> bool {
        &&& unique_ids(self.releases_view())
        &&& all_qualify(self.releases_view())
        &&& unique_fetch_keys(self.fetches_view())
    }

    /// An empty store. Opening a store is idempotent: there is nothing
    /// to create beyond the empty tables.
    pub fn new() -> (r: Self)
        ensures
            r.wf(),
            r.releases_view() == Seq::<Torrent>::empty(),
            r.fetches_view() == Seq::<FetchRecord>::empty(),
    {
        Database { releases: Vec::new(), fetches: Vec::new() }
    }

    /// Record that a catalog id of a given kind was fetched; a repeat
    /// key changes nothing. Returns whether the fetch was new. The
    /// record is informational: processing continues either way.
    pub fn record_fetch(&mut self, source_id: u32, source_type: Type, name: String) -> (r: bool)
        requires
            old(self).wf(),
        ensures
            final(self).wf(),
            final(self).releases_view() == old(self).releases_view(),
            r == !has_fetch(old(self).fetches_view(), source_id, source_type),
            fetch_recorded(
                old(self).fetches_view(),
                final(self).fetches_view(),
                source_id,
                source_type,
                name@,
            ),
    {
        let n = self.fetches.len();
        let mut i: usize = 0;
        while i < n
            invariant
                old(self).wf(),
                *self == *old(self),
                n == self.fetches@.len(),
                0 <= i <= n,
                forall|k: int|
                    0 <= k < i ==> !((#[trigger] self.fetches@[k]).source_id == source_id
                        && self.fetches@[k].source_type == source_type),
            decreases n - i,
        {
            let f = &self.fetches[i];
            if f.source_id == source_id && f.source_type == source_type {
                assert(has_fetch(self.fetches@, source_id, source_type));
                return false;
            }
            i += 1;
        }
        assert(!has_fetch(self.fetches@, source_id, source_type));
        let rec = FetchRecord { source_id, source_type, name };
        self.fetches.push(rec);
        proof {
            assert(self.fetches@.drop_last() =~= old(self).fetches@);
        }
        true
    }

    /// Upsert one qualifying release into the pool.
    fn upsert_single(&mut self, t: Torrent)
        requires
            old(self).wf(),
            qualifies(t),
        ensures
            final(self).wf(),
            final(self).releases_view() == upsert_one(old(self).releases_view(), t),
            final(self).fetches_view() == old(self).fetches_view(),
    {
        let ghost s = self.releases@;
        let n = self.releases.len();
        let mut i: usize = 0;
        while i < n
            invariant
                old(self).wf(),
                qualifies(t),
                *self == *old(self),
                s == self.releases@,
                n == s.len(),
                0 <= i <= n,
                forall|k: int| 0 <= k < i ==> (#[trigger] s[k]).id != t.id,
            decreases n - i,
        {
            if self.releases[i].id == t.id {
                proof {
                    assert(s[i as int].id == t.id);
                    assert(has_id(s, t.id));
                    let j = idx_of_id(s, t.id);
                    if j != i as int {
                        assert(s[j].id == t.id && s[i as int].id == t.id);
                        assert(false);
                    }
                }
                self.releases.remove(i);
                self.releases.insert(i, t);
                proof {
                    assert(self.releases@ =~= s.update(i as int, t));
                    lemma_upsert_one_wf(s, t);
                }
                return ;
            }
            i += 1;
        }
        proof {
            assert(!has_id(s, t.id));
        }
        self.releases.push(t);
        proof {
            lemma_upsert_one_wf(s, t);
        }
    }

    /// Upsert a batch of qualifying releases, in order, replacing any
    /// stored row with the same id. Returns the number of writes,
    /// which counts a replacement by identical content like any other
    /// write: one per release handed in.
    pub fn upsert_releases(&mut self, releases: &Vec<Torrent>) -> (count: u32)
        requires
            old(self).wf(),
            all_qualify(releases@),
            releases@.len() <= u32::MAX,
        ensures
            final(self).wf(),
            final(self).releases_view() == upsert_all(old(self).releases_view(), releases@),
            final(self).fetches_view() == old(self).fetches_view(),
            count == releases@.len(),
    {
        let n = releases.len();
        let mut i: usize = 0;
        while i < n
            invariant
                all_qualify(releases@),
                n == releases@.len() <= u32::MAX,
                0 <= i <= n,
                old(self).wf(),
                self.wf(),
                self.releases_view() == upsert_all(
                    old(self).releases_view(),
                    releases@.take(i as int),
                ),
                self.fetches_view() == old(self).fetches_view(),
            decreases n - i,
        {
            proof {
                assert(releases@.take(i + 1).drop_last() =~= releases@.take(i as int));
                assert(releases@.take(i + 1).last() == releases@[i as int]);
                assert(qualifies(releases@[i as int]));
            }
            let t = releases[i].clone();
            self.upsert_single(t);
            i += 1;
        }
        proof {
            assert(releases@.take(n as int) =~= releases@);
        }
        n as u32
    }
}

/// The releases selected from each work, in work order: the chosen
/// variant of every work that has one.
pub open spec fn chosen_seq(works: Seq<Vec<Torrent>>) -> Seq<Torrent>
    decreases works.len(),
{
    if works.len() == 0 {
        Seq::empty()
    } else {
        chosen_seq(works.drop_last()) + (match chosen(works.last()@) {
            Some(t) => seq![t],
            None => Seq::empty(),
        })
    }
}

/// How many works yield a chosen release.
pub open spec fn works_len(gd: GroupData) -> int {
    match gd {
        GroupData::CollageData(c) => c.torrent_groups@.len() as int,
        GroupData::ArtistData(a) => a.torrent_groups@.len() as int,
    }
}

impl Database {
    /// Process one fetched payload: record the fetch (informational),
    /// normalize the payload into works, select at most one variant
    /// per work, and upsert the selections. Returns the write count.
    /// A malformed numeric field aborts with a parse error before any
    /// release is written; the fetch record stays either way.
    pub fn store_data(&mut self, group_data: &GroupData, weight: u32) -> (r: Result<u32, Error>)
        requires
            old(self).wf(),
            works_len(*group_data) <= u32::MAX,
        ensures
            final(self).wf(),
            fetch_recorded(
                old(self).fetches_view(),
                final(self).fetches_view(),
                group_data.spec_source_id(),
    group_data.spec_source_type(),
                group_data.spec_source_name(),
            ),
            (r is Ok) <==> group_data_parses(*group_data),
            r is Err ==> r->Err_0 is Parse && final(self).releases_view() == old(
                self,
            ).releases_view(),
            r is Ok ==> exists|ws: Seq<Vec<Torrent>>|
                {
                    &&& #[trigger] crate::normalize::transformed(*group_data, ws, weight)
                    &&& final(self).releases_view() == upsert_all(
                        old(self).releases_view(),
                        chosen_seq(ws),
                    )
                    &&& r->Ok_0 == chosen_seq(ws).len()
                },
    {
        let name = group_data.source_name().clone();
        let ty = group_data.source_type();
        self.record_fetch(group_data.source_id(), ty, name);
        let works = match transform_groups(group_data, weight) {
            Ok(ws) => ws,
            Err(e) => {
                return Err(e);
            },
        };
        proof {
            assert(works@.len() == works_len(*group_data));
        }
        let mut selected: Vec<Torrent> = Vec::new();
        let mut i: usize = 0;
        while i < works.len()
            invariant
                0 <= i <= works@.len(),
                selected@ == chosen_seq(works@.take(i as int)),
                all_qualify(selected@),
                selected@.len() <= i,
            decreases works@.len() - i,
        {
            proof {
                assert(works@.take(i + 1).drop_last() =~= works@.take(i as int));
                assert(works@.take(i + 1).last() == works@[i as int]);
            }
            match select_variant(&works[i]) {
                Some(t) => {
                    proof {
                        lemma_chosen_minimal(works@[i as int]@);
                        assert(qualifies(t));
                    }
                    selected.push(t);
                    assert(selected@ =~= chosen_seq(works@.take(i + 1)));
                },
                None => {
                    assert(selected@ =~= chosen_seq(works@.take(i + 1)));
                },
            }
            i += 1;
        }
        proof {
            assert(works@.take(works@.len() as int) =~= works@);
        }
        let count = self.upsert_releases(&selected);
        Ok(count)
    }

    /// Aggregate statistics of the pool: the total, distinct artist
    /// and album counts, and the format histogram sorted by count
    /// descending, ties in first-encountered order.
    pub fn get_stats(&self) -> (r: crate::stats::DatabaseStats)
        ensures
            r.total_torrents == self.releases_view().len(),
            r.unique_artists as int == crate::stats::distinct_count(
                crate::stats::artist_views(self.releases_view()),
            ),
            r.unique_albums as int == crate::stats::distinct_count(
                crate::stats::album_views(self.releases_view()),
            ),
            crate::stats::pairs_view(r.format_counts@) == crate::stats::sort_desc(
                crate::stats::hist(self.releases_view()),
            ),
    {
        crate::stats::compute_stats(&self.releases)
    }

    /// A read-only snapshot of the whole pool, in insertion order.
    pub fn all_releases(&self) -> (r: Vec<Torrent>)
        ensures
            r@ == self.releases_view(),
    {
        let mut r: Vec<Torrent> = Vec::new();
        let mut i: usize = 0;
        while i < self.releases.len()
            invariant
                0 <= i <= self.releases@.len(),
                r@ == self.releases@.take(i as int),
            decreases self.releases@.len() - i,
        {
            r.push(self.releases[i].clone());
            proof {
                assert(r@ =~= self.releases@.take(i + 1));
            }
            i += 1;
        }
        proof {
            assert(self.releases@.take(self.releases@.len() as int) =~= self.releases@);
        }
        r
    }
}

} // verus!
