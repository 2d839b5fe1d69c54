//! Priority selection over the post-dedup pool: a weight-stratified
//! shuffle-and-rank ordering, a direct cut to the requested count, and
//! the sequential freeload probe that collects at most the requested
//! count of freeload releases.

use vstd::prelude::*;
use vstd::multiset::Multiset;
use rand::seq::SliceRandom;
use crate::Torrent;

verus! {

broadcast use vstd::seq_lib::group_to_multiset_ensures;

/// Weights never increase along the sequence.
pub open spec fn weights_sorted_desc(s: Seq<Torrent>) -> bool {
    forall|i: int, j: int|
        0 <= i < j < s.len() ==> (#[trigger] s[i]).weight >= (#[trigger] s[j]).weight
}

/// All the releases the groups hold, as one multiset.
pub open spec fn groups_ms(gs: Seq<Vec<Torrent>>) -> Multiset<Torrent>
    decreases gs.len(),
{
    if gs.len() == 0 {
        Multiset::empty()
    } else {
        groups_ms(gs.drop_last()).add(gs.last()@.to_multiset())
    }
}

/// Every release of every group carries its group's key as weight.
pub open spec fn groups_keyed(keys: Seq<u32>, gs: Seq<Vec<Torrent>>) -> bool {
    forall|k: int, j: int|
        0 <= k < gs.len() && 0 <= j < gs[k]@.len() ==> ((#[trigger] gs[k]@[j]).weight == keys[k])
}

/// Keys strictly decrease along the sequence.
pub open spec fn keys_sorted_desc(keys: Seq<u32>) -> bool {
    forall|i: int, j: int| 0 <= i < j < keys.len() ==> (#[trigger] keys[i]) > (#[trigger] keys[j])
}

/// Replacing one group by a group holding one more release adds that
/// release to the total.
proof fn lemma_groups_ms_push(olds: Seq<Vec<Torrent>>, news: Seq<Vec<Torrent>>, k: int, t: Torrent)
    requires
        0 <= k < olds.len(),
        news.len() == olds.len(),
        forall|m: int| 0 <= m < olds.len() && m != k ==> news[m] == olds[m],
        news[k]@ == olds[k]@.push(t),
    ensures
        groups_ms(news) == groups_ms(olds).insert(t),
    decreases olds.len(),
{
    if k == olds.len() - 1 {
        assert(news.drop_last() =~= olds.drop_last());
        assert(news.last()@.to_multiset() =~= olds.last()@.to_multiset().insert(t));
        assert(groups_ms(news) =~= groups_ms(olds).insert(t));
    } else {
        lemma_groups_ms_push(olds.drop_last(), news.drop_last(), k, t);
        assert(news.last() == olds.last());
        assert(groups_ms(news) =~= groups_ms(olds).insert(t));
    }
}

/// Replacing one group by a group holding the same releases keeps the
/// total.
proof fn lemma_groups_ms_same(olds: Seq<Vec<Torrent>>, news: Seq<Vec<Torrent>>, k: int)
    requires
        0 <= k < olds.len(),
        news.len() == olds.len(),
        forall|m: int| 0 <= m < olds.len() && m != k ==> news[m] == olds[m],
        news[k]@.to_multiset() == olds[k]@.to_multiset(),
    ensures
        groups_ms(news) == groups_ms(olds),
    decreases olds.len(),
{
    if k == olds.len() - 1 {
        assert(news.drop_last() =~= olds.drop_last());
        assert(groups_ms(news) =~= groups_ms(olds));
    } else {
        lemma_groups_ms_same(olds.drop_last(), news.drop_last(), k);
        assert(news.last() == olds.last());
        assert(groups_ms(news) =~= groups_ms(olds));
    }
}

/// Inserting a group adds its releases to the total.
proof fn lemma_groups_ms_insert(olds: Seq<Vec<Torrent>>, m: int, g: Vec<Torrent>)
    requires
        0 <= m <= olds.len(),
    ensures
        groups_ms(olds.insert(m, g)) == groups_ms(olds).add(g@.to_multiset()),
    decreases olds.len(),
{
    let news = olds.insert(m, g);
    if m == olds.len() {
        assert(news.drop_last() =~= olds);
        assert(news.last() == g);
        assert(groups_ms(news) =~= groups_ms(olds).add(g@.to_multiset()));
    } else {
        assert(news.len() == olds.len() + 1);
        assert(news.last() == olds.last());
        assert(news.drop_last() =~= olds.drop_last().insert(m, g));
        lemma_groups_ms_insert(olds.drop_last(), m, g);
        assert(groups_ms(news) =~= groups_ms(olds).add(g@.to_multiset()));
    }
}

/// Relies on rand's SliceRandom::shuffle: it permutes the slice in
/// place; which permutation comes out depends on the thread-local
/// generator, so only the preserved contents are stated.
#[verifier::external_body]
fn shuffle_torrents(v: &mut Vec<Torrent>)
    ensures
        final(v)@.to_multiset() == old(v)@.to_multiset(),
{
    v.shuffle(&mut rand::rng());
}

/// Group the pool by weight, keys kept strictly descending: each
/// release joins the group of its weight, and the groups partition the
/// pool.
fn group_by_weight(pool: &Vec<Torrent>) -> (r: (Vec<u32>, Vec<Vec<Torrent>>))
    ensures
        r.0@.len() == r.1@.len(),
        keys_sorted_desc(r.0@),
        groups_keyed(r.0@, r.1@),
        groups_ms(r.1@) == pool@.to_multiset(),
{
    let mut keys: Vec<u32> = Vec::new();
    let mut groups: Vec<Vec<Torrent>> = Vec::new();
    let mut i: usize = 0;
    while i < pool.len()
        invariant
            0 <= i <= pool@.len(),
            keys@.len() == groups@.len(),
            keys_sorted_desc(keys@),
            groups_keyed(keys@, groups@),
            groups_ms(groups@) == pool@.take(i as int).to_multiset(),
        decreases pool@.len() - i,
    {
        let t = pool[i].clone();
        let w = t.weight;
        proof {
            assert(pool@.take(i + 1).drop_last() =~= pool@.take(i as int));
            assert(pool@.take(i + 1) =~= pool@.take(i as int).push(pool@[i as int]));
        }
        let mut k: usize = 0;
        while k < keys.len()
            invariant
                keys@.len() == groups@.len(),
                keys_sorted_desc(keys@),
                0 <= k <= keys@.len(),
                forall|m: int| 0 <= m < k ==> (#[trigger] keys@[m]) > w,
            ensures
                0 <= k <= keys@.len(),
                forall|m: int| 0 <= m < k ==> (#[trigger] keys@[m]) > w,
                k == keys@.len() || keys@[k as int] <= w,
            decreases keys@.len() - k,
        {
            if keys[k] <= w {
                break ;
            }
            k += 1;
        }
        if k < keys.len() && keys[k] == w {
            // extend the existing group of this weight
            let ghost olds = groups@;
            let mut g = groups.remove(k);
            g.push(t);
            groups.insert(k, g);
            proof {
                assert(groups@ =~= olds.update(k as int, groups@[k as int]));
                assert(groups@[k as int]@ == olds[k as int]@.push(pool@[i as int]));
                lemma_groups_ms_push(olds, groups@, k as int, pool@[i as int]);
            }
        } else {
            // open a new group at the position that keeps keys descending
            let ghost olds = groups@;
            let ghost oldk = keys@;
            let mut g: Vec<Torrent> = Vec::new();
            g.push(t);
            keys.insert(k, w);
            groups.insert(k, g);
            proof {
                assert(g@ =~= Seq::<Torrent>::empty().push(pool@[i as int]));
                assert(g@.to_multiset() =~= Multiset::<Torrent>::empty().insert(pool@[i as int]));
                lemma_groups_ms_insert(olds, k as int, g);
                assert(groups_ms(groups@) =~= pool@.take(i + 1).to_multiset());
                assert(forall|m: int|
                    0 <= m < oldk.len() && m >= k ==> oldk[m] < w && #[trigger] keys@[m + 1]
                        == oldk[m]);
                assert(keys_sorted_desc(keys@));
            }
        }
        i += 1;
    }
    proof {
        assert(pool@.take(pool@.len() as int) =~= pool@);
    }
    (keys, groups)
}

/// Concatenate the groups in key order: the result holds exactly the
/// grouped releases, weights descending.
fn flatten_groups(keys: &Vec<u32>, groups: &Vec<Vec<Torrent>>) -> (r: Vec<Torrent>)
    requires
        keys@.len() == groups@.len(),
        keys_sorted_desc(keys@),
        groups_keyed(keys@, groups@),
    ensures
        r@.to_multiset() == groups_ms(groups@),
        weights_sorted_desc(r@),
{
    let mut r: Vec<Torrent> = Vec::new();
    let mut k: usize = 0;
    while k < groups.len()
        invariant
            keys@.len() == groups@.len(),
            keys_sorted_desc(keys@),
            groups_keyed(keys@, groups@),
            0 <= k <= groups@.len(),
            r@.to_multiset() == groups_ms(groups@.take(k as int)),
            weights_sorted_desc(r@),
            forall|a: int, m: int|
                0 <= a < r@.len() && k <= m < keys@.len() ==> (#[trigger] r@[a]).weight
                    >= (#[trigger] keys@[m]),
        decreases groups@.len() - k,
    {
        let g = &groups[k];
        let mut j: usize = 0;
        while j < g.len()
            invariant
                keys@.len() == groups@.len(),
                keys_sorted_desc(keys@),
                groups_keyed(keys@, groups@),
                0 <= k < groups@.len(),
                g == &groups@[k as int],
                0 <= j <= g@.len(),
                r@.to_multiset() == groups_ms(groups@.take(k as int)).add(
                    g@.take(j as int).to_multiset(),
                ),
                weights_sorted_desc(r@),
                forall|a: int, m: int|
                    0 <= a < r@.len() && k < m < keys@.len() ==> (#[trigger] r@[a]).weight
                        >= (#[trigger] keys@[m]),
                forall|a: int|
                    0 <= a < r@.len() ==> (#[trigger] r@[a]).weight >= keys@[k as int],
            decreases g@.len() - j,
        {
            r.push(g[j].clone());
            proof {
                assert(g@.take(j + 1) =~= g@.take(j as int).push(g@[j as int]));
                assert(g@[j as int].weight == keys@[k as int]);
                assert(r@.to_multiset() =~= groups_ms(groups@.take(k as int)).add(
                    g@.take(j + 1).to_multiset(),
                ));
            }
            j += 1;
        }
        proof {
            assert(g@.take(g@.len() as int) =~= g@);
            assert(groups@.take(k + 1).drop_last() =~= groups@.take(k as int));
            assert(groups@.take(k + 1).last() == groups@[k as int]);
            assert(r@.to_multiset() =~= groups_ms(groups@.take(k + 1)));
        }
        k += 1;
    }
    proof {
        assert(groups@.take(groups@.len() as int) =~= groups@);
    }
    r
}

/// Order the pool for downloading: group by weight, shuffle within
/// each weight group, and concatenate the groups by weight descending.
/// The result is a permutation of the pool with weights descending;
/// the order among equal weights is whatever the shuffle produced.
pub fn prioritize_pool(pool: &Vec<Torrent>) -> (r: Vec<Torrent>)
    ensures
        r@.to_multiset() == pool@.to_multiset(),
        weights_sorted_desc(r@),
{
    let (keys, mut groups) = group_by_weight(pool);
    let mut k: usize = 0;
    while k < groups.len()
        invariant
            keys@.len() == groups@.len(),
            keys_sorted_desc(keys@),
            groups_keyed(keys@, groups@),
            groups_ms(groups@) == pool@.to_multiset(),
            0 <= k <= groups@.len(),
        decreases groups@.len() - k,
    {
        let ghost olds = groups@;
        let mut g = groups.remove(k);
        shuffle_torrents(&mut g);
        groups.insert(k, g);
        proof {
            assert(groups@ =~= olds.update(k as int, groups@[k as int]));
            lemma_groups_ms_same(olds, groups@, k as int);
            assert forall|j: int| 0 <= j < groups@[k as int]@.len() implies (
            #[trigger] groups@[k as int]@[j]).weight == keys@[k as int] by {
                let s = groups@[k as int]@;
                assert(s.to_multiset().count(s[j]) > 0);
                assert(olds[k as int]@.to_multiset().count(s[j]) > 0);
                assert(olds[k as int]@.contains(s[j]));
            }
        }
        k += 1;
    }
    flatten_groups(&keys, &groups)
}

/// Cut an ordered candidate list to the requested count: the first
/// `n` entries, or all of them when fewer. Never yields more than `n`.
pub fn take_first(mut v: Vec<Torrent>, n: usize) -> (r: Vec<Torrent>)
    ensures
        n <= v@.len() ==> r@ == v@.subrange(0, n as int),
        n > v@.len() ==> r@ == v@,
        r@.len() <= n,
{
    v.truncate(n);
    v
}

/// The releases a probe run accepts: walking the pool in order, one
/// probe answer per release, a release is accepted when its answer is
/// positive and fewer than `want` are accepted so far.
pub open spec fn accepted(pool: Seq<Torrent>, probes: Seq<bool>, want: int) -> Seq<Torrent>
    decreases probes.len(),
{
    if probes.len() == 0 {
        Seq::empty()
    } else {
        let p = accepted(pool, probes.drop_last(), want);
        if probes.last() && p.len() < want {
            p.push(pool[probes.len() - 1])
        } else {
            p
        }
    }
}

/// A probe run never accepts more than asked, and everything it
/// accepts is a pool release whose probe answered positive.
pub proof fn lemma_accepted_bounded(pool: Seq<Torrent>, probes: Seq<bool>, want: int)
    requires
        want >= 0,
    ensures
        accepted(pool, probes, want).len() <= want,
        forall|k: int|
            0 <= k < accepted(pool, probes, want).len() ==> exists|i: int|
                0 <= i < probes.len() && probes[i] && #[trigger] accepted(pool, probes, want)[k]
                    == pool[i],
    decreases probes.len(),
{
    if probes.len() > 0 {
        lemma_accepted_bounded(pool, probes.drop_last(), want);
        let p = accepted(pool, probes.drop_last(), want);
        let r = accepted(pool, probes, want);
        if probes.last() && p.len() < want {
            assert forall|k: int| 0 <= k < r.len() implies exists|i: int|
                0 <= i < probes.len() && probes[i] && #[trigger] r[k] == pool[i] by {
                if k < p.len() {
                    let i = choose|i: int|
                        0 <= i < probes.drop_last().len() && probes.drop_last()[i] && #[trigger] p[k]
                            == pool[i];
                    assert(0 <= i < probes.len() && probes[i] && r[k] == pool[i]);
                } else {
                    let i = probes.len() - 1;
                    assert(probes[i] && r[k] == pool[i]);
                }
            }
        } else {
            assert forall|k: int| 0 <= k < r.len() implies exists|i: int|
                0 <= i < probes.len() && probes[i] && #[trigger] r[k] == pool[i] by {
                let i = choose|i: int|
                    0 <= i < probes.drop_last().len() && probes.drop_last()[i] && #[trigger] p[k]
                        == pool[i];
                assert(0 <= i < probes.len() && probes[i] && r[k] == pool[i]);
            }
        }
    }
}

/// The freeload-only probe walk: the pool is probed in order, one
/// tracker lookup per release, and positive answers are accepted until
/// the requested count is reached or the pool is exhausted. The caller
/// performs each lookup and feeds the answer back.
pub struct FreeloadProbe {
    pool: Vec<Torrent>,
    want: usize,
    next: usize,
    picked: Vec<Torrent>,
    probes: Ghost<Seq<bool>>,
}

impl FreeloadProbe {
    /// The pool being probed.
    pub closed spec fn pool_view(self) -> Seq<Torrent> {
        self.pool@
    }

    /// How many accepted releases are asked for.
    pub closed spec fn want_view(self) -> int {
        self.want as int
    }

    /// The probe answers received so far, in pool order.
    pub closed spec fn probes_view(self) -> Seq<bool> {
        self.probes@
    }

    /// The releases accepted so far.
    pub closed spec fn picked_view(self) -> Seq<Torrent> {
        self.picked@
    }

    /// The walk's invariant: one probe answer per release walked, and
    /// the accepted releases are exactly what the answers dictate.
    pub closed spec fn wf(self) -> bool {
        &&& self.next == self.probes@.len()
        &&& self.probes@.len() <= self.pool@.len()
        &&& self.picked@ == accepted(self.pool@, self.probes@, self.want as int)
        &&& self.picked@.len() <= self.want as int
    }

    /// Start a probe walk over an ordered pool.
    pub fn begin(pool: Vec<Torrent>, want: usize) -> (r: Self)
        ensures
            r.wf(),
            r.pool_view() == pool@,
            r.want_view() == want as int,
            r.probes_view() == Seq::<bool>::empty(),
            r.picked_view() == Seq::<Torrent>::empty(),
    {
        FreeloadProbe { pool, want, next: 0, picked: Vec::new(), probes: Ghost(Seq::empty()) }
    }

    /// The id to probe next: the next unwalked release, as long as
    /// fewer than the requested count are accepted and the pool is not
    /// exhausted.
    pub fn pending(&self) -> (r: Option<u32>)
        requires
            self.wf(),
        ensures
            (r is Some) <==> (self.picked_view().len() < self.want_view() && self.probes_view().len()
                < self.pool_view().len()),
            r is Some ==> r->0 == self.pool_view()[self.probes_view().len() as int].id,
    {
        if self.picked.len() < self.want && self.next < self.pool.len() {
            Some(self.pool[self.next].id)
        } else {
            None
        }
    }

    /// Feed back the probe answer for the pending release: a positive
    /// answer accepts it, a negative one skips it, and the walk moves
    /// on either way.
    pub fn feed(&mut self, is_freeload: bool)
        requires
            old(self).wf(),
            old(self).picked_view().len() < old(self).want_view(),
            old(self).probes_view().len() < old(self).pool_view().len(),
        ensures
            final(self).wf(),
            final(self).pool_view() == old(self).pool_view(),
            final(self).want_view() == old(self).want_view(),
            final(self).probes_view() == old(self).probes_view().push(is_freeload),
            final(self).picked_view() == (if is_freeload {
                old(self).picked_view().push(
                    old(self).pool_view()[old(self).probes_view().len() as int],
                )
            } else {
                old(self).picked_view()
            }),
    {
        let n = self.pool.len();
        assert(self.next < n);
        let t = self.pool[self.next].clone();
        if is_freeload {
            self.picked.push(t);
        }
        self.next += 1;
        proof {
            self.probes@ = self.probes@.push(is_freeload);
            assert(self.probes@.drop_last() =~= old(self).probes@);
            assert(self.picked@ =~= accepted(self.pool@, self.probes@, self.want as int));
        }
    }

    /// Hand out the accepted releases: never more than requested, each
    /// one probed positive.
    pub fn selection(self) -> (r: Vec<Torrent>)
        requires
            self.wf(),
        ensures
            r@ == self.picked_view(),
            r@.len() <= self.want_view(),
    {
        self.picked
    }
}

} // verus!

