//! Read-only aggregates over the release pool: totals, distinct
//! counts, and the format histogram ordered by count descending with
//! ties kept in first-encountered order.

use vstd::prelude::*;
use vstd::multiset::Multiset;
use crate::Torrent;
use crate::text::str_eq;

verus! {

/// Aggregate statistics of the release pool.
#[derive(Debug)]
pub struct DatabaseStats {
    pub total_torrents: usize,
    pub unique_artists: usize,
    pub unique_albums: usize,
    pub format_counts: Vec<(String, usize)>,
}

/// The artist strings of the pool, in order.
pub open spec fn artist_views(s: Seq<Torrent>) -> Seq<Seq<char>> {
    s.map(|i: int, t: Torrent| t.artist_names@)
}

/// The album strings of the pool, in order.
pub open spec fn album_views(s: Seq<Torrent>) -> Seq<Seq<char>> {
    s.map(|i: int, t: Torrent| t.album_name@)
}

/// How many distinct values a sequence of strings holds.
pub open spec fn distinct_count(s: Seq<Seq<char>>) -> int
    decreases s.len(),
{
    if s.len() == 0 {
        0
    } else {
        distinct_count(s.drop_last()) + (if s.drop_last().contains(s.last()) {
            0int
        } else {
            1int
        })
    }
}

/// How many releases carry a given format.
pub open spec fn fmt_count(s: Seq<Torrent>, f: Seq<char>) -> int
    decreases s.len(),
{
    if s.len() == 0 {
        0
    } else {
        fmt_count(s.drop_last(), f) + (if s.last().format@ == f {
            1int
        } else {
            0int
        })
    }
}

/// The distinct formats of the pool, in first-encountered order.
pub open spec fn fmts(s: Seq<Torrent>) -> Seq<Seq<char>>
    decreases s.len(),
{
    if s.len() == 0 {
        Seq::empty()
    } else {
        let p = fmts(s.drop_last());
        if p.contains(s.last().format@) {
            p
        } else {
            p.push(s.last().format@)
        }
    }
}

/// The format histogram in encounter order: each distinct format with
/// its count.
pub open spec fn hist(s: Seq<Torrent>) -> Seq<(Seq<char>, int)> {
    fmts(s).map(|i: int, f: Seq<char>| (f, fmt_count(s, f)))
}

/// View of histogram entries: the format's characters and the count.
pub open spec fn pairs_view(v: Seq<(String, usize)>) -> Seq<(Seq<char>, int)> {
    v.map(|i: int, p: (String, usize)| (p.0@, p.1 as int))
}

/// Insert an entry into a count-descending sequence, after every entry
/// whose count is at least its own.
pub open spec fn insert_desc(e: (Seq<char>, int), s: Seq<(Seq<char>, int)>) -> Seq<
    (Seq<char>, int),
>
    decreases s.len(),
{
    if s.len() == 0 {
        seq![e]
    } else if e.1 > s.first().1 {
        seq![e] + s
    } else {
        seq![s.first()] + insert_desc(e, s.drop_first())
    }
}

/// Stable sort by count descending: entries are inserted in encounter
/// order, each after all entries counting at least as much, so equal
/// counts keep their encounter order.
pub open spec fn sort_desc(s: Seq<(Seq<char>, int)>) -> Seq<(Seq<char>, int)>
    decreases s.len(),
{
    if s.len() == 0 {
        Seq::empty()
    } else {
        insert_desc(s.last(), sort_desc(s.drop_last()))
    }
}

/// Counts are non-increasing along the sequence.
pub open spec fn sorted_desc(s: Seq<(Seq<char>, int)>) -> bool {
    forall|i: int, j: int| 0 <= i < j < s.len() ==> (#[trigger] s[i]).1 >= (#[trigger] s[j]).1
}

/// The distinct formats never repeat.
proof fn lemma_fmts_distinct(s: Seq<Torrent>)
    ensures
        forall|i: int, j: int|
            0 <= i < j < fmts(s).len() ==> #[trigger] fmts(s)[i] != #[trigger] fmts(s)[j],
    decreases s.len(),
{
    if s.len() > 0 {
        lemma_fmts_distinct(s.drop_last());
        let p = fmts(s.drop_last());
        if !p.contains(s.last().format@) {
            assert(forall|i: int| 0 <= i < p.len() ==> #[trigger] p[i] != s.last().format@);
        }
    }
}

/// A format outside the distinct-format list counts zero.
proof fn lemma_fmt_count_zero(s: Seq<Torrent>, f: Seq<char>)
    requires
        !fmts(s).contains(f),
    ensures
        fmt_count(s, f) == 0,
    decreases s.len(),
{
    if s.len() > 0 {
        let p = fmts(s.drop_last());
        if p.contains(f) {
            let i = choose|i: int| 0 <= i < p.len() && p[i] == f;
            if p.contains(s.last().format@) {
                assert(fmts(s)[i] == f);
            } else {
                assert(fmts(s)[i] == f);
            }
            assert(false);
        }
        lemma_fmt_count_zero(s.drop_last(), f);
        if s.last().format@ == f {
            if p.contains(s.last().format@) {
                assert(false);
            } else {
                assert(fmts(s).last() == f);
                assert(false);
            }
        }
    }
}

/// Inserting into a count-descending sequence at the first position
/// whose count is smaller realizes the insertion rule.
proof fn lemma_insert_desc_at(e: (Seq<char>, int), s: Seq<(Seq<char>, int)>, m: int)
    requires
        0 <= m <= s.len(),
        forall|k: int| 0 <= k < m ==> (#[trigger] s[k]).1 >= e.1,
        m == s.len() || s[m].1 < e.1,
    ensures
        insert_desc(e, s) =~= s.take(m) + seq![e] + s.skip(m),
    decreases m,
{
    if m == 0 {
        if s.len() == 0 {
            assert(insert_desc(e, s) =~= s.take(0) + seq![e] + s.skip(0));
        } else {
            assert(s[0].1 < e.1);
            assert(insert_desc(e, s) == seq![e] + s);
            assert(seq![e] + s =~= s.take(0) + seq![e] + s.skip(0));
        }
    } else {
        assert(s.len() > 0);
        assert(s[0].1 >= e.1);
        let t = s.drop_first();
        assert(forall|k: int| 0 <= k < m - 1 ==> (#[trigger] t[k]).1 >= e.1);
        assert(m - 1 == t.len() || t[m - 1].1 < e.1);
        lemma_insert_desc_at(e, t, m - 1);
        assert(insert_desc(e, s) == seq![s.first()] + insert_desc(e, t));
        assert(seq![s.first()] + (t.take(m - 1) + seq![e] + t.skip(m - 1)) =~= s.take(m) + seq![e]
            + s.skip(m));
    }
}

/// Insertion keeps the sequence count-descending and adds exactly the
/// new entry.
proof fn lemma_insert_desc_sorted(e: (Seq<char>, int), s: Seq<(Seq<char>, int)>)
    requires
        sorted_desc(s),
    ensures
        sorted_desc(insert_desc(e, s)),
        insert_desc(e, s).len() == s.len() + 1,
        insert_desc(e, s).to_multiset() == s.to_multiset().insert(e),
    decreases s.len(),
{
    broadcast use vstd::seq_lib::group_to_multiset_ensures;
    broadcast use vstd::multiset::group_multiset_axioms;

    let r = insert_desc(e, s);
    if s.len() == 0 {
        assert(r == seq![e]);
        assert(seq![e] =~= s.push(e));
    } else if e.1 > s.first().1 {
        assert(r == seq![e] + s);
        assert(forall|j: int| 0 <= j < s.len() ==> e.1 >= (#[trigger] s[j]).1);
        assert(sorted_desc(r));
        assert(r =~= s.insert(0, e));
    } else {
        let t = s.drop_first();
        assert(sorted_desc(t));
        lemma_insert_desc_sorted(e, t);
        assert(r == seq![s.first()] + insert_desc(e, t));
        let it = insert_desc(e, t);
        assert(forall|j: int| 0 <= j < it.len() ==> (#[trigger] it[j]).1 <= s.first().1) by {
            assert(forall|j: int| 0 <= j < t.len() ==> (#[trigger] t[j]).1 <= s.first().1);
            assert(forall|j: int|
                0 <= j < it.len() ==> it.to_multiset().count(#[trigger] it[j]) > 0);
            assert(forall|j: int| 0 <= j < it.len() && it[j] != e ==> t.contains(#[trigger] it[j]));
        }
        assert(sorted_desc(r)) by {
            assert(forall|j: int| 1 <= j < r.len() ==> r[j] == it[j - 1]);
        }
        assert(r =~= it.insert(0, s.first()));
        assert(s =~= t.insert(0, s.first()));
        assert(r.to_multiset() =~= s.to_multiset().insert(e));
    }
}

/// Carrying a given count.
pub open spec fn count_is(c: int) -> spec_fn((Seq<char>, int)) -> bool {
    |e: (Seq<char>, int)| e.1 == c
}

/// A sequence none of whose entries carries the count filters to
/// nothing.
proof fn lemma_filter_none(s: Seq<(Seq<char>, int)>, c: int)
    requires
        forall|i: int| 0 <= i < s.len() ==> (#[trigger] s[i]).1 != c,
    ensures
        s.filter(count_is(c)) == Seq::<(Seq<char>, int)>::empty(),
    decreases s.len(),
{
    reveal(Seq::filter);
    if s.len() > 0 {
        lemma_filter_none(s.drop_last(), c);
    }
}

/// A one-entry sequence filters to itself or to nothing.
proof fn lemma_filter_singleton(e: (Seq<char>, int), c: int)
    ensures
        e.1 == c ==> seq![e].filter(count_is(c)) == seq![e],
        e.1 != c ==> seq![e].filter(count_is(c)) == Seq::<(Seq<char>, int)>::empty(),
{
    reveal(Seq::filter);
    let f = count_is(c);
    assert(seq![e].drop_last() =~= Seq::<(Seq<char>, int)>::empty());
    assert(seq![e].last() == e);
    assert(Seq::<(Seq<char>, int)>::empty().filter(f) =~= Seq::<(Seq<char>, int)>::empty());
    if e.1 == c {
        assert(seq![e].filter(f) =~= seq![e]);
    } else {
        assert(seq![e].filter(f) =~= Seq::<(Seq<char>, int)>::empty());
    }
}

/// Inserting into a count-descending sequence appends the entry to the
/// run of its own count and leaves every other count's run unchanged.
proof fn lemma_insert_desc_filter(e: (Seq<char>, int), t: Seq<(Seq<char>, int)>, c: int)
    requires
        sorted_desc(t),
    ensures
        e.1 == c ==> insert_desc(e, t).filter(count_is(c)) == t.filter(count_is(c)).push(e),
        e.1 != c ==> insert_desc(e, t).filter(count_is(c)) == t.filter(count_is(c)),
    decreases t.len(),
{
    broadcast use Seq::filter_distributes_over_add;

    reveal(Seq::filter);
    let f = count_is(c);
    let r = insert_desc(e, t);
    lemma_filter_singleton(e, c);
    if t.len() == 0 {
        assert(r =~= seq![e]);
        assert(t.filter(f) =~= Seq::<(Seq<char>, int)>::empty());
        if e.1 == c {
            assert(r.filter(f) =~= t.filter(f).push(e));
        } else {
            assert(r.filter(f) =~= t.filter(f));
        }
    } else if e.1 > t.first().1 {
        assert(r == seq![e] + t);
        assert(r.filter(f) == seq![e].filter(f) + t.filter(f));
        if e.1 == c {
            assert(forall|i: int| 0 <= i < t.len() ==> (#[trigger] t[i]).1 <= t[0].1);
            lemma_filter_none(t, c);
            assert(r.filter(f) =~= t.filter(f).push(e));
        } else {
            assert(r.filter(f) =~= t.filter(f));
        }
    } else {
        let d = t.drop_first();
        assert(sorted_desc(d));
        lemma_filter_singleton(t.first(), c);
        lemma_insert_desc_filter(e, d, c);
        assert(r == seq![t.first()] + insert_desc(e, d));
        assert(r.filter(f) == seq![t.first()].filter(f) + insert_desc(e, d).filter(f));
        assert(t =~= seq![t.first()] + d);
        assert(t.filter(f) == seq![t.first()].filter(f) + d.filter(f));
        if e.1 == c {
            assert(r.filter(f) =~= t.filter(f).push(e));
        } else {
            assert(r.filter(f) =~= t.filter(f));
        }
    }
}

/// The histogram tie-break law: sorting by count keeps, for every
/// count, the entries carrying that count exactly in their encounter
/// order.
pub proof fn lemma_sort_desc_stable(s: Seq<(Seq<char>, int)>, c: int)
    ensures
        sort_desc(s).filter(count_is(c)) == s.filter(count_is(c)),
    decreases s.len(),
{
    reveal(Seq::filter);
    if s.len() > 0 {
        let d = s.drop_last();
        lemma_sort_desc_stable(d, c);
        lemma_sort_desc_sorted(d);
        lemma_insert_desc_filter(s.last(), sort_desc(d), c);
    }
}

/// The histogram ordering law: sorting by count keeps exactly the
/// histogram's entries and puts counts in non-increasing order.
pub proof fn lemma_sort_desc_sorted(s: Seq<(Seq<char>, int)>)
    ensures
        sorted_desc(sort_desc(s)),
        sort_desc(s).len() == s.len(),
        sort_desc(s).to_multiset() == s.to_multiset(),
    decreases s.len(),
{
    broadcast use vstd::seq_lib::group_to_multiset_ensures;

    if s.len() > 0 {
        lemma_sort_desc_sorted(s.drop_last());
        lemma_insert_desc_sorted(s.last(), sort_desc(s.drop_last()));
        assert(s.to_multiset() =~= s.drop_last().to_multiset().insert(s.last())) by {
            assert(s =~= s.drop_last().push(s.last()));
        }
    }
}

/// Count the distinct strings of a list.
fn count_distinct(vals: &Vec<String>) -> (r: usize)
    ensures
        r as int == distinct_count(vals@.map(|i: int, n: String| n@)),
{
    let ghost m = vals@.map(|i: int, n: String| n@);
    let n = vals.len();
    let mut count: usize = 0;
    let mut i: usize = 0;
    while i < n
        invariant
            n == vals@.len(),
            m == vals@.map(|i: int, n: String| n@),
            0 <= i <= n,
            count <= i,
            count as int == distinct_count(m.take(i as int)),
        decreases n - i,
    {
        let mut seen = false;
        let mut j: usize = 0;
        while j < i
            invariant
                n == vals@.len(),
                m == vals@.map(|i: int, n: String| n@),
                0 <= j <= i < n,
                seen == exists|k: int| 0 <= k < j && m[k] == m[i as int],
            decreases i - j,
        {
            if str_eq(vals[j].as_str(), vals[i].as_str()) {
                assert(m[j as int] == m[i as int]);
                seen = true;
                j = i;
            } else {
                assert(m[j as int] != m[i as int]);
                j += 1;
            }
        }
        proof {
            assert(m.take(i + 1).drop_last() =~= m.take(i as int));
            assert(m.take(i + 1).last() == m[i as int]);
            let x = m[i as int];
            if seen {
                let k = choose|k: int| 0 <= k < i && m[k] == x;
                assert(m.take(i as int)[k] == x);
                assert(m.take(i as int).contains(x));
            } else {
                if m.take(i as int).contains(x) {
                    let k = choose|k: int| 0 <= k < i && m.take(i as int)[k] == x;
                    assert(m[k] == x);
                    assert(false);
                }
            }
            assert(seen == m.take(i as int).contains(x));
        }
        if !seen {
            count += 1;
        }
        i += 1;
    }
    proof {
        assert(m.take(n as int) =~= m);
    }
    count
}

/// Build the format histogram in encounter order.
fn count_formats(v: &Vec<Torrent>) -> (r: Vec<(String, usize)>)
    ensures
        pairs_view(r@) == hist(v@),
{
    let n = v.len();
    let mut counts: Vec<(String, usize)> = Vec::new();
    let mut i: usize = 0;
    while i < n
        invariant
            n == v@.len(),
            0 <= i <= n,
            counts@.len() == fmts(v@.take(i as int)).len(),
            forall|k: int|
                0 <= k < counts@.len() ==> (#[trigger] counts@[k]).0@ == fmts(v@.take(i as int))[k],
            forall|k: int|
                0 <= k < counts@.len() ==> (#[trigger] counts@[k]).1 as int == fmt_count(
                    v@.take(i as int),
                    fmts(v@.take(i as int))[k],
                ),
            forall|k: int| 0 <= k < counts@.len() ==> (#[trigger] counts@[k]).1 <= i,
        decreases n - i,
    {
        let ghost pre = v@.take(i as int);
        let ghost post = v@.take(i + 1);
        proof {
            assert(post.drop_last() =~= pre);
            assert(post.last() == v@[i as int]);
            lemma_fmts_distinct(pre);
        }
        let f = &v[i].format;
        let mut k: usize = 0;
        let mut found = false;
        while k < counts.len()
            invariant_except_break
                found == false,
            invariant
                f@ == v@[i as int].format@,
                0 <= k <= counts@.len(),
                forall|m: int| 0 <= m < k ==> (#[trigger] counts@[m]).0@ != f@,
            ensures
                0 <= k <= counts@.len(),
                forall|m: int| 0 <= m < k ==> (#[trigger] counts@[m]).0@ != f@,
                found ==> k < counts@.len() && counts@[k as int].0@ == f@,
                !found ==> k == counts@.len(),
            decreases counts@.len() - k,
        {
            if str_eq(counts[k].0.as_str(), f.as_str()) {
                found = true;
                break ;
            }
            k += 1;
        }
        let ghost cpre = counts@;
        if found {
            proof {
                assert(fmts(pre).contains(v@[i as int].format@)) by {
                    assert(fmts(pre)[k as int] == v@[i as int].format@);
                }
                assert(fmts(post) =~= fmts(pre));
            }
            let entry = counts.remove(k);
            let new_count = entry.1 + 1;
            counts.insert(k, (entry.0, new_count));
            proof {
                assert(counts@ =~= cpre.update(k as int, (entry.0, new_count)));
            }
        } else {
            proof {
                if fmts(pre).contains(v@[i as int].format@) {
                    let m = choose|m: int|
                        0 <= m < fmts(pre).len() && fmts(pre)[m] == v@[i as int].format@;
                    assert(counts@[m].0@ == v@[i as int].format@);
                    assert(false);
                }
                assert(fmts(post) =~= fmts(pre).push(v@[i as int].format@));
                lemma_fmt_count_zero(pre, v@[i as int].format@);
            }
            counts.push((f.clone(), 1));
        }
        proof {
            lemma_fmts_distinct(post);
            assert(forall|k2: int|
                0 <= k2 < fmts(post).len() ==> fmt_count(post, #[trigger] fmts(post)[k2])
                    == fmt_count(pre, fmts(post)[k2]) + (if fmts(post)[k2] == v@[i as int].format@ {
                    1int
                } else {
                    0int
                }));
        }
        i += 1;
    }
    proof {
        assert(v@.take(n as int) =~= v@);
        assert(pairs_view(counts@) =~= hist(v@));
    }
    counts
}

/// Every distinct-format entry indexes a format the pool holds.
proof fn lemma_fmts_in(s: Seq<Torrent>, k: int)
    requires
        0 <= k < fmts(s).len(),
    ensures
        exists|j: int| 0 <= j < s.len() && (#[trigger] s[j]).format@ == fmts(s)[k],
    decreases s.len(),
{
    let p = fmts(s.drop_last());
    if s.len() > 0 {
        if p.contains(s.last().format@) {
            lemma_fmts_in(s.drop_last(), k);
            let j = choose|j: int|
                0 <= j < s.drop_last().len() && (#[trigger] s.drop_last()[j]).format@ == fmts(s)[k];
            assert(s[j].format@ == fmts(s)[k]);
        } else {
            if k < p.len() {
                lemma_fmts_in(s.drop_last(), k);
                let j = choose|j: int|
                    0 <= j < s.drop_last().len() && (#[trigger] s.drop_last()[j]).format@ == fmts(
                        s,
                    )[k];
                assert(s[j].format@ == fmts(s)[k]);
            } else {
                assert(fmts(s)[k] == s.last().format@);
                assert(s[s.len() - 1].format@ == fmts(s)[k]);
            }
        }
    }
}

/// Sort histogram entries by count descending; equal counts keep their
/// encounter order.
fn sort_counts(counts: Vec<(String, usize)>) -> (r: Vec<(String, usize)>)
    ensures
        pairs_view(r@) == sort_desc(pairs_view(counts@)),
{
    let ghost pv = pairs_view(counts@);
    let mut sorted: Vec<(String, usize)> = Vec::new();
    let mut i: usize = 0;
    while i < counts.len()
        invariant
            pv == pairs_view(counts@),
            0 <= i <= counts@.len(),
            pairs_view(sorted@) == sort_desc(pv.take(i as int)),
        decreases counts@.len() - i,
    {
        let e = (counts[i].0.clone(), counts[i].1);
        proof {
            assert(pv.take(i + 1).drop_last() =~= pv.take(i as int));
            assert(pv.take(i + 1).last() == pv[i as int]);
            assert((e.0@, e.1 as int) == pv[i as int]);
        }
        let mut m: usize = 0;
        while m < sorted.len()
            invariant
                0 <= m <= sorted@.len(),
                forall|k: int| 0 <= k < m ==> (#[trigger] pairs_view(sorted@)[k]).1 >= e.1 as int,
            ensures
                0 <= m <= sorted@.len(),
                forall|k: int| 0 <= k < m ==> (#[trigger] pairs_view(sorted@)[k]).1 >= e.1 as int,
                m == sorted@.len() || pairs_view(sorted@)[m as int].1 < e.1 as int,
            decreases sorted@.len() - m,
        {
            if sorted[m].1 < e.1 {
                break ;
            }
            assert(pairs_view(sorted@)[m as int].1 >= e.1 as int);
            m += 1;
        }
        proof {
            lemma_insert_desc_at((e.0@, e.1 as int), pairs_view(sorted@), m as int);
        }
        let ghost before = pairs_view(sorted@);
        sorted.insert(m, e);
        proof {
            assert(pairs_view(sorted@) =~= before.take(m as int) + seq![(pv[i as int])]
                + before.skip(m as int));
            assert(pairs_view(sorted@) =~= insert_desc(pv[i as int], before));
            assert(pairs_view(sorted@) =~= sort_desc(pv.take(i + 1)));
        }
        i += 1;
    }
    proof {
        assert(pv.take(counts@.len() as int) =~= pv);
    }
    sorted
}

/// Compute the aggregate statistics of a release pool snapshot: the
/// total, the distinct artist and album counts, and the format
/// histogram sorted by count descending, ties in encounter order.
pub fn compute_stats(v: &Vec<Torrent>) -> (r: DatabaseStats)
    ensures
        r.total_torrents == v@.len(),
        r.unique_artists as int == distinct_count(artist_views(v@)),
        r.unique_albums as int == distinct_count(album_views(v@)),
        pairs_view(r.format_counts@) == sort_desc(hist(v@)),
{
    let n = v.len();
    let mut artists: Vec<String> = Vec::new();
    let mut albums: Vec<String> = Vec::new();
    let mut i: usize = 0;
    while i < n
        invariant
            n == v@.len(),
            0 <= i <= n,
            artists@.len() == i,
            albums@.len() == i,
            forall|k: int| 0 <= k < i ==> (#[trigger] artists@[k])@ == v@[k].artist_names@,
            forall|k: int| 0 <= k < i ==> (#[trigger] albums@[k])@ == v@[k].album_name@,
        decreases n - i,
    {
        artists.push(v[i].artist_names.clone());
        albums.push(v[i].album_name.clone());
        i += 1;
    }
    proof {
        assert(artists@.map(|k: int, s: String| s@) =~= artist_views(v@));
        assert(albums@.map(|k: int, s: String| s@) =~= album_views(v@));
    }
    let unique_artists = count_distinct(&artists);
    let unique_albums = count_distinct(&albums);
    let counts = count_formats(v);
    let format_counts = sort_counts(counts);
    DatabaseStats { total_torrents: n, unique_artists, unique_albums, format_counts }
}

} // verus!
