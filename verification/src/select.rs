//! Variant selection: the fixed quality-preference rule that picks at
//! most one release per work among its candidates.

use vstd::prelude::*;
use crate::Torrent;
use crate::text::str_eq;

verus! {

/// The filter predicate every stored release satisfies: an original
/// release, MP3, from CD or WEB, encoded as V0 (VBR) or 320.
pub open spec fn qualifies(t: Torrent) -> bool {
    &&& t.release_type == 1
    &&& t.format@ == "MP3"@
    &&& (t.media@ == "CD"@ || t.media@ == "WEB"@)
    &&& (t.encoding@ == "V0 (VBR)"@ || t.encoding@ == "320"@)
}

/// Preference rank of a media/encoding pair; lower is better. The four
/// qualifying pairs get the fixed ranks 0 to 3, anything else sorts
/// last.
pub open spec fn rank_of(media: Seq<char>, encoding: Seq<char>) -> int {
    if media == "CD"@ && encoding == "V0 (VBR)"@ {
        0
    } else if media == "WEB"@ && encoding == "V0 (VBR)"@ {
        1
    } else if media == "CD"@ && encoding == "320"@ {
        2
    } else if media == "WEB"@ && encoding == "320"@ {
        3
    } else {
        99
    }
}

/// The release the selection rule picks from a candidate list: among
/// qualifying candidates, the one of minimum rank, the earliest such
/// on a tie; none when no candidate qualifies.
pub open spec fn chosen(s: Seq<Torrent>) -> Option<Torrent>
    decreases s.len(),
{
    if s.len() == 0 {
        None
    } else {
        let prior = chosen(s.drop_last());
        let t = s.last();
        if !qualifies(t) {
            prior
        } else {
            match prior {
                None => Some(t),
                Some(b) => if rank_of(t.media@, t.encoding@) < rank_of(b.media@, b.encoding@) {
                    Some(t)
                } else {
                    prior
                },
            }
        }
    }
}

/// Does a torrent pass the stored-release filter?
pub fn is_qualifying(t: &Torrent) -> (r: bool)
    ensures
        r == qualifies(*t),
{
    t.release_type == 1 && str_eq(t.format.as_str(), "MP3") && (str_eq(t.media.as_str(), "CD")
        || str_eq(t.media.as_str(), "WEB")) && (str_eq(t.encoding.as_str(), "V0 (VBR)") || str_eq(
        t.encoding.as_str(),
        "320",
    ))
}

/// Preference rank of a torrent's media/encoding pair.
pub fn rank_code(t: &Torrent) -> (r: u32)
    ensures
        r as int == rank_of(t.media@, t.encoding@),
{
    let cd = str_eq(t.media.as_str(), "CD");
    let web = str_eq(t.media.as_str(), "WEB");
    let v0 = str_eq(t.encoding.as_str(), "V0 (VBR)");
    let e320 = str_eq(t.encoding.as_str(), "320");
    if cd && v0 {
        0
    } else if web && v0 {
        1
    } else if cd && e320 {
        2
    } else if web && e320 {
        3
    } else {
        99
    }
}

/// Select at most one release from a work's candidates, by the fixed
/// rank of its media/encoding pair, first encountered winning ties.
pub fn select_variant(candidates: &Vec<Torrent>) -> (r: Option<Torrent>)
    ensures
        r == chosen(candidates@),
{
    let mut best: Option<Torrent> = None;
    let mut i: usize = 0;
    while i < candidates.len()
        invariant
            0 <= i <= candidates@.len(),
            best == chosen(candidates@.take(i as int)),
        decreases candidates@.len() - i,
    {
        let t = &candidates[i];
        proof {
            assert(candidates@.take(i + 1).drop_last() =~= candidates@.take(i as int));
            assert(candidates@.take(i + 1).last() == candidates@[i as int]);
        }
        if is_qualifying(t) {
            match &best {
                None => {
                    best = Some(t.clone());
                },
                Some(b) => {
                    if rank_code(t) < rank_code(b) {
                        best = Some(t.clone());
                    }
                },
            }
        }
        i += 1;
    }
    proof {
        assert(candidates@.take(candidates@.len() as int) =~= candidates@);
    }
    best
}

/// The rank order of the four qualifying media/encoding pairs is total
/// and fixed: (CD, V0) before (WEB, V0) before (CD, 320) before
/// (WEB, 320).
pub proof fn lemma_rank_order()
    ensures
        rank_of("CD"@, "V0 (VBR)"@) == 0,
        rank_of("WEB"@, "V0 (VBR)"@) == 1,
        rank_of("CD"@, "320"@) == 2,
        rank_of("WEB"@, "320"@) == 3,
{
    reveal_strlit("CD");
    reveal_strlit("WEB");
    reveal_strlit("V0 (VBR)");
    reveal_strlit("320");
    assert("CD"@.len() != "WEB"@.len());
    assert("V0 (VBR)"@.len() != "320"@.len());
}

/// A work with at least one qualifying candidate yields exactly one
/// selected release; a work with none yields none.
pub proof fn lemma_chosen_some_iff(s: Seq<Torrent>)
    ensures
        (chosen(s) is Some) <==> exists|i: int| 0 <= i < s.len() && qualifies(#[trigger] s[i]),
    decreases s.len(),
{
    if s.len() > 0 {
        lemma_chosen_some_iff(s.drop_last());
        if qualifies(s.last()) {
            assert(qualifies(s[s.len() - 1]));
        } else {
            if chosen(s) is Some {
                let i = choose|i: int| 0 <= i < s.drop_last().len() && qualifies(
                    #[trigger] s.drop_last()[i],
                );
                assert(qualifies(s[i]));
            }
            if exists|i: int| 0 <= i < s.len() && qualifies(#[trigger] s[i]) {
                let i = choose|i: int| 0 <= i < s.len() && qualifies(#[trigger] s[i]);
                assert(i < s.len() - 1);
                assert(qualifies(s.drop_last()[i]));
            }
        }
    }
}

/// The selected release is a qualifying candidate of minimum rank, and
/// stands at the least index carrying that rank: every earlier
/// qualifying candidate ranks strictly worse.
pub proof fn lemma_chosen_minimal(s: Seq<Torrent>)
    ensures
        chosen(s) is Some ==> exists|i: int|
            {
                &&& 0 <= i < s.len()
                &&& #[trigger] s[i] == chosen(s).unwrap()
                &&& qualifies(s[i])
                &&& forall|j: int|
                    0 <= j < s.len() && qualifies(#[trigger] s[j]) ==> rank_of(
                        s[i].media@,
                        s[i].encoding@,
                    ) <= rank_of(s[j].media@, s[j].encoding@)
                &&& forall|j: int|
                    0 <= j < i && qualifies(#[trigger] s[j]) ==> rank_of(
                        s[i].media@,
                        s[i].encoding@,
                    ) < rank_of(s[j].media@, s[j].encoding@)
            },
    decreases s.len(),
{
    if s.len() > 0 {
        let t = s.drop_last();
        lemma_chosen_minimal(t);
        lemma_chosen_some_iff(t);
        let x = s.last();
        assert(forall|j: int| 0 <= j < t.len() ==> #[trigger] s[j] == t[j]);
        if chosen(s) is Some {
            if chosen(s) == chosen(t) {
                let i = choose|i: int|
                    {
                        &&& 0 <= i < t.len()
                        &&& #[trigger] t[i] == chosen(t).unwrap()
                        &&& qualifies(t[i])
                        &&& forall|j: int|
                            0 <= j < t.len() && qualifies(#[trigger] t[j]) ==> rank_of(
                                t[i].media@,
                                t[i].encoding@,
                            ) <= rank_of(t[j].media@, t[j].encoding@)
                        &&& forall|j: int|
                            0 <= j < i && qualifies(#[trigger] t[j]) ==> rank_of(
                                t[i].media@,
                                t[i].encoding@,
                            ) < rank_of(t[j].media@, t[j].encoding@)
                    };
                if qualifies(x) {
                    // the last candidate did not improve on the prior choice
                    assert(rank_of(s[i].media@, s[i].encoding@) <= rank_of(x.media@, x.encoding@));
                }
                assert(0 <= i < s.len() && s[i] == chosen(s).unwrap());
            } else {
                // the last candidate is the new choice
                let i = s.len() - 1;
                assert(s[i] == x);
                assert(chosen(s) == Some(x));
                if chosen(t) is Some {
                    let b = chosen(t).unwrap();
                    assert(rank_of(x.media@, x.encoding@) < rank_of(b.media@, b.encoding@));
                }
                assert(forall|j: int|
                    0 <= j < i && qualifies(#[trigger] s[j]) ==> rank_of(x.media@, x.encoding@)
                        < rank_of(s[j].media@, s[j].encoding@));
                assert(0 <= i < s.len() && s[i] == chosen(s).unwrap());
            }
        }
    }
}

} // verus!
