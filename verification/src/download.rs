//! The per-release retrieval state machine: a freeload request falls
//! back to a plain request, the response body is written under the
//! name its content-disposition carries, and a failed handoff deletes
//! the just-written file. The caller performs each request, write and
//! handoff, and feeds the outcome back.

use vstd::prelude::*;
use vstd::string::StrSliceExecFns;
use crate::Error;

verus! {

/// Whether a request spends a freeload token.
#[derive(Clone, Copy, Debug, PartialEq, Eq, Structural)]
pub enum DownloadMode {
    Freeload,
    Plain,
}

/// Where one release's retrieval stands.
#[derive(Clone, Copy, Debug, PartialEq, Eq, Structural)]
pub enum DownloadState {
    RequestFreeload,
    RequestPlain,
    Write(DownloadMode),
    Submit(DownloadMode),
    Done(DownloadMode),
    Failed,
}

/// What the caller is asked to do next.
#[derive(Clone, Copy, Debug, PartialEq, Eq, Structural)]
pub enum DownloadAction {
    SendRequest(DownloadMode),
    WriteFile,
    SubmitFile,
    DeleteFile,
    Stop,
}

/// The outcome the caller feeds back: of the pending request, write,
/// or handoff.
#[derive(Clone, Copy, Debug, PartialEq, Eq, Structural)]
pub enum DownloadEvent {
    RequestResult(bool),
    WriteResult(bool),
    SubmitResult(bool),
}

/// A state that awaits no event.
pub open spec fn is_terminal(s: DownloadState) -> bool {
    s is Done || s is Failed
}

/// The event a state awaits.
pub open spec fn expects(s: DownloadState, ev: DownloadEvent) -> bool {
    match s {
        DownloadState::RequestFreeload => ev is RequestResult,
        DownloadState::RequestPlain => ev is RequestResult,
        DownloadState::Write(_) => ev is WriteResult,
        DownloadState::Submit(_) => ev is SubmitResult,
        DownloadState::Done(_) => false,
        DownloadState::Failed => false,
    }
}

/// The transition table: a failed freeload request retries plain, a
/// failed plain request fails the item, a written file is handed off,
/// and a failed handoff deletes the file before failing.
pub open spec fn next_state(s: DownloadState, ev: DownloadEvent) -> (DownloadState,
    DownloadAction) {
    match (s, ev) {
        (DownloadState::RequestFreeload, DownloadEvent::RequestResult(ok)) => if ok {
            (DownloadState::Write(DownloadMode::Freeload), DownloadAction::WriteFile)
        } else {
            (
                DownloadState::RequestPlain,
                DownloadAction::SendRequest(DownloadMode::Plain),
            )
        },
        (DownloadState::RequestPlain, DownloadEvent::RequestResult(ok)) => if ok {
            (DownloadState::Write(DownloadMode::Plain), DownloadAction::WriteFile)
        } else {
            (DownloadState::Failed, DownloadAction::Stop)
        },
        (DownloadState::Write(m), DownloadEvent::WriteResult(ok)) => if ok {
            (DownloadState::Submit(m), DownloadAction::SubmitFile)
        } else {
            (DownloadState::Failed, DownloadAction::Stop)
        },
        (DownloadState::Submit(m), DownloadEvent::SubmitResult(ok)) => if ok {
            (DownloadState::Done(m), DownloadAction::Stop)
        } else {
            (DownloadState::Failed, DownloadAction::DeleteFile)
        },
        _ => (s, DownloadAction::Stop),
    }
}

/// A file stands on disk under its final name exactly in the states
/// after a successful write: awaiting handoff, or done.
pub open spec fn holds_file(s: DownloadState) -> bool {
    s is Submit || s is Done
}

/// The state retrieval starts in: the freeload request when the caller
/// asked for one, the plain request otherwise.
pub fn download_start(use_freeload: bool) -> (r: DownloadState)
    ensures
        r == (if use_freeload {
            DownloadState::RequestFreeload
        } else {
            DownloadState::RequestPlain
        }),
{
    if use_freeload {
        DownloadState::RequestFreeload
    } else {
        DownloadState::RequestPlain
    }
}

/// Advance the machine by one observed outcome.
pub fn download_step(s: DownloadState, ev: DownloadEvent) -> (r: (DownloadState, DownloadAction))
    requires
        !is_terminal(s),
        expects(s, ev),
    ensures
        r == next_state(s, ev),
{
    match (s, ev) {
        (DownloadState::RequestFreeload, DownloadEvent::RequestResult(ok)) => if ok {
            (DownloadState::Write(DownloadMode::Freeload), DownloadAction::WriteFile)
        } else {
            (DownloadState::RequestPlain, DownloadAction::SendRequest(DownloadMode::Plain))
        },
        (DownloadState::RequestPlain, DownloadEvent::RequestResult(ok)) => if ok {
            (DownloadState::Write(DownloadMode::Plain), DownloadAction::WriteFile)
        } else {
            (DownloadState::Failed, DownloadAction::Stop)
        },
        (DownloadState::Write(m), DownloadEvent::WriteResult(ok)) => if ok {
            (DownloadState::Submit(m), DownloadAction::SubmitFile)
        } else {
            (DownloadState::Failed, DownloadAction::Stop)
        },
        (DownloadState::Submit(m), DownloadEvent::SubmitResult(ok)) => if ok {
            (DownloadState::Done(m), DownloadAction::Stop)
        } else {
            (DownloadState::Failed, DownloadAction::DeleteFile)
        },
        _ => (s, DownloadAction::Stop),
    }
}

/// A failed freeload request falls back to exactly one plain request:
/// when that succeeds and the write and handoff go through, the item
/// ends done with the plain-mode file; when the plain request fails
/// too, the item ends failed before any file is written.
pub proof fn lemma_freeload_fallback()
    ensures
        next_state(DownloadState::RequestFreeload, DownloadEvent::RequestResult(false)).0
            == DownloadState::RequestPlain,
        next_state(DownloadState::RequestPlain, DownloadEvent::RequestResult(true)).0
            == DownloadState::Write(DownloadMode::Plain),
        next_state(DownloadState::Write(DownloadMode::Plain), DownloadEvent::WriteResult(true)).0
            == DownloadState::Submit(DownloadMode::Plain),
        next_state(DownloadState::Submit(DownloadMode::Plain), DownloadEvent::SubmitResult(true)).0
            == DownloadState::Done(DownloadMode::Plain),
        next_state(DownloadState::RequestPlain, DownloadEvent::RequestResult(false)).0
            == DownloadState::Failed,
        !holds_file(next_state(DownloadState::RequestPlain, DownloadEvent::RequestResult(false)).0),
{
}

/// No step leaves an orphaned file: whenever a step ends in the failed
/// state from a state holding a file, the step's action deletes that
/// file; and the file appears only through a successful write.
pub proof fn lemma_no_orphan(s: DownloadState, ev: DownloadEvent)
    requires
        !is_terminal(s),
        expects(s, ev),
    ensures
        (next_state(s, ev).0 is Failed && holds_file(s)) ==> next_state(s, ev).1
            == DownloadAction::DeleteFile,
        (holds_file(next_state(s, ev).0) && !holds_file(s)) ==> (s is Write && ev
            == DownloadEvent::WriteResult(true)),
        next_state(s, ev).0 is Failed ==> !holds_file(next_state(s, ev).0),
{
}

/// A retrieval ends done only when its file was written and handed
/// off: the done state still holds the file, under the mode that
/// fetched it.
pub proof fn lemma_done_from_submit(s: DownloadState, ev: DownloadEvent, m: DownloadMode)
    requires
        !is_terminal(s),
        expects(s, ev),
        next_state(s, ev).0 == DownloadState::Done(m),
    ensures
        s == DownloadState::Submit(m),
        ev == DownloadEvent::SubmitResult(true),
{
}

/// The quoted-filename pattern of a content-disposition header.
pub open spec fn cd_pat() -> Seq<char> {
    "filename=\""@
}

/// A match of the filename pattern at position `i`, closed by the
/// quote at position `j`: the pattern's ten characters, then at least
/// one non-quote character, then the quote.
pub open spec fn cd_match_at(s: Seq<char>, i: int, j: int) -> bool {
    &&& 0 <= i
    &&& i + 10 < j < s.len()
    &&& s.subrange(i, i + 10) == cd_pat()
    &&& s[j] == '"'
    &&& (forall|k: int| i + 10 <= k < j ==> s[k] != '"')
}

/// Some closing quote completes a match starting at `i`.
pub open spec fn cd_match_from(s: Seq<char>, i: int) -> bool {
    exists|j: int| cd_match_at(s, i, j)
}

/// Extract the quoted file name of a content-disposition header: the
/// leftmost match of the quoted-filename pattern. A header without one
/// is a fatal protocol error — there is no default name.
pub fn parse_cd_filename(header: &str) -> (r: Result<String, Error>)
    ensures
        r is Ok ==> exists|i: int, j: int|
            {
                &&& #[trigger] cd_match_at(header@, i, j)
                &&& r->Ok_0@ == header@.subrange(i + 10, j)
                &&& forall|i2: int| 0 <= i2 < i ==> !cd_match_from(header@, i2)
            },
        r is Err ==> (r->Err_0 is Protocol && forall|i: int| !cd_match_from(header@, i)),
{
    let pat = "filename=\"";
    proof {
        reveal_strlit("filename=\"");
    }
    let n = header.unicode_len();
    let mut i: usize = 0;
    while n - i > 10
        invariant
            n == header@.len(),
            pat@ == cd_pat(),
            pat@.len() == 10,
            0 <= i <= n,
            forall|i2: int| 0 <= i2 < i ==> !cd_match_from(header@, i2),
        decreases n - i,
    {
        // try to match the pattern at position i
        let mut t: usize = 0;
        let mut matched = true;
        while t < 10
            invariant_except_break
                matched == true,
            invariant
                n == header@.len(),
                pat@ == cd_pat(),
                pat@.len() == 10,
                0 <= i,
                i + 10 < n,
                0 <= t <= 10,
                forall|u: int| 0 <= u < t ==> header@[i + u] == cd_pat()[u],
            ensures
                matched ==> header@.subrange(i as int, i + 10) =~= cd_pat(),
                !matched ==> header@.subrange(i as int, i + 10) != cd_pat(),
            decreases 10 - t,
        {
            if header.get_char(i + t) != pat.get_char(t) {
                matched = false;
                proof {
                    assert(header@.subrange(i as int, i + 10)[t as int] != cd_pat()[t as int]);
                }
                break ;
            }
            t += 1;
        }
        if matched {
            // scan for the closing quote
            let mut j: usize = i + 10;
            while j < n
                invariant
                    n == header@.len(),
                    i + 10 <= j <= n,
                    forall|k: int| i + 10 <= k < j ==> header@[k] != '"',
                ensures
                    i + 10 <= j <= n,
                    forall|k: int| i + 10 <= k < j ==> header@[k] != '"',
                    j < n ==> header@[j as int] == '"',
                    j == n || header@[j as int] == '"',
                decreases n - j,
            {
                if header.get_char(j) == '"' {
                    break ;
                }
                j += 1;
            }
            if j < n && j > i + 10 {
                let name = header.substring_char(i + 10, j);
                proof {
                    assert(cd_match_at(header@, i as int, j as int));
                }
                return Ok(name.to_owned());
            }
            proof {
                if cd_match_from(header@, i as int) {
                    let j2 = choose|j2: int| cd_match_at(header@, i as int, j2);
                    if j == n {
                        assert(header@[j2] == '"');
                        assert(false);
                    } else {
                        // the first quote after the pattern closes it at once,
                        // leaving an empty capture
                        assert(header@[j as int] == '"');
                        if j2 > j {
                            assert(header@[j as int] != '"');
                            assert(false);
                        }
                        assert(j2 >= i + 10 + 1);
                        assert(false);
                    }
                }
            }
        } else {
            proof {
                if cd_match_from(header@, i as int) {
                    let j2 = choose|j2: int| cd_match_at(header@, i as int, j2);
                    assert(header@.subrange(i as int, i + 10) == cd_pat());
                    assert(false);
                }
            }
        }
        i += 1;
    }
    proof {
        assert forall|i2: int| !cd_match_from(header@, i2) by {
            if cd_match_from(header@, i2) {
                let j2 = choose|j2: int| cd_match_at(header@, i2, j2);
                assert(i2 + 10 < j2 < header@.len());
                assert(0 <= i2 < i);
                assert(false);
            }
        }
    }
    Err(Error::Protocol)
}

} // verus!
