//! The fetch-and-retry policy and the per-repository synchronization
//! decisions: what to fetch, whether to fetch at all, and how to record a
//! finished round.

use vstd::prelude::*;
use crate::repomd::{RepoMD, RepoMDItem, Type};
use crate::data::{Repo, Uuid};

verus! {

/// What one fetch attempt came to, as the transport reports it.
#[derive(Clone, Copy, Debug, PartialEq, Eq, Structural)]
pub enum FetchOutcome {
    /// A 2xx response with a body.
    Success,
    /// The name did not resolve.
    Dns,
    /// The connection or read timed out.
    Timeout,
    /// Any other transport failure.
    Transport,
    /// A non-2xx response with this status.
    Status(u16),
}

/// What the retry policy does with one outcome.
#[derive(Clone, Copy, Debug, PartialEq, Eq, Structural)]
pub enum RetryDecision {
    /// The attempt succeeded; hand the body on.
    Done,
    /// Transient: try again after the next backoff delay.
    Retry,
    /// Permanent for this URL: give up at once.
    Fail,
}

/// Whether the policy retries this outcome.
pub open spec fn retries(o: FetchOutcome) -> bool {
    match o {
        FetchOutcome::Dns => true,
        FetchOutcome::Timeout => true,
        FetchOutcome::Transport => false,
        FetchOutcome::Success => false,
        FetchOutcome::Status(code) => 500 <= code <= 599,
    }
}

/// Classify one fetch outcome: DNS failures, timeouts and 5xx responses are
/// transient; any other failure is permanent; 2xx succeeds.
pub fn classify(o: &FetchOutcome) -> (r: RetryDecision)
    ensures
        r == RetryDecision::Done <==> *o == FetchOutcome::Success,
        r == RetryDecision::Retry <==> retries(*o),
        r == RetryDecision::Fail <==> (*o != FetchOutcome::Success && !retries(*o)),
{
    match o {
        FetchOutcome::Success => RetryDecision::Done,
        FetchOutcome::Dns => RetryDecision::Retry,
        FetchOutcome::Timeout => RetryDecision::Retry,
        FetchOutcome::Transport => RetryDecision::Fail,
        FetchOutcome::Status(code) => {
            if 500 <= *code && *code <= 599 {
                RetryDecision::Retry
            } else {
                RetryDecision::Fail
            }
        },
    }
}

/// The exponential backoff schedule, in milliseconds: five delays, one
/// before each retry, about forty-five seconds in all.
pub fn backoff() -> (r: Vec<u64>)
    ensures
        r@ == seq![1600u64, 3200u64, 6400u64, 12800u64, 25600u64],
{
    let mut v: Vec<u64> = Vec::new();
    v.push(1600);
    v.push(3200);
    v.push(6400);
    v.push(12800);
    v.push(25600);
    proof {
        assert(v@ =~= seq![1600u64, 3200u64, 6400u64, 12800u64, 25600u64]);
    }
    v
}

/// How a whole retried call ends.
#[derive(Clone, Copy, Debug, PartialEq, Eq, Structural)]
pub enum CallResult {
    /// Succeeded on the attempt numbered by the payload, counting from one.
    Succeeded(usize),
    /// Failed permanently on the attempt numbered by the payload.
    Failed(usize),
    /// All retries were spent; the payload is the number of attempts made.
    Exhausted(usize),
}

/// What a run of the retry loop comes to, given the outcome of every
/// attempt that would be made: the first success or permanent failure
/// decides; at most `left + 1` more attempts are made.
pub open spec fn plan_spec(outs: Seq<FetchOutcome>, attempt: nat, left: nat) -> CallResult
    decreases outs.len(),
{
    if outs.len() == 0 {
        CallResult::Exhausted((attempt - 1) as usize)
    } else if outs[0] == FetchOutcome::Success {
        CallResult::Succeeded(attempt as usize)
    } else if !retries(outs[0]) {
        CallResult::Failed(attempt as usize)
    } else if left == 0 {
        CallResult::Exhausted(attempt as usize)
    } else {
        plan_spec(outs.skip(1), (attempt + 1) as nat, (left - 1) as nat)
    }
}

/// How many backoff delays the retry loop sleeps before it stops: one per
/// retried transient failure, never more than `left`.
pub open spec fn plan_retries(outs: Seq<FetchOutcome>, left: nat) -> nat
    decreases outs.len(),
{
    if outs.len() == 0 {
        0
    } else if outs[0] == FetchOutcome::Success {
        0
    } else if !retries(outs[0]) {
        0
    } else if left == 0 {
        0
    } else {
        1 + plan_retries(outs.skip(1), (left - 1) as nat)
    }
}

/// The delays the loop sleeps are the consumed prefix of the schedule.
pub open spec fn plan_delays(outs: Seq<FetchOutcome>) -> Seq<u64> {
    seq![1600u64, 3200u64, 6400u64, 12800u64, 25600u64].take(plan_retries(outs, 5) as int)
}

/// Run the retry policy over a recorded sequence of outcomes: attempt by
/// attempt, retrying transient failures while backoff delays remain. The
/// delays that a live loop would sleep are returned alongside: one per
/// retried attempt, exponential from the start of the schedule.
pub fn retry_call(outs: &Vec<FetchOutcome>) -> (r: (CallResult, Vec<u64>))
    requires
        outs@.len() >= 1,
    ensures
        r.0 == plan_spec(outs@, 1, 5),
        r.1@ == plan_delays(outs@),
{
    let delays = backoff();
    let mut used: Vec<u64> = Vec::new();
    let n: usize = outs.len();
    let mut i: usize = 0;
    proof {
        assert(outs@.skip(0) =~= outs@);
        assert(used@ =~= delays@.take(0));
    }
    loop
        invariant
            0 <= i <= n,
            i <= 5,
            n == outs@.len(),
            delays@ == seq![1600u64, 3200u64, 6400u64, 12800u64, 25600u64],
            plan_spec(outs@, 1, 5) == plan_spec(
                outs@.skip(i as int),
                (i + 1) as nat,
                (5 - i) as nat,
            ),
            plan_retries(outs@, 5) == i + plan_retries(outs@.skip(i as int), (5 - i) as nat),
            used@ == delays@.take(i as int),
        decreases n - i,
    {
        if i >= n {
            return (CallResult::Exhausted(i), used);
        }
        let ghost suf = outs@.skip(i as int);
        proof {
            assert(suf[0] == outs@[i as int]);
        }
        let d = classify(&outs[i]);
        match d {
            RetryDecision::Done => {
                return (CallResult::Succeeded(i + 1), used);
            },
            RetryDecision::Fail => {
                return (CallResult::Failed(i + 1), used);
            },
            RetryDecision::Retry => {
                if i >= 5 {
                    return (CallResult::Exhausted(i + 1), used);
                }
                used.push(delays[i]);
                proof {
                    assert(suf.skip(1) =~= outs@.skip(i + 1));
                    assert(used@ =~= delays@.take(i + 1));
                }
                i = i + 1;
            },
        }
    }
}

/// An error of the synchronizer, by the taxonomy the pipeline reports.
#[derive(Clone, Debug, PartialEq)]
pub enum SyncError {
    /// DNS, TCP, TLS or socket trouble.
    Transport,
    /// A connect or read timeout.
    Timeout,
    /// The name did not resolve.
    Dns,
    /// A non-2xx response.
    Status(u16),
    /// The compressed stream could not be recognized or inflated.
    Decompress,
    /// Malformed XML or YAML, or a required field missing.
    Parse(String),
    /// The requested sub-document kind is absent from the manifest; callers
    /// skip that stage.
    TypeNotFound(Type),
}

/// The error a finally-failed fetch outcome maps to.
pub open spec fn outcome_error(o: FetchOutcome) -> SyncError {
    match o {
        FetchOutcome::Dns => SyncError::Dns,
        FetchOutcome::Timeout => SyncError::Timeout,
        FetchOutcome::Transport => SyncError::Transport,
        FetchOutcome::Status(code) => SyncError::Status(code),
        FetchOutcome::Success => SyncError::Transport,
    }
}

/// Map a failed fetch outcome to the error the pipeline reports.
pub fn fetch_error(o: &FetchOutcome) -> (r: SyncError)
    ensures
        r == outcome_error(*o),
{
    match o {
        FetchOutcome::Dns => SyncError::Dns,
        FetchOutcome::Timeout => SyncError::Timeout,
        FetchOutcome::Transport => SyncError::Transport,
        FetchOutcome::Status(code) => SyncError::Status(*code),
        FetchOutcome::Success => SyncError::Transport,
    }
}

/// Find the sub-document of the wanted kind, or say that the repository
/// lacks it.
pub fn locate<'a>(md: &'a RepoMD, typ: Type) -> (r: Result<&'a RepoMDItem, SyncError>)
    ensures
        r is Ok <==> exists|j: int| 0 <= j < md.data@.len() && md.data@[j].typ == typ,
        r is Ok ==> r.unwrap().typ == typ,
        r is Err ==> r.unwrap_err() == SyncError::TypeNotFound(typ),
{
    match md.find_item(typ) {
        Some(item) => Ok(item),
        None => Err(SyncError::TypeNotFound(typ)),
    }
}

/// Join a base URL, already ending in a slash, with a relative location.
pub fn join_url(base: &str, href: &str) -> (r: String)
    ensures
        r@ == base@ + href@,
{
    let mut out = base.to_owned();
    out.append(href);
    out
}

/// Give the base URL its trailing slash if it lacks one.
pub fn ensure_slash(url: &str) -> (r: String)
    ensures
        url@.len() > 0 && url@.last() == '/' ==> r@ == url@,
        !(url@.len() > 0 && url@.last() == '/') ==> r@ == url@ + "/"@,
{
    let n = url.unicode_len();
    if n > 0 && url.get_char(n - 1) == '/' {
        url.to_owned()
    } else {
        let mut out = url.to_owned();
        out.append("/");
        out
    }
}

/// Whether a stored repository is behind the manifest: absent rows and
/// rows without a revision always are; otherwise the recorded revision
/// must reach the manifest's.
pub fn needs_sync(stored: &Option<Repo>, md_revision: i32) -> (r: bool)
    ensures
        r == (match *stored {
            Option::None => true,
            Option::Some(ref repo) => (match repo.revision {
                Option::None => true,
                Option::Some(rev) => rev < md_revision,
            }),
        }),
{
    match stored {
        None => true,
        Some(repo) => {
            match repo.revision {
                None => true,
                Some(rev) => rev < md_revision,
            }
        },
    }
}

/// The repository row a finished round records: the stored row's id if one
/// existed (the surrogate id stays stable), otherwise the fresh one, with
/// the revision bumped to the manifest's.
pub fn finish_repo(current: &Repo, stored: &Option<Repo>, fresh: Uuid, md_revision: i32) -> (r:
    Repo)
    ensures
        r@.0 == (match *stored {
            Option::Some(ref old) => old@.0,
            Option::None => fresh@,
        }),
        r@.1 == current@.1,
        r@.2 == current@.2,
        r@.3 == current@.3,
        r@.4 == Some(md_revision),
{
    let id = match stored {
        Some(old) => old.id,
        None => fresh,
    };
    Repo {
        id,
        url: current.url.clone(),
        basearch: clone_opt_string(&current.basearch),
        releasever: clone_opt_string(&current.releasever),
        revision: Some(md_revision),
    }
}

/// Copy an optional string, keeping its characters.
pub fn clone_opt_string(o: &Option<String>) -> (r: Option<String>)
    ensures
        crate::data::opt_str_view(&r) == crate::data::opt_str_view(o),
{
    match o {
        Some(s) => Some(s.clone()),
        None => None,
    }
}

} // verus!
