//! The per-batch worker: one lookup lifecycle for a batch of identifiers.
//! The worker classifies each reply, retries on throttling up to a fixed
//! ceiling, and aborts the run on a protocol violation.
//!
//! Sending the request and sleeping between attempts happen outside the
//! crate; the worker decides, on plain values, what to do next.

use vstd::prelude::*;

use crate::outcome::{classified, classify_batch, Outcome};

verus! {

/// How many throttled replies a worker tolerates for one batch before it
/// gives up on the run.
pub const MAX_THROTTLE_ATTEMPTS: u64 = 3;

/// A lookup reply, reduced to what the worker decides on.
#[derive(Debug, Clone, PartialEq, Eq)]
pub enum BatchReply {
    /// Success: the names the service reported as taken.
    Taken(Vec<String>),
    /// The service asked the caller to slow down.
    RateLimited,
    /// Any other response status: a protocol violation.
    Unexpected(u16),
}

/// An error that aborts the whole run.
#[derive(Debug, Clone, Copy, PartialEq, Eq, Structural)]
pub enum FatalError {
    /// The service answered with a status the protocol does not allow.
    UnexpectedStatus(u16),
    /// One batch was throttled `MAX_THROTTLE_ATTEMPTS` times.
    ThrottledRepeatedly,
}

/// What a worker does after taking one reply in.
#[derive(Debug)]
pub enum WorkerStep {
    /// Wait for the configured delay, then send the request again.
    Retry,
    /// The batch is classified; the worker is finished.
    Done(Vec<Outcome>),
    /// Abort the run.
    Fatal(FatalError),
}

/// Reduces a response to a reply: status 200 carries the names the body
/// reported as taken, 429 signals throttling, and any other status is a
/// protocol violation.
pub fn classify_response(status: u16, taken_raw: Vec<String>) -> (reply: BatchReply)
    ensures
        status == 200 ==> reply == BatchReply::Taken(taken_raw),
        status == 429 ==> reply == BatchReply::RateLimited,
        status != 200 && status != 429 ==> reply == BatchReply::Unexpected(status),
{
    if status == 200 {
        BatchReply::Taken(taken_raw)
    } else if status == 429 {
        BatchReply::RateLimited
    } else {
        BatchReply::Unexpected(status)
    }
}

/// The lookup lifecycle of one batch of identifiers.
pub struct Worker {
    /// The batch of identifiers this worker checks.
    pub batch: Vec<String>,
    /// Throttled replies seen so far for this batch.
    pub attempts: u64,
}

/// The name of the JSON text `serde_json::to_string` produces for a vector
/// of strings.
pub uninterp spec fn json_of_names(names: Seq<Seq<char>>) -> Seq<char>;

/// Relies on `serde_json::to_string`: the JSON text for a vector of
/// strings is a function of the strings alone, and the call cannot fail —
/// strings and vectors are serialized by an escaping routine that writes
/// into a byte buffer whose writes always succeed.
#[verifier::external_body]
fn encode_names(names: &Vec<String>) -> (r: Option<String>)
    ensures
        r is Some,
        r matches Some(s) ==> s@ == json_of_names(names.deep_view()),
{
    serde_json::to_string(names).ok()
}

impl Worker {
    /// A fresh worker for one batch; no throttled reply seen yet.
    pub fn new(batch: Vec<String>) -> (w: Worker)
        ensures
            w.batch == batch,
            w.attempts == 0,
    {
        Worker { batch, attempts: 0 }
    }

    /// The JSON body of the lookup request for this worker's batch.
    pub fn request_body(&self) -> (r: String)
        ensures
            r@ == json_of_names(self.batch.deep_view()),
    {
        match encode_names(&self.batch) {
            Some(body) => body,
            None => {
                proof {
                    assert(false);
                }
                String::new()
            },
        }
    }

    /// Takes one reply in and decides the next move: a successful reply
    /// finishes the batch with its classification; a throttled reply is
    /// retried until the ceiling is reached, then aborts; any other reply
    /// aborts at once.
    pub fn on_reply(&mut self, reply: &BatchReply) -> (step: WorkerStep)
        ensures
            final(self).batch == old(self).batch,
            match reply {
                BatchReply::Taken(t) => {
                    &&& final(self).attempts == old(self).attempts
                    &&& step matches WorkerStep::Done(outs) && classified(
                        old(self).batch.deep_view(),
                        t.deep_view(),
                        outs@,
                    )
                },
                BatchReply::RateLimited => {
                    if old(self).attempts + 1 < MAX_THROTTLE_ATTEMPTS {
                        &&& final(self).attempts == old(self).attempts + 1
                        &&& step matches WorkerStep::Retry
                    } else {
                        &&& final(self).attempts == old(self).attempts
                        &&& step matches WorkerStep::Fatal(FatalError::ThrottledRepeatedly)
                    }
                },
                BatchReply::Unexpected(c) => {
                    &&& final(self).attempts == old(self).attempts
                    &&& step matches WorkerStep::Fatal(FatalError::UnexpectedStatus(code))
                        && code == *c
                },
            },
    {
        match reply {
            BatchReply::Taken(t) => WorkerStep::Done(classify_batch(&self.batch, t)),
            BatchReply::RateLimited => {
                if self.attempts < MAX_THROTTLE_ATTEMPTS - 1 {
                    self.attempts = self.attempts + 1;
                    WorkerStep::Retry
                } else {
                    WorkerStep::Fatal(FatalError::ThrottledRepeatedly)
                }
            },
            BatchReply::Unexpected(c) => WorkerStep::Fatal(FatalError::UnexpectedStatus(*c)),
        }
    }
}

/// How a worker's run against a reply script ends, and how many replies
/// (that is, requests) it consumes.
pub enum BatchModel {
    /// A successful reply arrived: the names it reported as taken.
    Done { replies_used: int, taken_raw: Seq<Seq<char>> },
    /// The worker aborted the run.
    Fatal { replies_used: int, error: FatalError },
    /// The script ended before the worker was finished.
    Starved,
}

/// The same end with `k` more replies counted as consumed.
pub open spec fn model_shift(m: BatchModel, k: int) -> BatchModel {
    match m {
        BatchModel::Done { replies_used, taken_raw } => BatchModel::Done {
            replies_used: replies_used + k,
            taken_raw,
        },
        BatchModel::Fatal { replies_used, error } => BatchModel::Fatal {
            replies_used: replies_used + k,
            error,
        },
        BatchModel::Starved => BatchModel::Starved,
    }
}

/// A worker's run against a reply script, having already seen `attempts`
/// throttled replies.
pub open spec fn batch_model(replies: Seq<BatchReply>, attempts: int) -> BatchModel
    decreases replies.len(),
{
    if replies.len() == 0 {
        BatchModel::Starved
    } else {
        match replies.first() {
            BatchReply::Taken(t) => BatchModel::Done {
                replies_used: 1,
                taken_raw: t.deep_view(),
            },
            BatchReply::Unexpected(c) => BatchModel::Fatal {
                replies_used: 1,
                error: FatalError::UnexpectedStatus(c),
            },
            BatchReply::RateLimited => {
                if attempts + 1 < MAX_THROTTLE_ATTEMPTS {
                    model_shift(batch_model(replies.drop_first(), attempts + 1), 1)
                } else {
                    BatchModel::Fatal {
                        replies_used: 1,
                        error: FatalError::ThrottledRepeatedly,
                    }
                }
            },
        }
    }
}

/// How driving one worker against a fixed reply script ended: the
/// executable counterpart of [`BatchModel`].
#[derive(Debug)]
pub enum ScriptOutcome {
    /// The batch is classified.
    Done { replies_used: usize, outcomes: Vec<Outcome> },
    /// The worker aborted the run.
    Fatal { replies_used: usize, error: FatalError },
    /// The script ended before the worker was finished.
    Starved,
}

impl Worker {
    /// Drives the worker against a fixed reply script — a fake transport:
    /// reply `i` answers the worker's request number `i + 1`. Ends as
    /// [`batch_model`] describes.
    pub fn run_script(&mut self, replies: &Vec<BatchReply>) -> (r: ScriptOutcome)
        ensures
            final(self).batch == old(self).batch,
            match batch_model(replies@, old(self).attempts as int) {
                BatchModel::Done { replies_used, taken_raw } => r matches ScriptOutcome::Done {
                    replies_used: u,
                    outcomes,
                } && u == replies_used && classified(
                    old(self).batch.deep_view(),
                    taken_raw,
                    outcomes@,
                ),
                BatchModel::Fatal { replies_used, error } => r matches ScriptOutcome::Fatal {
                    replies_used: u,
                    error: e,
                } && u == replies_used && e == error,
                BatchModel::Starved => r matches ScriptOutcome::Starved,
            },
    {
        let n = replies.len();
        let mut i: usize = 0;
        proof {
            assert(replies@.skip(0) =~= replies@);
        }
        loop
            invariant
                n == replies@.len(),
                i <= n,
                self.batch == old(self).batch,
                batch_model(replies@, old(self).attempts as int) == model_shift(
                    batch_model(replies@.skip(i as int), self.attempts as int),
                    i as int,
                ),
            decreases n - i,
        {
            if i >= n {
                proof {
                    assert(replies@.skip(i as int).len() == 0);
                }
                return ScriptOutcome::Starved;
            }
            let ghost rest = replies@.skip(i as int);
            proof {
                assert(rest.first() == replies@[i as int]);
                assert(rest.drop_first() =~= replies@.skip(i as int + 1));
            }
            let step = self.on_reply(&replies[i]);
            i += 1;
            match step {
                WorkerStep::Retry => {},
                WorkerStep::Done(outcomes) => {
                    return ScriptOutcome::Done { replies_used: i, outcomes };
                },
                WorkerStep::Fatal(error) => {
                    return ScriptOutcome::Fatal { replies_used: i, error };
                },
            }
        }
    }
}

/// A fixed number of throttled replies followed by a successful one: the
/// worker consumes exactly `k + 1` replies — one request per reply — when
/// `k` is below the retry ceiling, and aborts on reply number
/// `MAX_THROTTLE_ATTEMPTS` otherwise, whatever follows in the script.
pub proof fn lemma_retry_bound(k: nat, t: Vec<String>, rest: Seq<BatchReply>)
    ensures
        ({
            let replies = Seq::new(k, |i: int| BatchReply::RateLimited) + seq![
                BatchReply::Taken(t),
            ] + rest;
            if k < MAX_THROTTLE_ATTEMPTS {
                batch_model(replies, 0) == (BatchModel::Done {
                    replies_used: k as int + 1,
                    taken_raw: t.deep_view(),
                })
            } else {
                batch_model(replies, 0) == (BatchModel::Fatal {
                    replies_used: MAX_THROTTLE_ATTEMPTS as int,
                    error: FatalError::ThrottledRepeatedly,
                })
            }
        }),
{
    lemma_retry_bound_rec(k, 0, t, rest);
}

proof fn lemma_retry_bound_rec(k: nat, attempts: int, t: Vec<String>, rest: Seq<BatchReply>)
    requires
        0 <= attempts < MAX_THROTTLE_ATTEMPTS,
    ensures
        ({
            let replies = Seq::new(k, |i: int| BatchReply::RateLimited) + seq![
                BatchReply::Taken(t),
            ] + rest;
            if attempts + k < MAX_THROTTLE_ATTEMPTS {
                batch_model(replies, attempts) == (BatchModel::Done {
                    replies_used: k as int + 1,
                    taken_raw: t.deep_view(),
                })
            } else {
                batch_model(replies, attempts) == (BatchModel::Fatal {
                    replies_used: MAX_THROTTLE_ATTEMPTS as int - attempts,
                    error: FatalError::ThrottledRepeatedly,
                })
            }
        }),
    decreases k,
{
    let replies = Seq::new(k, |i: int| BatchReply::RateLimited) + seq![BatchReply::Taken(t)]
        + rest;
    if k == 0 {
        assert(replies.first() == BatchReply::Taken(t));
    } else {
        assert(replies.first() == BatchReply::RateLimited);
        if attempts + 1 < MAX_THROTTLE_ATTEMPTS {
            lemma_retry_bound_rec((k - 1) as nat, attempts + 1, t, rest);
            assert(replies.drop_first() =~= Seq::new((k - 1) as nat, |i: int|
                BatchReply::RateLimited) + seq![BatchReply::Taken(t)] + rest);
        }
    }
}

} // verus!
