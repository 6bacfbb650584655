//! The dispatcher: cuts the identifiers into batches, hands each batch to
//! a worker while holding the number of concurrently admitted workers to
//! the configured bound, and collects the outcomes as workers finish.
//!
//! The crate drives the whole pipeline against a scripted transport in
//! [`run`]; a live transport drives the same pieces from outside the
//! crate, one worker task per batch.

use vstd::prelude::*;

use crate::outcome::{
    avail_from, available_of, classified, lemma_available_of_classified, lemma_outcomes_partition,
    outcome_names, taken_of, Outcome, aggregate,
};
use crate::utils::{contains_name, title_of, to_title};
use crate::worker::{
    batch_model, BatchModel, BatchReply, FatalError, ScriptOutcome, Worker,
};

verus! {

/// How many identifiers one lookup request may carry.
pub const BATCH_SIZE: usize = 10;

/// True when some name of `s` matches `x` up to case normalization.
pub open spec fn contains_title(s: Seq<Seq<char>>, x: Seq<char>) -> bool {
    exists|j: int| 0 <= j < s.len() && title_of(#[trigger] s[j]) == title_of(x)
}

/// The sequence with every name that repeats an earlier one up to case
/// normalization removed: the first occurrence is kept, as submitted.
pub open spec fn dedup_title(s: Seq<Seq<char>>) -> Seq<Seq<char>>
    decreases s.len(),
{
    if s.len() == 0 {
        s
    } else {
        let rest = dedup_title(s.drop_last());
        if contains_title(rest, s.last()) {
            rest
        } else {
            rest.push(s.last())
        }
    }
}

/// No two names of a title-deduplicated sequence match, not even up to
/// case normalization.
pub proof fn lemma_dedup_title_distinct(s: Seq<Seq<char>>)
    ensures
        forall|i: int, j: int|
            0 <= i < j < dedup_title(s).len() ==> title_of(#[trigger] dedup_title(s)[i])
                != title_of(#[trigger] dedup_title(s)[j]),
        dedup_title(s).no_duplicates(),
    decreases s.len(),
{
    if s.len() > 0 {
        lemma_dedup_title_distinct(s.drop_last());
        let rest = dedup_title(s.drop_last());
        if !contains_title(rest, s.last()) {
            let p = rest.push(s.last());
            assert(forall|i: int| 0 <= i < rest.len() ==> p[i] == rest[i]);
            assert(p[p.len() - 1] == s.last());
        }
    }
}

/// A sequence cut into consecutive pieces of at most `k` elements.
pub open spec fn chunks_of(s: Seq<Seq<char>>, k: int) -> Seq<Seq<Seq<char>>>
    decreases s.len(),
{
    if k <= 0 || s.len() == 0 {
        Seq::empty()
    } else if s.len() <= k {
        seq![s]
    } else {
        seq![s.take(k)] + chunks_of(s.skip(k), k)
    }
}

/// Title-deduplication drops only case-duplicates: a name is represented
/// in the deduplicated sequence exactly when it was submitted, up to case
/// normalization.
pub proof fn lemma_dedup_title_represents(s: Seq<Seq<char>>, x: Seq<char>)
    ensures
        contains_title(dedup_title(s), x) == contains_title(s, x),
    decreases s.len(),
{
    if s.len() > 0 {
        let dl = s.drop_last();
        let rest = dedup_title(dl);
        lemma_dedup_title_represents(dl, x);
        assert(contains_title(s, x) <==> contains_title(dl, x) || title_of(s.last()) == title_of(
            x,
        )) by {
            if contains_title(s, x) {
                let j = choose|j: int| 0 <= j < s.len() && title_of(s[j]) == title_of(x);
                if j < s.len() - 1 {
                    assert(title_of(dl[j]) == title_of(x));
                }
            }
            if contains_title(dl, x) {
                let j = choose|j: int| 0 <= j < dl.len() && title_of(dl[j]) == title_of(x);
                assert(title_of(s[j]) == title_of(x));
            }
            if title_of(s.last()) == title_of(x) {
                assert(title_of(s[s.len() - 1]) == title_of(x));
            }
        }
        if contains_title(rest, s.last()) {
            if title_of(s.last()) == title_of(x) {
                let j = choose|j: int|
                    0 <= j < rest.len() && title_of(rest[j]) == title_of(s.last());
                assert(title_of(rest[j]) == title_of(x));
            }
        } else {
            let p = rest.push(s.last());
            assert(contains_title(p, x) <==> contains_title(rest, x) || title_of(s.last())
                == title_of(x)) by {
                if contains_title(rest, x) {
                    let j = choose|j: int| 0 <= j < rest.len() && title_of(rest[j]) == title_of(x);
                    assert(title_of(p[j]) == title_of(x));
                }
                assert(p[p.len() - 1] == s.last());
                if contains_title(p, x) {
                    let j = choose|j: int| 0 <= j < p.len() && title_of(p[j]) == title_of(x);
                    if j < p.len() - 1 {
                        assert(title_of(rest[j]) == title_of(x));
                    }
                }
            }
        }
    }
}

/// The batches a run checks for the given identifiers: deduplicated up to
/// case normalization (first occurrence kept, as submitted) and cut into
/// batches of at most [`BATCH_SIZE`].
pub open spec fn batches_spec(names: Seq<Seq<char>>) -> Seq<Seq<Seq<char>>> {
    chunks_of(dedup_title(names), BATCH_SIZE as int)
}

/// Chunking loses no element and invents none: the chunks flatten back to
/// the original sequence.
pub proof fn lemma_chunks_flatten(s: Seq<Seq<char>>, k: int)
    requires
        k >= 1,
    ensures
        chunks_of(s, k).flatten() == s,
    decreases s.len(),
{
    if s.len() == 0 {
        assert(chunks_of(s, k).flatten() =~= s);
    } else if s.len() <= k {
        assert(chunks_of(s, k) == seq![s]);
        assert(seq![s].drop_first() =~= Seq::<Seq<Seq<char>>>::empty());
        assert(seq![s].drop_first().flatten() =~= Seq::<Seq<char>>::empty());
        assert(seq![s].flatten() == seq![s].first() + seq![s].drop_first().flatten());
        assert(seq![s].flatten() =~= s);
    } else {
        lemma_chunks_flatten(s.skip(k), k);
        let chunks = seq![s.take(k)] + chunks_of(s.skip(k), k);
        assert(chunks.first() == s.take(k));
        assert(chunks.drop_first() =~= chunks_of(s.skip(k), k));
        assert(chunks.flatten() == s.take(k) + s.skip(k));
        assert(s.take(k) + s.skip(k) =~= s);
    }
}

/// Deduplicates the identifiers up to case normalization and cuts them
/// into batches, as [`batches_spec`] describes. Deduplication compares
/// normalized names, so no identifier can reach two batches under
/// differing case and be reported twice; the batches carry the names as
/// submitted.
pub fn make_batches(names: &Vec<String>) -> (batches: Vec<Vec<String>>)
    ensures
        batches.deep_view() == batches_spec(names.deep_view()),
{
    let ghost dv = names.deep_view();
    let n = names.len();
    let mut unique: Vec<String> = Vec::new();
    let mut keys: Vec<String> = Vec::new();
    let mut i: usize = 0;
    while i < n
        invariant
            n == names@.len(),
            i <= n,
            dv == names.deep_view(),
            unique.deep_view() == dedup_title(dv.take(i as int)),
            keys@.len() == unique@.len(),
            forall|j: int|
                0 <= j < keys@.len() ==> keys.deep_view()[j] == title_of(
                    #[trigger] unique.deep_view()[j],
                ),
        decreases n - i,
    {
        let ghost prev = unique.deep_view();
        let ghost prev_keys = keys.deep_view();
        let name = names[i].clone();
        assert(name@ == dv[i as int]);
        let key = to_title(name.as_str());
        assert(dv.take(i + 1).drop_last() =~= dv.take(i as int));
        let seen = contains_name(&keys, &key);
        proof {
            if keys.deep_view().contains(key@) {
                let k = choose|k: int|
                    0 <= k < keys.deep_view().len() && keys.deep_view()[k] == key@;
                assert(title_of(prev[k]) == title_of(dv[i as int]));
            }
            if contains_title(prev, dv[i as int]) {
                let k = choose|k: int|
                    0 <= k < prev.len() && title_of(prev[k]) == title_of(dv[i as int]);
                assert(keys.deep_view()[k] == key@);
            }
        }
        if !seen {
            unique.push(name);
            keys.push(key);
            assert(unique.deep_view() =~= prev.push(dv[i as int]));
            assert(keys.deep_view() =~= prev_keys.push(title_of(dv[i as int])));
        }
        i += 1;
    }
    proof {
        assert(dv.take(n as int) =~= dv);
    }
    let ghost uv = unique.deep_view();
    let m = unique.len();
    let mut batches: Vec<Vec<String>> = Vec::new();
    let mut start: usize = 0;
    proof {
        assert(uv.skip(0) =~= uv);
        assert(batches.deep_view() =~= Seq::<Seq<Seq<char>>>::empty());
        assert(Seq::<Seq<Seq<char>>>::empty() + chunks_of(uv, BATCH_SIZE as int) =~= chunks_of(
            uv,
            BATCH_SIZE as int,
        ));
    }
    while start < m
        invariant
            m == unique@.len() == uv.len(),
            start <= m,
            uv == unique.deep_view(),
            chunks_of(uv, BATCH_SIZE as int) == batches.deep_view() + chunks_of(
                uv.skip(start as int),
                BATCH_SIZE as int,
            ),
        decreases m - start,
    {
        let ghost prev = batches.deep_view();
        let ghost rest = uv.skip(start as int);
        let end = if m - start < BATCH_SIZE {
            m
        } else {
            start + BATCH_SIZE
        };
        let mut batch: Vec<String> = Vec::new();
        let mut j: usize = start;
        while j < end
            invariant
                start <= j <= end <= m,
                m == unique@.len() == uv.len(),
                uv == unique.deep_view(),
                batch.deep_view() == uv.subrange(start as int, j as int),
            decreases end - j,
        {
            let ghost prev_batch = batch.deep_view();
            batch.push(unique[j].clone());
            assert(batch.deep_view() =~= prev_batch.push(uv[j as int]));
            assert(uv.subrange(start as int, j + 1) =~= uv.subrange(start as int, j as int).push(
                uv[j as int],
            ));
            j += 1;
        }
        batches.push(batch);
        proof {
            assert(batches.deep_view() =~= prev.push(uv.subrange(start as int, end as int)));
            if end == m {
                assert(rest.len() <= BATCH_SIZE);
                assert(uv.subrange(start as int, end as int) =~= rest);
                assert(chunks_of(rest, BATCH_SIZE as int) =~= seq![rest]);
                assert(uv.skip(end as int).len() == 0);
                assert(chunks_of(uv.skip(end as int), BATCH_SIZE as int)
                    =~= Seq::<Seq<Seq<char>>>::empty());
                assert(prev.push(rest) =~= prev + seq![rest]);
                assert(batches.deep_view() + chunks_of(uv.skip(end as int), BATCH_SIZE as int)
                    =~= prev + chunks_of(rest, BATCH_SIZE as int));
            } else {
                assert(rest.len() > BATCH_SIZE);
                assert(uv.subrange(start as int, end as int) =~= rest.take(BATCH_SIZE as int));
                assert(rest.skip(BATCH_SIZE as int) =~= uv.skip(end as int));
                assert(chunks_of(rest, BATCH_SIZE as int) == seq![rest.take(BATCH_SIZE as int)]
                    + chunks_of(uv.skip(end as int), BATCH_SIZE as int));
                assert(prev.push(rest.take(BATCH_SIZE as int)) =~= prev + seq![rest.take(
                    BATCH_SIZE as int,
                )]);
                assert(batches.deep_view() + chunks_of(uv.skip(end as int), BATCH_SIZE as int)
                    =~= prev + chunks_of(rest, BATCH_SIZE as int));
            }
        }
        start = end;
    }
    proof {
        assert(uv.skip(m as int).len() == 0);
        assert(chunks_of(uv.skip(m as int), BATCH_SIZE as int)
            =~= Seq::<Seq<Seq<char>>>::empty());
        assert(batches.deep_view() + Seq::<Seq<Seq<char>>>::empty() =~= batches.deep_view());
    }
    batches
}

/// The admission-controlled fan-out state: batches waiting to start,
/// workers in flight, and the outcomes collected so far.
pub struct Dispatcher {
    /// All batches of the run, in order.
    pub batches: Vec<Vec<String>>,
    /// How many batches have been handed to a worker.
    pub started: usize,
    /// How many admitted workers have not completed yet.
    pub in_flight: usize,
    /// The admission bound: at most this many workers in flight.
    pub concurrency: usize,
    /// Outcomes collected from completed workers.
    pub outcomes: Vec<Outcome>,
}

impl Dispatcher {
    /// The dispatcher is well-formed when the concurrency bound is
    /// positive and respected, and bookkeeping is consistent.
    pub open spec fn wf(&self) -> bool {
        &&& 1 <= self.concurrency
        &&& self.in_flight <= self.concurrency
        &&& self.started <= self.batches@.len()
        &&& self.in_flight <= self.started
    }

    /// A fresh dispatcher: nothing started, nothing in flight.
    pub fn new(batches: Vec<Vec<String>>, concurrency: usize) -> (d: Dispatcher)
        requires
            concurrency >= 1,
        ensures
            d.wf(),
            d.batches == batches,
            d.started == 0,
            d.in_flight == 0,
            d.concurrency == concurrency,
            d.outcomes@ == Seq::<Outcome>::empty(),
    {
        Dispatcher { batches, started: 0, in_flight: 0, concurrency, outcomes: Vec::new() }
    }

    /// Hands out the next batch when one is pending and an admission slot
    /// is free; refuses otherwise. In-flight workers never exceed the
    /// concurrency bound.
    pub fn start_next(&mut self) -> (b: Option<Vec<String>>)
        requires
            old(self).wf(),
        ensures
            final(self).wf(),
            final(self).batches == old(self).batches,
            final(self).concurrency == old(self).concurrency,
            final(self).outcomes == old(self).outcomes,
            final(self).in_flight <= final(self).concurrency,
            if old(self).in_flight < old(self).concurrency && old(self).started < old(
                self,
            ).batches@.len() {
                &&& b matches Some(batch) && batch.deep_view() == old(self).batches.deep_view()[
                    old(self).started as int
                ]
                &&& final(self).started == old(self).started + 1
                &&& final(self).in_flight == old(self).in_flight + 1
            } else {
                &&& b is None
                &&& final(self).started == old(self).started
                &&& final(self).in_flight == old(self).in_flight
            },
    {
        broadcast use vstd::std_specs::vec::vec_clone_deep_view_proof;

        if self.in_flight < self.concurrency && self.started < self.batches.len() {
            let batch = self.batches[self.started].clone();
            self.started += 1;
            self.in_flight += 1;
            Some(batch)
        } else {
            None
        }
    }

    /// Takes a completed worker's outcomes in and frees its admission slot.
    pub fn complete(&mut self, outs: Vec<Outcome>)
        requires
            old(self).wf(),
            old(self).in_flight >= 1,
        ensures
            final(self).wf(),
            final(self).batches == old(self).batches,
            final(self).concurrency == old(self).concurrency,
            final(self).started == old(self).started,
            final(self).in_flight == old(self).in_flight - 1,
            final(self).outcomes@ == old(self).outcomes@ + outs@,
    {
        let mut outs = outs;
        self.in_flight -= 1;
        self.outcomes.append(&mut outs);
    }
}

/// Law: admission control truly bounds the fan-out — a well-formed
/// dispatcher never has more workers in flight than the configured
/// concurrency, and every operation preserves well-formedness.
pub proof fn lemma_in_flight_bounded(d: &Dispatcher)
    requires
        d.wf(),
    ensures
        d.in_flight <= d.concurrency,
{
}

/// An error that ends a scripted run.
#[derive(Debug, Clone, Copy, PartialEq, Eq, Structural)]
pub enum RunError {
    /// A worker aborted the run.
    Fatal(FatalError),
    /// The reply script of some batch ended before the batch was finished;
    /// this arises only under a scripted transport.
    OutOfReplies,
}

/// How a run ends.
pub enum RunModel {
    /// Every batch succeeded: the available names, in batch order.
    Finished(Seq<Seq<char>>),
    /// A worker aborted the run.
    Fatal(FatalError),
    /// A reply script ended before its batch was finished.
    Starved,
}

/// The views of the per-batch reply scripts.
pub open spec fn scripts_of(replies: Seq<Vec<BatchReply>>) -> Seq<Seq<BatchReply>> {
    Seq::new(replies.len(), |i: int| replies[i]@)
}

/// A run over its batches, batch `i` answered by reply script `i`: each
/// batch contributes the names its reply did not report as taken, and the
/// first aborting batch ends the run.
pub open spec fn run_model(
    batches: Seq<Seq<Seq<char>>>,
    scripts: Seq<Seq<BatchReply>>,
) -> RunModel
    decreases batches.len(),
{
    if batches.len() == 0 {
        RunModel::Finished(Seq::empty())
    } else if scripts.len() == 0 {
        RunModel::Starved
    } else {
        match batch_model(scripts.first(), 0) {
            BatchModel::Done { replies_used, taken_raw } => match run_model(
                batches.drop_first(),
                scripts.drop_first(),
            ) {
                RunModel::Finished(rest) => RunModel::Finished(avail_from(batches.first(), taken_raw) + rest),
                RunModel::Fatal(e) => RunModel::Fatal(e),
                RunModel::Starved => RunModel::Starved,
            },
            BatchModel::Fatal { replies_used, error } => RunModel::Fatal(error),
            BatchModel::Starved => RunModel::Starved,
        }
    }
}

/// Checks the given identifiers against a scripted transport — the
/// verified reference of the whole pipeline. The identifiers are
/// deduplicated up to case normalization and batched as [`batches_spec`]
/// describes; one worker per batch runs under the dispatcher's admission control,
/// its lookups answered by `replies[i]`; the available names come back in
/// batch order. The run aborts on the first fatal reply, and reports a
/// script that ends too early as [`RunError::OutOfReplies`].
pub fn run(
    names: Vec<String>,
    parallel_requests: usize,
    replies: Vec<Vec<BatchReply>>,
) -> (r: Result<Vec<String>, RunError>)
    requires
        parallel_requests >= 1,
    ensures
        match run_model(batches_spec(names.deep_view()), scripts_of(replies@)) {
            RunModel::Finished(avail) => r matches Ok(v) && v.deep_view() == avail,
            RunModel::Fatal(e) => r == Err::<Vec<String>, RunError>(RunError::Fatal(e)),
            RunModel::Starved => r == Err::<Vec<String>, RunError>(RunError::OutOfReplies),
        },
{
    let batches = make_batches(&names);
    let ghost bspec = batches.deep_view();
    let ghost sspec = scripts_of(replies@);
    let n = batches.len();
    let mut dispatcher = Dispatcher::new(batches, parallel_requests);
    let mut available: Vec<String> = Vec::new();
    let mut i: usize = 0;
    proof {
        assert(bspec.skip(0) =~= bspec);
        assert(sspec.skip(0) =~= sspec);
        assert(available.deep_view() =~= Seq::<Seq<char>>::empty());
    }
    while i < n
        invariant
            n == bspec.len(),
            i <= n,
            i <= replies@.len(),
            dispatcher.wf(),
            dispatcher.in_flight == 0,
            dispatcher.started == i,
            dispatcher.concurrency == parallel_requests,
            dispatcher.batches.deep_view() == bspec,
            bspec == batches_spec(names.deep_view()),
            sspec == scripts_of(replies@),
            match run_model(bspec.skip(i as int), sspec.skip(i as int)) {
                RunModel::Finished(rest) => run_model(bspec, sspec) == RunModel::Finished(
                    available.deep_view() + rest,
                ),
                RunModel::Fatal(e) => run_model(bspec, sspec) == RunModel::Fatal(e),
                RunModel::Starved => run_model(bspec, sspec) == RunModel::Starved,
            },
        decreases n - i,
    {
        let ghost brest = bspec.skip(i as int);
        let ghost srest = sspec.skip(i as int);
        proof {
            assert(brest.first() == bspec[i as int]);
            assert(brest.drop_first() =~= bspec.skip(i as int + 1));
        }
        if i >= replies.len() {
            proof {
                assert(srest.len() == 0);
            }
            return Err(RunError::OutOfReplies);
        }
        proof {
            assert(srest.first() == replies@[i as int]@);
            assert(srest.drop_first() =~= sspec.skip(i as int + 1));
        }
        let batch = match dispatcher.start_next() {
            Some(batch) => batch,
            None => {
                proof {
                    assert(false);
                }
                return Err(RunError::OutOfReplies);
            },
        };
        let mut worker = Worker::new(batch);
        let script_result = worker.run_script(&replies[i]);
        match script_result {
            ScriptOutcome::Done { replies_used: _, outcomes } => {
                let ghost prev_avail = available.deep_view();
                proof {
                    match batch_model(srest.first(), 0) {
                        BatchModel::Done { replies_used: _, taken_raw } => {
                            lemma_available_of_classified(bspec[i as int], taken_raw, outcomes@);
                        },
                        BatchModel::Fatal { .. } => {
                            assert(false);
                        },
                        BatchModel::Starved => {
                            assert(false);
                        },
                    }
                }
                let mut batch_avail = aggregate(&outcomes);
                dispatcher.complete(outcomes);
                let ghost bav = batch_avail.deep_view();
                available.append(&mut batch_avail);
                proof {
                    assert(available.deep_view() =~= prev_avail + bav);
                    match run_model(bspec.skip(i as int + 1), sspec.skip(i as int + 1)) {
                        RunModel::Finished(rest) => {
                            assert(prev_avail + (bav + rest) =~= (prev_avail + bav) + rest);
                        },
                        RunModel::Fatal(_) => {},
                        RunModel::Starved => {},
                    }
                }
            },
            ScriptOutcome::Fatal { replies_used: _, error } => {
                return Err(RunError::Fatal(error));
            },
            ScriptOutcome::Starved => {
                return Err(RunError::OutOfReplies);
            },
        }
        i += 1;
    }
    proof {
        assert(bspec.skip(n as int).len() == 0);
        assert(available.deep_view() + Seq::<Seq<char>>::empty() =~= available.deep_view());
    }
    Ok(available)
}

/// Law: a run checks every submitted identifier exactly once — the
/// batches of a run together hold, without repetition, exactly the
/// submitted identifiers with case-duplicates dropped. Together with
/// [`lemma_outcome_conservation`], a completed run yields exactly one
/// outcome per checked identifier.
pub proof fn lemma_run_checks_each_identifier_once(names: Seq<Seq<char>>)
    ensures
        batches_spec(names).flatten() == dedup_title(names),
        batches_spec(names).flatten().no_duplicates(),
{
    lemma_chunks_flatten(dedup_title(names), BATCH_SIZE as int);
    lemma_dedup_title_distinct(names);
}

/// Law: one outcome per submitted identifier — when every batch of a run
/// is classified against its reply, the outcomes of all batches together
/// carry exactly the batched identifiers, in order: as many outcomes as
/// identifiers, and when the identifiers are distinct, no identifier
/// appears in two outcomes.
pub proof fn lemma_outcome_conservation(
    batches: Seq<Seq<Seq<char>>>,
    takens: Seq<Seq<Seq<char>>>,
    outs: Seq<Seq<Outcome>>,
)
    requires
        outs.len() == batches.len(),
        takens.len() == batches.len(),
        forall|i: int| 0 <= i < batches.len() ==> classified(
            #[trigger] batches[i],
            takens[i],
            outs[i],
        ),
    ensures
        outcome_names(outs.flatten()) == batches.flatten(),
    decreases batches.len(),
{
    if batches.len() == 0 {
        assert(outcome_names(outs.flatten()) =~= batches.flatten());
    } else {
        assert(forall|i: int| 0 <= i < batches.drop_first().len() ==> classified(
            #[trigger] batches.drop_first()[i],
            takens.drop_first()[i],
            outs.drop_first()[i],
        ));
        lemma_outcome_conservation(batches.drop_first(), takens.drop_first(), outs.drop_first());
        assert(outs.flatten() == outs.first() + outs.drop_first().flatten());
        assert(outcome_names(outs.first() + outs.drop_first().flatten()) =~= outcome_names(
            outs.first(),
        ) + outcome_names(outs.drop_first().flatten()));
        assert(outcome_names(outs.first()) =~= batches.first());
        assert(batches.flatten() == batches.first() + batches.drop_first().flatten());
    }
}

/// Law: one outcome per submitted identifier, for a whole run — when every
/// batch of a run over `names` is classified against its reply, the
/// outcomes of all batches carry exactly the submitted identifiers after
/// case-deduplication, one outcome each; and the available and the taken
/// names partition those identifiers: together they are exactly the
/// identifiers, no name stands on both sides, and the available names hold
/// no duplicates.
pub proof fn lemma_run_outcome_partition(
    names: Seq<Seq<char>>,
    takens: Seq<Seq<Seq<char>>>,
    outs: Seq<Seq<Outcome>>,
)
    requires
        outs.len() == batches_spec(names).len(),
        takens.len() == batches_spec(names).len(),
        forall|i: int| 0 <= i < batches_spec(names).len() ==> classified(
            #[trigger] batches_spec(names)[i],
            takens[i],
            outs[i],
        ),
    ensures
        outcome_names(outs.flatten()) == dedup_title(names),
        outcome_names(outs.flatten()).no_duplicates(),
        available_of(outs.flatten()).len() + taken_of(outs.flatten()).len() == dedup_title(
            names,
        ).len(),
        available_of(outs.flatten()).to_multiset().add(taken_of(outs.flatten()).to_multiset())
            == dedup_title(names).to_multiset(),
        available_of(outs.flatten()).no_duplicates(),
        forall|x: Seq<char>|
            !(#[trigger] available_of(outs.flatten()).contains(x)
                && #[trigger] taken_of(outs.flatten()).contains(x)),
{
    broadcast use vstd::multiset::group_multiset_axioms;
    broadcast use vstd::seq_lib::group_to_multiset_ensures;

    lemma_outcome_conservation(batches_spec(names), takens, outs);
    lemma_run_checks_each_identifier_once(names);
    let all = outs.flatten();
    let avail = available_of(all);
    let taken = taken_of(all);
    lemma_outcomes_partition(all);
    assert(outcome_names(all).len() == all.len());
    outcome_names(all).lemma_multiset_has_no_duplicates();
    assert forall|x: Seq<char>|
        avail.to_multiset().count(x) + taken.to_multiset().count(x) == outcome_names(
            all,
        ).to_multiset().count(x) by {
        assert(avail.to_multiset().add(taken.to_multiset()).count(x) == avail.to_multiset().count(
            x,
        ) + taken.to_multiset().count(x));
    }
    assert forall|x: Seq<char>| avail.to_multiset().contains(x) implies avail.to_multiset().count(
        x,
    ) == 1 by {
        assert(outcome_names(all).to_multiset().count(x) > 0);
    }
    avail.lemma_multiset_has_no_duplicates_conv();
    assert forall|x: Seq<char>| !(avail.contains(x) && taken.contains(x)) by {
        if avail.contains(x) && taken.contains(x) {
            assert(avail.to_multiset().count(x) > 0);
            assert(taken.to_multiset().count(x) > 0);
            assert(outcome_names(all).to_multiset().count(x) >= 2);
            assert(outcome_names(all).to_multiset().contains(x));
        }
    }
}

} // verus!
