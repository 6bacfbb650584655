//! Outcomes: the classified result of checking one identifier, the
//! classification of a batch against the names a lookup reported as taken,
//! and the aggregation of outcomes into the final available-name list.

use vstd::prelude::*;

use crate::utils::{contains_name, title_of, to_title};

verus! {

/// The classified result of checking one identifier.
#[derive(Debug, Clone, PartialEq, Eq)]
pub enum Outcome {
    /// The identifier is not registered on the remote service.
    Available(String),
    /// The identifier is already registered.
    Taken(String),
}

/// The identifier an outcome is about.
pub open spec fn outcome_name(o: Outcome) -> Seq<char> {
    match o {
        Outcome::Available(n) => n@,
        Outcome::Taken(n) => n@,
    }
}

/// True when the outcome reports its identifier as available.
pub open spec fn is_available(o: Outcome) -> bool {
    o is Available
}

/// The identifiers of a sequence of outcomes, in order.
pub open spec fn outcome_names(outs: Seq<Outcome>) -> Seq<Seq<char>> {
    Seq::new(outs.len(), |i: int| outcome_name(outs[i]))
}

/// True when the lookup response reported the name as taken: some reported
/// name matches `name` after both are normalized to title case.
pub open spec fn taken_reported(taken_raw: Seq<Seq<char>>, name: Seq<char>) -> bool {
    exists|j: int| 0 <= j < taken_raw.len() && title_of(#[trigger] taken_raw[j]) == title_of(name)
}

/// True when `outs` classifies `batch` against a response reporting
/// `taken_raw` as taken: one outcome per batch member, in batch order,
/// available exactly when the response did not report the name.
pub open spec fn classified(
    batch: Seq<Seq<char>>,
    taken_raw: Seq<Seq<char>>,
    outs: Seq<Outcome>,
) -> bool {
    &&& outs.len() == batch.len()
    &&& forall|i: int| 0 <= i < batch.len() ==> outcome_name(#[trigger] outs[i]) == batch[i]
    &&& forall|i: int|
        0 <= i < batch.len() ==> (is_available(#[trigger] outs[i]) <==> !taken_reported(
            taken_raw,
            batch[i],
        ))
}

/// Classifies every name of a batch against the names a lookup response
/// reported as taken. Both sides of the comparison are normalized to title
/// case — never just one, so the set difference cannot misclassify a name
/// over a case mismatch — while the outcomes carry the names as submitted.
pub fn classify_batch(batch: &Vec<String>, taken_raw: &Vec<String>) -> (outs: Vec<Outcome>)
    ensures
        classified(batch.deep_view(), taken_raw.deep_view(), outs@),
{
    let ghost traw = taken_raw.deep_view();
    let mut normalized: Vec<String> = Vec::new();
    let m = taken_raw.len();
    let mut j: usize = 0;
    while j < m
        invariant
            m == taken_raw@.len(),
            j <= m,
            traw == taken_raw.deep_view(),
            normalized@.len() == j,
            forall|k: int|
                0 <= k < j ==> normalized.deep_view()[k] == title_of(#[trigger] traw[k]),
        decreases m - j,
    {
        normalized.push(to_title(taken_raw[j].as_str()));
        j += 1;
    }
    let ghost bv = batch.deep_view();
    let mut outs: Vec<Outcome> = Vec::new();
    let n = batch.len();
    let mut i: usize = 0;
    while i < n
        invariant
            n == batch@.len(),
            i <= n,
            bv == batch.deep_view(),
            traw == taken_raw.deep_view(),
            normalized@.len() == traw.len(),
            forall|k: int|
                0 <= k < traw.len() ==> normalized.deep_view()[k] == title_of(#[trigger] traw[k]),
            outs@.len() == i,
            forall|k: int| 0 <= k < i ==> outcome_name(#[trigger] outs@[k]) == bv[k],
            forall|k: int|
                0 <= k < i ==> (is_available(#[trigger] outs@[k]) <==> !taken_reported(
                    traw,
                    bv[k],
                )),
        decreases n - i,
    {
        let name = batch[i].clone();
        let key = to_title(name.as_str());
        let reported = contains_name(&normalized, &key);
        proof {
            if normalized.deep_view().contains(key@) {
                let k = choose|k: int|
                    0 <= k < normalized.deep_view().len() && normalized.deep_view()[k] == key@;
                assert(title_of(traw[k]) == title_of(name@));
            }
            if taken_reported(traw, name@) {
                let k = choose|k: int| 0 <= k < traw.len() && title_of(traw[k]) == title_of(name@);
                assert(normalized.deep_view()[k] == key@);
            }
        }
        if reported {
            outs.push(Outcome::Taken(name));
        } else {
            outs.push(Outcome::Available(name));
        }
        i += 1;
    }
    outs
}

/// The available names a classification of `batch` against `taken_raw`
/// yields, in batch order: the batch members the response did not report.
pub open spec fn avail_from(batch: Seq<Seq<char>>, taken_raw: Seq<Seq<char>>) -> Seq<Seq<char>>
    decreases batch.len(),
{
    if batch.len() == 0 {
        Seq::empty()
    } else {
        let rest = avail_from(batch.drop_last(), taken_raw);
        if taken_reported(taken_raw, batch.last()) {
            rest
        } else {
            rest.push(batch.last())
        }
    }
}

/// The names of the available outcomes, in order.
pub open spec fn available_of(outs: Seq<Outcome>) -> Seq<Seq<char>>
    decreases outs.len(),
{
    if outs.len() == 0 {
        Seq::empty()
    } else {
        let rest = available_of(outs.drop_last());
        if is_available(outs.last()) {
            rest.push(outcome_name(outs.last()))
        } else {
            rest
        }
    }
}

/// The names of the taken outcomes, in order.
pub open spec fn taken_of(outs: Seq<Outcome>) -> Seq<Seq<char>>
    decreases outs.len(),
{
    if outs.len() == 0 {
        Seq::empty()
    } else {
        let rest = taken_of(outs.drop_last());
        if is_available(outs.last()) {
            rest
        } else {
            rest.push(outcome_name(outs.last()))
        }
    }
}

/// Every outcome sorts its identifier into exactly one aggregate: the
/// available and the taken names together are, as a multiset, exactly the
/// outcome names, and their lengths sum to the outcome count.
pub proof fn lemma_outcomes_partition(outs: Seq<Outcome>)
    ensures
        available_of(outs).len() + taken_of(outs).len() == outs.len(),
        available_of(outs).to_multiset().add(taken_of(outs).to_multiset()) == outcome_names(
            outs,
        ).to_multiset(),
    decreases outs.len(),
{
    broadcast use vstd::multiset::group_multiset_axioms;
    broadcast use vstd::seq_lib::group_to_multiset_ensures;
    broadcast use vstd::multiset::lemma_multiset_empty_len;

    if outs.len() == 0 {
        assert(outcome_names(outs) =~= Seq::<Seq<char>>::empty());
        assert(available_of(outs).to_multiset().len() == 0);
        assert(taken_of(outs).to_multiset().len() == 0);
        assert(outcome_names(outs).to_multiset().len() == 0);
        assert(available_of(outs).to_multiset().add(taken_of(outs).to_multiset())
            =~= outcome_names(outs).to_multiset());
    } else {
        let dl = outs.drop_last();
        let name = outcome_name(outs.last());
        lemma_outcomes_partition(dl);
        assert(outcome_names(outs) =~= outcome_names(dl).push(name));
        assert(outcome_names(dl).push(name).to_multiset() =~= outcome_names(
            dl,
        ).to_multiset().insert(name));
        if is_available(outs.last()) {
            assert(available_of(dl).push(name).to_multiset() =~= available_of(
                dl,
            ).to_multiset().insert(name));
        } else {
            assert(taken_of(dl).push(name).to_multiset() =~= taken_of(dl).to_multiset().insert(
                name,
            ));
        }
        assert(available_of(outs).to_multiset().add(taken_of(outs).to_multiset())
            =~= outcome_names(outs).to_multiset());
    }
}

/// Aggregation is oblivious to how outcomes were grouped: the available
/// names of concatenated outcomes are the concatenated available names.
pub proof fn lemma_available_of_concat(a: Seq<Outcome>, b: Seq<Outcome>)
    ensures
        available_of(a + b) == available_of(a) + available_of(b),
    decreases b.len(),
{
    if b.len() == 0 {
        assert(a + b =~= a);
        assert(available_of(a) + available_of(b) =~= available_of(a));
    } else {
        lemma_available_of_concat(a, b.drop_last());
        assert((a + b).drop_last() =~= a + b.drop_last());
        if is_available(b.last()) {
            assert(available_of(a) + available_of(b) =~= (available_of(a) + available_of(
                b.drop_last(),
            )).push(outcome_name(b.last())));
        } else {
            assert(available_of(a) + available_of(b) =~= available_of(a) + available_of(
                b.drop_last(),
            ));
        }
    }
}

/// A classification's available names are exactly the batch members the
/// response did not report as taken, in batch order.
pub proof fn lemma_available_of_classified(
    batch: Seq<Seq<char>>,
    taken_raw: Seq<Seq<char>>,
    outs: Seq<Outcome>,
)
    requires
        classified(batch, taken_raw, outs),
    ensures
        available_of(outs) == avail_from(batch, taken_raw),
    decreases outs.len(),
{
    if outs.len() > 0 {
        assert(classified(batch.drop_last(), taken_raw, outs.drop_last()));
        lemma_available_of_classified(batch.drop_last(), taken_raw, outs.drop_last());
    }
}

/// One outcome per submitted identifier: a classification's outcomes carry
/// exactly the batch's names, in batch order.
pub proof fn lemma_outcome_names_classified(
    batch: Seq<Seq<char>>,
    taken_raw: Seq<Seq<char>>,
    outs: Seq<Outcome>,
)
    requires
        classified(batch, taken_raw, outs),
    ensures
        outcome_names(outs) == batch,
{
    assert(outcome_names(outs) =~= batch);
}

/// Collects the identifiers whose outcome is available, in order.
pub fn aggregate(outcomes: &Vec<Outcome>) -> (r: Vec<String>)
    ensures
        r.deep_view() == available_of(outcomes@),
{
    let mut r: Vec<String> = Vec::new();
    let n = outcomes.len();
    let mut i: usize = 0;
    while i < n
        invariant
            n == outcomes@.len(),
            i <= n,
            r.deep_view() == available_of(outcomes@.take(i as int)),
        decreases n - i,
    {
        let ghost prev = r.deep_view();
        match &outcomes[i] {
            Outcome::Available(name) => {
                r.push(name.clone());
                assert(r.deep_view() =~= prev.push(outcome_name(outcomes@[i as int])));
            },
            Outcome::Taken(_) => {},
        }
        proof {
            assert(outcomes@.take(i + 1).drop_last() =~= outcomes@.take(i as int));
        }
        i += 1;
    }
    proof {
        assert(outcomes@.take(n as int) =~= outcomes@);
    }
    r
}

} // verus!
