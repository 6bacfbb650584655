use name_checker::dispatcher::{make_batches, run, Dispatcher, RunError};
use name_checker::utils::get_name_validity;
use name_checker::worker::{BatchReply, FatalError};

fn s(x: &str) -> String {
    x.to_string()
}

#[test]
fn batches_hold_at_most_ten_names() {
    let names: Vec<String> = (0..12).map(|i| format!("name_{}", i)).collect();
    let batches = make_batches(&names);
    assert_eq!(batches.len(), 2);
    assert_eq!(batches[0].len(), 10);
    assert_eq!(batches[1].len(), 2);
    assert_eq!(batches[1], vec![s("name_10"), s("name_11")]);
}

#[test]
fn batching_deduplicates_up_to_case() {
    let names = vec![s("steve"), s("Steve"), s("STEVE"), s("alex")];
    let batches = make_batches(&names);
    assert_eq!(batches, vec![vec![s("steve"), s("alex")]]);
}

#[test]
fn no_names_make_no_batches() {
    let batches = make_batches(&Vec::new());
    assert!(batches.is_empty());
}

#[test]
fn dispatcher_never_exceeds_the_concurrency_bound() {
    let batches = vec![vec![s("one")], vec![s("two")], vec![s("three")]];
    let mut dispatcher = Dispatcher::new(batches, 2);
    assert!(dispatcher.start_next().is_some());
    assert!(dispatcher.start_next().is_some());
    assert_eq!(dispatcher.in_flight, 2);
    // Both slots are occupied: admission is refused.
    assert!(dispatcher.start_next().is_none());
    dispatcher.complete(Vec::new());
    assert_eq!(dispatcher.in_flight, 1);
    assert!(dispatcher.start_next().is_some());
    assert!(dispatcher.start_next().is_none());
}

#[test]
fn dispatcher_hands_out_batches_in_order() {
    let batches = vec![vec![s("one")], vec![s("two")]];
    let mut dispatcher = Dispatcher::new(batches, 8);
    assert_eq!(dispatcher.start_next(), Some(vec![s("one")]));
    assert_eq!(dispatcher.start_next(), Some(vec![s("two")]));
    assert_eq!(dispatcher.start_next(), None);
}

#[test]
fn full_scenario_from_raw_names_to_available_list() {
    let raw = vec![s("ab"), s("Steve123"), s("valid_name"), s("toolongtoolongtoolong")];
    let data = get_name_validity(raw);
    assert_eq!(data.valid_names, vec![s("Steve123"), s("valid_name")]);
    assert_eq!(data.invalid_names, vec![s("ab"), s("toolongtoolongtoolong")]);
    let replies = vec![vec![BatchReply::Taken(vec![s("Steve123")])]];
    let result = run(data.valid_names, 4, replies);
    assert_eq!(result, Ok(vec![s("valid_name")]));
}

#[test]
fn run_of_no_identifiers_is_empty() {
    let result = run(Vec::new(), 1, Vec::new());
    assert_eq!(result, Ok(Vec::<String>::new()));
}

#[test]
fn run_recovers_from_throttling_within_the_ceiling() {
    let names = vec![s("Steve"), s("Alex")];
    let replies = vec![vec![
        BatchReply::RateLimited,
        BatchReply::RateLimited,
        BatchReply::Taken(vec![s("Steve")]),
    ]];
    assert_eq!(run(names, 2, replies), Ok(vec![s("Alex")]));
}

#[test]
fn run_aborts_when_throttled_past_the_ceiling() {
    let names = vec![s("Steve")];
    let replies = vec![vec![
        BatchReply::RateLimited,
        BatchReply::RateLimited,
        BatchReply::RateLimited,
        BatchReply::Taken(Vec::new()),
    ]];
    assert_eq!(run(names, 2, replies), Err(RunError::Fatal(FatalError::ThrottledRepeatedly)));
}

#[test]
fn run_aborts_on_a_protocol_violation() {
    let names = vec![s("Steve")];
    let replies = vec![vec![BatchReply::Unexpected(503)]];
    assert_eq!(run(names, 2, replies), Err(RunError::Fatal(FatalError::UnexpectedStatus(503))));
}

#[test]
fn run_reports_a_script_that_ends_too_early() {
    let names = vec![s("Steve")];
    assert_eq!(run(names, 2, Vec::new()), Err(RunError::OutOfReplies));
    let names = vec![s("Steve")];
    let replies = vec![vec![BatchReply::RateLimited]];
    assert_eq!(run(names, 2, replies), Err(RunError::OutOfReplies));
}

#[test]
fn one_outcome_per_identifier_across_batches() {
    let names: Vec<String> = (0..23).map(|i| format!("name_{}", i)).collect();
    // Three batches; every name is reported taken in the second batch only.
    let taken: Vec<String> = (10..20).map(|i| format!("name_{}", i)).collect();
    let replies = vec![
        vec![BatchReply::Taken(Vec::new())],
        vec![BatchReply::Taken(taken)],
        vec![BatchReply::Taken(Vec::new())],
    ];
    let available = run(names, 3, replies).unwrap();
    let expected: Vec<String> = (0..10).chain(20..23).map(|i| format!("name_{}", i)).collect();
    assert_eq!(available, expected);
}

#[test]
fn a_fatal_batch_forfeits_the_whole_run() {
    let names: Vec<String> = (0..15).map(|i| format!("name_{}", i)).collect();
    let replies = vec![
        vec![BatchReply::Taken(Vec::new())],
        vec![BatchReply::Unexpected(418)],
    ];
    assert_eq!(run(names, 3, replies), Err(RunError::Fatal(FatalError::UnexpectedStatus(418))));
}
