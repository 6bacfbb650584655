use name_checker::outcome::{aggregate, classify_batch, Outcome};
use name_checker::ratelimit::RateLimitState;
use name_checker::worker::{
    classify_response, BatchReply, FatalError, ScriptOutcome, Worker, WorkerStep,
    MAX_THROTTLE_ATTEMPTS,
};

fn s(x: &str) -> String {
    x.to_string()
}

#[test]
fn status_codes_classify_as_the_protocol_says() {
    assert_eq!(classify_response(200, vec![s("Steve")]), BatchReply::Taken(vec![s("Steve")]));
    assert_eq!(classify_response(429, Vec::new()), BatchReply::RateLimited);
    assert_eq!(classify_response(404, Vec::new()), BatchReply::Unexpected(404));
    assert_eq!(classify_response(500, Vec::new()), BatchReply::Unexpected(500));
}

#[test]
fn batch_difference_yields_the_unreported_names() {
    let batch = vec![s("Steve"), s("Alex"), s("Notch")];
    let outcomes = classify_batch(&batch, &vec![s("Steve")]);
    assert_eq!(outcomes.len(), 3);
    assert_eq!(outcomes[0], Outcome::Taken(s("Steve")));
    assert_eq!(outcomes[1], Outcome::Available(s("Alex")));
    assert_eq!(outcomes[2], Outcome::Available(s("Notch")));
    assert_eq!(aggregate(&outcomes), vec![s("Alex"), s("Notch")]);
}

#[test]
fn batch_difference_normalizes_both_sides() {
    let batch = vec![s("Steve"), s("alex")];
    let outcomes = classify_batch(&batch, &vec![s("STEVE"), s("Alex")]);
    assert_eq!(outcomes[0], Outcome::Taken(s("Steve")));
    assert_eq!(outcomes[1], Outcome::Taken(s("alex")));
    assert_eq!(aggregate(&outcomes), Vec::<String>::new());
}

#[test]
fn empty_response_leaves_the_whole_batch_available() {
    let batch = vec![s("Steve"), s("Alex")];
    let outcomes = classify_batch(&batch, &Vec::new());
    assert_eq!(aggregate(&outcomes), vec![s("Steve"), s("Alex")]);
}

#[test]
fn aggregate_of_no_outcomes_is_empty() {
    assert_eq!(aggregate(&Vec::new()), Vec::<String>::new());
}

#[test]
fn worker_finishes_on_a_successful_reply() {
    let mut worker = Worker::new(vec![s("Steve"), s("Alex")]);
    let step = worker.on_reply(&BatchReply::Taken(vec![s("Steve")]));
    match step {
        WorkerStep::Done(outcomes) => {
            assert_eq!(aggregate(&outcomes), vec![s("Alex")]);
        }
        _ => panic!("expected the worker to finish"),
    }
}

#[test]
fn worker_retries_below_the_ceiling_and_then_gives_up() {
    let mut worker = Worker::new(vec![s("Steve")]);
    assert!(matches!(worker.on_reply(&BatchReply::RateLimited), WorkerStep::Retry));
    assert!(matches!(worker.on_reply(&BatchReply::RateLimited), WorkerStep::Retry));
    assert!(matches!(
        worker.on_reply(&BatchReply::RateLimited),
        WorkerStep::Fatal(FatalError::ThrottledRepeatedly)
    ));
}

#[test]
fn worker_aborts_on_an_unexpected_status() {
    let mut worker = Worker::new(vec![s("Steve")]);
    assert!(matches!(
        worker.on_reply(&BatchReply::Unexpected(500)),
        WorkerStep::Fatal(FatalError::UnexpectedStatus(500))
    ));
}

#[test]
fn throttled_twice_then_success_takes_three_requests() {
    let mut worker = Worker::new(vec![s("Steve")]);
    let script = vec![
        BatchReply::RateLimited,
        BatchReply::RateLimited,
        BatchReply::Taken(Vec::new()),
    ];
    match worker.run_script(&script) {
        ScriptOutcome::Done { replies_used, outcomes } => {
            assert_eq!(replies_used, 3);
            assert_eq!(aggregate(&outcomes), vec![s("Steve")]);
        }
        _ => panic!("expected the worker to finish"),
    }
}

#[test]
fn throttled_up_to_the_ceiling_is_fatal() {
    let mut worker = Worker::new(vec![s("Steve")]);
    let script = vec![
        BatchReply::RateLimited,
        BatchReply::RateLimited,
        BatchReply::RateLimited,
        BatchReply::Taken(Vec::new()),
    ];
    match worker.run_script(&script) {
        ScriptOutcome::Fatal { replies_used, error } => {
            assert_eq!(replies_used, MAX_THROTTLE_ATTEMPTS as usize);
            assert_eq!(error, FatalError::ThrottledRepeatedly);
        }
        _ => panic!("expected the worker to abort"),
    }
}

#[test]
fn a_script_that_ends_too_early_starves_the_worker() {
    let mut worker = Worker::new(vec![s("Steve")]);
    let script = vec![BatchReply::RateLimited];
    assert!(matches!(worker.run_script(&script), ScriptOutcome::Starved));
}

#[test]
fn request_body_is_the_json_of_the_batch() {
    let worker = Worker::new(vec![s("Steve"), s("Alex")]);
    assert_eq!(worker.request_body(), s("[\"Steve\",\"Alex\"]"));
    let empty = Worker::new(Vec::new());
    assert_eq!(empty.request_body(), s("[]"));
}

#[test]
fn notice_falls_due_when_every_worker_is_throttled() {
    let mut state = RateLimitState::new(3);
    assert!(!state.notify_throttled());
    assert!(!state.notify_throttled());
    assert!(state.notify_throttled());
    assert!(!state.notify_throttled());
}

#[test]
fn one_notice_per_complete_episode() {
    let mut state = RateLimitState::new(5);
    assert_eq!(state.notify_burst(5), 1);
    let mut state = RateLimitState::new(5);
    assert_eq!(state.notify_burst(4), 0);
    let mut state = RateLimitState::new(5);
    assert_eq!(state.notify_burst(10), 2);
}

#[test]
fn a_single_worker_run_notices_at_once() {
    let mut state = RateLimitState::new(1);
    assert_eq!(state.notify_burst(1), 1);
}

#[test]
fn all_workers_throttled_on_first_call_notice_once() {
    // A full throttling episode: every concurrently active worker receives
    // 429 on its first call and reports it; the notice falls due exactly
    // once, not once per worker.
    let concurrency = 4;
    let mut state = RateLimitState::new(concurrency);
    let mut notices = 0;
    for i in 0..concurrency {
        let mut worker = Worker::new(vec![format!("name_{}", i)]);
        assert!(matches!(worker.on_reply(&BatchReply::RateLimited), WorkerStep::Retry));
        if state.notify_throttled() {
            notices += 1;
        }
    }
    assert_eq!(notices, 1);
}
