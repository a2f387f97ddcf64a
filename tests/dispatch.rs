use translate_comments::dispatch::{worker_count, Dispatch, BACKOFF_STEP_MS, MAX_ATTEMPTS};
use translate_comments::gpt::{QueryRequest, QueryResult};

fn request(text: &str, checksum: u64) -> QueryRequest {
    QueryRequest { language: "es".to_string(), text: text.to_string(), text_checksum: checksum }
}

fn answer(q: &QueryRequest) -> QueryResult {
    QueryResult {
        text: q.text.clone(),
        text_translation: format!("es:{}", q.text),
        text_checksum: q.text_checksum,
    }
}

#[test]
fn worker_count_is_bounded_by_requests() {
    assert_eq!(worker_count(10, 2), 2);
    assert_eq!(worker_count(1, 5), 1);
    assert_eq!(worker_count(0, 5), 0);
    assert_eq!(worker_count(3, 0), 0);
}

#[test]
fn one_worker_runs_requests_one_at_a_time() {
    let requests: Vec<QueryRequest> = (1..=5).map(|i| request(&format!("c{}", i), i)).collect();
    let mut d = Dispatch::new(requests, 1);
    assert_eq!(d.workers_count(), 1);
    let mut seen = Vec::new();
    while !d.is_done() {
        let job = d.take().expect("a job for the free worker");
        assert_eq!(d.in_flight_count(), 1);
        assert!(d.take().is_none());
        seen.push(job.request.text_checksum);
        d.complete(answer(&job.request));
        assert_eq!(d.in_flight_count(), 0);
    }
    assert_eq!(seen, vec![1, 2, 3, 4, 5]);
    let out = d.finish();
    assert_eq!(out.results.len(), 5);
    assert!(out.untranslated.is_empty());
}

#[test]
fn in_flight_never_exceeds_workers() {
    let requests: Vec<QueryRequest> = (1..=4).map(|i| request("x", i)).collect();
    let mut d = Dispatch::new(requests, 10);
    assert_eq!(d.workers_count(), 4);
    let mut jobs = Vec::new();
    while let Some(job) = d.take() {
        jobs.push(job);
        assert!(d.in_flight_count() <= d.workers_count());
    }
    assert_eq!(jobs.len(), 4);
    for job in &jobs {
        d.complete(answer(&job.request));
    }
    assert!(d.is_done());
    assert_eq!(d.finish().results.len(), 4);
}

#[test]
fn failed_job_is_retried_then_given_up() {
    let mut d = Dispatch::new(vec![request("x", 7)], 2);
    let mut job = d.take().unwrap();
    let mut delays = Vec::new();
    while let Some(retry) = d.fail(job.clone()) {
        delays.push(retry.delay_ms);
        job = retry.job;
    }
    assert_eq!(delays.len() as u64, MAX_ATTEMPTS - 1);
    assert_eq!(delays[0], BACKOFF_STEP_MS);
    assert_eq!(delays[1], 2 * BACKOFF_STEP_MS);
    assert!(d.is_done());
    let out = d.finish();
    assert!(out.results.is_empty());
    assert_eq!(out.untranslated, vec![7]);
}

#[test]
fn retry_that_succeeds_gives_a_result() {
    let mut d = Dispatch::new(vec![request("x", 7)], 1);
    let job = d.take().unwrap();
    let retry = d.fail(job).unwrap();
    assert_eq!(retry.job.attempt, 1);
    assert_eq!(d.in_flight_count(), 1);
    d.complete(answer(&retry.job.request));
    let out = d.finish();
    assert_eq!(out.results.len(), 1);
    assert!(out.untranslated.is_empty());
}

#[test]
fn cancel_stops_handing_out_and_drains() {
    let requests: Vec<QueryRequest> = (1..=3).map(|i| request("x", i)).collect();
    let mut d = Dispatch::new(requests, 1);
    let job = d.take().unwrap();
    d.cancel();
    assert!(d.take().is_none());
    assert!(!d.is_done());
    d.complete(answer(&job.request));
    assert!(d.is_done());
    let out = d.finish();
    assert_eq!(out.results.len(), 1);
    assert_eq!(out.untranslated, vec![2, 3]);
}

#[test]
fn zero_concurrency_sends_nothing() {
    let mut d = Dispatch::new(vec![request("x", 1)], 0);
    assert!(d.take().is_none());
    assert!(d.is_done());
    assert_eq!(d.finish().untranslated, vec![1]);
}
