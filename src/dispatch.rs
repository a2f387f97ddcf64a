//! The decisions of the bounded worker pool that sends requests to the
//! service. The pool itself runs outside the library: each worker asks
//! `Dispatch::take` for a job, performs the call, and reports back with
//! `complete` or `fail`. The state hands out at most one job per free worker
//! slot, so no more calls are in flight than there are workers.

use crate::gpt::{QueryRequest, QueryResult};
use vstd::prelude::*;

verus! {

/// The attempts a request gets before it is given up.
pub const MAX_ATTEMPTS: u64 = 3;

/// The wait before a retry, per attempt already made, in milliseconds.
pub const BACKOFF_STEP_MS: u64 = 500;

/// The number of workers: never more than there are requests.
pub fn worker_count(concurrency: usize, requests: usize) -> (r: usize)
    ensures
        r == if concurrency <= requests {
            concurrency
        } else {
            requests
        },
{
    if concurrency <= requests {
        concurrency
    } else {
        requests
    }
}

/// A request handed to a worker, with the number of attempts made before.
#[derive(Clone, Debug)]
pub struct Job {
    pub request: QueryRequest,
    pub attempt: u64,
}

/// A failed job to run again after `delay_ms`.
#[derive(Clone, Debug)]
pub struct Retry {
    pub job: Job,
    pub delay_ms: u64,
}

/// What a run of the pool leaves: the results, and the checksums that were
/// not translated (given up after their attempts, or never sent because the
/// run was cancelled).
pub struct Outcome {
    pub results: Vec<QueryResult>,
    pub untranslated: Vec<u64>,
}

pub struct Dispatch {
    queue: Vec<QueryRequest>,
    next: usize,
    in_flight: usize,
    workers: usize,
    concurrency: usize,
    results: Vec<QueryResult>,
    failed: Vec<u64>,
    cancelled: bool,
}

pub open spec fn min(a: int, b: int) -> int {
    if a <= b {
        a
    } else {
        b
    }
}

impl Dispatch {
    /// The requests not yet handed out, in the order they will go.
    pub closed spec fn pending(&self) -> Seq<QueryRequest> {
        self.queue@.subrange(self.next as int, self.queue@.len() as int)
    }

    /// The number of requests the run started with.
    pub closed spec fn total(&self) -> nat {
        self.queue@.len()
    }

    pub closed spec fn in_flight(&self) -> nat {
        self.in_flight as nat
    }

    pub closed spec fn workers(&self) -> nat {
        self.workers as nat
    }

    pub closed spec fn concurrency(&self) -> nat {
        self.concurrency as nat
    }

    pub closed spec fn results(&self) -> Seq<QueryResult> {
        self.results@
    }

    pub closed spec fn failed(&self) -> Seq<u64> {
        self.failed@
    }

    pub closed spec fn cancelled(&self) -> bool {
        self.cancelled
    }

    pub closed spec fn wf(&self) -> bool {
        &&& self.next <= self.queue@.len()
        &&& self.workers == min(self.concurrency as int, self.queue@.len() as int)
        &&& self.in_flight <= self.workers
        &&& self.results@.len() + self.failed@.len() + self.in_flight + (self.queue@.len() - self.next)
            == self.queue@.len()
    }

    /// Whether a worker asking now would get a job.
    pub open spec fn can_take(&self) -> bool {
        !self.cancelled() && self.in_flight() < self.workers() && self.pending().len() > 0
    }

    /// Whether the run is over: nothing in flight and nothing more to hand
    /// out.
    pub open spec fn done(&self) -> bool {
        self.in_flight() == 0 && (self.cancelled() || self.pending().len() == 0 || self.workers()
            == 0)
    }

    pub fn new(requests: Vec<QueryRequest>, concurrency: usize) -> (r: Dispatch)
        ensures
            r.wf(),
            r.pending() == requests@,
            r.total() == requests@.len(),
            r.concurrency() == concurrency,
            r.workers() == min(concurrency as int, requests@.len() as int),
            r.in_flight() == 0,
            r.results().len() == 0,
            r.failed().len() == 0,
            !r.cancelled(),
    {
        let workers = worker_count(concurrency, requests.len());
        let r = Dispatch {
            queue: requests,
            next: 0,
            in_flight: 0,
            workers,
            concurrency,
            results: Vec::new(),
            failed: Vec::new(),
            cancelled: false,
        };
        assert(r.pending() =~= r.queue@);
        r
    }

    pub fn workers_count(&self) -> (r: usize)
        ensures
            r == self.workers(),
    {
        self.workers
    }

    pub fn in_flight_count(&self) -> (r: usize)
        ensures
            r == self.in_flight(),
    {
        self.in_flight
    }

    pub fn is_done(&self) -> (r: bool)
        requires
            self.wf(),
        ensures
            r == self.done(),
    {
        self.in_flight == 0 && (self.cancelled || self.next == self.queue.len() || self.workers
            == 0)
    }

    /// Hands the next request to a free worker slot; nothing where the run
    /// is cancelled, every slot is busy or no request is left.
    pub fn take(&mut self) -> (r: Option<Job>)
        requires
            old(self).wf(),
        ensures
            final(self).wf(),
            final(self).total() == old(self).total(),
            final(self).workers() == old(self).workers(),
            final(self).concurrency() == old(self).concurrency(),
            final(self).results() == old(self).results(),
            final(self).failed() == old(self).failed(),
            final(self).cancelled() == old(self).cancelled(),
            old(self).can_take() ==> r == Some(Job { request: old(self).pending()[0], attempt: 0 })
                && final(self).pending() == old(self).pending().drop_first()
                && final(self).in_flight() == old(self).in_flight() + 1,
            !old(self).can_take() ==> r is None && final(self).pending() == old(self).pending()
                && final(self).in_flight() == old(self).in_flight(),
    {
        if !self.cancelled && self.in_flight < self.workers && self.next < self.queue.len() {
            let request = self.queue[self.next].copied();
            self.next = self.next + 1;
            self.in_flight = self.in_flight + 1;
            assert(self.pending() =~= old(self).pending().drop_first());
            Some(Job { request, attempt: 0 })
        } else {
            None
        }
    }

    /// Records the result of a job; its slot becomes free.
    pub fn complete(&mut self, result: QueryResult)
        requires
            old(self).wf(),
            old(self).in_flight() > 0,
        ensures
            final(self).wf(),
            final(self).in_flight() == old(self).in_flight() - 1,
            final(self).results() == old(self).results().push(result),
            final(self).pending() == old(self).pending(),
            final(self).total() == old(self).total(),
            final(self).workers() == old(self).workers(),
            final(self).concurrency() == old(self).concurrency(),
            final(self).failed() == old(self).failed(),
            final(self).cancelled() == old(self).cancelled(),
    {
        self.in_flight = self.in_flight - 1;
        self.results.push(result);
    }

    /// Records the failure of a job. While attempts remain and the run is
    /// not cancelled, the job is to run again after a wait that grows with
    /// the attempts made, and keeps its slot; else its checksum is given up
    /// and its slot becomes free.
    pub fn fail(&mut self, job: Job) -> (r: Option<Retry>)
        requires
            old(self).wf(),
            old(self).in_flight() > 0,
        ensures
            final(self).wf(),
            final(self).pending() == old(self).pending(),
            final(self).total() == old(self).total(),
            final(self).workers() == old(self).workers(),
            final(self).concurrency() == old(self).concurrency(),
            final(self).results() == old(self).results(),
            final(self).cancelled() == old(self).cancelled(),
            (!old(self).cancelled() && job.attempt + 1 < MAX_ATTEMPTS) ==> {
                &&& r == Some(
                    Retry {
                        job: Job { request: job.request, attempt: (job.attempt + 1) as u64 },
                        delay_ms: (BACKOFF_STEP_MS * (job.attempt + 1)) as u64,
                    },
                )
                &&& final(self).in_flight() == old(self).in_flight()
                &&& final(self).failed() == old(self).failed()
            },
            !(!old(self).cancelled() && job.attempt + 1 < MAX_ATTEMPTS) ==> {
                &&& r is None
                &&& final(self).in_flight() == old(self).in_flight() - 1
                &&& final(self).failed() == old(self).failed().push(job.request.text_checksum)
            },
    {
        if !self.cancelled && job.attempt < MAX_ATTEMPTS - 1 {
            let attempt = job.attempt + 1;
            Some(
                Retry {
                    job: Job { request: job.request, attempt },
                    delay_ms: BACKOFF_STEP_MS * attempt,
                },
            )
        } else {
            self.in_flight = self.in_flight - 1;
            self.failed.push(job.request.text_checksum);
            None
        }
    }

    /// Stops handing out requests; the jobs in flight still report back.
    pub fn cancel(&mut self)
        requires
            old(self).wf(),
        ensures
            final(self).wf(),
            final(self).cancelled(),
            final(self).pending() == old(self).pending(),
            final(self).in_flight() == old(self).in_flight(),
            final(self).total() == old(self).total(),
            final(self).workers() == old(self).workers(),
            final(self).concurrency() == old(self).concurrency(),
            final(self).results() == old(self).results(),
            final(self).failed() == old(self).failed(),
    {
        self.cancelled = true;
    }

    /// The results, and the checksums given up or never sent.
    pub fn finish(self) -> (r: Outcome)
        requires
            self.wf(),
            self.in_flight() == 0,
        ensures
            r.results@ == self.results(),
            r.untranslated@ == self.failed() + self.pending().map_values(
                |q: QueryRequest| q.text_checksum,
            ),
            r.results@.len() + r.untranslated@.len() == self.total(),
    {
        let mut untranslated = self.failed;
        let mut i: usize = self.next;
        while i < self.queue.len()
            invariant
                self.next <= i <= self.queue@.len(),
                untranslated@ == self.failed@ + self.queue@.subrange(
                    self.next as int,
                    i as int,
                ).map_values(|q: QueryRequest| q.text_checksum),
            decreases self.queue@.len() - i,
        {
            untranslated.push(self.queue[i].text_checksum);
            i += 1;
            assert(self.queue@.subrange(self.next as int, i as int).map_values(
                |q: QueryRequest| q.text_checksum,
            ) =~= self.queue@.subrange(self.next as int, i - 1).map_values(
                |q: QueryRequest| q.text_checksum,
            ).push(self.queue@[i - 1].text_checksum));
        }
        assert(self.queue@.subrange(self.next as int, self.queue@.len() as int) == self.pending());
        Outcome { results: self.results, untranslated }
    }
}

/// Every request is accounted for at every step: answered, given up, in
/// flight or still to be handed out.
pub proof fn lemma_requests_accounted(d: &Dispatch)
    requires
        d.wf(),
    ensures
        d.results().len() + d.failed().len() + d.in_flight() + d.pending().len() == d.total(),
{
}

/// However the workers interleave, the calls in flight never outnumber
/// the smaller of the concurrency asked for and the number of requests.
pub proof fn lemma_concurrency_bound(d: &Dispatch)
    requires
        d.wf(),
    ensures
        d.in_flight() <= d.workers(),
        d.workers() == min(d.concurrency() as int, d.total() as int),
{
}

} // verus!
