//! The sync queue: requests wait in order until a transport delivers them;
//! a request whose delivery fails stays queued for the next round.

use vstd::prelude::*;
use std::collections::VecDeque;
use crate::client::SyncRequest;
use crate::error::SyncError;
use crate::files::{built_as, built_for, requests_for, FileProbe};
use crate::walk::{
    files_under, first_unreadable, lemma_root_prefix_keeps_relative, listed_paths,
    names_listable, paths_under_root, relative_path, root_prefix, texts, FsNode,
};

verus! {

/// A call made on a transport, with what it answered.
#[derive(Debug)]
pub enum TransportEvent {
    /// A health check and its answer.
    HealthCheck(Result<bool, SyncError>),
    /// A delivery of the request, and whether it succeeded.
    Delivery(SyncRequest, bool),
}

/// A record of calls made on a transport, in order, each with its answer.
pub type CallLog = Seq<TransportEvent>;

/// Something that can deliver sync requests to the server.
///
/// What each call answers rests on the server and the network, so nothing
/// is promised of the answers. An implementation keeps a record of the calls
/// made on it, each with the answer it gave; `calls` is that record, and each
/// method adds itself and its answer at the end. An implementation outside
/// the verified library is trusted to keep the record this way: it holds, in
/// its own state, what it was asked and what it answered.
pub trait SyncTransport {
    /// The calls made on this transport so far, in order, each with its
    /// answer.
    spec fn calls(&self) -> CallLog;

    /// Asks whether the server is healthy.
    fn health_check(&mut self) -> (r: Result<bool, SyncError>)
        ensures
            final(self).calls() == old(self).calls().push(TransportEvent::HealthCheck(r)),
    ;

    /// Delivers one request.
    fn sync_file(&mut self, req: &SyncRequest) -> (r: Result<(), SyncError>)
        ensures
            final(self).calls() == old(self).calls().push(
                TransportEvent::Delivery(*req, r is Ok),
            ),
    ;
}

/// The calls of a round of delivery: each request in order, with its
/// outcome.
pub open spec fn delivery_calls(requests: Seq<SyncRequest>, oks: Seq<bool>) -> Seq<
    TransportEvent,
> {
    Seq::new(requests.len(), |i: int| TransportEvent::Delivery(requests[i], oks[i]))
}

/// The outcome of one round of delivery.
#[derive(Debug, Clone, Copy, PartialEq, Eq)]
pub struct FlushReport {
    /// Requests delivered in this round.
    pub succeeded: usize,
    /// Requests whose delivery failed in this round.
    pub failed: usize,
    /// Requests left in the queue after the round.
    pub remaining: usize,
}

/// A queued request and how many deliveries of it have failed so far.
#[derive(Debug, Clone, PartialEq, Eq)]
struct QueueEntry {
    request: SyncRequest,
    attempts: u32,
}

/// A queue entry as a request and its count of failed deliveries.
pub type Entry = (SyncRequest, u32);

/// The failure count after one more failure; the counter wraps around at
/// `u32::MAX`.
pub open spec fn bump(attempts: u32) -> u32 {
    if attempts == u32::MAX {
        0
    } else {
        (attempts + 1) as u32
    }
}

/// Requests queued afresh, with no failures yet.
pub open spec fn fresh(requests: Seq<SyncRequest>) -> Seq<Entry> {
    requests.map_values(|r: SyncRequest| (r, 0u32))
}

/// The requests of a queue, in order.
pub open spec fn pending_requests(entries: Seq<Entry>) -> Seq<SyncRequest> {
    entries.map_values(|e: Entry| e.0)
}

/// The queue after a round of delivery in which the `i`-th entry was
/// delivered exactly when `oks[i]`: the entries that failed, in their order,
/// each with one more failure counted.
pub open spec fn after_flush(entries: Seq<Entry>, oks: Seq<bool>) -> Seq<Entry>
    decreases entries.len(),
{
    if entries.len() == 0 {
        seq![]
    } else {
        let n = entries.len() - 1;
        let prev = after_flush(entries.take(n), oks.take(n));
        if oks[n] {
            prev
        } else {
            prev.push((entries[n].0, bump(entries[n].1)))
        }
    }
}

/// The requests delivered in a round with outcomes `oks`, in order.
pub open spec fn delivered(entries: Seq<Entry>, oks: Seq<bool>) -> Seq<SyncRequest>
    decreases entries.len(),
{
    if entries.len() == 0 {
        seq![]
    } else {
        let n = entries.len() - 1;
        let prev = delivered(entries.take(n), oks.take(n));
        if oks[n] {
            prev.push(entries[n].0)
        } else {
            prev
        }
    }
}

/// How many of the outcomes are successes.
pub open spec fn count_ok(oks: Seq<bool>) -> nat
    decreases oks.len(),
{
    if oks.len() == 0 {
        0
    } else {
        count_ok(oks.drop_last()) + if oks.last() {
            1nat
        } else {
            0nat
        }
    }
}

/// The requests that a directory listing queues: those before its first
/// failure.
pub open spec fn requests_before_failure(items: Seq<Result<SyncRequest, SyncError>>) -> Seq<
    SyncRequest,
>
    decreases items.len(),
{
    if items.len() == 0 {
        seq![]
    } else {
        match items[0] {
            Ok(r) => seq![r] + requests_before_failure(items.drop_first()),
            Err(_) => seq![],
        }
    }
}

/// The first failure in a directory listing, if any.
pub open spec fn first_failure(items: Seq<Result<SyncRequest, SyncError>>) -> Option<SyncError>
    decreases items.len(),
{
    if items.len() == 0 {
        None
    } else {
        match items[0] {
            Ok(_) => first_failure(items.drop_first()),
            Err(e) => Some(e),
        }
    }
}

/// `r` reports a round with outcomes `oks` that left the queue `after`.
pub open spec fn report_of(r: FlushReport, oks: Seq<bool>, after: Seq<Entry>) -> bool {
    &&& r.succeeded == count_ok(oks)
    &&& r.failed == oks.len() - count_ok(oks)
    &&& r.remaining == after.len()
}

spec fn model(q: Seq<QueueEntry>) -> Seq<Entry> {
    q.map_values(|e: QueueEntry| (e.request, e.attempts))
}

/// Keeps the requests to be synced and hands them to a transport.
pub struct SyncManager<T: SyncTransport> {
    transport: T,
    queue: VecDeque<QueueEntry>,
    /// How many requests were ever queued, those of the starting snapshot
    /// included.
    queued: Ghost<nat>,
    /// How many requests were delivered.
    delivered: Ghost<nat>,
}

impl<T: SyncTransport> SyncManager<T> {
    /// The queued entries, first to be delivered first.
    pub closed spec fn entries(&self) -> Seq<Entry> {
        model(self.queue@)
    }

    /// The transport the manager delivers through.
    pub closed spec fn transport_spec(&self) -> T {
        self.transport
    }

    /// How many requests this manager has taken in: those it started with
    /// and those queued since.
    pub closed spec fn queued_total(&self) -> nat {
        self.queued@
    }

    /// How many requests this manager has delivered.
    pub closed spec fn delivered_total(&self) -> nat {
        self.delivered@
    }

    /// Every request taken in is either delivered or still queued.
    pub open spec fn wf(&self) -> bool {
        self.entries().len() + self.delivered_total() == self.queued_total()
    }

    /// A manager with an empty queue, that has made no call yet.
    pub fn new(transport: T) -> (r: Self)
        ensures
            r.entries() == Seq::<Entry>::empty(),
            r.transport_spec() == transport,
            r.queued_total() == 0,
            r.delivered_total() == 0,
            r.wf(),
    {
        let r = SyncManager {
            transport,
            queue: VecDeque::new(),
            queued: Ghost(0),
            delivered: Ghost(0),
        };
        assert(model(r.queue@) =~= Seq::<Entry>::empty());
        r
    }

    /// A manager whose queue holds `snapshot`, in order, with no failures
    /// counted, that has made no call yet.
    pub fn from_snapshot(transport: T, snapshot: Vec<SyncRequest>) -> (r: Self)
        ensures
            r.entries() == fresh(snapshot@),
            r.transport_spec() == transport,
            r.queued_total() == snapshot@.len(),
            r.delivered_total() == 0,
            r.wf(),
    {
        let mut queue: VecDeque<QueueEntry> = VecDeque::new();
        let mut i: usize = 0;
        while i < snapshot.len()
            invariant
                i <= snapshot@.len(),
                model(queue@) == fresh(snapshot@.take(i as int)),
            decreases snapshot@.len() - i,
        {
            let ghost before = queue@;
            let request = snapshot[i].duplicate();
            queue.push_back(QueueEntry { request, attempts: 0 });
            assert(model(queue@) =~= model(before).push((snapshot@[i as int], 0u32)));
            assert(fresh(snapshot@.take(i + 1)) =~= fresh(snapshot@.take(i as int)).push(
                (snapshot@[i as int], 0u32),
            ));
            i += 1;
        }
        assert(snapshot@.take(i as int) =~= snapshot@);
        SyncManager {
            transport,
            queue,
            queued: Ghost(snapshot@.len()),
            delivered: Ghost(0),
        }
    }

    /// Queues a request built for a file, or passes on the failure to build
    /// one; the queue grows at its end.
    pub fn queue_file(&mut self, built: Result<SyncRequest, SyncError>) -> (r: Result<
        SyncRequest,
        SyncError,
    >)
        ensures
            r == built,
            match built {
                Ok(req) => {
                    &&& final(self).entries() == old(self).entries().push((req, 0u32))
                    &&& final(self).queued_total() == old(self).queued_total() + 1
                },
                Err(_) => {
                    &&& final(self).entries() == old(self).entries()
                    &&& final(self).queued_total() == old(self).queued_total()
                },
            },
            final(self).delivered_total() == old(self).delivered_total(),
            final(self).transport_spec() == old(self).transport_spec(),
            old(self).wf() ==> final(self).wf(),
    {
        match built {
            Ok(request) => {
                let copy = request.duplicate();
                self.queue.push_back(QueueEntry { request, attempts: 0 });
                proof {
                    self.queued@ = self.queued@ + 1;
                }
                assert(model(self.queue@) =~= model(old(self).queue@).push((copy, 0u32)));
                Ok(copy)
            },
            Err(e) => Err(e),
        }
    }

    /// Queues the files under the directory `root`, whose entries are
    /// `entries`, depth first in listing order, each by its path below the
    /// root after `root_prefix(root)`: relative to the root itself when the
    /// root is absolute, and through the root as named when it is relative;
    /// `probes` holds what reading each of those files gave, in the
    /// same order. Files are queued up to the first whose request could not
    /// be built, and the number of files queued is returned; a root that is
    /// not a directory, an entry that could not be read, or the first failure
    /// to build a request is passed on. A file beyond the last probe is not
    /// queued.
    pub fn queue_directory(
        &mut self,
        root_is_dir: bool,
        root: &str,
        entries: &Vec<FsNode>,
        probes: Vec<FileProbe>,
    ) -> (r: Result<usize, SyncError>)
        ensures
            if !root_is_dir {
                &&& r matches Err(SyncError::InvalidPath(p)) && p@ == root@
                &&& final(self).entries() == old(self).entries()
                &&& final(self).queued_total() == old(self).queued_total()
            } else {
                match first_unreadable(entries@) {
                    Some(m) => {
                        &&& r matches Err(SyncError::Io(e)) && e@ == m
                        &&& final(self).entries() == old(self).entries()
                        &&& final(self).queued_total() == old(self).queued_total()
                    },
                    None => exists|items: Seq<Result<SyncRequest, SyncError>>|
                        {
                            &&& #[trigger] built_for(items, listed_paths(root@, entries@), probes@)
                            &&& final(self).entries() == old(self).entries() + fresh(
                                requests_before_failure(items),
                            )
                            &&& final(self).queued_total() == old(self).queued_total()
                                + requests_before_failure(items).len()
                            &&& r == match first_failure(items) {
                                Some(e) => Err::<usize, SyncError>(e),
                                None => Ok::<usize, SyncError>(items.len() as usize),
                            }
                        },
                }
            },
            r matches Ok(k) ==> {
                &&& final(self).entries().len() == old(self).entries().len() + k
                &&& final(self).queued_total() == old(self).queued_total() + k
            },
            names_listable(entries@) ==> forall|j: int|
                old(self).entries().len() <= j < final(self).entries().len() ==> relative_path(
                    (#[trigger] final(self).entries()[j]).0.path@,
                ),
            final(self).delivered_total() == old(self).delivered_total(),
            final(self).transport_spec() == old(self).transport_spec(),
            old(self).wf() ==> final(self).wf(),
    {
        let paths = match files_under(root_is_dir, root, entries) {
            Ok(paths) => paths,
            Err(e) => {
                return Err(e);
            },
        };
        let synced = paths_under_root(root, &paths);
        let items = requests_for(&synced, &probes);
        let ghost listed = synced@.map_values(|s: String| s@);
        assert(listed =~= texts(synced@));
        assert(listed =~= listed_paths(root@, entries@));
        let ghost start = self.entries();
        let r = self.queue_listing(items);
        proof {
            let queued = requests_before_failure(items@);
            if r is Ok {
                assert(first_failure(items@) is None);
                assert(queued.len() == items@.len());
                assert(fresh(queued).len() == queued.len());
            }
            lemma_listing_prefix(items@);
            assert forall|j: int|
                start.len() <= j < self.entries().len() implies #[trigger] self.entries()[j]
                == (queued[j - start.len()], 0u32) by {
                assert(self.entries()[j] == fresh(queued)[j - start.len()]);
            }
            if names_listable(entries@) {
                assert forall|j: int|
                    start.len() <= j < self.entries().len() implies relative_path(
                    (#[trigger] self.entries()[j]).0.path@,
                ) by {
                    let k = j - start.len();
                    assert(self.entries()[j] == (queued[k], 0u32));
                    assert(items@[k] == Ok::<SyncRequest, SyncError>(queued[k]));
                    assert(built_as(items@[k], listed[k], probes@[k]));
                    assert(relative_path(paths@[k]@));
                    assert(listed[k] == root_prefix(root@) + paths@[k]@);
                    lemma_root_prefix_keeps_relative(root@, paths@[k]@);
                }
            }
        }
        r
    }

    /// Queues the requests built for the files of a directory, in order, up
    /// to the first that could not be built, and returns the number of
    /// files; the first failure to build a request is passed on.
    fn queue_listing(&mut self, items: Vec<Result<SyncRequest, SyncError>>) -> (r: Result<
        usize,
        SyncError,
    >)
        ensures
            final(self).entries() == old(self).entries() + fresh(requests_before_failure(items@)),
            final(self).queued_total() == old(self).queued_total() + requests_before_failure(
                items@,
            ).len(),
            r == match first_failure(items@) {
                Some(e) => Err::<usize, SyncError>(e),
                None => Ok::<usize, SyncError>(items@.len() as usize),
            },
            first_failure(items@) is None ==> requests_before_failure(items@).len() == items@.len(),
            final(self).delivered_total() == old(self).delivered_total(),
            final(self).transport_spec() == old(self).transport_spec(),
    {
        let ghost start = model(self.queue@);
        let mut i: usize = 0;
        proof {
            assert(items@.take(0) =~= Seq::<Result<SyncRequest, SyncError>>::empty());
            assert(items@.skip(0) =~= items@);
            assert(requests_before_failure(items@.take(0)) =~= Seq::<SyncRequest>::empty());
            assert(requests_before_failure(items@) =~= requests_before_failure(items@.take(0))
                + requests_before_failure(items@.skip(0)));
            assert(start + fresh(Seq::<SyncRequest>::empty()) =~= start);
        }
        while i < items.len()
            invariant
                i <= items@.len(),
                forall|j: int| 0 <= j < i ==> items@[j] is Ok,
                requests_before_failure(items@.take(i as int)).len() == i,
                requests_before_failure(items@) == requests_before_failure(items@.take(i as int))
                    + requests_before_failure(items@.skip(i as int)),
                first_failure(items@) == first_failure(items@.skip(i as int)),
                model(self.queue@) == start + fresh(requests_before_failure(items@.take(i as int))),
                start == model(old(self).queue@),
                self.queued@ == old(self).queued@ + requests_before_failure(
                    items@.take(i as int),
                ).len(),
                self.delivered == old(self).delivered,
                self.transport == old(self).transport,
            decreases items@.len() - i,
        {
            proof {
                lemma_listing_step(items@, i as int);
            }
            match &items[i] {
                Ok(req) => {
                    let ghost before = self.queue@;
                    let request = req.duplicate();
                    self.queue.push_back(QueueEntry { request, attempts: 0 });
                    proof {
                        self.queued@ = self.queued@ + 1;
                        let prev = requests_before_failure(items@.take(i as int));
                        assert(model(self.queue@) =~= model(before).push((*req, 0u32)));
                        assert(fresh(prev.push(*req)) =~= fresh(prev).push((*req, 0u32)));
                        assert(start + fresh(prev).push((*req, 0u32)) =~= (start + fresh(
                            prev,
                        )).push((*req, 0u32)));
                    }
                },
                Err(e) => {
                    proof {
                        lemma_listing_tail(items@, i as int);
                    }
                    let failure = e.duplicate();
                    assert(first_failure(items@) == Some(failure));
                    return Err(failure);
                },
            }
            i += 1;
        }
        proof {
            assert(items@.take(i as int) =~= items@);
            assert(items@.skip(i as int) =~= Seq::<Result<SyncRequest, SyncError>>::empty());
            assert(requests_before_failure(items@.skip(i as int)) =~= Seq::<SyncRequest>::empty());
        }
        Ok(items.len())
    }

    /// How many requests are queued.
    pub fn pending_count(&self) -> (r: usize)
        ensures
            r == self.entries().len(),
            self.wf() ==> r + self.delivered_total() == self.queued_total(),
    {
        self.queue.len()
    }

    /// The queued requests, in order, without their failure counts.
    pub fn snapshot_queue(&self) -> (r: Vec<SyncRequest>)
        ensures
            r@ == pending_requests(self.entries()),
    {
        let mut r: Vec<SyncRequest> = Vec::new();
        let mut i: usize = 0;
        while i < self.queue.len()
            invariant
                i <= self.queue@.len(),
                r@ == pending_requests(model(self.queue@)).take(i as int),
            decreases self.queue@.len() - i,
        {
            r.push(self.queue[i].request.duplicate());
            i += 1;
            assert(r@ =~= pending_requests(model(self.queue@)).take(i as int));
        }
        assert(r@ =~= pending_requests(model(self.queue@)));
        r
    }

    /// Asks the transport whether the server is healthy, once, and returns
    /// its answer; the queue is left as it is.
    pub fn health_check(&mut self) -> (r: Result<bool, SyncError>)
        ensures
            final(self).entries() == old(self).entries(),
            final(self).transport_spec().calls() == old(self).transport_spec().calls().push(
                TransportEvent::HealthCheck(r),
            ),
            final(self).queued_total() == old(self).queued_total(),
            final(self).delivered_total() == old(self).delivered_total(),
            old(self).wf() ==> final(self).wf(),
    {
        self.transport.health_check()
    }

    /// Settles a round of delivery in which the `i`-th queued request was
    /// delivered exactly when `outcomes[i]`: delivered requests leave the
    /// queue, the others stay in order with one more failure counted.
    pub fn apply_outcomes(&mut self, outcomes: &Vec<bool>) -> (r: FlushReport)
        requires
            outcomes@.len() == old(self).entries().len(),
        ensures
            final(self).entries() == after_flush(old(self).entries(), outcomes@),
            report_of(r, outcomes@, final(self).entries()),
            final(self).delivered_total() == old(self).delivered_total() + count_ok(outcomes@),
            final(self).queued_total() == old(self).queued_total(),
            final(self).transport_spec() == old(self).transport_spec(),
            old(self).wf() ==> final(self).wf(),
    {
        let ghost q0 = model(self.queue@);
        let n = self.queue.len();
        let mut remaining: VecDeque<QueueEntry> = VecDeque::new();
        let mut succeeded: usize = 0;
        let mut failed: usize = 0;
        let mut k: usize = 0;
        while k < n
            invariant
                n == q0.len(),
                outcomes@.len() == n,
                k <= n,
                model(self.queue@) == q0.skip(k as int),
                model(remaining@) == after_flush(q0.take(k as int), outcomes@.take(k as int)),
                succeeded == count_ok(outcomes@.take(k as int)),
                failed == k - succeeded,
                succeeded <= k,
                self.transport == old(self).transport,
                self.queued == old(self).queued,
                self.delivered == old(self).delivered,
            decreases n - k,
        {
            proof {
                lemma_flush_step(q0, outcomes@, k as int);
            }
            assert(model(self.queue@).len() == self.queue@.len());
            let ghost before = self.queue@;
            let mut entry = self.queue.pop_front().unwrap();
            proof {
                assert(self.queue@ =~= before.subrange(1, before.len() as int));
                assert(model(self.queue@) =~= model(before).subrange(1, before.len() as int));
                assert(q0.skip(k as int).subrange(1, before.len() as int) =~= q0.skip(k + 1));
            }
            if outcomes[k] {
                succeeded += 1;
            } else {
                failed += 1;
                entry.attempts = if entry.attempts == u32::MAX {
                    0
                } else {
                    entry.attempts + 1
                };
                remaining.push_back(entry);
                assert(model(remaining@) =~= after_flush(
                    q0.take(k + 1),
                    outcomes@.take(k + 1),
                ));
            }
            k += 1;
        }
        proof {
            assert(q0.take(n as int) =~= q0);
            assert(outcomes@.take(n as int) =~= outcomes@);
        }
        self.queue = remaining;
        proof {
            self.delivered@ = self.delivered@ + count_ok(outcomes@);
            lemma_after_flush_len(q0, outcomes@);
        }
        FlushReport { succeeded, failed, remaining: self.queue.len() }
    }

    /// One round of delivery: hands each queued request, in order, to the
    /// transport once; delivered requests leave the queue, the others stay
    /// for the next round, in order, with one more failure counted.
    pub fn flush_once(&mut self) -> (r: FlushReport)
        ensures
            exists|oks: Seq<bool>|
                {
                    &&& oks.len() == old(self).entries().len()
                    &&& final(self).transport_spec().calls() == old(
                        self,
                    ).transport_spec().calls() + delivery_calls(
                        pending_requests(old(self).entries()),
                        oks,
                    )
                    &&& final(self).entries() == after_flush(old(self).entries(), oks)
                    &&& final(self).delivered_total() == old(self).delivered_total() + count_ok(
                        oks,
                    )
                    &&& #[trigger] report_of(r, oks, final(self).entries())
                },
            final(self).queued_total() == old(self).queued_total(),
            final(self).delivered_total() == old(self).delivered_total() + r.succeeded,
            old(self).wf() ==> final(self).wf(),
    {
        let ghost requests = pending_requests(model(self.queue@));
        let ghost log0 = self.transport.calls();
        let n = self.queue.len();
        let mut outcomes: Vec<bool> = Vec::new();
        let mut i: usize = 0;
        while i < n
            invariant
                n == self.queue@.len(),
                i <= n,
                outcomes@.len() == i,
                self.queue@ == old(self).queue@,
                self.queued == old(self).queued,
                self.delivered == old(self).delivered,
                requests == pending_requests(model(self.queue@)),
                log0 == old(self).transport.calls(),
                self.transport.calls() == log0 + delivery_calls(requests.take(i as int), outcomes@),
            decreases n - i,
        {
            let ghost prev = outcomes@;
            let ghost log_before = self.transport.calls();
            let delivered = match self.transport.sync_file(&self.queue[i].request) {
                Ok(()) => true,
                Err(_) => false,
            };
            outcomes.push(delivered);
            proof {
                assert(requests[i as int] == self.queue@[i as int].request);
                assert(delivery_calls(requests.take(i + 1), outcomes@) =~= delivery_calls(
                    requests.take(i as int),
                    prev,
                ).push(TransportEvent::Delivery(requests[i as int], delivered)));
                assert(log0 + delivery_calls(requests.take(i + 1), outcomes@) =~= log_before.push(
                    TransportEvent::Delivery(requests[i as int], delivered),
                ));
            }
            i += 1;
        }
        assert(requests.take(n as int) =~= requests);
        self.apply_outcomes(&outcomes)
    }
}

// ---------------------------------------------------------------------
// Lemmas for the loops above
// ---------------------------------------------------------------------

proof fn lemma_flush_step(q: Seq<Entry>, oks: Seq<bool>, k: int)
    requires
        0 <= k < q.len(),
        oks.len() == q.len(),
    ensures
        q.take(k + 1).take(k) == q.take(k),
        oks.take(k + 1).take(k) == oks.take(k),
        q.skip(k)[0] == q[k],
        after_flush(q.take(k + 1), oks.take(k + 1)) == if oks[k] {
            after_flush(q.take(k), oks.take(k))
        } else {
            after_flush(q.take(k), oks.take(k)).push((q[k].0, bump(q[k].1)))
        },
        count_ok(oks.take(k + 1)) == count_ok(oks.take(k)) + if oks[k] {
            1nat
        } else {
            0nat
        },
{
    assert(q.take(k + 1).take(k) =~= q.take(k));
    assert(oks.take(k + 1).take(k) =~= oks.take(k));
    assert(oks.take(k + 1).drop_last() =~= oks.take(k));
}

/// The entries left by a round and the deliveries it made add up to the
/// entries it started with.
proof fn lemma_after_flush_len(q: Seq<Entry>, oks: Seq<bool>)
    requires
        oks.len() == q.len(),
    ensures
        after_flush(q, oks).len() + count_ok(oks) == q.len(),
    decreases q.len(),
{
    if q.len() > 0 {
        let n = q.len() - 1;
        lemma_after_flush_len(q.take(n), oks.take(n));
        assert(oks.drop_last() =~= oks.take(n));
    }
}

proof fn lemma_listing_step(items: Seq<Result<SyncRequest, SyncError>>, i: int)
    requires
        0 <= i < items.len(),
        forall|j: int| 0 <= j < i ==> items[j] is Ok,
        requests_before_failure(items) == requests_before_failure(items.take(i))
            + requests_before_failure(items.skip(i)),
        first_failure(items) == first_failure(items.skip(i)),
    ensures
        items[i] is Ok ==> {
            &&& requests_before_failure(items) == requests_before_failure(items.take(i + 1))
                + requests_before_failure(items.skip(i + 1))
            &&& first_failure(items) == first_failure(items.skip(i + 1))
            &&& requests_before_failure(items.take(i + 1)) == requests_before_failure(
                items.take(i),
            ).push(items[i]->Ok_0)
        },
{
    if items[i] is Ok {
        assert(items.skip(i).drop_first() =~= items.skip(i + 1));
        lemma_prefix_all_ok(items.take(i + 1), items[i]->Ok_0);
        assert(items.take(i + 1).drop_last() =~= items.take(i));
        assert(requests_before_failure(items.take(i)).push(items[i]->Ok_0) =~= requests_before_failure(items.take(i))
            + seq![items[i]->Ok_0]);
        assert(requests_before_failure(items.skip(i)) =~= seq![items[i]->Ok_0]
            + requests_before_failure(items.skip(i + 1)));
    }
}

/// In a listing whose entries are all `Ok`, appending an `Ok` appends its
/// request.
proof fn lemma_prefix_all_ok(items: Seq<Result<SyncRequest, SyncError>>, last: SyncRequest)
    requires
        items.len() > 0,
        forall|j: int| 0 <= j < items.len() - 1 ==> items[j] is Ok,
        items.last() == Ok::<SyncRequest, SyncError>(last),
    ensures
        requests_before_failure(items) == requests_before_failure(items.drop_last()).push(last),
    decreases items.len(),
{
    if items.len() == 1 {
        assert(items.drop_first() =~= Seq::<Result<SyncRequest, SyncError>>::empty());
        assert(items.drop_last() =~= Seq::<Result<SyncRequest, SyncError>>::empty());
        assert(requests_before_failure(items.drop_first()) =~= Seq::<SyncRequest>::empty());
        assert(requests_before_failure(items.drop_last()) =~= Seq::<SyncRequest>::empty());
        assert(items[0] == items.last());
        assert(requests_before_failure(items) =~= seq![last]);
    } else {
        let tail = items.drop_first();
        lemma_prefix_all_ok(tail, last);
        assert(tail.drop_last() =~= items.drop_last().drop_first());
        assert(items.drop_last()[0] == items[0]);
        assert(requests_before_failure(items) =~= requests_before_failure(items.drop_last()).push(
            last,
        ));
    }
}

/// The requests a listing queues are its first items, in order.
proof fn lemma_listing_prefix(items: Seq<Result<SyncRequest, SyncError>>)
    ensures
        requests_before_failure(items).len() <= items.len(),
        forall|j: int|
            0 <= j < requests_before_failure(items).len() ==> items[j] == Ok::<
                SyncRequest,
                SyncError,
            >(#[trigger] requests_before_failure(items)[j]),
    decreases items.len(),
{
    if items.len() > 0 {
        let rest = items.drop_first();
        lemma_listing_prefix(rest);
        if let Ok(r) = items[0] {
            let all = requests_before_failure(items);
            assert(all == seq![r] + requests_before_failure(rest));
            assert forall|j: int| 0 <= j < all.len() implies items[j] == Ok::<
                SyncRequest,
                SyncError,
            >(#[trigger] all[j]) by {
                if j > 0 {
                    assert(all[j] == requests_before_failure(rest)[j - 1]);
                    assert(items[j] == rest[j - 1]);
                }
            }
        }
    }
}

proof fn lemma_listing_tail(items: Seq<Result<SyncRequest, SyncError>>, i: int)
    requires
        0 <= i < items.len(),
        items[i] is Err,
        requests_before_failure(items) == requests_before_failure(items.take(i))
            + requests_before_failure(items.skip(i)),
        first_failure(items) == first_failure(items.skip(i)),
    ensures
        requests_before_failure(items) == requests_before_failure(items.take(i)),
        first_failure(items) == Some(items[i]->Err_0),
{
    assert(items.skip(i)[0] == items[i]);
    assert(requests_before_failure(items.take(i)) + Seq::<SyncRequest>::empty() =~= requests_before_failure(items.take(i)));
}

} // verus!
