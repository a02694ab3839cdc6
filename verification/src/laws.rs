//! Properties of the library as a whole: what a round of delivery does to
//! the queue, what surviving a restart keeps, and what reading gives back of
//! what was written.

use vstd::prelude::*;
use crate::client::{
    health_verdict, http_scheme, parse_base_url, sync_body, sync_verdict, SyncClient,
};
use crate::cli::{client_at, planned, CliCommand, CliFailure};
use crate::error::SyncError;
use crate::http::{
    first_line, head_end, lemma_space_end_at, lemma_word_end_at, parse_reply, request_text,
    word_from,
};
use crate::files::digest_text;
use crate::manager::{
    after_flush, bump, count_ok, delivered, delivery_calls, fresh, pending_requests, Entry,
    SyncManager, SyncTransport, TransportEvent,
};
use crate::walk::{
    file_count, files_in, first_unreadable, lemma_files_in_extend_prefix, lemma_root_prefix_keeps_relative, listed_paths,
    names_listable, relative_path, FsNode,
};
use crate::client::SyncRequest;
use crate::text::{
    decimal, first_index, hex_char, hex_fixed, is_digit, is_first_index, is_white_space,
    lemma_decimal_digits, lemma_first_index_is, lemma_first_index_none,
    lemma_first_match_is, lemma_parse_decimal_u16, occurs_at,
};

verus! {

/// A round of delivery accounts for every queued request: the number
/// delivered and the number left queued add up to the number queued before,
/// and the delivered requests are as many as the successes.
pub proof fn law_flush_accounts_for_every_request(entries: Seq<Entry>, oks: Seq<bool>)
    requires
        oks.len() == entries.len(),
    ensures
        count_ok(oks) + after_flush(entries, oks).len() == entries.len(),
        delivered(entries, oks).len() == count_ok(oks),
    decreases entries.len(),
{
    if entries.len() > 0 {
        let n = entries.len() - 1;
        law_flush_accounts_for_every_request(entries.take(n), oks.take(n));
        assert(oks.drop_last() =~= oks.take(n));
    }
}

/// A round of delivery loses no request and invents none: the requests
/// queued before are exactly those delivered together with those left
/// queued.
pub proof fn law_flush_loses_nothing(entries: Seq<Entry>, oks: Seq<bool>)
    requires
        oks.len() == entries.len(),
    ensures
        pending_requests(entries).to_multiset() =~= delivered(entries, oks).to_multiset().add(
            pending_requests(after_flush(entries, oks)).to_multiset(),
        ),
    decreases entries.len(),
{
    broadcast use vstd::multiset::group_multiset_axioms;
    broadcast use vstd::seq_lib::group_seq_properties;

    if entries.len() == 0 {
        assert(pending_requests(entries) =~= Seq::<SyncRequest>::empty());
        assert(pending_requests(after_flush(entries, oks)) =~= Seq::<SyncRequest>::empty());
    } else {
        let n = entries.len() - 1;
        let head = entries.take(n);
        law_flush_loses_nothing(head, oks.take(n));
        assert(pending_requests(entries) =~= pending_requests(head).push(entries[n].0));
        if oks[n] {
        } else {
            assert(pending_requests(after_flush(entries, oks)) =~= pending_requests(
                after_flush(head, oks.take(n)),
            ).push(entries[n].0));
        }
    }
}

/// When every delivery of a round succeeds, the queue is empty afterwards.
pub proof fn law_full_success_empties_queue(entries: Seq<Entry>, oks: Seq<bool>)
    requires
        oks.len() == entries.len(),
        forall|i: int| 0 <= i < oks.len() ==> oks[i],
    ensures
        after_flush(entries, oks) == Seq::<Entry>::empty(),
    decreases entries.len(),
{
    if entries.len() > 0 {
        let n = entries.len() - 1;
        law_full_success_empties_queue(entries.take(n), oks.take(n));
    }
}

/// When every delivery of a round fails, every request stays queued, in
/// the same order, with one more failure counted.
pub proof fn law_failed_requests_stay_in_order(entries: Seq<Entry>, oks: Seq<bool>)
    requires
        oks.len() == entries.len(),
        forall|i: int| 0 <= i < oks.len() ==> !oks[i],
    ensures
        pending_requests(after_flush(entries, oks)) =~= pending_requests(entries),
        after_flush(entries, oks).len() == entries.len(),
    decreases entries.len(),
{
    if entries.len() > 0 {
        let n = entries.len() - 1;
        law_failed_requests_stay_in_order(entries.take(n), oks.take(n));
        assert(pending_requests(after_flush(entries, oks)) =~= pending_requests(
            after_flush(entries.take(n), oks.take(n)),
        ).push(entries[n].0));
        assert(pending_requests(entries) =~= pending_requests(entries.take(n)).push(
            entries[n].0,
        ));
    }
}

/// Restoring a manager from a snapshot of the queue keeps every pending
/// request, in order, and starts every failure count afresh.
pub proof fn law_restore_keeps_pending_requests(entries: Seq<Entry>)
    ensures
        pending_requests(fresh(pending_requests(entries))) =~= pending_requests(entries),
        forall|i: int|
            0 <= i < entries.len() ==> (#[trigger] fresh(pending_requests(entries))[i]).1 == 0,
{
}

/// The requests left after a round depend only on the requests queued and
/// the outcomes, not on the failure counts.
proof fn lemma_after_flush_requests(a: Seq<Entry>, b: Seq<Entry>, oks: Seq<bool>)
    requires
        a.len() == b.len(),
        oks.len() == a.len(),
        pending_requests(a) == pending_requests(b),
    ensures
        pending_requests(after_flush(a, oks)) == pending_requests(after_flush(b, oks)),
        after_flush(a, oks).len() == after_flush(b, oks).len(),
    decreases a.len(),
{
    if a.len() > 0 {
        let n = a.len() - 1;
        assert(pending_requests(a.take(n)) =~= pending_requests(a).take(n));
        assert(pending_requests(b.take(n)) =~= pending_requests(b).take(n));
        lemma_after_flush_requests(a.take(n), b.take(n), oks.take(n));
        assert(pending_requests(a)[n] == pending_requests(b)[n]);
        assert(pending_requests(a)[n] == a[n].0);
        assert(pending_requests(b)[n] == b[n].0);
        assert(pending_requests(after_flush(a, oks)) =~= if oks[n] {
            pending_requests(after_flush(a.take(n), oks.take(n)))
        } else {
            pending_requests(after_flush(a.take(n), oks.take(n))).push(a[n].0)
        });
        assert(pending_requests(after_flush(b, oks)) =~= if oks[n] {
            pending_requests(after_flush(b.take(n), oks.take(n)))
        } else {
            pending_requests(after_flush(b.take(n), oks.take(n))).push(b[n].0)
        });
    }
}

/// A queue restored from a snapshot behaves as the queue it was taken from:
/// given the same outcomes, a round makes the same calls on the transport,
/// reports the same counts, and leaves the same requests queued.
pub proof fn law_restored_queue_behaves_alike(entries: Seq<Entry>, oks: Seq<bool>)
    requires
        oks.len() == entries.len(),
    ensures
        fresh(pending_requests(entries)).len() == entries.len(),
        delivery_calls(pending_requests(fresh(pending_requests(entries))), oks)
            == delivery_calls(pending_requests(entries), oks),
        pending_requests(after_flush(fresh(pending_requests(entries)), oks)) == pending_requests(
            after_flush(entries, oks),
        ),
        after_flush(fresh(pending_requests(entries)), oks).len() == after_flush(
            entries,
            oks,
        ).len(),
{
    let restored = fresh(pending_requests(entries));
    assert(pending_requests(restored) =~= pending_requests(entries));
    lemma_after_flush_requests(restored, entries, oks);
}

/// The requests of the deliveries among `calls` that failed, in order.
pub open spec fn failed_deliveries(calls: Seq<TransportEvent>) -> Seq<SyncRequest>
    decreases calls.len(),
{
    if calls.len() == 0 {
        seq![]
    } else {
        let prev = failed_deliveries(calls.drop_last());
        match calls.last() {
            TransportEvent::Delivery(req, false) => prev.push(req),
            _ => prev,
        }
    }
}

/// A round leaves queued exactly the requests whose delivery it saw fail,
/// in the order it tried them: the next round retries those and resends
/// none that was delivered.
pub proof fn law_next_round_retries_exactly_the_failures(entries: Seq<Entry>, oks: Seq<bool>)
    requires
        oks.len() == entries.len(),
    ensures
        pending_requests(after_flush(entries, oks)) == failed_deliveries(
            delivery_calls(pending_requests(entries), oks),
        ),
    decreases entries.len(),
{
    if entries.len() > 0 {
        let n = entries.len() - 1;
        law_next_round_retries_exactly_the_failures(entries.take(n), oks.take(n));
        let calls = delivery_calls(pending_requests(entries), oks);
        assert(calls.drop_last() =~= delivery_calls(pending_requests(entries.take(n)), oks.take(n)));
        assert(calls.last() == TransportEvent::Delivery(entries[n].0, oks[n]));
        assert(pending_requests(after_flush(entries, oks)) =~= if oks[n] {
            pending_requests(after_flush(entries.take(n), oks.take(n)))
        } else {
            pending_requests(after_flush(entries.take(n), oks.take(n))).push(entries[n].0)
        });
    }
}

/// A run of rounds: each round's outcomes in turn, starting from `entries`.
pub open spec fn after_rounds(entries: Seq<Entry>, rounds: Seq<Seq<bool>>) -> Seq<Entry>
    decreases rounds.len(),
{
    if rounds.len() == 0 {
        entries
    } else {
        after_rounds(after_flush(entries, rounds[0]), rounds.drop_first())
    }
}

/// Each round of the run has one outcome per request then queued.
pub open spec fn rounds_fit(entries: Seq<Entry>, rounds: Seq<Seq<bool>>) -> bool
    decreases rounds.len(),
{
    rounds.len() == 0 || (rounds[0].len() == entries.len() && rounds_fit(
        after_flush(entries, rounds[0]),
        rounds.drop_first(),
    ))
}

/// How many deliveries the rounds of a run made.
pub open spec fn total_delivered(rounds: Seq<Seq<bool>>) -> nat
    decreases rounds.len(),
{
    if rounds.len() == 0 {
        0
    } else {
        count_ok(rounds[0]) + total_delivered(rounds.drop_first())
    }
}

/// Over a run of rounds, the deliveries made and the requests still queued
/// add up to the requests queued at the start.
pub proof fn law_rounds_account_for_every_request(entries: Seq<Entry>, rounds: Seq<Seq<bool>>)
    requires
        rounds_fit(entries, rounds),
    ensures
        total_delivered(rounds) + after_rounds(entries, rounds).len() == entries.len(),
    decreases rounds.len(),
{
    if rounds.len() > 0 {
        law_flush_accounts_for_every_request(entries, rounds[0]);
        law_rounds_account_for_every_request(after_flush(entries, rounds[0]), rounds.drop_first());
    }
}

/// A request that is still queued after a run of rounds has failed in every
/// one of them: starting from requests that had failed `a` times, every
/// request left has failed `a` plus the number of rounds times.
pub proof fn law_queued_requests_failed_every_round(
    entries: Seq<Entry>,
    rounds: Seq<Seq<bool>>,
    a: u32,
)
    requires
        rounds_fit(entries, rounds),
        forall|i: int| 0 <= i < entries.len() ==> (#[trigger] entries[i]).1 == a,
        a + rounds.len() <= u32::MAX,
    ensures
        forall|i: int|
            0 <= i < after_rounds(entries, rounds).len() ==> (#[trigger] after_rounds(
                entries,
                rounds,
            )[i]).1 == a + rounds.len(),
    decreases rounds.len(),
{
    if rounds.len() > 0 {
        lemma_flush_counts_uniform(entries, rounds[0], a);
        let next = after_flush(entries, rounds[0]);
        law_queued_requests_failed_every_round(next, rounds.drop_first(), (a + 1) as u32);
        let last = after_rounds(entries, rounds);
        assert(last == after_rounds(next, rounds.drop_first()));
        assert forall|i: int| 0 <= i < last.len() implies (#[trigger] last[i]).1 == a
            + rounds.len() by {
            assert(after_rounds(next, rounds.drop_first())[i].1 == (a + 1) as u32
                + rounds.drop_first().len());
        }
    }
}

/// A round over requests that have all failed `a` times leaves requests
/// that have all failed `a + 1` times.
proof fn lemma_flush_counts_uniform(entries: Seq<Entry>, oks: Seq<bool>, a: u32)
    requires
        oks.len() == entries.len(),
        forall|i: int| 0 <= i < entries.len() ==> (#[trigger] entries[i]).1 == a,
        a < u32::MAX,
    ensures
        forall|i: int|
            0 <= i < after_flush(entries, oks).len() ==> (#[trigger] after_flush(entries, oks)[i]).1
                == a + 1,
    decreases entries.len(),
{
    if entries.len() > 0 {
        let n = entries.len() - 1;
        assert forall|i: int| 0 <= i < entries.take(n).len() implies (#[trigger] entries.take(
            n,
        )[i]).1 == a by {
            assert(entries.take(n)[i] == entries[i]);
        }
        lemma_flush_counts_uniform(entries.take(n), oks.take(n), a);
        assert(bump(entries[n].1) == a + 1);
        let prev = after_flush(entries.take(n), oks.take(n));
        let after = after_flush(entries, oks);
        if !oks[n] {
            assert forall|i: int| 0 <= i < after.len() implies (#[trigger] after[i]).1 == a + 1 by {
                if i < prev.len() {
                    assert(after[i] == prev[i]);
                }
            }
        }
    }
}

/// Every round of the run that finds requests queued delivers at least one.
pub open spec fn rounds_progress(entries: Seq<Entry>, rounds: Seq<Seq<bool>>) -> bool
    decreases rounds.len(),
{
    rounds.len() == 0 || ((entries.len() > 0 ==> count_ok(rounds[0]) >= 1) && rounds_progress(
        after_flush(entries, rounds[0]),
        rounds.drop_first(),
    ))
}

/// Retries drain the queue: when every round that finds requests queued
/// delivers at least one of them, the queue is empty after as many rounds as
/// it held requests.
pub proof fn law_progressing_rounds_drain_queue(entries: Seq<Entry>, rounds: Seq<Seq<bool>>)
    requires
        rounds_fit(entries, rounds),
        rounds_progress(entries, rounds),
        rounds.len() >= entries.len(),
    ensures
        after_rounds(entries, rounds).len() == 0,
    decreases rounds.len(),
{
    if entries.len() == 0 {
        lemma_empty_queue_stays_empty(entries, rounds);
    } else {
        law_flush_accounts_for_every_request(entries, rounds[0]);
        law_progressing_rounds_drain_queue(after_flush(entries, rounds[0]), rounds.drop_first());
    }
}

proof fn lemma_empty_queue_stays_empty(entries: Seq<Entry>, rounds: Seq<Seq<bool>>)
    requires
        entries.len() == 0,
        rounds_fit(entries, rounds),
    ensures
        after_rounds(entries, rounds).len() == 0,
    decreases rounds.len(),
{
    if rounds.len() > 0 {
        law_flush_accounts_for_every_request(entries, rounds[0]);
        lemma_empty_queue_stays_empty(after_flush(entries, rounds[0]), rounds.drop_first());
    }
}

/// The failure counts seen over a run of rounds stay at most `bound`: in
/// the queue at the start and after every round.
pub open spec fn failures_bounded(entries: Seq<Entry>, rounds: Seq<Seq<bool>>, bound: u32) -> bool
    decreases rounds.len(),
{
    &&& forall|i: int| 0 <= i < entries.len() ==> (#[trigger] entries[i]).1 <= bound
    &&& (rounds.len() > 0 ==> failures_bounded(
        after_flush(entries, rounds[0]),
        rounds.drop_first(),
        bound,
    ))
}

/// A round over requests that have each failed at least `a` times, and
/// fewer than `u32::MAX` times, leaves requests that have each failed at
/// least `a + 1` times.
proof fn lemma_flush_counts_rise(entries: Seq<Entry>, oks: Seq<bool>, a: u32)
    requires
        oks.len() == entries.len(),
        forall|i: int| 0 <= i < entries.len() ==> a <= (#[trigger] entries[i]).1 < u32::MAX,
    ensures
        forall|i: int|
            0 <= i < after_flush(entries, oks).len() ==> (#[trigger] after_flush(entries, oks)[i]).1
                >= a + 1,
    decreases entries.len(),
{
    if entries.len() > 0 {
        let n = entries.len() - 1;
        assert forall|i: int| 0 <= i < entries.take(n).len() implies a <= (#[trigger] entries.take(
            n,
        )[i]).1 < u32::MAX by {
            assert(entries.take(n)[i] == entries[i]);
        }
        lemma_flush_counts_rise(entries.take(n), oks.take(n), a);
        assert(a <= entries[n].1 < u32::MAX);
        assert(bump(entries[n].1) >= a + 1);
        let prev = after_flush(entries.take(n), oks.take(n));
        let after = after_flush(entries, oks);
        if !oks[n] {
            assert forall|i: int| 0 <= i < after.len() implies (#[trigger] after[i]).1 >= a + 1 by {
                if i < prev.len() {
                    assert(after[i] == prev[i]);
                }
            }
        }
    }
}

/// Rounds that start from requests that have each failed at least `a`
/// times, and in which no request's failures exceed `bound`, empty the
/// queue within `bound + 1 - a` rounds.
proof fn lemma_bounded_failures_drain(
    entries: Seq<Entry>,
    rounds: Seq<Seq<bool>>,
    a: u32,
    bound: u32,
)
    requires
        rounds_fit(entries, rounds),
        failures_bounded(entries, rounds, bound),
        forall|i: int| 0 <= i < entries.len() ==> (#[trigger] entries[i]).1 >= a,
        bound < u32::MAX,
        rounds.len() + a >= bound + 1,
    ensures
        after_rounds(entries, rounds).len() == 0,
    decreases rounds.len(),
{
    if entries.len() == 0 {
        lemma_empty_queue_stays_empty(entries, rounds);
    } else {
        assert(entries[0].1 >= a);
        assert(entries[0].1 <= bound);
        let next = after_flush(entries, rounds[0]);
        lemma_flush_counts_rise(entries, rounds[0], a);
        if next.len() == 0 {
            lemma_empty_queue_stays_empty(next, rounds.drop_first());
        } else {
            lemma_bounded_failures_drain(next, rounds.drop_first(), (a + 1) as u32, bound);
        }
    }
}

/// Retries drain the queue when every request fails only boundedly often:
/// from any queue, if over a run of rounds no request's count of failures,
/// those before the run included, exceeds `bound`, the queue is empty
/// after `bound + 1` rounds, and the rounds have delivered every request
/// that was queued.
pub proof fn law_bounded_failures_drain_queue(
    entries: Seq<Entry>,
    rounds: Seq<Seq<bool>>,
    bound: u32,
)
    requires
        rounds_fit(entries, rounds),
        failures_bounded(entries, rounds, bound),
        bound < u32::MAX,
        rounds.len() >= bound + 1,
    ensures
        after_rounds(entries, rounds).len() == 0,
        total_delivered(rounds) == entries.len(),
{
    lemma_bounded_failures_drain(entries, rounds, 0, bound);
    law_rounds_account_for_every_request(entries, rounds);
}

/// The pending count of a manager balances: every request it took in, at
/// the start or queued since, has been delivered or is still queued.
pub proof fn law_pending_count_balances<T: SyncTransport>(m: SyncManager<T>)
    requires
        m.wf(),
    ensures
        m.entries().len() == m.queued_total() - m.delivered_total(),
{
}

/// The files of a directory are listed by paths relative to it, and synced
/// by relative paths whatever the root: when every name in the tree is one
/// a directory can list, every such path is non-empty and does not start
/// with `/`.
pub proof fn law_listed_paths_are_relative(root: Seq<char>, entries: Seq<FsNode>)
    requires
        names_listable(entries),
    ensures
        forall|i: int|
            0 <= i < files_in(entries, seq![]).len() ==> relative_path(
                #[trigger] files_in(entries, seq![])[i],
            ),
        forall|i: int|
            0 <= i < listed_paths(root, entries).len() ==> relative_path(
                #[trigger] listed_paths(root, entries)[i],
            ),
{
    lemma_files_in_extend_prefix(entries, seq![]);
    assert forall|i: int| 0 <= i < listed_paths(root, entries).len() implies relative_path(
        #[trigger] listed_paths(root, entries)[i],
    ) by {
        let p = files_in(entries, seq![])[i];
        assert(relative_path(p));
        lemma_root_prefix_keeps_relative(root, p);
    }
}

/// One step of a manager's life: the requests it queues (by `queue_file`
/// or `queue_directory`; none for other calls), then, if it runs a round
/// (`flush_once`), that round's outcomes.
pub type QueueStep = (Seq<SyncRequest>, Option<Seq<bool>>);

/// The queue after a run of steps.
pub open spec fn after_steps(entries: Seq<Entry>, steps: Seq<QueueStep>) -> Seq<Entry>
    decreases steps.len(),
{
    if steps.len() == 0 {
        entries
    } else {
        let queued = entries + fresh(steps[0].0);
        let next = match steps[0].1 {
            Some(oks) => after_flush(queued, oks),
            None => queued,
        };
        after_steps(next, steps.drop_first())
    }
}

/// Each round of the run has one outcome per request then queued.
pub open spec fn steps_fit(entries: Seq<Entry>, steps: Seq<QueueStep>) -> bool
    decreases steps.len(),
{
    steps.len() == 0 || {
        let queued = entries + fresh(steps[0].0);
        let next = match steps[0].1 {
            Some(oks) => after_flush(queued, oks),
            None => queued,
        };
        &&& (steps[0].1 matches Some(oks) ==> oks.len() == queued.len())
        &&& steps_fit(next, steps.drop_first())
    }
}

/// How many requests the steps queue.
pub open spec fn total_queued(steps: Seq<QueueStep>) -> nat
    decreases steps.len(),
{
    if steps.len() == 0 {
        0
    } else {
        steps[0].0.len() + total_queued(steps.drop_first())
    }
}

/// How many deliveries the rounds among the steps made.
pub open spec fn total_delivered_in(steps: Seq<QueueStep>) -> nat
    decreases steps.len(),
{
    if steps.len() == 0 {
        0
    } else {
        (match steps[0].1 {
            Some(oks) => count_ok(oks),
            None => 0,
        }) + total_delivered_in(steps.drop_first())
    }
}

/// The pending count over a manager's life: the requests it started with,
/// plus those queued, minus those delivered.
pub proof fn law_pending_count_over_steps(entries: Seq<Entry>, steps: Seq<QueueStep>)
    requires
        steps_fit(entries, steps),
    ensures
        after_steps(entries, steps).len() + total_delivered_in(steps) == entries.len()
            + total_queued(steps),
    decreases steps.len(),
{
    if steps.len() > 0 {
        let queued = entries + fresh(steps[0].0);
        if let Some(oks) = steps[0].1 {
            law_flush_accounts_for_every_request(queued, oks);
        }
        let next = match steps[0].1 {
            Some(oks) => after_flush(queued, oks),
            None => queued,
        };
        law_pending_count_over_steps(next, steps.drop_first());
    }
}

/// A server address written as `http://host:port` reads back as that host
/// and port, for a non-empty host without `/` or `:`.
pub proof fn law_base_url_round_trip(host: Seq<char>, port: u16)
    requires
        host.len() > 0,
        !host.contains('/'),
        !host.contains(':'),
    ensures
        parse_base_url(http_scheme() + host + seq![':'] + decimal(port as nat)) == Some(
            (host, port),
        ),
{
    let digits = decimal(port as nat);
    let url = http_scheme() + host + seq![':'] + digits;
    lemma_decimal_digits(port as nat);
    lemma_parse_decimal_u16(port);
    assert(url.take(7) =~= http_scheme());
    let rest = url.skip(7);
    assert(rest =~= host + seq![':'] + digits);
    assert(!rest.contains('/')) by {
        if rest.contains('/') {
            let j = choose|j: int| 0 <= j < rest.len() && rest[j] == '/';
            if j < host.len() {
                assert(host[j] == '/');
            } else if j > host.len() {
                assert(is_digit(digits[j - host.len() - 1]));
            }
        }
    }
    assert forall|j: int| 0 <= j < host.len() implies rest[j] != ':' by {
        assert(rest[j] == host[j]);
    }
    lemma_first_index_is(rest, ':', host.len() as int);
    assert(rest.take(host.len() as int) =~= host);
    assert(rest.skip(host.len() as int + 1) =~= digits);
}

/// A server address written as `http://host` reads back as that host on
/// port 80, for a non-empty host without `/` or `:`.
pub proof fn law_base_url_default_port(host: Seq<char>)
    requires
        host.len() > 0,
        !host.contains('/'),
        !host.contains(':'),
    ensures
        parse_base_url(http_scheme() + host) == Some((host, 80u16)),
{
    let url = http_scheme() + host;
    assert(url.take(7) =~= http_scheme());
    assert(url.skip(7) =~= host);
    assert forall|j: int| 0 <= j < host.len() implies host[j] != ':' by {
        if host[j] == ':' {
            assert(host.contains(':'));
        }
    }
    lemma_first_index_none(host, ':');
}

/// No blank line ends `head` before its own end.
pub open spec fn blank_line_free(head: Seq<char>) -> bool {
    forall|j: int| 0 <= j < head.len() ==> !occurs_at(head + head_end(), head_end(), j)
}

/// A reply read back: a reply whose head starts with the status line
/// `<version> <code> ...` and contains no blank line, followed by a blank
/// line and a body, reads as that status code and exactly that body.
#[verifier::spinoff_prover]
#[verifier::rlimit(40)]
pub proof fn law_reply_read_back(
    version: Seq<char>,
    code: u16,
    tail: Seq<char>,
    body: Seq<char>,
)
    requires
        version.len() > 0,
        forall|i: int| 0 <= i < version.len() ==> !is_white_space(#[trigger] version[i]),
        blank_line_free(version + seq![' '] + decimal(code as nat) + seq![' '] + tail),
    ensures
        parse_reply(
            version + seq![' '] + decimal(code as nat) + seq![' '] + tail + head_end() + body,
        ) == Ok::<(u16, Seq<char>), Seq<char>>((code, body)),
{
    let digits = decimal(code as nat);
    let status = version + seq![' '] + digits + seq![' '];
    let head = status + tail;
    assert(head =~= version + seq![' '] + digits + seq![' '] + tail);
    let raw = head + head_end() + body;
    assert(raw =~= version + seq![' '] + digits + seq![' '] + tail + head_end() + body);
    let len = head.len() as int;
    // The head ends at the first blank line.
    assert(raw.subrange(len, len + 4) =~= head_end());
    assert forall|j: int| 0 <= j < len implies !occurs_at(raw, head_end(), j) by {
        assert(!occurs_at(head + head_end(), head_end(), j));
        if j + 4 <= raw.len() {
            assert(raw.subrange(j, j + 4) =~= (head + head_end()).subrange(j, j + 4));
        }
    }
    lemma_first_match_is(raw, head_end(), len);
    assert(raw.take(len) =~= head);
    assert(raw.skip(len + 4) =~= body);
    // The status code is the second word of the first line.
    lemma_decimal_digits(code as nat);
    lemma_parse_decimal_u16(code);
    let m = status.len() as int;
    assert forall|k: int| 0 <= k < m implies head[k] != '\n' by {
        if k < version.len() {
            assert(head[k] == version[k]);
            assert(!is_white_space(version[k]));
        } else if version.len() < k < version.len() + 1 + digits.len() {
            assert(head[k] == digits[k - version.len() - 1]);
            assert(is_digit(digits[k - version.len() - 1]));
        }
    }
    let fl = first_line(head);
    match first_index(head, '\n') {
        Some(p) => {
            assert(is_first_index(head, '\n', p));
            if p < m {
                assert(head[p] != '\n');
            }
            assert(fl =~= head.take(p));
        },
        None => {
            assert(fl =~= head);
        },
    }
    assert(fl.len() >= m);
    let v = version.len() as int;
    let d = digits.len() as int;
    assert(fl[v] == ' ');
    assert(fl[v + 1 + d] == ' ');
    assert forall|k: int| 0 <= k < v implies !is_white_space(#[trigger] fl[k]) by {
        assert(fl[k] == version[k]);
    }
    assert forall|k: int| v + 1 <= k < v + 1 + d implies !is_white_space(#[trigger] fl[k]) by {
        assert(fl[k] == digits[k - v - 1]);
        assert(is_digit(digits[k - v - 1]));
    }
    lemma_space_end_at(fl, 0, 0);
    lemma_word_end_at(fl, 0, v);
    lemma_space_end_at(fl, v, v + 1);
    lemma_word_end_at(fl, v + 1, v + 1 + d);
    assert(fl.subrange(v + 1, v + 1 + d) =~= digits);
    reveal_with_fuel(word_from, 2);
}

/// The hash text of a digest is sixteen lower-case hexadecimal digits.
pub proof fn law_digest_text_shape(digest: u64)
    ensures
        digest_text(digest).len() == 16,
        forall|i: int|
            0 <= i < 16 ==> {
                let c = #[trigger] digest_text(digest)[i];
                ('0' <= c <= '9') || ('a' <= c <= 'f')
            },
{
    lemma_hex_fixed_shape(digest as nat, 16);
}

proof fn lemma_hex_fixed_shape(n: nat, width: nat)
    ensures
        hex_fixed(n, width).len() == width,
        forall|i: int|
            0 <= i < width ==> {
                let c = #[trigger] hex_fixed(n, width)[i];
                ('0' <= c <= '9') || ('a' <= c <= 'f')
            },
    decreases width,
{
    if width > 0 {
        lemma_hex_fixed_shape(n / 16, (width - 1) as nat);
        let s = hex_fixed(n, width);
        assert forall|i: int| 0 <= i < width implies {
            let c = #[trigger] s[i];
            ('0' <= c <= '9') || ('a' <= c <= 'f')
        } by {
            if i < width - 1 {
                assert(s[i] == hex_fixed(n / 16, (width - 1) as nat)[i]);
            } else {
                let d = n % 16;
                assert(s[i] == hex_char(d));
            }
        }
    }
}


// ---------------------------------------------------------------------
// Verdicts on the server's replies
// ---------------------------------------------------------------------

/// A sync request is accepted exactly when the reply's status is 200 or
/// 202; a reply with any other status is a server error carrying that
/// status and the reply's body.
pub proof fn law_sync_accepted_only_on_200_or_202(
    reply: Seq<char>,
    status: u16,
    body: Seq<char>,
    r: Result<(), SyncError>,
)
    requires
        parse_reply(reply) == Ok::<(u16, Seq<char>), Seq<char>>((status, body)),
        sync_verdict(reply, r),
    ensures
        r is Ok <==> (status == 200 || status == 202),
        status != 200 && status != 202 ==> (r matches Err(SyncError::Server(s, b)) && s == status
            && b@ == body),
{
}

/// The sync verdict on a reply written as `<version> <code> <rest of the
/// head>`, a blank line and a body: accepted exactly on 200 and 202, and
/// otherwise a server error with that code and exactly that body.
pub proof fn law_sync_verdict_on_written_reply(
    version: Seq<char>,
    code: u16,
    tail: Seq<char>,
    body: Seq<char>,
    r: Result<(), SyncError>,
)
    requires
        version.len() > 0,
        forall|i: int| 0 <= i < version.len() ==> !is_white_space(#[trigger] version[i]),
        blank_line_free(version + seq![' '] + decimal(code as nat) + seq![' '] + tail),
        sync_verdict(
            version + seq![' '] + decimal(code as nat) + seq![' '] + tail + head_end() + body,
            r,
        ),
    ensures
        r is Ok <==> (code == 200 || code == 202),
        code != 200 && code != 202 ==> (r matches Err(SyncError::Server(s, b)) && s == code && b@
            == body),
{
    law_reply_read_back(version, code, tail, body);
    law_sync_accepted_only_on_200_or_202(
        version + seq![' '] + decimal(code as nat) + seq![' '] + tail + head_end() + body,
        code,
        body,
        r,
    );
}

/// A health check reports the server healthy exactly when the reply's
/// status is 200, and unhealthy (not an error) for every other status.
pub proof fn law_healthy_only_on_200(
    reply: Seq<char>,
    status: u16,
    body: Seq<char>,
    r: Result<bool, SyncError>,
)
    requires
        parse_reply(reply) == Ok::<(u16, Seq<char>), Seq<char>>((status, body)),
        health_verdict(reply, r),
    ensures
        r is Ok,
        r == Ok::<bool, SyncError>(true) <==> status == 200,
        r == Ok::<bool, SyncError>(false) <==> status != 200,
{
}

/// The health verdict on a reply written as `<version> <code> <rest of
/// the head>`, a blank line and a body: healthy exactly on 200, unhealthy
/// on any other code.
pub proof fn law_health_verdict_on_written_reply(
    version: Seq<char>,
    code: u16,
    tail: Seq<char>,
    body: Seq<char>,
    r: Result<bool, SyncError>,
)
    requires
        version.len() > 0,
        forall|i: int| 0 <= i < version.len() ==> !is_white_space(#[trigger] version[i]),
        blank_line_free(version + seq![' '] + decimal(code as nat) + seq![' '] + tail),
        health_verdict(
            version + seq![' '] + decimal(code as nat) + seq![' '] + tail + head_end() + body,
            r,
        ),
    ensures
        r is Ok,
        r == Ok::<bool, SyncError>(true) <==> code == 200,
{
    law_reply_read_back(version, code, tail, body);
    law_healthy_only_on_200(
        version + seq![' '] + decimal(code as nat) + seq![' '] + tail + head_end() + body,
        code,
        body,
        r,
    );
}

// ---------------------------------------------------------------------
// The sync request's body
// ---------------------------------------------------------------------

/// The body of a sync request carries the path and the hash whole: it is
/// `path=`, the path, a line break, `hash=`, the hash and a line break, so
/// that both read back unchanged from their places.
pub proof fn law_sync_body_carries_path_and_hash(path: Seq<char>, hash: Seq<char>)
    ensures
        sync_body(path, hash) =~= "path="@ + path + "\nhash="@ + hash + "\n"@,
        sync_body(path, hash).len() == path.len() + hash.len() + 12,
        sync_body(path, hash).subrange(5, 5 + path.len() as int) =~= path,
        sync_body(path, hash).subrange(
            path.len() as int + 11,
            path.len() as int + 11 + hash.len() as int,
        ) =~= hash,
        sync_body(path, hash).subrange(path.len() as int + 5, path.len() as int + 11)
            =~= "\nhash="@,
        sync_body(path, hash).last() == '\n',
{
    reveal_strlit("path=");
    reveal_strlit("\nhash=");
    reveal_strlit("\n");
    let b = sync_body(path, hash);
    assert(b.subrange(5, 5 + path.len() as int) =~= path);
    assert(b.subrange(path.len() as int + 11, path.len() as int + 11 + hash.len() as int) =~= hash);
    assert(b.subrange(path.len() as int + 5, path.len() as int + 11) =~= "\nhash="@);
    assert(b.last() == "\n"@[0]);
}

/// The request text that reports a file ends with the file's hash, whole,
/// followed by a line break: the hash reads back from the request.
pub proof fn law_sync_request_ends_with_hash(
    host: Seq<char>,
    path: Seq<char>,
    hash: Seq<char>,
    text: Seq<char>,
)
    requires
        text == request_text("POST"@, "/v1/sync"@, host, sync_body(path, hash)),
    ensures
        text.len() > hash.len(),
        text.subrange(text.len() - hash.len() - 1, text.len() - 1) =~= hash,
        text.subrange(text.len() - hash.len() - 7, text.len() - hash.len() - 1) =~= "\nhash="@,
        text.last() == '\n',
{
    law_sync_body_carries_path_and_hash(path, hash);
    reveal_strlit("\nhash=");
    let b = sync_body(path, hash);
    let head = text.take(text.len() - b.len());
    assert(text =~= head + b);
    assert(text.subrange(text.len() - hash.len() - 1, text.len() - 1) =~= b.subrange(
        path.len() as int + 11,
        path.len() as int + 11 + hash.len() as int,
    ));
    assert(text.subrange(text.len() - hash.len() - 7, text.len() - hash.len() - 1)
        =~= b.subrange(path.len() as int + 5, path.len() as int + 11));
    assert(text.last() == b.last());
}

// ---------------------------------------------------------------------
// The command line
// ---------------------------------------------------------------------

/// `sync --server <URL> --path <PATH> --hash <HASH>` with an address that
/// reads as a host and port asks to sync exactly that path with exactly
/// that hash, whatever the path and hash are, through that server.
pub proof fn law_sync_command_carries_path_and_hash(
    args: Seq<Seq<char>>,
    host: Seq<char>,
    port: u16,
    r: Result<CliCommand, CliFailure>,
)
    requires
        args.len() == 8,
        args[1] == "sync"@,
        args[2] == "--server"@,
        parse_base_url(args[3]) == Some((host, port)),
        args[4] == "--path"@,
        args[6] == "--hash"@,
        planned(args, r),
    ensures
        r matches Ok(CliCommand::Sync(c, req)) && c.host_text() == host && c.port_number()
            == port && req.path@ == args[5] && req.hash@ == args[7],
{
    reveal_strlit("sync");
    reveal_strlit("health");
    assert("sync"@[0] != "health"@[0]);
}

/// `health --server <URL>`, with an address that reads as a host and port,
/// asks for a health check of that server, whatever follows.
pub proof fn law_health_command_asks_that_server(
    args: Seq<Seq<char>>,
    host: Seq<char>,
    port: u16,
    r: Result<CliCommand, CliFailure>,
)
    requires
        args.len() >= 4,
        args[1] == "health"@,
        args[2] == "--server"@,
        parse_base_url(args[3]) == Some((host, port)),
        planned(args, r),
    ensures
        r matches Ok(CliCommand::Health(c)) && c.host_text() == host && c.port_number() == port,
{
}

// ---------------------------------------------------------------------
// The walk of a directory tree
// ---------------------------------------------------------------------

/// A tree that can be read whole lists every one of its files, at every
/// depth, once: the listing is as long as the tree holds files.
pub proof fn law_walk_lists_every_file(nodes: Seq<FsNode>, prefix: Seq<char>)
    requires
        first_unreadable(nodes) is None,
    ensures
        files_in(nodes, prefix).len() == file_count(nodes),
    decreases nodes,
{
    if nodes.len() > 0 {
        let rest = nodes.drop_first();
        match nodes[0] {
            FsNode::Dir(n, kids) => {
                assert(decreases_to!(nodes => nodes[0]));
                assert(decreases_to!(nodes[0] => kids));
                assert(decreases_to!(kids => kids@));
                law_walk_lists_every_file(kids@, prefix + n@ + seq!['/']);
                law_walk_lists_every_file(rest, prefix);
            },
            FsNode::Unreadable(_) => {},
            _ => {
                law_walk_lists_every_file(rest, prefix);
            },
        }
    }
}

/// Every file that a directory lists directly, before any entry that could
/// not be read, is in the listing by the prefix followed by its name.
pub proof fn law_walk_lists_each_direct_file(nodes: Seq<FsNode>, prefix: Seq<char>, i: int)
    requires
        0 <= i < nodes.len(),
        first_unreadable(nodes) is None,
        nodes[i] is File,
    ensures
        files_in(nodes, prefix).contains(prefix + nodes[i]->File_0@),
    decreases i,
{
    let rest = nodes.drop_first();
    let all = files_in(nodes, prefix);
    if i == 0 {
        assert(all[0] == prefix + nodes[0]->File_0@);
    } else {
        match nodes[0] {
            FsNode::Dir(n, kids) => {
                assert(first_unreadable(rest) is None);
            },
            _ => {},
        }
        assert(rest[i - 1] == nodes[i]);
        law_walk_lists_each_direct_file(rest, prefix, i - 1);
        let tail = files_in(rest, prefix);
        let k = choose|k: int| 0 <= k < tail.len() && tail[k] == prefix + nodes[i]->File_0@;
        let head_len = all.len() - tail.len();
        assert(all =~= all.take(head_len) + tail);
        assert(all[head_len + k] == tail[k]);
    }
}

/// Every file directly inside a subdirectory that a directory lists, before
/// any entry that could not be read, is in the listing by the prefix, the
/// subdirectory's name, `/` and the file's name.
pub proof fn law_walk_lists_files_of_subdirectories(
    nodes: Seq<FsNode>,
    prefix: Seq<char>,
    i: int,
    j: int,
)
    requires
        0 <= i < nodes.len(),
        first_unreadable(nodes) is None,
        nodes[i] is Dir,
        0 <= j < nodes[i]->Dir_1@.len(),
        nodes[i]->Dir_1@[j] is File,
    ensures
        files_in(nodes, prefix).contains(
            prefix + nodes[i]->Dir_0@ + seq!['/'] + nodes[i]->Dir_1@[j]->File_0@,
        ),
    decreases i,
{
    let rest = nodes.drop_first();
    let all = files_in(nodes, prefix);
    let target = prefix + nodes[i]->Dir_0@ + seq!['/'] + nodes[i]->Dir_1@[j]->File_0@;
    if i == 0 {
        let kids = nodes[0]->Dir_1@;
        let inner = prefix + nodes[0]->Dir_0@ + seq!['/'];
        assert(first_unreadable(kids) is None);
        law_walk_lists_each_direct_file(kids, inner, j);
        let sub = files_in(kids, inner);
        let k = choose|k: int| 0 <= k < sub.len() && sub[k] == inner + kids[j]->File_0@;
        assert(all =~= sub + files_in(rest, prefix));
        assert(all[k] == sub[k]);
        assert(inner + kids[j]->File_0@ =~= target);
    } else {
        match nodes[0] {
            FsNode::Dir(n, kids) => {
                assert(first_unreadable(rest) is None);
            },
            _ => {},
        }
        assert(rest[i - 1] == nodes[i]);
        law_walk_lists_files_of_subdirectories(rest, prefix, i - 1, j);
        let tail = files_in(rest, prefix);
        let k = choose|k: int| 0 <= k < tail.len() && tail[k] == target;
        let head_len = all.len() - tail.len();
        assert(all =~= all.take(head_len) + tail);
        assert(all[head_len + k] == tail[k]);
    }
}

/// The paths files are synced by under a root: under an absolute root,
/// the path below the root alone; under a relative root not ending in `/`,
/// the root, `/` and the path below it; under one ending in `/`, the root
/// and the path below it.
pub proof fn law_synced_path_under_root(root: Seq<char>, entries: Seq<FsNode>, i: int)
    requires
        0 <= i < files_in(entries, seq![]).len(),
    ensures
        listed_paths(root, entries).len() == files_in(entries, seq![]).len(),
        root.len() > 0 && root[0] == '/' ==> listed_paths(root, entries)[i] == files_in(
            entries,
            seq![],
        )[i],
        root.len() > 0 && root[0] != '/' && root.last() != '/' ==> listed_paths(root, entries)[i]
            == root + seq!['/'] + files_in(entries, seq![])[i],
        root.len() > 0 && root[0] != '/' && root.last() == '/' ==> listed_paths(root, entries)[i]
            == root + files_in(entries, seq![])[i],
{
    let p = files_in(entries, seq![])[i];
    assert(seq![] + p =~= p);
}

/// A reply that cannot be read is never taken as an accepted sync: it is a
/// protocol error with the reason it could not be read.
pub proof fn law_unreadable_reply_refuses_sync(
    reply: Seq<char>,
    reason: Seq<char>,
    r: Result<(), SyncError>,
)
    requires
        parse_reply(reply) == Err::<(u16, Seq<char>), Seq<char>>(reason),
        sync_verdict(reply, r),
    ensures
        r matches Err(SyncError::Protocol(m)) && m@ == reason,
{
}

/// A reply that cannot be read is neither healthy nor unhealthy: it is a
/// protocol error with the reason it could not be read.
pub proof fn law_unreadable_reply_fails_health_check(
    reply: Seq<char>,
    reason: Seq<char>,
    r: Result<bool, SyncError>,
)
    requires
        parse_reply(reply) == Err::<(u16, Seq<char>), Seq<char>>(reason),
        health_verdict(reply, r),
    ensures
        r matches Err(SyncError::Protocol(m)) && m@ == reason,
{
}

} // verus!
