//! The collector's polling loop as a step function: from its state and what
//! just happened (a connection attempt, a read, the end of a cycle, a wait,
//! a shutdown request) to its next state and what to do next.  The program
//! performs each action and reports the outcome as the next event.
//!
//! A failed connection is retried after a wait that starts at one second
//! and doubles up to a minute; a successful connection, and every cycle
//! that ends without losing the connection, resets the wait.  A read error
//! while the connection holds only counts against the metric; a lost
//! connection ends the cycle and starts reconnecting.

use vstd::prelude::*;

use crate::collector::{doubled_backoff, INITIAL_BACKOFF_MS, MAX_BACKOFF_MS};

verus! {

/// Where the loop stands.
#[derive(Debug, Clone, Copy, PartialEq, Eq, Structural)]
pub enum PollPhase {
    /// Connecting for the first time.
    Connecting,
    /// Connected and polling.
    Polling,
    /// Connecting again after the connection was lost.
    Reconnecting,
    /// Shut down.
    Stopped,
}

/// The loop's state: its phase and the wait before the next retry.
#[derive(Debug, Clone, Copy, PartialEq, Eq, Structural)]
pub struct PollState {
    pub phase: PollPhase,
    pub backoff_ms: u64,
}

/// What the program reports back.
#[derive(Debug, Clone, Copy, PartialEq, Eq, Structural)]
pub enum PollEvent {
    /// A connection attempt succeeded.
    ConnectOk,
    /// A connection attempt failed.
    ConnectFailed,
    /// A metric was read.
    ReadOk,
    /// A metric read failed; whether the client still has its connection.
    ReadFailed { still_connected: bool },
    /// Every metric of the cycle has been read.
    CycleDone,
    /// A wait ended.
    Woke,
    /// Shutdown was requested.
    Shutdown,
}

/// What the program does next.
#[derive(Debug, Clone, Copy, PartialEq, Eq, Structural)]
pub enum PollAction {
    /// Try to connect.
    Connect,
    /// Wait this many milliseconds (shutdown may interrupt).
    Sleep(u64),
    /// Disconnect, then wait this many milliseconds (shutdown may interrupt).
    DisconnectAndSleep(u64),
    /// Start a poll cycle.
    Poll,
    /// Go on to the next metric of the cycle.
    ReadNext,
    /// Merge and publish the cycle's values, then wait for the next cycle.
    Publish,
    /// Disconnect and stop.
    Stop,
}

/// The state the loop starts in: connecting, with the first wait.
pub open spec fn initial_poll_state() -> PollState {
    PollState { phase: PollPhase::Connecting, backoff_ms: INITIAL_BACKOFF_MS }
}

/// One step of the loop.
pub open spec fn spec_collector_step(s: PollState, e: PollEvent) -> (PollState, PollAction) {
    let b = s.backoff_ms;
    let keep = s;
    if s.phase == PollPhase::Stopped || e == PollEvent::Shutdown {
        (PollState { phase: PollPhase::Stopped, backoff_ms: b }, PollAction::Stop)
    } else {
        match s.phase {
            PollPhase::Polling => match e {
                PollEvent::ReadOk => (keep, PollAction::ReadNext),
                PollEvent::ReadFailed { still_connected } => if still_connected {
                    (keep, PollAction::ReadNext)
                } else {
                    (
                        PollState { phase: PollPhase::Reconnecting, backoff_ms: doubled_backoff(b) },
                        PollAction::DisconnectAndSleep(b),
                    )
                },
                PollEvent::CycleDone => (
                    PollState { phase: PollPhase::Polling, backoff_ms: INITIAL_BACKOFF_MS },
                    PollAction::Publish,
                ),
                PollEvent::ConnectOk => (
                    PollState { phase: PollPhase::Polling, backoff_ms: INITIAL_BACKOFF_MS },
                    PollAction::Poll,
                ),
                _ => (keep, PollAction::Poll),
            },
            _ => match e {
                PollEvent::ConnectOk => (
                    PollState { phase: PollPhase::Polling, backoff_ms: INITIAL_BACKOFF_MS },
                    PollAction::Poll,
                ),
                PollEvent::ConnectFailed => (
                    PollState { phase: s.phase, backoff_ms: doubled_backoff(b) },
                    if s.phase == PollPhase::Connecting {
                        PollAction::Sleep(b)
                    } else {
                        PollAction::DisconnectAndSleep(b)
                    },
                ),
                _ => (keep, PollAction::Connect),
            },
        }
    }
}

/// The doubled wait, at most a minute.
pub fn doubled(ms: u64) -> (r: u64)
    ensures
        r == doubled_backoff(ms),
{
    if ms > MAX_BACKOFF_MS / 2 {
        MAX_BACKOFF_MS
    } else {
        ms * 2
    }
}

impl PollState {
    /// The state the loop starts in; its first action is to connect.
    pub fn new() -> (s: Self)
        ensures
            s == initial_poll_state(),
    {
        PollState { phase: PollPhase::Connecting, backoff_ms: INITIAL_BACKOFF_MS }
    }
}

/// One step of the collector's loop: the next state and action after `event`.
pub fn collector_step(state: &PollState, event: PollEvent) -> (r: (PollState, PollAction))
    ensures
        r == spec_collector_step(*state, event),
        event == PollEvent::Shutdown ==> r.1 == PollAction::Stop && r.0.phase == PollPhase::Stopped,
        (state.phase == PollPhase::Connecting && event == PollEvent::ConnectFailed) ==> r.1
            == PollAction::Sleep(state.backoff_ms) && r.0.backoff_ms == doubled_backoff(
            state.backoff_ms,
        ),
        (state.phase != PollPhase::Stopped && event == PollEvent::ConnectOk) ==> r.0
            == (PollState { phase: PollPhase::Polling, backoff_ms: INITIAL_BACKOFF_MS }) && r.1
            == PollAction::Poll,
        (state.phase == PollPhase::Polling && event == PollEvent::CycleDone) ==> r.0.backoff_ms
            == INITIAL_BACKOFF_MS && r.1 == PollAction::Publish,
        (state.phase == PollPhase::Polling && event == (PollEvent::ReadFailed {
            still_connected: false,
        })) ==> r.1 == PollAction::DisconnectAndSleep(state.backoff_ms) && r.0.phase
            == PollPhase::Reconnecting,
        (state.phase == PollPhase::Polling && event == (PollEvent::ReadFailed {
            still_connected: true,
        })) ==> r == (*state, PollAction::ReadNext),
{
    let b = state.backoff_ms;
    if state.phase == PollPhase::Stopped || event == PollEvent::Shutdown {
        return (PollState { phase: PollPhase::Stopped, backoff_ms: b }, PollAction::Stop);
    }
    match state.phase {
        PollPhase::Polling => match event {
            PollEvent::ReadOk => (*state, PollAction::ReadNext),
            PollEvent::ReadFailed { still_connected } => if still_connected {
                (*state, PollAction::ReadNext)
            } else {
                (
                    PollState { phase: PollPhase::Reconnecting, backoff_ms: doubled(b) },
                    PollAction::DisconnectAndSleep(b),
                )
            },
            PollEvent::CycleDone => (
                PollState { phase: PollPhase::Polling, backoff_ms: INITIAL_BACKOFF_MS },
                PollAction::Publish,
            ),
            PollEvent::ConnectOk => (
                PollState { phase: PollPhase::Polling, backoff_ms: INITIAL_BACKOFF_MS },
                PollAction::Poll,
            ),
            _ => (*state, PollAction::Poll),
        },
        _ => match event {
            PollEvent::ConnectOk => (
                PollState { phase: PollPhase::Polling, backoff_ms: INITIAL_BACKOFF_MS },
                PollAction::Poll,
            ),
            PollEvent::ConnectFailed => {
                let action = if state.phase == PollPhase::Connecting {
                    PollAction::Sleep(b)
                } else {
                    PollAction::DisconnectAndSleep(b)
                };
                (PollState { phase: state.phase, backoff_ms: doubled(b) }, action)
            },
            _ => (*state, PollAction::Connect),
        },
    }
}

// ── Runs of the loop ────────────────────────────────────────────────

/// The state after `events` and the action each of them gave.
pub open spec fn collector_run(s: PollState, events: Seq<PollEvent>) -> (PollState, Seq<PollAction>)
    decreases events.len(),
{
    if events.len() == 0 {
        (s, Seq::empty())
    } else {
        let prev = collector_run(s, events.drop_last());
        let next = spec_collector_step(prev.0, events.last());
        (next.0, prev.1.push(next.1))
    }
}

/// The `i`-th wait of a run of failed attempts (counting from 0): one
/// second, doubled each time, at most a minute.
pub open spec fn backoff_wait(i: nat) -> u64
    decreases i,
{
    if i == 0 {
        INITIAL_BACKOFF_MS
    } else {
        doubled_backoff(backoff_wait((i - 1) as nat))
    }
}

/// `2` raised to the power `i`.
pub open spec fn two_to(i: nat) -> nat
    decreases i,
{
    if i == 0 {
        1
    } else {
        2 * two_to((i - 1) as nat)
    }
}

/// The `i`-th wait is `min(2^i s, 60 s)`.
pub proof fn lemma_backoff_wait_closed_form(i: nat)
    ensures
        backoff_wait(i) as int == if 1000 * two_to(i) <= 60000 {
            1000 * two_to(i)
        } else {
            60000
        },
    decreases i,
{
    if i > 0 {
        lemma_backoff_wait_closed_form((i - 1) as nat);
    }
}

/// `k` failed attempts, each followed by the end of its wait.
pub open spec fn failed_attempts(k: nat) -> Seq<PollEvent>
    decreases k,
{
    if k == 0 {
        Seq::empty()
    } else {
        failed_attempts((k - 1) as nat).push(PollEvent::ConnectFailed).push(PollEvent::Woke)
    }
}

proof fn lemma_failed_first_connects(k: nat)
    ensures
        ({
            let r = collector_run(initial_poll_state(), failed_attempts(k));
            &&& r.0 == PollState { phase: PollPhase::Connecting, backoff_ms: backoff_wait(k) }
            &&& r.1.len() == 2 * k
            &&& forall|j: int|
                0 <= j < k ==> #[trigger] r.1[2 * j] == PollAction::Sleep(backoff_wait(j as nat))
                    && r.1[2 * j + 1] == PollAction::Connect
        }),
    decreases k,
{
    if k > 0 {
        let k1 = (k - 1) as nat;
        lemma_failed_first_connects(k1);
        let evs = failed_attempts(k);
        assert(evs.drop_last() == failed_attempts(k1).push(PollEvent::ConnectFailed));
        assert(evs.drop_last().drop_last() == failed_attempts(k1));
        assert(evs.last() == PollEvent::Woke);
        assert(evs.drop_last().last() == PollEvent::ConnectFailed);
        let prev = collector_run(initial_poll_state(), failed_attempts(k1));
        let mid = collector_run(initial_poll_state(), evs.drop_last());
        assert(mid.0 == PollState { phase: PollPhase::Connecting, backoff_ms: backoff_wait(k) });
        assert(mid.1 == prev.1.push(PollAction::Sleep(backoff_wait(k1))));
        let r = collector_run(initial_poll_state(), evs);
        assert(r.0 == mid.0);
        assert(r.1 == mid.1.push(PollAction::Connect));
        assert(r.1 == prev.1.push(PollAction::Sleep(backoff_wait(k1))).push(PollAction::Connect));
        assert forall|j: int| 0 <= j < k implies #[trigger] r.1[2 * j] == PollAction::Sleep(
            backoff_wait(j as nat),
        ) && r.1[2 * j + 1] == PollAction::Connect by {
            if j < k1 {
                assert(r.1[2 * j] == prev.1[2 * j]);
                assert(r.1[2 * j + 1] == prev.1[2 * j + 1]);
            }
        }
    }
}

/// Starting up with `k` failed connection attempts before one succeeds:
/// the loop connects `k + 1` times (its first action, then once after each
/// wait), waits `backoff_wait(0)`, …, `backoff_wait(k - 1)` in between
/// (`min(2^i s, 60 s)`), then starts polling with the wait reset to one
/// second.
pub proof fn law_connect_retries(k: nat)
    ensures
        ({
            let evs = failed_attempts(k).push(PollEvent::ConnectOk);
            let r = collector_run(initial_poll_state(), evs);
            let acts = seq![PollAction::Connect] + r.1;
            &&& acts.len() == 2 * k + 2
            &&& acts.filter(|a: PollAction| a == PollAction::Connect).len() == k + 1
            &&& forall|j: int|
                0 <= j < k ==> #[trigger] acts[2 * j + 1] == PollAction::Sleep(backoff_wait(j as nat))
            &&& acts.last() == PollAction::Poll
            &&& r.0 == PollState { phase: PollPhase::Polling, backoff_ms: INITIAL_BACKOFF_MS }
        }),
{
    lemma_failed_first_connects(k);
    let evs = failed_attempts(k).push(PollEvent::ConnectOk);
    assert(evs.drop_last() == failed_attempts(k));
    let pre = collector_run(initial_poll_state(), failed_attempts(k));
    let r = collector_run(initial_poll_state(), evs);
    assert(r.1 == pre.1.push(PollAction::Poll));
    let acts = seq![PollAction::Connect] + r.1;
    assert forall|j: int| 0 <= j < k implies #[trigger] acts[2 * j + 1] == PollAction::Sleep(
        backoff_wait(j as nat),
    ) by {
        assert(acts[2 * j + 1] == pre.1[2 * j]);
    }
    lemma_connect_count(pre.1, k);
    assert(acts =~= seq![PollAction::Connect] + pre.1 + seq![PollAction::Poll]);
    lemma_filter_connects(seq![PollAction::Connect], pre.1);
    lemma_filter_connects(seq![PollAction::Connect] + pre.1, seq![PollAction::Poll]);
    assert(seq![PollAction::Connect].filter(|a: PollAction| a == PollAction::Connect).len() == 1) by {
        reveal_with_fuel(Seq::filter, 2);
    }
    assert(seq![PollAction::Poll].filter(|a: PollAction| a == PollAction::Connect).len() == 0) by {
        reveal_with_fuel(Seq::filter, 2);
    }
}

proof fn lemma_filter_connects(a: Seq<PollAction>, b: Seq<PollAction>)
    ensures
        (a + b).filter(|x: PollAction| x == PollAction::Connect).len() == a.filter(
            |x: PollAction| x == PollAction::Connect,
        ).len() + b.filter(|x: PollAction| x == PollAction::Connect).len(),
{
    Seq::filter_distributes_over_add(a, b, |x: PollAction| x == PollAction::Connect);
}

/// Alternating waits and connects, `k` of each, hold `k` connects.
proof fn lemma_connect_count(acts: Seq<PollAction>, k: nat)
    requires
        acts.len() == 2 * k,
        forall|j: int|
            0 <= j < k ==> #[trigger] acts[2 * j] != PollAction::Connect && acts[2 * j + 1]
                == PollAction::Connect,
    ensures
        acts.filter(|a: PollAction| a == PollAction::Connect).len() == k,
    decreases k,
{
    if k > 0 {
        let k1 = (k - 1) as nat;
        let front = acts.subrange(0, 2 * (k1 as int));
        assert forall|j: int| 0 <= j < k1 implies #[trigger] front[2 * j] != PollAction::Connect
            && front[2 * j + 1] == PollAction::Connect by {
            assert(front[2 * j] == acts[2 * j]);
            assert(front[2 * j + 1] == acts[2 * j + 1]);
        }
        lemma_connect_count(front, k1);
        let tail = acts.subrange(2 * (k1 as int), 2 * (k as int));
        assert(acts =~= front + tail);
        assert(tail =~= seq![acts[2 * (k1 as int)], PollAction::Connect]) by {
            assert(acts[2 * (k1 as int) + 1] == PollAction::Connect);
        }
        assert(acts[2 * (k1 as int)] != PollAction::Connect);
        lemma_filter_connects(front, tail);
        assert(tail.filter(|a: PollAction| a == PollAction::Connect).len() == 1) by {
            reveal_with_fuel(Seq::filter, 3);
        }
    }
}


/// The loop while polling with its wait reset, as every finished cycle
/// leaves it.
pub open spec fn polling_state() -> PollState {
    PollState { phase: PollPhase::Polling, backoff_ms: INITIAL_BACKOFF_MS }
}

/// A read that finds the connection lost and the end of the wait that
/// follows, then `k` failed reconnection attempts, each followed by the end
/// of its wait.
pub open spec fn lost_then_failed(k: nat) -> Seq<PollEvent>
    decreases k,
{
    if k == 0 {
        seq![PollEvent::ReadFailed { still_connected: false }, PollEvent::Woke]
    } else {
        lost_then_failed((k - 1) as nat).push(PollEvent::ConnectFailed).push(PollEvent::Woke)
    }
}

proof fn lemma_lost_then_failed(k: nat)
    ensures
        ({
            let r = collector_run(polling_state(), lost_then_failed(k));
            &&& r.0 == PollState { phase: PollPhase::Reconnecting, backoff_ms: backoff_wait(k + 1) }
            &&& r.1.len() == 2 * k + 2
            &&& forall|j: int|
                0 <= j <= k ==> #[trigger] r.1[2 * j] == PollAction::DisconnectAndSleep(
                    backoff_wait(j as nat),
                ) && r.1[2 * j + 1] == PollAction::Connect
        }),
    decreases k,
{
    let evs = lost_then_failed(k);
    if k == 0 {
        assert(evs.drop_last() == seq![PollEvent::ReadFailed { still_connected: false }]);
        assert(evs.drop_last().drop_last() == Seq::<PollEvent>::empty());
        let e0 = collector_run(polling_state(), evs.drop_last().drop_last());
        assert(e0.0 == polling_state() && e0.1 =~= Seq::<PollAction>::empty());
        let mid = collector_run(polling_state(), evs.drop_last());
        assert(mid.1 =~= seq![PollAction::DisconnectAndSleep(INITIAL_BACKOFF_MS)]);
        assert(backoff_wait(0) == INITIAL_BACKOFF_MS);
        assert(backoff_wait(1) == doubled_backoff(INITIAL_BACKOFF_MS));
    } else {
        let k1 = (k - 1) as nat;
        lemma_lost_then_failed(k1);
        assert(evs.drop_last() == lost_then_failed(k1).push(PollEvent::ConnectFailed));
        assert(evs.drop_last().drop_last() == lost_then_failed(k1));
        let prev = collector_run(polling_state(), lost_then_failed(k1));
        let mid = collector_run(polling_state(), evs.drop_last());
        assert(mid.0 == PollState { phase: PollPhase::Reconnecting, backoff_ms: backoff_wait(k + 1) });
        assert(mid.1 == prev.1.push(PollAction::DisconnectAndSleep(backoff_wait(k))));
        let r = collector_run(polling_state(), evs);
        assert(r.1 == mid.1.push(PollAction::Connect));
        assert forall|j: int| 0 <= j <= k implies #[trigger] r.1[2 * j] == PollAction::DisconnectAndSleep(
            backoff_wait(j as nat),
        ) && r.1[2 * j + 1] == PollAction::Connect by {
            if j < k {
                assert(r.1[2 * j] == prev.1[2 * j]);
                assert(r.1[2 * j + 1] == prev.1[2 * j + 1]);
            }
        }
    }
}

/// A lost connection with `k` failed reconnection attempts before one
/// succeeds: the loop disconnects and waits `backoff_wait(0)`, …,
/// `backoff_wait(k)` (`min(2^i s, 60 s)`) before each of its `k + 1`
/// connection attempts, then polls again with the wait reset to one second.
pub proof fn law_reconnect_retries(k: nat)
    ensures
        ({
            let evs = lost_then_failed(k).push(PollEvent::ConnectOk);
            let r = collector_run(polling_state(), evs);
            &&& r.1.len() == 2 * k + 3
            &&& r.1.filter(|a: PollAction| a == PollAction::Connect).len() == k + 1
            &&& forall|j: int|
                0 <= j <= k ==> #[trigger] r.1[2 * j] == PollAction::DisconnectAndSleep(
                    backoff_wait(j as nat),
                )
            &&& r.1.last() == PollAction::Poll
            &&& r.0 == polling_state()
        }),
{
    lemma_lost_then_failed(k);
    let evs = lost_then_failed(k).push(PollEvent::ConnectOk);
    assert(evs.drop_last() == lost_then_failed(k));
    let pre = collector_run(polling_state(), lost_then_failed(k));
    let r = collector_run(polling_state(), evs);
    assert(r.1 == pre.1.push(PollAction::Poll));
    assert forall|j: int| 0 <= j <= k implies #[trigger] r.1[2 * j] == PollAction::DisconnectAndSleep(
        backoff_wait(j as nat),
    ) by {
        assert(r.1[2 * j] == pre.1[2 * j]);
    }
    lemma_connect_count(pre.1, k + 1);
    assert(r.1 =~= pre.1 + seq![PollAction::Poll]);
    lemma_filter_connects(pre.1, seq![PollAction::Poll]);
    assert(seq![PollAction::Poll].filter(|a: PollAction| a == PollAction::Connect).len() == 0) by {
        reveal_with_fuel(Seq::filter, 2);
    }
}

} // verus!
