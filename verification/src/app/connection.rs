//! Connection lifecycle state machine and retry policy.
use vstd::prelude::*;
use vstd::arithmetic::power2::{pow2, lemma_pow2_unfold, lemma_pow2_pos, lemma_pow2_strictly_increases};
use super::app_state::ConnectionState;
use crate::time::{Duration, MAX_NANOS};

verus! {

/// Events that drive the connection state machine.
#[derive(Debug, Clone, Copy, PartialEq, Eq, Structural)]
pub enum ConnectionEvent {
    Success,
    SoftFailure,
    HardFailure,
    ReconnectAttempt,
    SyncComplete,
    GiveUp,
}

/// The transition table; pairs not listed keep the state.
pub open spec fn next_state(state: ConnectionState, ev: ConnectionEvent) -> ConnectionState {
    match (state, ev) {
        (ConnectionState::Connected, ConnectionEvent::SoftFailure) => ConnectionState::Degraded,
        (ConnectionState::Connected, ConnectionEvent::HardFailure) => ConnectionState::Disconnected,
        (ConnectionState::Degraded, ConnectionEvent::Success) => ConnectionState::Connected,
        (ConnectionState::Degraded, ConnectionEvent::SoftFailure) => ConnectionState::Degraded,
        (ConnectionState::Degraded, ConnectionEvent::HardFailure) => ConnectionState::Disconnected,
        (ConnectionState::Disconnected, ConnectionEvent::ReconnectAttempt) => ConnectionState::Reconnecting,
        (ConnectionState::Reconnecting, ConnectionEvent::SyncComplete) => ConnectionState::Syncing,
        (ConnectionState::Reconnecting, ConnectionEvent::HardFailure) => ConnectionState::Disconnected,
        (ConnectionState::Reconnecting, ConnectionEvent::GiveUp) => ConnectionState::Disconnected,
        (ConnectionState::Syncing, ConnectionEvent::Success) => ConnectionState::Connected,
        (ConnectionState::Syncing, ConnectionEvent::HardFailure) => ConnectionState::Reconnecting,
        (ConnectionState::Syncing, ConnectionEvent::SoftFailure) => ConnectionState::Degraded,
        (s, _) => s,
    }
}

/// Pure state transition function.
pub fn transition(state: ConnectionState, ev: ConnectionEvent) -> (r: ConnectionState)
    ensures
        r == next_state(state, ev),
{
    match (state, ev) {
        (ConnectionState::Connected, ConnectionEvent::SoftFailure) => ConnectionState::Degraded,
        (ConnectionState::Connected, ConnectionEvent::HardFailure) => ConnectionState::Disconnected,
        (ConnectionState::Degraded, ConnectionEvent::Success) => ConnectionState::Connected,
        (ConnectionState::Degraded, ConnectionEvent::SoftFailure) => ConnectionState::Degraded,
        (ConnectionState::Degraded, ConnectionEvent::HardFailure) => ConnectionState::Disconnected,
        (ConnectionState::Disconnected, ConnectionEvent::ReconnectAttempt) => ConnectionState::Reconnecting,
        (ConnectionState::Reconnecting, ConnectionEvent::SyncComplete) => ConnectionState::Syncing,
        (ConnectionState::Reconnecting, ConnectionEvent::HardFailure) => ConnectionState::Disconnected,
        (ConnectionState::Reconnecting, ConnectionEvent::GiveUp) => ConnectionState::Disconnected,
        (ConnectionState::Syncing, ConnectionEvent::Success) => ConnectionState::Connected,
        (ConnectionState::Syncing, ConnectionEvent::HardFailure) => ConnectionState::Reconnecting,
        (ConnectionState::Syncing, ConnectionEvent::SoftFailure) => ConnectionState::Degraded,
        (s, _) => s,
    }
}

/// The state after a sequence of events.
pub open spec fn run_events(state: ConnectionState, evs: Seq<ConnectionEvent>) -> ConnectionState
    decreases evs.len(),
{
    if evs.len() == 0 {
        state
    } else {
        next_state(run_events(state, evs.drop_last()), evs.last())
    }
}

/// Recovery path to `Connected` from each state.
pub open spec fn recovery_path(state: ConnectionState) -> Seq<ConnectionEvent> {
    match state {
        ConnectionState::Connected => seq![],
        ConnectionState::Degraded => seq![ConnectionEvent::Success],
        ConnectionState::Disconnected => seq![
            ConnectionEvent::ReconnectAttempt,
            ConnectionEvent::SyncComplete,
            ConnectionEvent::Success,
        ],
        ConnectionState::Reconnecting => seq![ConnectionEvent::SyncComplete, ConnectionEvent::Success],
        ConnectionState::Syncing => seq![ConnectionEvent::Success],
    }
}

/// From every state the machine can get back to `Connected` in at most three events.
pub proof fn lemma_every_state_recovers(state: ConnectionState)
    ensures
        run_events(state, recovery_path(state)) == ConnectionState::Connected,
        recovery_path(state).len() <= 3,
{
    let p = recovery_path(state);
    reveal_with_fuel(run_events, 4);
    if p.len() == 3 {
        assert(p.drop_last().drop_last().drop_last() =~= seq![]);
        assert(p.drop_last().drop_last() =~= seq![p[0]]);
        assert(p.drop_last() =~= seq![p[0], p[1]]);
    } else if p.len() == 2 {
        assert(p.drop_last().drop_last() =~= seq![]);
        assert(p.drop_last() =~= seq![p[0]]);
    } else if p.len() == 1 {
        assert(p.drop_last() =~= seq![]);
    }
}

/// A hard failure always leaves the healthy states (`Connected`, `Degraded`)
/// and never lands on `Connected`.
pub proof fn lemma_hard_failure_never_connects(state: ConnectionState)
    ensures
        next_state(state, ConnectionEvent::HardFailure) != ConnectionState::Connected,
        next_state(state, ConnectionEvent::HardFailure) != ConnectionState::Degraded,
{
}

/// Law: a soft failure never takes the connection down: from a healthy or
/// syncing state it lands on `Degraded`, and from any other state it keeps
/// the state. Only a hard failure or giving up can reach `Disconnected`
/// from another state.
pub proof fn lemma_soft_failure_degrades(state: ConnectionState, ev: ConnectionEvent)
    ensures
        (state == ConnectionState::Connected || state == ConnectionState::Degraded || state
            == ConnectionState::Syncing) ==> next_state(state, ConnectionEvent::SoftFailure)
            == ConnectionState::Degraded,
        !(state == ConnectionState::Connected || state == ConnectionState::Degraded || state
            == ConnectionState::Syncing) ==> next_state(state, ConnectionEvent::SoftFailure)
            == state,
        state != ConnectionState::Disconnected && next_state(state, ev)
            == ConnectionState::Disconnected ==> (ev == ConnectionEvent::HardFailure || ev
            == ConnectionEvent::GiveUp),
{
}

/// `base * 2^attempt`, in nanoseconds, saturated at the largest span.
pub open spec fn scaled_nanos(base: nat, attempt: nat) -> nat {
    if base * pow2(attempt) <= MAX_NANOS {
        base * pow2(attempt)
    } else {
        MAX_NANOS as nat
    }
}

/// The delay, in nanoseconds: `min(base * 2^attempt, cap)` (the product
/// saturated), plus the jitter clamped to one second.
pub open spec fn backoff_nanos(attempt: u32, base: nat, cap: nat, jitter_ms: u64) -> int {
    let exp = scaled_nanos(base, attempt as nat);
    let capped: nat = if exp <= cap { exp } else { cap };
    let jitter = if jitter_ms <= 1000 { jitter_ms as int } else { 1000 };
    capped + jitter * 1_000_000
}

/// `base * 2^i` only grows with `i`.
proof fn lemma_scaled_monotone(base: nat, i: nat, j: nat)
    requires
        i <= j,
    ensures
        base * pow2(i) <= base * pow2(j),
        scaled_nanos(base, i) <= scaled_nanos(base, j),
{
    if i < j {
        lemma_pow2_strictly_increases(i, j);
    }
    assert(base * pow2(i) <= base * pow2(j)) by (nonlinear_arith)
        requires
            pow2(i) <= pow2(j),
    ;
}

/// One doubling of the saturated product is the saturated product of the
/// next power.
proof fn lemma_scaled_step(base: nat, i: nat)
    ensures
        scaled_nanos(base, i + 1) == if 2 * scaled_nanos(base, i) <= MAX_NANOS {
            2 * scaled_nanos(base, i)
        } else {
            MAX_NANOS as nat
        },
{
    lemma_pow2_unfold(i + 1);
    assert(base * pow2(i + 1) == 2 * (base * pow2(i))) by (nonlinear_arith)
        requires
            pow2(i + 1) == 2 * pow2(i),
    ;
}

/// `base * 2^attempt`, saturated, by doubling; it stops early once the
/// product is zero or saturated, where further doublings change nothing.
fn scaled(base: Duration, attempt: u32) -> (d: Duration)
    requires
        base.wf(),
    ensures
        d@ == scaled_nanos(base@, attempt as nat),
        d.wf(),
{
    let mut d = base;
    let mut i: u32 = 0;
    proof {
        reveal(pow2);
        vstd::arithmetic::power::lemma_pow0(2);
        assert(base@ * pow2(0) == base@) by (nonlinear_arith)
            requires
                pow2(0) == 1,
        ;
    }
    while i < attempt && d.nanos != 0 && d.nanos != MAX_NANOS
        invariant
            i <= attempt,
            d@ == scaled_nanos(base@, i as nat),
            d.wf(),
        decreases attempt - i,
    {
        proof {
            lemma_scaled_step(base@, i as nat);
        }
        if d.nanos <= MAX_NANOS / 2 {
            d = Duration { nanos: d.nanos * 2 };
        } else {
            d = Duration { nanos: MAX_NANOS };
        }
        i = i + 1;
    }
    proof {
        if i < attempt {
            lemma_scaled_monotone(base@, i as nat, attempt as nat);
            if d.nanos == 0 {
                lemma_pow2_pos(i as nat);
                assert(base@ == 0) by (nonlinear_arith)
                    requires
                        base@ * pow2(i as nat) == 0,
                        pow2(i as nat) > 0,
                ;
                assert(base@ * pow2(attempt as nat) == 0) by (nonlinear_arith)
                    requires
                        base@ == 0,
                ;
            }
        }
    }
    d
}

/// Deterministic exponential backoff: `base * 2^attempt`, saturated, capped
/// at `cap`, plus `jitter_ms` clamped to one second.
pub fn backoff_delay(attempt: u32, base: Duration, cap: Duration, jitter_ms: u64) -> (d: Duration)
    requires
        base.wf(),
        cap.wf(),
        backoff_nanos(attempt, base@, cap@, jitter_ms) <= MAX_NANOS,
    ensures
        d@ == backoff_nanos(attempt, base@, cap@, jitter_ms),
        d.wf(),
{
    let exp = scaled(base, attempt);
    let capped = exp.min(cap);
    let jitter = if jitter_ms < 1_000 { jitter_ms } else { 1_000 };
    let extra = Duration::from_millis(jitter);
    match capped.checked_add(extra) {
        Some(d) => d,
        None => capped,
    }
}

/// The delay never exceeds the cap by more than the one-second jitter ceiling.
pub proof fn lemma_backoff_bounded(attempt: u32, base: nat, cap: nat, jitter_ms: u64)
    ensures
        backoff_nanos(attempt, base, cap, jitter_ms) <= cap + 1_000_000_000,
{
}

/// More attempts never shorten the delay.
pub proof fn lemma_backoff_monotone(a1: u32, a2: u32, base: nat, cap: nat, jitter_ms: u64)
    requires
        a1 <= a2,
    ensures
        backoff_nanos(a1, base, cap, jitter_ms) <= backoff_nanos(a2, base, cap, jitter_ms),
{
    lemma_scaled_monotone(base, a1 as nat, a2 as nat);
}

} // verus!
