//! Shared QUIC transport tuning.

use vstd::prelude::*;

verus! {

/// Flow-control window of one stream. Generous enough that a single `rsync`
/// stream can saturate a fast link instead of stalling on the default window.
pub const STREAM_WINDOW: u32 = 8388608;

/// Flow-control window of a connection.
pub const CONNECTION_WINDOW: u32 = 33554432;

/// One session per stream; a handful of concurrent sessions is plenty.
pub const MAX_SESSIONS: u32 = 64;

/// Nanoseconds of a second.
pub const SECOND: u128 = 1000000000;

/// The first number of milliseconds that a QUIC idle timeout cannot announce.
pub const IDLE_LIMIT: u128 = 4611686018427387904;

/// Transport settings shared by both ends.
#[derive(Debug, Clone, Copy, PartialEq, Eq, Structural)]
pub struct TransportPlan {
    pub idle_millis: u64,
    pub keepalive_nanos: u128,
    pub stream_receive_window: u32,
    pub receive_window: u32,
    pub send_window: u64,
    pub max_concurrent_bidi_streams: u32,
    pub max_concurrent_uni_streams: u32,
}

/// The idle timeout is longer than QUIC can announce.
#[derive(Debug, Clone, Copy, PartialEq, Eq, Structural)]
pub struct IdleOutOfRange;

impl IdleOutOfRange {
    /// What the error says.
    pub open spec fn text(&self) -> Seq<char> {
        "idle timeout is out of range"@
    }

    /// What the error says.
    pub fn message(&self) -> (out: String)
        ensures
            out@ == self.text(),
    {
        "idle timeout is out of range".to_owned()
    }
}

/// The keep-alive interval, in nanoseconds, for an idle timeout and a wished
/// interval in seconds: no longer than a third of the idle timeout, but at
/// least one second.
pub open spec fn keepalive(idle_secs: u64, keepalive_secs: u64) -> int {
    let third = idle_secs * SECOND / 3;
    let wished = keepalive_secs * SECOND;
    let capped = if wished < third {
        wished
    } else {
        third
    };
    if capped < SECOND {
        SECOND as int
    } else {
        capped
    }
}

/// Is `plan` made for this idle timeout and this wished keep-alive interval?
pub open spec fn planned(plan: TransportPlan, idle_secs: u64, keepalive_secs: u64) -> bool {
    &&& idle_secs * 1000 < IDLE_LIMIT
    &&& plan.idle_millis == idle_secs * 1000
    &&& plan.keepalive_nanos == keepalive(idle_secs, keepalive_secs)
    &&& plan.stream_receive_window == STREAM_WINDOW
    &&& plan.receive_window == CONNECTION_WINDOW
    &&& plan.send_window == CONNECTION_WINDOW
    &&& plan.max_concurrent_bidi_streams == MAX_SESSIONS
    &&& plan.max_concurrent_uni_streams == 0
}

/// Transport settings for an idle timeout and a wished keep-alive interval in
/// seconds. Fails if QUIC cannot announce the idle timeout.
pub fn transport_config(idle_secs: u64, keepalive_secs: u64) -> (r: Result<
    TransportPlan,
    IdleOutOfRange,
>)
    ensures
        match r {
            Ok(plan) => planned(plan, idle_secs, keepalive_secs),
            Err(_) => idle_secs * 1000 >= IDLE_LIMIT,
        },
{
    let millis: u128 = (idle_secs as u128) * 1000;
    if millis >= IDLE_LIMIT {
        return Err(IdleOutOfRange);
    }
    // Keep-alives must be comfortably shorter than the idle timeout.
    let third: u128 = (idle_secs as u128) * 1000000000 / 3;
    let wished: u128 = (keepalive_secs as u128) * 1000000000;
    let capped: u128 = if wished < third {
        wished
    } else {
        third
    };
    let keepalive_nanos: u128 = if capped < 1000000000 {
        1000000000
    } else {
        capped
    };
    Ok(
        TransportPlan {
            idle_millis: millis as u64,
            keepalive_nanos,
            stream_receive_window: STREAM_WINDOW,
            receive_window: CONNECTION_WINDOW,
            send_window: CONNECTION_WINDOW as u64,
            max_concurrent_bidi_streams: MAX_SESSIONS,
            max_concurrent_uni_streams: 0,
        },
    )
}

/// However the two are configured, at least three keep-alives fit into the idle
/// timeout, unless it is shorter than three seconds; and keep-alives are never
/// less than a second apart.
pub proof fn law_keepalive_fits_the_idle_timeout(idle_secs: u64, keepalive_secs: u64)
    ensures
        keepalive(idle_secs, keepalive_secs) >= SECOND,
        idle_secs >= 3 ==> keepalive(idle_secs, keepalive_secs) * 3 <= idle_secs * SECOND,
        idle_secs >= 1 ==> keepalive(idle_secs, keepalive_secs) <= idle_secs * SECOND,
{
}

/// The interval that is wished for is the one that is used, as long as it is at
/// least a second and three of it fit into the idle timeout; a longer one is
/// shortened to a third of the timeout.
pub proof fn law_wished_keepalive_is_used(idle_secs: u64, keepalive_secs: u64)
    ensures
        keepalive_secs >= 1 && keepalive_secs * 3 <= idle_secs ==> keepalive(
            idle_secs,
            keepalive_secs,
        ) == keepalive_secs * 1000000000,
        idle_secs >= 3 && keepalive_secs * 3 > idle_secs ==> keepalive(idle_secs, keepalive_secs)
            == idle_secs * 1000000000 / 3,
{
}

/// Two plans for the same idle timeout time out alike, to the millisecond, and
/// never before a keep-alive was due, from three seconds on. A stream may fill a
/// quarter of what a connection may; nobody opens a stream of their own that goes
/// one way.
pub proof fn law_plans(plan: TransportPlan, idle_secs: u64, keepalive_secs: u64)
    requires
        planned(plan, idle_secs, keepalive_secs),
    ensures
        plan.idle_millis == idle_secs * 1000,
        idle_secs >= 3 ==> plan.keepalive_nanos * 3 <= plan.idle_millis * 1000000,
        plan.receive_window == plan.stream_receive_window * 4,
        plan.send_window == plan.receive_window,
        plan.stream_receive_window == 8 * 1024 * 1024,
        plan.max_concurrent_bidi_streams == 64,
        plan.max_concurrent_uni_streams == 0,
{
    law_keepalive_fits_the_idle_timeout(idle_secs, keepalive_secs);
}

} // verus!
