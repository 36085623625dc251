//! The polling schedule shared by all fetchers.
//!
//! A cycle fetches the half-open range `[from_ts, now)`. After a success the next
//! cycle starts a day before the present one ended, so that late-arriving
//! transactions are not missed; after a failure the same start is tried again.
use crate::text::{decimal, i64_text, i64_value, lemma_decimal_read_back, parse_i64};
use vstd::prelude::*;

verus! {

/// Seconds by which successive ranges overlap: a day.
pub const OVERLAP_SECS: i64 = 86_400;

/// What a run finds stored by earlier runs.
#[derive(Debug, PartialEq, Eq)]
pub struct StoredSchedule {
    /// Time of the last successful fetch.
    pub last_fetched: Option<String>,
    /// Start of the next range, for a provider that stores it.
    pub next_start: Option<String>,
}

/// The timestamp that a stored text stands for.
pub open spec fn timestamp_in(text: Option<String>) -> Option<i64> {
    match text {
        Some(t) => i64_value(t@),
        None => None,
    }
}

/// Reads a stored timestamp; a text that is no number counts as absent.
pub fn read_timestamp(text: &Option<String>) -> (r: Option<i64>)
    ensures
        r == timestamp_in(*text),
{
    match text {
        Some(t) => parse_i64(t.as_str()),
        None => None,
    }
}

/// Where the first range of a run starts: at the stored start for a provider that
/// stores one, else a day before the last successful fetch, else the given number
/// of days back.
pub open spec fn first_start(
    stores_start: bool,
    next_start: Option<i64>,
    last_fetched: Option<i64>,
    now: int,
    days_back: int,
) -> int {
    if stores_start {
        match next_start {
            Some(ts) => ts as int,
            None => now - days_back * 86_400,
        }
    } else {
        match last_fetched {
            Some(ts) => ts - OVERLAP_SECS,
            None => now - days_back * 86_400,
        }
    }
}

/// Where the first range of a run starts.
pub fn initial_start(
    stores_start: bool,
    next_start: Option<i64>,
    last_fetched: Option<i64>,
    now: i64,
    start_date_days_back: u64,
) -> (r: i64)
    requires
        i64::MIN <= first_start(
            stores_start,
            next_start,
            last_fetched,
            now as int,
            start_date_days_back as int,
        ),
    ensures
        r == first_start(
            stores_start,
            next_start,
            last_fetched,
            now as int,
            start_date_days_back as int,
        ),
{
    if stores_start {
        match next_start {
            Some(ts) => ts,
            None => (now as i128 - start_date_days_back as i128 * 86_400) as i64,
        }
    } else {
        match last_fetched {
            Some(ts) => ts - OVERLAP_SECS,
            None => (now as i128 - start_date_days_back as i128 * 86_400) as i64,
        }
    }
}

/// Seconds from `ts` to `now`, 0 where `ts` is in the future.
pub open spec fn elapsed(ts: int, now: int) -> int {
    if now >= ts {
        now - ts
    } else {
        0
    }
}

/// Seconds to wait before the first fetch of a run, so that a restart does not
/// shorten the interval.
pub open spec fn wait_before_first(last_fetched: Option<i64>, now: int, interval: int) -> int {
    match last_fetched {
        Some(ts) => if elapsed(ts as int, now) < interval {
            interval - elapsed(ts as int, now)
        } else {
            0
        },
        None => 0,
    }
}

/// Seconds to wait before the first fetch of a run.
pub fn startup_wait(last_fetched: Option<i64>, now: i64, fetch_interval_secs: u64) -> (r: u64)
    ensures
        r == wait_before_first(last_fetched, now as int, fetch_interval_secs as int),
{
    match last_fetched {
        Some(ts) => {
            let passed: u64 = if now >= ts {
                (now as i128 - ts as i128) as u64
            } else {
                0
            };
            if passed < fetch_interval_secs {
                fetch_interval_secs - passed
            } else {
                0
            }
        },
        None => 0,
    }
}

/// What a fetch cycle leaves behind.
#[derive(Debug)]
pub struct CycleEnd {
    /// Where the next range starts.
    pub from_ts: i64,
    /// Text to store as the time of the last successful fetch.
    pub last_fetched: Option<String>,
    /// Text to store as the start of the next range.
    pub next_start: Option<String>,
}

/// `end` is what a cycle that fetched `[from_ts, now)` leaves behind: success moves
/// the start to a day before `now` and is recorded, the start only for a provider
/// that stores it; failure changes and records nothing.
pub open spec fn is_cycle_end(
    from_ts: i64,
    now: i64,
    fetched: bool,
    stores_start: bool,
    end: CycleEnd,
) -> bool {
    &&& end.from_ts == (if fetched {
        now - OVERLAP_SECS
    } else {
        from_ts as int
    })
    &&& match end.last_fetched {
        Some(text) => fetched && text@ == decimal(now as int),
        None => !fetched,
    }
    &&& match end.next_start {
        Some(text) => fetched && stores_start && text@ == decimal(now - OVERLAP_SECS),
        None => !(fetched && stores_start),
    }
}

/// Ends a cycle that fetched `[from_ts, now)`. Success moves the start to a day
/// before `now` and is recorded; failure changes and records nothing.
pub fn end_cycle(from_ts: i64, now: i64, fetched: bool, stores_start: bool) -> (r: CycleEnd)
    requires
        fetched ==> i64::MIN <= now - OVERLAP_SECS,
    ensures
        is_cycle_end(from_ts, now, fetched, stores_start, r),
{
    if !fetched {
        return CycleEnd { from_ts, last_fetched: None, next_start: None };
    }
    let next: i64 = now - OVERLAP_SECS;
    CycleEnd {
        from_ts: next,
        last_fetched: Some(i64_text(now)),
        next_start: if stores_start {
            Some(i64_text(next))
        } else {
            None
        },
    }
}

/// A restart after a success at `fetched_at` resumes as if there had been none:
/// what was stored reads back as the time of that fetch, and the next range starts
/// where it would have started.
pub proof fn lemma_restart_resumes(
    from_ts: i64,
    fetched_at: i64,
    stores_start: bool,
    end: CycleEnd,
    now: int,
    days_back: int,
)
    requires
        i64::MIN <= fetched_at - OVERLAP_SECS,
        is_cycle_end(from_ts, fetched_at, true, stores_start, end),
    ensures
        timestamp_in(end.last_fetched) == Some(fetched_at),
        first_start(
            stores_start,
            timestamp_in(end.next_start),
            timestamp_in(end.last_fetched),
            now,
            days_back,
        ) == end.from_ts,
{
    lemma_decimal_read_back(fetched_at as int);
    lemma_decimal_read_back(fetched_at - OVERLAP_SECS);
}

/// A restart within the interval waits until exactly one interval has passed since
/// the last successful fetch; a later one does not wait.
pub proof fn lemma_wait_completes_interval(fetched_at: i64, now: int, interval: int)
    requires
        fetched_at <= now,
        0 <= interval,
    ensures
        ({
            let wait = wait_before_first(Some(fetched_at), now, interval);
            if now < fetched_at + interval {
                now + wait == fetched_at + interval
            } else {
                wait == 0
            }
        }),
{
}

// ---------------------------------------------------------------------------
// The loop, step by step
// ---------------------------------------------------------------------------

/// What one provider's loop is set to.
#[derive(Debug, Clone, Copy)]
pub struct LoopSettings {
    /// Whether the provider stores the start of its next range.
    pub stores_start: bool,
    pub fetch_interval_secs: u64,
    pub start_date_days_back: u64,
}

/// The work that a loop asks for next.
#[derive(Debug, PartialEq, Eq)]
pub enum LoopStep {
    /// Run the provider's startup hook.
    Startup,
    /// Read what earlier runs stored.
    Load,
    /// Put the time of the last successful fetch into the shared state.
    Restore { ts: i64, next_start: Option<i64> },
    /// Read the clock, for the first start and the wait before it.
    Schedule { last_fetched: Option<i64>, next_start: Option<i64> },
    /// Sleep.
    Pause { secs: u64, from_ts: i64 },
    /// Read the clock and fetch from `from_ts` to that time.
    Fetch { from_ts: i64 },
    /// Mark the success in the shared state.
    MarkSuccess { from_ts: i64, now: i64 },
    /// Store what the cycle leaves behind.
    Record { from_ts: i64, now: i64 },
    /// Run the provider's work that follows a success.
    FollowUp { now: i64 },
    /// Mark the failure in the shared state.
    MarkFailure { from_ts: i64, error: String },
}

/// How a piece of work ended.
#[derive(Debug, PartialEq, Eq)]
pub enum LoopEvent {
    Done,
    Loaded(StoredSchedule),
    Clock { now: i64 },
    /// Everything up to `now` was fetched.
    Fetched { now: i64 },
    Failed { error: String },
}

/// The step once the clock is read: a pause where part of an interval is left to wait
/// out, else the first fetch.
pub open spec fn step_when_scheduled(
    settings: LoopSettings,
    last_fetched: Option<i64>,
    next_start: Option<i64>,
    now: i64,
) -> LoopStep {
    let from_ts = first_start(
        settings.stores_start,
        next_start,
        last_fetched,
        now as int,
        settings.start_date_days_back as int,
    ) as i64;
    let secs = wait_before_first(
        last_fetched,
        now as int,
        settings.fetch_interval_secs as int,
    ) as u64;
    if secs > 0 {
        LoopStep::Pause { secs, from_ts }
    } else {
        LoopStep::Fetch { from_ts }
    }
}

/// The step after an event. A step that was not waiting for the event stays.
pub open spec fn step_after(settings: LoopSettings, step: LoopStep, event: LoopEvent) -> LoopStep {
    match (step, event) {
        (LoopStep::Startup, LoopEvent::Done) => LoopStep::Load,
        (LoopStep::Load, LoopEvent::Loaded(stored)) => {
            let next_start = timestamp_in(stored.next_start);
            match timestamp_in(stored.last_fetched) {
                Some(ts) => LoopStep::Restore { ts, next_start },
                None => LoopStep::Schedule { last_fetched: None, next_start },
            }
        },
        (LoopStep::Restore { ts, next_start }, LoopEvent::Done) => LoopStep::Schedule {
            last_fetched: Some(ts),
            next_start,
        },
        (LoopStep::Schedule { last_fetched, next_start }, LoopEvent::Clock { now }) =>
            step_when_scheduled(settings, last_fetched, next_start, now),
        (LoopStep::Pause { secs: _, from_ts }, LoopEvent::Done) => LoopStep::Fetch { from_ts },
        (LoopStep::Fetch { from_ts }, LoopEvent::Fetched { now }) => LoopStep::MarkSuccess {
            from_ts,
            now,
        },
        (LoopStep::Fetch { from_ts }, LoopEvent::Failed { error }) => LoopStep::MarkFailure {
            from_ts,
            error,
        },
        (LoopStep::MarkSuccess { from_ts, now }, LoopEvent::Done) => LoopStep::Record {
            from_ts,
            now,
        },
        (LoopStep::Record { from_ts: _, now }, LoopEvent::Done) => LoopStep::FollowUp { now },
        (LoopStep::FollowUp { now }, LoopEvent::Done) => LoopStep::Pause {
            secs: settings.fetch_interval_secs,
            from_ts: (now - OVERLAP_SECS) as i64,
        },
        (LoopStep::MarkFailure { from_ts, error: _ }, LoopEvent::Done) => LoopStep::Pause {
            secs: settings.fetch_interval_secs,
            from_ts,
        },
        (step, _) => step,
    }
}

/// Whether the times that an event gives rise to fit a timestamp.
pub open spec fn times_fit(settings: LoopSettings, step: LoopStep, event: LoopEvent) -> bool {
    match (step, event) {
        (LoopStep::Schedule { last_fetched, next_start }, LoopEvent::Clock { now }) => i64::MIN
            <= first_start(
            settings.stores_start,
            next_start,
            last_fetched,
            now as int,
            settings.start_date_days_back as int,
        ),
        (LoopStep::Fetch { from_ts: _ }, LoopEvent::Fetched { now }) => i64::MIN <= now
            - OVERLAP_SECS,
        (LoopStep::FollowUp { now }, _) => i64::MIN <= now - OVERLAP_SECS,
        _ => true,
    }
}

/// Whether the times that an event gives rise to fit a timestamp.
pub fn check_times(settings: LoopSettings, step: &LoopStep, event: &LoopEvent) -> (r: bool)
    ensures
        r == times_fit(settings, *step, *event),
{
    match (step, event) {
        (LoopStep::Schedule { last_fetched, next_start }, LoopEvent::Clock { now }) => {
            let back: i128 = *now as i128 - settings.start_date_days_back as i128 * 86_400;
            if settings.stores_start {
                next_start.is_some() || back >= i64::MIN as i128
            } else {
                match last_fetched {
                    Some(ts) => *ts >= i64::MIN + OVERLAP_SECS,
                    None => back >= i64::MIN as i128,
                }
            }
        },
        (LoopStep::Fetch { from_ts: _ }, LoopEvent::Fetched { now }) => *now >= i64::MIN
            + OVERLAP_SECS,
        (LoopStep::FollowUp { now }, _) => *now >= i64::MIN + OVERLAP_SECS,
        _ => true,
    }
}

/// Decides what the loop does after an event.
pub fn next_step(settings: LoopSettings, step: LoopStep, event: LoopEvent) -> (r: LoopStep)
    requires
        times_fit(settings, step, event),
    ensures
        r == step_after(settings, step, event),
{
    match (step, event) {
        (LoopStep::Startup, LoopEvent::Done) => LoopStep::Load,
        (LoopStep::Load, LoopEvent::Loaded(stored)) => {
            let next_start: Option<i64> = read_timestamp(&stored.next_start);
            match read_timestamp(&stored.last_fetched) {
                Some(ts) => LoopStep::Restore { ts, next_start },
                None => LoopStep::Schedule { last_fetched: None, next_start },
            }
        },
        (LoopStep::Restore { ts, next_start }, LoopEvent::Done) => LoopStep::Schedule {
            last_fetched: Some(ts),
            next_start,
        },
        (LoopStep::Schedule { last_fetched, next_start }, LoopEvent::Clock { now }) => {
            let from_ts: i64 = initial_start(
                settings.stores_start,
                next_start,
                last_fetched,
                now,
                settings.start_date_days_back,
            );
            let secs: u64 = startup_wait(last_fetched, now, settings.fetch_interval_secs);
            if secs > 0 {
                LoopStep::Pause { secs, from_ts }
            } else {
                LoopStep::Fetch { from_ts }
            }
        },
        (LoopStep::Pause { secs: _, from_ts }, LoopEvent::Done) => LoopStep::Fetch { from_ts },
        (LoopStep::Fetch { from_ts }, LoopEvent::Fetched { now }) => LoopStep::MarkSuccess {
            from_ts,
            now,
        },
        (LoopStep::Fetch { from_ts }, LoopEvent::Failed { error }) => LoopStep::MarkFailure {
            from_ts,
            error,
        },
        (LoopStep::MarkSuccess { from_ts, now }, LoopEvent::Done) => LoopStep::Record {
            from_ts,
            now,
        },
        (LoopStep::Record { from_ts: _, now }, LoopEvent::Done) => LoopStep::FollowUp { now },
        (LoopStep::FollowUp { now }, LoopEvent::Done) => LoopStep::Pause {
            secs: settings.fetch_interval_secs,
            from_ts: now - OVERLAP_SECS,
        },
        (LoopStep::MarkFailure { from_ts, error: _ }, LoopEvent::Done) => LoopStep::Pause {
            secs: settings.fetch_interval_secs,
            from_ts,
        },
        (step, _) => step,
    }
}

/// Whether a step waits for an event.
pub open spec fn awaits(step: LoopStep, event: LoopEvent) -> bool {
    match step {
        LoopStep::Load => event is Loaded,
        LoopStep::Schedule { .. } => event is Clock,
        LoopStep::Fetch { .. } => event is Fetched || event is Failed,
        _ => event is Done,
    }
}

/// The step that a loop is at after its first `n` events.
pub open spec fn step_at(settings: LoopSettings, events: Seq<LoopEvent>, n: int) -> LoopStep
    decreases n,
{
    if n <= 0 {
        LoopStep::Startup
    } else {
        step_after(settings, step_at(settings, events, n - 1), events[n - 1])
    }
}

/// `events` are what a loop meets from its start: each is one that its step waits
/// for, with times that fit.
pub open spec fn is_run(settings: LoopSettings, events: Seq<LoopEvent>) -> bool {
    forall|i: int|
        0 <= i < events.len() ==> {
            let step = #[trigger] step_at(settings, events, i);
            awaits(step, events[i]) && times_fit(settings, step, events[i])
        }
}

/// A loop starts with its startup hook, reads what is stored, puts the time of the
/// last successful fetch in place exactly where a stored text reads as one, and then
/// fetches from the first start, after the rest of the interval if any is left.
pub proof fn lemma_startup_order(settings: LoopSettings, events: Seq<LoopEvent>)
    requires
        is_run(settings, events),
        5 <= events.len(),
    ensures
        step_at(settings, events, 0) == LoopStep::Startup,
        step_at(settings, events, 1) == LoopStep::Load,
        events[1] is Loaded,
        ({
            let stored = events[1]->Loaded_0;
            let last = timestamp_in(stored.last_fetched);
            let next_start = timestamp_in(stored.next_start);
            let k: int = if last is Some {
                3
            } else {
                2
            };
            let now = events[k]->Clock_now;
            let from_ts = first_start(
                settings.stores_start,
                next_start,
                last,
                now as int,
                settings.start_date_days_back as int,
            );
            let wait = wait_before_first(last, now as int, settings.fetch_interval_secs as int);
            &&& last matches Some(ts) ==> step_at(settings, events, 2) == (LoopStep::Restore {
                ts,
                next_start,
            })
            &&& step_at(settings, events, k) == (LoopStep::Schedule {
                last_fetched: last,
                next_start,
            })
            &&& events[k] is Clock
            &&& match step_at(settings, events, k + 1) {
                LoopStep::Pause { secs, from_ts: from } => {
                    &&& 0 < wait
                    &&& secs == wait
                    &&& from == from_ts
                    &&& step_at(settings, events, k + 2) == (LoopStep::Fetch { from_ts: from })
                },
                LoopStep::Fetch { from_ts: from } => wait == 0 && from == from_ts,
                _ => false,
            }
        }),
{
    reveal_with_fuel(step_at, 7);
    let stored = events[1]->Loaded_0;
    let k: int = if timestamp_in(stored.last_fetched) is Some {
        3
    } else {
        2
    };
    assert(step_at(settings, events, 0) == LoopStep::Startup);
    assert(step_at(settings, events, 1) == LoopStep::Load);
    assert(awaits(step_at(settings, events, 2), events[2]));
    assert(awaits(step_at(settings, events, k), events[k]));
    if k + 1 < events.len() {
        assert(awaits(step_at(settings, events, k + 1), events[k + 1]));
    }
}

/// How far a loop is in its startup.
spec fn phase(step: LoopStep) -> int {
    match step {
        LoopStep::Startup => 0,
        LoopStep::Load => 1,
        LoopStep::Restore { .. } => 2,
        LoopStep::Schedule { .. } => 3,
        _ => 4,
    }
}

/// The steps of the startup are each taken at most once: the hook first, reading
/// what is stored second, putting it in place third.
pub proof fn lemma_startup_once(settings: LoopSettings, events: Seq<LoopEvent>, n: int)
    requires
        is_run(settings, events),
        0 <= n <= events.len(),
    ensures
        step_at(settings, events, n) is Startup <==> n == 0,
        step_at(settings, events, n) is Load <==> n == 1,
        step_at(settings, events, n) is Restore ==> n == 2,
        step_at(settings, events, n) is Schedule ==> n == 2 || n == 3,
{
    lemma_phase(settings, events, n);
}

proof fn lemma_phase(settings: LoopSettings, events: Seq<LoopEvent>, n: int)
    requires
        is_run(settings, events),
        0 <= n <= events.len(),
    ensures
        n == 0 ==> step_at(settings, events, n) is Startup,
        n == 1 ==> step_at(settings, events, n) is Load,
        n == 2 ==> step_at(settings, events, n) is Restore || step_at(
            settings,
            events,
            n,
        ) is Schedule,
        n == 3 ==> 3 <= phase(step_at(settings, events, n)),
        4 <= n ==> phase(step_at(settings, events, n)) == 4,
    decreases n,
{
    if n > 0 {
        lemma_phase(settings, events, n - 1);
        assert(awaits(step_at(settings, events, n - 1), events[n - 1]));
    }
}

/// After a successful fetch the success is marked, then recorded, then followed up
/// once, and only then does the loop pause; the next fetch starts a day before the
/// end of this one.
pub proof fn lemma_success_order(settings: LoopSettings, events: Seq<LoopEvent>, i: int)
    requires
        is_run(settings, events),
        0 <= i,
        i + 5 <= events.len(),
        step_at(settings, events, i) is Fetch,
        events[i] is Fetched,
    ensures
        ({
            let from_ts = step_at(settings, events, i)->Fetch_from_ts;
            let now = events[i]->Fetched_now;
            let next = step_at(settings, events, i + 5)->Fetch_from_ts;
            &&& step_at(settings, events, i + 1) == (LoopStep::MarkSuccess { from_ts, now })
            &&& step_at(settings, events, i + 2) == (LoopStep::Record { from_ts, now })
            &&& step_at(settings, events, i + 3) == (LoopStep::FollowUp { now })
            &&& step_at(settings, events, i + 4) == (LoopStep::Pause {
                secs: settings.fetch_interval_secs,
                from_ts: next,
            })
            &&& step_at(settings, events, i + 5) == (LoopStep::Fetch { from_ts: next })
            &&& next == now - OVERLAP_SECS
        }),
{
    assert(times_fit(settings, step_at(settings, events, i), events[i]));
    assert(awaits(step_at(settings, events, i + 1), events[i + 1]));
    assert(awaits(step_at(settings, events, i + 2), events[i + 2]));
    assert(awaits(step_at(settings, events, i + 3), events[i + 3]));
    assert(awaits(step_at(settings, events, i + 4), events[i + 4]));
    assert(step_at(settings, events, i + 5) is Fetch);
}

/// After a failed fetch the failure is marked and nothing else is done before the
/// pause; the next fetch starts where this one did.
pub proof fn lemma_failure_order(settings: LoopSettings, events: Seq<LoopEvent>, i: int)
    requires
        is_run(settings, events),
        0 <= i,
        i + 3 <= events.len(),
        step_at(settings, events, i) is Fetch,
        events[i] is Failed,
    ensures
        ({
            let from_ts = step_at(settings, events, i)->Fetch_from_ts;
            let error = events[i]->Failed_error;
            &&& step_at(settings, events, i + 1) == (LoopStep::MarkFailure { from_ts, error })
            &&& step_at(settings, events, i + 2) == (LoopStep::Pause {
                secs: settings.fetch_interval_secs,
                from_ts,
            })
            &&& step_at(settings, events, i + 3) == (LoopStep::Fetch { from_ts })
        }),
{
    assert(awaits(step_at(settings, events, i + 1), events[i + 1]));
    assert(awaits(step_at(settings, events, i + 2), events[i + 2]));
    assert(step_at(settings, events, i + 3) is Fetch);
}

/// Success is marked, recorded and followed up only where a fetch succeeded: each of
/// these steps comes that many events after a fetch that did.
pub proof fn lemma_only_after_success(settings: LoopSettings, events: Seq<LoopEvent>, n: int)
    requires
        is_run(settings, events),
        0 <= n <= events.len(),
    ensures
        ({
            let step = step_at(settings, events, n);
            let ago: int = match step {
                LoopStep::MarkSuccess { .. } => 1,
                LoopStep::Record { .. } => 2,
                LoopStep::FollowUp { .. } => 3,
                _ => 0,
            };
            0 < ago ==> {
                &&& ago <= n
                &&& step_at(settings, events, n - ago) is Fetch
                &&& events[n - ago] is Fetched
            }
        }),
    decreases n,
{
    if n > 0 {
        lemma_only_after_success(settings, events, n - 1);
        assert(awaits(step_at(settings, events, n - 1), events[n - 1]));
    }
}

/// What a cycle leaves behind and the step that follows it agree: the loop goes on
/// from the start that was recorded.
pub proof fn lemma_recorded_start_used(
    settings: LoopSettings,
    from_ts: i64,
    now: i64,
    end: CycleEnd,
)
    requires
        i64::MIN <= now - OVERLAP_SECS,
        is_cycle_end(from_ts, now, true, settings.stores_start, end),
    ensures
        step_after(settings, LoopStep::FollowUp { now }, LoopEvent::Done) == (LoopStep::Pause {
            secs: settings.fetch_interval_secs,
            from_ts: end.from_ts,
        }),
{
}

/// Where the first range of a run starts, by what the run found stored and when.
pub open spec fn run_start(settings: LoopSettings, events: Seq<LoopEvent>) -> int {
    let stored = events[1]->Loaded_0;
    let last = timestamp_in(stored.last_fetched);
    first_start(
        settings.stores_start,
        timestamp_in(stored.next_start),
        last,
        events[if last is Some {
            3
        } else {
            2
        }]->Clock_now as int,
        settings.start_date_days_back as int,
    )
}

/// Whether the loop's `k`-th event is a successful fetch up to `now`.
pub open spec fn fetched_at(
    settings: LoopSettings,
    events: Seq<LoopEvent>,
    k: int,
    now: int,
) -> bool {
    &&& 0 <= k < events.len()
    &&& step_at(settings, events, k) is Fetch
    &&& events[k] is Fetched
    &&& events[k]->Fetched_now == now
}

/// Where the start that a loop is at comes from: -1 for the start of the run, else the
/// successful fetch a day before whose end it lies.
proof fn lemma_start_origin(settings: LoopSettings, events: Seq<LoopEvent>, n: int) -> (k: int)
    requires
        is_run(settings, events),
        0 <= n <= events.len(),
    ensures
        -1 <= k < n || n == 0 && k == -1,
        match step_at(settings, events, n) {
            LoopStep::Pause { secs: _, from_ts }
            | LoopStep::Fetch { from_ts }
            | LoopStep::MarkFailure { from_ts, error: _ } => if k == -1 {
                from_ts == run_start(settings, events)
            } else {
                fetched_at(settings, events, k, from_ts + OVERLAP_SECS)
            },
            LoopStep::MarkSuccess { from_ts: _, now }
            | LoopStep::Record { from_ts: _, now }
            | LoopStep::FollowUp { now } => fetched_at(settings, events, k, now as int)
                && i64::MIN <= now - OVERLAP_SECS,
            _ => k == -1,
        },
    decreases n,
{
    if n == 0 {
        -1
    } else {
        let before = step_at(settings, events, n - 1);
        let event = events[n - 1];
        assert(awaits(before, event) && times_fit(settings, before, event));
        let k = lemma_start_origin(settings, events, n - 1);
        match before {
            LoopStep::Schedule { .. } => {
                lemma_startup_found(settings, events, n - 1);
                -1
            },
            LoopStep::Fetch { .. } => if event is Fetched {
                n - 1
            } else {
                k
            },
            _ => k,
        }
    }
}

/// What the schedule is made from is what was stored.
proof fn lemma_startup_found(settings: LoopSettings, events: Seq<LoopEvent>, n: int)
    requires
        is_run(settings, events),
        0 <= n < events.len(),
        step_at(settings, events, n) is Schedule,
    ensures
        ({
            let stored = events[1]->Loaded_0;
            let last = timestamp_in(stored.last_fetched);
            &&& step_at(settings, events, n) == (LoopStep::Schedule {
                last_fetched: last,
                next_start: timestamp_in(stored.next_start),
            })
            &&& n == (if last is Some {
                3int
            } else {
                2int
            })
        }),
{
    lemma_startup_once(settings, events, n);
    reveal_with_fuel(step_at, 4);
    assert(awaits(step_at(settings, events, 0), events[0]));
    assert(awaits(step_at(settings, events, 1), events[1]));
    if n == 3 {
        assert(awaits(step_at(settings, events, 2), events[2]));
    }
}

/// No moment after the start of a run is left out: whatever fetches failed, a moment
/// before the end of a fetch that succeeded lies in the range of some fetch that
/// succeeded.
pub proof fn lemma_no_gaps(
    settings: LoopSettings,
    events: Seq<LoopEvent>,
    i: int,
    t: int,
) -> (k: int)
    requires
        is_run(settings, events),
        0 <= i < events.len(),
        step_at(settings, events, i) is Fetch,
        events[i] is Fetched,
        run_start(settings, events) <= t < events[i]->Fetched_now,
    ensures
        0 <= k <= i,
        step_at(settings, events, k) is Fetch,
        events[k] is Fetched,
        step_at(settings, events, k)->Fetch_from_ts <= t < events[k]->Fetched_now,
    decreases i,
{
    if step_at(settings, events, i)->Fetch_from_ts <= t {
        i
    } else {
        let j = lemma_start_origin(settings, events, i);
        lemma_no_gaps(settings, events, j, t)
    }
}

/// Where the first range of a run starts: at the start that was stored, for a provider
/// that stores one; else a day before the last successful fetch; and where neither is
/// known, the given number of days before now.
pub proof fn lemma_first_start(next_start: i64, last_fetched: i64, now: int, days_back: int)
    ensures
        first_start(true, Some(next_start), Some(last_fetched), now, days_back) == next_start,
        first_start(true, Some(next_start), None, now, days_back) == next_start,
        first_start(true, None, Some(last_fetched), now, days_back) == now - days_back * 86_400,
        first_start(true, None, None, now, days_back) == now - days_back * 86_400,
        first_start(false, Some(next_start), Some(last_fetched), now, days_back) == last_fetched
            - 86_400,
        first_start(false, None, Some(last_fetched), now, days_back) == last_fetched - 86_400,
        first_start(false, Some(next_start), None, now, days_back) == now - days_back * 86_400,
        first_start(false, None, None, now, days_back) == now - days_back * 86_400,
{
}

/// A success moves the start to a day before the end of what was fetched and is recorded;
/// a failure leaves the start and records nothing.
pub proof fn lemma_cycle_outcome(
    from_ts: i64,
    now: i64,
    stores_start: bool,
    success: CycleEnd,
    failure: CycleEnd,
)
    requires
        is_cycle_end(from_ts, now, true, stores_start, success),
        is_cycle_end(from_ts, now, false, stores_start, failure),
    ensures
        success.from_ts == now - 86_400,
        success.last_fetched is Some && success.last_fetched->0@ == decimal(now as int),
        success.next_start is Some <==> stores_start,
        stores_start ==> success.next_start->0@ == decimal(now - 86_400),
        failure.from_ts == from_ts,
        failure.last_fetched is None && failure.next_start is None,
{
}

/// The wait before the first fetch never exceeds the interval, is the whole interval
/// where the last fetch lies in the future, and is none where there was no fetch.
pub proof fn lemma_wait_bounds(last_fetched: i64, now: int, interval: int)
    requires
        0 <= interval,
    ensures
        wait_before_first(None, now, interval) == 0,
        0 <= wait_before_first(Some(last_fetched), now, interval) <= interval,
        now <= last_fetched ==> wait_before_first(Some(last_fetched), now, interval) == interval,
        last_fetched + interval <= now ==> wait_before_first(Some(last_fetched), now, interval)
            == 0,
        last_fetched <= now < last_fetched + interval ==> wait_before_first(
            Some(last_fetched),
            now,
            interval,
        ) == last_fetched + interval - now,
{
}

} // verus!
