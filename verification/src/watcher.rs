//! Background services of a task: which one a task gets, and the debounce that
//! turns a burst of file-system events into one sync.

use vstd::prelude::*;

use crate::error::AppError;
use crate::text::str_eq;

verus! {

/// The background service a task gets.
#[derive(Clone, Debug, PartialEq, Eq)]
pub enum BackgroundPlan {
    /// Watch the source tree and sync on changes.
    Watch,
    /// Sync on the cron schedule.
    Schedule { cron_expr: String },
    /// Nothing runs in the background (manual tasks).
    Nothing,
}

/// Chooses the service by trigger type: `realtime` watches, `schedule` runs on the
/// task's cron expression (an error when it has none), anything else runs nothing.
pub fn plan_background(trigger_type: &str, cron_expr: Option<String>) -> (r: Result<BackgroundPlan, AppError>)
    ensures
        trigger_type@ == "realtime"@ ==> r == Ok::<BackgroundPlan, AppError>(BackgroundPlan::Watch),
        trigger_type@ != "realtime"@ && trigger_type@ == "schedule"@ ==> match cron_expr {
            Some(e) => r == Ok::<BackgroundPlan, AppError>(BackgroundPlan::Schedule { cron_expr: e }),
            None => r matches Err(AppError::Other(m)) && m@ == "Missing cron_expr for scheduled task"@,
        },
        trigger_type@ != "realtime"@ && trigger_type@ != "schedule"@ ==> r == Ok::<BackgroundPlan, AppError>(BackgroundPlan::Nothing),
{
    if str_eq(trigger_type, "realtime") {
        Ok(BackgroundPlan::Watch)
    } else if str_eq(trigger_type, "schedule") {
        match cron_expr {
            Some(e) => Ok(BackgroundPlan::Schedule { cron_expr: e }),
            None => Err(AppError::Other(String::from_str("Missing cron_expr for scheduled task"))),
        }
    } else {
        Ok(BackgroundPlan::Nothing)
    }
}

/// The kind of a file-system event, as the watcher reports it.
#[derive(Clone, Copy, Debug, PartialEq, Eq)]
pub enum FsEventKind {
    /// An event of unknown kind.
    Any,
    /// A file was read, opened or closed.
    Access,
    /// A file or directory was created.
    Create,
    /// A file's content, name or metadata changed.
    Modify,
    /// A file or directory was removed.
    Remove,
    /// Anything else, such as events about the watch itself.
    Other,
}

/// Creations, modifications and removals are changes that call for a sync; other
/// events are ignored.
pub fn is_change(kind: FsEventKind) -> (b: bool)
    ensures
        b == (kind is Create || kind is Modify || kind is Remove),
{
    match kind {
        FsEventKind::Create | FsEventKind::Modify | FsEventKind::Remove => true,
        _ => false,
    }
}

/// How long events are gathered after the first change before syncing.
pub const DEBOUNCE_MS: u64 = 500;

/// Where the watcher stands.
#[derive(Clone, Copy, Debug, PartialEq, Eq)]
pub enum DebounceState {
    /// Waiting for a first change.
    Idle,
    /// A change came; further ones are absorbed until the deadline.
    Draining { deadline_ms: u64 },
}

/// What the watcher learns.
#[derive(Clone, Copy, Debug, PartialEq, Eq)]
pub enum WatchEvent {
    /// A file was created, modified or removed; `now_ms` is the current time.
    Changed { now_ms: u64 },
    /// The wait for more changes ran out; `now_ms` is the current time.
    TimedOut { now_ms: u64 },
    /// The event channel closed: the watcher was stopped.
    Closed,
}

/// What the watcher does next.
#[derive(Clone, Copy, Debug, PartialEq, Eq)]
pub enum WatchAction {
    /// Wait for a change.
    AwaitChange,
    /// Wait for a further change, at most this long.
    AwaitMore { remaining_ms: u64 },
    /// Sync the task, then wait for a change.
    RunSync,
    /// Stop watching.
    Stop,
}

/// The step the watcher takes on an event: a first change opens a window of
/// `DEBOUNCE_MS`; changes inside the window are absorbed; once the deadline is
/// reached (by a change or by the wait running out) the task is synced once, and
/// a wait that runs out early waits for the rest of the window; a closed channel
/// stops the watcher.
pub open spec fn debounce(state: DebounceState, event: WatchEvent) -> (DebounceState, WatchAction) {
    match event {
        WatchEvent::Closed => (DebounceState::Idle, WatchAction::Stop),
        WatchEvent::TimedOut { now_ms } => match state {
            DebounceState::Idle => (DebounceState::Idle, WatchAction::AwaitChange),
            DebounceState::Draining { deadline_ms } => window_step(state, deadline_ms, now_ms),
        },
        WatchEvent::Changed { now_ms } => match state {
            DebounceState::Idle => (
                DebounceState::Draining { deadline_ms: (now_ms + DEBOUNCE_MS) as u64 },
                WatchAction::AwaitMore { remaining_ms: DEBOUNCE_MS },
            ),
            DebounceState::Draining { deadline_ms } => window_step(state, deadline_ms, now_ms),
        },
    }
}

/// Inside an open window: before the deadline wait for the rest of it, at or
/// after the deadline sync.
pub open spec fn window_step(state: DebounceState, deadline_ms: u64, now_ms: u64) -> (DebounceState, WatchAction) {
    if now_ms < deadline_ms {
        (state, WatchAction::AwaitMore { remaining_ms: (deadline_ms - now_ms) as u64 })
    } else {
        (DebounceState::Idle, WatchAction::RunSync)
    }
}

/// The time an event carries; none for a closed channel.
pub open spec fn event_time(event: WatchEvent) -> Option<u64> {
    match event {
        WatchEvent::Changed { now_ms } => Some(now_ms),
        WatchEvent::TimedOut { now_ms } => Some(now_ms),
        WatchEvent::Closed => None,
    }
}

/// The deadline of a window opened now fits the clock.
pub open spec fn can_step(state: DebounceState, event: WatchEvent) -> bool {
    state is Idle ==> (event matches WatchEvent::Changed { now_ms } ==> now_ms + DEBOUNCE_MS <= u64::MAX)
}

/// One step of the watcher.
pub fn debounce_step(state: DebounceState, event: WatchEvent) -> (r: (DebounceState, WatchAction))
    requires
        can_step(state, event),
    ensures
        r == debounce(state, event),
{
    match event {
        WatchEvent::Closed => (DebounceState::Idle, WatchAction::Stop),
        WatchEvent::TimedOut { now_ms } => match state {
            DebounceState::Idle => (DebounceState::Idle, WatchAction::AwaitChange),
            DebounceState::Draining { deadline_ms } => if now_ms < deadline_ms {
                (state, WatchAction::AwaitMore { remaining_ms: deadline_ms - now_ms })
            } else {
                (DebounceState::Idle, WatchAction::RunSync)
            },
        },
        WatchEvent::Changed { now_ms } => match state {
            DebounceState::Idle => (
                DebounceState::Draining { deadline_ms: now_ms + DEBOUNCE_MS },
                WatchAction::AwaitMore { remaining_ms: DEBOUNCE_MS },
            ),
            DebounceState::Draining { deadline_ms } => if now_ms < deadline_ms {
                (state, WatchAction::AwaitMore { remaining_ms: deadline_ms - now_ms })
            } else {
                (DebounceState::Idle, WatchAction::RunSync)
            },
        },
    }
}

/// The states and actions of the watcher over a run of events.
pub open spec fn debounce_run(state: DebounceState, events: Seq<WatchEvent>) -> (DebounceState, Seq<WatchAction>)
    decreases events.len(),
{
    if events.len() == 0 {
        (state, Seq::empty())
    } else {
        let (s1, acts) = debounce_run(state, events.drop_last());
        let (s2, a) = debounce(s1, events.last());
        (s2, acts.push(a))
    }
}

/// A run yields one action per event.
proof fn lemma_run_len(state: DebounceState, events: Seq<WatchEvent>)
    ensures
        debounce_run(state, events).1.len() == events.len(),
        forall|j: int| 0 <= j < events.len() - 1 ==> #[trigger] debounce_run(state, events).1[j]
            == debounce_run(state, events.drop_last()).1[j],
    decreases events.len(),
{
    if events.len() > 0 {
        lemma_run_len(state, events.drop_last());
    }
}

/// Every change is followed by a sync: in a run of events in which the watcher
/// is not stopped, a change is synced by its own step or a later one, or the
/// watcher is left waiting in an open window, which a wait that runs out at its
/// deadline closes with a sync.
pub proof fn law_change_followed_by_sync(state: DebounceState, events: Seq<WatchEvent>, i: int)
    requires
        0 <= i < events.len(),
        events[i] is Changed,
        forall|j: int| 0 <= j < events.len() ==> !(#[trigger] events[j] is Closed),
    ensures
        ({
            let (s, acts) = debounce_run(state, events);
            ||| exists|j: int| i <= j < acts.len() && #[trigger] acts[j] == WatchAction::RunSync
            ||| (s matches DebounceState::Draining { deadline_ms }
                && debounce(s, WatchEvent::TimedOut { now_ms: deadline_ms }).1 == WatchAction::RunSync)
        }),
    decreases events.len(),
{
    let last = events.len() - 1;
    let prev = events.drop_last();
    lemma_run_len(state, events);
    lemma_run_len(state, prev);
    let (s1, acts1) = debounce_run(state, prev);
    let (s, acts) = debounce_run(state, events);
    let (s2, a) = debounce(s1, events.last());
    assert(acts == acts1.push(a));
    assert(acts[last] == a);
    assert(!(events[last] is Closed));
    if i < last {
        assert forall|j: int| 0 <= j < prev.len() implies !(#[trigger] prev[j] is Closed) by {
            assert(prev[j] == events[j]);
        }
        assert(prev[i] == events[i]);
        law_change_followed_by_sync(state, prev, i);
        if exists|j: int| i <= j < acts1.len() && #[trigger] acts1[j] == WatchAction::RunSync {
            let j = choose|j: int| i <= j < acts1.len() && #[trigger] acts1[j] == WatchAction::RunSync;
            assert(acts[j] == acts1[j]);
        } else {
            assert(s1 is Draining);
            if a == WatchAction::RunSync {
                assert(acts[last] == WatchAction::RunSync);
            }
        }
    } else {
        if a == WatchAction::RunSync {
            assert(acts[last] == WatchAction::RunSync);
        }
    }
}

/// No sync comes before the window has passed: the first change opens a window of
/// `DEBOUNCE_MS`, and a step inside an open window (a further change or a wait
/// running out) syncs only at or after its deadline; a waiting watcher never syncs.
pub proof fn law_sync_waits_for_window(state: DebounceState, event: WatchEvent)
    requires
        can_step(state, event),
    ensures
        state is Idle ==> (event matches WatchEvent::Changed { now_ms } ==> debounce(state, event) == (
            DebounceState::Draining { deadline_ms: (now_ms + DEBOUNCE_MS) as u64 },
            WatchAction::AwaitMore { remaining_ms: DEBOUNCE_MS },
        )),
        debounce(state, event).1 == WatchAction::RunSync ==> (state matches DebounceState::Draining { deadline_ms }
            && event_time(event) matches Some(t) && t >= deadline_ms),
{
}

/// Over a whole run from a waiting watcher, every sync comes at least
/// `DEBOUNCE_MS` after an earlier change: the one that opened its window.
pub proof fn law_sync_after_window_in_run(events: Seq<WatchEvent>, j: int)
    requires
        0 <= j < events.len(),
        forall|i: int| 0 <= i < events.len() ==> can_step(#[trigger] debounce_run(DebounceState::Idle, events.take(i)).0, events[i]),
        debounce_run(DebounceState::Idle, events).1[j] == WatchAction::RunSync,
    ensures
        exists|i: int| 0 <= i < j && (#[trigger] events[i] matches WatchEvent::Changed { now_ms }
            && event_time(events[j]) matches Some(t) && t >= now_ms + DEBOUNCE_MS),
{
    assert forall|i: int| 0 <= i < events.take(j).len() implies can_step(
        #[trigger] debounce_run(DebounceState::Idle, events.take(j).take(i)).0,
        events.take(j)[i],
    ) by {
        assert(events.take(j).take(i) =~= events.take(i));
        assert(events.take(j)[i] == events[i]);
    }
    lemma_window_opened(events.take(j), j);
    lemma_run_len(DebounceState::Idle, events.take(j + 1));
    assert(events.take(j + 1).drop_last() =~= events.take(j));
    assert(events.take(j + 1).last() == events[j]);
    lemma_run_prefix(events, j + 1);
    assert(debounce_run(DebounceState::Idle, events.take(j + 1)).1[j] == WatchAction::RunSync);
    assert(can_step(debounce_run(DebounceState::Idle, events.take(j)).0, events[j]));
    let s = debounce_run(DebounceState::Idle, events.take(j)).0;
    let i = choose|i: int| 0 <= i < j && (#[trigger] events.take(j)[i] matches WatchEvent::Changed { now_ms }
        && s == DebounceState::Draining { deadline_ms: (now_ms + DEBOUNCE_MS) as u64 }
        && now_ms + DEBOUNCE_MS <= u64::MAX);
    assert(events.take(j)[i] == events[i]);
}

/// The actions of a run over a prefix of the events are the first actions of the
/// whole run.
proof fn lemma_run_prefix(events: Seq<WatchEvent>, n: int)
    requires
        0 <= n <= events.len(),
    ensures
        forall|j: int| 0 <= j < n ==> #[trigger] debounce_run(DebounceState::Idle, events.take(n)).1[j]
            == debounce_run(DebounceState::Idle, events).1[j],
    decreases events.len() - n,
{
    if n < events.len() {
        lemma_run_prefix(events, n + 1);
        let t = events.take(n + 1);
        lemma_run_len(DebounceState::Idle, t);
        assert(t.drop_last() =~= events.take(n));
        assert forall|j: int| 0 <= j < n implies #[trigger] debounce_run(DebounceState::Idle, events.take(n)).1[j]
            == debounce_run(DebounceState::Idle, events).1[j] by {
            assert(debounce_run(DebounceState::Idle, t).1[j] == debounce_run(DebounceState::Idle, t.drop_last()).1[j]);
            assert(debounce_run(DebounceState::Idle, t).1[j] == debounce_run(DebounceState::Idle, events).1[j]);
        }
    } else {
        assert(events.take(n) =~= events);
    }
}

/// In a run from a waiting watcher, an open window was opened by an earlier change
/// and ends `DEBOUNCE_MS` after it.
proof fn lemma_window_opened(events: Seq<WatchEvent>, n: int)
    requires
        n == events.len(),
        forall|i: int| 0 <= i < events.len() ==> can_step(#[trigger] debounce_run(DebounceState::Idle, events.take(i)).0, events[i]),
    ensures
        debounce_run(DebounceState::Idle, events).0 is Draining ==> exists|i: int| 0 <= i < n
            && (#[trigger] events[i] matches WatchEvent::Changed { now_ms }
            && debounce_run(DebounceState::Idle, events).0 == DebounceState::Draining { deadline_ms: (now_ms + DEBOUNCE_MS) as u64 }
            && now_ms + DEBOUNCE_MS <= u64::MAX),
    decreases n,
{
    if n > 0 {
        let prev = events.drop_last();
        assert forall|i: int| 0 <= i < prev.len() implies can_step(#[trigger] debounce_run(DebounceState::Idle, prev.take(i)).0, prev[i]) by {
            assert(prev.take(i) =~= events.take(i));
            assert(prev[i] == events[i]);
        }
        lemma_window_opened(prev, n - 1);
        let s1 = debounce_run(DebounceState::Idle, prev).0;
        assert(events.take(n - 1) =~= prev);
        assert(can_step(s1, events[n - 1]));
        let s = debounce_run(DebounceState::Idle, events).0;
        if s is Draining {
            if s1 is Idle {
                assert(events[n - 1] is Changed);
            } else {
                let i = choose|i: int| 0 <= i < n - 1 && (#[trigger] prev[i] matches WatchEvent::Changed { now_ms }
                    && s1 == DebounceState::Draining { deadline_ms: (now_ms + DEBOUNCE_MS) as u64 }
                    && now_ms + DEBOUNCE_MS <= u64::MAX);
                assert(prev[i] == events[i]);
                assert(s == s1);
            }
        }
    }
}

/// Law: a burst of changes that all fall inside the window opened by the first
/// of them, followed by the wait running out, syncs exactly once, at the end; the
/// window is not extended by the later changes.
pub proof fn law_burst_syncs_once(t0: u64, later: Seq<u64>, t_end: u64)
    requires
        t0 + DEBOUNCE_MS <= u64::MAX,
        t_end >= t0 + DEBOUNCE_MS,
        forall|i: int| 0 <= i < later.len() ==> t0 <= #[trigger] later[i] < t0 + DEBOUNCE_MS,
    ensures
        ({
            let events = seq![WatchEvent::Changed { now_ms: t0 }]
                + later.map_values(|t: u64| WatchEvent::Changed { now_ms: t })
                + seq![WatchEvent::TimedOut { now_ms: t_end }];
            let (s, acts) = debounce_run(DebounceState::Idle, events);
            &&& s == DebounceState::Idle
            &&& acts.last() == WatchAction::RunSync
            &&& forall|i: int| 0 <= i < acts.len() - 1 ==> #[trigger] acts[i] != WatchAction::RunSync
        }),
{
    let d = DebounceState::Draining { deadline_ms: (t0 + DEBOUNCE_MS) as u64 };
    let first = seq![WatchEvent::Changed { now_ms: t0 }];
    lemma_burst(t0, later, later.len() as int);
    let events = first + later.map_values(|t: u64| WatchEvent::Changed { now_ms: t }) + seq![WatchEvent::TimedOut { now_ms: t_end }];
    let prev = first + later.take(later.len() as int).map_values(|t: u64| WatchEvent::Changed { now_ms: t });
    assert(later.take(later.len() as int) =~= later);
    assert(events.drop_last() =~= prev);
    let (s1, acts1) = debounce_run(DebounceState::Idle, prev);
    let (s, acts) = debounce_run(DebounceState::Idle, events);
    assert(events.last() == WatchEvent::TimedOut { now_ms: t_end });
    assert(acts == acts1.push(WatchAction::RunSync));
    assert forall|i: int| 0 <= i < acts.len() - 1 implies #[trigger] acts[i] != WatchAction::RunSync by {
        assert(acts[i] == acts1[i]);
    }
}

proof fn lemma_burst(t0: u64, later: Seq<u64>, n: int)
    requires
        t0 + DEBOUNCE_MS <= u64::MAX,
        0 <= n <= later.len(),
        forall|i: int| 0 <= i < later.len() ==> t0 <= #[trigger] later[i] < t0 + DEBOUNCE_MS,
    ensures
        ({
            let events = seq![WatchEvent::Changed { now_ms: t0 }]
                + later.take(n).map_values(|t: u64| WatchEvent::Changed { now_ms: t });
            let (s, acts) = debounce_run(DebounceState::Idle, events);
            &&& s == DebounceState::Draining { deadline_ms: (t0 + DEBOUNCE_MS) as u64 }
            &&& acts.len() == n + 1
            &&& forall|i: int| 0 <= i < acts.len() ==> #[trigger] acts[i] != WatchAction::RunSync
        }),
    decreases n,
{
    let first = seq![WatchEvent::Changed { now_ms: t0 }];
    let events = first + later.take(n).map_values(|t: u64| WatchEvent::Changed { now_ms: t });
    let d = DebounceState::Draining { deadline_ms: (t0 + DEBOUNCE_MS) as u64 };
    if n == 0 {
        assert(events =~= first);
        assert(first.drop_last() =~= Seq::<WatchEvent>::empty());
        let (s, acts) = debounce_run(DebounceState::Idle, events);
        assert(debounce_run(DebounceState::Idle, Seq::<WatchEvent>::empty()) == (DebounceState::Idle, Seq::<WatchAction>::empty()));
        assert(debounce(DebounceState::Idle, first.last()) == (d, WatchAction::AwaitMore { remaining_ms: DEBOUNCE_MS }));
        assert(acts =~= seq![WatchAction::AwaitMore { remaining_ms: DEBOUNCE_MS }]);
    } else {
        lemma_burst(t0, later, n - 1);
        let prev = first + later.take(n - 1).map_values(|t: u64| WatchEvent::Changed { now_ms: t });
        assert(events.drop_last() =~= prev);
        assert(events.last() == WatchEvent::Changed { now_ms: later[n - 1] });
        let (s1, acts1) = debounce_run(DebounceState::Idle, prev);
        let tn = later[n - 1];
        assert(tn < t0 + DEBOUNCE_MS);
        let (s2, a) = debounce(s1, events.last());
        assert(s2 == d);
        assert(a == WatchAction::AwaitMore { remaining_ms: (t0 + DEBOUNCE_MS - tn) as u64 });
        let (s, acts) = debounce_run(DebounceState::Idle, events);
        assert(acts == acts1.push(a));
        assert forall|i: int| 0 <= i < acts.len() implies #[trigger] acts[i] != WatchAction::RunSync by {
            if i < acts1.len() {
                assert(acts[i] == acts1[i]);
            }
        }
    }
}

} // verus!
