use xuts_file_backup::db::migrations::pending_migrations;
use xuts_file_backup::error::{not_found, AppError};
use xuts_file_backup::scheduler::{sleep_delay_ms, validate_cron};
use xuts_file_backup::task_manager::{
    check_task_updated, filter_rules_or_default, get_task, list_tasks, needs_background, task_from_row, TaskRow,
};
use xuts_file_backup::tray::{tray_click_action, tray_menu_action, TrayAction};
use xuts_file_backup::watcher::{
    debounce_step, is_change, plan_background, FsEventKind, BackgroundPlan, DebounceState, WatchAction, WatchEvent, DEBOUNCE_MS,
};

fn row(id: i64, created_at: &str, enabled: i64) -> TaskRow {
    TaskRow {
        id,
        name: format!("task {}", id),
        source_path: "C:/a".to_string(),
        target_path: "D:/b".to_string(),
        trigger_type: "manual".to_string(),
        cron_expr: None,
        filter_rules: "{}".to_string(),
        enabled,
        created_at: created_at.to_string(),
    }
}

#[test]
fn tasks_newest_first() {
    let rows = vec![
        row(1, "2026-01-01T00:00:00+00:00", 1),
        row(2, "2026-03-01T00:00:00+00:00", 0),
        row(3, "2026-02-01T00:00:00+00:00", 7),
        row(4, "2026-03-01T00:00:00+00:00", 1),
    ];
    let tasks = list_tasks(rows);
    let ids: Vec<i64> = tasks.iter().map(|t| t.id).collect();
    assert_eq!(ids, vec![2, 4, 3, 1]);
    assert!(!tasks[0].enabled);
    assert!(tasks[2].enabled);
}

#[test]
fn task_lookup() {
    let t = get_task(3, Some(row(3, "x", 1))).unwrap();
    assert_eq!(t, task_from_row(&row(3, "x", 1)));
    assert!(t.enabled);
    assert_eq!(get_task(9, None), Err(AppError::Other("Task 9 not found".to_string())));
}

#[test]
fn not_found_messages() {
    assert_eq!(not_found("Task", 0), AppError::Other("Task 0 not found".to_string()));
    assert_eq!(
        not_found("Task", i64::MIN),
        AppError::Other("Task -9223372036854775808 not found".to_string())
    );
    assert_eq!(check_task_updated(5, 0), Err(AppError::Other("Task 5 not found".to_string())));
    assert_eq!(check_task_updated(5, 2), Ok(()));
}

#[test]
fn task_defaults_and_background() {
    assert_eq!(filter_rules_or_default(None), "{}");
    assert_eq!(filter_rules_or_default(Some("{\"exclude_globs\":[]}".to_string())), "{\"exclude_globs\":[]}");
    assert!(!needs_background("manual", true));
    assert!(needs_background("realtime", true));
    assert!(needs_background("schedule", true));
    assert!(!needs_background("realtime", false));
}

#[test]
fn background_plans() {
    assert_eq!(plan_background("realtime", None), Ok(BackgroundPlan::Watch));
    assert_eq!(
        plan_background("schedule", Some("0 30 2 * * *".to_string())),
        Ok(BackgroundPlan::Schedule { cron_expr: "0 30 2 * * *".to_string() })
    );
    assert_eq!(
        plan_background("schedule", None),
        Err(AppError::Other("Missing cron_expr for scheduled task".to_string()))
    );
    assert_eq!(plan_background("manual", Some("x".to_string())), Ok(BackgroundPlan::Nothing));
}

#[test]
fn debounce_burst_syncs_once() {
    let (s, a) = debounce_step(DebounceState::Idle, WatchEvent::Changed { now_ms: 1000 });
    assert_eq!(s, DebounceState::Draining { deadline_ms: 1000 + DEBOUNCE_MS });
    assert_eq!(a, WatchAction::AwaitMore { remaining_ms: 500 });
    let (s, a) = debounce_step(s, WatchEvent::Changed { now_ms: 1200 });
    assert_eq!(s, DebounceState::Draining { deadline_ms: 1500 });
    assert_eq!(a, WatchAction::AwaitMore { remaining_ms: 300 });
    let (s, a) = debounce_step(s, WatchEvent::TimedOut { now_ms: 1500 });
    assert_eq!((s, a), (DebounceState::Idle, WatchAction::RunSync));
}

#[test]
fn debounce_change_after_deadline_syncs() {
    let s = DebounceState::Draining { deadline_ms: 1500 };
    assert_eq!(debounce_step(s, WatchEvent::Changed { now_ms: 1500 }), (DebounceState::Idle, WatchAction::RunSync));
    assert_eq!(debounce_step(s, WatchEvent::Closed), (DebounceState::Idle, WatchAction::Stop));
    assert_eq!(debounce_step(DebounceState::Idle, WatchEvent::Closed), (DebounceState::Idle, WatchAction::Stop));
    assert_eq!(debounce_step(DebounceState::Idle, WatchEvent::TimedOut { now_ms: 9 }), (DebounceState::Idle, WatchAction::AwaitChange));
}

#[test]
fn early_timeout_waits_for_the_rest_of_the_window() {
    let s = DebounceState::Draining { deadline_ms: 1500 };
    assert_eq!(debounce_step(s, WatchEvent::TimedOut { now_ms: 1499 }), (s, WatchAction::AwaitMore { remaining_ms: 1 }));
    assert_eq!(debounce_step(s, WatchEvent::TimedOut { now_ms: 1600 }), (DebounceState::Idle, WatchAction::RunSync));
}

#[test]
fn cron_expressions() {
    assert_eq!(validate_cron("0 30 2 * * *"), Ok(()));
    match validate_cron("not a cron") {
        Err(AppError::Other(m)) => assert!(m.starts_with("invalid cron 'not a cron': ")),
        other => panic!("unexpected {:?}", other),
    }
}

#[test]
fn schedule_delays() {
    assert_eq!(sleep_delay_ms(5_000, 2_000), 3_000);
    assert_eq!(sleep_delay_ms(2_000, 2_000), 0);
    assert_eq!(sleep_delay_ms(1_000, 2_000), 60_000);
    assert_eq!(sleep_delay_ms(i64::MAX, i64::MIN), u64::MAX);
}

#[test]
fn migrations_still_needed() {
    assert_eq!(pending_migrations(0), vec![1, 2, 3, 4]);
    assert_eq!(pending_migrations(2), vec![3, 4]);
    assert_eq!(pending_migrations(4), Vec::<u32>::new());
    assert_eq!(pending_migrations(-5), vec![1, 2, 3, 4]);
}

#[test]
fn tray_menu() {
    assert_eq!(tray_menu_action("show"), TrayAction::ShowWindow);
    assert_eq!(tray_menu_action("quit"), TrayAction::Quit);
    assert_eq!(tray_menu_action("other"), TrayAction::Ignore);
}

#[test]
fn migrated_database_has_nothing_pending() {
    for v in [-1i64, 0, 1, 2, 3] {
        let steps = pending_migrations(v);
        assert_eq!(*steps.last().unwrap(), 4);
        assert!(pending_migrations(*steps.last().unwrap() as i64).is_empty());
    }
    assert!(pending_migrations(4).is_empty());
    assert!(pending_migrations(9).is_empty());
}

#[test]
fn every_change_is_followed_by_a_sync() {
    let events = [
        WatchEvent::Changed { now_ms: 10 },
        WatchEvent::TimedOut { now_ms: 510 },
        WatchEvent::Changed { now_ms: 2000 },
        WatchEvent::Changed { now_ms: 2100 },
        WatchEvent::Changed { now_ms: 2600 },
        WatchEvent::Changed { now_ms: 3000 },
    ];
    let mut s = DebounceState::Idle;
    let mut actions = Vec::new();
    for e in events {
        let (next, a) = debounce_step(s, e);
        s = next;
        actions.push(a);
    }
    assert_eq!(actions[1], WatchAction::RunSync);
    assert_eq!(actions[4], WatchAction::RunSync);
    assert_eq!(s, DebounceState::Draining { deadline_ms: 3000 + DEBOUNCE_MS });
    assert_eq!(debounce_step(s, WatchEvent::TimedOut { now_ms: 3000 + DEBOUNCE_MS }).1, WatchAction::RunSync);
    assert_eq!(debounce_step(s, WatchEvent::Closed), (DebounceState::Idle, WatchAction::Stop));
}

#[test]
fn only_creations_changes_and_removals_count() {
    assert!(is_change(FsEventKind::Create));
    assert!(is_change(FsEventKind::Modify));
    assert!(is_change(FsEventKind::Remove));
    assert!(!is_change(FsEventKind::Access));
    assert!(!is_change(FsEventKind::Any));
    assert!(!is_change(FsEventKind::Other));
}

#[test]
fn left_click_restores_the_window() {
    assert_eq!(tray_click_action(true, true), TrayAction::ShowWindow);
    assert_eq!(tray_click_action(true, false), TrayAction::Ignore);
    assert_eq!(tray_click_action(false, true), TrayAction::Ignore);
}
