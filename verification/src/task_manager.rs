//! Backup tasks: listing them, and when a task runs in the background.

use vstd::prelude::*;

use crate::error::{not_found, not_found_text, AppError};
use crate::order::{is_index_permutation, permuted, sorted_order, sorted_stably};
use crate::text::{chars_of, str_eq};

verus! {

/// A backup task: what to mirror where, and what triggers it.
#[derive(Clone, Debug, PartialEq, Eq)]
pub struct Task {
    pub id: i64,
    pub name: String,
    pub source_path: String,
    pub target_path: String,
    pub trigger_type: String,
    pub cron_expr: Option<String>,
    pub filter_rules: String,
    pub enabled: bool,
    pub created_at: String,
}

/// A task as its database row holds it (`enabled` stored as an integer).
#[derive(Clone, Debug, PartialEq, Eq)]
pub struct TaskRow {
    pub id: i64,
    pub name: String,
    pub source_path: String,
    pub target_path: String,
    pub trigger_type: String,
    pub cron_expr: Option<String>,
    pub filter_rules: String,
    pub enabled: i64,
    pub created_at: String,
}

/// What creating a task asks for; `filter_rules` defaults to `{}`.
#[derive(Clone, Debug, PartialEq, Eq)]
pub struct CreateTaskPayload {
    pub name: String,
    pub source_path: String,
    pub target_path: String,
    pub trigger_type: String,
    pub cron_expr: Option<String>,
    pub filter_rules: Option<String>,
}

/// What updating a task sets.
#[derive(Clone, Debug, PartialEq, Eq)]
pub struct UpdateTaskPayload {
    pub name: String,
    pub source_path: String,
    pub target_path: String,
    pub trigger_type: String,
    pub cron_expr: Option<String>,
    pub filter_rules: String,
    pub enabled: bool,
}

/// The task a row stands for: enabled when the stored flag is not zero.
pub open spec fn row_task(r: TaskRow) -> Task {
    Task {
        id: r.id,
        name: r.name,
        source_path: r.source_path,
        target_path: r.target_path,
        trigger_type: r.trigger_type,
        cron_expr: r.cron_expr,
        filter_rules: r.filter_rules,
        enabled: r.enabled != 0,
        created_at: r.created_at,
    }
}

fn clone_opt(s: &Option<String>) -> (r: Option<String>)
    ensures
        r == *s,
{
    match s {
        Some(x) => Some(x.clone()),
        None => None,
    }
}

/// The task a row stands for.
pub fn task_from_row(r: &TaskRow) -> (t: Task)
    ensures
        t == row_task(*r),
{
    Task {
        id: r.id,
        name: r.name.clone(),
        source_path: r.source_path.clone(),
        target_path: r.target_path.clone(),
        trigger_type: r.trigger_type.clone(),
        cron_expr: clone_opt(&r.cron_expr),
        filter_rules: r.filter_rules.clone(),
        enabled: r.enabled != 0,
        created_at: r.created_at.clone(),
    }
}

pub open spec fn created_keys(rows: Seq<TaskRow>) -> Seq<Seq<char>> {
    rows.map_values(|r: TaskRow| r.created_at@)
}

pub open spec fn row_tasks(rows: Seq<TaskRow>) -> Seq<Task> {
    rows.map_values(|r: TaskRow| row_task(r))
}

/// `out` holds the tasks of `rows`, newest creation time first (the timestamps
/// compared as text), tasks created at the same time in their input order.
pub open spec fn newest_first(out: Seq<Task>, rows: Seq<TaskRow>) -> bool {
    exists|p: Seq<usize>|
        #![trigger permuted(out, row_tasks(rows), p)]
        is_index_permutation(p, rows.len()) && sorted_stably(created_keys(rows), p, true)
            && permuted(out, row_tasks(rows), p)
}

/// Lists the tasks, newest first.
pub fn list_tasks(rows: Vec<TaskRow>) -> (tasks: Vec<Task>)
    ensures
        newest_first(tasks@, rows@),
{
    let mut keys: Vec<Vec<char>> = Vec::new();
    for i in 0..rows.len()
        invariant
            keys@.len() == i,
            forall|k: int| 0 <= k < i ==> #[trigger] keys@[k]@ == rows@[k].created_at@,
    {
        keys.push(chars_of(rows[i].created_at.as_str()));
    }
    assert(keys@.map_values(|k: Vec<char>| k@) =~= created_keys(rows@));
    let order = sorted_order(&keys, true);
    let mut tasks: Vec<Task> = Vec::new();
    for j in 0..order.len()
        invariant
            is_index_permutation(order@, rows@.len()),
            tasks@.len() == j,
            forall|k: int| 0 <= k < j ==> #[trigger] tasks@[k] == row_tasks(rows@)[order@[k] as int],
    {
        tasks.push(task_from_row(&rows[order[j]]));
    }
    assert(permuted(tasks@, row_tasks(rows@), order@));
    tasks
}

/// The task with this id, from the row found for it; `Task <id> not found` when
/// there is none.
pub fn get_task(id: i64, row: Option<TaskRow>) -> (r: Result<Task, AppError>)
    ensures
        match row {
            Some(x) => r == Ok::<Task, AppError>(row_task(x)),
            None => r matches Err(AppError::Other(m)) && m@ == not_found_text("Task"@, id),
        },
{
    match row {
        Some(x) => Ok(task_from_row(&x)),
        None => Err(not_found("Task", id)),
    }
}

/// The filter rules a new task gets: the given ones, or `{}`.
pub fn filter_rules_or_default(rules: Option<String>) -> (r: String)
    ensures
        r@ == match rules { Some(x) => x@, None => "{}"@ },
{
    match rules {
        Some(x) => x,
        None => String::from_str("{}"),
    }
}

/// Whether a task runs a background service (file watcher or schedule): it is
/// enabled and its trigger is not `manual`.
pub fn needs_background(trigger_type: &str, enabled: bool) -> (b: bool)
    ensures
        b == (enabled && trigger_type@ != "manual"@),
{
    enabled && !str_eq(trigger_type, "manual")
}

/// An update that changed no row means the task does not exist.
pub fn check_task_updated(id: i64, rows_changed: usize) -> (r: Result<(), AppError>)
    ensures
        rows_changed == 0 ==> (r matches Err(AppError::Other(m)) && m@ == not_found_text("Task"@, id)),
        rows_changed != 0 ==> r is Ok,
{
    if rows_changed == 0 {
        Err(not_found("Task", id))
    } else {
        Ok(())
    }
}

} // verus!
