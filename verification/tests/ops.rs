use task_list::ops::{add_task, apply_command, complete_task, delete_task, edit_task, render_line, Command, TaskError};
use task_list::task::Task;

fn store(entries: &[(u32, &str, bool)]) -> Vec<Task> {
    entries
        .iter()
        .map(|(id, d, c)| Task::new(*id, d.to_string(), *c))
        .collect()
}

#[test]
fn add_to_empty_store() {
    let mut tasks: Vec<Task> = Vec::new();
    add_task("Buy milk".to_string(), &mut tasks);
    assert_eq!(tasks.len(), 1);
    assert_eq!(tasks[0].id, 1);
    assert_eq!(tasks[0].description, "Buy milk");
    assert!(!tasks[0].completed);
}

#[test]
fn add_appends_with_count_plus_one() {
    let mut tasks = store(&[(1, "a", false), (2, "b", true)]);
    add_task("c".to_string(), &mut tasks);
    assert_eq!(tasks.len(), 3);
    assert_eq!(tasks[2].id, 3);
    assert_eq!(tasks[2].description, "c");
    assert!(!tasks[2].completed);
}

#[test]
fn edit_missing_id_reports_not_found() {
    let mut tasks = store(&[(1, "keep", false)]);
    let r = edit_task(2, "changed".to_string(), &mut tasks);
    assert_eq!(r, Err(TaskError::NotFound));
    assert_eq!(tasks.len(), 1);
    assert_eq!(tasks[0].id, 1);
    assert_eq!(tasks[0].description, "keep");
    assert!(!tasks[0].completed);
}

#[test]
fn edit_replaces_first_match_only() {
    let mut tasks = store(&[(2, "first", false), (2, "second", true)]);
    let r = edit_task(2, "new".to_string(), &mut tasks);
    assert_eq!(r, Ok(()));
    assert_eq!(tasks[0].description, "new");
    assert_eq!(tasks[1].description, "second");
    assert!(!tasks[0].completed);
    assert!(tasks[1].completed);
}

#[test]
fn complete_marks_task_done() {
    let mut tasks = store(&[(5, "x", false)]);
    let r = complete_task(5, &mut tasks);
    assert_eq!(r, Ok(()));
    assert_eq!(tasks.len(), 1);
    assert_eq!(tasks[0].id, 5);
    assert_eq!(tasks[0].description, "x");
    assert!(tasks[0].completed);
}

#[test]
fn complete_missing_id_reports_not_found() {
    let mut tasks = store(&[(5, "x", false)]);
    let r = complete_task(6, &mut tasks);
    assert_eq!(r, Err(TaskError::NotFound));
    assert!(!tasks[0].completed);
}

#[test]
fn delete_removes_matching_id() {
    let mut tasks = store(&[(1, "a", false), (2, "b", false), (3, "c", false)]);
    delete_task(2, &mut tasks);
    assert_eq!(tasks.len(), 2);
    assert_eq!(tasks[0].id, 1);
    assert_eq!(tasks[1].id, 3);
}

#[test]
fn delete_missing_id_changes_nothing() {
    let mut tasks = store(&[(1, "a", false), (2, "b", false), (3, "c", false)]);
    delete_task(99, &mut tasks);
    assert_eq!(tasks.len(), 3);
    assert_eq!(tasks[0].id, 1);
    assert_eq!(tasks[1].id, 2);
    assert_eq!(tasks[2].id, 3);
}

#[test]
fn delete_removes_all_duplicates() {
    let mut tasks = store(&[(2, "a", false), (1, "b", false), (2, "c", true)]);
    delete_task(2, &mut tasks);
    assert_eq!(tasks.len(), 1);
    assert_eq!(tasks[0].id, 1);
    assert_eq!(tasks[0].description, "b");
}

#[test]
fn list_command_changes_nothing() {
    let mut tasks = store(&[(1, "a", false), (2, "b", true)]);
    let before = task_list::codec::serialize_tasks(&tasks);
    let r = apply_command(Command::List, &mut tasks);
    assert_eq!(r, Ok(()));
    let after = task_list::codec::serialize_tasks(&tasks);
    assert_eq!(before, after);
}

#[test]
fn apply_command_dispatches_add_and_delete() {
    let mut tasks: Vec<Task> = Vec::new();
    let r = apply_command(Command::Add { description: "a".to_string() }, &mut tasks);
    assert_eq!(r, Ok(()));
    assert_eq!(tasks.len(), 1);
    let r = apply_command(Command::Delete { id: 1 }, &mut tasks);
    assert_eq!(r, Ok(()));
    assert!(tasks.is_empty());
    let r = apply_command(Command::Edit { id: 7, description: "x".to_string() }, &mut tasks);
    assert_eq!(r, Err(TaskError::NotFound));
}

#[test]
fn render_line_formats_task() {
    let t = Task::new(3, "Buy milk".to_string(), false);
    assert_eq!(render_line(&t), "3: Buy milk (Completed: false)");
    let d = Task::new(12, "done".to_string(), true);
    assert_eq!(render_line(&d), "12: done (Completed: true)");
}
