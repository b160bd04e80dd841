use mindtask::model::task::{TaskState, TaskStatus};

#[test]
fn task_status_display_and_parse() {
    for status in [TaskStatus::Todo, TaskStatus::InProgress, TaskStatus::Done] {
        let s = status.to_string();
        let parsed: TaskStatus = s.parse().unwrap();
        assert_eq!(parsed, status);
    }
}

#[test]
fn task_state_texts_and_error() {
    assert_eq!(TaskState::InProgress.as_str(), "in_progress");
    assert_eq!(TaskState::default(), TaskState::Todo);
    assert_eq!(
        "later".parse::<TaskState>().unwrap_err(),
        "invalid status 'later': expected 'todo', 'in_progress', or 'done'"
    );
}
