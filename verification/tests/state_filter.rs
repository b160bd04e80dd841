use mindtask::cli::state_filter::{hidden_footer, index, StateArg, StateFilter};
use mindtask::model::id::TaskId;
use mindtask::model::task::{Task, TaskState};

fn task(id: u64, state: TaskState) -> Task {
    Task {
        id: TaskId(id),
        name: format!("t{id}"),
        description: None,
        duration: None,
        state,
        due: None,
        depends_on: vec![],
        concepts: vec![],
    }
}

#[test]
fn state_arg_parses_states_and_all() {
    assert_eq!("todo".parse::<StateArg>().unwrap(), StateArg::State(TaskState::Todo));
    assert_eq!("in_progress".parse::<StateArg>().unwrap(), StateArg::State(TaskState::InProgress));
    assert_eq!("done".parse::<StateArg>().unwrap(), StateArg::State(TaskState::Done));
    assert_eq!("all".parse::<StateArg>().unwrap(), StateArg::All);
}

#[test]
fn state_arg_rejects_unknown_and_names_all() {
    let err = "bogus".parse::<StateArg>().unwrap_err();
    assert!(err.contains("'todo', 'in_progress', 'done', or 'all'"), "{err}");
}

#[test]
fn filter_keeps_only_selected_states() {
    let f = StateFilter::new(&[StateArg::State(TaskState::Todo), StateArg::State(TaskState::InProgress)]);
    assert!(f.keeps(TaskState::Todo));
    assert!(f.keeps(TaskState::InProgress));
    assert!(!f.keeps(TaskState::Done));
}

#[test]
fn all_overrides_everything() {
    let f = StateFilter::new(&[StateArg::State(TaskState::Done), StateArg::All]);
    for s in [TaskState::Todo, TaskState::InProgress, TaskState::Done] {
        assert!(f.keeps(s));
    }
}

#[test]
fn empty_selection_keeps_nothing() {
    let f = StateFilter::new(&[]);
    for s in [TaskState::Todo, TaskState::InProgress, TaskState::Done] {
        assert!(!f.keeps(s));
    }
}

#[test]
fn state_index_follows_declaration_order() {
    assert_eq!(index(TaskState::Todo), 0);
    assert_eq!(index(TaskState::InProgress), 1);
    assert_eq!(index(TaskState::Done), 2);
}

#[test]
fn footer_lists_nonzero_counts_in_state_order() {
    let tasks = [task(1, TaskState::Done), task(2, TaskState::Todo), task(3, TaskState::Done)];
    assert_eq!(hidden_footer(&tasks).unwrap(), "(hidden: 1 todo, 2 done — --state all to show)");
}

#[test]
fn footer_absent_when_nothing_hidden() {
    assert_eq!(hidden_footer(&[]), None);
}

#[test]
fn footer_names_in_progress_counts() {
    let tasks = [task(1, TaskState::InProgress), task(2, TaskState::InProgress)];
    assert_eq!(hidden_footer(&tasks).unwrap(), "(hidden: 2 in_progress — --state all to show)");
}
