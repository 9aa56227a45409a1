use yakstack::{
    clear_all_tasks, clear_tasks, drop_stack, get_current_stack_id, get_current_stack_name,
    insert_after, kill_task, list_stacks, list_tasks, new_stack, pop_task, pop_to, push_task,
    pushback_task, stack_name_to_id, swap_tasks, switch_to_stack, task_index_to_task_id, AppError,
    StackError, Store, TaskError, DEFAULT_STACK_ID,
};

fn store_with(tasks: &[&str]) -> Store {
    let mut s = Store::new();
    for t in tasks {
        push_task(&mut s, t.to_string()).unwrap();
    }
    s
}

fn keys(s: &Store) -> Vec<i64> {
    let current = get_current_stack_id(s);
    s.task_rows().into_iter().filter(|r| r.3 == current).map(|r| r.2).collect()
}

#[test]
fn new_store_has_the_default_stack_current() {
    let s = Store::new();
    assert_eq!(get_current_stack_id(&s), DEFAULT_STACK_ID);
    assert_eq!(get_current_stack_name(&s), "default");
    assert_eq!(list_stacks(&s), vec!["default".to_string()]);
    assert!(list_tasks(&s).is_empty());
}

#[test]
fn push_pop_is_last_in_first_out() {
    let mut s = Store::new();
    push_task(&mut s, "a".to_string()).unwrap();
    push_task(&mut s, "b".to_string()).unwrap();
    assert_eq!(pop_task(&mut s), Some("b".to_string()));
    assert_eq!(pop_task(&mut s), Some("a".to_string()));
    assert_eq!(pop_task(&mut s), None);
}

#[test]
fn pushback_goes_to_the_bottom() {
    let mut s = Store::new();
    pushback_task(&mut s, "a".to_string()).unwrap();
    pushback_task(&mut s, "b".to_string()).unwrap();
    assert_eq!(pop_task(&mut s), Some("a".to_string()));
    assert_eq!(list_tasks(&s), vec!["b".to_string()]);
    assert_eq!(pop_task(&mut s), Some("b".to_string()));
    assert_eq!(pop_task(&mut s), None);
}

#[test]
fn keys_follow_the_sequencer_rules() {
    let mut s = Store::new();
    push_task(&mut s, "a".to_string()).unwrap();
    assert_eq!(keys(&s), vec![1]);
    push_task(&mut s, "b".to_string()).unwrap();
    pushback_task(&mut s, "c".to_string()).unwrap();
    assert_eq!(keys(&s), vec![0, 1, 2]);
    let mut e = Store::new();
    pushback_task(&mut e, "x".to_string()).unwrap();
    assert_eq!(keys(&e), vec![1]);
}

#[test]
fn swap_twice_restores_the_order() {
    let mut s = store_with(&["a", "b", "c", "d"]);
    swap_tasks(&mut s, 0, 2).unwrap();
    assert_eq!(list_tasks(&s), vec!["c", "b", "a", "d"]);
    assert_eq!(keys(&s), vec![1, 2, 3, 4]);
    swap_tasks(&mut s, 0, 2).unwrap();
    assert_eq!(list_tasks(&s), vec!["a", "b", "c", "d"]);
    swap_tasks(&mut s, 3, 3).unwrap();
    assert_eq!(list_tasks(&s), vec!["a", "b", "c", "d"]);
}

#[test]
fn swap_reports_invalid_positions() {
    let mut s = store_with(&["a", "b"]);
    assert!(matches!(swap_tasks(&mut s, 0, 5), Err(AppError::Task(TaskError::NoSuchTask(5)))));
    assert!(matches!(swap_tasks(&mut s, 7, 1), Err(AppError::Task(TaskError::NoSuchTask(7)))));
    assert!(matches!(
        swap_tasks(&mut s, 4, 3),
        Err(AppError::Task(TaskError::NoSuchTasks(4, 3)))
    ));
    assert_eq!(list_tasks(&s), vec!["a", "b"]);
}

#[test]
fn insert_after_first_is_pushback_and_after_last_is_push() {
    let mut a = store_with(&["x", "y", "z"]);
    let mut b = store_with(&["x", "y", "z"]);
    insert_after(&mut a, 0, "n".to_string()).unwrap();
    pushback_task(&mut b, "n".to_string()).unwrap();
    assert_eq!(list_tasks(&a), list_tasks(&b));
    assert_eq!(list_tasks(&a), vec!["n", "x", "y", "z"]);

    let mut a = store_with(&["x", "y", "z"]);
    let mut b = store_with(&["x", "y", "z"]);
    insert_after(&mut a, 2, "n".to_string()).unwrap();
    push_task(&mut b, "n".to_string()).unwrap();
    assert_eq!(list_tasks(&a), list_tasks(&b));
    assert_eq!(list_tasks(&a), vec!["x", "y", "z", "n"]);
}

#[test]
fn insert_after_in_the_middle_shifts_later_keys() {
    let mut s = store_with(&["a", "b", "c", "d"]);
    insert_after(&mut s, 1, "n".to_string()).unwrap();
    assert_eq!(list_tasks(&s), vec!["a", "b", "n", "c", "d"]);
    assert_eq!(keys(&s), vec![1, 2, 3, 4, 5]);
    insert_after(&mut s, 3, "m".to_string()).unwrap();
    assert_eq!(list_tasks(&s), vec!["a", "b", "n", "c", "m", "d"]);
    let k = keys(&s);
    for i in 1..k.len() {
        assert!(k[i - 1] < k[i]);
    }
    assert!(matches!(
        insert_after(&mut s, 6, "o".to_string()),
        Err(AppError::Task(TaskError::NoSuchTask(6)))
    ));
}

#[test]
fn keys_stay_distinct_under_the_sequencer() {
    let mut s = store_with(&["a", "b", "c"]);
    pushback_task(&mut s, "d".to_string()).unwrap();
    insert_after(&mut s, 2, "e".to_string()).unwrap();
    insert_after(&mut s, 1, "f".to_string()).unwrap();
    push_task(&mut s, "g".to_string()).unwrap();
    let mut k = keys(&s);
    let n = k.len();
    k.sort();
    k.dedup();
    assert_eq!(k.len(), n);
}

#[test]
fn kill_removes_one_task() {
    let mut s = store_with(&["a", "b", "c"]);
    assert_eq!(kill_task(&mut s, 1).unwrap(), "b");
    assert_eq!(list_tasks(&s), vec!["a", "c"]);
    assert!(matches!(kill_task(&mut s, 2), Err(AppError::Task(TaskError::NoSuchTask(2)))));
}

#[test]
fn clear_empties_only_the_current_stack() {
    let mut s = store_with(&["a", "b"]);
    new_stack(&mut s, "work".to_string()).unwrap();
    switch_to_stack(&mut s, "work".to_string()).unwrap();
    push_task(&mut s, "w".to_string()).unwrap();
    switch_to_stack(&mut s, "default".to_string()).unwrap();
    clear_tasks(&mut s);
    assert!(list_tasks(&s).is_empty());
    switch_to_stack(&mut s, "work".to_string()).unwrap();
    assert_eq!(list_tasks(&s), vec!["w"]);
    clear_all_tasks(&mut s);
    assert!(list_tasks(&s).is_empty());
    assert!(s.task_rows().is_empty());
}

#[test]
fn stacks_keep_their_tasks_apart() {
    let mut s = Store::new();
    new_stack(&mut s, "work".to_string()).unwrap();
    push_task(&mut s, "write spec".to_string()).unwrap();
    switch_to_stack(&mut s, "work".to_string()).unwrap();
    push_task(&mut s, "buy milk".to_string()).unwrap();
    switch_to_stack(&mut s, "default".to_string()).unwrap();
    assert_eq!(list_tasks(&s), vec!["write spec"]);
    assert_eq!(get_current_stack_name(&s), "default");
}

#[test]
fn stack_directory_errors() {
    let mut s = Store::new();
    new_stack(&mut s, "work".to_string()).unwrap();
    match new_stack(&mut s, "work".to_string()) {
        Err(AppError::Stack(StackError::StackAlreadyExists(n))) => assert_eq!(n, "work"),
        _ => panic!("expected StackAlreadyExists"),
    }
    match switch_to_stack(&mut s, "home".to_string()) {
        Err(AppError::Stack(StackError::NoSuchStack(n))) => assert_eq!(n, "home"),
        _ => panic!("expected NoSuchStack"),
    }
    assert!(matches!(
        stack_name_to_id(&s, &"nope".to_string()),
        Err(AppError::Stack(StackError::NoSuchStack(_)))
    ));
    assert_eq!(stack_name_to_id(&s, &"work".to_string()).unwrap(), 2);
    assert_eq!(list_stacks(&s), vec!["default", "work"]);
}

#[test]
fn dropping_a_stack_removes_it_and_its_tasks() {
    let mut s = Store::new();
    new_stack(&mut s, "work".to_string()).unwrap();
    new_stack(&mut s, "home".to_string()).unwrap();
    switch_to_stack(&mut s, "work".to_string()).unwrap();
    push_task(&mut s, "w1".to_string()).unwrap();
    push_task(&mut s, "w2".to_string()).unwrap();
    switch_to_stack(&mut s, "default".to_string()).unwrap();
    push_task(&mut s, "d1".to_string()).unwrap();
    drop_stack(&mut s, "work".to_string()).unwrap();
    assert_eq!(list_stacks(&s), vec!["default", "home"]);
    let rows = s.task_rows();
    assert_eq!(rows.len(), 1);
    assert_eq!(rows[0].1, "d1");
    assert!(matches!(
        drop_stack(&mut s, "work".to_string()),
        Err(AppError::Stack(StackError::NoSuchStack(_)))
    ));
}

#[test]
fn default_and_current_stacks_cannot_be_dropped() {
    let mut s = store_with(&["a"]);
    new_stack(&mut s, "work".to_string()).unwrap();
    switch_to_stack(&mut s, "work".to_string()).unwrap();
    push_task(&mut s, "w".to_string()).unwrap();
    let stacks_before = s.stack_rows();
    let tasks_before = s.task_rows();
    assert!(matches!(
        drop_stack(&mut s, "default".to_string()),
        Err(AppError::Stack(StackError::CantDeleteDefaultStack))
    ));
    assert!(matches!(
        drop_stack(&mut s, "work".to_string()),
        Err(AppError::Stack(StackError::CantDeleteCurrentStack))
    ));
    assert_eq!(s.stack_rows(), stacks_before);
    assert_eq!(s.task_rows(), tasks_before);
}

#[test]
fn pop_to_moves_the_top_task_keeping_its_key() {
    let mut s = store_with(&["a", "b"]);
    new_stack(&mut s, "work".to_string()).unwrap();
    pop_to(&mut s, "work".to_string()).unwrap();
    assert_eq!(list_tasks(&s), vec!["a"]);
    switch_to_stack(&mut s, "work".to_string()).unwrap();
    assert_eq!(list_tasks(&s), vec!["b"]);
    assert_eq!(keys(&s), vec![2]);
    push_task(&mut s, "c".to_string()).unwrap();
    switch_to_stack(&mut s, "default".to_string()).unwrap();
    pop_to(&mut s, "work".to_string()).unwrap();
    switch_to_stack(&mut s, "work".to_string()).unwrap();
    assert_eq!(list_tasks(&s), vec!["a", "b", "c"]);
    assert!(matches!(
        pop_to(&mut s, "nowhere".to_string()),
        Err(AppError::Stack(StackError::NoSuchStack(_)))
    ));
}

#[test]
fn pop_to_from_an_empty_stack_does_nothing() {
    let mut s = Store::new();
    new_stack(&mut s, "work".to_string()).unwrap();
    pop_to(&mut s, "work".to_string()).unwrap();
    assert!(s.task_rows().is_empty());
}

#[test]
fn task_positions_map_to_identifiers() {
    let s = store_with(&["a", "b"]);
    assert_eq!(task_index_to_task_id(&s, DEFAULT_STACK_ID, 0).unwrap(), 1);
    assert_eq!(task_index_to_task_id(&s, DEFAULT_STACK_ID, 1).unwrap(), 2);
    assert!(matches!(
        task_index_to_task_id(&s, DEFAULT_STACK_ID, 2),
        Err(AppError::Task(TaskError::NoSuchTask(2)))
    ));
    assert!(matches!(
        task_index_to_task_id(&s, 99, 0),
        Err(AppError::Task(TaskError::NoSuchTask(0)))
    ));
}

#[test]
fn keys_at_the_edge_of_the_range_are_refused() {
    let mut s = Store::new();
    assert!(s.load_task(DEFAULT_STACK_ID, 5, "top".to_string(), i64::MAX));
    assert!(matches!(push_task(&mut s, "x".to_string()), Err(AppError::Constraint)));
    let mut b = Store::new();
    assert!(b.load_task(DEFAULT_STACK_ID, 5, "bottom".to_string(), i64::MIN));
    assert!(matches!(pushback_task(&mut b, "x".to_string()), Err(AppError::Constraint)));
    assert_eq!(list_tasks(&b), vec!["bottom"]);
}

#[test]
fn insert_after_on_a_single_task_goes_below_it() {
    let mut s = store_with(&["x"]);
    insert_after(&mut s, 0, "n".to_string()).unwrap();
    assert_eq!(list_tasks(&s), vec!["n", "x"]);
    assert!(matches!(
        insert_after(&mut Store::new(), 0, "n".to_string()),
        Err(AppError::Task(TaskError::NoSuchTask(0)))
    ));
}

#[test]
fn a_fresh_store_numbers_tasks_and_stacks_from_the_start() {
    let mut s = Store::new();
    push_task(&mut s, "a".to_string()).unwrap();
    new_stack(&mut s, "work".to_string()).unwrap();
    assert_eq!(s.task_rows()[0].0, 1);
    assert_eq!(stack_name_to_id(&s, &"work".to_string()).unwrap(), 2);
}
