use yakstack::{
    kill_task, pop_task, push_task, remind_me, reminder_delay, schedule_reminder,
    trigger_reminder, AppError, ReminderError, Store, TaskError,
};

fn one_task() -> Store {
    let mut s = Store::new();
    push_task(&mut s, "call mom".to_string()).unwrap();
    s
}

#[test]
fn scheduling_records_one_reminder_for_the_task() {
    let mut s = one_task();
    let id = remind_me(&mut s, 0, "5s".to_string()).unwrap();
    let rows = s.reminder_rows();
    assert_eq!(rows.len(), 1);
    assert_eq!(rows[0].0, id);
    assert_eq!(rows[0].1, 5);
    assert_eq!(rows[0].2, s.task_rows()[0].0);
    kill_task(&mut s, 0).unwrap();
    assert!(s.reminder_rows().is_empty());
}

#[test]
fn reminder_identifiers_are_fresh_uuids() {
    let mut s = one_task();
    let a = remind_me(&mut s, 0, "5s".to_string()).unwrap();
    let b = remind_me(&mut s, 0, "1m".to_string()).unwrap();
    assert_eq!(a.len(), 36);
    assert_eq!(a.matches('-').count(), 4);
    assert_ne!(a, b);
    assert_eq!(s.reminder_rows().len(), 2);
}

#[test]
fn firing_consumes_the_reminder() {
    let mut s = one_task();
    schedule_reminder(&mut s, 0, "2m", "r1".to_string()).unwrap();
    assert_eq!(reminder_delay(&s, &"r1".to_string()), Some(120));
    assert_eq!(trigger_reminder(&mut s, "r1".to_string()), Some("call mom".to_string()));
    assert!(s.reminder_rows().is_empty());
    assert_eq!(trigger_reminder(&mut s, "r1".to_string()), None);
    assert_eq!(reminder_delay(&s, &"r1".to_string()), None);
}

#[test]
fn firing_after_the_task_is_gone_does_nothing() {
    let mut s = one_task();
    schedule_reminder(&mut s, 0, "1h", "r1".to_string()).unwrap();
    assert_eq!(pop_task(&mut s), Some("call mom".to_string()));
    assert_eq!(trigger_reminder(&mut s, "r1".to_string()), None);
    assert!(s.reminder_rows().is_empty());
}

#[test]
fn scheduling_errors() {
    let mut s = one_task();
    assert!(matches!(
        schedule_reminder(&mut s, 1, "5s", "r".to_string()),
        Err(AppError::Task(TaskError::NoSuchTask(1)))
    ));
    match schedule_reminder(&mut s, 0, "soon", "r".to_string()) {
        Err(AppError::Reminder(ReminderError::InvalidReminderTime(t))) => assert_eq!(t, "soon"),
        _ => panic!("expected InvalidReminderTime"),
    }
    assert!(matches!(
        remind_me(&mut s, 3, "bad".to_string()),
        Err(AppError::Task(TaskError::NoSuchTask(3)))
    ));
    schedule_reminder(&mut s, 0, "5s", "r".to_string()).unwrap();
    assert!(matches!(
        schedule_reminder(&mut s, 0, "5s", "r".to_string()),
        Err(AppError::Constraint)
    ));
    assert_eq!(s.reminder_rows().len(), 1);
}

#[test]
fn loading_rows_rebuilds_the_store() {
    let mut s = Store::new();
    assert!(s.load_stack(4, "work".to_string()));
    assert!(!s.load_stack(4, "other".to_string()));
    assert!(!s.load_stack(9, "work".to_string()));
    assert!(s.load_task(4, 10, "t1".to_string(), 3));
    assert!(!s.load_task(4, 11, "t2".to_string(), 2));
    assert!(s.load_task(4, 11, "t2".to_string(), 7));
    assert!(!s.load_task(8, 12, "t3".to_string(), 1));
    assert!(!s.load_task(4, 10, "again".to_string(), 9));
    assert!(s.load_reminder("r".to_string(), 30, 11));
    assert!(!s.load_reminder("r".to_string(), 30, 10));
    assert!(!s.load_reminder("q".to_string(), 30, 99));
    assert!(!s.load_reminder("q".to_string(), 0, 10));
    assert!(s.load_current(4));
    assert!(!s.load_current(5));
    push_task(&mut s, "t4".to_string()).unwrap();
    let rows = s.task_rows();
    assert_eq!(rows.last().unwrap().0, 12);
    assert_eq!(rows.last().unwrap().2, 8);
    assert_eq!(s.stack_rows()[1], (4, "work".to_string()));
}
