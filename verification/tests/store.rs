use task_tracker::TaskManager;

#[test]
fn new_store_is_empty() {
    let m = TaskManager::new();
    assert_eq!(m.list().len(), 0);
    assert!(m.get(1).is_none());
}

#[test]
fn ids_increase_by_one_from_one() {
    let mut m = TaskManager::new();
    assert_eq!(m.create(String::from("a")), 1);
    assert_eq!(m.create(String::from("b")), 2);
    m.mark_done(1);
    assert_eq!(m.create(String::from("c")), 3);
    m.delete(2);
    assert_eq!(m.create(String::from("d")), 4);
    m.delete(9);
    assert_eq!(m.create(String::from("e")), 5);
}

#[test]
fn create_then_get() {
    let mut m = TaskManager::new();
    let k = m.create(String::from("X"));
    let t = m.get(k).expect("created task must be found");
    assert_eq!(t.id, k);
    assert_eq!(t.title, "X");
    assert!(!t.done);
}

#[test]
fn empty_title_accepted() {
    let mut m = TaskManager::new();
    let k = m.create(String::new());
    let t = m.get(k).expect("task with empty title must be found");
    assert_eq!(t.title, "");
    assert!(!t.done);
}

#[test]
fn get_missing_is_absent() {
    let mut m = TaskManager::new();
    m.create(String::from("only"));
    assert!(m.get(0).is_none());
    assert!(m.get(2).is_none());
}

#[test]
fn mark_done_existing_and_idempotent() {
    let mut m = TaskManager::new();
    let k = m.create(String::from("task"));
    assert!(m.mark_done(k));
    assert!(m.get(k).expect("task must remain").done);
    assert!(m.mark_done(k));
    let t = m.get(k).expect("task must remain");
    assert!(t.done);
    assert_eq!(t.title, "task");
}

#[test]
fn mark_done_missing_leaves_store() {
    let mut m = TaskManager::new();
    m.create(String::from("a"));
    m.create(String::from("b"));
    assert!(!m.mark_done(7));
    let tasks = m.list();
    assert_eq!(tasks.len(), 2);
    assert_eq!(tasks[0].id, 1);
    assert_eq!(tasks[0].title, "a");
    assert!(!tasks[0].done);
    assert_eq!(tasks[1].id, 2);
    assert_eq!(tasks[1].title, "b");
    assert!(!tasks[1].done);
}

#[test]
fn delete_existing_then_get_absent() {
    let mut m = TaskManager::new();
    m.create(String::from("a"));
    let k = m.create(String::from("b"));
    m.create(String::from("c"));
    let removed = m.delete(k).expect("existing task must be removed");
    assert_eq!(removed.id, k);
    assert_eq!(removed.title, "b");
    assert!(m.get(k).is_none());
    let tasks = m.list();
    assert_eq!(tasks.len(), 2);
    assert_eq!(tasks[0].id, 1);
    assert_eq!(tasks[1].id, 3);
}

#[test]
fn delete_missing_leaves_list() {
    let mut m = TaskManager::new();
    m.create(String::from("a"));
    m.create(String::from("b"));
    assert!(m.delete(5).is_none());
    let tasks = m.list();
    assert_eq!(tasks.len(), 2);
    assert_eq!(tasks[0].id, 1);
    assert_eq!(tasks[1].id, 2);
}

#[test]
fn no_id_reuse_after_delete() {
    let mut m = TaskManager::new();
    m.create(String::from("a"));
    let k = m.create(String::from("b"));
    m.delete(k).expect("existing task must be removed");
    let fresh = m.create(String::from("c"));
    assert_ne!(fresh, k);
    assert_eq!(fresh, 3);
}

#[test]
fn scenario_create_mark_delete_create() {
    let mut m = TaskManager::new();
    assert_eq!(m.create(String::from("Buy milk")), 1);
    assert_eq!(m.create(String::from("Walk dog")), 2);
    assert!(m.mark_done(1));
    let removed = m.delete(2).expect("id 2 must exist");
    assert_eq!(removed.id, 2);
    assert_eq!(removed.title, "Walk dog");
    assert!(!removed.done);
    let tasks = m.list();
    assert_eq!(tasks.len(), 1);
    assert_eq!(tasks[0].id, 1);
    assert_eq!(tasks[0].title, "Buy milk");
    assert!(tasks[0].done);
    assert_eq!(m.create(String::from("Read book")), 3);
}

#[test]
fn list_keeps_insertion_order() {
    let mut m = TaskManager::new();
    m.create(String::from("first"));
    m.create(String::from("second"));
    m.create(String::from("third"));
    let tasks = m.list();
    assert_eq!(tasks.len(), 3);
    assert_eq!(tasks[0].title, "first");
    assert_eq!(tasks[1].title, "second");
    assert_eq!(tasks[2].title, "third");
}
