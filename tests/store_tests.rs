use htmx_rs_todo::database::{Database, DbError};
use htmx_rs_todo::grocy::GrocyCredentials;
use htmx_rs_todo::todo::Task;

fn list_with_tasks(db: &mut Database, name: &str, n: usize) -> (usize, Vec<usize>) {
    let list = db.create_list(name.to_string(), None).unwrap();
    let mut ids = Vec::new();
    for i in 0..n {
        ids.push(db.create_task(format!("Task {}", i + 1), list).unwrap());
    }
    (list, ids)
}

fn ids_of(tasks: &[Task]) -> Vec<usize> {
    tasks.iter().map(|t| t.id).collect()
}

fn position_of(db: &Database, id: usize) -> Option<i32> {
    db.get_task(id).unwrap().position
}

#[test]
fn create_task_appends_positions() {
    let mut db = Database::new();
    let (list, ids) = list_with_tasks(&mut db, "Test List", 3);
    assert_eq!(ids, vec![1, 2, 3]);
    assert_eq!(position_of(&db, 1), Some(0));
    assert_eq!(position_of(&db, 2), Some(1));
    assert_eq!(position_of(&db, 3), Some(2));
    let t = db.get_task(2).unwrap();
    assert_eq!(t.text, "Task 2");
    assert!(!t.completed);
    assert_eq!(t.list_id, list);
}

#[test]
fn create_task_after_gap_uses_max_plus_one() {
    let mut db = Database::new();
    let (list, _) = list_with_tasks(&mut db, "Gaps", 3);
    db.delete_task(2).unwrap();
    let id = db.create_task("Next".to_string(), list).unwrap();
    assert_eq!(position_of(&db, id), Some(3));
    db.delete_task(id).unwrap();
    db.delete_task(3).unwrap();
    let id2 = db.create_task("Again".to_string(), list).unwrap();
    assert_eq!(position_of(&db, id2), Some(1));
}

#[test]
fn create_task_in_missing_list_fails() {
    let mut db = Database::new();
    assert_eq!(db.create_task("x".to_string(), 7), Err(DbError::NoSuchList));
    assert_eq!(db.get_task(1).err(), Some(DbError::NoSuchTask));
}

#[test]
fn first_task_of_empty_list_gets_position_zero() {
    let mut db = Database::new();
    let a = db.create_list("A".to_string(), None).unwrap();
    let b = db.create_list("B".to_string(), None).unwrap();
    db.create_task("in a".to_string(), a).unwrap();
    let t = db.create_task("in b".to_string(), b).unwrap();
    assert_eq!(position_of(&db, t), Some(0));
}

#[test]
fn reorder_named_first_then_rest_in_prior_order() {
    let mut db = Database::new();
    let (list, _) = list_with_tasks(&mut db, "Test List", 5);
    assert_eq!(db.reorder(list, vec![3, 1]), Ok(()));
    let tasks = db.get_tasks(list);
    assert_eq!(ids_of(&tasks), vec![3, 1, 2, 4, 5]);
    assert_eq!(position_of(&db, 3), Some(0));
    assert_eq!(position_of(&db, 1), Some(1));
    assert_eq!(position_of(&db, 2), Some(3));
    assert_eq!(position_of(&db, 4), Some(5));
    assert_eq!(position_of(&db, 5), Some(6));
}

#[test]
fn reorder_full_list_twice_is_once() {
    let mut db = Database::new();
    let (list, _) = list_with_tasks(&mut db, "Full", 4);
    let order = vec![4, 2, 1, 3];
    db.reorder(list, order.clone()).unwrap();
    let once: Vec<(usize, Option<i32>)> =
        db.get_tasks(list).iter().map(|t| (t.id, t.position)).collect();
    db.reorder(list, order).unwrap();
    let twice: Vec<(usize, Option<i32>)> =
        db.get_tasks(list).iter().map(|t| (t.id, t.position)).collect();
    assert_eq!(once, twice);
    assert_eq!(once, vec![(4, Some(0)), (2, Some(1)), (1, Some(2)), (3, Some(3))]);
}

#[test]
fn reorder_empty_is_noop() {
    let mut db = Database::new();
    let (list, ids) = list_with_tasks(&mut db, "Empty", 3);
    let before: Vec<Option<i32>> = ids.iter().map(|&i| position_of(&db, i)).collect();
    assert_eq!(db.reorder(list, vec![]), Ok(()));
    let after: Vec<Option<i32>> = ids.iter().map(|&i| position_of(&db, i)).collect();
    assert_eq!(before, after);
}

#[test]
fn reorder_failure_changes_nothing() {
    let mut db = Database::new();
    let (list, _) = list_with_tasks(&mut db, "Overflow", 2);
    let high = Task {
        id: 10,
        text: "far back".to_string(),
        completed: false,
        list_id: list,
        position: Some(i32::MAX),
    };
    db.load_task(high, 0).unwrap();
    let before: Vec<(usize, Option<i32>)> =
        db.get_tasks(list).iter().map(|t| (t.id, t.position)).collect();
    assert_eq!(db.reorder(list, vec![2]), Err(DbError::PositionOverflow));
    let after: Vec<(usize, Option<i32>)> =
        db.get_tasks(list).iter().map(|t| (t.id, t.position)).collect();
    assert_eq!(before, after);
    assert_eq!(before, vec![(1, Some(0)), (2, Some(1)), (10, Some(i32::MAX))]);
}

#[test]
fn reorder_ignores_tasks_of_other_lists() {
    let mut db = Database::new();
    let (a, _) = list_with_tasks(&mut db, "A", 2);
    let b = db.create_list("B".to_string(), None).unwrap();
    let foreign = db.create_task("in b".to_string(), b).unwrap();
    assert_eq!(db.reorder(a, vec![foreign as u64]), Ok(()));
    assert_eq!(position_of(&db, foreign), Some(0));
    assert_eq!(db.get_task(foreign).unwrap().list_id, b);
    assert_eq!(ids_of(&db.get_tasks(a)), vec![1, 2]);
    assert_eq!(position_of(&db, 1), Some(1));
    assert_eq!(position_of(&db, 2), Some(2));
}

#[test]
fn reorder_duplicate_id_last_index_wins() {
    let mut db = Database::new();
    let (list, _) = list_with_tasks(&mut db, "Dup", 3);
    db.reorder(list, vec![2, 1, 2]).unwrap();
    assert_eq!(position_of(&db, 2), Some(2));
    assert_eq!(position_of(&db, 1), Some(1));
    assert_eq!(position_of(&db, 3), Some(5));
}

#[test]
fn unknown_ids_in_order_are_passed_over() {
    let mut db = Database::new();
    let (list, _) = list_with_tasks(&mut db, "Unknown", 2);
    assert_eq!(db.reorder(list, vec![99, 2]), Ok(()));
    assert_eq!(ids_of(&db.get_tasks(list)), vec![2, 1]);
}

#[test]
fn get_tasks_orders_positions_then_completion_then_recency() {
    let mut db = Database::new();
    let list = db.create_list("Sort".to_string(), None).unwrap();
    let mk = |id: usize, position: Option<i32>, completed: bool| Task {
        id,
        text: format!("t{}", id),
        completed,
        list_id: list,
        position,
    };
    db.load_task(mk(1, None, false), 1).unwrap();
    db.load_task(mk(2, Some(5), true), 2).unwrap();
    db.load_task(mk(3, Some(5), false), 3).unwrap();
    db.load_task(mk(4, Some(5), false), 9).unwrap();
    db.load_task(mk(5, Some(0), true), 4).unwrap();
    db.load_task(mk(6, None, false), 7).unwrap();
    assert_eq!(ids_of(&db.get_tasks(list)), vec![5, 4, 3, 2, 6, 1]);
}

#[test]
fn toggle_flips_completion_and_moves_task_first_among_ties() {
    let mut db = Database::new();
    let list = db.create_list("Toggle".to_string(), None).unwrap();
    let a = db.create_task("a".to_string(), list).unwrap();
    db.toggle_task_completed(a).unwrap();
    assert!(db.get_task(a).unwrap().completed);
    db.toggle_task_completed(a).unwrap();
    assert!(!db.get_task(a).unwrap().completed);
    assert_eq!(db.toggle_task_completed(99), Ok(()));
}

#[test]
fn delete_list_removes_its_tasks_and_credentials() {
    let mut db = Database::new();
    let creds = GrocyCredentials { api_key: "SECRET-REDACTED".to_string(), url: "http://grocy.local".to_string() };
    let a = db.create_list("A".to_string(), Some(&creds)).unwrap();
    let b = db.create_list("B".to_string(), None).unwrap();
    db.create_task("a1".to_string(), a).unwrap();
    let kept = db.create_task("b1".to_string(), b).unwrap();
    assert!(db.get_grocy_credentials(a).is_some());
    db.delete_list(a).unwrap();
    assert_eq!(db.get_list(a).err(), Some(DbError::NoSuchList));
    assert!(db.get_tasks(a).is_empty());
    assert!(db.get_grocy_credentials(a).is_none());
    assert_eq!(db.get_lists().len(), 1);
    assert_eq!(db.get_task(kept).unwrap().text, "b1");
    assert_eq!(db.get_task(1).err(), Some(DbError::NoSuchTask));
}

#[test]
fn create_list_stores_credentials_only_when_complete() {
    let mut db = Database::new();
    let partial = GrocyCredentials { api_key: String::new(), url: "http://grocy.local".to_string() };
    let a = db.create_list("A".to_string(), Some(&partial)).unwrap();
    assert!(db.get_grocy_credentials(a).is_none());
    let full = GrocyCredentials { api_key: "k".to_string(), url: "http://grocy.local".to_string() };
    let b = db.create_list("B".to_string(), Some(&full)).unwrap();
    let got = db.get_grocy_credentials(b).unwrap();
    assert_eq!(got.url, "http://grocy.local");
    assert_eq!(got.api_key, "k");
    assert_eq!(db.get_list(b).unwrap().name, "B");
    let names: Vec<String> = db.get_lists().into_iter().map(|l| l.name).collect();
    assert_eq!(names, vec!["A".to_string(), "B".to_string()]);
}

#[test]
fn set_credentials_replaces_existing() {
    let mut db = Database::new();
    let a = db.create_list("A".to_string(), None).unwrap();
    let c1 = GrocyCredentials { api_key: "k1".to_string(), url: "http://one".to_string() };
    let c2 = GrocyCredentials { api_key: "k2".to_string(), url: "http://two".to_string() };
    assert_eq!(db.set_grocy_credentials(a, c1), Ok(()));
    assert_eq!(db.set_grocy_credentials(a, c2.clone()), Ok(()));
    assert_eq!(db.get_grocy_credentials(a).unwrap().url, "http://two");
    assert_eq!(db.credential_records().len(), 1);
    assert_eq!(db.set_grocy_credentials(42, c2), Err(DbError::NoSuchList));
}

#[test]
fn loading_rejects_taken_ids_and_negative_positions() {
    let mut db = Database::new();
    let list = db.create_list("L".to_string(), None).unwrap();
    let t = |id: usize, position: Option<i32>| Task {
        id,
        text: "x".to_string(),
        completed: false,
        list_id: list,
        position,
    };
    assert_eq!(db.load_task(t(5, Some(-1)), 0), Err(DbError::InvalidPosition));
    assert_eq!(db.load_task(t(5, Some(2)), 0), Ok(()));
    assert_eq!(db.load_task(t(5, Some(3)), 0), Err(DbError::IdTaken));
    let next = db.create_task("after".to_string(), list).unwrap();
    assert_eq!(next, 6);
    assert_eq!(position_of(&db, next), Some(3));
}
