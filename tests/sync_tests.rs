use htmx_rs_todo::database::Database;
use htmx_rs_todo::grocy::{
    compose_item_text, GrocyCredentials, Reconciler, ShoppingListItem, SyncAction, SyncEvent,
    SyncStage,
};

fn item(id: usize, product_id: usize, amount: &str, unit: usize) -> ShoppingListItem {
    ShoppingListItem {
        id,
        product_id,
        shopping_list_id: 1,
        note: String::new(),
        amount: amount.to_string(),
        done: 0,
        quantity_unit_id: unit,
    }
}

fn store_with_service() -> (Database, usize) {
    let mut db = Database::new();
    let creds = GrocyCredentials { api_key: "SECRET-REDACTED".to_string(), url: "http://grocy.local".to_string() };
    let list = db.create_list("Shopping".to_string(), Some(&creds)).unwrap();
    (db, list)
}

/// Runs one import against a scripted service: product and unit names by
/// id (missing ones fail), and the item ids whose removal fails.
fn run_import(
    db: &mut Database,
    list: usize,
    remote: &mut Vec<ShoppingListItem>,
    products: &[(usize, &str)],
    units: &[(usize, &str)],
    failing_deletes: &[usize],
) -> usize {
    let (mut r, mut action) = Reconciler::start(db, list);
    let mut calls = 0;
    loop {
        let event = match action {
            SyncAction::Done => break,
            SyncAction::FetchItems { .. } => {
                let copy: Vec<ShoppingListItem> = remote
                    .iter()
                    .map(|i| item(i.id, i.product_id, &i.amount, i.quantity_unit_id))
                    .collect();
                SyncEvent::Items(Some(copy))
            }
            SyncAction::LookupProduct { product_id } => SyncEvent::ProductName(
                products.iter().find(|p| p.0 == product_id).map(|p| p.1.to_string()),
            ),
            SyncAction::LookupUnit { unit_id } => SyncEvent::UnitName(
                units.iter().find(|u| u.0 == unit_id).map(|u| u.1.to_string()),
            ),
            SyncAction::DeleteItem { item_id } => {
                if failing_deletes.contains(&item_id) {
                    SyncEvent::Deleted(false)
                } else {
                    remote.retain(|i| i.id != item_id);
                    SyncEvent::Deleted(true)
                }
            }
        };
        calls += 1;
        action = r.step(db, event);
    }
    assert_eq!(r.stage, SyncStage::Finished);
    calls
}

fn texts(db: &Database, list: usize) -> Vec<String> {
    db.get_tasks(list).into_iter().map(|t| t.text).collect()
}

#[test]
fn import_stores_tasks_and_clears_service() {
    let (mut db, list) = store_with_service();
    let mut remote = vec![item(1, 10, "2", 100), item(2, 11, "1.5", 101)];
    run_import(&mut db, list, &mut remote, &[(10, "Milk"), (11, "Flour")], &[(100, "l"), (101, "kg")], &[]);
    assert_eq!(texts(&db, list), vec!["Milk (2 l)".to_string(), "Flour (1.5 kg)".to_string()]);
    assert!(remote.is_empty());
    run_import(&mut db, list, &mut remote, &[(10, "Milk"), (11, "Flour")], &[(100, "l"), (101, "kg")], &[]);
    assert_eq!(texts(&db, list).len(), 2);
}

#[test]
fn failed_delete_duplicates_instead_of_losing() {
    let (mut db, list) = store_with_service();
    let mut remote = vec![item(1, 10, "1", 100), item(2, 11, "3", 100)];
    let products = [(10, "Apples"), (11, "Pears")];
    let units = [(100, "pc")];
    run_import(&mut db, list, &mut remote, &products, &units, &[1]);
    assert_eq!(texts(&db, list), vec!["Apples (1 pc)".to_string(), "Pears (3 pc)".to_string()]);
    assert_eq!(remote.len(), 1);
    assert_eq!(remote[0].id, 1);
    run_import(&mut db, list, &mut remote, &products, &units, &[1]);
    let all = texts(&db, list);
    assert_eq!(all.iter().filter(|t| t.as_str() == "Apples (1 pc)").count(), 2);
    assert_eq!(all.len(), 3);
}

#[test]
fn failed_lookup_skips_only_that_item() {
    let (mut db, list) = store_with_service();
    let mut remote = vec![item(1, 10, "1", 100), item(2, 99, "2", 100)];
    run_import(&mut db, list, &mut remote, &[(10, "Bread")], &[(100, "pc")], &[]);
    assert_eq!(texts(&db, list), vec!["Bread (1 pc)".to_string()]);
    assert_eq!(remote.len(), 1);
    assert_eq!(remote[0].id, 2);
}

#[test]
fn failed_unit_lookup_skips_item() {
    let (mut db, list) = store_with_service();
    let mut remote = vec![item(1, 10, "1", 555)];
    run_import(&mut db, list, &mut remote, &[(10, "Bread")], &[], &[]);
    assert!(texts(&db, list).is_empty());
    assert_eq!(remote.len(), 1);
}

#[test]
fn list_without_credentials_asks_nothing() {
    let mut db = Database::new();
    let list = db.create_list("Plain".to_string(), None).unwrap();
    db.create_task("keep".to_string(), list).unwrap();
    let (r, action) = Reconciler::start(&db, list);
    assert!(matches!(action, SyncAction::Done));
    assert_eq!(r.stage, SyncStage::Finished);
    let mut remote = vec![item(1, 10, "1", 100)];
    let calls = run_import(&mut db, list, &mut remote, &[(10, "x")], &[(100, "y")], &[]);
    assert_eq!(calls, 0);
    assert_eq!(texts(&db, list), vec!["keep".to_string()]);
    assert_eq!(remote.len(), 1);
}

#[test]
fn failed_fetch_ends_import() {
    let (mut db, list) = store_with_service();
    let (mut r, action) = Reconciler::start(&db, list);
    match action {
        SyncAction::FetchItems { credentials } => assert_eq!(credentials.url, "http://grocy.local"),
        _ => panic!("expected a fetch"),
    }
    let next = r.step(&mut db, SyncEvent::Items(None));
    assert!(matches!(next, SyncAction::Done));
    assert!(db.get_tasks(list).is_empty());
}

#[test]
fn delete_is_asked_only_after_task_is_stored() {
    let (mut db, list) = store_with_service();
    let (mut r, _) = Reconciler::start(&db, list);
    let a = r.step(&mut db, SyncEvent::Items(Some(vec![item(7, 10, "4", 100)])));
    assert!(matches!(a, SyncAction::LookupProduct { product_id: 10 }));
    let a = r.step(&mut db, SyncEvent::ProductName(Some("Eggs".to_string())));
    assert!(matches!(a, SyncAction::LookupUnit { unit_id: 100 }));
    assert!(db.get_tasks(list).is_empty());
    let a = r.step(&mut db, SyncEvent::UnitName(Some("pc".to_string())));
    assert!(matches!(a, SyncAction::DeleteItem { item_id: 7 }));
    assert_eq!(texts(&db, list), vec!["Eggs (4 pc)".to_string()]);
    let a = r.step(&mut db, SyncEvent::Deleted(false));
    assert!(matches!(a, SyncAction::Done));
    assert_eq!(texts(&db, list).len(), 1);
}

#[test]
fn item_text_is_name_amount_unit() {
    assert_eq!(compose_item_text("Milk", "2", "l"), "Milk (2 l)");
    assert_eq!(compose_item_text("", "", ""), " ( )");
}
