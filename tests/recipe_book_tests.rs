use htmx_rs_todo::database::Database;
use htmx_rs_todo::ingredients::{
    add_ingredients_to_list, collect_ingredients, determine_selected_list, trim_text,
};
use htmx_rs_todo::recipes::{text_before_exec, BookError};
use htmx_rs_todo::template::meals_for_day;
use htmx_rs_todo::todo::{List, MealPlanEntry};

fn titles(book: &Database) -> Vec<String> {
    book.get_recipes().into_iter().map(|r| r.title).collect()
}

#[test]
fn recipes_newest_change_first() {
    let mut book = Database::new();
    let a = book.create_recipe("Pancakes".into(), "Mix".into(), "1 cup flour\n2 eggs".into()).unwrap();
    let b = book.create_recipe("Soup".into(), "Boil".into(), "Water".into()).unwrap();
    assert_eq!((a, b), (1, 2));
    assert_eq!(titles(&book), vec!["Soup", "Pancakes"]);
    book.update_recipe(a, "Crepes".into(), "Mix thin".into(), "flour".into()).unwrap();
    assert_eq!(titles(&book), vec!["Crepes", "Soup"]);
    assert_eq!(book.get_recipe(a).unwrap().instructions, "Mix thin");
    book.delete_recipe(b).unwrap();
    assert_eq!(book.get_recipe(b).err(), Some(BookError::NoSuchRecipe));
    assert_eq!(book.update_recipe(999, "x".into(), "y".into(), "z".into()), Ok(()));
    assert_eq!(titles(&book), vec!["Crepes"]);
}

#[test]
fn meals_in_week_window_by_date() {
    let mut book = Database::new();
    book.create_meal_plan_entry("2024-03-12".into(), "Pasta".into(), None).unwrap();
    book.create_meal_plan_entry("2024-03-11".into(), "Soup".into(), Some(1)).unwrap();
    book.create_meal_plan_entry("2024-03-18".into(), "Next week".into(), None).unwrap();
    book.create_meal_plan_entry("2024-03-10".into(), "Last week".into(), None).unwrap();
    book.create_meal_plan_entry("2024-03-11".into(), "Salad".into(), None).unwrap();
    let week: Vec<String> = book
        .get_meal_plan_between("2024-03-11", "2024-03-18")
        .into_iter()
        .map(|m| m.meal_text)
        .collect();
    assert_eq!(week, vec!["Soup", "Salad", "Pasta"]);
}

#[test]
fn meal_update_and_delete() {
    let mut book = Database::new();
    let id = book.create_meal_plan_entry("2024-01-01".into(), "Test Meal".into(), None).unwrap();
    book.update_meal_plan_entry(id, "Changed".into(), Some(4)).unwrap();
    let m: MealPlanEntry = book.get_meal_plan_entry(id).unwrap();
    assert_eq!((m.meal_text.as_str(), m.recipe_id, m.date.as_str()), ("Changed", Some(4), "2024-01-01"));
    book.delete_meal_plan_entry(id).unwrap();
    assert_eq!(book.get_meal_plan_entry(id).err(), Some(BookError::NoSuchMealPlanEntry));
}

#[test]
fn photos_by_upload_order_and_first() {
    let mut book = Database::new();
    assert_eq!(book.get_next_photo_order(1), Ok(0));
    let photo_b = book.create_recipe_photo(1, "b.jpg".into(), "b".into(), 10, "image/jpeg".into(), 2, None).unwrap();
    let photo_a = book.create_recipe_photo(1, "a.png".into(), "a".into(), 20, "image/png".into(), 0, Some(vec![1, 2])).unwrap();
    book.create_recipe_photo(2, "c.jpg".into(), "c".into(), 5, "image/jpeg".into(), 0, None).unwrap();
    assert_eq!(book.get_next_photo_order(1), Ok(3));
    let ids: Vec<usize> = book.get_recipe_photos(1).iter().map(|p| p.id).collect();
    assert_eq!(ids, vec![photo_a, photo_b]);
    let first = book.get_recipe_first_photo(1).unwrap();
    assert_eq!(first.id, photo_a);
    assert_eq!(first.thumbnail_blob, Some(vec![1, 2]));
    assert!(book.get_recipe_first_photo(7).is_none());
    book.delete_recipe_photo(photo_a).unwrap();
    assert!(book.get_recipe_photo_by_id(photo_a).is_none());
    book.delete_recipe_photos_by_recipe(1).unwrap();
    assert!(book.get_recipe_photos(1).is_empty());
    assert_eq!(book.get_recipe_photos(2).len(), 1);
}

#[test]
fn text_order_is_by_character() {
    assert!(text_before_exec("2024-01-09", "2024-01-10"));
    assert!(text_before_exec("", "a"));
    assert!(!text_before_exec("a", "a"));
    assert!(text_before_exec("ab", "b"));
}

#[test]
fn trims_unicode_white_space() {
    assert_eq!(trim_text("  1 cup flour \t\n"), "1 cup flour");
    assert_eq!(trim_text("\u{3000}x\u{a0}"), "x");
    assert_eq!(trim_text("   "), "");
}

#[test]
fn selected_list_fallbacks() {
    let l = |id: usize| List { id, name: format!("List {}", id) };
    assert_eq!(determine_selected_list(Some(9), &vec![l(3)]), 9);
    assert_eq!(determine_selected_list(None, &vec![l(1), l(3)]), 3);
    assert_eq!(determine_selected_list(None, &vec![l(5), l(6)]), 5);
    assert_eq!(determine_selected_list(None, &vec![]), 3);
}

#[test]
fn collected_ingredients_are_trimmed_and_distinct() {
    let texts = vec![
        "1 cup flour\n2 eggs\n\n".to_string(),
        " 2 eggs \n1 cup milk".to_string(),
    ];
    assert_eq!(collect_ingredients(&texts), vec!["1 cup flour", "2 eggs", "1 cup milk"]);
    assert!(collect_ingredients(&vec![]).is_empty());
}

#[test]
fn ingredients_become_tasks() {
    let mut db = Database::new();
    let list = db.create_list("Test List".into(), None).unwrap();
    let n = add_ingredients_to_list(&mut db, list, &vec!["  1 cup flour ".into(), "   ".into(), "2 eggs".into()]);
    assert_eq!(n, 2);
    let texts: Vec<String> = db.get_tasks(list).into_iter().map(|t| t.text).collect();
    assert_eq!(texts, vec!["1 cup flour", "2 eggs"]);
    assert_eq!(add_ingredients_to_list(&mut db, 99, &vec!["x".into()]), 0);
}

#[test]
fn meals_grouped_by_day_keep_order() {
    let m = |id: usize, date: &str| MealPlanEntry {
        id,
        date: date.to_string(),
        meal_text: format!("m{}", id),
        recipe_id: None,
    };
    let meals = vec![m(1, "2024-03-11"), m(2, "2024-03-12"), m(3, "2024-03-11")];
    let ids: Vec<usize> = meals_for_day(&meals, "2024-03-11").iter().map(|e| e.id).collect();
    assert_eq!(ids, vec![1, 3]);
    assert!(meals_for_day(&meals, "2024-03-13").is_empty());
}
