//! What each page shows: plain data that the program embedding the library
//! renders.
use vstd::prelude::*;
use crate::todo::{List, MealPlanEntry, Recipe, RecipePhoto, RecipeWithPhoto, Task, WeekDay};

verus! {

/// The tasks of the list on show, with every list to choose from.
pub struct IndexTemplate {
    pub selected_list: usize,
    pub lists: Vec<List>,
    pub tasks: Vec<Task>,
}

/// The lists, for creating and deleting them.
pub struct ManageTemplate {
    pub selected_list: usize,
    pub lists: Vec<List>,
}

/// A page, as the renderer hands it on.
pub struct HtmlTemplate<T>(pub T);

/// One task.
pub struct TaskTemplate {
    pub task: Task,
}

/// Every list.
pub struct ListsTemplate {
    pub lists: Vec<List>,
}

/// The lists to choose from, one of them chosen.
pub struct ListOptionsTemplate {
    pub lists: Vec<List>,
    pub selected_list: usize,
}

/// The recipes with their first photos.
pub struct RecipesTemplate {
    pub recipes: Vec<RecipeWithPhoto>,
}

/// A recipe and its photos.
pub struct RecipeDetailTemplate {
    pub recipe: Recipe,
    pub photos: Vec<RecipePhoto>,
}

/// The form for a new recipe, or for editing one.
pub struct RecipeFormTemplate {
    pub recipe: Option<Recipe>,
    pub is_edit: bool,
}

/// A week of the meal plan, with the weeks before and after.
pub struct MealPlanTemplate {
    pub start_date: String,
    pub prev_week: String,
    pub next_week: String,
    pub week_days: Vec<WeekDay>,
}

/// The form that plans a meal for a day.
pub struct AddMealFormTemplate {
    pub date: String,
    pub recipes: Vec<Recipe>,
}

/// The form that adds a recipe's ingredients to a list.
pub struct RecipeToListTemplate {
    pub recipe: Recipe,
    pub lists: Vec<List>,
}

/// The form that plans a recipe for a day.
pub struct RecipeToMealPlanTemplate {
    pub recipe: Recipe,
}

/// The form that adds the week's ingredients to a list.
pub struct WeeklyIngredientsTemplate {
    pub start_date: String,
    pub ingredients: Vec<String>,
    pub lists: Vec<List>,
}

/// The meals of one day of a week, in the order given.
pub open spec fn meals_on(meals: Seq<MealPlanEntry>, date: Seq<char>) -> Seq<MealPlanEntry>
    decreases meals.len(),
{
    if meals.len() == 0 {
        Seq::empty()
    } else {
        let r = meals_on(meals.drop_last(), date);
        if meals.last().date@ == date {
            r.push(meals.last())
        } else {
            r
        }
    }
}

/// The meals planned for `date`, in the order given.
pub fn meals_for_day(meals: &Vec<MealPlanEntry>, date: &str) -> (r: Vec<MealPlanEntry>)
    ensures
        r@ == meals_on(meals@, date@),
{
    let mut out: Vec<MealPlanEntry> = Vec::new();
    let mut i: usize = 0;
    while i < meals.len()
        invariant
            i <= meals@.len(),
            out@ == meals_on(meals@.subrange(0, i as int), date@),
        decreases meals@.len() - i,
    {
        assert(meals@.subrange(0, i + 1).drop_last() =~= meals@.subrange(0, i as int));
        if crate::forms::str_equals(meals[i].date.as_str(), date) {
            out.push(meals[i].clone());
        }
        i = i + 1;
    }
    assert(meals@.subrange(0, i as int) =~= meals@);
    out
}

} // verus!
