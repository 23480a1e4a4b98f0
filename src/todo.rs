use vstd::prelude::*;

verus! {

/// A task: one entry of a list.
///
/// `position` orders the tasks of a list; a task without a position sorts
/// after every positioned one.
#[derive(Debug)]
pub struct Task {
    pub id: usize,
    pub text: String,
    pub completed: bool,
    pub list_id: usize,
    pub position: Option<i32>,
}

impl Clone for Task {
    fn clone(&self) -> (r: Self)
        ensures
            r == *self,
    {
        Task {
            id: self.id,
            text: self.text.clone(),
            completed: self.completed,
            list_id: self.list_id,
            position: self.position,
        }
    }
}

/// A named list of tasks.
#[derive(Debug)]
pub struct List {
    pub id: usize,
    pub name: String,
}

impl Clone for List {
    fn clone(&self) -> (r: Self)
        ensures
            r == *self,
    {
        List { id: self.id, name: self.name.clone() }
    }
}

/// The form that adds a task.
pub struct TaskForm {
    pub text: String,
}

/// The form that creates a list.
pub struct ListForm {
    pub name: String,
}

/// A recipe; `ingredients` holds one ingredient per line.
#[derive(Debug)]
pub struct Recipe {
    pub id: usize,
    pub title: String,
    pub instructions: String,
    pub ingredients: String,
}

impl Clone for Recipe {
    fn clone(&self) -> (r: Self)
        ensures
            r == *self,
    {
        Recipe {
            id: self.id,
            title: self.title.clone(),
            instructions: self.instructions.clone(),
            ingredients: self.ingredients.clone(),
        }
    }
}

/// A meal planned for a day; `date` is written `YYYY-MM-DD`.
#[derive(Debug)]
pub struct MealPlanEntry {
    pub id: usize,
    pub date: String,
    pub meal_text: String,
    pub recipe_id: Option<usize>,
}

impl Clone for MealPlanEntry {
    fn clone(&self) -> (r: Self)
        ensures
            r == *self,
    {
        MealPlanEntry {
            id: self.id,
            date: self.date.clone(),
            meal_text: self.meal_text.clone(),
            recipe_id: self.recipe_id,
        }
    }
}

/// The form that creates or edits a recipe.
pub struct RecipeForm {
    pub title: String,
    pub instructions: String,
    pub ingredients: String,
}

/// The form that adds a meal; an empty recipe field means no recipe.
pub struct MealForm {
    pub meal_text: String,
    pub recipe_id: Option<usize>,
}

/// A photo of a recipe, stored as a file named `filename`, with an optional
/// thumbnail kept beside its record.
#[derive(Debug)]
pub struct RecipePhoto {
    pub id: usize,
    pub recipe_id: usize,
    pub filename: String,
    pub original_name: String,
    pub file_size: i64,
    pub mime_type: String,
    pub upload_order: i32,
    pub thumbnail_blob: Option<Vec<u8>>,
}

/// The values a photo record holds, its thumbnail as bytes.
pub struct PhotoView {
    pub id: usize,
    pub recipe_id: usize,
    pub filename: Seq<char>,
    pub original_name: Seq<char>,
    pub file_size: i64,
    pub mime_type: Seq<char>,
    pub upload_order: i32,
    pub thumbnail: Option<Seq<u8>>,
}

impl View for RecipePhoto {
    type V = PhotoView;

    open spec fn view(&self) -> PhotoView {
        PhotoView {
            id: self.id,
            recipe_id: self.recipe_id,
            filename: self.filename@,
            original_name: self.original_name@,
            file_size: self.file_size,
            mime_type: self.mime_type@,
            upload_order: self.upload_order,
            thumbnail: match self.thumbnail_blob {
                Some(b) => Some(b@),
                None => None,
            },
        }
    }
}

impl Clone for RecipePhoto {
    fn clone(&self) -> (r: Self)
        ensures
            r@ == self@,
    {
        let thumbnail_blob = match &self.thumbnail_blob {
            Some(b) => {
                let c = b.clone();
                assert(c@ =~= b@);
                Some(c)
            },
            None => None,
        };
        RecipePhoto {
            id: self.id,
            recipe_id: self.recipe_id,
            filename: self.filename.clone(),
            original_name: self.original_name.clone(),
            file_size: self.file_size,
            mime_type: self.mime_type.clone(),
            upload_order: self.upload_order,
            thumbnail_blob,
        }
    }
}

/// A recipe together with the first of its photos, if it has any.
#[derive(Clone, Debug)]
pub struct RecipeWithPhoto {
    pub recipe: Recipe,
    pub first_photo: Option<RecipePhoto>,
}

/// The form that adds chosen ingredients of a recipe to a list.
pub struct RecipeToListForm {
    pub list_id: usize,
    pub ingredients: Vec<String>,
}

/// The form that plans a recipe for a day.
pub struct RecipeToMealPlanForm {
    pub date: String,
    pub meal_text: Option<String>,
}

/// The form that adds the week's ingredients to a list.
pub struct WeeklyIngredientsForm {
    pub list_id: usize,
    pub ingredients: Vec<String>,
}

/// One day of a planned week: its name, its date as shown (`dd.MM.yy`), its
/// date as stored (`YYYY-MM-DD`), and the meals planned for it.
#[derive(Clone, Debug)]
pub struct WeekDay {
    pub day_name: String,
    pub date: String,
    pub db_date: String,
    pub meals: Vec<MealPlanEntry>,
}

} // verus!
