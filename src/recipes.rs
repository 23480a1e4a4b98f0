//! Recipes, the meal plan and photos: how their rows are ordered and
//! filtered, and why an operation on them fails. Their tables live in the
//! store (`crate::database::Database`).
use vstd::prelude::*;
use vstd::string::StrSliceExecFns;
use crate::sorting::Ranked;
use crate::todo::{MealPlanEntry, PhotoView, RecipePhoto};

verus! {

/// Why an operation on recipes or the meal plan did not take place.
#[derive(Debug, Clone, Copy, PartialEq, Eq, Structural)]
pub enum BookError {
    NoSuchRecipe,
    NoSuchMealPlanEntry,
    IdsExhausted,
    /// The next upload order would leave the range of `i32`.
    OrderOverflow,
    /// A row with this identifier is already stored.
    IdTaken,
}

/// Whether the text `a` sorts before the text `b`, character by character.
pub open spec fn text_before(a: Seq<char>, b: Seq<char>) -> bool
    decreases a.len(),
{
    if a.len() == 0 {
        b.len() > 0
    } else if b.len() == 0 {
        false
    } else if a[0] != b[0] {
        a[0] < b[0]
    } else {
        text_before(a.drop_first(), b.drop_first())
    }
}

proof fn lemma_text_irreflexive(a: Seq<char>)
    ensures
        !text_before(a, a),
    decreases a.len(),
{
    if a.len() > 0 {
        lemma_text_irreflexive(a.drop_first());
    }
}

proof fn lemma_text_total(a: Seq<char>, b: Seq<char>)
    ensures
        a != b ==> text_before(a, b) || text_before(b, a),
    decreases a.len(),
{
    if a.len() > 0 && b.len() > 0 && a[0] == b[0] {
        lemma_text_total(a.drop_first(), b.drop_first());
        if a.drop_first() == b.drop_first() {
            assert(a =~= seq![a[0]] + a.drop_first());
            assert(b =~= seq![b[0]] + b.drop_first());
        }
    } else if a.len() == 0 && b.len() == 0 {
        assert(a =~= b);
    }
}

proof fn lemma_text_transitive(a: Seq<char>, b: Seq<char>, c: Seq<char>)
    ensures
        text_before(a, b) && text_before(b, c) ==> text_before(a, c),
    decreases a.len(),
{
    if a.len() > 0 && b.len() > 0 && c.len() > 0 {
        lemma_text_transitive(a.drop_first(), b.drop_first(), c.drop_first());
    }
}

/// Text order is a strict total order.
pub proof fn lemma_text_order(a: Seq<char>, b: Seq<char>, c: Seq<char>)
    ensures
        !text_before(a, a),
        a != b ==> text_before(a, b) || text_before(b, a),
        text_before(a, b) && text_before(b, c) ==> text_before(a, c),
{
    lemma_text_irreflexive(a);
    lemma_text_total(a, b);
    lemma_text_transitive(a, b, c);
}

/// Whether `a` sorts before `b`.
pub fn text_before_exec(a: &str, b: &str) -> (r: bool)
    ensures
        r == text_before(a@, b@),
{
    let n = a.unicode_len();
    let m = b.unicode_len();
    let mut i: usize = 0;
    assert(a@.subrange(0, n as int) =~= a@);
    assert(b@.subrange(0, m as int) =~= b@);
    while i < n && i < m && a.get_char(i) == b.get_char(i)
        invariant
            n == a@.len(),
            m == b@.len(),
            i <= n,
            i <= m,
            forall|k: int| 0 <= k < i ==> a@[k] == b@[k],
            text_before(a@, b@) == text_before(a@.subrange(i as int, n as int), b@.subrange(
                i as int,
                m as int,
            )),
        decreases n - i,
    {
        let ghost sa = a@.subrange(i as int, n as int);
        let ghost sb = b@.subrange(i as int, m as int);
        assert(sa.drop_first() =~= a@.subrange(i + 1, n as int));
        assert(sb.drop_first() =~= b@.subrange(i + 1, m as int));
        i = i + 1;
    }
    let ghost sa = a@.subrange(i as int, n as int);
    let ghost sb = b@.subrange(i as int, m as int);
    if i == n {
        i < m
    } else if i == m {
        false
    } else {
        assert(sa[0] == a@[i as int] && sb[0] == b@[i as int]);
        a.get_char(i) < b.get_char(i)
    }
}

impl Ranked for MealPlanEntry {
    open spec fn ident(&self) -> int {
        self.id as int
    }

    /// By date, then by identifier.
    open spec fn ranks_before(&self, other: &Self) -> bool {
        if self.date@ != other.date@ {
            text_before(self.date@, other.date@)
        } else {
            self.id < other.id
        }
    }

    fn ranks_before_exec(&self, other: &Self) -> (r: bool) {
        proof {
            lemma_text_order(self.date@, other.date@, other.date@);
        }
        if text_before_exec(self.date.as_str(), other.date.as_str()) {
            true
        } else if text_before_exec(other.date.as_str(), self.date.as_str()) {
            false
        } else {
            self.id < other.id
        }
    }

    proof fn lemma_rank_order(a: &Self, b: &Self, c: &Self) {
        lemma_text_order(a.date@, b.date@, c.date@);
        lemma_text_order(b.date@, c.date@, a.date@);
        lemma_text_order(c.date@, a.date@, b.date@);
        lemma_text_order(a.date@, c.date@, b.date@);
        lemma_text_order(b.date@, a.date@, c.date@);
    }
}

impl Ranked for RecipePhoto {
    open spec fn ident(&self) -> int {
        self.id as int
    }

    /// By upload order, then by identifier.
    open spec fn ranks_before(&self, other: &Self) -> bool {
        photo_before(self@, other@)
    }

    fn ranks_before_exec(&self, other: &Self) -> (r: bool) {
        self.upload_order < other.upload_order || (self.upload_order == other.upload_order
            && self.id < other.id)
    }

    proof fn lemma_rank_order(a: &Self, b: &Self, c: &Self) {
    }
}

/// The values of a sequence of photo records.
pub open spec fn photo_views(s: Seq<RecipePhoto>) -> Seq<PhotoView> {
    s.map_values(|p: RecipePhoto| p@)
}

/// Photo order: by upload order, then by identifier.
pub open spec fn photo_before(a: PhotoView, b: PhotoView) -> bool {
    a.upload_order < b.upload_order || (a.upload_order == b.upload_order && a.id < b.id)
}

/// The largest upload order among the photos of a recipe, or -1 where it
/// has none.
pub open spec fn max_upload_order(photos: Seq<PhotoView>, recipe_id: usize) -> int
    decreases photos.len(),
{
    if photos.len() == 0 {
        -1
    } else {
        let m = max_upload_order(photos.drop_last(), recipe_id);
        let p = photos.last();
        if p.recipe_id == recipe_id && p.upload_order > m {
            p.upload_order as int
        } else {
            m
        }
    }
}

/// Whether a photo stays when the photo `id` is removed, or, with
/// `by_recipe`, when the photos of the recipe `id` are removed.
pub open spec fn photo_kept(p: PhotoView, id: usize, by_recipe: bool) -> bool {
    if by_recipe {
        p.recipe_id != id
    } else {
        p.id != id
    }
}

/// Whether a photo belongs to the recipe `recipe_id`.
pub open spec fn photo_of(p: PhotoView, recipe_id: usize) -> bool {
    p.recipe_id == recipe_id
}

/// Whether a meal falls on a day from `from` up to, not including, `until`
/// (dates written `YYYY-MM-DD` compare as text).
pub open spec fn in_window(e: MealPlanEntry, from: Seq<char>, until: Seq<char>) -> bool {
    !text_before(e.date@, from) && text_before(e.date@, until)
}

} // verus!
