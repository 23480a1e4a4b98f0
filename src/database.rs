use vstd::prelude::*;
use crate::grocy::GrocyCredentials;
use crate::position::{
    is_listing, last_index_of, lemma_last_index_of, lemma_record_order, record_before, reordered,
    reorder_fits, reorder_result, row_fits, with_reorder,
};
use crate::recipes::{
    in_window, max_upload_order, photo_before, photo_kept, photo_of, photo_views, text_before_exec,
    BookError,
};
use crate::sorting::{rank_sorted, sort_ranked, Ranked};
use crate::todo::{List, MealPlanEntry, PhotoView, Recipe, RecipePhoto, Task};

verus! {

/// A stored task and the stamp of its last change; a larger stamp is a
/// later change.
#[derive(Debug)]
pub struct TaskRecord {
    pub task: Task,
    pub modified: u64,
}

impl Clone for TaskRecord {
    fn clone(&self) -> (r: Self)
        ensures
            r == *self,
    {
        TaskRecord { task: self.task.clone(), modified: self.modified }
    }
}

/// The grocery service configured for one list.
#[derive(Debug)]
pub struct ListCredentials {
    pub list_id: usize,
    pub credentials: GrocyCredentials,
}

impl Clone for ListCredentials {
    fn clone(&self) -> (r: Self)
        ensures
            r == *self,
    {
        ListCredentials { list_id: self.list_id, credentials: self.credentials.clone() }
    }
}

/// Why a store operation did not take place.
#[derive(Debug, Clone, Copy, PartialEq, Eq, Structural)]
pub enum DbError {
    NoSuchList,
    NoSuchTask,
    /// A position would leave the range of `i32`.
    PositionOverflow,
    /// No fresh identifier is left.
    IdsExhausted,
    /// A row with this identifier is already stored.
    IdTaken,
    /// A stored position may not be negative.
    InvalidPosition,
}

/// The tables of the store, as mathematical sequences in the order in which
/// rows were inserted; recipes are kept in the order of their last change,
/// the most recent last.
pub struct DbView {
    pub lists: Seq<List>,
    pub tasks: Seq<TaskRecord>,
    pub credentials: Seq<ListCredentials>,
    pub recipes: Seq<Recipe>,
    pub meals: Seq<MealPlanEntry>,
    pub photos: Seq<PhotoView>,
    pub next_list_id: usize,
    pub next_task_id: usize,
    pub next_recipe_id: usize,
    pub next_meal_id: usize,
    pub next_photo_id: usize,
    pub clock: u64,
}

/// The stamp that follows `c`; it stays at the largest value once there.
pub open spec fn next_stamp(c: u64) -> u64 {
    if c < u64::MAX {
        (c + 1) as u64
    } else {
        c
    }
}

/// Whether one of `lists` has the identifier `id`.
pub open spec fn list_in(lists: Seq<List>, id: usize) -> bool {
    exists|i: int| 0 <= i < lists.len() && lists[i].id == id
}

impl DbView {
    pub open spec fn has_list(self, id: usize) -> bool {
        list_in(self.lists, id)
    }

    pub open spec fn has_task(self, id: usize) -> bool {
        exists|i: int| 0 <= i < self.tasks.len() && self.tasks[i].task.id == id
    }

    pub open spec fn has_recipe(self, id: usize) -> bool {
        exists|i: int| 0 <= i < self.recipes.len() && self.recipes[i].id == id
    }

    pub open spec fn has_meal(self, id: usize) -> bool {
        exists|i: int| 0 <= i < self.meals.len() && self.meals[i].id == id
    }

    /// Identifiers are unique and below the next one to hand out, every task
    /// and every credential belongs to a list, at most one credential per
    /// list, and no position is negative.
    pub open spec fn wf(self) -> bool {
        &&& self.tables_wf()
        &&& self.book_wf()
    }

    /// Recipes, meals and photos: identifiers unique and below the next one
    /// to hand out.
    pub open spec fn book_wf(self) -> bool {
        &&& forall|i: int, j: int|
            0 <= i < j < self.recipes.len() ==> self.recipes[i].id != self.recipes[j].id
        &&& forall|i: int|
            0 <= i < self.recipes.len() ==> #[trigger] self.recipes[i].id < self.next_recipe_id
        &&& forall|i: int, j: int|
            0 <= i < j < self.meals.len() ==> self.meals[i].id != self.meals[j].id
        &&& forall|i: int|
            0 <= i < self.meals.len() ==> #[trigger] self.meals[i].id < self.next_meal_id
        &&& forall|i: int, j: int|
            0 <= i < j < self.photos.len() ==> self.photos[i].id != self.photos[j].id
        &&& forall|i: int|
            0 <= i < self.photos.len() ==> #[trigger] self.photos[i].id < self.next_photo_id
    }

    /// Lists, tasks and credentials.
    pub open spec fn tables_wf(self) -> bool {
        &&& forall|i: int, j: int|
            0 <= i < j < self.lists.len() ==> self.lists[i].id != self.lists[j].id
        &&& forall|i: int| 0 <= i < self.lists.len() ==> self.lists[i].id < self.next_list_id
        &&& forall|i: int, j: int|
            0 <= i < j < self.tasks.len() ==> self.tasks[i].task.id != self.tasks[j].task.id
        &&& forall|i: int|
            0 <= i < self.tasks.len() ==> {
                &&& self.tasks[i].task.id < self.next_task_id
                &&& self.has_list(self.tasks[i].task.list_id)
                &&& (self.tasks[i].task.position matches Some(p) ==> p >= 0)
            }
        &&& forall|i: int, j: int|
            0 <= i < j < self.credentials.len() ==> self.credentials[i].list_id
                != self.credentials[j].list_id
        &&& forall|i: int|
            0 <= i < self.credentials.len() ==> self.has_list(self.credentials[i].list_id)
    }
}

/// The largest position among the tasks of `list_id`, or -1 where none has
/// one.
pub open spec fn max_position(tasks: Seq<TaskRecord>, list_id: usize) -> int
    decreases tasks.len(),
{
    if tasks.len() == 0 {
        -1
    } else {
        let m = max_position(tasks.drop_last(), list_id);
        let t = tasks.last().task;
        if t.list_id == list_id && t.position is Some && t.position.unwrap() > m {
            t.position.unwrap() as int
        } else {
            m
        }
    }
}

/// What `create_task` answers on a store.
pub open spec fn create_task_result(v: DbView, list_id: usize) -> Result<usize, DbError> {
    if !v.has_list(list_id) {
        Err(DbError::NoSuchList)
    } else if v.next_task_id == usize::MAX {
        Err(DbError::IdsExhausted)
    } else if max_position(v.tasks, list_id) + 1 > i32::MAX {
        Err(DbError::PositionOverflow)
    } else {
        Ok(v.next_task_id)
    }
}

/// The store after a task was added to a list: a new, open task placed one
/// past the list's largest position.
pub open spec fn with_new_task(v: DbView, text: String, list_id: usize) -> DbView {
    let stamp = next_stamp(v.clock);
    let task = Task {
        id: v.next_task_id,
        text,
        completed: false,
        list_id,
        position: Some((max_position(v.tasks, list_id) + 1) as i32),
    };
    DbView {
        tasks: v.tasks.push(TaskRecord { task, modified: stamp }),
        next_task_id: (v.next_task_id + 1) as usize,
        clock: stamp,
        ..v
    }
}

/// The row `r` after the task `id` was flipped at stamp `stamp`.
pub open spec fn toggled(r: TaskRecord, id: usize, stamp: u64) -> TaskRecord {
    if r.task.id == id {
        TaskRecord { task: Task { completed: !r.task.completed, ..r.task }, modified: stamp }
    } else {
        r
    }
}

/// The store after the task `id`, if there is one, was flipped between
/// done and open.
pub open spec fn with_task_toggled(v: DbView, id: usize) -> DbView {
    let stamp = next_stamp(v.clock);
    DbView {
        tasks: v.tasks.map_values(|r: TaskRecord| toggled(r, id, stamp)),
        clock: stamp,
        ..v
    }
}

/// The store after the task `id` was removed.
pub open spec fn without_task(v: DbView, id: usize) -> DbView {
    DbView { tasks: v.tasks.filter(|r: TaskRecord| r.task.id != id), ..v }
}

/// The store after a list, its tasks and its credentials were removed.
pub open spec fn without_list(v: DbView, id: usize) -> DbView {
    DbView {
        lists: v.lists.filter(|l: List| l.id != id),
        tasks: v.tasks.filter(|r: TaskRecord| r.task.list_id != id),
        credentials: v.credentials.filter(|c: ListCredentials| c.list_id != id),
        ..v
    }
}

/// Whether credentials count as given: both the address and the key are
/// non-empty.
pub open spec fn credentials_given(c: GrocyCredentials) -> bool {
    c.url@.len() > 0 && c.api_key@.len() > 0
}

/// The store after a list named `name` was added, with its credentials
/// where they are given.
pub open spec fn with_new_list(v: DbView, name: String, creds: Option<GrocyCredentials>) -> DbView {
    let id = v.next_list_id;
    DbView {
        lists: v.lists.push(List { id, name }),
        credentials: match creds {
            Some(c) if credentials_given(c) => v.credentials.push(
                ListCredentials { list_id: id, credentials: c },
            ),
            _ => v.credentials,
        },
        next_list_id: (id + 1) as usize,
        ..v
    }
}

/// The credentials of the first entry for `list_id`, if there is one.
pub open spec fn credentials_of(cs: Seq<ListCredentials>, list_id: usize) -> Option<GrocyCredentials>
    decreases cs.len(),
{
    if cs.len() == 0 {
        None
    } else if cs[0].list_id == list_id {
        Some(cs[0].credentials)
    } else {
        credentials_of(cs.drop_first(), list_id)
    }
}

proof fn lemma_credentials_of(cs: Seq<ListCredentials>, list_id: usize, i: int)
    requires
        0 <= i < cs.len(),
        cs[i].list_id == list_id,
        forall|k: int| 0 <= k < i ==> cs[k].list_id != list_id,
    ensures
        credentials_of(cs, list_id) == Some(cs[i].credentials),
    decreases i,
{
    if i > 0 {
        lemma_credentials_of(cs.drop_first(), list_id, i - 1);
    }
}

proof fn lemma_credentials_of_none(cs: Seq<ListCredentials>, list_id: usize)
    requires
        forall|k: int| 0 <= k < cs.len() ==> cs[k].list_id != list_id,
    ensures
        credentials_of(cs, list_id) is None,
    decreases cs.len(),
{
    if cs.len() > 0 {
        lemma_credentials_of_none(cs.drop_first(), list_id);
    }
}

/// What loading a stored list answers.
pub open spec fn load_list_result(v: DbView, list: List) -> Result<(), DbError> {
    if v.has_list(list.id) {
        Err(DbError::IdTaken)
    } else if list.id == usize::MAX {
        Err(DbError::IdsExhausted)
    } else {
        Ok(())
    }
}

/// The store with a stored list loaded; identifiers handed out later stay
/// above it.
pub open spec fn with_list_loaded(v: DbView, list: List) -> DbView {
    DbView {
        lists: v.lists.push(list),
        next_list_id: if list.id < v.next_list_id {
            v.next_list_id
        } else {
            (list.id + 1) as usize
        },
        ..v
    }
}

/// What loading a stored task answers.
pub open spec fn load_task_result(v: DbView, task: Task) -> Result<(), DbError> {
    if !v.has_list(task.list_id) {
        Err(DbError::NoSuchList)
    } else if v.has_task(task.id) {
        Err(DbError::IdTaken)
    } else if task.id == usize::MAX {
        Err(DbError::IdsExhausted)
    } else if task.position matches Some(p) && p < 0 {
        Err(DbError::InvalidPosition)
    } else {
        Ok(())
    }
}

/// The store with a stored task loaded as it was, stamp included; the
/// clock and the identifiers handed out later stay above it.
pub open spec fn with_task_loaded(v: DbView, task: Task, modified: u64) -> DbView {
    DbView {
        tasks: v.tasks.push(TaskRecord { task, modified }),
        next_task_id: if task.id < v.next_task_id {
            v.next_task_id
        } else {
            (task.id + 1) as usize
        },
        clock: if modified < v.clock {
            v.clock
        } else {
            modified
        },
        ..v
    }
}

/// The store with the credentials of `list_id` set: an entry for the list
/// is replaced, else one is added.
pub open spec fn with_credentials(v: DbView, list_id: usize, c: GrocyCredentials) -> DbView {
    let entry = ListCredentials { list_id, credentials: c };
    DbView {
        credentials: if exists|i: int|
            0 <= i < v.credentials.len() && v.credentials[i].list_id == list_id {
            v.credentials.map_values(
                |e: ListCredentials|
                    if e.list_id == list_id {
                        entry
                    } else {
                        e
                    },
            )
        } else {
            v.credentials.push(entry)
        },
        ..v
    }
}

/// The recipe, meal and photo tables stay well formed where they do not
/// change.
pub proof fn lemma_book_wf_kept(a: DbView, b: DbView)
    requires
        a.book_wf(),
        b.recipes == a.recipes,
        b.meals == a.meals,
        b.photos == a.photos,
        b.next_recipe_id == a.next_recipe_id,
        b.next_meal_id == a.next_meal_id,
        b.next_photo_id == a.next_photo_id,
    ensures
        b.book_wf(),
{
}

/// The tasks of a store with their stamps left out.
pub open spec fn task_values(v: DbView) -> Seq<Task> {
    v.tasks.map_values(|r: TaskRecord| r.task)
}

/// Filtering keeps keys unique, and keeps only rows of the sequence.
pub proof fn lemma_filter_unique<A>(s: Seq<A>, pred: spec_fn(A) -> bool, key: spec_fn(A) -> int)
    requires
        forall|i: int, j: int| 0 <= i < j < s.len() ==> key(s[i]) != key(s[j]),
    ensures
        forall|i: int, j: int|
            0 <= i < j < s.filter(pred).len() ==> key(s.filter(pred)[i]) != key(
                s.filter(pred)[j],
            ),
        forall|x: A| #[trigger] s.filter(pred).contains(x) ==> s.contains(x) && pred(x),
    decreases s.len(),
{
    reveal(Seq::filter);
    broadcast use Seq::lemma_filter_contains_rev, Seq::lemma_filter_pred;

    if s.len() > 0 {
        let d = s.drop_last();
        lemma_filter_unique(d, pred, key);
        let f = s.filter(pred);
        let fd = d.filter(pred);
        assert forall|x: A| f.contains(x) implies s.contains(x) && pred(x) by {
            let k = choose|k: int| 0 <= k < f.len() && f[k] == x;
            assert(pred(f[k]));
        }
        if pred(s.last()) {
            assert forall|i: int, j: int| 0 <= i < j < f.len() implies key(f[i]) != key(f[j]) by {
                if j == f.len() - 1 {
                    assert(fd.contains(f[i]));
                    let k = choose|k: int| 0 <= k < d.len() && d[k] == f[i];
                    assert(s[k] == d[k]);
                }
            }
        }
    }
}

/// The last index of `id` in `order`, if it occurs there.
fn last_index(order: &Vec<u64>, id: u64) -> (r: Option<usize>)
    ensures
        match r {
            Some(j) => j == last_index_of(order@, id),
            None => last_index_of(order@, id) < 0,
        },
{
    let mut found: Option<usize> = None;
    let mut k: usize = 0;
    while k < order.len()
        invariant
            k <= order@.len(),
            match found {
                Some(j) => j == last_index_of(order@.subrange(0, k as int), id),
                None => last_index_of(order@.subrange(0, k as int), id) < 0,
            },
        decreases order@.len() - k,
    {
        assert(order@.subrange(0, k + 1).drop_last() =~= order@.subrange(0, k as int));
        if order[k] == id {
            found = Some(k);
        }
        k = k + 1;
    }
    assert(order@.subrange(0, k as int) =~= order@);
    found
}

/// Whether `a` comes before `b` in a listing.
fn task_record_before(a: &TaskRecord, b: &TaskRecord) -> (r: bool)
    ensures
        r == record_before(*a, *b),
{
    if a.task.position != b.task.position {
        match (a.task.position, b.task.position) {
            (Some(p), Some(q)) => p < q,
            (Some(_), None) => true,
            _ => false,
        }
    } else if a.task.completed != b.task.completed {
        !a.task.completed
    } else if a.modified != b.modified {
        a.modified > b.modified
    } else {
        a.task.id < b.task.id
    }
}

/// The store: lists, their tasks and the lists' grocery credentials.
pub struct Database {
    lists: Vec<List>,
    tasks: Vec<TaskRecord>,
    credentials: Vec<ListCredentials>,
    recipes: Vec<Recipe>,
    meals: Vec<MealPlanEntry>,
    photos: Vec<RecipePhoto>,
    next_list_id: usize,
    next_task_id: usize,
    next_recipe_id: usize,
    next_meal_id: usize,
    next_photo_id: usize,
    clock: u64,
}

impl View for Database {
    type V = DbView;

    closed spec fn view(&self) -> DbView {
        DbView {
            lists: self.lists@,
            tasks: self.tasks@,
            credentials: self.credentials@,
            recipes: self.recipes@,
            meals: self.meals@,
            photos: photo_views(self.photos@),
            next_list_id: self.next_list_id,
            next_task_id: self.next_task_id,
            next_recipe_id: self.next_recipe_id,
            next_meal_id: self.next_meal_id,
            next_photo_id: self.next_photo_id,
            clock: self.clock,
        }
    }
}

impl Database {
    pub open spec fn wf(&self) -> bool {
        self@.wf()
    }

    /// An empty store; the first identifier handed out is 1.
    pub fn new() -> (r: Database)
        ensures
            r.wf(),
            r@.lists.len() == 0,
            r@.tasks.len() == 0,
            r@.credentials.len() == 0,
            r@.recipes.len() == 0,
            r@.meals.len() == 0,
            r@.photos.len() == 0,
            r@.next_list_id == 1,
            r@.next_task_id == 1,
            r@.next_recipe_id == 1,
            r@.next_meal_id == 1,
            r@.next_photo_id == 1,
            r@.clock == 0,
    {
        let r = Database {
            lists: Vec::new(),
            tasks: Vec::new(),
            credentials: Vec::new(),
            recipes: Vec::new(),
            meals: Vec::new(),
            photos: Vec::new(),
            next_list_id: 1,
            next_task_id: 1,
            next_recipe_id: 1,
            next_meal_id: 1,
            next_photo_id: 1,
            clock: 0,
        };
        assert(r@.photos =~= Seq::<PhotoView>::empty());
        r
    }

    fn find_list(&self, id: usize) -> (r: Option<usize>)
        ensures
            match r {
                Some(i) => i < self@.lists.len() && self@.lists[i as int].id == id,
                None => !self@.has_list(id),
            },
    {
        let mut i: usize = 0;
        while i < self.lists.len()
            invariant
                i <= self.lists@.len(),
                forall|k: int| 0 <= k < i ==> self.lists@[k].id != id,
            decreases self.lists@.len() - i,
        {
            if self.lists[i].id == id {
                return Some(i);
            }
            i = i + 1;
        }
        None
    }

    fn find_task(&self, id: usize) -> (r: Option<usize>)
        ensures
            match r {
                Some(i) => i < self@.tasks.len() && self@.tasks[i as int].task.id == id,
                None => !self@.has_task(id),
            },
    {
        let mut i: usize = 0;
        while i < self.tasks.len()
            invariant
                i <= self.tasks@.len(),
                forall|k: int| 0 <= k < i ==> self.tasks@[k].task.id != id,
            decreases self.tasks@.len() - i,
        {
            if self.tasks[i].task.id == id {
                return Some(i);
            }
            i = i + 1;
        }
        None
    }

    /// The list `id`.
    pub fn get_list(&self, id: usize) -> (r: Result<List, DbError>)
        ensures
            match r {
                Ok(l) => exists|i: int|
                    0 <= i < self@.lists.len() && self@.lists[i] == l && l.id == id,
                Err(e) => e == DbError::NoSuchList && !self@.has_list(id),
            },
    {
        match self.find_list(id) {
            Some(i) => Ok(self.lists[i].clone()),
            None => Err(DbError::NoSuchList),
        }
    }

    /// Every list, in the order in which they were created.
    pub fn get_lists(&self) -> (r: Vec<List>)
        ensures
            r@ == self@.lists,
    {
        let mut out: Vec<List> = Vec::new();
        let mut i: usize = 0;
        while i < self.lists.len()
            invariant
                i <= self.lists@.len(),
                out@ == self.lists@.subrange(0, i as int),
            decreases self.lists@.len() - i,
        {
            out.push(self.lists[i].clone());
            i = i + 1;
        }
        assert(out@ =~= self.lists@);
        out
    }

    /// The largest position in the list, or -1 where it has none.
    fn max_position_in(&self, list_id: usize) -> (r: i64)
        ensures
            r == max_position(self@.tasks, list_id),
            -1 <= r <= i32::MAX,
    {
        let mut m: i64 = -1;
        let mut i: usize = 0;
        while i < self.tasks.len()
            invariant
                i <= self.tasks@.len(),
                m == max_position(self.tasks@.subrange(0, i as int), list_id),
                -1 <= m <= i32::MAX,
            decreases self.tasks@.len() - i,
        {
            assert(self.tasks@.subrange(0, i + 1).drop_last() =~= self.tasks@.subrange(0, i as int));
            let t = &self.tasks[i].task;
            if t.list_id == list_id {
                if let Some(p) = t.position {
                    if p as i64 > m {
                        m = p as i64;
                    }
                }
            }
            i = i + 1;
        }
        assert(self.tasks@.subrange(0, i as int) =~= self.tasks@);
        m
    }

    /// Adds an open task to a list, one past the list's largest position
    /// (so at 0 in a list without positions), and returns its identifier.
    pub fn create_task(&mut self, text: String, list_id: usize) -> (r: Result<usize, DbError>)
        requires
            old(self).wf(),
        ensures
            final(self).wf(),
            r == create_task_result(old(self)@, list_id),
            r is Ok ==> final(self)@ == with_new_task(old(self)@, text, list_id),
            r is Err ==> final(self)@ == old(self)@,
    {
        let li = match self.find_list(list_id) {
            Some(li) => li,
            None => return Err(DbError::NoSuchList),
        };
        if self.next_task_id == usize::MAX {
            return Err(DbError::IdsExhausted);
        }
        let m = self.max_position_in(list_id);
        if m + 1 > i32::MAX as i64 {
            return Err(DbError::PositionOverflow);
        }
        let id = self.next_task_id;
        let stamp = if self.clock < u64::MAX { self.clock + 1 } else { self.clock };
        let task = Task { id, text, completed: false, list_id, position: Some((m + 1) as i32) };
        self.tasks.push(TaskRecord { task, modified: stamp });
        self.next_task_id = id + 1;
        self.clock = stamp;
        assert(self@ == with_new_task(old(self)@, text, list_id));
        assert(self@.lists[li as int].id == list_id);
        assert forall|i: int| 0 <= i < self@.tasks.len() implies self@.has_list(
            #[trigger] self@.tasks[i].task.list_id,
        ) by {
            if i < old(self)@.tasks.len() {
                assert(old(self)@.tasks[i] == self@.tasks[i]);
            }
        }
        Ok(id)
    }

    /// Flips the task `id` between done and open; without such a task only
    /// the clock moves.
    pub fn toggle_task_completed(&mut self, id: usize) -> (r: Result<(), DbError>)
        requires
            old(self).wf(),
        ensures
            final(self).wf(),
            r is Ok,
            final(self)@ == with_task_toggled(old(self)@, id),
    {
        let stamp = if self.clock < u64::MAX { self.clock + 1 } else { self.clock };
        let ghost f = |r: TaskRecord| toggled(r, id, stamp);
        let mut out: Vec<TaskRecord> = Vec::new();
        let mut i: usize = 0;
        while i < self.tasks.len()
            invariant
                i <= self.tasks@.len(),
                out@ == self.tasks@.subrange(0, i as int).map_values(f),
                self@ == old(self)@,
                f == (|r: TaskRecord| toggled(r, id, stamp)),
            decreases self.tasks@.len() - i,
        {
            let mut rec = TaskRecord::clone(&self.tasks[i]);
            if rec.task.id == id {
                rec.task.completed = !rec.task.completed;
                rec.modified = stamp;
            }
            assert(rec == f(self.tasks@[i as int]));
            out.push(rec);
            proof {
                assert(self.tasks@.subrange(0, i + 1).map_values(f) =~= self.tasks@.subrange(
                    0,
                    i as int,
                ).map_values(f).push(f(self.tasks@[i as int])));
            }
            i = i + 1;
        }
        assert(self.tasks@.subrange(0, i as int) =~= self.tasks@);
        self.tasks = out;
        self.clock = stamp;
        assert(self@ == with_task_toggled(old(self)@, id));
        assert forall|i: int| 0 <= i < self@.tasks.len() implies (#[trigger] self@.tasks[i]).task.id
            == old(self)@.tasks[i].task.id && self@.tasks[i].task.list_id == old(
            self,
        )@.tasks[i].task.list_id && self@.tasks[i].task.position == old(
            self,
        )@.tasks[i].task.position by {
            assert(self@.tasks[i] == f(old(self)@.tasks[i]));
        }
        Ok(())
    }

    /// Removes the task `id`; without such a task nothing changes.
    pub fn delete_task(&mut self, id: usize) -> (r: Result<(), DbError>)
        requires
            old(self).wf(),
        ensures
            final(self).wf(),
            r is Ok,
            final(self)@ == without_task(old(self)@, id),
    {
        let ghost pred = |r: TaskRecord| r.task.id != id;
        let mut out: Vec<TaskRecord> = Vec::new();
        let mut i: usize = 0;
        while i < self.tasks.len()
            invariant
                i <= self.tasks@.len(),
                out@ == self.tasks@.subrange(0, i as int).filter(pred),
                self@ == old(self)@,
                pred == (|r: TaskRecord| r.task.id != id),
            decreases self.tasks@.len() - i,
        {
            proof {
                assert(self.tasks@.subrange(0, i + 1) =~= self.tasks@.subrange(0, i as int).push(
                    self.tasks@[i as int],
                ));
                self.tasks@.subrange(0, i as int).lemma_filter_push(self.tasks@[i as int], pred);
            }
            if self.tasks[i].task.id != id {
                out.push(self.tasks[i].clone());
            }
            i = i + 1;
        }
        assert(self.tasks@.subrange(0, i as int) =~= self.tasks@);
        self.tasks = out;
        proof {
            lemma_filter_unique(old(self)@.tasks, pred, |r: TaskRecord| r.task.id as int);
            assert forall|i: int| 0 <= i < self@.tasks.len() implies #[trigger] self@.tasks[i].task.id
                < self@.next_task_id && self@.has_list(self@.tasks[i].task.list_id) && (
            self@.tasks[i].task.position matches Some(p) ==> p >= 0) by {
                assert(old(self)@.tasks.filter(pred)[i] == self@.tasks[i]);
                assert(old(self)@.tasks.filter(pred).contains(self@.tasks[i]));
                assert(old(self)@.tasks.contains(self@.tasks[i]));
                let k = choose|k: int|
                    0 <= k < old(self)@.tasks.len() && old(self)@.tasks[k] == self@.tasks[i];
                assert(old(self)@.tasks[k].task.id < old(self)@.next_task_id);
                assert(old(self)@.has_list(old(self)@.tasks[k].task.list_id));
                assert(self@.lists == old(self)@.lists);
            }
        }
        assert(self@ == without_task(old(self)@, id));
        Ok(())
    }

    /// Adds a list named `name` and returns its identifier. Credentials are
    /// stored with it only where both their address and their key are
    /// non-empty.
    pub fn create_list(&mut self, name: String, grocy_credentials: Option<&GrocyCredentials>) -> (r:
        Result<usize, DbError>)
        requires
            old(self).wf(),
        ensures
            final(self).wf(),
            old(self)@.next_list_id == usize::MAX ==> r == Err::<usize, DbError>(
                DbError::IdsExhausted,
            ) && final(self)@ == old(self)@,
            old(self)@.next_list_id < usize::MAX ==> r == Ok::<usize, DbError>(
                old(self)@.next_list_id,
            ) && final(self)@ == with_new_list(
                old(self)@,
                name,
                match grocy_credentials {
                    Some(c) => Some(*c),
                    None => None,
                },
            ),
    {
        if self.next_list_id == usize::MAX {
            return Err(DbError::IdsExhausted);
        }
        let id = self.next_list_id;
        self.lists.push(List { id, name });
        self.next_list_id = id + 1;
        if let Some(gc) = grocy_credentials {
            if !gc.url.as_str().is_empty() && !gc.api_key.as_str().is_empty() {
                self.credentials.push(ListCredentials { list_id: id, credentials: gc.clone() });
            }
        }
        proof {
            let n = self@.lists.len() - 1;
            assert(self@.lists[n].id == id);
            assert forall|i: int| 0 <= i < self@.lists.len() implies #[trigger] self@.lists[i].id
                < self@.next_list_id by {
                if i < n {
                    assert(self@.lists[i] == old(self)@.lists[i]);
                }
            }
            assert forall|i: int, j: int| 0 <= i < j < self@.lists.len() implies self@.lists[i].id
                != self@.lists[j].id by {
                assert(self@.lists[i] == old(self)@.lists[i]);
                if j < n {
                    assert(self@.lists[j] == old(self)@.lists[j]);
                }
            }
            assert forall|x: usize| list_in(old(self)@.lists, x) implies list_in(
                self@.lists,
                x,
            ) by {
                let k = choose|k: int|
                    0 <= k < old(self)@.lists.len() && old(self)@.lists[k].id == x;
                assert(self@.lists[k] == old(self)@.lists[k]);
            }
            let ov = old(self)@;
            assert forall|i: int| 0 <= i < ov.credentials.len() implies #[trigger] ov.credentials[i].list_id
                < id by {
                assert(ov.has_list(ov.credentials[i].list_id));
                let k = choose|k: int|
                    0 <= k < ov.lists.len() && ov.lists[k].id == ov.credentials[i].list_id;
                assert(ov.lists[k].id < ov.next_list_id);
            }
            assert forall|i: int| 0 <= i < self@.credentials.len() implies self@.has_list(
                #[trigger] self@.credentials[i].list_id,
            ) by {
                if i < ov.credentials.len() {
                    assert(self@.credentials[i] == ov.credentials[i]);
                    assert(list_in(ov.lists, ov.credentials[i].list_id));
                }
            }
            assert forall|i: int, j: int| 0 <= i < j < self@.credentials.len() implies self@.credentials[i].list_id
                != self@.credentials[j].list_id by {
                assert(self@.credentials[i] == ov.credentials[i]);
                if j < ov.credentials.len() {
                    assert(self@.credentials[j] == ov.credentials[j]);
                }
            }
            lemma_book_wf_kept(ov, self@);
        }
        Ok(id)
    }

    /// The credentials stored for `list_id`, if any.
    pub open spec fn get_grocy_credentials_spec(&self, list_id: usize) -> Option<GrocyCredentials> {
        credentials_of(self@.credentials, list_id)
    }

    /// The credentials stored for the list `list_id`, if any.
    pub fn get_grocy_credentials(&self, list_id: usize) -> (r: Option<GrocyCredentials>)
        ensures
            r == self.get_grocy_credentials_spec(list_id),
    {
        let mut i: usize = 0;
        while i < self.credentials.len()
            invariant
                i <= self.credentials@.len(),
                forall|k: int| 0 <= k < i ==> self.credentials@[k].list_id != list_id,
            decreases self.credentials@.len() - i,
        {
            if self.credentials[i].list_id == list_id {
                let c = self.credentials[i].credentials.clone();
                proof {
                    lemma_credentials_of(self@.credentials, list_id, i as int);
                }
                return Some(c);
            }
            i = i + 1;
        }
        proof {
            lemma_credentials_of_none(self@.credentials, list_id);
        }
        None
    }

    /// Removes the list `id` together with its tasks and its credentials;
    /// without such a list nothing changes.
    pub fn delete_list(&mut self, id: usize) -> (r: Result<(), DbError>)
        requires
            old(self).wf(),
        ensures
            final(self).wf(),
            r is Ok,
            final(self)@ == without_list(old(self)@, id),
    {
        let ghost lp = |l: List| l.id != id;
        let ghost tp = |r: TaskRecord| r.task.list_id != id;
        let ghost cp = |c: ListCredentials| c.list_id != id;
        let mut lists: Vec<List> = Vec::new();
        let mut i: usize = 0;
        while i < self.lists.len()
            invariant
                i <= self.lists@.len(),
                lists@ == self.lists@.subrange(0, i as int).filter(lp),
                self@ == old(self)@,
                lp == (|l: List| l.id != id),
            decreases self.lists@.len() - i,
        {
            proof {
                assert(self.lists@.subrange(0, i + 1) =~= self.lists@.subrange(0, i as int).push(
                    self.lists@[i as int],
                ));
                self.lists@.subrange(0, i as int).lemma_filter_push(self.lists@[i as int], lp);
            }
            if self.lists[i].id != id {
                lists.push(self.lists[i].clone());
            }
            i = i + 1;
        }
        assert(self.lists@.subrange(0, i as int) =~= self.lists@);
        let mut tasks: Vec<TaskRecord> = Vec::new();
        let mut i: usize = 0;
        while i < self.tasks.len()
            invariant
                i <= self.tasks@.len(),
                tasks@ == self.tasks@.subrange(0, i as int).filter(tp),
                self@ == old(self)@,
                tp == (|r: TaskRecord| r.task.list_id != id),
            decreases self.tasks@.len() - i,
        {
            proof {
                assert(self.tasks@.subrange(0, i + 1) =~= self.tasks@.subrange(0, i as int).push(
                    self.tasks@[i as int],
                ));
                self.tasks@.subrange(0, i as int).lemma_filter_push(self.tasks@[i as int], tp);
            }
            if self.tasks[i].task.list_id != id {
                tasks.push(self.tasks[i].clone());
            }
            i = i + 1;
        }
        assert(self.tasks@.subrange(0, i as int) =~= self.tasks@);
        let mut credentials: Vec<ListCredentials> = Vec::new();
        let mut i: usize = 0;
        while i < self.credentials.len()
            invariant
                i <= self.credentials@.len(),
                credentials@ == self.credentials@.subrange(0, i as int).filter(cp),
                self@ == old(self)@,
                cp == (|c: ListCredentials| c.list_id != id),
            decreases self.credentials@.len() - i,
        {
            proof {
                assert(self.credentials@.subrange(0, i + 1) =~= self.credentials@.subrange(
                    0,
                    i as int,
                ).push(self.credentials@[i as int]));
                self.credentials@.subrange(0, i as int).lemma_filter_push(
                    self.credentials@[i as int],
                    cp,
                );
            }
            if self.credentials[i].list_id != id {
                credentials.push(self.credentials[i].clone());
            }
            i = i + 1;
        }
        assert(self.credentials@.subrange(0, i as int) =~= self.credentials@);
        self.lists = lists;
        self.tasks = tasks;
        self.credentials = credentials;
        proof {
            let ov = old(self)@;
            lemma_filter_unique(ov.lists, lp, |l: List| l.id as int);
            lemma_filter_unique(ov.tasks, tp, |r: TaskRecord| r.task.id as int);
            lemma_filter_unique(ov.credentials, cp, |c: ListCredentials| c.list_id as int);
            assert forall|x: usize| list_in(ov.lists, x) && x != id implies list_in(
                self@.lists,
                x,
            ) by {
                let k = choose|k: int| 0 <= k < ov.lists.len() && ov.lists[k].id == x;
                ov.lists.lemma_filter_contains(lp, k);
                let j = choose|j: int|
                    0 <= j < ov.lists.filter(lp).len() && ov.lists.filter(lp)[j] == ov.lists[k];
                assert(self@.lists[j].id == x);
            }
            assert forall|i: int| 0 <= i < self@.lists.len() implies #[trigger] self@.lists[i].id
                < self@.next_list_id by {
                assert(ov.lists.filter(lp).contains(self@.lists[i]));
                let k = choose|k: int| 0 <= k < ov.lists.len() && ov.lists[k] == self@.lists[i];
                assert(ov.lists[k].id < ov.next_list_id);
            }
            assert forall|i: int| 0 <= i < self@.tasks.len() implies #[trigger] self@.tasks[i].task.id
                < self@.next_task_id && self@.has_list(self@.tasks[i].task.list_id) && (
            self@.tasks[i].task.position matches Some(p) ==> p >= 0) by {
                assert(ov.tasks.filter(tp).contains(self@.tasks[i]));
                let k = choose|k: int| 0 <= k < ov.tasks.len() && ov.tasks[k] == self@.tasks[i];
                assert(ov.has_list(ov.tasks[k].task.list_id));
                assert(ov.tasks[k].task.id < ov.next_task_id);
                assert(tp(ov.tasks[k]));
            }
            assert forall|i: int| 0 <= i < self@.credentials.len() implies self@.has_list(
                #[trigger] self@.credentials[i].list_id,
            ) by {
                assert(ov.credentials.filter(cp).contains(self@.credentials[i]));
                let k = choose|k: int|
                    0 <= k < ov.credentials.len() && ov.credentials[k] == self@.credentials[i];
                assert(ov.has_list(ov.credentials[k].list_id));
                assert(cp(ov.credentials[k]));
            }
        }
        assert(self@ == without_list(old(self)@, id));
        Ok(())
    }

    /// Puts the tasks of `list_id` into the order `order`: the task named at
    /// index `i` takes position `i` (the last index where an identifier
    /// occurs twice), and every other task of the list moves back by the
    /// length of the order. Identifiers of other lists and unknown ones are
    /// passed over. All of it happens, or where a position would leave `i32`
    /// none of it; an empty order changes nothing.
    pub fn reorder(&mut self, list_id: usize, order: Vec<u64>) -> (r: Result<(), DbError>)
        requires
            old(self).wf(),
        ensures
            final(self).wf(),
            r == reorder_result(old(self)@, list_id, order@),
            final(self)@ == with_reorder(old(self)@, list_id, order@),
            order@.len() == 0 ==> r is Ok && final(self)@ == old(self)@,
            r is Err ==> final(self)@ == old(self)@,
    {
        if order.len() == 0 {
            return Ok(());
        }
        let n = order.len();
        let stamp = if self.clock < u64::MAX { self.clock + 1 } else { self.clock };
        let ghost f = |r: TaskRecord| reordered(r, list_id, order@, stamp);
        let mut out: Vec<TaskRecord> = Vec::new();
        let mut i: usize = 0;
        while i < self.tasks.len()
            invariant
                i <= self.tasks@.len(),
                n == order@.len(),
                n > 0,
                out@ == self.tasks@.subrange(0, i as int).map_values(f),
                forall|k: int| 0 <= k < i ==> #[trigger] row_fits(self.tasks@[k], list_id, order@),
                self@ == old(self)@,
                self.wf(),
                f == (|r: TaskRecord| reordered(r, list_id, order@, stamp)),
            decreases self.tasks@.len() - i,
        {
            let rec = &self.tasks[i];
            let new_rec = if rec.task.list_id == list_id {
                proof {
                    lemma_last_index_of(order@, rec.task.id as u64);
                }
                let position = match last_index(&order, rec.task.id as u64) {
                    Some(j) => {
                        if j > i32::MAX as usize {
                            assert(!row_fits(self.tasks@[i as int], list_id, order@));
                            return Err(DbError::PositionOverflow);
                        }
                        Some(j as i32)
                    },
                    None => match rec.task.position {
                        Some(p) => {
                            if n > i32::MAX as usize || p as i64 + n as i64 > i32::MAX as i64 {
                                assert(!row_fits(self.tasks@[i as int], list_id, order@));
                                return Err(DbError::PositionOverflow);
                            }
                            Some((p as i64 + n as i64) as i32)
                        },
                        None => None,
                    },
                };
                let mut task = rec.task.clone();
                task.position = position;
                TaskRecord { task, modified: stamp }
            } else {
                rec.clone()
            };
            assert(new_rec == f(self.tasks@[i as int]));
            out.push(new_rec);
            proof {
                assert(self.tasks@.subrange(0, i + 1).map_values(f) =~= self.tasks@.subrange(
                    0,
                    i as int,
                ).map_values(f).push(f(self.tasks@[i as int])));
            }
            i = i + 1;
        }
        assert(self.tasks@.subrange(0, i as int) =~= self.tasks@);
        assert(reorder_fits(self@, list_id, order@));
        self.tasks = out;
        self.clock = stamp;
        assert(self@ == with_reorder(old(self)@, list_id, order@));
        assert forall|i: int| 0 <= i < self@.tasks.len() implies (#[trigger] self@.tasks[i]).task.id
            == old(self)@.tasks[i].task.id && self@.tasks[i].task.list_id == old(
            self,
        )@.tasks[i].task.list_id && (self@.tasks[i].task.position matches Some(p) ==> p >= 0) by {
            assert(self@.tasks[i] == f(old(self)@.tasks[i]));
            assert(row_fits(old(self)@.tasks[i], list_id, order@));
            lemma_last_index_of(order@, old(self)@.tasks[i].task.id as u64);
        }
        Ok(())
    }

    /// The tasks of the list `list_id`, by position (tasks without one
    /// last), then open before done, then the most recently changed first,
    /// then by identifier.
    pub fn get_tasks(&self, list_id: usize) -> (r: Vec<Task>)
        requires
            self.wf(),
        ensures
            exists|recs: Seq<TaskRecord>|
                #[trigger] is_listing(self@, list_id, recs) && r@ == recs.map_values(
                    |x: TaskRecord| x.task,
                ),
    {
        let mut out: Vec<TaskRecord> = Vec::new();
        let mut i: usize = 0;
        while i < self.tasks.len()
            invariant
                i <= self.tasks@.len(),
                self.wf(),
                forall|a: int, b: int|
                    0 <= a < b < out@.len() ==> record_before(out@[a], out@[b]),
                forall|x: TaskRecord|
                    #[trigger] out@.contains(x) <==> (self.tasks@.subrange(0, i as int).contains(x)
                        && x.task.list_id == list_id),
                forall|a: int, m: int|
                    0 <= a < out@.len() && i <= m < self.tasks@.len() ==> #[trigger] out@[a].task.id
                        != #[trigger] self.tasks@[m].task.id,
            decreases self.tasks@.len() - i,
        {
            let ghost sub = self.tasks@.subrange(0, i as int);
            let ghost next = self.tasks@.subrange(0, i + 1);
            assert(next =~= sub.push(self.tasks@[i as int]));
            if self.tasks[i].task.list_id == list_id {
                let x = self.tasks[i].clone();
                let mut k: usize = 0;
                while k < out.len() && !task_record_before(&x, &out[k])
                    invariant
                        k <= out@.len(),
                        forall|m: int| 0 <= m < k ==> !record_before(x, #[trigger] out@[m]),
                    decreases out@.len() - k,
                {
                    k = k + 1;
                }
                let ghost old_out = out@;
                assert forall|m: int| 0 <= m < k implies record_before(
                    #[trigger] old_out[m],
                    x,
                ) by {
                    lemma_record_order(x, old_out[m], x);
                    assert(old_out[m].task.id != self.tasks@[i as int].task.id);
                }
                out.insert(k, x);
                proof {
                    old_out.insert_ensures(k as int, x);
                    assert forall|a: int, b: int| 0 <= a < b < out@.len() implies record_before(
                        out@[a],
                        out@[b],
                    ) by {
                        if b == k {
                        } else if a == k {
                            lemma_record_order(x, old_out[k as int], old_out[b - 1]);
                        } else if b < k {
                        } else if a < k {
                        } else {
                        }
                    }
                    assert forall|y: TaskRecord| #[trigger] out@.contains(y) <==> (
                    next.contains(y) && y.task.list_id == list_id) by {
                        if out@.contains(y) {
                            let a = choose|a: int| 0 <= a < out@.len() && out@[a] == y;
                            if a == k {
                                assert(next[i as int] == y);
                            } else {
                                if a < k {
                                    assert(old_out.contains(old_out[a]));
                                } else {
                                    assert(old_out.contains(old_out[a - 1]));
                                }
                                assert(sub.contains(y));
                                let c = choose|c: int| 0 <= c < sub.len() && sub[c] == y;
                                assert(next[c] == y);
                            }
                        }
                        if next.contains(y) && y.task.list_id == list_id {
                            let a = choose|a: int| 0 <= a < next.len() && next[a] == y;
                            if a < i {
                                assert(sub.contains(sub[a]));
                                assert(old_out.contains(y));
                                let c = choose|c: int| 0 <= c < old_out.len() && old_out[c] == y;
                                if c < k {
                                    assert(out@[c] == y);
                                } else {
                                    assert(out@[c + 1] == y);
                                }
                            } else {
                                assert(out@[k as int] == y);
                            }
                        }
                    }
                    assert forall|a: int, m: int|
                        0 <= a < out@.len() && i + 1 <= m < self.tasks@.len() implies #[trigger] out@[a].task.id
                        != #[trigger] self.tasks@[m].task.id by {
                        if a < k {
                        } else if a > k {
                            assert(out@[a] == old_out[a - 1]);
                        }
                    }
                }
            } else {
                assert forall|y: TaskRecord| #[trigger] out@.contains(y) <==> (next.contains(y)
                    && y.task.list_id == list_id) by {
                    if next.contains(y) && y.task.list_id == list_id {
                        let a = choose|a: int| 0 <= a < next.len() && next[a] == y;
                        assert(a < i);
                        assert(sub.contains(sub[a]));
                    }
                    if sub.contains(y) {
                        let a = choose|a: int| 0 <= a < sub.len() && sub[a] == y;
                        assert(next[a] == y);
                    }
                }
            }
            i = i + 1;
        }
        assert(self.tasks@.subrange(0, i as int) =~= self.tasks@);
        let mut r: Vec<Task> = Vec::new();
        let mut k: usize = 0;
        while k < out.len()
            invariant
                k <= out@.len(),
                r@ == out@.subrange(0, k as int).map_values(|x: TaskRecord| x.task),
            decreases out@.len() - k,
        {
            r.push(out[k].task.clone());
            assert(out@.subrange(0, k + 1).map_values(|x: TaskRecord| x.task) =~= out@.subrange(
                0,
                k as int,
            ).map_values(|x: TaskRecord| x.task).push(out@[k as int].task));
            k = k + 1;
        }
        assert(out@.subrange(0, k as int) =~= out@);
        assert(is_listing(self@, list_id, out@));
        r
    }

    /// Loads a stored list as it was, keeping its identifier.
    pub fn load_list(&mut self, list: List) -> (r: Result<(), DbError>)
        requires
            old(self).wf(),
        ensures
            final(self).wf(),
            r == load_list_result(old(self)@, list),
            r is Ok ==> final(self)@ == with_list_loaded(old(self)@, list),
            r is Err ==> final(self)@ == old(self)@,
    {
        if self.find_list(list.id).is_some() {
            return Err(DbError::IdTaken);
        }
        if list.id == usize::MAX {
            return Err(DbError::IdsExhausted);
        }
        let ghost l = list;
        if list.id >= self.next_list_id {
            self.next_list_id = list.id + 1;
        }
        self.lists.push(list);
        proof {
            let ov = old(self)@;
            assert forall|x: usize| list_in(ov.lists, x) implies list_in(self@.lists, x) by {
                let k = choose|k: int| 0 <= k < ov.lists.len() && ov.lists[k].id == x;
                assert(self@.lists[k] == ov.lists[k]);
            }
        }
        assert(self@ == with_list_loaded(old(self)@, l));
        Ok(())
    }

    /// Loads a stored task as it was, keeping its identifier and its stamp.
    pub fn load_task(&mut self, task: Task, modified: u64) -> (r: Result<(), DbError>)
        requires
            old(self).wf(),
        ensures
            final(self).wf(),
            r == load_task_result(old(self)@, task),
            r is Ok ==> final(self)@ == with_task_loaded(old(self)@, task, modified),
            r is Err ==> final(self)@ == old(self)@,
    {
        let li = match self.find_list(task.list_id) {
            Some(li) => li,
            None => return Err(DbError::NoSuchList),
        };
        if self.find_task(task.id).is_some() {
            return Err(DbError::IdTaken);
        }
        if task.id == usize::MAX {
            return Err(DbError::IdsExhausted);
        }
        if let Some(p) = task.position {
            if p < 0 {
                return Err(DbError::InvalidPosition);
            }
        }
        let ghost t = task;
        if task.id >= self.next_task_id {
            self.next_task_id = task.id + 1;
        }
        if modified > self.clock {
            self.clock = modified;
        }
        self.tasks.push(TaskRecord { task, modified });
        assert(self@ == with_task_loaded(old(self)@, t, modified));
        assert(self@.lists[li as int].id == t.list_id);
        assert forall|i: int| 0 <= i < self@.tasks.len() implies self@.has_list(
            #[trigger] self@.tasks[i].task.list_id,
        ) by {
            if i < old(self)@.tasks.len() {
                assert(old(self)@.tasks[i] == self@.tasks[i]);
            }
        }
        Ok(())
    }

    /// Sets the credentials of the list `list_id`, replacing any it had.
    pub fn set_grocy_credentials(&mut self, list_id: usize, credentials: GrocyCredentials) -> (r:
        Result<(), DbError>)
        requires
            old(self).wf(),
        ensures
            final(self).wf(),
            !old(self)@.has_list(list_id) ==> r == Err::<(), DbError>(DbError::NoSuchList)
                && final(self)@ == old(self)@,
            old(self)@.has_list(list_id) ==> r is Ok && final(self)@ == with_credentials(
                old(self)@,
                list_id,
                credentials,
            ),
    {
        let li = match self.find_list(list_id) {
            Some(li) => li,
            None => return Err(DbError::NoSuchList),
        };
        let ghost c = credentials;
        let ghost entry = ListCredentials { list_id, credentials: c };
        let ghost f = |e: ListCredentials|
            if e.list_id == list_id {
                entry
            } else {
                e
            };
        let mut i: usize = 0;
        while i < self.credentials.len()
            invariant
                i <= self.credentials@.len(),
                forall|k: int| 0 <= k < i ==> self.credentials@[k].list_id != list_id,
                self@ == old(self)@,
                c == credentials,
                entry == (ListCredentials { list_id, credentials: c }),
                f == (|e: ListCredentials|
                    if e.list_id == list_id {
                        entry
                    } else {
                        e
                    }),
                old(self).wf(),
            decreases self.credentials@.len() - i,
        {
            if self.credentials[i].list_id == list_id {
                self.credentials.set(i, ListCredentials { list_id, credentials });
                proof {
                    let ov = old(self)@;
                    assert forall|k: int| 0 <= k < ov.credentials.len() implies #[trigger] self@.credentials[k]
                        == f(ov.credentials[k]) by {
                        if k != i {
                            assert(ov.credentials[k].list_id != list_id) by {
                                if k > i {
                                    assert(ov.credentials[i as int].list_id != ov.credentials[k].list_id);
                                }
                            }
                        }
                    }
                    assert(self@.credentials =~= ov.credentials.map_values(f));
                    assert(self@ == with_credentials(ov, list_id, c));
                    assert forall|k: int| 0 <= k < self@.credentials.len() implies self@.has_list(
                        #[trigger] self@.credentials[k].list_id,
                    ) by {
                        assert(ov.has_list(ov.credentials[k].list_id));
                    }
                }
                return Ok(());
            }
            i = i + 1;
        }
        self.credentials.push(ListCredentials { list_id, credentials });
        proof {
            let ov = old(self)@;
            assert(!(exists|k: int| 0 <= k < ov.credentials.len() && ov.credentials[k].list_id == list_id));
            assert(self@ == with_credentials(ov, list_id, c));
            assert(self@.lists[li as int].id == list_id);
            assert forall|k: int| 0 <= k < self@.credentials.len() implies self@.has_list(
                #[trigger] self@.credentials[k].list_id,
            ) by {
                if k < ov.credentials.len() {
                    assert(self@.credentials[k] == ov.credentials[k]);
                    assert(ov.has_list(ov.credentials[k].list_id));
                }
            }
        }
        Ok(())
    }

    /// Every stored task with its stamp, in the order in which they were
    /// stored.
    pub fn task_records(&self) -> (r: Vec<TaskRecord>)
        ensures
            r@ == self@.tasks,
    {
        let mut out: Vec<TaskRecord> = Vec::new();
        let mut i: usize = 0;
        while i < self.tasks.len()
            invariant
                i <= self.tasks@.len(),
                out@ == self.tasks@.subrange(0, i as int),
            decreases self.tasks@.len() - i,
        {
            out.push(self.tasks[i].clone());
            i = i + 1;
        }
        assert(out@ =~= self.tasks@);
        out
    }

    /// Every stored credential entry.
    pub fn credential_records(&self) -> (r: Vec<ListCredentials>)
        ensures
            r@ == self@.credentials,
    {
        let mut out: Vec<ListCredentials> = Vec::new();
        let mut i: usize = 0;
        while i < self.credentials.len()
            invariant
                i <= self.credentials@.len(),
                out@ == self.credentials@.subrange(0, i as int),
            decreases self.credentials@.len() - i,
        {
            out.push(self.credentials[i].clone());
            i = i + 1;
        }
        assert(out@ =~= self.credentials@);
        out
    }

    /// The task `id`.
    pub fn get_task(&self, id: usize) -> (r: Result<Task, DbError>)
        ensures
            match r {
                Ok(t) => exists|i: int|
                    0 <= i < self@.tasks.len() && self@.tasks[i].task == t && t.id == id,
                Err(e) => e == DbError::NoSuchTask && !self@.has_task(id),
            },
    {
        match self.find_task(id) {
            Some(i) => Ok(self.tasks[i].task.clone()),
            None => Err(DbError::NoSuchTask),
        }
    }
}

impl Database {
    fn find_recipe(&self, id: usize) -> (r: Option<usize>)
        ensures
            match r {
                Some(i) => i < self@.recipes.len() && self@.recipes[i as int].id == id,
                None => !self@.has_recipe(id),
            },
    {
        let mut i: usize = 0;
        while i < self.recipes.len()
            invariant
                i <= self.recipes@.len(),
                forall|k: int| 0 <= k < i ==> self.recipes@[k].id != id,
            decreases self.recipes@.len() - i,
        {
            if self.recipes[i].id == id {
                return Some(i);
            }
            i = i + 1;
        }
        None
    }

    fn find_meal(&self, id: usize) -> (r: Option<usize>)
        ensures
            match r {
                Some(i) => i < self@.meals.len() && self@.meals[i as int].id == id,
                None => !self@.has_meal(id),
            },
    {
        let mut i: usize = 0;
        while i < self.meals.len()
            invariant
                i <= self.meals@.len(),
                forall|k: int| 0 <= k < i ==> self.meals@[k].id != id,
            decreases self.meals@.len() - i,
        {
            if self.meals[i].id == id {
                return Some(i);
            }
            i = i + 1;
        }
        None
    }

    /// Adds a recipe and returns its identifier.
    pub fn create_recipe(&mut self, title: String, instructions: String, ingredients: String) -> (r:
        Result<usize, BookError>)
        requires
            old(self)@.wf(),
        ensures
            final(self)@.wf(),
            old(self)@.next_recipe_id == usize::MAX ==> r == Err::<usize, BookError>(
                BookError::IdsExhausted,
            ) && final(self)@ == old(self)@,
            old(self)@.next_recipe_id < usize::MAX ==> r == Ok::<usize, BookError>(
                old(self)@.next_recipe_id,
            ) && final(self)@ == (DbView {
                recipes: old(self)@.recipes.push(
                    Recipe { id: old(self)@.next_recipe_id, title, instructions, ingredients },
                ),
                next_recipe_id: (old(self)@.next_recipe_id + 1) as usize,
                ..old(self)@
            }),
    {
        if self.next_recipe_id == usize::MAX {
            return Err(BookError::IdsExhausted);
        }
        let id = self.next_recipe_id;
        self.recipes.push(Recipe { id, title, instructions, ingredients });
        self.next_recipe_id = id + 1;
        Ok(id)
    }

    /// The recipe `id`.
    pub fn get_recipe(&self, id: usize) -> (r: Result<Recipe, BookError>)
        ensures
            match r {
                Ok(x) => exists|i: int|
                    0 <= i < self@.recipes.len() && self@.recipes[i] == x && x.id == id,
                Err(e) => e == BookError::NoSuchRecipe && !self@.has_recipe(id),
            },
    {
        match self.find_recipe(id) {
            Some(i) => Ok(self.recipes[i].clone()),
            None => Err(BookError::NoSuchRecipe),
        }
    }

    /// Every recipe, the most recently changed first.
    pub fn get_recipes(&self) -> (r: Vec<Recipe>)
        ensures
            r@ == self@.recipes.reverse(),
    {
        let mut out: Vec<Recipe> = Vec::new();
        let mut i: usize = self.recipes.len();
        while i > 0
            invariant
                i <= self.recipes@.len(),
                out@ == self.recipes@.subrange(i as int, self.recipes@.len() as int).reverse(),
            decreases i,
        {
            i = i - 1;
            out.push(self.recipes[i].clone());
            assert(self.recipes@.subrange(i as int, self.recipes@.len() as int).reverse() =~= self.recipes@.subrange(
                i + 1,
                self.recipes@.len() as int,
            ).reverse().push(self.recipes@[i as int]));
        }
        assert(self.recipes@.subrange(0, self.recipes@.len() as int) =~= self.recipes@);
        out
    }

    /// Replaces the fields of the recipe `id`, which becomes the most
    /// recently changed; without such a recipe nothing changes.
    pub fn update_recipe(&mut self, id: usize, title: String, instructions: String, ingredients: String) -> (r:
        Result<(), BookError>)
        requires
            old(self)@.wf(),
        ensures
            final(self)@.wf(),
            r is Ok,
            !old(self)@.has_recipe(id) ==> final(self)@ == old(self)@,
            old(self)@.has_recipe(id) ==> final(self)@ == (DbView {
                recipes: old(self)@.recipes.filter(|x: Recipe| x.id != id).push(
                    Recipe { id, title, instructions, ingredients },
                ),
                ..old(self)@
            }),
    {
        match self.find_recipe(id) {
            None => Ok(()),
            Some(i) => {
                let ghost ov = self@;
                self.recipes.remove(i);
                proof {
                    lemma_remove_unique_is_filter(ov.recipes, i as int, id);
                }
                self.recipes.push(Recipe { id, title, instructions, ingredients });
                proof {
                    let rs = self@.recipes;
                    assert forall|a: int| 0 <= a < rs.len() implies #[trigger] rs[a].id
                        < self@.next_recipe_id by {
                        if a < i {
                            assert(rs[a] == ov.recipes[a]);
                        } else if a < rs.len() - 1 {
                            assert(rs[a] == ov.recipes[a + 1]);
                        }
                    }
                    assert forall|a: int, b: int| 0 <= a < b < rs.len() implies rs[a].id
                        != rs[b].id by {
                        let ia = if a < i { a } else { a + 1 };
                        if b == rs.len() - 1 {
                            assert(rs[a] == ov.recipes[ia]);
                        } else {
                            let ib = if b < i { b } else { b + 1 };
                            assert(rs[a] == ov.recipes[ia]);
                            assert(rs[b] == ov.recipes[ib]);
                        }
                    }
                }
                Ok(())
            },
        }
    }

    /// Removes the recipe `id`; without such a recipe nothing changes.
    pub fn delete_recipe(&mut self, id: usize) -> (r: Result<(), BookError>)
        requires
            old(self)@.wf(),
        ensures
            final(self)@.wf(),
            r is Ok,
            !old(self)@.has_recipe(id) ==> final(self)@ == old(self)@,
            old(self)@.has_recipe(id) ==> final(self)@ == (DbView {
                recipes: old(self)@.recipes.filter(|x: Recipe| x.id != id),
                ..old(self)@
            }),
    {
        match self.find_recipe(id) {
            None => Ok(()),
            Some(i) => {
                let ghost ov = self@;
                self.recipes.remove(i);
                proof {
                    lemma_remove_unique_is_filter(ov.recipes, i as int, id);
                    let rs = self@.recipes;
                    assert forall|a: int| 0 <= a < rs.len() implies #[trigger] rs[a].id
                        < self@.next_recipe_id by {
                        if a < i {
                            assert(rs[a] == ov.recipes[a]);
                        } else {
                            assert(rs[a] == ov.recipes[a + 1]);
                        }
                    }
                    assert forall|a: int, b: int| 0 <= a < b < rs.len() implies rs[a].id
                        != rs[b].id by {
                        let ia = if a < i { a } else { a + 1 };
                        let ib = if b < i { b } else { b + 1 };
                        assert(rs[a] == ov.recipes[ia]);
                        assert(rs[b] == ov.recipes[ib]);
                    }
                }
                Ok(())
            },
        }
    }

    /// Adds a meal for `date` and returns its identifier.
    pub fn create_meal_plan_entry(&mut self, date: String, meal_text: String, recipe_id: Option<usize>) -> (r:
        Result<usize, BookError>)
        requires
            old(self)@.wf(),
        ensures
            final(self)@.wf(),
            old(self)@.next_meal_id == usize::MAX ==> r == Err::<usize, BookError>(
                BookError::IdsExhausted,
            ) && final(self)@ == old(self)@,
            old(self)@.next_meal_id < usize::MAX ==> r == Ok::<usize, BookError>(
                old(self)@.next_meal_id,
            ) && final(self)@ == (DbView {
                meals: old(self)@.meals.push(
                    MealPlanEntry { id: old(self)@.next_meal_id, date, meal_text, recipe_id },
                ),
                next_meal_id: (old(self)@.next_meal_id + 1) as usize,
                ..old(self)@
            }),
    {
        if self.next_meal_id == usize::MAX {
            return Err(BookError::IdsExhausted);
        }
        let id = self.next_meal_id;
        self.meals.push(MealPlanEntry { id, date, meal_text, recipe_id });
        self.next_meal_id = id + 1;
        Ok(id)
    }

    /// The meal `id`.
    pub fn get_meal_plan_entry(&self, id: usize) -> (r: Result<MealPlanEntry, BookError>)
        ensures
            match r {
                Ok(x) => exists|i: int|
                    0 <= i < self@.meals.len() && self@.meals[i] == x && x.id == id,
                Err(e) => e == BookError::NoSuchMealPlanEntry && !self@.has_meal(id),
            },
    {
        match self.find_meal(id) {
            Some(i) => Ok(self.meals[i].clone()),
            None => Err(BookError::NoSuchMealPlanEntry),
        }
    }

    /// Replaces the text and the recipe of the meal `id`; without such a
    /// meal nothing changes.
    pub fn update_meal_plan_entry(&mut self, id: usize, meal_text: String, recipe_id: Option<usize>) -> (r:
        Result<(), BookError>)
        requires
            old(self)@.wf(),
        ensures
            final(self)@.wf(),
            r is Ok,
            !old(self)@.has_meal(id) ==> final(self)@ == old(self)@,
            old(self)@.has_meal(id) ==> exists|i: int|
                0 <= i < old(self)@.meals.len() && old(self)@.meals[i].id == id && final(self)@
                    == (DbView {
                    meals: old(self)@.meals.update(
                        i,
                        MealPlanEntry { meal_text, recipe_id, ..old(self)@.meals[i] },
                    ),
                    ..old(self)@
                }),
    {
        match self.find_meal(id) {
            None => Ok(()),
            Some(i) => {
                let ghost ov = self@;
                let date = self.meals[i].date.clone();
                self.meals.set(i, MealPlanEntry { id, date, meal_text, recipe_id });
                proof {
                    let ms = self@.meals;
                    assert forall|a: int| 0 <= a < ms.len() implies #[trigger] ms[a].id
                        == ov.meals[a].id by {}
                    assert(self@ == (DbView {
                        meals: ov.meals.update(
                            i as int,
                            MealPlanEntry { meal_text, recipe_id, ..ov.meals[i as int] },
                        ),
                        ..ov
                    }));
                }
                Ok(())
            },
        }
    }

    /// Removes the meal `id`; without such a meal nothing changes.
    pub fn delete_meal_plan_entry(&mut self, id: usize) -> (r: Result<(), BookError>)
        requires
            old(self)@.wf(),
        ensures
            final(self)@.wf(),
            r is Ok,
            !old(self)@.has_meal(id) ==> final(self)@ == old(self)@,
            old(self)@.has_meal(id) ==> final(self)@ == (DbView {
                meals: old(self)@.meals.filter(|x: MealPlanEntry| x.id != id),
                ..old(self)@
            }),
    {
        match self.find_meal(id) {
            None => Ok(()),
            Some(i) => {
                let ghost ov = self@;
                self.meals.remove(i);
                proof {
                    lemma_remove_unique_meal_is_filter(ov.meals, i as int, id);
                    let ms = self@.meals;
                    assert forall|a: int| 0 <= a < ms.len() implies #[trigger] ms[a].id
                        < self@.next_meal_id by {
                        if a < i {
                            assert(ms[a] == ov.meals[a]);
                        } else {
                            assert(ms[a] == ov.meals[a + 1]);
                        }
                    }
                    assert forall|a: int, b: int| 0 <= a < b < ms.len() implies ms[a].id
                        != ms[b].id by {
                        let ia = if a < i { a } else { a + 1 };
                        let ib = if b < i { b } else { b + 1 };
                        assert(ms[a] == ov.meals[ia]);
                        assert(ms[b] == ov.meals[ib]);
                    }
                }
                Ok(())
            },
        }
    }

    /// Adds a photo record and returns its identifier.
    pub fn create_recipe_photo(
        &mut self,
        recipe_id: usize,
        filename: String,
        original_name: String,
        file_size: i64,
        mime_type: String,
        upload_order: i32,
        thumbnail_blob: Option<Vec<u8>>,
    ) -> (r: Result<usize, BookError>)
        requires
            old(self)@.wf(),
        ensures
            final(self)@.wf(),
            old(self)@.next_photo_id == usize::MAX ==> r == Err::<usize, BookError>(
                BookError::IdsExhausted,
            ) && final(self)@ == old(self)@,
            old(self)@.next_photo_id < usize::MAX ==> r == Ok::<usize, BookError>(
                old(self)@.next_photo_id,
            ) && final(self)@ == (DbView {
                photos: old(self)@.photos.push(
                    (RecipePhoto {
                        id: old(self)@.next_photo_id,
                        recipe_id,
                        filename,
                        original_name,
                        file_size,
                        mime_type,
                        upload_order,
                        thumbnail_blob,
                    })@,
                ),
                next_photo_id: (old(self)@.next_photo_id + 1) as usize,
                ..old(self)@
            }),
    {
        if self.next_photo_id == usize::MAX {
            return Err(BookError::IdsExhausted);
        }
        let id = self.next_photo_id;
        let ghost old_photos = self.photos@;
        let photo = RecipePhoto {
            id,
            recipe_id,
            filename,
            original_name,
            file_size,
            mime_type,
            upload_order,
            thumbnail_blob,
        };
        let ghost pv = photo@;
        self.photos.push(photo);
        self.next_photo_id = id + 1;
        assert(photo_views(self.photos@) =~= photo_views(old_photos).push(pv));
        Ok(id)
    }

    /// The photo `photo_id`, if there is one.
    pub fn get_recipe_photo_by_id(&self, photo_id: usize) -> (r: Option<RecipePhoto>)
        ensures
            match r {
                Some(p) => p.id == photo_id && self@.photos.contains(p@),
                None => forall|i: int| 0 <= i < self@.photos.len() ==> self@.photos[i].id != photo_id,
            },
    {
        let mut i: usize = 0;
        while i < self.photos.len()
            invariant
                i <= self.photos@.len(),
                forall|k: int| 0 <= k < i ==> self.photos@[k].id != photo_id,
            decreases self.photos@.len() - i,
        {
            if self.photos[i].id == photo_id {
                let p = self.photos[i].clone();
                assert(self@.photos[i as int] == p@);
                return Some(p);
            }
            i = i + 1;
        }
        assert forall|k: int| 0 <= k < self@.photos.len() implies self@.photos[k].id != photo_id by {
            assert(self@.photos[k] == self.photos@[k]@);
        }
        None
    }

    /// The upload order for the next photo of a recipe: one past its
    /// largest, or 0 for a recipe without photos.
    pub fn get_next_photo_order(&self, recipe_id: usize) -> (r: Result<i32, BookError>)
        ensures
            max_upload_order(self@.photos, recipe_id) + 1 > i32::MAX ==> r == Err::<i32, BookError>(
                BookError::OrderOverflow,
            ),
            max_upload_order(self@.photos, recipe_id) + 1 <= i32::MAX ==> r == Ok::<i32, BookError>(
                (max_upload_order(self@.photos, recipe_id) + 1) as i32,
            ),
    {
        let mut m: i64 = -1;
        let mut i: usize = 0;
        let ghost views = self@.photos;
        while i < self.photos.len()
            invariant
                i <= self.photos@.len(),
                views == self@.photos,
                views.len() == self.photos@.len(),
                m == max_upload_order(views.subrange(0, i as int), recipe_id),
                -1 <= m <= i32::MAX,
            decreases self.photos@.len() - i,
        {
            assert(views.subrange(0, i + 1).drop_last() =~= views.subrange(0, i as int));
            assert(views[i as int] == self.photos@[i as int]@);
            let p = &self.photos[i];
            if p.recipe_id == recipe_id && p.upload_order as i64 > m {
                m = p.upload_order as i64;
            }
            i = i + 1;
        }
        assert(views.subrange(0, i as int) =~= views);
        if m + 1 > i32::MAX as i64 {
            Err(BookError::OrderOverflow)
        } else {
            Ok((m + 1) as i32)
        }
    }

    /// Removes the photos for which `keep` fails, as a filter over views.
    fn retain_photos(&mut self, id: usize, by_recipe: bool)
        requires
            old(self)@.wf(),
        ensures
            final(self)@.wf(),
            final(self)@ == (DbView {
                photos: old(self)@.photos.filter(|p: PhotoView| photo_kept(p, id, by_recipe)),
                ..old(self)@
            }),
    {
        let ghost keep = |p: PhotoView| photo_kept(p, id, by_recipe);
        let ghost views = self@.photos;
        let mut out: Vec<RecipePhoto> = Vec::new();
        let mut i: usize = 0;
        while i < self.photos.len()
            invariant
                i <= self.photos@.len(),
                views == self@.photos,
                views.len() == self.photos@.len(),
                photo_views(out@) == views.subrange(0, i as int).filter(keep),
                keep == (|p: PhotoView| photo_kept(p, id, by_recipe)),
            decreases self.photos@.len() - i,
        {
            proof {
                assert(views.subrange(0, i + 1) =~= views.subrange(0, i as int).push(views[i as int]));
                views.subrange(0, i as int).lemma_filter_push(views[i as int], keep);
                assert(views[i as int] == self.photos@[i as int]@);
            }
            let p = &self.photos[i];
            let take = if by_recipe {
                p.recipe_id != id
            } else {
                p.id != id
            };
            if take {
                let ghost before = out@;
                let c = p.clone();
                out.push(c);
                assert(photo_views(out@) =~= photo_views(before).push(c@));
            }
            i = i + 1;
        }
        assert(views.subrange(0, i as int) =~= views);
        self.photos = out;
        proof {
            let ov = old(self)@;
            crate::database::lemma_filter_unique(ov.photos, keep, |p: PhotoView| p.id as int);
            assert forall|k: int| 0 <= k < self@.photos.len() implies #[trigger] self@.photos[k].id
                < self@.next_photo_id by {
                assert(ov.photos.filter(keep)[k] == self@.photos[k]);
                assert(ov.photos.filter(keep).contains(self@.photos[k]));
                let j = choose|j: int| 0 <= j < ov.photos.len() && ov.photos[j] == self@.photos[k];
            }
        }
    }

    /// Removes the photo `id`; without such a photo nothing changes.
    pub fn delete_recipe_photo(&mut self, id: usize) -> (r: Result<(), BookError>)
        requires
            old(self)@.wf(),
        ensures
            final(self)@.wf(),
            r is Ok,
            final(self)@ == (DbView {
                photos: old(self)@.photos.filter(|p: PhotoView| photo_kept(p, id, false)),
                ..old(self)@
            }),
    {
        self.retain_photos(id, false);
        Ok(())
    }

    /// Removes every photo of the recipe `recipe_id`.
    pub fn delete_recipe_photos_by_recipe(&mut self, recipe_id: usize) -> (r: Result<(), BookError>)
        requires
            old(self)@.wf(),
        ensures
            final(self)@.wf(),
            r is Ok,
            final(self)@ == (DbView {
                photos: old(self)@.photos.filter(|p: PhotoView| photo_kept(p, recipe_id, true)),
                ..old(self)@
            }),
    {
        self.retain_photos(recipe_id, true);
        Ok(())
    }

    /// The photos of a recipe, by upload order and then by identifier.
    pub fn get_recipe_photos(&self, recipe_id: usize) -> (r: Vec<RecipePhoto>)
        requires
            self@.wf(),
        ensures
            rank_sorted(r@),
            forall|v: PhotoView|
                #[trigger] photo_views(r@).contains(v) <==> (self@.photos.contains(v)
                    && photo_of(v, recipe_id)),
    {
        let ghost views = self@.photos;
        let mut picked: Vec<RecipePhoto> = Vec::new();
        let mut i: usize = 0;
        while i < self.photos.len()
            invariant
                i <= self.photos@.len(),
                views == self@.photos,
                views.len() == self.photos@.len(),
                self@.wf(),
                forall|v: PhotoView|
                    #[trigger] photo_views(picked@).contains(v) <==> (views.subrange(
                        0,
                        i as int,
                    ).contains(v) && photo_of(v, recipe_id)),
                forall|a: int|
                    0 <= a < picked@.len() ==> exists|k: int|
                        0 <= k < i && views[k] == (#[trigger] picked@[a])@,
                forall|a: int, b: int|
                    0 <= a < b < picked@.len() ==> picked@[a].id != picked@[b].id,
            decreases self.photos@.len() - i,
        {
            let ghost sub = views.subrange(0, i as int);
            let ghost next = views.subrange(0, i + 1);
            assert(next =~= sub.push(views[i as int]));
            assert(views[i as int] == self.photos@[i as int]@);
            let p = &self.photos[i];
            let ghost old_picked = picked@;
            if p.recipe_id == recipe_id {
                let c = p.clone();
                picked.push(c);
            }
            proof {
                let pm = photo_views(picked@);
                let om = photo_views(old_picked);
                if self.photos@[i as int].recipe_id == recipe_id {
                    assert(pm =~= om.push(views[i as int]));
                } else {
                    assert(pm =~= om);
                }
                assert forall|a: int, b: int| 0 <= a < b < picked@.len() implies picked@[a].id
                    != picked@[b].id by {
                    if b >= old_picked.len() {
                        assert(picked@[a] == old_picked[a]);
                        let k = choose|k: int| 0 <= k < i && views[k] == old_picked[a]@;
                        assert(picked@[b]@ == views[i as int]);
                    } else {
                        assert(picked@[a] == old_picked[a]);
                        assert(picked@[b] == old_picked[b]);
                    }
                }
                assert forall|a: int| 0 <= a < picked@.len() implies exists|k: int|
                    0 <= k < i + 1 && views[k] == (#[trigger] picked@[a])@ by {
                    if a < old_picked.len() {
                        assert(picked@[a] == old_picked[a]);
                        let k = choose|k: int| 0 <= k < i && views[k] == old_picked[a]@;
                    } else {
                        assert(views[i as int] == picked@[a]@);
                    }
                }
                assert forall|v: PhotoView| pm.contains(v) <==> (next.contains(v) && photo_of(
                    v,
                    recipe_id,
                )) by {
                    if pm.contains(v) {
                        let a = choose|a: int| 0 <= a < pm.len() && pm[a] == v;
                        if a < om.len() {
                            assert(om[a] == v);
                            assert(om.contains(om[a]));
                            assert(sub.contains(v));
                            let k = choose|k: int| 0 <= k < sub.len() && sub[k] == v;
                            assert(next[k] == v);
                        } else {
                            assert(next[i as int] == v);
                        }
                    }
                    if next.contains(v) && photo_of(v, recipe_id) {
                        let k = choose|k: int| 0 <= k < next.len() && next[k] == v;
                        if k < i {
                            assert(sub[k] == v);
                            assert(sub.contains(v));
                            assert(om.contains(v));
                            let a = choose|a: int| 0 <= a < om.len() && om[a] == v;
                            assert(pm[a] == v);
                        } else {
                            assert(pm[pm.len() - 1] == v);
                        }
                    }
                }
            }
            i = i + 1;
        }
        assert(views.subrange(0, i as int) =~= views);
        let ghost before_sort = picked@;
        let r = sort_ranked(picked);
        proof {
            assert forall|v: PhotoView|
                #[trigger] photo_views(r@).contains(v) <==> photo_views(before_sort).contains(v) by {
                let rm = photo_views(r@);
                let bm = photo_views(before_sort);
                if rm.contains(v) {
                    let a = choose|a: int| 0 <= a < rm.len() && rm[a] == v;
                    assert(r@.contains(r@[a]));
                    let b = choose|b: int| 0 <= b < before_sort.len() && before_sort[b] == r@[a];
                    assert(bm[b] == v);
                }
                if bm.contains(v) {
                    let b = choose|b: int| 0 <= b < bm.len() && bm[b] == v;
                    assert(before_sort.contains(before_sort[b]));
                    let a = choose|a: int| 0 <= a < r@.len() && r@[a] == before_sort[b];
                    assert(rm[a] == v);
                }
            }
        }
        r
    }

    /// The first photo of a recipe by upload order, if it has any.
    pub fn get_recipe_first_photo(&self, recipe_id: usize) -> (r: Option<RecipePhoto>)
        requires
            self@.wf(),
        ensures
            match r {
                Some(p) => self@.photos.contains(p@) && photo_of(p@, recipe_id) && forall|v: PhotoView|
                    #[trigger] self@.photos.contains(v) && photo_of(v, recipe_id) && v != p@ ==> photo_before(
                        p@,
                        v,
                    ),
                None => forall|v: PhotoView|
                    self@.photos.contains(v) ==> !photo_of(v, recipe_id),
            },
    {
        let mut all = self.get_recipe_photos(recipe_id);
        if all.len() == 0 {
            proof {
                assert forall|v: PhotoView| self@.photos.contains(v) implies !photo_of(v, recipe_id) by {
                    if photo_of(v, recipe_id) {
                        assert(photo_views(all@).contains(v));
                    }
                }
            }
            return None;
        }
        let ghost sorted = all@;
        let first = all.remove(0);
        proof {
            let sm = photo_views(sorted);
            assert(sm[0] == first@);
            assert(sm.contains(first@));
            assert(self@.photos.contains(first@));
            assert forall|v: PhotoView|
                #[trigger] self@.photos.contains(v) && photo_of(v, recipe_id) && v != first@ implies photo_before(
                first@,
                v,
            ) by {
                assert(sm.contains(v));
                let j = choose|j: int| 0 <= j < sm.len() && sm[j] == v;
                assert(j != 0);
                assert(sorted[0].ranks_before(&sorted[j]));
            }
        }
        Some(first)
    }

    /// Loads a stored recipe as it was, as the most recently changed one.
    pub fn load_recipe(&mut self, recipe: Recipe) -> (r: Result<(), BookError>)
        requires
            old(self)@.wf(),
        ensures
            final(self)@.wf(),
            old(self)@.has_recipe(recipe.id) ==> r == Err::<(), BookError>(BookError::IdTaken)
                && final(self)@ == old(self)@,
            !old(self)@.has_recipe(recipe.id) && recipe.id == usize::MAX ==> r == Err::<
                (),
                BookError,
            >(BookError::IdsExhausted) && final(self)@ == old(self)@,
            !old(self)@.has_recipe(recipe.id) && recipe.id < usize::MAX ==> r is Ok && final(self)@ == (DbView {
                recipes: old(self)@.recipes.push(recipe),
                next_recipe_id: if recipe.id < old(self)@.next_recipe_id {
                    old(self)@.next_recipe_id
                } else {
                    (recipe.id + 1) as usize
                },
                ..old(self)@
            }),
    {
        if self.find_recipe(recipe.id).is_some() {
            return Err(BookError::IdTaken);
        }
        if recipe.id == usize::MAX {
            return Err(BookError::IdsExhausted);
        }
        if recipe.id >= self.next_recipe_id {
            self.next_recipe_id = recipe.id + 1;
        }
        self.recipes.push(recipe);
        Ok(())
    }

    /// Loads a stored meal as it was.
    pub fn load_meal(&mut self, meal: MealPlanEntry) -> (r: Result<(), BookError>)
        requires
            old(self)@.wf(),
        ensures
            final(self)@.wf(),
            old(self)@.has_meal(meal.id) ==> r == Err::<(), BookError>(BookError::IdTaken)
                && final(self)@ == old(self)@,
            !old(self)@.has_meal(meal.id) && meal.id == usize::MAX ==> r == Err::<(), BookError>(
                BookError::IdsExhausted,
            ) && final(self)@ == old(self)@,
            !old(self)@.has_meal(meal.id) && meal.id < usize::MAX ==> r is Ok && final(self)@ == (
            DbView {
                meals: old(self)@.meals.push(meal),
                next_meal_id: if meal.id < old(self)@.next_meal_id {
                    old(self)@.next_meal_id
                } else {
                    (meal.id + 1) as usize
                },
                ..old(self)@
            }),
    {
        if self.find_meal(meal.id).is_some() {
            return Err(BookError::IdTaken);
        }
        if meal.id == usize::MAX {
            return Err(BookError::IdsExhausted);
        }
        if meal.id >= self.next_meal_id {
            self.next_meal_id = meal.id + 1;
        }
        self.meals.push(meal);
        Ok(())
    }

    /// Loads a stored photo record as it was.
    pub fn load_photo(&mut self, photo: RecipePhoto) -> (r: Result<(), BookError>)
        requires
            old(self)@.wf(),
        ensures
            final(self)@.wf(),
            (exists|i: int| 0 <= i < old(self)@.photos.len() && old(self)@.photos[i].id == photo.id)
                ==> r == Err::<(), BookError>(BookError::IdTaken) && final(self)@ == old(self)@,
            r is Ok ==> final(self)@ == (DbView {
                photos: old(self)@.photos.push(photo@),
                next_photo_id: if photo.id < old(self)@.next_photo_id {
                    old(self)@.next_photo_id
                } else {
                    (photo.id + 1) as usize
                },
                ..old(self)@
            }),
            r is Err ==> final(self)@ == old(self)@,
            !(exists|i: int| 0 <= i < old(self)@.photos.len() && old(self)@.photos[i].id == photo.id)
                ==> (r is Ok <==> photo.id < usize::MAX),
    {
        match self.get_recipe_photo_by_id(photo.id) {
            Some(_) => return Err(BookError::IdTaken),
            None => {},
        }
        if photo.id == usize::MAX {
            return Err(BookError::IdsExhausted);
        }
        if photo.id >= self.next_photo_id {
            self.next_photo_id = photo.id + 1;
        }
        let ghost old_photos = self.photos@;
        let ghost pv = photo@;
        self.photos.push(photo);
        assert(photo_views(self.photos@) =~= photo_views(old_photos).push(pv));
        Ok(())
    }

    /// Every meal, in the order in which they were stored.
    pub fn all_meals(&self) -> (r: Vec<MealPlanEntry>)
        ensures
            r@ == self@.meals,
    {
        let mut out: Vec<MealPlanEntry> = Vec::new();
        let mut i: usize = 0;
        while i < self.meals.len()
            invariant
                i <= self.meals@.len(),
                out@ == self.meals@.subrange(0, i as int),
            decreases self.meals@.len() - i,
        {
            out.push(self.meals[i].clone());
            i = i + 1;
        }
        assert(out@ =~= self.meals@);
        out
    }

    /// Every photo record, in the order in which they were stored.
    pub fn all_photos(&self) -> (r: Vec<RecipePhoto>)
        ensures
            photo_views(r@) == self@.photos,
    {
        let mut out: Vec<RecipePhoto> = Vec::new();
        let mut i: usize = 0;
        while i < self.photos.len()
            invariant
                i <= self.photos@.len(),
                photo_views(out@) == photo_views(self.photos@.subrange(0, i as int)),
            decreases self.photos@.len() - i,
        {
            let ghost before = out@;
            let c = self.photos[i].clone();
            out.push(c);
            assert(photo_views(out@) =~= photo_views(before).push(c@));
            assert(photo_views(self.photos@.subrange(0, i + 1)) =~= photo_views(
                self.photos@.subrange(0, i as int),
            ).push(self.photos@[i as int]@));
            i = i + 1;
        }
        assert(self.photos@.subrange(0, i as int) =~= self.photos@);
        out
    }

    /// The meals planned from `from` up to, not including, `until`, by date
    /// and then in the order in which they were planned.
    pub fn get_meal_plan_between(&self, from: &str, until: &str) -> (r: Vec<MealPlanEntry>)
        requires
            self@.wf(),
        ensures
            rank_sorted(r@),
            forall|x: MealPlanEntry|
                r@.contains(x) <==> (self@.meals.contains(x) && in_window(x, from@, until@)),
    {
        let mut picked: Vec<MealPlanEntry> = Vec::new();
        let mut i: usize = 0;
        while i < self.meals.len()
            invariant
                i <= self.meals@.len(),
                self@.wf(),
                forall|x: MealPlanEntry|
                    picked@.contains(x) <==> (self.meals@.subrange(0, i as int).contains(x)
                        && in_window(x, from@, until@)),
                forall|a: int|
                    0 <= a < picked@.len() ==> exists|k: int|
                        0 <= k < i && self.meals@[k] == #[trigger] picked@[a],
                forall|a: int, b: int|
                    0 <= a < b < picked@.len() ==> picked@[a].id != picked@[b].id,
            decreases self.meals@.len() - i,
        {
            let e = &self.meals[i];
            let ghost sub = self.meals@.subrange(0, i as int);
            let ghost next = self.meals@.subrange(0, i + 1);
            assert(next =~= sub.push(self.meals@[i as int]));
            if !text_before_exec(e.date.as_str(), from) && text_before_exec(e.date.as_str(), until) {
                let ghost old_picked = picked@;
                let c = e.clone();
                assert(c == self.meals@[i as int]);
                assert(in_window(c, from@, until@));
                picked.push(c);
                proof {
                    assert forall|a: int, b: int| 0 <= a < b < picked@.len() implies picked@[a].id
                        != picked@[b].id by {
                        if b == picked@.len() - 1 {
                            let k = choose|k: int| 0 <= k < i && self.meals@[k] == old_picked[a];
                            assert(picked@[a] == old_picked[a]);
                        }
                    }
                    assert forall|a: int| 0 <= a < picked@.len() implies exists|k: int|
                        0 <= k < i + 1 && self.meals@[k] == #[trigger] picked@[a] by {
                        if a < old_picked.len() {
                            assert(picked@[a] == old_picked[a]);
                            let k = choose|k: int| 0 <= k < i && self.meals@[k] == old_picked[a];
                        } else {
                            assert(self.meals@[i as int] == picked@[a]);
                        }
                    }
                    assert forall|x: MealPlanEntry| picked@.contains(x) <==> (next.contains(x)
                        && in_window(x, from@, until@)) by {
                        if picked@.contains(x) {
                            let a = choose|a: int| 0 <= a < picked@.len() && picked@[a] == x;
                            if a < old_picked.len() {
                                assert(old_picked.contains(old_picked[a]));
                                let k = choose|k: int| 0 <= k < sub.len() && sub[k] == x;
                                assert(next[k] == x);
                            } else {
                                assert(next[i as int] == x);
                            }
                        }
                        if next.contains(x) && in_window(x, from@, until@) {
                            let k = choose|k: int| 0 <= k < next.len() && next[k] == x;
                            if k < i {
                                assert(sub[k] == x);
                                assert(sub.contains(x));
                                assert(old_picked.contains(x));
                                let a = choose|a: int|
                                    0 <= a < old_picked.len() && old_picked[a] == x;
                                assert(picked@[a] == x);
                            } else {
                                assert(picked@[picked@.len() - 1] == x);
                            }
                        }
                    }
                }
            } else {
                proof {
                    assert forall|x: MealPlanEntry| picked@.contains(x) <==> (next.contains(x)
                        && in_window(x, from@, until@)) by {
                        if picked@.contains(x) {
                            let k = choose|k: int| 0 <= k < sub.len() && sub[k] == x;
                            assert(next[k] == x);
                        }
                        if next.contains(x) && in_window(x, from@, until@) {
                            let k = choose|k: int| 0 <= k < next.len() && next[k] == x;
                            if k < i {
                                assert(sub[k] == x);
                            }
                        }
                    }
                }
            }
            i = i + 1;
        }
        assert(self.meals@.subrange(0, i as int) =~= self.meals@);
        sort_ranked(picked)
    }
}

/// Removing the one row with identifier `id` is filtering it out.
proof fn lemma_remove_unique_is_filter(s: Seq<Recipe>, i: int, id: usize)
    requires
        0 <= i < s.len(),
        s[i].id == id,
        forall|a: int, b: int| 0 <= a < b < s.len() ==> s[a].id != s[b].id,
    ensures
        s.remove(i) == s.filter(|x: Recipe| x.id != id),
    decreases s.len(),
{
    let pred = |x: Recipe| x.id != id;
    reveal(Seq::filter);
    if i == s.len() - 1 {
        lemma_none_removed(s.drop_last(), id);
        assert(s.remove(i) =~= s.drop_last());
    } else {
        lemma_remove_unique_is_filter(s.drop_last(), i, id);
        assert(s.remove(i) =~= s.drop_last().remove(i).push(s.last()));
    }
}

proof fn lemma_none_removed(s: Seq<Recipe>, id: usize)
    requires
        forall|a: int| 0 <= a < s.len() ==> s[a].id != id,
    ensures
        s.filter(|x: Recipe| x.id != id) == s,
    decreases s.len(),
{
    reveal(Seq::filter);
    if s.len() > 0 {
        lemma_none_removed(s.drop_last(), id);
        assert(s.drop_last().push(s.last()) =~= s);
    }
}

/// Removing the one meal with identifier `id` is filtering it out.
proof fn lemma_remove_unique_meal_is_filter(s: Seq<MealPlanEntry>, i: int, id: usize)
    requires
        0 <= i < s.len(),
        s[i].id == id,
        forall|a: int, b: int| 0 <= a < b < s.len() ==> s[a].id != s[b].id,
    ensures
        s.remove(i) == s.filter(|x: MealPlanEntry| x.id != id),
    decreases s.len(),
{
    reveal(Seq::filter);
    if i == s.len() - 1 {
        lemma_no_meal_removed(s.drop_last(), id);
        assert(s.remove(i) =~= s.drop_last());
    } else {
        lemma_remove_unique_meal_is_filter(s.drop_last(), i, id);
        assert(s.remove(i) =~= s.drop_last().remove(i).push(s.last()));
    }
}

proof fn lemma_no_meal_removed(s: Seq<MealPlanEntry>, id: usize)
    requires
        forall|a: int| 0 <= a < s.len() ==> s[a].id != id,
    ensures
        s.filter(|x: MealPlanEntry| x.id != id) == s,
    decreases s.len(),
{
    reveal(Seq::filter);
    if s.len() > 0 {
        lemma_no_meal_removed(s.drop_last(), id);
        assert(s.drop_last().push(s.last()) =~= s);
    }
}

} // verus!
