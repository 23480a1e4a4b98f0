use vstd::prelude::*;
use vstd::string::StringExecFns;
use crate::database::{create_task_result, with_new_task, Database, DbView};

verus! {

/// Where a list's grocery service lives and the key that opens it.
#[derive(Debug)]
pub struct GrocyCredentials {
    pub api_key: String,
    pub url: String,
}

impl Clone for GrocyCredentials {
    fn clone(&self) -> (r: Self)
        ensures
            r == *self,
    {
        GrocyCredentials { api_key: self.api_key.clone(), url: self.url.clone() }
    }
}

/// An item of the service's shopping list. `amount` is the quantity as the
/// service wrote it.
#[derive(Debug)]
pub struct ShoppingListItem {
    pub id: usize,
    pub product_id: usize,
    pub shopping_list_id: usize,
    pub note: String,
    pub amount: String,
    pub done: usize,
    pub quantity_unit_id: usize,
}

/// A unit of quantity of the service.
#[derive(Debug)]
pub struct QuantityUnit {
    pub id: usize,
    pub name: String,
    pub description: String,
    pub name_plural: String,
    pub plural_forms: Option<usize>,
    pub active: usize,
}

/// A product of the service: the fields that an import reads.
#[derive(Debug)]
pub struct Product {
    pub id: usize,
    pub name: String,
}

/// The text of the task that imports an item: `name (amount unit)`.
pub open spec fn item_text(name: Seq<char>, amount: Seq<char>, unit: Seq<char>) -> Seq<char> {
    name + " ("@ + amount + " "@ + unit + ")"@
}

/// Composes the text of the task that imports an item.
pub fn compose_item_text(name: &str, amount: &str, unit: &str) -> (r: String)
    ensures
        r@ == item_text(name@, amount@, unit@),
{
    let mut s = String::from_str(name);
    s.append(" (");
    s.append(amount);
    s.append(" ");
    s.append(unit);
    s.append(")");
    s
}

/// What an import waits for next.
#[derive(Debug, Clone, Copy, PartialEq, Eq, Structural)]
pub enum SyncStage {
    AwaitItems,
    AwaitProduct,
    AwaitUnit,
    AwaitDelete,
    Finished,
}

/// What the program that drives an import does next against the service.
#[derive(Debug)]
pub enum SyncAction {
    /// Read the whole shopping list.
    FetchItems { credentials: GrocyCredentials },
    /// Read the name of a product.
    LookupProduct { product_id: usize },
    /// Read the name of a unit of quantity.
    LookupUnit { unit_id: usize },
    /// Remove an item from the shopping list.
    DeleteItem { item_id: usize },
    /// Nothing more: the import is over.
    Done,
}

/// What the service answered to the last action; `None` and `false` stand
/// for a failed call (an error, a timeout, a response that could not be
/// read).
#[derive(Debug)]
pub enum SyncEvent {
    Items(Option<Vec<ShoppingListItem>>),
    ProductName(Option<String>),
    UnitName(Option<String>),
    Deleted(bool),
}

/// One step of an import: from state `s` and store `v`, on the answer `e`,
/// to state `s2` and store `w`, with the next action `a`.
pub open spec fn step_spec(
    s: Reconciler,
    v: DbView,
    e: SyncEvent,
    s2: Reconciler,
    w: DbView,
    a: SyncAction,
) -> bool {
    match (s.stage, e) {
        (SyncStage::AwaitItems, SyncEvent::Items(Some(items))) => (s2, a) == Reconciler {
            items,
            next: 0,
            ..s
        }.at_item() && w == v,
        (SyncStage::AwaitProduct, SyncEvent::ProductName(Some(name))) => s2 == Reconciler {
            stage: SyncStage::AwaitUnit,
            product_name: name,
            ..s
        } && a == (SyncAction::LookupUnit { unit_id: s.items@[s.next as int].quantity_unit_id })
            && w == v,
        (SyncStage::AwaitProduct, _) => (s2, a) == s.skip_item() && w == v,
        (SyncStage::AwaitUnit, SyncEvent::UnitName(Some(unit))) => {
            let item = s.items@[s.next as int];
            if create_task_result(v, s.list_id) is Ok {
                &&& s2 == Reconciler { stage: SyncStage::AwaitDelete, ..s }
                &&& a == SyncAction::DeleteItem { item_id: item.id }
                &&& exists|t: String|
                    #[trigger] t@ == item_text(s.product_name@, item.amount@, unit@) && w
                        == with_new_task(v, t, s.list_id)
            } else {
                (s2, a) == s.skip_item() && w == v
            }
        },
        (SyncStage::AwaitUnit, _) => (s2, a) == s.skip_item() && w == v,
        (SyncStage::AwaitDelete, _) => (s2, a) == s.skip_item() && w == v,
        (_, _) => s2 == Reconciler { stage: SyncStage::Finished, ..s } && a == SyncAction::Done
            && w == v,
    }
}

/// An import of a list's shopping-list items as tasks. Each item is turned
/// into a task, and only once the task is stored is the item removed from
/// the service: an item that fails half way stays there and comes again at
/// the next import, so an item may be imported twice but is never lost.
#[derive(Debug)]
pub struct Reconciler {
    pub list_id: usize,
    pub items: Vec<ShoppingListItem>,
    /// The index of the item at hand.
    pub next: usize,
    pub stage: SyncStage,
    /// The product name of the item at hand, once known.
    pub product_name: String,
}

impl Reconciler {
    /// Where an item is at hand, it is one of the items.
    pub open spec fn wf(&self) -> bool {
        &&& self.items@.len() <= usize::MAX
        &&& ((self.stage == SyncStage::AwaitProduct || self.stage == SyncStage::AwaitUnit
            || self.stage == SyncStage::AwaitDelete) ==> self.next < self.items@.len())
    }

    /// The import with the item at `self.next` at hand: it asks for the
    /// item's product, or ends after the last item.
    pub open spec fn at_item(self) -> (Reconciler, SyncAction) {
        if self.next < self.items@.len() {
            (
                Reconciler { stage: SyncStage::AwaitProduct, ..self },
                SyncAction::LookupProduct { product_id: self.items@[self.next as int].product_id },
            )
        } else {
            (Reconciler { stage: SyncStage::Finished, ..self }, SyncAction::Done)
        }
    }

    /// The import moved on to the item after the one at hand.
    pub open spec fn skip_item(self) -> (Reconciler, SyncAction) {
        Reconciler { next: (self.next + 1) as usize, ..self }.at_item()
    }

    /// Starts an import for `list_id`: with credentials stored for the list
    /// it asks for the shopping list; without, it is over at once and asks
    /// the service for nothing.
    pub fn start(db: &Database, list_id: usize) -> (r: (Reconciler, SyncAction))
        ensures
            r.0.wf(),
            r.0.list_id == list_id,
            r.0.items@.len() == 0,
            match db.get_grocy_credentials_spec(list_id) {
                Some(c) => r.0.stage == SyncStage::AwaitItems && r.1 == (SyncAction::FetchItems {
                    credentials: c,
                }),
                None => r.0.stage == SyncStage::Finished && r.1 == SyncAction::Done,
            },
    {
        let creds = db.get_grocy_credentials(list_id);
        let state = Reconciler {
            list_id,
            items: Vec::new(),
            next: 0,
            stage: SyncStage::Finished,
            product_name: String::new(),
        };
        match creds {
            Some(c) => (
                Reconciler { stage: SyncStage::AwaitItems, ..state },
                SyncAction::FetchItems { credentials: c },
            ),
            None => (state, SyncAction::Done),
        }
    }

    fn go_to_item(&mut self) -> (a: SyncAction)
        ensures
            (*final(self), a) == old(self).at_item(),
            final(self).items@.len() <= usize::MAX,
    {
        if self.next < self.items.len() {
            self.stage = SyncStage::AwaitProduct;
            SyncAction::LookupProduct { product_id: self.items[self.next].product_id }
        } else {
            self.stage = SyncStage::Finished;
            SyncAction::Done
        }
    }

    fn go_to_next_item(&mut self) -> (a: SyncAction)
        requires
            old(self).next < old(self).items@.len(),
        ensures
            (*final(self), a) == old(self).skip_item(),
    {
        let n = self.items.len();
        assert(self.next < n);
        self.next = self.next + 1;
        self.go_to_item()
    }

    /// Takes the service's answer to the last action, stores a task where an
    /// item is complete, and says what to do next.
    ///
    /// A failed read of the shopping list ends the import; a failed lookup
    /// passes over its item, which stays on the service; an item is removed
    /// from the service only right after its task was stored; a failed
    /// removal leaves the task in place. An answer that does not fit the
    /// stage ends the import.
    pub fn step(&mut self, db: &mut Database, event: SyncEvent) -> (a: SyncAction)
        requires
            old(self).wf(),
            old(db).wf(),
        ensures
            final(self).wf(),
            final(db).wf(),
            final(self).list_id == old(self).list_id,
            step_spec(*old(self), old(db)@, event, *final(self), final(db)@, a),
    {
        match self.stage {
            SyncStage::AwaitItems => match event {
                SyncEvent::Items(Some(items)) => {
                    self.items = items;
                    self.next = 0;
                    self.go_to_item()
                },
                _ => {
                    self.stage = SyncStage::Finished;
                    SyncAction::Done
                },
            },
            SyncStage::AwaitProduct => match event {
                SyncEvent::ProductName(Some(name)) => {
                    self.product_name = name;
                    self.stage = SyncStage::AwaitUnit;
                    SyncAction::LookupUnit { unit_id: self.items[self.next].quantity_unit_id }
                },
                _ => self.go_to_next_item(),
            },
            SyncStage::AwaitUnit => match event {
                SyncEvent::UnitName(Some(unit)) => {
                    let item = &self.items[self.next];
                    let text = compose_item_text(
                        self.product_name.as_str(),
                        item.amount.as_str(),
                        unit.as_str(),
                    );
                    let item_id = item.id;
                    let ghost t = text;
                    match db.create_task(text, self.list_id) {
                        Ok(_) => {
                            self.stage = SyncStage::AwaitDelete;
                            assert(t@ == item_text(
                                self.product_name@,
                                self.items@[self.next as int].amount@,
                                unit@,
                            ));
                            SyncAction::DeleteItem { item_id }
                        },
                        Err(_) => self.go_to_next_item(),
                    }
                },
                _ => self.go_to_next_item(),
            },
            SyncStage::AwaitDelete => self.go_to_next_item(),
            SyncStage::Finished => SyncAction::Done,
        }
    }
}

/// An item is removed from the service only in the step that stored its
/// task: the removal names the item at hand, and the store gained a task of
/// the list with the item's text.
pub proof fn lemma_delete_only_after_store(
    s: Reconciler,
    v: DbView,
    e: SyncEvent,
    s2: Reconciler,
    w: DbView,
    a: SyncAction,
    item_id: usize,
)
    requires
        s.wf(),
        v.wf(),
        step_spec(s, v, e, s2, w, a),
        a == (SyncAction::DeleteItem { item_id }),
    ensures
        s.stage == SyncStage::AwaitUnit,
        item_id == s.items@[s.next as int].id,
        w.tasks.len() == v.tasks.len() + 1,
        w.tasks.last().task.list_id == s.list_id,
        e matches SyncEvent::UnitName(Some(unit)) && w.tasks.last().task.text@ == item_text(
            s.product_name@,
            s.items@[s.next as int].amount@,
            unit@,
        ),
{
    match (s.stage, e) {
        (SyncStage::AwaitUnit, SyncEvent::UnitName(Some(unit))) => {
            if create_task_result(v, s.list_id) is Ok {
                let item = s.items@[s.next as int];
                let t = choose|t: String|
                    #[trigger] t@ == item_text(s.product_name@, item.amount@, unit@) && w
                        == with_new_task(v, t, s.list_id);
            }
        },
        _ => {},
    }
}

/// A failed lookup of an item's product or unit passes over the item: the
/// store does not change, the item is not removed from the service, and
/// the import goes on with the next item.
pub proof fn lemma_failed_lookup_skips_item(
    s: Reconciler,
    v: DbView,
    e: SyncEvent,
    s2: Reconciler,
    w: DbView,
    a: SyncAction,
)
    requires
        s.wf(),
        step_spec(s, v, e, s2, w, a),
        (s.stage == SyncStage::AwaitProduct && e == SyncEvent::ProductName(None)) || (s.stage
            == SyncStage::AwaitUnit && e == SyncEvent::UnitName(None)),
    ensures
        w == v,
        !(a is DeleteItem),
        s2.next == s.next + 1,
        s2.items == s.items,
{
}

/// A failed removal from the service keeps the task that was stored for
/// the item; the import goes on with the next item.
pub proof fn lemma_failed_delete_keeps_task(
    s: Reconciler,
    v: DbView,
    s2: Reconciler,
    w: DbView,
    a: SyncAction,
)
    requires
        s.wf(),
        s.stage == SyncStage::AwaitDelete,
        step_spec(s, v, SyncEvent::Deleted(false), s2, w, a),
    ensures
        w == v,
        s2.next == s.next + 1,
{
}

/// Importing the same item again, as happens when its removal failed,
/// stores a second task: the store then holds two tasks of the list, with
/// different identifiers and the same text.
pub proof fn lemma_reimport_duplicates(v: DbView, t1: String, t2: String, list_id: usize)
    requires
        v.wf(),
        t1@ == t2@,
        create_task_result(v, list_id) is Ok,
        create_task_result(with_new_task(v, t1, list_id), list_id) is Ok,
    ensures
        ({
            let w = with_new_task(with_new_task(v, t1, list_id), t2, list_id);
            let a = w.tasks[v.tasks.len() as int].task;
            let b = w.tasks[v.tasks.len() + 1 as int].task;
            &&& w.tasks.len() == v.tasks.len() + 2
            &&& w.tasks.subrange(0, v.tasks.len() as int) == v.tasks
            &&& a.list_id == list_id && b.list_id == list_id
            &&& a.text@ == b.text@
            &&& a.id != b.id
        }),
{
    let w = with_new_task(with_new_task(v, t1, list_id), t2, list_id);
    assert(w.tasks.subrange(0, v.tasks.len() as int) =~= v.tasks);
}

} // verus!
