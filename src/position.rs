//! Ordering of the tasks of a list: what a reorder does to positions, and
//! the order in which a list's tasks are listed.
use vstd::prelude::*;
use crate::database::{next_stamp, DbError, DbView, TaskRecord};
use crate::todo::Task;

verus! {

/// The last index at which `id` occurs in `order`, or -1 where it does not.
pub open spec fn last_index_of(order: Seq<u64>, id: u64) -> int
    decreases order.len(),
{
    if order.len() == 0 {
        -1
    } else if order.last() == id {
        order.len() - 1
    } else {
        last_index_of(order.drop_last(), id)
    }
}

/// The position a task of the reordered list takes: the last index of its
/// identifier in `order` where it is named there, else its old position
/// moved past the named block.
pub open spec fn reordered_position(t: Task, order: Seq<u64>) -> Option<i32> {
    let j = last_index_of(order, t.id as u64);
    if j >= 0 {
        Some(j as i32)
    } else {
        match t.position {
            Some(p) => Some((p + order.len()) as i32),
            None => None,
        }
    }
}

/// A stored task after its list `list_id` was reordered at stamp `stamp`;
/// the tasks of other lists stay as they are.
pub open spec fn reordered(r: TaskRecord, list_id: usize, order: Seq<u64>, stamp: u64) -> TaskRecord {
    if r.task.list_id == list_id {
        TaskRecord {
            task: Task { position: reordered_position(r.task, order), ..r.task },
            modified: stamp,
        }
    } else {
        r
    }
}

/// Whether the new position of a stored task stays within `i32`.
pub open spec fn row_fits(r: TaskRecord, list_id: usize, order: Seq<u64>) -> bool {
    r.task.list_id == list_id ==> {
        let j = last_index_of(order, r.task.id as u64);
        if j >= 0 {
            j <= i32::MAX
        } else {
            r.task.position matches Some(p) ==> p + order.len() <= i32::MAX
        }
    }
}

/// Whether every new position of a reorder stays within `i32`.
pub open spec fn reorder_fits(v: DbView, list_id: usize, order: Seq<u64>) -> bool {
    forall|i: int| 0 <= i < v.tasks.len() ==> #[trigger] row_fits(v.tasks[i], list_id, order)
}

/// What a reorder answers: success, unless some new position would leave
/// `i32`.
pub open spec fn reorder_result(v: DbView, list_id: usize, order: Seq<u64>) -> Result<(), DbError> {
    if order.len() == 0 || reorder_fits(v, list_id, order) {
        Ok(())
    } else {
        Err(DbError::PositionOverflow)
    }
}

/// The store after a reorder of the list `list_id` by `order`. An empty
/// order, and a reorder that fails, change nothing at all.
pub open spec fn with_reorder(v: DbView, list_id: usize, order: Seq<u64>) -> DbView {
    if order.len() == 0 || !reorder_fits(v, list_id, order) {
        v
    } else {
        let stamp = next_stamp(v.clock);
        DbView {
            tasks: v.tasks.map_values(|r: TaskRecord| reordered(r, list_id, order, stamp)),
            clock: stamp,
            ..v
        }
    }
}

/// Position order: by value, and a task without a position after every
/// task with one.
pub open spec fn position_before(a: Option<i32>, b: Option<i32>) -> bool {
    match (a, b) {
        (Some(p), Some(q)) => p < q,
        (Some(_), None) => true,
        _ => false,
    }
}

/// The order of a listing: by position, then open before done, then the
/// later change first, then by identifier.
pub open spec fn record_before(a: TaskRecord, b: TaskRecord) -> bool {
    if a.task.position != b.task.position {
        position_before(a.task.position, b.task.position)
    } else if a.task.completed != b.task.completed {
        !a.task.completed
    } else if a.modified != b.modified {
        a.modified > b.modified
    } else {
        a.task.id < b.task.id
    }
}

/// `recs` lists the tasks of `list_id`: each stored task of that list once,
/// nothing else, in listing order.
pub open spec fn is_listing(v: DbView, list_id: usize, recs: Seq<TaskRecord>) -> bool {
    &&& forall|i: int, j: int| 0 <= i < j < recs.len() ==> record_before(recs[i], recs[j])
    &&& forall|x: TaskRecord|
        recs.contains(x) <==> (v.tasks.contains(x) && x.task.list_id == list_id)
}

/// The listing order is a strict total order on tasks with distinct
/// identifiers.
pub proof fn lemma_record_order(a: TaskRecord, b: TaskRecord, c: TaskRecord)
    ensures
        !record_before(a, a),
        a.task.id != b.task.id ==> record_before(a, b) || record_before(b, a),
        record_before(a, b) ==> !record_before(b, a),
        record_before(a, b) && record_before(b, c) ==> record_before(a, c),
{
}

/// Two sequences in strict listing order with the same rows are the same
/// sequence.
pub proof fn lemma_sorted_same_rows_equal(a: Seq<TaskRecord>, b: Seq<TaskRecord>)
    requires
        forall|i: int, j: int| 0 <= i < j < a.len() ==> record_before(a[i], a[j]),
        forall|i: int, j: int| 0 <= i < j < b.len() ==> record_before(b[i], b[j]),
        forall|x: TaskRecord| a.contains(x) <==> b.contains(x),
    ensures
        a == b,
    decreases a.len(),
{
    if a.len() == 0 {
        if b.len() > 0 {
            assert(b.contains(b[0]));
        }
        assert(a =~= b);
    } else {
        assert(a.contains(a[0]));
        assert(b.len() > 0);
        assert(b.contains(b[0]));
        let k = choose|k: int| 0 <= k < b.len() && b[k] == a[0];
        let j = choose|j: int| 0 <= j < a.len() && a[j] == b[0];
        if k > 0 {
            lemma_record_order(b[0], b[k], b[0]);
            if j > 0 {
                lemma_record_order(a[0], a[j], a[0]);
            }
            lemma_record_order(b[0], b[0], b[0]);
        }
        assert(a[0] == b[0]);
        let at = a.drop_first();
        let bt = b.drop_first();
        assert forall|x: TaskRecord| at.contains(x) <==> bt.contains(x) by {
            if at.contains(x) {
                let i = choose|i: int| 0 <= i < at.len() && at[i] == x;
                assert(a[i + 1] == x);
                assert(a.contains(x));
                lemma_record_order(a[0], a[i + 1], a[0]);
                let m = choose|m: int| 0 <= m < b.len() && b[m] == x;
                if m == 0 {
                    assert(x == a[0]);
                }
                assert(bt[m - 1] == x);
            }
            if bt.contains(x) {
                let i = choose|i: int| 0 <= i < bt.len() && bt[i] == x;
                assert(b[i + 1] == x);
                assert(b.contains(x));
                lemma_record_order(b[0], b[i + 1], b[0]);
                let m = choose|m: int| 0 <= m < a.len() && a[m] == x;
                if m == 0 {
                    assert(x == b[0]);
                }
                assert(at[m - 1] == x);
            }
        }
        lemma_sorted_same_rows_equal(at, bt);
        assert(a =~= seq![a[0]] + at);
        assert(b =~= seq![b[0]] + bt);
    }
}

/// A list has one listing only, so the tasks that `get_tasks` returns are
/// determined by the store.
pub proof fn lemma_listing_unique(v: DbView, list_id: usize, a: Seq<TaskRecord>, b: Seq<TaskRecord>)
    requires
        is_listing(v, list_id, a),
        is_listing(v, list_id, b),
    ensures
        a == b,
{
    lemma_sorted_same_rows_equal(a, b);
}

/// An identifier that occurs in `order` has a last index there.
pub proof fn lemma_last_index_of(order: Seq<u64>, id: u64)
    ensures
        -1 <= last_index_of(order, id) < order.len(),
        last_index_of(order, id) >= 0 ==> order[last_index_of(order, id)] == id,
        order.contains(id) <==> last_index_of(order, id) >= 0,
    decreases order.len(),
{
    if order.len() > 0 {
        lemma_last_index_of(order.drop_last(), id);
        if order.last() != id {
            if order.contains(id) {
                let k = choose|k: int| 0 <= k < order.len() && order[k] == id;
                assert(order.drop_last()[k] == id);
            }
            if last_index_of(order, id) >= 0 {
                assert(order.drop_last()[last_index_of(order, id)] == id);
            }
        } else {
            assert(order[order.len() - 1] == id);
        }
    }
}

/// After a successful reorder the named tasks of the list come first, in
/// the order in which they are named, each at the last index of its
/// identifier; the unnamed tasks of the list follow in their former
/// relative order; tasks of other lists do not change.
pub proof fn lemma_reorder_places_named_first(v: DbView, list_id: usize, order: Seq<u64>)
    requires
        v.wf(),
        order.len() > 0,
        reorder_fits(v, list_id, order),
    ensures
        ({
            let w = with_reorder(v, list_id, order);
            &&& w.tasks.len() == v.tasks.len()
            &&& forall|i: int|
                0 <= i < v.tasks.len() && v.tasks[i].task.list_id != list_id ==> w.tasks[i]
                    == v.tasks[i]
            &&& forall|i: int|
                0 <= i < v.tasks.len() && v.tasks[i].task.list_id == list_id && order.contains(
                    v.tasks[i].task.id as u64,
                ) ==> w.tasks[i].task.position == Some(
                    last_index_of(order, v.tasks[i].task.id as u64) as i32,
                )
            &&& forall|i: int, j: int|
                0 <= i < v.tasks.len() && 0 <= j < v.tasks.len() && v.tasks[i].task.list_id
                    == list_id && v.tasks[j].task.list_id == list_id && order.contains(
                    v.tasks[i].task.id as u64,
                ) && !order.contains(v.tasks[j].task.id as u64) ==> position_before(
                    w.tasks[i].task.position,
                    w.tasks[j].task.position,
                )
            &&& forall|i: int, j: int|
                0 <= i < v.tasks.len() && 0 <= j < v.tasks.len() && v.tasks[i].task.list_id
                    == list_id && v.tasks[j].task.list_id == list_id && !order.contains(
                    v.tasks[i].task.id as u64,
                ) && !order.contains(v.tasks[j].task.id as u64) ==> (position_before(
                    w.tasks[i].task.position,
                    w.tasks[j].task.position,
                ) <==> position_before(v.tasks[i].task.position, v.tasks[j].task.position))
        }),
{
    let w = with_reorder(v, list_id, order);
    assert forall|i: int| 0 <= i < v.tasks.len() implies #[trigger] w.tasks[i] == reordered(
        v.tasks[i],
        list_id,
        order,
        next_stamp(v.clock),
    ) by {}
    assert forall|i: int| 0 <= i < v.tasks.len() implies -1 <= #[trigger] last_index_of(
        order,
        v.tasks[i].task.id as u64,
    ) < order.len() && (order.contains(v.tasks[i].task.id as u64) <==> last_index_of(
        order,
        v.tasks[i].task.id as u64,
    ) >= 0) by {
        lemma_last_index_of(order, v.tasks[i].task.id as u64);
    }
    assert forall|i: int, j: int|
        0 <= i < v.tasks.len() && 0 <= j < v.tasks.len() && v.tasks[i].task.list_id == list_id
            && v.tasks[j].task.list_id == list_id && !order.contains(v.tasks[i].task.id as u64)
            && !order.contains(v.tasks[j].task.id as u64) implies (position_before(
        #[trigger] w.tasks[i].task.position,
        #[trigger] w.tasks[j].task.position,
    ) <==> position_before(v.tasks[i].task.position, v.tasks[j].task.position)) by {
        assert(row_fits(v.tasks[i], list_id, order));
        assert(row_fits(v.tasks[j], list_id, order));
        assert(w.tasks[i] == reordered(v.tasks[i], list_id, order, next_stamp(v.clock)));
        assert(w.tasks[j] == reordered(v.tasks[j], list_id, order, next_stamp(v.clock)));
    }
    assert forall|i: int, j: int|
        0 <= i < v.tasks.len() && 0 <= j < v.tasks.len() && v.tasks[i].task.list_id == list_id
            && v.tasks[j].task.list_id == list_id && order.contains(v.tasks[i].task.id as u64)
            && !order.contains(v.tasks[j].task.id as u64) implies position_before(
        #[trigger] w.tasks[i].task.position,
        #[trigger] w.tasks[j].task.position,
    ) by {
        assert(row_fits(v.tasks[i], list_id, order));
        assert(row_fits(v.tasks[j], list_id, order));
        assert(w.tasks[i] == reordered(v.tasks[i], list_id, order, next_stamp(v.clock)));
        assert(w.tasks[j] == reordered(v.tasks[j], list_id, order, next_stamp(v.clock)));
        if let Some(p) = v.tasks[j].task.position {
            assert(p >= 0);
        }
    }
}

/// Reordering a list twice by an order that names every task of the list
/// leaves the tasks as reordering it once does.
pub proof fn lemma_reorder_idempotent(v: DbView, list_id: usize, order: Seq<u64>)
    requires
        v.wf(),
        forall|i: int|
            0 <= i < v.tasks.len() && v.tasks[i].task.list_id == list_id ==> order.contains(
                v.tasks[i].task.id as u64,
            ),
    ensures
        ({
            let once = with_reorder(v, list_id, order);
            let twice = with_reorder(once, list_id, order);
            &&& crate::database::task_values(twice) == crate::database::task_values(once)
            &&& twice.lists == once.lists
            &&& twice.credentials == once.credentials
            &&& twice.next_list_id == once.next_list_id
            &&& twice.next_task_id == once.next_task_id
        }),
{
    let once = with_reorder(v, list_id, order);
    if order.len() > 0 && reorder_fits(v, list_id, order) {
        let stamp = next_stamp(v.clock);
        assert forall|i: int| 0 <= i < v.tasks.len() implies #[trigger] once.tasks[i] == reordered(
            v.tasks[i],
            list_id,
            order,
            stamp,
        ) by {}
        assert forall|i: int|
            0 <= i < v.tasks.len() && v.tasks[i].task.list_id == list_id implies last_index_of(
            order,
            #[trigger] v.tasks[i].task.id as u64,
        ) >= 0 by {
            lemma_last_index_of(order, v.tasks[i].task.id as u64);
        }
        assert forall|i: int| 0 <= i < once.tasks.len() implies #[trigger] row_fits(
            once.tasks[i],
            list_id,
            order,
        ) by {
            assert(row_fits(v.tasks[i], list_id, order));
        }
        let twice = with_reorder(once, list_id, order);
        assert(crate::database::task_values(twice) =~= crate::database::task_values(once));
    }
}

/// A reorder whose order names no task of the list moves every task of
/// the list by the length of the order, so keeps their relative order, and
/// leaves every other task as it is, including the tasks it names.
pub proof fn lemma_reorder_foreign_ids(v: DbView, list_id: usize, order: Seq<u64>)
    requires
        v.wf(),
        forall|i: int|
            0 <= i < v.tasks.len() && v.tasks[i].task.list_id == list_id ==> !order.contains(
                v.tasks[i].task.id as u64,
            ),
    ensures
        ({
            let w = with_reorder(v, list_id, order);
            &&& w.tasks.len() == v.tasks.len()
            &&& forall|i: int|
                0 <= i < v.tasks.len() && v.tasks[i].task.list_id != list_id ==> w.tasks[i]
                    == v.tasks[i]
            &&& forall|i: int|
                0 <= i < v.tasks.len() && v.tasks[i].task.list_id == list_id
                    && reorder_fits(v, list_id, order) ==> w.tasks[i].task.position == match v.tasks[i].task.position {
                    Some(p) => Some((p + order.len()) as i32),
                    None => None,
                }
        }),
{
    let w = with_reorder(v, list_id, order);
    if order.len() > 0 && reorder_fits(v, list_id, order) {
        assert forall|i: int| 0 <= i < v.tasks.len() implies #[trigger] w.tasks[i] == reordered(
            v.tasks[i],
            list_id,
            order,
            next_stamp(v.clock),
        ) by {}
        assert forall|i: int|
            0 <= i < v.tasks.len() && v.tasks[i].task.list_id == list_id implies last_index_of(
            order,
            #[trigger] v.tasks[i].task.id as u64,
        ) < 0 by {
            lemma_last_index_of(order, v.tasks[i].task.id as u64);
        }
    }
}

} // verus!
