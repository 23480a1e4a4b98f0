//! Ingredients: chosen in forms, collected from the week's recipes, and
//! added to a list as tasks; and the choice of the list on show.
use vstd::prelude::*;
use vstd::string::{StrSliceExecFns, StringExecFns};
use crate::database::{create_task_result, Database};
use crate::forms::split_on;
use crate::todo::List;

verus! {

/// Whether a character is white space in Unicode's sense.
pub uninterp spec fn white_space(c: char) -> bool;

/// Relies on char::is_whitespace: the Unicode White_Space property of the
/// character alone.
#[verifier::external_body]
fn is_white_space(c: char) -> (r: bool)
    ensures
        r == white_space(c),
{
    c.is_whitespace()
}

/// The number of white-space characters that `s` starts with.
pub open spec fn leading_white(s: Seq<char>) -> int
    decreases s.len(),
{
    if s.len() > 0 && white_space(s[0]) {
        1 + leading_white(s.drop_first())
    } else {
        0
    }
}

/// `s` without white space at either end, as `str::trim` gives it.
pub open spec fn trim_spec(s: Seq<char>) -> Seq<char>
    decreases s.len(),
{
    if s.len() > 0 && white_space(s.last()) {
        trim_spec(s.drop_last())
    } else {
        s.subrange(leading_white(s), s.len() as int)
    }
}

proof fn lemma_leading_white(s: Seq<char>, k: int)
    requires
        0 <= k <= s.len(),
        forall|m: int| 0 <= m < k ==> white_space(s[m]),
        k < s.len() ==> !white_space(s[k]),
    ensures
        leading_white(s) == k,
    decreases k,
{
    if k > 0 {
        lemma_leading_white(s.drop_first(), k - 1);
    }
}

proof fn lemma_trim_tail(s: Seq<char>, e: int)
    requires
        0 <= e <= s.len(),
        forall|m: int| e <= m < s.len() ==> white_space(s[m]),
    ensures
        trim_spec(s) == trim_spec(s.subrange(0, e)),
    decreases s.len() - e,
{
    if e < s.len() {
        assert(s.drop_last() =~= s.subrange(0, s.len() - 1));
        lemma_trim_tail(s.drop_last(), e);
        assert(s.drop_last().subrange(0, e) =~= s.subrange(0, e));
    } else {
        assert(s.subrange(0, e) =~= s);
    }
}

/// `s` without white space at either end.
pub fn trim_text(s: &str) -> (r: String)
    ensures
        r@ == trim_spec(s@),
{
    let n = s.unicode_len();
    let mut e: usize = n;
    while e > 0 && is_white_space(s.get_char(e - 1))
        invariant
            n == s@.len(),
            e <= n,
            forall|m: int| e <= m < n ==> white_space(s@[m]),
        decreases e,
    {
        e = e - 1;
    }
    let mut b: usize = 0;
    while b < e && is_white_space(s.get_char(b))
        invariant
            n == s@.len(),
            b <= e <= n,
            forall|m: int| 0 <= m < b ==> white_space(s@[m]),
        decreases e - b,
    {
        b = b + 1;
    }
    proof {
        lemma_trim_tail(s@, e as int);
        let t = s@.subrange(0, e as int);
        assert forall|m: int| 0 <= m < b implies white_space(t[m]) by {}
        lemma_leading_white(t, b as int);
        if e > 0 {
            assert(!white_space(t.last()));
        }
        assert(t.subrange(b as int, e as int) =~= s@.subrange(b as int, e as int));
    }
    String::from_str(s.substring_char(b, e))
}

/// The list on show: the one asked for; else list 3 where it exists; else
/// the first list; else 3.
pub open spec fn selected_list(requested: Option<usize>, lists: Seq<List>) -> usize {
    match requested {
        Some(id) => id,
        None => if exists|i: int| 0 <= i < lists.len() && lists[i].id == 3 {
            3
        } else if lists.len() > 0 {
            lists[0].id
        } else {
            3
        },
    }
}

/// Chooses the list on show.
pub fn determine_selected_list(requested: Option<usize>, lists: &Vec<List>) -> (r: usize)
    ensures
        r == selected_list(requested, lists@),
{
    match requested {
        Some(id) => id,
        None => {
            let mut i: usize = 0;
            while i < lists.len()
                invariant
                    i <= lists@.len(),
                    requested is None,
                    forall|k: int| 0 <= k < i ==> lists@[k].id != 3,
                decreases lists@.len() - i,
            {
                if lists[i].id == 3 {
                    assert(lists@[i as int].id == 3);
                    return 3;
                }
                i = i + 1;
            }
            if lists.len() > 0 {
                lists[0].id
            } else {
                3
            }
        },
    }
}

/// The ingredients taken from lines: each line trimmed, empty ones and
/// repeats left out, in order of first appearance.
pub open spec fn gather(acc: Seq<Seq<char>>, lines: Seq<Seq<char>>) -> Seq<Seq<char>>
    decreases lines.len(),
{
    if lines.len() == 0 {
        acc
    } else {
        let t = trim_spec(lines[0]);
        let acc2 = if t.len() == 0 || acc.contains(t) {
            acc
        } else {
            acc.push(t)
        };
        gather(acc2, lines.drop_first())
    }
}

/// The lines of every recipe's ingredients, recipe after recipe.
pub open spec fn all_lines(texts: Seq<Seq<char>>) -> Seq<Seq<char>>
    decreases texts.len(),
{
    if texts.len() == 0 {
        Seq::empty()
    } else {
        all_lines(texts.drop_last()) + split_on(texts.last(), '\n')
    }
}

proof fn lemma_gather_append(acc: Seq<Seq<char>>, a: Seq<Seq<char>>, b: Seq<Seq<char>>)
    ensures
        gather(acc, a + b) == gather(gather(acc, a), b),
    decreases a.len(),
{
    if a.len() > 0 {
        let t = trim_spec(a[0]);
        let acc2 = if t.len() == 0 || acc.contains(t) {
            acc
        } else {
            acc.push(t)
        };
        assert((a + b).drop_first() =~= a.drop_first() + b);
        lemma_gather_append(acc2, a.drop_first(), b);
    } else {
        assert(a + b =~= b);
    }
}

/// Whether `list` holds a string with the characters `t`.
fn contains_text(list: &Vec<String>, t: &str) -> (r: bool)
    ensures
        r == list@.map_values(|x: String| x@).contains(t@),
{
    let mut i: usize = 0;
    while i < list.len()
        invariant
            i <= list@.len(),
            forall|k: int| 0 <= k < i ==> list@[k]@ != t@,
        decreases list@.len() - i,
    {
        if crate::forms::str_equals(list[i].as_str(), t) {
            assert(list@.map_values(|x: String| x@)[i as int] == t@);
            return true;
        }
        i = i + 1;
    }
    proof {
        let m = list@.map_values(|x: String| x@);
        if m.contains(t@) {
            let k = choose|k: int| 0 <= k < m.len() && m[k] == t@;
            assert(list@[k]@ == t@);
        }
    }
    false
}

/// Takes the lines of one recipe's ingredients into `out`.
fn gather_lines(out: &mut Vec<String>, text: &str)
    ensures
        final(out)@.map_values(|x: String| x@) == gather(
            old(out)@.map_values(|x: String| x@),
            split_on(text@, '\n'),
        ),
{
    let n = text.unicode_len();
    let mut start: usize = 0;
    let mut i: usize = 0;
    let ghost mut done: Seq<Seq<char>> = Seq::empty();
    let ghost acc0 = old(out)@.map_values(|x: String| x@);
    assert(text@.subrange(0, 0) =~= Seq::<char>::empty());
    assert(done.push(text@.subrange(0, 0)) =~= split_on(Seq::<char>::empty(), '\n'));
    while i < n
        invariant
            n == text@.len(),
            start <= i <= n,
            split_on(text@.subrange(0, i as int), '\n') == done.push(
                text@.subrange(start as int, i as int),
            ),
            out@.map_values(|x: String| x@) == gather(acc0, done),
        decreases n - i,
    {
        let ghost next = text@.subrange(0, i + 1);
        assert(next.drop_last() =~= text@.subrange(0, i as int));
        if text.get_char(i) == '\n' {
            let line = text.substring_char(start, i);
            take_line(out, line, Ghost(acc0), Ghost(done));
            proof {
                done = done.push(line@);
                assert(text@.subrange(i + 1, i + 1) =~= Seq::<char>::empty());
            }
            start = i + 1;
        } else {
            proof {
                assert(text@.subrange(start as int, i + 1) =~= text@.subrange(
                    start as int,
                    i as int,
                ).push(text@[i as int]));
                assert(done.push(text@.subrange(start as int, i + 1)) =~= done.push(
                    text@.subrange(start as int, i as int),
                ).update(
                    done.len() as int,
                    text@.subrange(start as int, i as int).push(text@[i as int]),
                ));
            }
        }
        i = i + 1;
    }
    assert(text@.subrange(0, n as int) =~= text@);
    let line = text.substring_char(start, n);
    take_line(out, line, Ghost(acc0), Ghost(done));
}

fn take_line(
    out: &mut Vec<String>,
    line: &str,
    Ghost(acc0): Ghost<Seq<Seq<char>>>,
    Ghost(done): Ghost<Seq<Seq<char>>>,
)
    requires
        old(out)@.map_values(|x: String| x@) == gather(acc0, done),
    ensures
        final(out)@.map_values(|x: String| x@) == gather(acc0, done.push(line@)),
{
    let ghost cur = old(out)@.map_values(|x: String| x@);
    let ghost tt = trim_spec(line@);
    let ghost next = if tt.len() == 0 || cur.contains(tt) {
        cur
    } else {
        cur.push(tt)
    };
    proof {
        lemma_gather_append(acc0, done, seq![line@]);
        assert(done + seq![line@] =~= done.push(line@));
        assert(seq![line@].drop_first() =~= Seq::<Seq<char>>::empty());
        assert(seq![line@][0] == line@);
        assert(gather(cur, seq![line@]) == gather(next, Seq::<Seq<char>>::empty()));
        assert(gather(acc0, done.push(line@)) == next);
    }
    let t = trim_text(line);
    if t.as_str().unicode_len() > 0 && !contains_text(out, t.as_str()) {
        let ghost before = out@;
        out.push(t);
        assert(out@.map_values(|x: String| x@) =~= before.map_values(|x: String| x@).push(
            out@.last()@,
        ));
    }
}

/// The distinct ingredients of the given recipes' ingredient texts, one
/// per line, trimmed, in order of first appearance, without empty lines.
pub fn collect_ingredients(texts: &Vec<String>) -> (r: Vec<String>)
    ensures
        r@.map_values(|x: String| x@) == gather(
            Seq::empty(),
            all_lines(texts@.map_values(|x: String| x@)),
        ),
{
    let mut out: Vec<String> = Vec::new();
    let ghost tv = texts@.map_values(|x: String| x@);
    assert(out@.map_values(|x: String| x@) =~= Seq::<Seq<char>>::empty());
    let mut i: usize = 0;
    while i < texts.len()
        invariant
            i <= texts@.len(),
            tv == texts@.map_values(|x: String| x@),
            out@.map_values(|x: String| x@) == gather(
                Seq::empty(),
                all_lines(tv.subrange(0, i as int)),
            ),
        decreases texts@.len() - i,
    {
        proof {
            let sub = tv.subrange(0, i + 1);
            assert(sub.drop_last() =~= tv.subrange(0, i as int));
            lemma_gather_append(
                Seq::empty(),
                all_lines(tv.subrange(0, i as int)),
                split_on(tv[i as int], '\n'),
            );
        }
        gather_lines(&mut out, texts[i].as_str());
        i = i + 1;
    }
    assert(tv.subrange(0, i as int) =~= tv);
    out
}

/// The texts of `items` trimmed, without those that end up empty.
pub open spec fn nonempty_trimmed(items: Seq<Seq<char>>) -> Seq<Seq<char>>
    decreases items.len(),
{
    if items.len() == 0 {
        Seq::empty()
    } else {
        let r = nonempty_trimmed(items.drop_last());
        let t = trim_spec(items.last());
        if t.len() > 0 {
            r.push(t)
        } else {
            r
        }
    }
}

/// Adds an open task to the list for each ingredient that is not empty once
/// trimmed, with the trimmed text, in order; returns how many were added.
/// All are added unless the store refuses one (no such list, no room for a
/// position or an identifier), and then none after it.
pub fn add_ingredients_to_list(db: &mut Database, list_id: usize, ingredients: &Vec<String>) -> (r:
    usize)
    requires
        old(db).wf(),
    ensures
        final(db).wf(),
        ({
            let wanted = nonempty_trimmed(ingredients@.map_values(|x: String| x@));
            let n = old(db)@.tasks.len();
            &&& r <= wanted.len()
            &&& final(db)@.tasks.len() == n + r
            &&& final(db)@.tasks.subrange(0, n as int) == old(db)@.tasks
            &&& final(db)@.lists == old(db)@.lists
            &&& final(db)@.credentials == old(db)@.credentials
            &&& forall|k: int|
                0 <= k < r ==> {
                    let t = #[trigger] final(db)@.tasks[n + k].task;
                    t.list_id == list_id && !t.completed && t.text@ == wanted[k]
                }
            &&& r < wanted.len() ==> create_task_result(final(db)@, list_id) is Err
            &&& !old(db)@.has_list(list_id) ==> r == 0
        }),
{
    let ghost items = ingredients@.map_values(|x: String| x@);
    let ghost n = db@.tasks.len();
    let mut added: usize = 0;
    let mut i: usize = 0;
    while i < ingredients.len()
        invariant
            i <= ingredients@.len(),
            items == ingredients@.map_values(|x: String| x@),
            n == old(db)@.tasks.len(),
            db.wf(),
            added == nonempty_trimmed(items.subrange(0, i as int)).len(),
            added <= i,
            db@.tasks.len() == n + added,
            db@.tasks.subrange(0, n as int) == old(db)@.tasks,
            db@.lists == old(db)@.lists,
            db@.credentials == old(db)@.credentials,
            forall|k: int|
                0 <= k < added ==> {
                    let t = #[trigger] db@.tasks[n + k].task;
                    t.list_id == list_id && !t.completed && t.text@ == nonempty_trimmed(
                        items.subrange(0, i as int),
                    )[k]
                },
            !old(db)@.has_list(list_id) ==> added == 0,
        decreases ingredients@.len() - i,
    {
        proof {
            assert(items.subrange(0, i + 1).drop_last() =~= items.subrange(0, i as int));
            assert(items.subrange(0, i + 1).last() == ingredients@[i as int]@);
        }
        let t = trim_text(ingredients[i].as_str());
        if t.as_str().unicode_len() > 0 {
            let ghost before = db@;
            let ghost tv = t@;
            match db.create_task(t, list_id) {
                Ok(_) => {
                    added = added + 1;
                    proof {
                        assert(db@.tasks.subrange(0, n as int) =~= before.tasks.subrange(
                            0,
                            n as int,
                        ));
                        assert forall|k: int| 0 <= k < added implies {
                            let t = #[trigger] db@.tasks[n + k].task;
                            t.list_id == list_id && !t.completed && t.text@ == nonempty_trimmed(
                                items.subrange(0, i + 1),
                            )[k]
                        } by {
                            if k < added - 1 {
                                assert(db@.tasks[n + k] == before.tasks[n + k]);
                            }
                        }
                    }
                },
                Err(_) => {
                    proof {
                        lemma_nonempty_trimmed_grows(items, i as int);
                        lemma_nonempty_trimmed_prefix(items, i as int);
                    }
                    return added;
                },
            }
        }
        i = i + 1;
    }
    proof {
        assert(items.subrange(0, i as int) =~= items);
    }
    added
}

proof fn lemma_nonempty_trimmed_prefix(items: Seq<Seq<char>>, i: int)
    requires
        0 <= i <= items.len(),
    ensures
        nonempty_trimmed(items.subrange(0, i)).len() <= nonempty_trimmed(items).len(),
        forall|k: int|
            0 <= k < nonempty_trimmed(items.subrange(0, i)).len() ==> nonempty_trimmed(
                items.subrange(0, i),
            )[k] == nonempty_trimmed(items)[k],
    decreases items.len(),
{
    if i < items.len() {
        lemma_nonempty_trimmed_prefix(items.drop_last(), i);
        assert(items.drop_last().subrange(0, i) =~= items.subrange(0, i));
    } else {
        assert(items.subrange(0, i) =~= items);
    }
}

proof fn lemma_nonempty_trimmed_grows(items: Seq<Seq<char>>, i: int)
    requires
        0 <= i < items.len(),
        trim_spec(items[i]).len() > 0,
    ensures
        nonempty_trimmed(items.subrange(0, i)).len() < nonempty_trimmed(items).len(),
    decreases items.len(),
{
    if i < items.len() - 1 {
        lemma_nonempty_trimmed_grows(items.drop_last(), i);
        assert(items.drop_last().subrange(0, i) =~= items.subrange(0, i));
    } else {
        assert(items.drop_last() =~= items.subrange(0, i));
    }
}

} // verus!
