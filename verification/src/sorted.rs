//! A task list kept strictly ascending by name, where a name occurs once.

use crate::config::{task_views, Task, TaskView};
use crate::text::{
    lemma_lex_asymmetric, lemma_lex_irreflexive, lemma_lex_total, lemma_lex_transitive, lex_lt,
    str_lt,
};
use vstd::prelude::*;

verus! {

/// Each task's name comes strictly before the next one's.
pub open spec fn ascending(tasks: Seq<TaskView>) -> bool {
    forall|i: int, j: int|
        #![trigger tasks[i], tasks[j]]
        0 <= i < j < tasks.len() ==> lex_lt(tasks[i].name, tasks[j].name)
}

/// Whether a task's name comes before `name`.
pub open spec fn sorts_before(name: Seq<char>) -> spec_fn(TaskView) -> bool {
    |t: TaskView| lex_lt(t.name, name)
}

/// Whether a task's name comes after `name`.
pub open spec fn sorts_after(name: Seq<char>) -> spec_fn(TaskView) -> bool {
    |t: TaskView| lex_lt(name, t.name)
}

/// Whether a task has another name than `name`.
pub open spec fn named_otherwise(name: Seq<char>) -> spec_fn(TaskView) -> bool {
    |t: TaskView| t.name != name
}

/// `tasks` with `task` put where its name belongs: the tasks whose names
/// come before its name, then the task, then the tasks whose names come
/// after. A task that had the same name gives way to it.
pub open spec fn with_task(tasks: Seq<TaskView>, task: TaskView) -> Seq<TaskView> {
    tasks.filter(sorts_before(task.name)) + seq![task] + tasks.filter(sorts_after(task.name))
}

/// `tasks` without those named `name`.
pub open spec fn without_name(tasks: Seq<TaskView>, name: Seq<char>) -> Seq<TaskView> {
    tasks.filter(named_otherwise(name))
}

/// Where a task named `name` belongs in `tasks`: behind the tasks whose names
/// come before it.
pub open spec fn slot(tasks: Seq<TaskView>, name: Seq<char>, i: int) -> bool {
    &&& 0 <= i <= tasks.len()
    &&& forall|j: int| 0 <= j < i ==> lex_lt(#[trigger] tasks[j].name, name)
    &&& i < tasks.len() ==> !lex_lt(tasks[i].name, name)
}

/// The number of leading tasks whose names come before `name`.
pub open spec fn rank(tasks: Seq<TaskView>, name: Seq<char>) -> int
    decreases tasks.len(),
{
    if tasks.len() == 0 || !lex_lt(tasks[0].name, name) {
        0
    } else {
        1 + rank(tasks.skip(1), name)
    }
}

/// The rank of a name is its slot.
pub proof fn lemma_rank_is_slot(tasks: Seq<TaskView>, name: Seq<char>)
    ensures
        slot(tasks, name, rank(tasks, name)),
    decreases tasks.len(),
{
    if tasks.len() > 0 && lex_lt(tasks[0].name, name) {
        let rest = tasks.skip(1);
        lemma_rank_is_slot(rest, name);
        let i = rank(tasks, name);
        assert forall|j: int| 0 <= j < i implies lex_lt(#[trigger] tasks[j].name, name) by {
            if j > 0 {
                assert(tasks[j] == rest[j - 1]);
            }
        }
        if i < tasks.len() {
            assert(tasks[i] == rest[i - 1]);
        }
    }
}

/// A filter keeps a sequence whole where every element passes.
proof fn lemma_filter_keeps(tasks: Seq<TaskView>, pass: spec_fn(TaskView) -> bool)
    requires
        forall|j: int| 0 <= j < tasks.len() ==> pass(#[trigger] tasks[j]),
    ensures
        tasks.filter(pass) == tasks,
    decreases tasks.len(),
{
    reveal(Seq::filter);
    if tasks.len() > 0 {
        let front = tasks.drop_last();
        assert forall|j: int| 0 <= j < front.len() implies pass(#[trigger] front[j]) by {
            assert(front[j] == tasks[j]);
        }
        lemma_filter_keeps(front, pass);
        assert(front.push(tasks.last()) =~= tasks);
    }
}

/// A filter leaves nothing where no element passes.
proof fn lemma_filter_drops(tasks: Seq<TaskView>, pass: spec_fn(TaskView) -> bool)
    requires
        forall|j: int| 0 <= j < tasks.len() ==> !pass(#[trigger] tasks[j]),
    ensures
        tasks.filter(pass) == Seq::<TaskView>::empty(),
    decreases tasks.len(),
{
    reveal(Seq::filter);
    if tasks.len() > 0 {
        let front = tasks.drop_last();
        assert forall|j: int| 0 <= j < front.len() implies !pass(#[trigger] front[j]) by {
            assert(front[j] == tasks[j]);
        }
        lemma_filter_drops(front, pass);
    }
}

/// In an ascending list, the names before the slot of `name` come before
/// it, the names after the slot come after it, and the name in the slot is
/// `name` or comes after it.
proof fn lemma_slot_splits(tasks: Seq<TaskView>, name: Seq<char>, i: int)
    requires
        ascending(tasks),
        slot(tasks, name, i),
    ensures
        forall|j: int|
            0 <= j < i ==> lex_lt((#[trigger] tasks[j]).name, name) && !lex_lt(name, tasks[j].name)
                && tasks[j].name != name,
        forall|j: int|
            i < j < tasks.len() ==> lex_lt(name, (#[trigger] tasks[j]).name) && !lex_lt(
                tasks[j].name,
                name,
            ) && tasks[j].name != name,
        i < tasks.len() ==> !lex_lt(tasks[i].name, name) && (tasks[i].name == name || lex_lt(
            name,
            tasks[i].name,
        )),
        !lex_lt(name, name),
{
    lemma_lex_irreflexive(name);
    assert forall|j: int| 0 <= j < i implies lex_lt((#[trigger] tasks[j]).name, name) && !lex_lt(
        name,
        tasks[j].name,
    ) && tasks[j].name != name by {
        lemma_lex_asymmetric(tasks[j].name, name);
    }
    if i < tasks.len() {
        lemma_lex_total(tasks[i].name, name);
    }
    assert forall|j: int| i < j < tasks.len() implies lex_lt(name, (#[trigger] tasks[j]).name)
        && !lex_lt(tasks[j].name, name) && tasks[j].name != name by {
        if tasks[i].name == name {
            assert(lex_lt(tasks[i].name, tasks[j].name));
        } else {
            lemma_lex_transitive(name, tasks[i].name, tasks[j].name);
        }
        lemma_lex_asymmetric(name, tasks[j].name);
    }
}

/// In an ascending list, the tasks whose names come before `name` are those
/// in front of its slot.
proof fn lemma_before_slot(tasks: Seq<TaskView>, name: Seq<char>, i: int)
    requires
        ascending(tasks),
        slot(tasks, name, i),
    ensures
        tasks.filter(sorts_before(name)) == tasks.take(i),
{
    let pass = sorts_before(name);
    let low = tasks.take(i);
    let high = tasks.skip(i);
    lemma_slot_splits(tasks, name, i);
    assert(tasks =~= low + high);
    Seq::filter_distributes_over_add(low, high, pass);
    assert forall|j: int| 0 <= j < low.len() implies pass(#[trigger] low[j]) by {
        assert(low[j] == tasks[j]);
    }
    lemma_filter_keeps(low, pass);
    assert forall|j: int| 0 <= j < high.len() implies !pass(#[trigger] high[j]) by {
        assert(high[j] == tasks[i + j]);
    }
    lemma_filter_drops(high, pass);
    assert(low + Seq::<TaskView>::empty() =~= low);
}

/// In an ascending list, the tasks whose names come after `name` are those
/// behind its slot, and the task in the slot unless it has the name.
proof fn lemma_after_slot(tasks: Seq<TaskView>, name: Seq<char>, i: int)
    requires
        ascending(tasks),
        slot(tasks, name, i),
    ensures
        tasks.filter(sorts_after(name)) == if i < tasks.len() && tasks[i].name == name {
            tasks.skip(i + 1)
        } else {
            tasks.skip(i)
        },
{
    let pass = sorts_after(name);
    let from = if i < tasks.len() && tasks[i].name == name {
        i + 1
    } else {
        i
    };
    let low = tasks.take(from);
    let high = tasks.skip(from);
    lemma_slot_splits(tasks, name, i);
    assert(tasks =~= low + high);
    Seq::filter_distributes_over_add(low, high, pass);
    assert forall|j: int| 0 <= j < low.len() implies !pass(#[trigger] low[j]) by {
        assert(low[j] == tasks[j]);
    }
    lemma_filter_drops(low, pass);
    assert forall|j: int| 0 <= j < high.len() implies pass(#[trigger] high[j]) by {
        assert(high[j] == tasks[from + j]);
    }
    lemma_filter_keeps(high, pass);
    assert(Seq::<TaskView>::empty() + high =~= high);
}

/// Putting a task into its slot either replaces its namesake there or moves
/// the rest up by one.
pub proof fn lemma_with_task_at(tasks: Seq<TaskView>, task: TaskView, i: int)
    requires
        ascending(tasks),
        slot(tasks, task.name, i),
    ensures
        with_task(tasks, task) == if i < tasks.len() && tasks[i].name == task.name {
            tasks.update(i, task)
        } else {
            tasks.insert(i, task)
        },
{
    lemma_before_slot(tasks, task.name, i);
    lemma_after_slot(tasks, task.name, i);
    if i < tasks.len() && tasks[i].name == task.name {
        assert(tasks.take(i) + seq![task] + tasks.skip(i + 1) =~= tasks.update(i, task));
    } else {
        assert(tasks.take(i) + seq![task] + tasks.skip(i) =~= tasks.insert(i, task));
    }
}

/// In an ascending list a name is cleared by removing the task in its slot,
/// if that task has the name.
pub proof fn lemma_without_name_at(tasks: Seq<TaskView>, name: Seq<char>, i: int)
    requires
        ascending(tasks),
        slot(tasks, name, i),
    ensures
        without_name(tasks, name) == if i < tasks.len() && tasks[i].name == name {
            tasks.remove(i)
        } else {
            tasks
        },
{
    let other = named_otherwise(name);
    lemma_slot_splits(tasks, name, i);
    if i < tasks.len() && tasks[i].name == name {
        let low = tasks.take(i);
        let rest = tasks.skip(i + 1);
        assert(tasks =~= low + (seq![tasks[i]] + rest));
        Seq::filter_distributes_over_add(low, seq![tasks[i]] + rest, other);
        Seq::filter_distributes_over_add(seq![tasks[i]], rest, other);
        lemma_filter_keeps(low, other);
        lemma_filter_drops(seq![tasks[i]], other);
        assert forall|j: int| 0 <= j < rest.len() implies other(#[trigger] rest[j]) by {
            assert(rest[j] == tasks[i + 1 + j]);
        }
        lemma_filter_keeps(rest, other);
        assert(low + (Seq::<TaskView>::empty() + rest) =~= tasks.remove(i));
    } else {
        lemma_filter_keeps(tasks, other);
    }
}

/// Putting a task into an ascending list keeps it ascending.
pub proof fn lemma_with_task_ascending(tasks: Seq<TaskView>, task: TaskView)
    requires
        ascending(tasks),
    ensures
        ascending(with_task(tasks, task)),
{
    let i = rank(tasks, task.name);
    lemma_rank_is_slot(tasks, task.name);
    lemma_with_task_at(tasks, task, i);
    let out = with_task(tasks, task);
    if i < tasks.len() && tasks[i].name == task.name {
        assert forall|a: int, b: int| 0 <= a < b < out.len() implies lex_lt(
            out[a].name,
            out[b].name,
        ) by {
            assert(out[a].name == tasks[a].name);
            assert(out[b].name == tasks[b].name);
        }
    } else {
        assert forall|a: int, b: int| 0 <= a < b < out.len() implies lex_lt(
            out[a].name,
            out[b].name,
        ) by {
            if b < i {
                assert(out[a] == tasks[a] && out[b] == tasks[b]);
            } else if b == i {
                assert(out[a] == tasks[a]);
            } else {
                assert(out[b] == tasks[b - 1]);
                lemma_lex_total(tasks[i].name, task.name);
                if b - 1 > i {
                    lemma_lex_transitive(task.name, tasks[i].name, tasks[b - 1].name);
                }
                if a < i {
                    assert(out[a] == tasks[a]);
                    lemma_lex_transitive(tasks[a].name, task.name, tasks[b - 1].name);
                } else if a > i {
                    assert(out[a] == tasks[a - 1]);
                }
            }
        }
    }
}

/// Clearing a name from an ascending list keeps it ascending.
pub proof fn lemma_without_name_ascending(tasks: Seq<TaskView>, name: Seq<char>)
    requires
        ascending(tasks),
    ensures
        ascending(without_name(tasks, name)),
{
    let i = rank(tasks, name);
    lemma_rank_is_slot(tasks, name);
    lemma_without_name_at(tasks, name, i);
    let out = without_name(tasks, name);
    if i < tasks.len() && tasks[i].name == name {
        assert forall|a: int, b: int| 0 <= a < b < out.len() implies lex_lt(
            out[a].name,
            out[b].name,
        ) by {
            let x = if a < i { a } else { a + 1 };
            let y = if b < i { b } else { b + 1 };
            assert(out[a] == tasks[x] && out[b] == tasks[y]);
        }
    }
}

/// After a task is put into a list, the list holds that task and the tasks
/// it held under other names.
pub proof fn lemma_with_task_members(tasks: Seq<TaskView>, task: TaskView, other: TaskView)
    ensures
        with_task(tasks, task).contains(other) <==> other == task || (tasks.contains(other)
            && other.name != task.name),
{
    let before = sorts_before(task.name);
    let after = sorts_after(task.name);
    let low = tasks.filter(before);
    let high = tasks.filter(after);
    let out = with_task(tasks, task);
    assert(out[low.len() as int] == task);
    lemma_lex_irreflexive(task.name);
    if out.contains(other) && other != task {
        let k = choose|k: int| 0 <= k < out.len() && out[k] == other;
        if k < low.len() {
            assert(low[k] == other);
            tasks.lemma_filter_pred(before, k);
            tasks.lemma_filter_contains_rev(before, other);
        } else {
            assert(high[k - low.len() - 1] == other);
            tasks.lemma_filter_pred(after, k - low.len() - 1);
            tasks.lemma_filter_contains_rev(after, other);
        }
    }
    if tasks.contains(other) && other.name != task.name {
        let k = choose|k: int| 0 <= k < tasks.len() && tasks[k] == other;
        lemma_lex_total(other.name, task.name);
        if lex_lt(other.name, task.name) {
            tasks.lemma_filter_contains(before, k);
            let m = choose|m: int| 0 <= m < low.len() && low[m] == other;
            assert(out[m] == other);
        } else {
            tasks.lemma_filter_contains(after, k);
            let m = choose|m: int| 0 <= m < high.len() && high[m] == other;
            assert(out[low.len() + 1 + m] == other);
        }
    }
}

/// After a name is cleared, the list holds the tasks it held under other
/// names.
pub proof fn lemma_without_name_members(tasks: Seq<TaskView>, name: Seq<char>, other: TaskView)
    ensures
        without_name(tasks, name).contains(other) <==> tasks.contains(other) && other.name != name,
{
    let pass = named_otherwise(name);
    let kept = tasks.filter(pass);
    if kept.contains(other) {
        let k = choose|k: int| 0 <= k < kept.len() && kept[k] == other;
        tasks.lemma_filter_pred(pass, k);
        tasks.lemma_filter_contains_rev(pass, other);
    }
    if tasks.contains(other) && other.name != name {
        let k = choose|k: int| 0 <= k < tasks.len() && tasks[k] == other;
        tasks.lemma_filter_contains(pass, k);
    }
}

/// The slot of `name` in `tasks`.
fn find_slot(tasks: &Vec<Task>, name: &str) -> (i: usize)
    ensures
        slot(task_views(tasks@), name@, i as int),
{
    let mut i: usize = 0;
    while i < tasks.len() && str_lt(tasks[i].name.as_str(), name)
        invariant
            i <= tasks.len(),
            forall|j: int| 0 <= j < i ==> lex_lt(#[trigger] task_views(tasks@)[j].name, name@),
        decreases tasks.len() - i,
    {
        i += 1;
    }
    i
}

/// Puts `task` where its name belongs, in place of a task of the same name.
pub(crate) fn put_task(tasks: &mut Vec<Task>, task: Task)
    requires
        ascending(task_views(old(tasks)@)),
    ensures
        task_views(final(tasks)@) == with_task(task_views(old(tasks)@), task@),
{
    let i = find_slot(tasks, task.name.as_str());
    let ghost before = task_views(tasks@);
    proof {
        lemma_with_task_at(before, task@, i as int);
    }
    if i < tasks.len() && tasks[i].name == task.name {
        tasks.set(i, task);
        assert(task_views(tasks@) =~= before.update(i as int, task@));
    } else {
        tasks.insert(i, task);
        assert(task_views(tasks@) =~= before.insert(i as int, task@));
    }
}

/// Removes the task named `name`, if there is one.
pub(crate) fn drop_name(tasks: &mut Vec<Task>, name: &String)
    requires
        ascending(task_views(old(tasks)@)),
    ensures
        task_views(final(tasks)@) == without_name(task_views(old(tasks)@), name@),
{
    let i = find_slot(tasks, name.as_str());
    let ghost before = task_views(tasks@);
    proof {
        lemma_without_name_at(before, name@, i as int);
    }
    if i < tasks.len() && tasks[i].name == *name {
        tasks.remove(i);
        assert(task_views(tasks@) =~= before.remove(i as int));
    }
}

} // verus!
