//! Filtering and ranking the task list against a query.
//!
//! A query that is not empty is answered in three steps: each task whose
//! name matches is given its score, the scored tasks are put in order of
//! falling score, and the scores are dropped.

use crate::config::{task_views, Task, TaskView};
use crate::matcher::{
    fuzzy_matches, is_subsequence, lemma_matches_iff_subsequence, respects_case, skim_match,
    skim_score,
};
use crate::sorted::ascending;
use crate::text::lex_lt;
use vstd::prelude::*;

verus! {

/// A task that matches a query, with the score of the match.
#[derive(Debug, PartialEq, Eq)]
pub struct ScoredTask {
    pub score: i64,
    pub task: Task,
}

/// The mathematical value of a [`ScoredTask`].
pub ghost struct ScoredView {
    pub score: int,
    pub task: TaskView,
}

impl View for ScoredTask {
    type V = ScoredView;

    open spec fn view(&self) -> ScoredView {
        ScoredView { score: self.score as int, task: self.task@ }
    }
}

/// The views of a sequence of scored tasks.
pub open spec fn scored_views(scored: Seq<ScoredTask>) -> Seq<ScoredView> {
    scored.map_values(|s: ScoredTask| s@)
}

/// The score of a name that matches `query`.
pub open spec fn points(name: Seq<char>, query: Seq<char>) -> int {
    skim_score(name, query)->0 as int
}

/// The task with its score against `query`, where its name matches.
pub open spec fn scored(task: TaskView, query: Seq<char>) -> Option<ScoredView> {
    if fuzzy_matches(task.name, query) {
        Some(ScoredView { score: points(task.name, query), task })
    } else {
        None
    }
}

/// The tasks of `all` whose names match `query`, each with its score, in the
/// order of `all`.
pub open spec fn matches_of(all: Seq<TaskView>, query: Seq<char>) -> Seq<ScoredView> {
    all.filter_map(|t: TaskView| scored(t, query))
}

/// `ranked` with `item` put behind every task that scores at least as high,
/// and before the rest.
pub open spec fn ranked_with(ranked: Seq<ScoredView>, item: ScoredView) -> Seq<ScoredView>
    decreases ranked.len(),
{
    if ranked.len() == 0 {
        seq![item]
    } else if ranked[0].score >= item.score {
        seq![ranked[0]] + ranked_with(ranked.skip(1), item)
    } else {
        seq![item] + ranked
    }
}

/// `scored` in the order of falling score; tasks of one score stay in the
/// order they have in `scored`.
pub open spec fn by_score(scored: Seq<ScoredView>) -> Seq<ScoredView>
    decreases scored.len(),
{
    if scored.len() == 0 {
        Seq::empty()
    } else {
        ranked_with(by_score(scored.drop_last()), scored.last())
    }
}

/// The tasks of `scored`, without their scores.
pub open spec fn tasks_of(scored: Seq<ScoredView>) -> Seq<TaskView> {
    scored.map_values(|s: ScoredView| s.task)
}

/// What is shown for `query`: every task, as listed, for the empty query;
/// else the matching tasks by falling score.
pub open spec fn filtered(all: Seq<TaskView>, query: Seq<char>) -> Seq<TaskView> {
    if query.len() == 0 {
        all
    } else {
        tasks_of(by_score(matches_of(all, query)))
    }
}

/// Where `item` goes in `ranked`: behind the tasks that score at least as
/// high, in front of the first that scores lower.
pub open spec fn ranked_slot(ranked: Seq<ScoredView>, item: ScoredView, i: int) -> bool {
    &&& 0 <= i <= ranked.len()
    &&& forall|j: int| 0 <= j < i ==> (#[trigger] ranked[j]).score >= item.score
    &&& i < ranked.len() ==> ranked[i].score < item.score
}

/// The number of leading tasks that score at least as high as `item`.
pub open spec fn leaders(ranked: Seq<ScoredView>, item: ScoredView) -> int
    decreases ranked.len(),
{
    if ranked.len() == 0 || ranked[0].score < item.score {
        0
    } else {
        1 + leaders(ranked.skip(1), item)
    }
}

/// The scores never rise from one task to the next.
pub open spec fn falling(ranked: Seq<ScoredView>) -> bool {
    forall|i: int, j: int|
        #![trigger ranked[i], ranked[j]]
        0 <= i < j < ranked.len() ==> ranked[i].score >= ranked[j].score
}

/// `a` ranks before `b`: it scores higher, or the same with the lesser name.
pub open spec fn ranks_before(a: ScoredView, b: ScoredView) -> bool {
    a.score > b.score || (a.score == b.score && lex_lt(a.task.name, b.task.name))
}

/// Each task ranks before all that follow it.
pub open spec fn rank_ordered(ranked: Seq<ScoredView>) -> bool {
    forall|i: int, j: int|
        #![trigger ranked[i], ranked[j]]
        0 <= i < j < ranked.len() ==> ranks_before(ranked[i], ranked[j])
}

/// Each task's name comes strictly before the next one's.
pub open spec fn names_ascend(scored: Seq<ScoredView>) -> bool {
    forall|i: int, j: int|
        #![trigger scored[i], scored[j]]
        0 <= i < j < scored.len() ==> lex_lt(scored[i].task.name, scored[j].task.name)
}

/// A task is ranked by inserting it at its slot.
pub proof fn lemma_ranked_with_at(ranked: Seq<ScoredView>, item: ScoredView, i: int)
    requires
        ranked_slot(ranked, item, i),
    ensures
        ranked_with(ranked, item) == ranked.insert(i, item),
    decreases i,
{
    if i == 0 {
        if ranked.len() == 0 {
            assert(seq![item] =~= ranked.insert(0, item));
        } else {
            assert(seq![item] + ranked =~= ranked.insert(0, item));
        }
    } else {
        let rest = ranked.skip(1);
        assert(ranked[0].score >= item.score);
        assert forall|j: int| 0 <= j < i - 1 implies (#[trigger] rest[j]).score >= item.score by {
            assert(rest[j] == ranked[j + 1]);
        }
        if i < ranked.len() {
            assert(rest[i - 1] == ranked[i]);
        }
        lemma_ranked_with_at(rest, item, i - 1);
        assert(seq![ranked[0]] + rest.insert(i - 1, item) =~= ranked.insert(i, item));
    }
}

/// The leaders of a task end at its slot.
pub proof fn lemma_leaders_is_slot(ranked: Seq<ScoredView>, item: ScoredView)
    ensures
        ranked_slot(ranked, item, leaders(ranked, item)),
    decreases ranked.len(),
{
    if ranked.len() > 0 && ranked[0].score >= item.score {
        let rest = ranked.skip(1);
        lemma_leaders_is_slot(rest, item);
        let i = leaders(ranked, item);
        assert forall|j: int| 0 <= j < i implies (#[trigger] ranked[j]).score >= item.score by {
            if j > 0 {
                assert(ranked[j] == rest[j - 1]);
            }
        }
        if i < ranked.len() {
            assert(ranked[i] == rest[i - 1]);
        }
    }
}

/// Ranking neither loses a task nor makes one up.
pub proof fn lemma_by_score_members(scored: Seq<ScoredView>, item: ScoredView)
    ensures
        by_score(scored).contains(item) <==> scored.contains(item),
        by_score(scored).len() == scored.len(),
    decreases scored.len(),
{
    if scored.len() > 0 {
        let front = scored.drop_last();
        let last = scored.last();
        let before = by_score(front);
        lemma_by_score_members(front, item);
        let at = leaders(before, last);
        lemma_leaders_is_slot(before, last);
        lemma_ranked_with_at(before, last, at);
        let after = before.insert(at, last);
        assert(after[at] == last);
        assert(scored[scored.len() - 1] == last);
        if front.contains(item) {
            let k = choose|k: int| 0 <= k < front.len() && front[k] == item;
            assert(scored[k] == item);
        }
        if scored.contains(item) {
            let k = choose|k: int| 0 <= k < scored.len() && scored[k] == item;
            if k < front.len() {
                assert(front[k] == item);
            }
        }
        if before.contains(item) {
            let k = choose|k: int| 0 <= k < before.len() && before[k] == item;
            if k < at {
                assert(after[k] == item);
            } else {
                assert(after[k + 1] == item);
            }
        }
        if after.contains(item) {
            let k = choose|k: int| 0 <= k < after.len() && after[k] == item;
            if k < at {
                assert(before[k] == item);
            } else if k > at {
                assert(before[k - 1] == item);
            }
        }
    }
}

/// Ranking puts the scores in falling order.
pub proof fn lemma_by_score_falls(scored: Seq<ScoredView>)
    ensures
        falling(by_score(scored)),
    decreases scored.len(),
{
    if scored.len() > 0 {
        let before = by_score(scored.drop_last());
        let last = scored.last();
        lemma_by_score_falls(scored.drop_last());
        let at = leaders(before, last);
        lemma_leaders_is_slot(before, last);
        lemma_ranked_with_at(before, last, at);
        let after = before.insert(at, last);
        assert forall|i: int, j: int| 0 <= i < j < after.len() implies (#[trigger] after[i]).score
            >= (#[trigger] after[j]).score by {
            let x = if i < at { i } else { i - 1 };
            let y = if j < at { j } else { j - 1 };
            if i == at {
                assert(after[j] == before[y]);
                if at < y {
                    assert(before[at].score >= before[y].score);
                }
            } else if j == at {
                assert(after[i] == before[x]);
            } else {
                assert(after[i] == before[x] && after[j] == before[y]);
            }
        }
    }
}

/// Where the names ascend in `scored`, ranking orders by falling score and,
/// among tasks of one score, by name.
pub proof fn lemma_by_score_order(scored: Seq<ScoredView>)
    requires
        names_ascend(scored),
    ensures
        rank_ordered(by_score(scored)),
    decreases scored.len(),
{
    if scored.len() > 0 {
        let front = scored.drop_last();
        let last = scored.last();
        let before = by_score(front);
        assert forall|i: int, j: int| 0 <= i < j < front.len() implies lex_lt(
            (#[trigger] front[i]).task.name,
            (#[trigger] front[j]).task.name,
        ) by {
            assert(front[i] == scored[i] && front[j] == scored[j]);
        }
        lemma_by_score_order(front);
        let at = leaders(before, last);
        lemma_leaders_is_slot(before, last);
        lemma_ranked_with_at(before, last, at);
        let after = before.insert(at, last);
        assert forall|i: int, j: int| 0 <= i < j < after.len() implies ranks_before(
            #[trigger] after[i],
            #[trigger] after[j],
        ) by {
            let x = if i < at { i } else { i - 1 };
            let y = if j < at { j } else { j - 1 };
            if i == at {
                assert(after[j] == before[y]);
                if at < y {
                    assert(ranks_before(before[at], before[y]));
                }
            } else if j == at {
                assert(after[i] == before[x]);
                lemma_by_score_members(front, before[x]);
                let k = choose|k: int| 0 <= k < front.len() && front[k] == before[x];
                assert(scored[k] == before[x]);
                assert(scored[scored.len() - 1] == last);
            } else {
                assert(after[i] == before[x] && after[j] == before[y]);
            }
        }
    }
}

/// The matches of `all` are its matching tasks, each with its score.
pub proof fn lemma_matches_members(all: Seq<TaskView>, query: Seq<char>, item: ScoredView)
    ensures
        matches_of(all, query).contains(item) <==> all.contains(item.task) && fuzzy_matches(
            item.task.name,
            query,
        ) && item.score == points(item.task.name, query),
    decreases all.len(),
{
    if all.len() > 0 {
        let front = all.drop_last();
        let last = all.last();
        let before = matches_of(front, query);
        let after = matches_of(all, query);
        lemma_matches_members(front, query, item);
        assert(all[all.len() - 1] == last);
        if front.contains(item.task) {
            let k = choose|k: int| 0 <= k < front.len() && front[k] == item.task;
            assert(all[k] == item.task);
        }
        if all.contains(item.task) {
            let k = choose|k: int| 0 <= k < all.len() && all[k] == item.task;
            if k < front.len() {
                assert(front[k] == item.task);
            }
        }
        if fuzzy_matches(last.name, query) {
            assert(after[after.len() - 1] == ScoredView {
                score: points(last.name, query),
                task: last,
            });
            if before.contains(item) {
                let k = choose|k: int| 0 <= k < before.len() && before[k] == item;
                assert(after[k] == item);
            }
            if after.contains(item) {
                let k = choose|k: int| 0 <= k < after.len() && after[k] == item;
                if k < before.len() {
                    assert(before[k] == item);
                }
            }
        }
    }
}

/// Where the names ascend in `all`, they ascend in its matches.
pub proof fn lemma_matches_ascend(all: Seq<TaskView>, query: Seq<char>)
    requires
        ascending(all),
    ensures
        names_ascend(matches_of(all, query)),
    decreases all.len(),
{
    if all.len() > 0 {
        let front = all.drop_last();
        let last = all.last();
        let before = matches_of(front, query);
        let after = matches_of(all, query);
        assert forall|i: int, j: int| 0 <= i < j < front.len() implies lex_lt(
            front[i].name,
            front[j].name,
        ) by {
            assert(front[i] == all[i] && front[j] == all[j]);
        }
        lemma_matches_ascend(front, query);
        if fuzzy_matches(last.name, query) {
            assert forall|i: int, j: int| 0 <= i < j < after.len() implies lex_lt(
                (#[trigger] after[i]).task.name,
                (#[trigger] after[j]).task.name,
            ) by {
                assert(after[i] == before[i]);
                if j < before.len() {
                    assert(after[j] == before[j]);
                } else {
                    lemma_matches_members(front, query, before[i]);
                    let k = choose|k: int| 0 <= k < front.len() && front[k] == before[i].task;
                    assert(all[k] == before[i].task);
                    assert(all[all.len() - 1] == last);
                }
            }
        }
    }
}

/// With the empty query every task is shown, in the order given.
pub proof fn lemma_filter_identity(all: Seq<TaskView>)
    ensures
        filtered(all, Seq::empty()) == all,
{
}

/// With a query that is not empty, the tasks shown are exactly the tasks of
/// `all` whose name has the query as a subsequence: its characters in order,
/// without regard to ASCII case unless the query holds an ASCII capital.
pub proof fn lemma_filter_subsequence(all: Seq<TaskView>, query: Seq<char>, task: TaskView)
    requires
        query.len() > 0,
    ensures
        filtered(all, query).contains(task) <==> all.contains(task) && is_subsequence(
            task.name,
            query,
            respects_case(query),
        ),
{
    let item = ScoredView { score: points(task.name, query), task };
    let matches = matches_of(all, query);
    let ranked = by_score(matches);
    let shown = filtered(all, query);
    lemma_matches_iff_subsequence(task.name, query);
    lemma_matches_members(all, query, item);
    lemma_by_score_members(matches, item);
    if ranked.contains(item) {
        let k = choose|k: int| 0 <= k < ranked.len() && ranked[k] == item;
        assert(shown[k] == task);
    }
    if shown.contains(task) {
        let k = choose|k: int| 0 <= k < shown.len() && shown[k] == task;
        assert(ranked[k].task == task);
        lemma_by_score_members(matches, ranked[k]);
        lemma_matches_members(all, query, ranked[k]);
    }
}

/// Whether a task's name matches `query`.
pub open spec fn matching(query: Seq<char>) -> spec_fn(TaskView) -> bool {
    |t: TaskView| fuzzy_matches(t.name, query)
}

/// The matches of `all`, without their scores, are the tasks of `all` whose
/// names match, in the order of `all`.
pub proof fn lemma_matches_are_matching(all: Seq<TaskView>, query: Seq<char>)
    ensures
        tasks_of(matches_of(all, query)) == all.filter(matching(query)),
    decreases all.len(),
{
    reveal(Seq::filter);
    if all.len() > 0 {
        let front = all.drop_last();
        lemma_matches_are_matching(front, query);
        if fuzzy_matches(all.last().name, query) {
            assert(tasks_of(matches_of(all, query)) =~= tasks_of(matches_of(front, query)).push(
                all.last(),
            ));
        }
    } else {
        assert(tasks_of(matches_of(all, query)) =~= all);
    }
}

/// Ranking rearranges the tasks: each stays, as often as it was there.
pub proof fn lemma_by_score_rearranges(scored: Seq<ScoredView>)
    ensures
        tasks_of(by_score(scored)).to_multiset() == tasks_of(scored).to_multiset(),
    decreases scored.len(),
{
    if scored.len() > 0 {
        let front = scored.drop_last();
        let last = scored.last();
        let before = by_score(front);
        lemma_by_score_rearranges(front);
        let at = leaders(before, last);
        lemma_leaders_is_slot(before, last);
        lemma_ranked_with_at(before, last, at);
        assert(tasks_of(before.insert(at, last)) =~= tasks_of(before).insert(at, last.task));
        assert(tasks_of(scored) =~= tasks_of(front).push(last.task));
        vstd::seq_lib::to_multiset_insert(tasks_of(before), at, last.task);
        vstd::seq_lib::to_multiset_build(tasks_of(front), last.task);
    } else {
        assert(tasks_of(by_score(scored)) =~= tasks_of(scored));
    }
}

/// With a query that is not empty, the tasks shown are a rearrangement of
/// the tasks of `all` whose names match: none is lost, none made up, none
/// doubled.
pub proof fn lemma_filter_rearranges(all: Seq<TaskView>, query: Seq<char>)
    requires
        query.len() > 0,
    ensures
        filtered(all, query).to_multiset() == all.filter(matching(query)).to_multiset(),
{
    lemma_matches_are_matching(all, query);
    lemma_by_score_rearranges(matches_of(all, query));
}

/// `a` is shown before `b`: it scores higher against `query`, or the same
/// with the lesser name.
pub open spec fn shown_before(a: TaskView, b: TaskView, query: Seq<char>) -> bool {
    points(a.name, query) > points(b.name, query) || (points(a.name, query) == points(
        b.name,
        query,
    ) && lex_lt(a.name, b.name))
}

/// With a query that is not empty and a task list that ascends by name, the
/// tasks are shown by falling score, and tasks of one score by name: the
/// order shown is fixed by the scores and the names alone.
pub proof fn lemma_filter_order(all: Seq<TaskView>, query: Seq<char>)
    requires
        ascending(all),
        query.len() > 0,
    ensures
        forall|i: int, j: int|
            #![trigger filtered(all, query)[i], filtered(all, query)[j]]
            0 <= i < j < filtered(all, query).len() ==> shown_before(
                filtered(all, query)[i],
                filtered(all, query)[j],
                query,
            ),
{
    let matches = matches_of(all, query);
    let ranked = by_score(matches);
    let shown = filtered(all, query);
    lemma_matches_ascend(all, query);
    lemma_by_score_order(matches);
    assert forall|i: int, j: int| 0 <= i < j < shown.len() implies shown_before(
        #[trigger] shown[i],
        #[trigger] shown[j],
        query,
    ) by {
        assert(ranks_before(ranked[i], ranked[j]));
        lemma_by_score_members(matches, ranked[i]);
        lemma_by_score_members(matches, ranked[j]);
        lemma_matches_members(all, query, ranked[i]);
        lemma_matches_members(all, query, ranked[j]);
    }
}

/// Filtering the same tasks by the same query gives the same tasks in the
/// same order, whenever it is done.
pub proof fn lemma_filter_deterministic(
    all: Seq<Task>,
    query: Seq<char>,
    first: Seq<Task>,
    second: Seq<Task>,
)
    requires
        task_views(first) == filtered(task_views(all), query),
        task_views(second) == filtered(task_views(all), query),
    ensures
        task_views(first) == task_views(second),
{
}

/// Scores the tasks of `all` against `query`.
///
/// The result holds, in the order of `all`, a copy of each task whose name
/// the matcher accepts for the query, with the score the matcher gives it.
pub fn score_tasks(all: &Vec<Task>, query: &str) -> (scored: Vec<ScoredTask>)
    ensures
        scored_views(scored@) == matches_of(task_views(all@), query@),
{
    let mut scored: Vec<ScoredTask> = Vec::new();
    let ghost views = task_views(all@);
    let mut i: usize = 0;
    proof {
        assert(scored_views(scored@) =~= matches_of(views.take(0), query@));
    }
    while i < all.len()
        invariant
            i <= all.len(),
            views == task_views(all@),
            scored_views(scored@) == matches_of(views.take(i as int), query@),
        decreases all.len() - i,
    {
        let ghost before = scored_views(scored@);
        proof {
            assert(views.take(i + 1).drop_last() =~= views.take(i as int));
            assert(views.take(i + 1).last() == all@[i as int]@);
        }
        match skim_match(all[i].name.as_str(), query) {
            Some(score) => {
                let item = ScoredTask { score, task: all[i].clone() };
                scored.push(item);
                assert(scored_views(scored@) =~= before.push(item@));
            },
            None => {},
        }
        i += 1;
    }
    proof {
        assert(views.take(all.len() as int) =~= views);
    }
    scored
}

/// Puts scored tasks in order and drops the scores.
///
/// The result holds a copy of each task of `scored`, by falling score; tasks
/// of one score keep the order they have in `scored`.
pub fn rank(scored: &Vec<ScoredTask>) -> (tasks: Vec<Task>)
    ensures
        task_views(tasks@) == tasks_of(by_score(scored_views(scored@))),
{
    let mut tasks: Vec<Task> = Vec::new();
    let mut scores: Vec<i64> = Vec::new();
    let ghost views = scored_views(scored@);
    let mut i: usize = 0;
    proof {
        assert(by_score(views.take(0)) =~= Seq::empty());
    }
    while i < scored.len()
        invariant
            i <= scored.len(),
            views == scored_views(scored@),
            tasks@.len() == scores@.len(),
            by_score(views.take(i as int)).len() == tasks@.len(),
            forall|j: int|
                0 <= j < tasks@.len() ==> (#[trigger] by_score(views.take(i as int))[j])
                    == (ScoredView { score: scores@[j] as int, task: tasks@[j]@ }),
        decreases scored.len() - i,
    {
        let ghost before = by_score(views.take(i as int));
        let score = scored[i].score;
        proof {
            assert(views.take(i + 1).drop_last() =~= views.take(i as int));
            assert(views.take(i + 1).last() == scored@[i as int]@);
        }
        let mut at: usize = 0;
        while at < scores.len() && scores[at] >= score
            invariant
                at <= scores@.len(),
                forall|j: int| 0 <= j < at ==> #[trigger] scores@[j] >= score,
            decreases scores.len() - at,
        {
            at += 1;
        }
        proof {
            assert forall|j: int| 0 <= j < at implies (#[trigger] before[j]).score >= score by {
                assert(scores@[j] >= score);
            }
            if at < scores.len() {
                assert(before[at as int].score == scores@[at as int]);
            }
            lemma_ranked_with_at(before, scored@[i as int]@, at as int);
        }
        tasks.insert(at, scored[i].task.clone());
        scores.insert(at, score);
        proof {
            let after = by_score(views.take(i + 1));
            assert forall|j: int| 0 <= j < tasks@.len() implies (#[trigger] after[j]) == (
            ScoredView { score: scores@[j] as int, task: tasks@[j]@ }) by {
                if j < at {
                    assert(after[j] == before[j]);
                } else if j > at {
                    assert(after[j] == before[j - 1]);
                }
            }
        }
        i += 1;
    }
    proof {
        assert(views.take(scored.len() as int) =~= views);
        assert(task_views(tasks@) =~= tasks_of(by_score(views)));
    }
    tasks
}

/// Recomputes the tasks shown for `query`.
///
/// With the empty query these are all the tasks, in their order. Otherwise
/// they are the tasks whose name the matcher accepts for the query, ordered
/// by falling score; tasks with the same score keep the order of `all`.
pub fn recompute_filter(all: &Vec<Task>, query: &str) -> (shown: Vec<Task>)
    ensures
        task_views(shown@) == filtered(task_views(all@), query@),
{
    if query.is_empty() {
        all.clone()
    } else {
        rank(&score_tasks(all, query))
    }
}

} // verus!
