use bolt::config::Task;
use bolt::search::{rank, recompute_filter, score_tasks, ScoredTask};
use fuzzy_matcher::skim::SkimMatcherV2;
use fuzzy_matcher::FuzzyMatcher;

fn task(name: &str) -> Task {
    Task { name: name.to_string(), command: format!("run {}", name), description: String::new() }
}

fn shown(all: &Vec<Task>, query: &str) -> Vec<String> {
    recompute_filter(all, query).into_iter().map(|t| t.name).collect()
}

#[test]
fn the_empty_query_shows_everything_in_order() {
    let all = vec![task("build"), task("clean"), task("test")];
    assert_eq!(recompute_filter(&all, ""), all);
    let unsorted = vec![task("z"), task("a")];
    assert_eq!(recompute_filter(&unsorted, ""), unsorted);
    assert_eq!(recompute_filter(&vec![], ""), vec![]);
}

#[test]
fn a_query_keeps_the_names_that_hold_it_in_order() {
    let all = vec![task("build"), task("clean"), task("test"), task("debug")];
    assert_eq!(shown(&all, "bu"), vec!["build", "debug"]);
    assert_eq!(shown(&all, "t"), vec!["test"]);
    assert_eq!(shown(&all, "ub"), Vec::<String>::new());
    assert_eq!(shown(&all, "zz"), Vec::<String>::new());
}

#[test]
fn filtered_tasks_are_copies_of_the_whole_task() {
    let all = vec![Task {
        name: "build".to_string(),
        command: "cargo build".to_string(),
        description: "Build".to_string(),
    }];
    assert_eq!(recompute_filter(&all, "bd"), all);
}

#[test]
fn a_lower_case_query_ignores_case() {
    let all = vec![task("Build"), task("TEST")];
    assert_eq!(shown(&all, "build"), vec!["Build"]);
    assert_eq!(shown(&all, "ts"), vec!["TEST"]);
}

#[test]
fn a_query_with_a_capital_respects_case() {
    let all = vec![task("Build"), task("build")];
    assert_eq!(shown(&all, "B"), vec!["Build"]);
    assert_eq!(shown(&all, "bU"), Vec::<String>::new());
}

#[test]
fn better_matches_come_first() {
    let all = vec![task("axxbxxc"), task("abc"), task("nothing")];
    assert_eq!(shown(&all, "abc"), vec!["abc", "axxbxxc"]);
    let all = vec![task("rebuild"), task("build")];
    assert_eq!(shown(&all, "build"), vec!["build", "rebuild"]);
}

#[test]
fn equal_scores_keep_the_order_given() {
    let all = vec![task("same"), task("same"), task("same")];
    let mut all = all;
    all[0].command = "first".to_string();
    all[1].command = "second".to_string();
    all[2].command = "third".to_string();
    let ranked = recompute_filter(&all, "same");
    let commands: Vec<&str> = ranked.iter().map(|t| t.command.as_str()).collect();
    assert_eq!(commands, vec!["first", "second", "third"]);
}

#[test]
fn filtering_twice_gives_the_same() {
    let all = vec![task("build"), task("rebuild"), task("bundle"), task("test"), task("b_u")];
    for query in ["", "b", "bu", "build", "t", "x", "B"] {
        assert_eq!(recompute_filter(&all, query), recompute_filter(&all, query));
    }
}

#[test]
fn every_shown_task_holds_the_query_as_a_subsequence() {
    fn holds(name: &str, query: &str) -> bool {
        let mut rest = query.chars().peekable();
        for c in name.chars() {
            if let Some(q) = rest.peek() {
                if c.eq_ignore_ascii_case(q) {
                    rest.next();
                }
            }
        }
        rest.peek().is_none()
    }
    let all = vec![task("build"), task("rebuild"), task("bundle"), task("test"), task("lint"), task("doc")];
    for query in ["b", "bu", "bd", "e", "t", "tt", "dl", "ld", "o"] {
        let result = shown(&all, query);
        for t in &all {
            assert_eq!(result.contains(&t.name), holds(&t.name, query), "{} in {}", query, t.name);
        }
    }
}

#[test]
fn rank_orders_by_falling_score() {
    let scored = vec![
        ScoredTask { score: 5, task: task("a") },
        ScoredTask { score: 9, task: task("b") },
        ScoredTask { score: 5, task: task("c") },
        ScoredTask { score: -3, task: task("d") },
        ScoredTask { score: 9, task: task("e") },
        ScoredTask { score: i64::MAX, task: task("f") },
        ScoredTask { score: i64::MIN, task: task("g") },
    ];
    let names: Vec<String> = rank(&scored).into_iter().map(|t| t.name).collect();
    assert_eq!(names, vec!["f", "b", "e", "a", "c", "d", "g"]);
    assert_eq!(rank(&vec![]), vec![]);
    assert_eq!(rank(&vec![ScoredTask { score: 0, task: task("only") }]), vec![task("only")]);
}

#[test]
fn score_tasks_keeps_the_matches_with_the_matchers_score() {
    let all = vec![task("build"), task("clean"), task("rebuild"), task("Bundle")];
    let matcher = SkimMatcherV2::default();
    let scored = score_tasks(&all, "bu");
    let names: Vec<&str> = scored.iter().map(|s| s.task.name.as_str()).collect();
    assert_eq!(names, vec!["build", "rebuild", "Bundle"]);
    for s in &scored {
        assert_eq!(Some(s.score), matcher.fuzzy_match(&s.task.name, "bu"));
        assert_eq!(s.task.command, format!("run {}", s.task.name));
    }
    assert_eq!(score_tasks(&all, "zz"), vec![]);
    assert_eq!(score_tasks(&all, "B").len(), 1);
}

#[test]
fn recompute_filter_is_scoring_then_ranking() {
    let all = vec![task("build"), task("clean"), task("rebuild"), task("bundle"), task("b_u")];
    for query in ["b", "bu", "build", "l", "e", "x"] {
        assert_eq!(recompute_filter(&all, query), rank(&score_tasks(&all, query)));
    }
}
