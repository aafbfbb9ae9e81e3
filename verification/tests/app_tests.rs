use bolt::app::{App, Key};
use bolt::config::{Config, Task};

fn task(name: &str) -> Task {
    Task { name: name.to_string(), command: format!("echo {}", name), description: String::new() }
}

fn names(app: &App) -> Vec<&str> {
    app.filtered_tasks().iter().map(|t| t.name.as_str()).collect()
}

fn three() -> App {
    App::new(vec![task("build"), task("clean"), task("test")])
}

#[test]
fn a_new_session_shows_everything() {
    let app = three();
    assert_eq!(names(&app), vec!["build", "clean", "test"]);
    assert_eq!(app.tasks().len(), 3);
    assert_eq!(app.search_query(), "");
    assert_eq!(app.selected_index(), 0);
    assert!(!app.should_quit());
    assert_eq!(app.selected_command(), None);
}

#[test]
fn typing_filters_at_once() {
    let mut app = three();
    app.on_key('t');
    assert_eq!(app.search_query(), "t");
    assert_eq!(names(&app), vec!["test"]);
    app.on_key('x');
    assert_eq!(app.search_query(), "tx");
    assert!(names(&app).is_empty());
    app.on_backspace();
    assert_eq!(app.search_query(), "t");
    assert_eq!(names(&app), vec!["test"]);
    app.on_backspace();
    assert_eq!(app.search_query(), "");
    assert_eq!(names(&app), vec!["build", "clean", "test"]);
    app.on_backspace();
    assert_eq!(app.search_query(), "");
    assert_eq!(names(&app), vec!["build", "clean", "test"]);
}

#[test]
fn a_change_of_the_query_resets_the_mark() {
    let mut app = three();
    app.select_next();
    app.select_next();
    assert_eq!(app.selected_index(), 2);
    app.on_key('e');
    assert_eq!(app.selected_index(), 0);
    app.select_next();
    assert_eq!(app.selected_index(), 1);
    app.on_backspace();
    assert_eq!(app.selected_index(), 0);
    assert_eq!(names(&app), vec!["build", "clean", "test"]);
    app.select_next();
    app.update_filtered_tasks();
    assert_eq!(app.selected_index(), 0);
}

#[test]
fn the_mark_wraps_around() {
    let mut app = three();
    for expected in [1, 2, 0] {
        app.select_next();
        assert_eq!(app.selected_index(), expected);
    }
    app.select_previous();
    assert_eq!(app.selected_index(), 2);
    app.select_previous();
    assert_eq!(app.selected_index(), 1);
    let mut one = App::new(vec![task("only")]);
    one.select_next();
    assert_eq!(one.selected_index(), 0);
    one.select_previous();
    assert_eq!(one.selected_index(), 0);
}

#[test]
fn an_empty_list_is_inert() {
    let mut app = three();
    app.on_key('q');
    assert!(names(&app).is_empty());
    app.select_next();
    assert_eq!(app.selected_index(), 0);
    app.select_previous();
    assert_eq!(app.selected_index(), 0);
    app.execute_selected();
    assert_eq!(app.selected_index(), 0);
    assert!(!app.should_quit());
    assert_eq!(app.selected_command(), None);
    let mut none = App::new(vec![]);
    none.select_next();
    none.select_previous();
    none.execute_selected();
    assert_eq!(none.selected_index(), 0);
    assert_eq!(none.selected_command(), None);
    assert!(!none.on_input(Key::Enter));
}

#[test]
fn confirming_captures_the_marked_command() {
    let mut app = three();
    app.select_next();
    app.execute_selected();
    assert!(app.should_quit());
    assert_eq!(app.selected_command(), Some(&"echo clean".to_string()));
    app.resume();
    assert!(!app.should_quit());
    assert_eq!(app.selected_command(), None);
    assert_eq!(app.selected_index(), 1);
    assert_eq!(names(&app), vec!["build", "clean", "test"]);
}

#[test]
fn keys_drive_the_session() {
    let mut app = three();
    assert!(!app.on_input(Key::Down));
    assert_eq!(app.selected_index(), 1);
    assert!(!app.on_input(Key::Up));
    assert!(!app.on_input(Key::Up));
    assert_eq!(app.selected_index(), 2);
    assert!(!app.on_input(Key::Other));
    assert!(!app.on_input(Key::Char('c')));
    assert_eq!(names(&app), vec!["clean"]);
    assert!(!app.on_input(Key::Backspace));
    assert_eq!(app.search_query(), "");
    assert!(app.on_input(Key::Escape));
    assert!(!app.should_quit());
    assert_eq!(app.selected_command(), None);
    assert!(app.on_input(Key::Enter));
    assert_eq!(app.selected_command(), Some(&"echo build".to_string()));
}

#[test]
fn end_to_end() {
    let yaml = "tasks:\n  test:\n    desc: Test\n    cmds: [echo test]\n  build:\n    desc: Build\n    cmds: [echo build]\n";
    let config = Config::load(yaml).unwrap();
    assert_eq!(
        config.tasks,
        vec![
            Task {
                name: "build".to_string(),
                command: "echo build".to_string(),
                description: "Build".to_string(),
            },
            Task {
                name: "test".to_string(),
                command: "echo test".to_string(),
                description: "Test".to_string(),
            },
        ]
    );
    let mut app = App::new(config.tasks);
    assert!(!app.on_input(Key::Char('b')));
    assert!(!app.on_input(Key::Char('u')));
    assert_eq!(names(&app), vec!["build"]);
    assert!(app.on_input(Key::Enter));
    assert!(app.should_quit());
    assert_eq!(app.selected_command(), Some(&"echo build".to_string()));
}
