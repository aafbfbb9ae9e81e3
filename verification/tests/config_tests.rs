use bolt::config::{Config, ConfigError, ShapeError, Task};
use bolt::definition::{read_definition, task_from_definition, CommandEntry, TaskDefinition};
use bolt::document::{parse_document, untag, YamlNode};

fn names(config: &Config) -> Vec<&str> {
    config.tasks.iter().map(|t| t.name.as_str()).collect()
}

fn text(s: &str) -> YamlNode {
    YamlNode::Text(s.to_string())
}

fn shape_error(source: &str) -> ShapeError {
    match Config::load(source) {
        Err(ConfigError::Shape(reason)) => reason,
        other => panic!("expected a shape error, got {:?}", other),
    }
}

#[test]
fn test_parse_simple_config() {
    let yaml = r#"
        build:
          desc: Build project
          cmds:
            - cargo build
        "#;

    let document = parse_document(yaml).unwrap();
    let config = Config::from_document(&document).unwrap();

    assert!(config.tasks.iter().any(|t| t.name == "build"));
}

#[test]
fn simple_config_gives_the_whole_task() {
    let yaml = "build:\n  desc: Build project\n  cmds:\n    - cargo build\n";
    let config = Config::load(yaml).unwrap();
    assert_eq!(
        config.tasks,
        vec![Task {
            name: "build".to_string(),
            command: "cargo build".to_string(),
            description: "Build project".to_string(),
        }]
    );
}

#[test]
fn explicit_and_simplified_forms_agree() {
    let simplified = "test:\n  desc: Test\n  cmds: [cargo test]\nbuild:\n  cmds: [cargo build, cargo doc]\n";
    let explicit = "tasks:\n  test:\n    desc: Test\n    cmds: [cargo test]\n  build:\n    cmds: [cargo build, cargo doc]\n";
    let a = Config::load(simplified).unwrap();
    let b = Config::load(explicit).unwrap();
    assert_eq!(a.tasks, b.tasks);
    assert_eq!(names(&a), vec!["build", "test"]);
}

#[test]
fn explicit_form_ignores_keys_beside_tasks() {
    let yaml = "version: 3\ntasks:\n  build:\n    cmds: [make]\n";
    let config = Config::load(yaml).unwrap();
    assert_eq!(names(&config), vec!["build"]);
}

#[test]
fn a_task_named_tasks_makes_the_simplified_form_explicit() {
    let yaml = "tasks:\n  desc: all of them\n  cmds: [make]\n";
    assert_eq!(shape_error(yaml), ShapeError::DefinitionNotMapping);
}

#[test]
fn commands_are_joined_in_order() {
    let config = Config::load("t:\n  cmds: [a, b, c]\n").unwrap();
    assert_eq!(config.tasks[0].command, "a && b && c");
}

#[test]
fn a_single_command_is_unchanged() {
    let config = Config::load("t:\n  cmds: [echo one]\n").unwrap();
    assert_eq!(config.tasks[0].command, "echo one");
}

#[test]
fn an_empty_command_list_drops_the_task() {
    let config = Config::load("gone:\n  cmds: []\nkept:\n  cmds: [x]\n").unwrap();
    assert_eq!(names(&config), vec!["kept"]);
}

#[test]
fn absent_commands_drop_the_task() {
    let config = Config::load("gone:\n  desc: nothing to run\nkept:\n  cmds: [x]\n").unwrap();
    assert_eq!(names(&config), vec!["kept"]);
}

#[test]
fn null_commands_drop_the_task() {
    let config = Config::load("gone:\n  cmds:\nkept:\n  cmds: [x]\n").unwrap();
    assert_eq!(names(&config), vec!["kept"]);
}

#[test]
fn an_empty_definition_drops_the_task() {
    let config = Config::load("gone:\nkept:\n  cmds: [x]\n").unwrap();
    assert_eq!(names(&config), vec!["kept"]);
}

#[test]
fn commands_that_are_no_strings_drop_the_task() {
    let config = Config::load("gone:\n  cmds: [1, true, {task: other}, [x]]\nkept:\n  cmds: [x]\n").unwrap();
    assert_eq!(names(&config), vec!["kept"]);
}

#[test]
fn mixed_commands_keep_the_strings() {
    let config = Config::load("t:\n  cmds: [first, {task: other}, 7, second]\n").unwrap();
    assert_eq!(config.tasks[0].command, "first && second");
}

#[test]
fn a_tagged_string_is_no_plain_command() {
    let config = Config::load("t:\n  cmds: [!shell first, second]\n").unwrap();
    assert_eq!(config.tasks[0].command, "second");
}

#[test]
fn description_defaults_to_empty() {
    let config = Config::load("t:\n  cmds: [x]\n").unwrap();
    assert_eq!(config.tasks[0].description, "");
    let config = Config::load("t:\n  desc:\n  cmds: [x]\n").unwrap();
    assert_eq!(config.tasks[0].description, "");
}

#[test]
fn unknown_fields_are_passed_over() {
    let config = Config::load("t:\n  dir: /tmp\n  cmds: [x]\n  env: {A: 1}\n").unwrap();
    assert_eq!(config.tasks[0].command, "x");
}

#[test]
fn tasks_are_sorted_by_name() {
    let yaml = "zeta:\n  cmds: [z]\nalpha:\n  cmds: [a]\nmid:\n  cmds: [m]\nBeta:\n  cmds: [b]\nalphabet:\n  cmds: [ab]\n";
    let config = Config::load(yaml).unwrap();
    assert_eq!(names(&config), vec!["Beta", "alpha", "alphabet", "mid", "zeta"]);
    for pair in config.tasks.windows(2) {
        assert!(pair[0].name < pair[1].name);
    }
}

#[test]
fn names_sort_as_strings_do() {
    let yaml = "é:\n  cmds: [x]\nz:\n  cmds: [x]\n\"\":\n  cmds: [x]\na b:\n  cmds: [x]\na:\n  cmds: [x]\n";
    let config = Config::load(yaml).unwrap();
    let mut expected = vec!["é", "z", "", "a b", "a"];
    expected.sort();
    assert_eq!(names(&config), expected);
}

#[test]
fn an_empty_document_has_no_tasks() {
    let config = Config::load("").unwrap();
    assert!(config.tasks.is_empty());
    let config = Config::load("tasks:\n").unwrap();
    assert!(config.tasks.is_empty());
    let config = Config::load("{}").unwrap();
    assert!(config.tasks.is_empty());
}

#[test]
fn the_last_of_two_entries_for_one_name_decides() {
    let config = Config::load("!old build:\n  cmds: [first]\nbuild:\n  cmds: [second]\n").unwrap();
    assert_eq!(names(&config), vec!["build"]);
    assert_eq!(config.tasks[0].command, "second");
    let config = Config::load("build:\n  cmds: [first]\n!new build:\n  desc: nothing\n").unwrap();
    assert!(config.tasks.is_empty());
}

#[test]
fn text_that_is_no_yaml_is_a_syntax_error() {
    match Config::load("build: [unclosed") {
        Err(ConfigError::Syntax(message)) => assert!(!message.is_empty()),
        other => panic!("expected a syntax error, got {:?}", other),
    }
    assert!(parse_document("a: b: c: : :\n  - x").is_err());
}

#[test]
fn a_task_map_that_is_no_mapping_is_refused() {
    assert_eq!(shape_error("- build\n- test\n"), ShapeError::TaskMapNotMapping);
    assert_eq!(shape_error("just text"), ShapeError::TaskMapNotMapping);
    assert_eq!(shape_error("tasks: 3\n"), ShapeError::TaskMapNotMapping);
}

#[test]
fn a_task_name_that_is_no_string_is_refused() {
    assert_eq!(shape_error("1:\n  cmds: [x]\n"), ShapeError::TaskNameNotString);
    assert_eq!(shape_error("ok:\n  cmds: [x]\n[a, b]:\n  cmds: [x]\n"), ShapeError::TaskNameNotString);
}

#[test]
fn a_definition_that_is_no_mapping_is_refused() {
    assert_eq!(shape_error("build: cargo build\n"), ShapeError::DefinitionNotMapping);
    assert_eq!(shape_error("build: [cargo build]\n"), ShapeError::DefinitionNotMapping);
    assert_eq!(shape_error("version: 3\nbuild:\n  cmds: [x]\n"), ShapeError::DefinitionNotMapping);
}

#[test]
fn a_field_name_that_is_no_string_is_refused() {
    assert_eq!(shape_error("build:\n  1: x\n  cmds: [x]\n"), ShapeError::FieldNameNotString);
}

#[test]
fn a_field_given_twice_is_refused() {
    assert_eq!(shape_error("build:\n  desc: a\n  !again desc: b\n"), ShapeError::DuplicateField);
    assert_eq!(shape_error("build:\n  cmds: [a]\n  !again cmds: [b]\n"), ShapeError::DuplicateField);
}

#[test]
fn a_description_that_is_no_string_is_refused() {
    assert_eq!(shape_error("build:\n  desc: 3\n  cmds: [x]\n"), ShapeError::DescNotString);
    assert_eq!(shape_error("build:\n  desc: [a]\n"), ShapeError::DescNotString);
}

#[test]
fn commands_that_are_no_sequence_are_refused() {
    assert_eq!(shape_error("build:\n  cmds: cargo build\n"), ShapeError::CmdsNotSequence);
    assert_eq!(shape_error("build:\n  cmds: {a: b}\n"), ShapeError::CmdsNotSequence);
}

#[test]
fn one_bad_entry_fails_the_whole_load() {
    let yaml = "good:\n  cmds: [x]\nbad:\n  cmds: nope\nalso_good:\n  cmds: [y]\n";
    assert_eq!(shape_error(yaml), ShapeError::CmdsNotSequence);
}

#[test]
fn the_first_fault_in_document_order_is_reported() {
    let yaml = "a:\n  desc: 1\nb: text\n";
    assert_eq!(shape_error(yaml), ShapeError::DescNotString);
    let yaml = "b: text\na:\n  desc: 1\n";
    assert_eq!(shape_error(yaml), ShapeError::DefinitionNotMapping);
}

#[test]
fn messages_say_the_reason() {
    assert_eq!(ShapeError::CmdsNotSequence.reason(), "cmds is not a sequence");
    assert_eq!(
        ConfigError::Shape(ShapeError::TaskMapNotMapping).message(),
        "the task list is not a mapping"
    );
    assert_eq!(ConfigError::Syntax("line 3".to_string()).message(), "line 3");
}

#[test]
fn a_document_built_by_hand_reads_like_a_parsed_one() {
    let root = YamlNode::Mapping(vec![(
        text("tasks"),
        YamlNode::Mapping(vec![
            (
                text("test"),
                YamlNode::Mapping(vec![
                    (text("desc"), text("Test")),
                    (text("cmds"), YamlNode::Sequence(vec![text("echo test")])),
                ]),
            ),
            (
                YamlNode::Tagged("!x".to_string(), Box::new(text("build"))),
                YamlNode::Mapping(vec![(
                    text("cmds"),
                    YamlNode::Sequence(vec![text("a"), YamlNode::Null, text("b")]),
                )]),
            ),
            (text("empty"), YamlNode::Null),
        ]),
    )]);
    let config = Config::from_document(&root).unwrap();
    assert_eq!(
        config.tasks,
        vec![
            Task { name: "build".to_string(), command: "a && b".to_string(), description: String::new() },
            Task {
                name: "test".to_string(),
                command: "echo test".to_string(),
                description: "Test".to_string(),
            },
        ]
    );
}

#[test]
fn from_document_reports_the_shape() {
    let root = YamlNode::Sequence(vec![]);
    assert_eq!(
        Config::from_document(&root).unwrap_err(),
        ConfigError::Shape(ShapeError::TaskMapNotMapping)
    );
    let root = YamlNode::Mapping(vec![(YamlNode::Bool(true), YamlNode::Null)]);
    assert_eq!(
        Config::from_document(&root).unwrap_err(),
        ConfigError::Shape(ShapeError::TaskNameNotString)
    );
}

#[test]
fn read_definition_reads_both_fields() {
    let node = YamlNode::Mapping(vec![
        (text("cmds"), YamlNode::Sequence(vec![text("a"), YamlNode::Number("1".to_string())])),
        (text("other"), YamlNode::Bool(false)),
        (text("desc"), text("d")),
    ]);
    assert_eq!(
        read_definition(&node),
        Ok(TaskDefinition {
            desc: Some("d".to_string()),
            cmds: Some(vec![CommandEntry::Plain("a".to_string()), CommandEntry::Structured]),
        })
    );
    assert_eq!(read_definition(&YamlNode::Null), Ok(TaskDefinition { desc: None, cmds: None }));
    assert_eq!(read_definition(&text("x")), Err(ShapeError::DefinitionNotMapping));
    let tagged_null = YamlNode::Tagged("!t".to_string(), Box::new(YamlNode::Null));
    let node = YamlNode::Mapping(vec![(text("cmds"), tagged_null)]);
    assert_eq!(read_definition(&node), Ok(TaskDefinition { desc: None, cmds: Some(vec![]) }));
    let tagged_null = YamlNode::Tagged("!t".to_string(), Box::new(YamlNode::Null));
    let node = YamlNode::Mapping(vec![(text("desc"), tagged_null)]);
    assert_eq!(read_definition(&node), Err(ShapeError::DescNotString));
}

#[test]
fn task_from_definition_joins_plain_entries() {
    let definition = TaskDefinition {
        desc: None,
        cmds: Some(vec![
            CommandEntry::Structured,
            CommandEntry::Plain("a".to_string()),
            CommandEntry::Plain("b".to_string()),
        ]),
    };
    assert_eq!(
        task_from_definition("t", &definition),
        Some(Task { name: "t".to_string(), command: "a && b".to_string(), description: String::new() })
    );
    let definition = TaskDefinition { desc: Some("d".to_string()), cmds: Some(vec![CommandEntry::Structured]) };
    assert_eq!(task_from_definition("t", &definition), None);
    let definition = TaskDefinition { desc: Some("d".to_string()), cmds: None };
    assert_eq!(task_from_definition("t", &definition), None);
}

#[test]
fn parsed_documents_keep_their_structure() {
    let document = parse_document("a: [1, x, null, true]\n").unwrap();
    assert_eq!(
        document,
        YamlNode::Mapping(vec![(
            text("a"),
            YamlNode::Sequence(vec![
                YamlNode::Number("1".to_string()),
                text("x"),
                YamlNode::Null,
                YamlNode::Bool(true),
            ]),
        )])
    );
    let document = parse_document("!tag value\n").unwrap();
    match document {
        YamlNode::Tagged(_, inner) => assert_eq!(*inner, text("value")),
        other => panic!("expected a tagged node, got {:?}", other),
    }
}

#[test]
fn untag_takes_every_tag_off() {
    let plain = text("x");
    assert_eq!(untag(&plain), &text("x"));
    let once = YamlNode::Tagged("!a".to_string(), Box::new(text("x")));
    assert_eq!(untag(&once), &text("x"));
    let twice = YamlNode::Tagged("!b".to_string(), Box::new(once));
    assert_eq!(untag(&twice), &text("x"));
    let inside = YamlNode::Sequence(vec![YamlNode::Tagged("!a".to_string(), Box::new(YamlNode::Null))]);
    assert_eq!(untag(&inside), &inside);
}

#[test]
fn each_reason_has_its_own_sentence() {
    let reasons = [
        ShapeError::TaskMapNotMapping,
        ShapeError::TaskNameNotString,
        ShapeError::DefinitionNotMapping,
        ShapeError::FieldNameNotString,
        ShapeError::DuplicateField,
        ShapeError::DescNotString,
        ShapeError::CmdsNotSequence,
    ];
    for (i, a) in reasons.iter().enumerate() {
        assert!(!a.reason().is_empty());
        assert_eq!(ConfigError::Shape(*a).message(), a.reason());
        for b in &reasons[i + 1..] {
            assert_ne!(a.reason(), b.reason());
        }
    }
}

#[test]
fn a_tagged_task_map_is_read_like_a_plain_one() {
    let root = YamlNode::Tagged(
        "!all".to_string(),
        Box::new(YamlNode::Mapping(vec![(
            text("build"),
            YamlNode::Mapping(vec![(text("cmds"), YamlNode::Sequence(vec![text("make")]))]),
        )])),
    );
    let config = Config::from_document(&root).unwrap();
    assert_eq!(names(&config), vec!["build"]);
}
