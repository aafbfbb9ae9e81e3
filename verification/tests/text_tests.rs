use bolt::text::{chars_of, join_commands, str_lt};

#[test]
fn chars_of_lists_the_characters() {
    assert_eq!(chars_of("aé𝄞"), vec!['a', 'é', '𝄞']);
    assert_eq!(chars_of(""), Vec::<char>::new());
}

#[test]
fn str_lt_is_the_order_of_strings() {
    let samples = ["", "a", "A", "ab", "abc", "b", "é", "z", "a b", "aa", "𝄞", "\u{ffff}", "0"];
    for a in samples {
        for b in samples {
            assert_eq!(str_lt(a, b), a < b, "{:?} < {:?}", a, b);
        }
    }
}

#[test]
fn str_lt_is_strict() {
    assert!(!str_lt("same", "same"));
    assert!(str_lt("build", "test"));
    assert!(!str_lt("test", "build"));
    assert!(str_lt("a", "ab"));
}

#[test]
fn join_commands_puts_the_separator_between() {
    let parts = vec!["a".to_string(), "b".to_string(), "c".to_string()];
    assert_eq!(join_commands(&parts), "a && b && c");
    assert_eq!(join_commands(&vec!["only".to_string()]), "only");
    assert_eq!(join_commands(&vec![]), "");
    assert_eq!(join_commands(&vec![String::new(), String::new()]), " && ");
}
