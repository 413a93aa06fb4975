use todo_blame::order::compare_str;
use todo_blame::parser::{marker_positions, parse_todo};

fn parsed(line: &str) -> (Vec<String>, String) {
    let a = parse_todo(line).expect("line holds a marker");
    (a.tags, a.message)
}

#[test]
fn tagged_line_gives_tags_and_message() {
    let (tags, message) = parsed("TODO(a, b): message");
    assert_eq!(tags, vec!["a".to_string(), "b".to_string()]);
    assert_eq!(message, "message");
}

#[test]
fn comment_prefix_and_single_tag() {
    let (tags, message) = parsed("    # TODO(bug): fix overflow");
    assert_eq!(tags, vec!["bug".to_string()]);
    assert_eq!(message, "fix overflow");
}

#[test]
fn marker_is_case_insensitive() {
    let (tags, message) = parsed("// todo: write docs");
    assert!(tags.is_empty());
    assert_eq!(message, "write docs");
    let (_, message) = parsed("/* ToDo handle errors */");
    assert_eq!(message, "handle errors */");
}

#[test]
fn marker_inside_a_word_is_no_marker() {
    assert!(parse_todo("autodoc generation").is_none());
    assert!(parse_todo("let todos = 1;").is_none());
    assert!(parse_todo("todo_list.push(x)").is_none());
    assert!(parse_todo("").is_none());
    assert!(parse_todo("nothing to see here").is_none());
}

#[test]
fn empty_message_is_reported_empty() {
    let (tags, message) = parsed("// TODO!");
    assert!(tags.is_empty());
    assert_eq!(message, "");
    let (tags, message) = parsed("x = 1  # TODO(perf):   ");
    assert_eq!(tags, vec!["perf".to_string()]);
    assert_eq!(message, "");
}

#[test]
fn one_layer_of_quotes_is_stripped() {
    assert_eq!(parsed("// TODO: \"quoted\"").1, "quoted");
    assert_eq!(parsed("// TODO: 'single'").1, "single");
    assert_eq!(parsed("TODO (later)").1, "later");
    assert_eq!(parsed("TODO: \"\"nested\"\"").1, "\"nested\"");
    assert_eq!(parsed("TODO: \"unbalanced").1, "\"unbalanced");
}

#[test]
fn tags_keep_order_and_duplicates() {
    let (tags, message) = parsed("TODO(z,  a , z) dup");
    assert_eq!(tags, vec!["z".to_string(), "a".to_string(), "z".to_string()]);
    assert_eq!(message, "dup");
}

#[test]
fn unclosed_tag_list_is_message() {
    let (tags, message) = parsed("TODO(open without close");
    assert!(tags.is_empty());
    assert_eq!(message, "(open without close");
}

#[test]
fn first_marker_is_the_one_parsed() {
    let (tags, message) = parsed("todo(a) first TODO(b) second");
    assert_eq!(tags, vec!["a".to_string()]);
    assert_eq!(message, "first TODO(b) second");
}

#[test]
fn non_ascii_text_is_kept() {
    let (tags, message) = parsed("// TODO(ü): grüße — später");
    assert_eq!(tags, vec!["ü".to_string()]);
    assert_eq!(message, "grüße — später");
}

#[test]
fn unicode_letters_bound_words() {
    assert!(parse_todo("éTODO fix").is_none());
    assert!(parse_todo("todoé fix").is_none());
    assert!(parse_todo("日本todo").is_none());
    let (tags, message) = parsed("étodo TODO(a, b): m");
    assert_eq!(tags, vec!["a".to_string(), "b".to_string()]);
    assert_eq!(message, "m");
    assert_eq!(marker_positions("étodo"), Vec::<usize>::new());
    assert_eq!(marker_positions("«todo» — TODO"), vec![1, 9]);
}

#[test]
fn marker_positions_are_whole_words() {
    assert_eq!(marker_positions("todo and TODO, not autodoc or todos"), vec![0, 9]);
    assert_eq!(marker_positions("no marker"), Vec::<usize>::new());
    assert_eq!(marker_positions("é TODO"), vec![2]);
}

#[test]
fn strings_compare_lexically() {
    assert!(compare_str("abc", "abd") < 0);
    assert!(compare_str("abd", "abc") > 0);
    assert!(compare_str("ab", "abc") < 0);
    assert_eq!(compare_str("same", "same"), 0);
    assert!(compare_str("", "a") < 0);
    assert!(compare_str("Z", "a") < 0);
}
