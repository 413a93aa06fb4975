use todo_blame::attribution::build_line_map;
use todo_blame::collect::{file_todos, looks_like_text, CommitSummary, Hunk, Timestamp, Todo};
use todo_blame::group::{group_todos, Leaf};
use todo_blame::label::{group_label, label_with_phrase};

fn ts(secs: i64) -> Timestamp {
    Timestamp { secs, nanos: 0 }
}

fn commit(id: &str, author: &str, secs: i64) -> CommitSummary {
    CommitSummary { id: id.to_string(), author: author.to_string(), time: ts(secs) }
}

fn hunk(id: &str, author: &str, secs: i64, lines: usize) -> Hunk {
    Hunk { commit: Some(commit(id, author, secs)), lines }
}

fn lines(text: &[&str]) -> Vec<String> {
    text.iter().map(|s| s.to_string()).collect()
}

fn todo(tags: &[&str], author: &str, id: &str, secs: i64) -> Todo {
    Todo {
        file_path: "f.rs".to_string(),
        line: 1,
        tags: tags.iter().map(|s| s.to_string()).collect(),
        message: "m".to_string(),
        text: "// TODO m".to_string(),
        author: author.to_string(),
        commit_id: id.to_string(),
        commit_time: ts(secs),
    }
}

fn shape(leaves: &[Leaf]) -> Vec<(i64, String, Option<String>, String, Vec<usize>)> {
    leaves
        .iter()
        .map(|l| (l.time.secs, l.commit_id.clone(), l.tag.clone(), l.author.clone(), l.items.clone()))
        .collect()
}

const ALICE_ID: &str = "a1b2c3d4e5f60718293a4b5c6d7e8f9012345678";

#[test]
fn line_map_expands_runs_in_order() {
    assert_eq!(build_line_map(&vec![2, 0, 3]), vec![0, 0, 2, 2, 2]);
    assert_eq!(build_line_map(&vec![]), Vec::<usize>::new());
    let m = build_line_map(&vec![4, 1, 5]);
    assert_eq!(m.len(), 10);
}

#[test]
fn nul_byte_marks_binary() {
    assert!(looks_like_text(b"plain text\n"));
    assert!(looks_like_text(b""));
    assert!(!looks_like_text(&[b'a', 0, b'b']));
}

#[test]
fn single_commit_scenario() {
    let text = lines(&["import os", "", "def f(x):", "    y = x * 2", "    # TODO(bug): fix overflow", "    return y"]);
    let hunks = vec![hunk(ALICE_ID, "Alice", 1_700_000_000, 6)];
    let todos = file_todos(&"file.py".to_string(), &text, &hunks, ts(1_800_000_000));
    assert_eq!(todos.len(), 1);
    let t = &todos[0];
    assert_eq!(t.file_path, "file.py");
    assert_eq!(t.line, 5);
    assert_eq!(t.tags, vec!["bug".to_string()]);
    assert_eq!(t.message, "fix overflow");
    assert_eq!(t.author, "Alice");
    assert_eq!(t.commit_id, ALICE_ID);
    assert_eq!(t.commit_time.secs, 1_700_000_000);
    let leaves = group_todos(&todos);
    assert_eq!(
        shape(&leaves),
        vec![(1_700_000_000, ALICE_ID.to_string(), Some("bug".to_string()), "Alice".to_string(), vec![0])]
    );
}

#[test]
fn untracked_file_is_uncommitted_at_scan_time() {
    let now = Timestamp { secs: 1_750_000_000, nanos: 123 };
    let text = lines(&["TODO: write this file"]);
    let todos = file_todos(&"new.txt".to_string(), &text, &vec![], now);
    assert_eq!(todos.len(), 1);
    assert_eq!(todos[0].author, "Uncommitted");
    assert_eq!(todos[0].commit_id, "0000000000000000000000000000000000000000");
    assert!(todos[0].commit_time == now);
    assert_eq!(todos[0].message, "write this file");
}

#[test]
fn lines_past_attribution_are_uncommitted() {
    let text = lines(&["// TODO one", "x", "// TODO three"]);
    let hunks = vec![hunk("c1", "Bob", 10, 1)];
    let todos = file_todos(&"a.rs".to_string(), &text, &hunks, ts(99));
    assert_eq!(todos.len(), 2);
    assert_eq!(todos[0].author, "Bob");
    assert_eq!(todos[0].line, 1);
    assert_eq!(todos[1].author, "Uncommitted");
    assert_eq!(todos[1].line, 3);
    assert_eq!(todos[1].commit_time.secs, 99);
}

#[test]
fn later_hunks_attribute_later_lines() {
    let text = lines(&["a", "// TODO x", "b", "// TODO y"]);
    let hunks = vec![hunk("c1", "Bob", 10, 2), hunk("c2", "Carol", 20, 2)];
    let todos = file_todos(&"a.rs".to_string(), &text, &hunks, ts(99));
    assert_eq!(todos.len(), 2);
    assert_eq!(todos[0].author, "Bob");
    assert_eq!(todos[1].author, "Carol");
    assert_eq!(todos[1].commit_id, "c2");
}

#[test]
fn locally_changed_lines_are_uncommitted() {
    let text = lines(&["// TODO kept", "// TODO edited", "// TODO old"]);
    let hunks = vec![hunk("c1", "Bob", 10, 1), Hunk { commit: None, lines: 1 }, hunk("c2", "Eve", 20, 1)];
    let todos = file_todos(&"a.rs".to_string(), &text, &hunks, ts(77));
    assert_eq!(todos.len(), 3);
    assert_eq!(todos[0].author, "Bob");
    assert_eq!(todos[1].author, "Uncommitted");
    assert_eq!(todos[1].commit_time.secs, 77);
    assert_eq!(todos[2].author, "Eve");
}

#[test]
fn attribution_longer_than_the_file_is_fine() {
    let text = lines(&["// TODO only line"]);
    let hunks = vec![hunk("c1", "Bob", 10, 1000), hunk("c2", "Eve", 20, usize::MAX)];
    let todos = file_todos(&"a.rs".to_string(), &text, &hunks, ts(77));
    assert_eq!(todos.len(), 1);
    assert_eq!(todos[0].author, "Bob");
}

#[test]
fn empty_messages_are_not_emitted() {
    let text = lines(&["// TODO:", "// TODO(x)", "# todo!  ", "// TODO: real"]);
    let todos = file_todos(&"a.rs".to_string(), &text, &vec![], ts(5));
    assert_eq!(todos.len(), 1);
    assert_eq!(todos[0].line, 4);
    assert_eq!(todos[0].message, "real");
}

#[test]
fn no_annotations_give_empty_result() {
    let text = lines(&["fn main() {}", "// autodoc", "let todos = 3;"]);
    let todos = file_todos(&"a.rs".to_string(), &text, &vec![hunk("c", "A", 1, 3)], ts(5));
    assert!(todos.is_empty());
    assert!(group_todos(&todos).is_empty());
}

#[test]
fn two_tags_fan_out_to_two_leaves() {
    let todos = vec![todo(&["x", "y"], "Ann", "c1", 10)];
    let leaves = group_todos(&todos);
    assert_eq!(
        shape(&leaves),
        vec![
            (10, "c1".to_string(), Some("x".to_string()), "Ann".to_string(), vec![0]),
            (10, "c1".to_string(), Some("y".to_string()), "Ann".to_string(), vec![0]),
        ]
    );
}

#[test]
fn duplicate_tag_files_twice() {
    let todos = vec![todo(&["x", "x"], "Ann", "c1", 10)];
    let leaves = group_todos(&todos);
    assert_eq!(leaves.len(), 1);
    assert_eq!(leaves[0].items, vec![0, 0]);
}

#[test]
fn groups_are_oldest_first_and_untagged_first() {
    let todos = vec![
        todo(&["b"], "Zed", "new", 200),
        todo(&[], "Ann", "new", 200),
        todo(&["a"], "Bob", "old", 100),
        todo(&["b"], "Ann", "new", 200),
        todo(&[], "Ann", "new", 200),
    ];
    let leaves = group_todos(&todos);
    assert_eq!(
        shape(&leaves),
        vec![
            (100, "old".to_string(), Some("a".to_string()), "Bob".to_string(), vec![2]),
            (200, "new".to_string(), None, "Ann".to_string(), vec![1, 4]),
            (200, "new".to_string(), Some("b".to_string()), "Ann".to_string(), vec![3]),
            (200, "new".to_string(), Some("b".to_string()), "Zed".to_string(), vec![0]),
        ]
    );
}

#[test]
fn same_time_different_commits_stay_apart() {
    let todos = vec![todo(&[], "Ann", "bbb", 50), todo(&[], "Ann", "aaa", 50)];
    let leaves = group_todos(&todos);
    assert_eq!(leaves.len(), 2);
    assert_eq!(leaves[0].commit_id, "aaa");
    assert_eq!(leaves[1].commit_id, "bbb");
}

#[test]
fn grouping_twice_gives_the_same_tree() {
    let todos = vec![
        todo(&["q", "p"], "Ann", "c2", 20),
        todo(&[], "Bob", "c1", 10),
        todo(&["p"], "Ann", "c2", 20),
    ];
    assert_eq!(shape(&group_todos(&todos)), shape(&group_todos(&todos)));
}

#[test]
fn label_shows_short_id_and_phrase() {
    assert_eq!(label_with_phrase(ALICE_ID, "2 days ago"), "[a1b2c3d/2 days ago]");
    assert_eq!(label_with_phrase("abc", "now"), "[abc/now]");
}

#[test]
fn group_label_uses_elapsed_time() {
    let now = ts(1_700_000_000);
    let label = group_label(ALICE_ID, ts(1_700_000_000 - 2 * 86_400), now);
    assert_eq!(label, Some("[a1b2c3d/2 days ago]".to_string()));
    assert_eq!(group_label(ALICE_ID, ts(i64::MIN), ts(i64::MAX)), None);
}
