//! Turning the lines of one file, with their history attribution, into
//! annotations.

use crate::attribution::{
    build_line_map_capped, lemma_owner_range, lemma_total_prefix, min, owner, total,
};
use crate::parser::{parse_spec, parse_todo, Annotation};
use vstd::prelude::*;

verus! {

/// A point in time: whole seconds since the Unix epoch and the nanoseconds
/// past them.
#[derive(Clone, Copy, PartialEq, Eq, Structural)]
pub struct Timestamp {
    pub secs: i64,
    pub nanos: u32,
}

/// What attribution needs of a commit: its full id, its author's name and
/// its time.
pub struct CommitSummary {
    pub id: String,
    pub author: String,
    pub time: Timestamp,
}

/// A run of consecutive lines attributed to one commit, or to none when the
/// lines were changed after the last commit.
pub struct Hunk {
    pub commit: Option<CommitSummary>,
    pub lines: usize,
}

/// An annotation found in a file, with the commit it is attributed to.
pub struct Todo {
    pub file_path: String,
    /// 1-based line number.
    pub line: usize,
    pub tags: Vec<String>,
    pub message: String,
    /// The whole line, for display.
    pub text: String,
    pub author: String,
    pub commit_id: String,
    pub commit_time: Timestamp,
}

/// The author given to lines that no commit accounts for.
pub open spec fn unattributed_author() -> Seq<char> {
    "Uncommitted"@
}

/// The commit id given to lines that no commit accounts for.
pub open spec fn unattributed_id() -> Seq<char> {
    "0000000000000000000000000000000000000000"@
}

impl Todo {
    pub open spec fn tags_view(&self) -> Seq<Seq<char>> {
        self.tags@.map_values(|t: String| t@)
    }
}

pub open spec fn runs_of(hunks: Seq<Hunk>) -> Seq<usize> {
    hunks.map_values(|h: Hunk| h.lines)
}

pub open spec fn lines_view(lines: Seq<String>) -> Seq<Seq<char>> {
    lines.map_values(|l: String| l@)
}

/// Whether a line yields an annotation: it holds the marker and its message
/// is not empty.
pub open spec fn emits(line: Seq<char>) -> bool {
    match parse_spec(line) {
        Some((_, msg)) => msg.len() > 0,
        None => false,
    }
}

/// The 0-based indices, among the first `n` lines, of those that yield an
/// annotation, in order.
pub open spec fn emitted(lines: Seq<Seq<char>>, n: int) -> Seq<int>
    decreases n,
{
    if n <= 0 {
        Seq::empty()
    } else if emits(lines[n - 1]) {
        emitted(lines, n - 1).push(n - 1)
    } else {
        emitted(lines, n - 1)
    }
}

/// The commit that line `idx` (0-based) is attributed to, if any: that of
/// the run the line falls in.
pub open spec fn attributed(hunks: Seq<Hunk>, idx: int) -> Option<CommitSummary> {
    match owner(runs_of(hunks), idx) {
        Some(h) => hunks[h].commit,
        None => None,
    }
}

/// `t` is the annotation of line `idx` (0-based) of the file at `path`:
/// parsed from the line, and attributed to the commit of the run the line
/// falls in, or, where there is none, to no commit at time `now`.
pub open spec fn is_todo_of(
    t: Todo,
    path: Seq<char>,
    lines: Seq<Seq<char>>,
    idx: int,
    hunks: Seq<Hunk>,
    now: Timestamp,
) -> bool {
    &&& t.file_path@ == path
    &&& t.line == idx + 1
    &&& t.text@ == lines[idx]
    &&& parse_spec(lines[idx]) == Some((t.tags_view(), t.message@))
    &&& match attributed(hunks, idx) {
        Some(c) => {
            &&& t.author@ == c.author@
            &&& t.commit_id@ == c.id@
            &&& t.commit_time == c.time
        },
        None => {
            &&& t.author@ == unattributed_author()
            &&& t.commit_id@ == unattributed_id()
            &&& t.commit_time == now
        },
    }
}

/// `r` holds, in line order, the annotation of each line of the file that
/// yields one.
pub open spec fn is_file_result(
    r: Seq<Todo>,
    path: Seq<char>,
    lines: Seq<Seq<char>>,
    hunks: Seq<Hunk>,
    now: Timestamp,
) -> bool {
    &&& r.len() == emitted(lines, lines.len() as int).len()
    &&& forall|k: int|
        0 <= k < r.len() ==> is_todo_of(
            #[trigger] r[k],
            path,
            lines,
            emitted(lines, lines.len() as int)[k],
            hunks,
            now,
        )
}

/// The run lengths of the hunks.
fn run_lengths(hunks: &Vec<Hunk>) -> (r: Vec<usize>)
    ensures
        r@ == runs_of(hunks@),
{
    let mut r: Vec<usize> = Vec::new();
    let mut i: usize = 0;
    while i < hunks.len()
        invariant
            i <= hunks@.len(),
            r@ == runs_of(hunks@).take(i as int),
        decreases hunks@.len() - i,
    {
        r.push(hunks[i].lines);
        i = i + 1;
        assert(r@ =~= runs_of(hunks@).take(i as int));
    }
    assert(r@ =~= runs_of(hunks@));
    r
}

/// The annotations of one file, in line order. `lines` are the file's lines,
/// `hunks` its history attribution from the first line on, `now` the time
/// given to lines that no hunk covers. Lines whose message is empty are left
/// out.
pub fn file_todos(path: &String, lines: &Vec<String>, hunks: &Vec<Hunk>, now: Timestamp) -> (r:
    Vec<Todo>)
    ensures
        is_file_result(r@, path@, lines_view(lines@), hunks@, now),
        forall|k: int| 0 <= k < r@.len() ==> (#[trigger] r@[k]).message@.len() > 0,
{
    let runs = run_lengths(hunks);
    let map = build_line_map_capped(&runs, lines.len());
    let ghost lv = lines_view(lines@);
    let mut r: Vec<Todo> = Vec::new();
    let mut idx: usize = 0;
    while idx < lines.len()
        invariant
            runs@ == runs_of(hunks@),
            map@.len() == min(total(runs@), lines@.len() as int),
            forall|j: int| 0 <= j < map@.len() ==> owner(runs@, j) == Some(#[trigger] map@[j] as int),
            lv == lines_view(lines@),
            idx <= lines@.len(),
            r@.len() == emitted(lv, idx as int).len(),
            forall|k: int|
                0 <= k < r@.len() ==> is_todo_of(
                    #[trigger] r@[k],
                    path@,
                    lv,
                    emitted(lv, idx as int)[k],
                    hunks@,
                    now,
                ),
            forall|k: int| 0 <= k < r@.len() ==> (#[trigger] r@[k]).message@.len() > 0,
        decreases lines@.len() - idx,
    {
        let text: &str = lines[idx].as_str();
        let parsed = parse_todo(text);
        assert(lv[idx as int] == lines@[idx as int]@);
        match parsed {
            Some(Annotation { tags, message }) => {
                if message.unicode_len() > 0 {
                    let commit: Option<&CommitSummary> = if idx < map.len() {
                        let h = map[idx];
                        proof {
                            lemma_owner_range(runs@, idx as int);
                        }
                        match &hunks[h].commit {
                            Some(c) => Some(c),
                            None => None,
                        }
                    } else {
                        proof {
                            lemma_owner_beyond(runs@, idx as int);
                        }
                        None
                    };
                    let author: String;
                    let commit_id: String;
                    let commit_time: Timestamp;
                    match commit {
                        Some(c) => {
                            author = c.author.clone();
                            commit_id = c.id.clone();
                            commit_time = c.time;
                        },
                        None => {
                            author = "Uncommitted".to_owned();
                            commit_id = "0000000000000000000000000000000000000000".to_owned();
                            commit_time = now;
                        },
                    }
                    let t = Todo {
                        file_path: path.clone(),
                        line: idx + 1,
                        tags,
                        message,
                        text: lines[idx].clone(),
                        author,
                        commit_id,
                        commit_time,
                    };
                    r.push(t);
                    proof {
                        assert(emitted(lv, idx + 1) == emitted(lv, idx as int).push(idx as int));
                    }
                } else {
                    assert(emitted(lv, idx + 1) == emitted(lv, idx as int));
                }
            },
            None => {
                assert(emitted(lv, idx + 1) == emitted(lv, idx as int));
            },
        }
        idx = idx + 1;
    }
    assert(lv.len() == lines@.len());
    r
}

proof fn lemma_owner_beyond(runs: Seq<usize>, j: int)
    requires
        j >= total(runs),
    ensures
        owner(runs, j).is_none(),
    decreases runs.len(),
{
    if runs.len() > 0 {
        lemma_total_prefix(runs, runs.len() - 1);
        assert(runs.take(runs.len() - 1) =~= runs.drop_last());
        lemma_owner_beyond(runs.drop_last(), j);
    }
}


/// How many leading bytes of a file decide whether it is text.
pub const TEXT_PROBE_LEN: usize = 1024;

/// Whether the leading bytes of a file mark it as text: they hold no NUL.
pub fn looks_like_text(prefix: &[u8]) -> (r: bool)
    ensures
        r == !prefix@.contains(0u8),
{
    let mut i: usize = 0;
    while i < prefix.len()
        invariant
            i <= prefix@.len(),
            forall|k: int| 0 <= k < i ==> prefix@[k] != 0u8,
        decreases prefix@.len() - i,
    {
        if prefix[i] == 0u8 {
            return false;
        }
        i = i + 1;
    }
    true
}

} // verus!
