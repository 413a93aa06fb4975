//! Grouping annotations by commit, tag and author, in the report's order.
//!
//! The grouped tree (commit, then tag, then author, then annotations) is
//! held flat: one leaf per key, sorted by the key, so that leaves of one
//! commit, and of one tag within it, stand next to each other.

use crate::collect::{Timestamp, Todo};
use crate::order::{
    compare_str, key_lt, lemma_key_lt_irrefl, lemma_key_lt_total, lemma_key_lt_trans, KeyView,
};
use vstd::prelude::*;

verus! {

/// The annotations, by index into the grouped list, filed under one key.
pub struct Leaf {
    pub commit_id: String,
    pub time: Timestamp,
    /// `None` for annotations without a tag.
    pub tag: Option<String>,
    pub author: String,
    /// Indices of the annotations, in the order they were found.
    pub items: Vec<usize>,
}

pub open spec fn opt_view(t: Option<String>) -> Option<Seq<char>> {
    match t {
        Some(s) => Some(s@),
        None => None,
    }
}

impl Leaf {
    pub open spec fn key(&self) -> KeyView {
        KeyView {
            secs: self.time.secs,
            nanos: self.time.nanos,
            id: self.commit_id@,
            tag: opt_view(self.tag),
            author: self.author@,
        }
    }
}

/// One filing of an annotation: under which key, and which annotation.
pub struct Entry {
    pub key: KeyView,
    pub index: usize,
}

/// The number of tags an annotation is filed under: one per tag, or one
/// for "no tag".
pub open spec fn fan_out(t: Todo) -> int {
    if t.tags@.len() == 0 {
        1
    } else {
        t.tags@.len() as int
    }
}

/// The `j`-th tag an annotation is filed under.
pub open spec fn filed_tag(t: Todo, j: int) -> Option<Seq<char>> {
    if t.tags@.len() == 0 {
        None
    } else {
        Some(t.tags@[j]@)
    }
}

pub open spec fn make_key(
    time: Timestamp,
    id: Seq<char>,
    tag: Option<Seq<char>>,
    author: Seq<char>,
) -> KeyView {
    KeyView { secs: time.secs, nanos: time.nanos, id, tag, author }
}

pub open spec fn key_of(t: Todo, tag: Option<Seq<char>>) -> KeyView {
    KeyView {
        secs: t.commit_time.secs,
        nanos: t.commit_time.nanos,
        id: t.commit_id@,
        tag,
        author: t.author@,
    }
}

/// The filings of annotation `t`, found at index `i`.
pub open spec fn todo_entries(t: Todo, i: int) -> Seq<Entry> {
    Seq::new(fan_out(t) as nat, |j: int| Entry { key: key_of(t, filed_tag(t, j)), index: i as usize })
}

/// The filings of the first `n` annotations, in order.
pub open spec fn entries(todos: Seq<Todo>, n: int) -> Seq<Entry>
    decreases n,
{
    if n <= 0 {
        Seq::empty()
    } else {
        entries(todos, n - 1) + todo_entries(todos[n - 1], n - 1)
    }
}

/// The indices filed under key `k`, in the order of the filings.
pub open spec fn leaf_items(es: Seq<Entry>, k: KeyView) -> Seq<usize>
    decreases es.len(),
{
    if es.len() == 0 {
        Seq::empty()
    } else if es.last().key == k {
        leaf_items(es.drop_last(), k).push(es.last().index)
    } else {
        leaf_items(es.drop_last(), k)
    }
}

/// The leaves are strictly sorted by key.
pub open spec fn sorted(leaves: Seq<Leaf>) -> bool {
    forall|i: int, j: int| 0 <= i < j < leaves.len() ==> key_lt(leaves[i].key(), leaves[j].key())
}

/// `leaves` is exactly the grouping of the filings `es`: sorted by key, one
/// leaf for each key that some filing has, each holding the indices filed
/// under its key.
pub open spec fn groups(leaves: Seq<Leaf>, es: Seq<Entry>) -> bool {
    &&& sorted(leaves)
    &&& forall|q: int|
        0 <= q < leaves.len() ==> (#[trigger] leaves[q]).items@ == leaf_items(es, leaves[q].key())
            && leaves[q].items@.len() > 0
    &&& forall|m: int|
        0 <= m < es.len() ==> exists|q: int| 0 <= q < leaves.len() && (#[trigger] leaves[q]).key() == (
        #[trigger] es[m]).key
}

proof fn lemma_leaf_items_absent(es: Seq<Entry>, k: KeyView)
    requires
        forall|m: int| 0 <= m < es.len() ==> (#[trigger] es[m]).key != k,
    ensures
        leaf_items(es, k) == Seq::<usize>::empty(),
    decreases es.len(),
{
    if es.len() > 0 {
        assert(es.last() == es[es.len() - 1]);
        lemma_leaf_items_absent(es.drop_last(), k);
    }
}

fn compare_time(a: Timestamp, b: Timestamp) -> (r: i8)
    ensures
        (r == 0) == (a == b),
        (r < 0) == (a.secs < b.secs || (a.secs == b.secs && a.nanos < b.nanos)),
        (r > 0) == (b.secs < a.secs || (a.secs == b.secs && b.nanos < a.nanos)),
{
    if a.secs < b.secs {
        -1
    } else if a.secs > b.secs {
        1
    } else if a.nanos < b.nanos {
        -1
    } else if a.nanos > b.nanos {
        1
    } else {
        0
    }
}

/// Compares the key of `l` with the key made of the other arguments.
fn compare_key(l: &Leaf, time: Timestamp, id: &String, tag: &Option<String>, author: &String) -> (r:
    i8)
    ensures
        (r == 0) == (l.key() == make_key(time, id@, opt_view(*tag), author@)),
        (r < 0) == key_lt(l.key(), make_key(time, id@, opt_view(*tag), author@)),
        (r > 0) == key_lt(make_key(time, id@, opt_view(*tag), author@), l.key()),
{
    let c = compare_time(l.time, time);
    if c != 0 {
        return c;
    }
    let c = compare_str(l.commit_id.as_str(), id.as_str());
    if c != 0 {
        return c;
    }
    let c: i8 = match (&l.tag, tag) {
        (None, None) => 0,
        (None, Some(_)) => -1,
        (Some(_), None) => 1,
        (Some(x), Some(y)) => compare_str(x.as_str(), y.as_str()),
    };
    if c != 0 {
        return c;
    }
    compare_str(l.author.as_str(), author.as_str())
}

fn clone_tag(tag: &Option<String>) -> (r: Option<String>)
    ensures
        opt_view(r) == opt_view(*tag),
{
    match tag {
        Some(s) => Some(s.clone()),
        None => None,
    }
}

/// Files annotation `index` under the key made of the other arguments.
fn add_entry(
    leaves: &mut Vec<Leaf>,
    time: Timestamp,
    id: &String,
    tag: &Option<String>,
    author: &String,
    index: usize,
    Ghost(es): Ghost<Seq<Entry>>,
)
    requires
        groups(old(leaves)@, es),
    ensures
        groups(
            final(leaves)@,
            es.push(
                (Entry { key: make_key(time, id@, opt_view(*tag), author@), index }),
            ),
        ),
{
    let ghost k = make_key(time, id@, opt_view(*tag), author@);
    let ghost e = Entry { key: k, index };
    let ghost es2 = es.push(e);
    let ghost old_leaves = leaves@;
    let mut p: usize = 0;
    loop
        invariant
            leaves@ == old_leaves,
            k == make_key(time, id@, opt_view(*tag), author@),
            p <= leaves@.len(),
            forall|q: int| 0 <= q < p ==> key_lt((#[trigger] leaves@[q]).key(), k),
        ensures
            p < leaves@.len() ==> !key_lt(leaves@[p as int].key(), k),
        decreases leaves@.len() - p,
    {
        if p >= leaves.len() {
            break;
        }
        let c = compare_key(&leaves[p], time, id, tag, author);
        if c >= 0 {
            break;
        }
        p = p + 1;
    }
    let c: i8 = if p < leaves.len() {
        compare_key(&leaves[p], time, id, tag, author)
    } else {
        1
    };
    proof {
        assert(es2.drop_last() =~= es);
        assert forall|kk: KeyView| kk != k implies leaf_items(es2, kk) == leaf_items(es, kk) by {}
        assert(leaf_items(es2, k) == leaf_items(es, k).push(index));
    }
    if p < leaves.len() && c == 0 {
        let mut l = leaves.remove(p);
        l.items.push(index);
        leaves.insert(p, l);
        proof {
            assert(leaves@ =~= old_leaves.update(p as int, l));
            assert forall|q: int| 0 <= q < leaves@.len() implies (#[trigger] leaves@[q]).items@
                == leaf_items(es2, leaves@[q].key()) && leaves@[q].items@.len() > 0 by {
                if q != p {
                    lemma_key_lt_irrefl(k);
                }
            }
            assert forall|m: int| 0 <= m < es2.len() implies exists|q: int|
                0 <= q < leaves@.len() && (#[trigger] leaves@[q]).key() == (
                #[trigger] es2[m]).key by {
                if m < es.len() {
                    assert(es2[m] == es[m]);
                    let q = choose|q: int|
                        0 <= q < old_leaves.len() && (#[trigger] old_leaves[q]).key() == es[m].key;
                    assert(leaves@[q].key() == es2[m].key);
                } else {
                    assert(leaves@[p as int].key() == es2[m].key);
                }
            }
        }
    } else {
        let items: Vec<usize> = vec![index];
        let l = Leaf {
            commit_id: id.clone(),
            time,
            tag: clone_tag(tag),
            author: author.clone(),
            items,
        };
        leaves.insert(p, l);
        proof {
            assert(l.key() == k);
            assert forall|m: int| 0 <= m < es.len() implies (#[trigger] es[m]).key != k by {
                let q = choose|q: int|
                    0 <= q < old_leaves.len() && (#[trigger] old_leaves[q]).key() == es[m].key;
                lemma_key_lt_irrefl(k);
                if q >= p {
                    assert(key_lt(k, old_leaves[p as int].key()));
                    if q > p {
                        assert(key_lt(old_leaves[p as int].key(), old_leaves[q].key()));
                        lemma_key_lt_trans(k, old_leaves[p as int].key(), old_leaves[q].key());
                    }
                }
            }
            lemma_leaf_items_absent(es, k);
            assert(l.items@ =~= leaf_items(es2, k));
            if p < old_leaves.len() {
                lemma_key_lt_total(old_leaves[p as int].key(), k);
                assert(key_lt(k, old_leaves[p as int].key()));
            }
            assert forall|i: int, j: int| 0 <= i < j < leaves@.len() implies key_lt(
                leaves@[i].key(),
                leaves@[j].key(),
            ) by {
                if j < p {
                } else if j == p {
                } else if i < p {
                    if j > p + 1 {
                        assert(key_lt(old_leaves[p as int].key(), old_leaves[j - 1].key()));
                        lemma_key_lt_trans(k, old_leaves[p as int].key(), old_leaves[j - 1].key());
                    }
                    lemma_key_lt_trans(leaves@[i].key(), k, leaves@[j].key());
                } else if i == p {
                    if j > p + 1 {
                        assert(key_lt(old_leaves[p as int].key(), old_leaves[j - 1].key()));
                        lemma_key_lt_trans(k, old_leaves[p as int].key(), old_leaves[j - 1].key());
                    }
                } else {
                    assert(leaves@[i] == old_leaves[i - 1]);
                    assert(leaves@[j] == old_leaves[j - 1]);
                }
            }
            assert forall|q: int| 0 <= q < leaves@.len() implies (#[trigger] leaves@[q]).items@
                == leaf_items(es2, leaves@[q].key()) && leaves@[q].items@.len() > 0 by {
                lemma_key_lt_irrefl(k);
                if q > p {
                    assert(leaves@[q] == old_leaves[q - 1]);
                }
            }
            assert forall|m: int| 0 <= m < es2.len() implies exists|q: int|
                0 <= q < leaves@.len() && (#[trigger] leaves@[q]).key() == (
                #[trigger] es2[m]).key by {
                if m < es.len() {
                    assert(es2[m] == es[m]);
                    let q = choose|q: int|
                        0 <= q < old_leaves.len() && (#[trigger] old_leaves[q]).key() == es[m].key;
                    if q < p {
                        assert(leaves@[q].key() == es2[m].key);
                    } else {
                        assert(leaves@[q + 1].key() == es2[m].key);
                    }
                } else {
                    assert(leaves@[p as int].key() == es2[m].key);
                }
            }
        }
    }
}


/// Groups annotations by commit, tag and author. Each leaf holds the
/// indices into `todos` of the annotations filed under its key, in the
/// order of `todos`; an annotation with several tags is filed once under
/// each, one without tags under "no tag". Leaves come in the report's
/// order: oldest commit first, then no tag before named tags, tags and
/// authors lexically.
pub fn group_todos(todos: &Vec<Todo>) -> (r: Vec<Leaf>)
    ensures
        groups(r@, entries(todos@, todos@.len() as int)),
{
    let mut leaves: Vec<Leaf> = Vec::new();
    let mut i: usize = 0;
    while i < todos.len()
        invariant
            i <= todos@.len(),
            groups(leaves@, entries(todos@, i as int)),
        decreases todos@.len() - i,
    {
        let t = &todos[i];
        let ghost base = entries(todos@, i as int);
        let ghost te = todo_entries(*t, i as int);
        assert(entries(todos@, i + 1) == base + te);
        if t.tags.len() == 0 {
            let none: Option<String> = None;
            add_entry(&mut leaves, t.commit_time, &t.commit_id, &none, &t.author, i, Ghost(base));
            assert(base.push(te[0]) =~= base + te);
        } else {
            let mut j: usize = 0;
            assert(base + te.take(0) =~= base);
            while j < t.tags.len()
                invariant
                    *t == todos@[i as int],
                    te == todo_entries(*t, i as int),
                    t.tags@.len() > 0,
                    j <= t.tags@.len(),
                    groups(leaves@, base + te.take(j as int)),
                decreases t.tags@.len() - j,
            {
                let tag: Option<String> = Some(t.tags[j].clone());
                add_entry(
                    &mut leaves,
                    t.commit_time,
                    &t.commit_id,
                    &tag,
                    &t.author,
                    i,
                    Ghost(base + te.take(j as int)),
                );
                assert((base + te.take(j as int)).push(te[j as int]) =~= base + te.take(j + 1));
                j = j + 1;
            }
            assert(te.take(j as int) =~= te);
        }
        i = i + 1;
    }
    leaves
}

} // verus!
