//! Properties of the report as a whole, proved over the contracts of the
//! functions that build it.

use crate::collect::{is_file_result, Hunk, Timestamp, Todo};
use crate::group::{
    entries, fan_out, filed_tag, groups, key_of, leaf_items, opt_view, sorted, todo_entries, Entry,
    Leaf,
};
use crate::order::{KeyView, key_lt, lemma_key_lt_irrefl, lemma_key_lt_trans, lemma_seq_lt_irrefl};
use vstd::prelude::*;

verus! {

/// In a sorted report, groups of older commits come before those of newer
/// ones, and within one commit, annotations without a tag come before
/// those with one.
pub proof fn lemma_report_order(leaves: Seq<Leaf>, i: int, j: int)
    requires
        sorted(leaves),
        0 <= i < leaves.len(),
        0 <= j < leaves.len(),
    ensures
        (leaves[i].time.secs < leaves[j].time.secs || (leaves[i].time.secs == leaves[j].time.secs
            && leaves[i].time.nanos < leaves[j].time.nanos)) ==> i < j,
        (leaves[i].time == leaves[j].time && leaves[i].commit_id@ == leaves[j].commit_id@
            && leaves[i].tag.is_none() && leaves[j].tag.is_some()) ==> i < j,
{
    if j < i {
        assert(key_lt(leaves[j].key(), leaves[i].key()));
        lemma_seq_lt_irrefl(leaves[i].commit_id@);
        if leaves[i].tag.is_none() && leaves[j].tag.is_some() {
            assert(opt_view(leaves[i].tag).is_none());
            assert(opt_view(leaves[j].tag).is_some());
        }
    }
}


/// The keys of a list, strictly increasing.
pub open spec fn increasing(s: Seq<KeyView>) -> bool {
    forall|i: int, j: int| 0 <= i < j < s.len() ==> key_lt(s[i], s[j])
}

proof fn lemma_increasing_unique(a: Seq<KeyView>, b: Seq<KeyView>)
    requires
        increasing(a),
        increasing(b),
        forall|x: KeyView| a.contains(x) <==> b.contains(x),
    ensures
        a == b,
    decreases a.len(),
{
    if a.len() == 0 {
        if b.len() > 0 {
            assert(b.contains(b[0]));
        }
        assert(a =~= b);
    } else {
        assert(a.contains(a[0]));
        let j = choose|j: int| 0 <= j < b.len() && b[j] == a[0];
        assert(b.contains(b[0]));
        let i = choose|i: int| 0 <= i < a.len() && a[i] == b[0];
        if j > 0 {
            assert(key_lt(b[0], b[j]));
            lemma_key_lt_irrefl(a[0]);
            if i > 0 {
                assert(key_lt(a[0], a[i]));
                lemma_key_lt_trans(a[0], a[i], a[0]);
            }
        }
        let a1 = a.drop_first();
        let b1 = b.drop_first();
        assert forall|x: KeyView| a1.contains(x) <==> b1.contains(x) by {
            if a1.contains(x) {
                let p = choose|p: int| 0 <= p < a1.len() && a1[p] == x;
                assert(key_lt(a[0], a[p + 1]));
                lemma_key_lt_irrefl(a[0]);
                assert(a.contains(x));
                let q = choose|q: int| 0 <= q < b.len() && b[q] == x;
                assert(q != 0);
                assert(b1[q - 1] == x);
            }
            if b1.contains(x) {
                let p = choose|p: int| 0 <= p < b1.len() && b1[p] == x;
                assert(key_lt(b[0], b[p + 1]));
                lemma_key_lt_irrefl(b[0]);
                assert(b.contains(x));
                let q = choose|q: int| 0 <= q < a.len() && a[q] == x;
                assert(q != 0);
                assert(a1[q - 1] == x);
            }
        }
        lemma_increasing_unique(a1, b1);
        assert(a =~= seq![a[0]] + a1);
        assert(b =~= seq![b[0]] + b1);
    }
}

proof fn lemma_filed_key(es: Seq<Entry>, k: KeyView)
    requires
        leaf_items(es, k).len() > 0,
    ensures
        exists|m: int| 0 <= m < es.len() && (#[trigger] es[m]).key == k,
    decreases es.len(),
{
    if es.last().key == k {
        assert(es[es.len() - 1].key == k);
    } else {
        lemma_filed_key(es.drop_last(), k);
        let m = choose|m: int| 0 <= m < es.len() - 1 && (#[trigger] es.drop_last()[m]).key == k;
        assert(es[m] == es.drop_last()[m]);
    }
}

pub open spec fn keys(leaves: Seq<Leaf>) -> Seq<KeyView> {
    leaves.map_values(|l: Leaf| l.key())
}

proof fn lemma_keys_within(a: Seq<Leaf>, b: Seq<Leaf>, es: Seq<Entry>)
    requires
        groups(a, es),
        groups(b, es),
    ensures
        forall|x: KeyView| keys(a).contains(x) ==> keys(b).contains(x),
{
    assert forall|x: KeyView| keys(a).contains(x) implies keys(b).contains(x) by {
        let q = choose|q: int| 0 <= q < keys(a).len() && keys(a)[q] == x;
        assert(a[q].items@ == leaf_items(es, x));
        lemma_filed_key(es, x);
        let m = choose|m: int| 0 <= m < es.len() && (#[trigger] es[m]).key == x;
        let q2 = choose|q2: int| 0 <= q2 < b.len() && (#[trigger] b[q2]).key() == es[m].key;
        assert(keys(b)[q2] == x);
    }
}

/// Grouping is determined by the annotations: two groupings of the same
/// annotations have the same leaves, with the same keys and the same
/// annotations in each, in the same order.
pub proof fn lemma_grouping_unique(todos: Seq<Todo>, a: Seq<Leaf>, b: Seq<Leaf>)
    requires
        groups(a, entries(todos, todos.len() as int)),
        groups(b, entries(todos, todos.len() as int)),
    ensures
        a.len() == b.len(),
        forall|q: int| 0 <= q < a.len() ==> a[q].key() == b[q].key() && a[q].items@ == b[q].items@,
{
    let es = entries(todos, todos.len() as int);
    lemma_keys_within(a, b, es);
    lemma_keys_within(b, a, es);
    assert(increasing(keys(a)));
    assert(increasing(keys(b)));
    lemma_increasing_unique(keys(a), keys(b));
    assert forall|q: int| 0 <= q < a.len() implies a[q].key() == b[q].key() && a[q].items@
        == b[q].items@ by {
        assert(keys(a)[q] == keys(b)[q]);
    }
}


proof fn lemma_leaf_items_contains(es: Seq<Entry>, k: KeyView, i: usize)
    ensures
        leaf_items(es, k).contains(i) <==> exists|m: int|
            0 <= m < es.len() && (#[trigger] es[m]).key == k && es[m].index == i,
    decreases es.len(),
{
    if es.len() > 0 {
        let e = es.last();
        let p = leaf_items(es.drop_last(), k);
        lemma_leaf_items_contains(es.drop_last(), k, i);
        if leaf_items(es, k).contains(i) {
            if e.key == k && e.index == i {
                assert(es[es.len() - 1] == e);
            } else {
                if e.key == k {
                    let w = choose|w: int| 0 <= w < p.len() + 1 && p.push(e.index)[w] == i;
                    assert(p[w] == i);
                }
                assert(p.contains(i));
                let m = choose|m: int|
                    0 <= m < es.len() - 1 && (#[trigger] es.drop_last()[m]).key == k
                        && es.drop_last()[m].index == i;
                assert(es[m] == es.drop_last()[m]);
            }
        }
        if exists|m: int| 0 <= m < es.len() && (#[trigger] es[m]).key == k && es[m].index == i {
            let m = choose|m: int| 0 <= m < es.len() && (#[trigger] es[m]).key == k && es[m].index == i;
            if m == es.len() - 1 {
                assert(leaf_items(es, k).last() == i);
            } else {
                assert(es.drop_last()[m] == es[m]);
                assert(p.contains(i));
                let w = choose|w: int| 0 <= w < p.len() && p[w] == i;
                if e.key == k {
                    assert(p.push(e.index)[w] == i);
                }
            }
        }
    }
}

/// Where annotation `i` is filed among the first `n`: under the keys of its
/// own tags, if `i < n`.
proof fn lemma_entries_of(todos: Seq<Todo>, n: int, i: usize, k: KeyView)
    requires
        0 <= n <= todos.len() <= usize::MAX,
    ensures
        (exists|m: int|
            0 <= m < entries(todos, n).len() && (#[trigger] entries(todos, n)[m]).key == k
                && entries(todos, n)[m].index == i) <==> (i < n && exists|j: int|
            0 <= j < fan_out(todos[i as int]) && key_of(
                todos[i as int],
                #[trigger] filed_tag(todos[i as int], j),
            ) == k),
    decreases n,
{
    if n > 0 {
        lemma_entries_of(todos, n - 1, i, k);
        lemma_entries_below(todos, n - 1);
        let prev = entries(todos, n - 1);
        let te = todo_entries(todos[n - 1], n - 1);
        let es = entries(todos, n);
        assert(es == prev + te);
        if exists|m: int| 0 <= m < es.len() && (#[trigger] es[m]).key == k && es[m].index == i {
            let m = choose|m: int| 0 <= m < es.len() && (#[trigger] es[m]).key == k && es[m].index == i;
            if m < prev.len() {
                assert(prev[m] == es[m]);
            } else {
                assert(te[m - prev.len()] == es[m]);
                assert(i == n - 1);
                let j = m - prev.len();
                assert(key_of(todos[i as int], filed_tag(todos[i as int], j)) == k);
            }
        }
        if i < n && exists|j: int|
            0 <= j < fan_out(todos[i as int]) && key_of(
                todos[i as int],
                #[trigger] filed_tag(todos[i as int], j),
            ) == k {
            if i < n - 1 {
                let m = choose|m: int|
                    0 <= m < prev.len() && (#[trigger] prev[m]).key == k && prev[m].index == i;
                assert(es[m] == prev[m]);
            } else {
                let j = choose|j: int|
                    0 <= j < fan_out(todos[i as int]) && key_of(
                        todos[i as int],
                        #[trigger] filed_tag(todos[i as int], j),
                    ) == k;
                assert(es[prev.len() + j] == te[j]);
            }
        }
    }
}

proof fn lemma_entries_below(todos: Seq<Todo>, n: int)
    requires
        0 <= n <= todos.len() <= usize::MAX,
    ensures
        forall|m: int| 0 <= m < entries(todos, n).len() ==> (#[trigger] entries(todos, n)[m]).index < n,
    decreases n,
{
    if n > 0 {
        lemma_entries_below(todos, n - 1);
        let prev = entries(todos, n - 1);
        let te = todo_entries(todos[n - 1], n - 1);
        assert forall|m: int| 0 <= m < entries(todos, n).len() implies (#[trigger] entries(
            todos,
            n,
        )[m]).index < n by {
            if m < prev.len() {
                assert(entries(todos, n)[m] == prev[m]);
            } else {
                assert(entries(todos, n)[m] == te[m - prev.len()]);
            }
        }
    }
}

proof fn lemma_leaf_items_concat(a: Seq<Entry>, b: Seq<Entry>, k: KeyView)
    ensures
        leaf_items(a + b, k) == leaf_items(a, k) + leaf_items(b, k),
    decreases b.len(),
{
    if b.len() == 0 {
        assert(a + b =~= a);
        assert(leaf_items(a, k) + leaf_items(b, k) =~= leaf_items(a, k));
    } else {
        lemma_leaf_items_concat(a, b.drop_last(), k);
        assert((a + b).drop_last() =~= a + b.drop_last());
        assert((a + b).last() == b.last());
        if b.last().key == k {
            assert(leaf_items(a, k) + leaf_items(b.drop_last(), k).push(b.last().index) =~= (
            leaf_items(a, k) + leaf_items(b.drop_last(), k)).push(b.last().index));
        }
    }
}

proof fn lemma_leaf_items_bound(es: Seq<Entry>, k: KeyView, lo: int, hi: int)
    requires
        forall|m: int| 0 <= m < es.len() ==> lo <= (#[trigger] es[m]).index < hi,
    ensures
        forall|w: int|
            0 <= w < leaf_items(es, k).len() ==> lo <= #[trigger] leaf_items(es, k)[w] < hi,
    decreases es.len(),
{
    if es.len() > 0 {
        assert(es.last() == es[es.len() - 1]);
        assert forall|m: int| 0 <= m < es.drop_last().len() implies lo <= (
        #[trigger] es.drop_last()[m]).index < hi by {
            assert(es.drop_last()[m] == es[m]);
        }
        lemma_leaf_items_bound(es.drop_last(), k, lo, hi);
        let p = leaf_items(es.drop_last(), k);
        assert forall|w: int| 0 <= w < leaf_items(es, k).len() implies lo
            <= #[trigger] leaf_items(es, k)[w] < hi by {
            if w < p.len() {
                assert(leaf_items(es, k)[w] == p[w]);
            }
        }
    }
}

proof fn lemma_entries_split(todos: Seq<Todo>, m: int, n: int)
    requires
        0 <= m <= n <= todos.len() <= usize::MAX,
    ensures
        entries(todos, m).len() <= entries(todos, n).len(),
        entries(todos, n) == entries(todos, m) + entries(todos, n).skip(
            entries(todos, m).len() as int,
        ),
        forall|j: int|
            0 <= j < entries(todos, n).len() - entries(todos, m).len() ==> m <= (
            #[trigger] entries(todos, n).skip(entries(todos, m).len() as int)[j]).index,
    decreases n,
{
    let em = entries(todos, m);
    let en = entries(todos, n);
    if n == m {
        assert(en =~= em + en.skip(em.len() as int));
    } else {
        lemma_entries_split(todos, m, n - 1);
        let prev = entries(todos, n - 1);
        let te = todo_entries(todos[n - 1], n - 1);
        assert(en == prev + te);
        let tail = prev.skip(em.len() as int);
        assert(en.skip(em.len() as int) =~= tail + te);
        assert(en =~= em + (tail + te));
        assert forall|j: int| 0 <= j < en.len() - em.len() implies m <= (#[trigger] en.skip(
            em.len() as int,
        )[j]).index by {
            if j < tail.len() {
                assert((tail + te)[j] == tail[j]);
            } else {
                assert((tail + te)[j] == te[j - tail.len()]);
            }
        }
    }
}

/// Annotation `i`, filed under key `k` by exactly one of its own tags,
/// stands once in the indices filed under `k`.
proof fn lemma_filed_once(todos: Seq<Todo>, i: int, k: KeyView)
    requires
        todos.len() <= usize::MAX,
        0 <= i < todos.len(),
        leaf_items(todo_entries(todos[i], i), k) == seq![i as usize],
    ensures
        forall|w1: int, w2: int|
            0 <= w1 < leaf_items(entries(todos, todos.len() as int), k).len() && 0 <= w2
                < leaf_items(entries(todos, todos.len() as int), k).len() && leaf_items(
                entries(todos, todos.len() as int),
                k,
            )[w1] == i && leaf_items(entries(todos, todos.len() as int), k)[w2] == i ==> w1 == w2,
{
    let n = todos.len() as int;
    let before = entries(todos, i);
    let te = todo_entries(todos[i], i);
    lemma_entries_split(todos, i + 1, n);
    let tail = entries(todos, n).skip(entries(todos, i + 1).len() as int);
    assert(entries(todos, i + 1) == before + te);
    assert(entries(todos, n) == before + te + tail);
    lemma_leaf_items_concat(before + te, tail, k);
    lemma_leaf_items_concat(before, te, k);
    lemma_entries_below(todos, i);
    lemma_leaf_items_bound(before, k, 0, i);
    lemma_leaf_items_bound(tail, k, i + 1, usize::MAX + 1);
    let l1 = leaf_items(before, k);
    let l3 = leaf_items(tail, k);
    let all = leaf_items(entries(todos, n), k);
    assert(all == l1 + seq![i as usize] + l3);
    assert forall|w: int| 0 <= w < all.len() && all[w] == i implies w == l1.len() by {
        if w < l1.len() {
            assert(all[w] == l1[w]);
        } else if w > l1.len() {
            assert(all[w] == l3[w - l1.len() - 1]);
        }
    }
}

/// An annotation with the two distinct tags `x` and `y` stands in exactly two
/// leaves, once in each: the ones for `x` and for `y`, under its own commit
/// and author.
pub proof fn lemma_fan_out(todos: Seq<Todo>, leaves: Seq<Leaf>, i: usize, x: Seq<char>, y: Seq<char>)
    requires
        todos.len() <= usize::MAX,
        i < todos.len(),
        todos[i as int].tags_view() == seq![x, y],
        x != y,
        groups(leaves, entries(todos, todos.len() as int)),
    ensures
        forall|q: int|
            0 <= q < leaves.len() ==> ((#[trigger] leaves[q]).items@.contains(i) <==> (leaves[q].key()
                == key_of(todos[i as int], Some(x)) || leaves[q].key() == key_of(
                todos[i as int],
                Some(y),
            ))),
        exists|q1: int, q2: int|
            0 <= q1 < leaves.len() && 0 <= q2 < leaves.len() && q1 != q2 && leaves[q1].key()
                == key_of(todos[i as int], Some(x)) && leaves[q2].key() == key_of(
                todos[i as int],
                Some(y),
            ),
        forall|q: int, w1: int, w2: int|
            #![trigger leaves[q].items@[w1], leaves[q].items@[w2]]
            0 <= q < leaves.len() && 0 <= w1 < leaves[q].items@.len() && 0 <= w2
                < leaves[q].items@.len() && leaves[q].items@[w1] == i && leaves[q].items@[w2] == i
                ==> w1 == w2,
{
    let t = todos[i as int];
    let n = todos.len() as int;
    let es = entries(todos, n);
    assert(t.tags_view().len() == 2);
    assert(t.tags@.len() == 2);
    assert(t.tags@[0]@ == x);
    assert(t.tags@[1]@ == y);
    assert(filed_tag(t, 0) == Some(x));
    assert(filed_tag(t, 1) == Some(y));
    assert forall|q: int| 0 <= q < leaves.len() implies ((#[trigger] leaves[q]).items@.contains(i)
        <==> (leaves[q].key() == key_of(t, Some(x)) || leaves[q].key() == key_of(t, Some(y)))) by {
        let k = leaves[q].key();
        lemma_leaf_items_contains(es, k, i);
        lemma_entries_of(todos, n, i, k);
        if leaves[q].items@.contains(i) {
            let j = choose|j: int| 0 <= j < fan_out(t) && key_of(t, #[trigger] filed_tag(t, j)) == k;
            assert(j == 0 || j == 1);
        }
        if k == key_of(t, Some(x)) {
            assert(key_of(t, filed_tag(t, 0)) == k);
        }
        if k == key_of(t, Some(y)) {
            assert(key_of(t, filed_tag(t, 1)) == k);
        }
    }
    lemma_entries_of(todos, n, i, key_of(t, Some(x)));
    lemma_entries_of(todos, n, i, key_of(t, Some(y)));
    assert(key_of(t, filed_tag(t, 0)) == key_of(t, Some(x)));
    assert(key_of(t, filed_tag(t, 1)) == key_of(t, Some(y)));
    let mx = choose|m: int| 0 <= m < es.len() && (#[trigger] es[m]).key == key_of(t, Some(x)) && es[m].index == i;
    let my = choose|m: int| 0 <= m < es.len() && (#[trigger] es[m]).key == key_of(t, Some(y)) && es[m].index == i;
    let q1 = choose|q: int| 0 <= q < leaves.len() && (#[trigger] leaves[q]).key() == es[mx].key;
    let q2 = choose|q: int| 0 <= q < leaves.len() && (#[trigger] leaves[q]).key() == es[my].key;
    assert(key_of(t, Some(x)).tag != key_of(t, Some(y)).tag);
    assert(q1 != q2);
    let te = todo_entries(t, i as int);
    let kx = key_of(t, Some(x));
    let ky = key_of(t, Some(y));
    assert(te.len() == 2);
    assert(te[0].key == kx && te[0].index == i);
    assert(te[1].key == ky && te[1].index == i);
    assert(kx != ky);
    let e0 = te.drop_last();
    assert(e0.len() == 1 && e0.last() == te[0]);
    assert(e0.drop_last().len() == 0);
    assert(leaf_items(e0.drop_last(), kx) == Seq::<usize>::empty());
    assert(leaf_items(e0.drop_last(), ky) == Seq::<usize>::empty());
    assert(leaf_items(e0, kx) == Seq::<usize>::empty().push(i));
    assert(leaf_items(e0, ky) == Seq::<usize>::empty());
    assert(te.last() == te[1]);
    assert(leaf_items(te, kx) =~= seq![i]);
    assert(leaf_items(te, ky) == Seq::<usize>::empty().push(i));
    assert(leaf_items(te, ky) =~= seq![i]);
    lemma_filed_once(todos, i as int, kx);
    lemma_filed_once(todos, i as int, ky);
    assert forall|q: int, w1: int, w2: int|
        #![trigger leaves[q].items@[w1], leaves[q].items@[w2]]
        0 <= q < leaves.len() && 0 <= w1 < leaves[q].items@.len() && 0 <= w2
            < leaves[q].items@.len() && leaves[q].items@[w1] == i && leaves[q].items@[w2]
            == i implies w1 == w2 by {
        assert(leaves[q].items@.contains(i));
        assert(leaves[q].items@ == leaf_items(es, leaves[q].key()));
    }
}


/// Two annotations that agree on everything the report shows and groups by.
pub open spec fn same_todo(a: Todo, b: Todo) -> bool {
    &&& a.file_path@ == b.file_path@
    &&& a.line == b.line
    &&& a.tags_view() == b.tags_view()
    &&& a.message@ == b.message@
    &&& a.text@ == b.text@
    &&& a.author@ == b.author@
    &&& a.commit_id@ == b.commit_id@
    &&& a.commit_time == b.commit_time
}

proof fn lemma_entries_same(t1: Seq<Todo>, t2: Seq<Todo>, n: int)
    requires
        0 <= n <= t1.len(),
        t1.len() == t2.len(),
        forall|k: int| 0 <= k < t1.len() ==> same_todo(#[trigger] t1[k], t2[k]),
    ensures
        entries(t1, n) == entries(t2, n),
    decreases n,
{
    if n > 0 {
        lemma_entries_same(t1, t2, n - 1);
        let a = t1[n - 1];
        let b = t2[n - 1];
        assert(same_todo(a, b));
        assert(a.tags@.len() == a.tags_view().len());
        assert(b.tags@.len() == b.tags_view().len());
        assert forall|j: int| 0 <= j < a.tags@.len() implies a.tags@[j]@ == b.tags@[j]@ by {
            assert(a.tags_view()[j] == a.tags@[j]@);
            assert(b.tags_view()[j] == b.tags@[j]@);
        }
        assert(todo_entries(a, n - 1) =~= todo_entries(b, n - 1));
    }
}

/// Scanning a file twice, with the same lines, blame and scan time, and
/// grouping what was found, gives the same annotations and the same tree.
pub proof fn lemma_pipeline_idempotent(
    path: Seq<char>,
    lines: Seq<Seq<char>>,
    hunks: Seq<Hunk>,
    now: Timestamp,
    r1: Seq<Todo>,
    r2: Seq<Todo>,
    a: Seq<Leaf>,
    b: Seq<Leaf>,
)
    requires
        is_file_result(r1, path, lines, hunks, now),
        is_file_result(r2, path, lines, hunks, now),
        groups(a, entries(r1, r1.len() as int)),
        groups(b, entries(r2, r2.len() as int)),
    ensures
        r1.len() == r2.len(),
        forall|k: int| 0 <= k < r1.len() ==> same_todo(#[trigger] r1[k], r2[k]),
        a.len() == b.len(),
        forall|q: int| 0 <= q < a.len() ==> a[q].key() == b[q].key() && a[q].items@ == b[q].items@,
{
    assert forall|k: int| 0 <= k < r1.len() implies same_todo(#[trigger] r1[k], r2[k]) by {
        assert(r1[k].tags_view() == r2[k].tags_view());
    }
    lemma_entries_same(r1, r2, r1.len() as int);
    lemma_grouping_unique(r1, a, b);
}

} // verus!
