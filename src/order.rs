//! The orders a report is sorted by: lexical order on strings, and the order
//! of grouping keys.

use crate::text::chars_of;
use vstd::prelude::*;

verus! {

/// Lexical order on character sequences, by code point; a proper prefix
/// comes first. This is the order of `str`'s `Ord`.
pub open spec fn seq_lt(a: Seq<char>, b: Seq<char>) -> bool
    decreases a.len(),
{
    if a.len() == 0 {
        b.len() > 0
    } else if b.len() == 0 {
        false
    } else if a[0] != b[0] {
        a[0] < b[0]
    } else {
        seq_lt(a.drop_first(), b.drop_first())
    }
}

pub proof fn lemma_seq_lt_irrefl(a: Seq<char>)
    ensures
        !seq_lt(a, a),
    decreases a.len(),
{
    if a.len() > 0 {
        lemma_seq_lt_irrefl(a.drop_first());
    }
}

pub proof fn lemma_seq_lt_trans(a: Seq<char>, b: Seq<char>, c: Seq<char>)
    requires
        seq_lt(a, b),
        seq_lt(b, c),
    ensures
        seq_lt(a, c),
    decreases a.len(),
{
    if a.len() > 0 && b.len() > 0 && c.len() > 0 && a[0] == b[0] && b[0] == c[0] {
        lemma_seq_lt_trans(a.drop_first(), b.drop_first(), c.drop_first());
    }
}

pub proof fn lemma_seq_lt_total(a: Seq<char>, b: Seq<char>)
    requires
        a != b,
    ensures
        seq_lt(a, b) || seq_lt(b, a),
    decreases a.len(),
{
    if a.len() == 0 {
        if b.len() == 0 {
            assert(a =~= b);
        }
    } else if b.len() > 0 && a[0] == b[0] {
        if a.drop_first() == b.drop_first() {
            assert(a =~= seq![a[0]] + a.drop_first());
            assert(b =~= seq![b[0]] + b.drop_first());
        } else {
            lemma_seq_lt_total(a.drop_first(), b.drop_first());
        }
    }
}

/// Compares two strings lexically: negative, zero or positive as `a` comes
/// before, equals or comes after `b`.
pub fn compare_str(a: &str, b: &str) -> (r: i8)
    ensures
        (r == 0) == (a@ == b@),
        (r < 0) == seq_lt(a@, b@),
        (r > 0) == seq_lt(b@, a@),
{
    let x = chars_of(a);
    let y = chars_of(b);
    let mut k: usize = 0;
    assert(a@.skip(0) =~= a@);
    assert(b@.skip(0) =~= b@);
    while k < x.len() && k < y.len() && x[k] == y[k]
        invariant
            x@ == a@,
            y@ == b@,
            k <= x@.len(),
            k <= y@.len(),
            x@.take(k as int) == y@.take(k as int),
            seq_lt(a@, b@) == seq_lt(a@.skip(k as int), b@.skip(k as int)),
            seq_lt(b@, a@) == seq_lt(b@.skip(k as int), a@.skip(k as int)),
        decreases x@.len() - k,
    {
        assert(a@.skip(k as int).drop_first() =~= a@.skip(k + 1));
        assert(b@.skip(k as int).drop_first() =~= b@.skip(k + 1));
        assert(x@.take(k + 1) =~= x@.take(k as int).push(x@[k as int]));
        assert(y@.take(k + 1) =~= y@.take(k as int).push(y@[k as int]));
        k = k + 1;
    }
    proof {
        lemma_seq_lt_irrefl(a@);
        if k < x@.len() && k < y@.len() {
            assert(a@.skip(k as int)[0] == a@[k as int]);
            assert(b@.skip(k as int)[0] == b@[k as int]);
        }
        if k == x@.len() && k == y@.len() {
            assert(a@ =~= x@.take(k as int));
            assert(b@ =~= y@.take(k as int));
        }
    }
    if k == x.len() {
        if k == y.len() {
            0
        } else {
            proof {
                assert(a@.len() != b@.len());
            }
            -1
        }
    } else if k == y.len() {
        1
    } else if x[k] < y[k] {
        -1
    } else {
        1
    }
}

/// Where a group of annotations is filed: the commit's time and id, the tag
/// (`None` for annotations without one) and the author.
pub struct KeyView {
    pub secs: i64,
    pub nanos: u32,
    pub id: Seq<char>,
    pub tag: Option<Seq<char>>,
    pub author: Seq<char>,
}

/// Tags in order: no tag first, then named tags lexically.
pub open spec fn tag_lt(a: Option<Seq<char>>, b: Option<Seq<char>>) -> bool {
    match (a, b) {
        (None, Some(_)) => true,
        (Some(x), Some(y)) => seq_lt(x, y),
        _ => false,
    }
}

/// The report's order: oldest commit first (by time, then by id), then by
/// tag, then by author.
pub open spec fn key_lt(a: KeyView, b: KeyView) -> bool {
    ||| a.secs < b.secs
    ||| (a.secs == b.secs && a.nanos < b.nanos)
    ||| (a.secs == b.secs && a.nanos == b.nanos && seq_lt(a.id, b.id))
    ||| (a.secs == b.secs && a.nanos == b.nanos && a.id == b.id && tag_lt(a.tag, b.tag))
    ||| (a.secs == b.secs && a.nanos == b.nanos && a.id == b.id && a.tag == b.tag && seq_lt(
        a.author,
        b.author,
    ))
}

pub proof fn lemma_key_lt_irrefl(a: KeyView)
    ensures
        !key_lt(a, a),
{
    lemma_seq_lt_irrefl(a.id);
    lemma_seq_lt_irrefl(a.author);
    if let Some(t) = a.tag {
        lemma_seq_lt_irrefl(t);
    }
}

pub proof fn lemma_key_lt_trans(a: KeyView, b: KeyView, c: KeyView)
    requires
        key_lt(a, b),
        key_lt(b, c),
    ensures
        key_lt(a, c),
{
    if seq_lt(a.id, b.id) && seq_lt(b.id, c.id) {
        lemma_seq_lt_trans(a.id, b.id, c.id);
    }
    if seq_lt(a.author, b.author) && seq_lt(b.author, c.author) {
        lemma_seq_lt_trans(a.author, b.author, c.author);
    }
    if let (Some(x), Some(y), Some(z)) = (a.tag, b.tag, c.tag) {
        if seq_lt(x, y) && seq_lt(y, z) {
            lemma_seq_lt_trans(x, y, z);
        }
    }
}

pub proof fn lemma_key_lt_total(a: KeyView, b: KeyView)
    requires
        a != b,
    ensures
        key_lt(a, b) || key_lt(b, a),
{
    if a.id != b.id {
        lemma_seq_lt_total(a.id, b.id);
    }
    if a.author != b.author {
        lemma_seq_lt_total(a.author, b.author);
    }
    if let (Some(x), Some(y)) = (a.tag, b.tag) {
        if x != y {
            lemma_seq_lt_total(x, y);
        }
    }
}

} // verus!
