//! Recognising a TODO marker in one line and splitting off its tags and
//! message.
//!
//! The grammar, case-insensitive, is `TODO` as a whole word (not next to a
//! Unicode word character), then an optional
//! `(tag, tag, ...)` list closed by the first `)`, then an optional `!` or `:`,
//! then the message: the rest of the line, trimmed, with one symmetric layer
//! of quotes or parentheses taken off and trimmed again.

use crate::text::{chars_of, trim, trim_bounds};
use vstd::prelude::*;

verus! {

/// Whether a non-ASCII character is a Unicode word character: in
/// `Alphabetic` or `Join_Control`, or in the `Decimal_Number`, `Mark` or
/// `Connector_Punctuation` categories.
pub uninterp spec fn unicode_word(c: char) -> bool;

/// The ASCII word characters: letters, digits and `_`.
pub open spec fn ascii_word(c: char) -> bool {
    ('a' <= c && c <= 'z') || ('A' <= c && c <= 'Z') || ('0' <= c && c <= '9') || c == '_'
}

/// Characters that make up a word, in Unicode's sense (UTS #18 Annex C);
/// among ASCII characters these are the letters, digits and `_`.
pub open spec fn is_word(c: char) -> bool {
    if c <= '\u{7F}' {
        ascii_word(c)
    } else {
        unicode_word(c)
    }
}

/// The marker `todo`, in any case, as a whole word at index `i` of `s`.
pub open spec fn marker_at(s: Seq<char>, i: int) -> bool {
    &&& 0 <= i
    &&& i + 4 <= s.len()
    &&& (s[i] == 't' || s[i] == 'T')
    &&& (s[i + 1] == 'o' || s[i + 1] == 'O')
    &&& (s[i + 2] == 'd' || s[i + 2] == 'D')
    &&& (s[i + 3] == 'o' || s[i + 3] == 'O')
    &&& (i == 0 || !is_word(s[i - 1]))
    &&& (i + 4 == s.len() || !is_word(s[i + 4]))
}

/// Whether `s` holds the marker anywhere.
pub open spec fn has_marker(s: Seq<char>) -> bool {
    exists|i: int| marker_at(s, i)
}

/// The first index at or after `from` where the marker stands, or `s.len()`.
pub open spec fn find_marker(s: Seq<char>, from: int) -> int
    decreases s.len() - from,
{
    if from < 0 || from + 4 > s.len() {
        s.len() as int
    } else if marker_at(s, from) {
        from
    } else {
        find_marker(s, from + 1)
    }
}

/// The first index at or after `from` where `c` stands, or `s.len()`.
pub open spec fn find_char(s: Seq<char>, c: char, from: int) -> int
    decreases s.len() - from,
{
    if from < 0 || from >= s.len() {
        s.len() as int
    } else if s[from] == c {
        from
    } else {
        find_char(s, c, from + 1)
    }
}

/// `s` split at every comma, as `str::split(',')` does.
pub open spec fn pieces(s: Seq<char>) -> Seq<Seq<char>>
    decreases s.len(),
{
    if s.len() == 0 {
        seq![Seq::<char>::empty()]
    } else {
        let p = pieces(s.drop_last());
        if s.last() == ',' {
            p.push(Seq::<char>::empty())
        } else {
            p.update(p.len() - 1, p.last().push(s.last()))
        }
    }
}

/// An opening and closing character that wrap a message.
pub open spec fn is_wrap_pair(a: char, b: char) -> bool {
    (a == '"' && b == '"') || (a == '\'' && b == '\'') || (a == '(' && b == ')')
}

/// `t` with one symmetric layer of quotes or parentheses removed.
pub open spec fn unwrap(t: Seq<char>) -> Seq<char> {
    if t.len() >= 2 && is_wrap_pair(t[0], t.last()) {
        t.subrange(1, t.len() - 1)
    } else {
        t
    }
}

/// Index just after the marker that starts at `m`, and the index of the `)`
/// closing a tag list that opens there, or `s.len()` if there is none.
pub open spec fn tag_close(s: Seq<char>, m: int) -> int {
    let p0 = m + 4;
    if p0 < s.len() && s[p0] == '(' {
        find_char(s, ')', p0 + 1)
    } else {
        s.len() as int
    }
}

/// Where the message candidate starts, for the marker at `m`.
pub open spec fn message_start(s: Seq<char>, m: int) -> int {
    let close = tag_close(s, m);
    let p1 = if close < s.len() {
        close + 1
    } else {
        m + 4
    };
    if p1 < s.len() && (s[p1] == '!' || s[p1] == ':') {
        p1 + 1
    } else {
        p1
    }
}

/// The tags of the marker at `m`: the pieces of the list, each trimmed.
pub open spec fn tags_at(s: Seq<char>, m: int) -> Seq<Seq<char>> {
    let close = tag_close(s, m);
    if close < s.len() {
        pieces(s.subrange(m + 5, close)).map_values(|p: Seq<char>| trim(p))
    } else {
        Seq::empty()
    }
}

/// The message of the marker at `m`.
pub open spec fn message_at(s: Seq<char>, m: int) -> Seq<char> {
    trim(unwrap(trim(s.subrange(message_start(s, m), s.len() as int))))
}

/// What a line holds, if it holds the marker: its tags and its message.
pub open spec fn parse_spec(s: Seq<char>) -> Option<(Seq<Seq<char>>, Seq<char>)> {
    let m = find_marker(s, 0);
    if m < s.len() {
        Some((tags_at(s, m), message_at(s, m)))
    } else {
        None
    }
}

/// The tags and message of one annotated line.
pub struct Annotation {
    pub tags: Vec<String>,
    pub message: String,
}

impl Annotation {
    pub open spec fn tags_view(&self) -> Seq<Seq<char>> {
        self.tags@.map_values(|t: String| t@)
    }
}

pub proof fn lemma_find_marker(s: Seq<char>, from: int)
    requires
        0 <= from,
    ensures
        from <= find_marker(s, from) <= s.len() || find_marker(s, from) == s.len(),
        find_marker(s, from) < s.len() ==> marker_at(s, find_marker(s, from)),
        forall|k: int| from <= k < find_marker(s, from) ==> !marker_at(s, k),
    decreases s.len() - from,
{
    if from + 4 <= s.len() && !marker_at(s, from) {
        lemma_find_marker(s, from + 1);
    }
}

proof fn lemma_pieces_nonempty(s: Seq<char>)
    ensures
        pieces(s).len() >= 1,
    decreases s.len(),
{
    if s.len() > 0 {
        lemma_pieces_nonempty(s.drop_last());
    }
}

proof fn lemma_find_char_at(s: Seq<char>, c: char, from: int, idx: int)
    requires
        0 <= from <= idx < s.len(),
        s[idx] == c,
        forall|k: int| from <= k < idx ==> s[k] != c,
    ensures
        find_char(s, c, from) == idx,
    decreases idx - from,
{
    if from < idx {
        lemma_find_char_at(s, c, from + 1, idx);
    }
}

proof fn lemma_pieces_extend(pre: Seq<char>, w: Seq<char>)
    requires
        forall|k: int| 0 <= k < w.len() ==> w[k] != ',',
    ensures
        pieces(pre + w) == pieces(pre).update(
            pieces(pre).len() - 1,
            pieces(pre).last() + w,
        ),
    decreases w.len(),
{
    lemma_pieces_nonempty(pre);
    if w.len() == 0 {
        assert(pre + w =~= pre);
        assert(pieces(pre).last() + w =~= pieces(pre).last());
        assert(pieces(pre).update(pieces(pre).len() - 1, pieces(pre).last()) =~= pieces(pre));
    } else {
        let w0 = w.drop_last();
        lemma_pieces_extend(pre, w0);
        assert((pre + w).drop_last() =~= pre + w0);
        assert((pre + w).last() == w.last());
        let p = pieces(pre);
        let p0 = p.update(p.len() - 1, p.last() + w0);
        assert(p0.last() == p.last() + w0);
        assert(p0.last().push(w.last()) =~= p.last() + w);
        assert(p0.update(p0.len() - 1, p0.last().push(w.last())) =~= p.update(
            p.len() - 1,
            p.last() + w,
        ));
    }
}

/// The pieces of `a,b`, where neither holds a comma, are `a` and `b`.
proof fn lemma_two_pieces(a: Seq<char>, b: Seq<char>)
    requires
        forall|k: int| 0 <= k < a.len() ==> a[k] != ',',
        forall|k: int| 0 <= k < b.len() ==> b[k] != ',',
    ensures
        pieces(a + seq![','] + b) == seq![a, b],
{
    let e = Seq::<char>::empty();
    lemma_pieces_extend(e, a);
    assert(e + a =~= a);
    assert(e + a == a);
    assert(pieces(e) == seq![e]);
    assert(pieces(a) =~= seq![a]);
    let ac = a + seq![','];
    assert(ac.drop_last() =~= a);
    assert(pieces(ac) =~= seq![a, e]);
    lemma_pieces_extend(ac, b);
    assert(seq![a, e].update(1, e + b) =~= seq![a, b]);
}

/// A line made of a prefix without the marker, then `TODO(a,b):` and a
/// message, where the tags hold no comma or `)`, parses to the trimmed
/// tags `a` and `b` and the message trimmed and unwrapped.
pub proof fn lemma_tagged_line(prefix: Seq<char>, a: Seq<char>, b: Seq<char>, m: Seq<char>)
    requires
        !has_marker(prefix),
        prefix.len() == 0 || !is_word(prefix.last()),
        forall|k: int| 0 <= k < a.len() ==> a[k] != ',' && a[k] != ')',
        forall|k: int| 0 <= k < b.len() ==> b[k] != ',' && b[k] != ')',
    ensures
        parse_spec(prefix + seq!['T', 'O', 'D', 'O', '('] + a + seq![','] + b + seq![')', ':'] + m)
            == Some((seq![trim(a), trim(b)], trim(unwrap(trim(m))))),
{
    let s = prefix + seq!['T', 'O', 'D', 'O', '('] + a + seq![','] + b + seq![')', ':'] + m;
    let pl = prefix.len() as int;
    let al = a.len() as int;
    let bl = b.len() as int;
    let close = pl + 5 + al + 1 + bl;
    assert(s.len() == close + 2 + m.len());
    assert forall|k: int| 0 <= k < pl implies s[k] == prefix[k] by {}
    assert(s[pl] == 'T' && s[pl + 1] == 'O' && s[pl + 2] == 'D' && s[pl + 3] == 'O' && s[pl + 4]
        == '(');
    assert(marker_at(s, pl));
    assert forall|i: int| 0 <= i < pl implies !marker_at(s, i) by {
        if marker_at(s, i) {
            if i + 4 <= pl {
                assert(marker_at(prefix, i));
            } else {
                assert(s[pl - 1] == prefix.last());
            }
        }
    }
    lemma_find_marker(s, 0);
    assert(find_marker(s, 0) == pl);
    assert forall|k: int| pl + 5 <= k < close implies s[k] != ')' by {
        if k < pl + 5 + al {
            assert(s[k] == a[k - pl - 5]);
        } else if k == pl + 5 + al {
        } else {
            assert(s[k] == b[k - pl - 6 - al]);
        }
    }
    assert(s[close] == ')');
    lemma_find_char_at(s, ')', pl + 5, close);
    assert(tag_close(s, pl) == close);
    assert(s.subrange(pl + 5, close) =~= a + seq![','] + b);
    lemma_two_pieces(a, b);
    assert(tags_at(s, pl) =~= seq![trim(a), trim(b)]);
    assert(s[close + 1] == ':');
    assert(message_start(s, pl) == close + 2);
    assert(s.subrange(close + 2, s.len() as int) =~= m);
}

/// Relies on `regex_syntax::is_word_character`, the class behind `\b` in
/// the regex crate, which depends on the character alone. It panics only
/// when the `unicode-perl` feature is off, and Cargo.toml turns it on.
#[verifier::external_body]
fn unicode_word_char(c: char) -> (r: bool)
    ensures
        r == unicode_word(c),
{
    regex_syntax::is_word_character(c)
}

fn is_word_char(c: char) -> (r: bool)
    ensures
        r == is_word(c),
{
    if c <= '\u{7F}' {
        ('a' <= c && c <= 'z') || ('A' <= c && c <= 'Z') || ('0' <= c && c <= '9') || c == '_'
    } else {
        unicode_word_char(c)
    }
}

/// Whether the marker stands at index `i` of `s`.
pub fn is_marker_at(s: &Vec<char>, i: usize) -> (r: bool)
    ensures
        r == marker_at(s@, i as int),
{
    let n = s.len();
    if i > n || n - i < 4 {
        return false;
    }
    (s[i] == 't' || s[i] == 'T') && (s[i + 1] == 'o' || s[i + 1] == 'O') && (s[i + 2] == 'd'
        || s[i + 2] == 'D') && (s[i + 3] == 'o' || s[i + 3] == 'O') && (i == 0 || !is_word_char(
        s[i - 1],
    )) && (i + 4 == n || !is_word_char(s[i + 4]))
}


/// The tags in `v[lo..hi]`: split at commas, each piece trimmed.
fn split_tags(line: &str, v: &Vec<char>, lo: usize, hi: usize) -> (r: Vec<String>)
    requires
        v@ == line@,
        lo <= hi <= v@.len(),
    ensures
        r@.map_values(|t: String| t@) == pieces(v@.subrange(lo as int, hi as int)).map_values(
            |p: Seq<char>| trim(p),
        ),
{
    let mut r: Vec<String> = Vec::new();
    let ghost mut done: Seq<Seq<char>> = Seq::empty();
    let mut start: usize = lo;
    let mut k: usize = lo;
    assert(v@.subrange(lo as int, lo as int) =~= Seq::<char>::empty());
    assert(pieces(Seq::<char>::empty()) =~= done.push(Seq::<char>::empty()));
    while k < hi
        invariant
            v@ == line@,
            lo <= start <= k <= hi <= v@.len(),
            pieces(v@.subrange(lo as int, k as int)) == done.push(
                v@.subrange(start as int, k as int),
            ),
            r@.len() == done.len(),
            forall|i: int| 0 <= i < done.len() ==> r@[i]@ == trim(#[trigger] done[i]),
        decreases hi - k,
    {
        proof {
            assert(v@.subrange(lo as int, k + 1).drop_last() =~= v@.subrange(lo as int, k as int));
            assert(v@.subrange(lo as int, k + 1).last() == v@[k as int]);
        }
        if v[k] == ',' {
            let (a, b) = trim_bounds(v, start, k);
            r.push(line.substring_char(a, b).to_owned());
            proof {
                done = done.push(v@.subrange(start as int, k as int));
                assert(v@.subrange(k + 1, k + 1) =~= Seq::<char>::empty());
            }
            start = k + 1;
        } else {
            proof {
                assert(v@.subrange(start as int, k + 1) =~= v@.subrange(start as int, k as int).push(
                    v@[k as int],
                ));
                assert(done.push(v@.subrange(start as int, k as int)).update(
                    done.len() as int,
                    v@.subrange(start as int, k + 1),
                ) =~= done.push(v@.subrange(start as int, k + 1)));
            }
        }
        k = k + 1;
    }
    let (a, b) = trim_bounds(v, start, hi);
    r.push(line.substring_char(a, b).to_owned());
    proof {
        let full = done.push(v@.subrange(start as int, hi as int));
        assert(r@.map_values(|t: String| t@) =~= full.map_values(|p: Seq<char>| trim(p)));
    }
    r
}

/// Reads the marker, tags and message out of `line`; `None` when the line
/// has no `todo` as a whole word.
pub fn parse_todo(line: &str) -> (r: Option<Annotation>)
    ensures
        r.is_none() <==> !has_marker(line@),
        r.is_none() <==> parse_spec(line@).is_none(),
        r matches Some(a) ==> parse_spec(line@) == Some((a.tags_view(), a.message@)),
{
    let v = chars_of(line);
    let n = v.len();
    let mut m: usize = 0;
    while n - m >= 4 && !is_marker_at(&v, m)
        invariant
            v@ == line@,
            n == v@.len(),
            m <= n,
            find_marker(v@, 0) == find_marker(v@, m as int),
            forall|k: int| 0 <= k < m ==> !marker_at(v@, k),
        decreases n - m,
    {
        m = m + 1;
    }
    proof {
        lemma_find_marker(v@, m as int);
    }
    if n - m < 4 {
        assert forall|i: int| !marker_at(v@, i) by {
            if 0 <= i < m {
            } else {
            }
        }
        return None;
    }
    let p0 = m + 4;
    let mut close: usize = n;
    if p0 < n && v[p0] == '(' {
        let mut c: usize = p0 + 1;
        while c < n && v[c] != ')'
            invariant
                v@ == line@,
                n == v@.len(),
                p0 < c <= n,
                find_char(v@, ')', p0 + 1) == find_char(v@, ')', c as int),
            decreases n - c,
        {
            c = c + 1;
        }
        close = c;
    }
    let tags: Vec<String>;
    let p1: usize;
    if close < n {
        tags = split_tags(line, &v, p0 + 1, close);
        p1 = close + 1;
    } else {
        tags = Vec::new();
        assert(tags@.map_values(|t: String| t@) =~= Seq::<Seq<char>>::empty());
        p1 = p0;
    }
    let p2: usize = if p1 < n && (v[p1] == '!' || v[p1] == ':') {
        p1 + 1
    } else {
        p1
    };
    let (a, b) = trim_bounds(&v, p2, n);
    let (a2, b2) = if b - a >= 2 && ((v[a] == '"' && v[b - 1] == '"') || (v[a] == '\'' && v[b
        - 1] == '\'') || (v[a] == '(' && v[b - 1] == ')')) {
        proof {
            assert(v@.subrange(a as int, b as int).subrange(1, b - a - 1) =~= v@.subrange(
                a + 1,
                b - 1,
            ));
        }
        trim_bounds(&v, a + 1, b - 1)
    } else {
        trim_bounds(&v, a, b)
    };
    let message = line.substring_char(a2, b2).to_owned();
    proof {
        assert(find_marker(v@, 0) == m);
        assert(has_marker(line@));
    }
    Some(Annotation { tags, message })
}

/// Every index of `line` where the marker stands, in increasing order: the
/// places a report emphasises.
pub fn marker_positions(line: &str) -> (r: Vec<usize>)
    ensures
        forall|k: int| 0 <= k < r@.len() ==> marker_at(line@, #[trigger] r@[k] as int),
        forall|i: int| marker_at(line@, i) ==> r@.contains(i as usize),
        forall|j: int, k: int| 0 <= j < k < r@.len() ==> r@[j] < r@[k],
{
    let v = chars_of(line);
    let n = v.len();
    let mut r: Vec<usize> = Vec::new();
    let mut i: usize = 0;
    while i < n
        invariant
            v@ == line@,
            n == v@.len(),
            i <= n,
            forall|k: int| 0 <= k < r@.len() ==> marker_at(line@, #[trigger] r@[k] as int),
            forall|k: int| 0 <= k < r@.len() ==> #[trigger] r@[k] < i,
            forall|j: int| 0 <= j < i && marker_at(line@, j) ==> r@.contains(j as usize),
            forall|j: int, k: int| 0 <= j < k < r@.len() ==> r@[j] < r@[k],
        decreases n - i,
    {
        let ghost before = r@;
        if is_marker_at(&v, i) {
            r.push(i);
            assert(r@[r@.len() - 1] == i);
        }
        assert forall|j: int| 0 <= j < i + 1 && marker_at(line@, j) implies r@.contains(
            j as usize,
        ) by {
            if j < i {
                let w = choose|w: int| 0 <= w < before.len() && before[w] == j as usize;
                assert(r@[w] == j as usize);
            } else {
                assert(r@[r@.len() - 1] == i);
            }
        }
        i = i + 1;
    }
    r
}

} // verus!
