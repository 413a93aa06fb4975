//! Labels for the report: a commit's short id and how long ago it was made.

use crate::collect::Timestamp;
use vstd::prelude::*;
use vstd::string::StringExecFns;

verus! {

/// How many characters of a commit id a label shows.
pub const SHORT_ID_LEN: usize = 7;

/// The leading characters of a commit id that a label shows.
pub open spec fn short_id(id: Seq<char>) -> Seq<char> {
    if id.len() <= SHORT_ID_LEN {
        id
    } else {
        id.take(SHORT_ID_LEN as int)
    }
}

/// The English phrase for an offset of `secs` seconds from now, negative in
/// the past ("2 days ago", "in an hour", "now").
pub uninterp spec fn humanized(secs: int) -> Seq<char>;

/// The most seconds, either way, that a phrase can be asked for.
pub const MAX_OFFSET_SECS: i64 = 9223372036854775;

/// Relies on chrono_humanize's `HumanTime` shown with `{}` (rough accuracy)
/// for a `chrono::Duration` of `secs` seconds: the phrase depends on the
/// offset alone. `Duration::seconds` panics beyond `i64::MAX / 1000` either
/// way, which `requires` leaves out.
#[verifier::external_body]
fn humanize_offset(secs: i64) -> (r: String)
    requires
        -MAX_OFFSET_SECS <= secs <= MAX_OFFSET_SECS,
    ensures
        r@ == humanized(secs as int),
{
    chrono_humanize::HumanTime::from(chrono::Duration::seconds(secs)).to_string()
}

/// The label of a commit's group: `[<short id>/<phrase>]`.
pub fn label_with_phrase(id: &str, phrase: &str) -> (r: String)
    ensures
        r@ == seq!['['] + short_id(id@) + seq!['/'] + phrase@ + seq![']'],
{
    let n = id.unicode_len();
    let end: usize = if n <= SHORT_ID_LEN {
        n
    } else {
        SHORT_ID_LEN
    };
    let mut r = String::from_str("[");
    r.append(id.substring_char(0, end));
    r.append("/");
    r.append(phrase);
    r.append("]");
    proof {
        reveal_strlit("[");
        reveal_strlit("/");
        reveal_strlit("]");
        assert(id@.subrange(0, end as int) == short_id(id@)) by {
            if n <= SHORT_ID_LEN {
                assert(id@.subrange(0, end as int) =~= id@);
            }
        }
        assert(r@ =~= seq!['['] + short_id(id@) + seq!['/'] + phrase@ + seq![']']);
    }
    r
}

/// Whether a commit made at `time` is close enough to `now` to be labelled.
pub open spec fn labellable(time: Timestamp, now: Timestamp) -> bool {
    -MAX_OFFSET_SECS <= time.secs - now.secs <= MAX_OFFSET_SECS
}

/// The label of the group of commit `id`, made at `time`, as seen at `now`;
/// `None` when the two lie too far apart for a phrase.
pub fn group_label(id: &str, time: Timestamp, now: Timestamp) -> (r: Option<String>)
    ensures
        r.is_some() == labellable(time, now),
        r matches Some(s) ==> s@ == seq!['['] + short_id(id@) + seq!['/'] + humanized(
            time.secs - now.secs,
        ) + seq![']'],
{
    let d: i128 = time.secs as i128 - now.secs as i128;
    if d < -(MAX_OFFSET_SECS as i128) || d > MAX_OFFSET_SECS as i128 {
        return None;
    }
    let phrase = humanize_offset(d as i64);
    Some(label_with_phrase(id, phrase.as_str()))
}

} // verus!
