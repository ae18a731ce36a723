//! File names, payload formats and the prefix-identifier filter of the
//! mailbox protocol.
//!
//! Every item is a pair of files named after its millisecond timestamp
//! stem: a transient `<stem>.lock` marker and a payload file whose
//! extension gives the item kind (`.signalmessage`, `.signalattachment`,
//! `.signalreply`).

use vstd::prelude::*;
use crate::text::{first_line, str_eq, trim, trim_spec};

verus! {

/// The suffix of a marker file.
pub open spec fn lock_suffix() -> Seq<char> {
    ".lock"@
}

/// The suffix of a plain-message payload file.
pub open spec fn message_suffix() -> Seq<char> {
    ".signalmessage"@
}

/// The suffix of an attachment-reference payload file.
pub open spec fn attachment_suffix() -> Seq<char> {
    ".signalattachment"@
}

/// The suffix of a quoted-reply payload file.
pub open spec fn reply_suffix() -> Seq<char> {
    ".signalreply"@
}

/// The marker file name for a timestamp stem.
pub open spec fn marker_name(stem: Seq<char>) -> Seq<char> {
    stem + lock_suffix()
}

/// The plain-message payload file name for a timestamp stem.
pub open spec fn message_name(stem: Seq<char>) -> Seq<char> {
    stem + message_suffix()
}

/// The attachment payload file name for a timestamp stem.
pub open spec fn attachment_name(stem: Seq<char>) -> Seq<char> {
    stem + attachment_suffix()
}

/// The quoted-reply payload file name for a timestamp stem.
pub open spec fn reply_name(stem: Seq<char>) -> Seq<char> {
    stem + reply_suffix()
}

/// Whether `n` names a plain-message payload: a non-empty stem followed by
/// `.signalmessage`. Only such entries are consumed by the drain path; a
/// directory entry without a recognizable stem and extension is skipped.
pub open spec fn is_message_name(n: Seq<char>) -> bool {
    n.len() > message_suffix().len() && n.skip(n.len() - message_suffix().len())
        == message_suffix()
}

/// The timestamp stem of a plain-message payload file name.
pub open spec fn stem_of(n: Seq<char>) -> Seq<char> {
    n.take(n.len() - message_suffix().len())
}

/// The wire format of a quoted reply: the quoted timestamp, a newline, and
/// the reply body.
pub open spec fn reply_content(quoted_timestamp: Seq<char>, reply: Seq<char>) -> Seq<char> {
    quoted_timestamp + seq!['\n'] + reply
}

/// A message file name is its stem followed by the message suffix.
pub proof fn lemma_message_name_of_stem(n: Seq<char>)
    requires
        is_message_name(n),
    ensures
        message_name(stem_of(n)) == n,
{
    assert(message_name(stem_of(n)) =~= n);
}

/// No marker file name is a plain-message payload file name.
pub proof fn lemma_marker_not_message(stem: Seq<char>)
    ensures
        !is_message_name(marker_name(stem)),
{
    reveal_strlit(".lock");
    reveal_strlit(".signalmessage");
    let m = marker_name(stem);
    if is_message_name(m) {
        assert(m.skip(m.len() - message_suffix().len())[13] == m[m.len() - 1]);
        assert(m[m.len() - 1] == lock_suffix()[4]);
        assert(message_suffix()[13] == 'e' && lock_suffix()[4] == 'k');
    }
}

/// Builds the marker file name `<stem>.lock`.
pub fn marker_file_name(stem: &str) -> (r: String)
    ensures
        r@ == marker_name(stem@),
{
    String::from_str(stem).concat(".lock")
}

/// Builds the plain-message payload file name `<stem>.signalmessage`.
pub fn message_file_name(stem: &str) -> (r: String)
    ensures
        r@ == message_name(stem@),
{
    String::from_str(stem).concat(".signalmessage")
}

/// Builds the attachment payload file name `<stem>.signalattachment`.
pub fn attachment_file_name(stem: &str) -> (r: String)
    ensures
        r@ == attachment_name(stem@),
{
    String::from_str(stem).concat(".signalattachment")
}

/// Builds the quoted-reply payload file name `<stem>.signalreply`.
pub fn reply_file_name(stem: &str) -> (r: String)
    ensures
        r@ == reply_name(stem@),
{
    String::from_str(stem).concat(".signalreply")
}

/// Builds the two-part quoted-reply payload.
pub fn reply_payload(quoted_timestamp: &str, reply: &str) -> (r: String)
    ensures
        r@ == reply_content(quoted_timestamp@, reply@),
{
    proof {
        reveal_strlit("\n");
    }
    let r = String::from_str(quoted_timestamp).concat("\n").concat(reply);
    proof {
        assert(r@ =~= reply_content(quoted_timestamp@, reply@));
    }
    r
}

/// Decides whether a directory entry names a plain-message payload.
pub fn is_message_file_name(name: &str) -> (r: bool)
    ensures
        r == is_message_name(name@),
{
    proof {
        reveal_strlit(".signalmessage");
    }
    let sfx = ".signalmessage";
    let m = sfx.unicode_len();
    let n = name.unicode_len();
    if n <= m {
        return false;
    }
    let tail = name.substring_char(n - m, n);
    let r = str_eq(tail, sfx);
    proof {
        assert(tail@ =~= name@.skip(n as int - m as int));
    }
    r
}

/// The timestamp stem of a plain-message payload file name.
pub fn message_stem(name: &str) -> (r: String)
    requires
        is_message_name(name@),
    ensures
        r@ == stem_of(name@),
{
    proof {
        reveal_strlit(".signalmessage");
    }
    let sfx = ".signalmessage";
    let m = sfx.unicode_len();
    let n = name.unicode_len();
    let r = String::from_str(name.substring_char(0, n - m));
    proof {
        assert(r@ =~= stem_of(name@));
    }
    r
}

/// Whether a drained body is "ours" under the optional prefix identifier:
/// with an empty identifier every body is accepted; with a non-empty one
/// the body's first line — the whole body when it holds no newline —
/// trimmed of surrounding whitespace, must equal the identifier exactly.
pub open spec fn prefix_accepts(body: Seq<char>, prefix: Seq<char>) -> bool {
    ||| prefix.len() == 0
    ||| trim_spec(first_line(body)) == prefix
}

/// Decides [`prefix_accepts`] on a drained body.
pub fn body_accepts(body: &str, prefix_identifier: &str) -> (r: bool)
    ensures
        r == prefix_accepts(body@, prefix_identifier@),
{
    if prefix_identifier.unicode_len() == 0 {
        return true;
    }
    let nl = crate::text::find_first_newline(body);
    let first = body.substring_char(0, nl);
    proof {
        assert(first@ =~= first_line(body@));
    }
    let trimmed = trim(first);
    str_eq(trimmed, prefix_identifier)
}

} // verus!
