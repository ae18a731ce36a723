//! The mailbox: one client's message channel.
//!
//! Enqueueing materializes an item in the client's `to-send` directory in
//! five steps — create the directory if absent, atomically create the
//! `.lock` marker, atomically create the payload file, write the payload,
//! remove the marker — so that a watcher which ignores payloads with a
//! `.lock` sibling never sees a partial write. Draining walks the client's
//! `received` directory, claims each plain message by atomically creating
//! its marker, filters by the optional prefix identifier, and deletes what
//! it accepts.

use vstd::prelude::*;
use crate::model::{drained, drained_from, entry_accepted, kept_from, remaining};
use crate::model::{lemma_kept_nonmessage_names};
use crate::names::{
    attachment_name, body_accepts, is_message_file_name, is_message_name, lemma_marker_not_message,
    marker_name, message_name, prefix_accepts, reply_content, reply_name, stem_of,
};
use crate::names::{attachment_file_name, marker_file_name, message_file_name, reply_file_name};
use crate::store::{
    distinct_names, has_name, lemma_entry_at_index, lemma_has_name_concat, lemma_has_name_push,
    names_of, views_of, Directory,
};

verus! {

/// One received message: the file's timestamp stem and its full body.
pub struct SignalMessage {
    pub timestamp: String,
    pub message: String,
}

/// The `(timestamp, body)` views of a sequence of received messages.
pub open spec fn msg_views(ms: Seq<SignalMessage>) -> Seq<(Seq<char>, Seq<char>)> {
    Seq::new(ms.len(), |i: int| (ms[i].timestamp@, ms[i].message@))
}

/// Why an enqueue was refused: the marker or the payload file already
/// exists at the computed timestamp stem. A `PayloadCollision` leaves the
/// just-created marker behind, as an aborted write does; an external
/// reconciliation pass, not this crate, clears such residue.
#[derive(Clone, Copy, Debug, PartialEq, Eq, Structural)]
pub enum EnqueueError {
    MarkerCollision,
    PayloadCollision,
}

/// The `to-send` directory path for a client under a root folder.
pub open spec fn to_send_dir_spec(root: Seq<char>, client: Seq<char>) -> Seq<char> {
    root + "/to-send/"@ + client
}

/// The `received` directory path for a client under a root folder.
pub open spec fn received_dir_spec(root: Seq<char>, client: Seq<char>) -> Seq<char> {
    root + "/received/"@ + client
}

/// The path of a file inside a directory.
pub open spec fn path_in_dir(dir: Seq<char>, name: Seq<char>) -> Seq<char> {
    dir + seq!['/'] + name
}

/// Builds the path of a file inside a directory.
pub fn file_path(dir: &str, name: &str) -> (r: String)
    ensures
        r@ == path_in_dir(dir@, name@),
{
    proof {
        reveal_strlit("/");
    }
    let r = String::from_str(dir).concat("/").concat(name);
    proof {
        assert(r@ =~= path_in_dir(dir@, name@));
    }
    r
}

/// One client's mailbox: a base folder and the client identifier that
/// namespaces its directories. The mailbox itself is stateless; all state
/// lives in the directories.
pub struct SignalInterface {
    messages_folder: String,
    client_number: String,
}

impl SignalInterface {
    /// The configured base folder.
    pub closed spec fn root(&self) -> Seq<char> {
        self.messages_folder@
    }

    /// The configured client identifier.
    pub closed spec fn client(&self) -> Seq<char> {
        self.client_number@
    }

    pub fn new(client_number: String, messages_folder: String) -> (s: Self)
        ensures
            s.client() == client_number@,
            s.root() == messages_folder@,
    {
        SignalInterface { messages_folder, client_number }
    }

    /// The directory that outgoing items are materialized in.
    pub fn to_send_dir(&self) -> (r: String)
        ensures
            r@ == to_send_dir_spec(self.root(), self.client()),
    {
        let r = String::from_str(self.messages_folder.as_str()).concat("/to-send/").concat(
            self.client_number.as_str(),
        );
        proof {
            assert(r@ =~= to_send_dir_spec(self.root(), self.client()));
        }
        r
    }

    /// The directory that incoming items are drained from.
    pub fn received_dir(&self) -> (r: String)
        ensures
            r@ == received_dir_spec(self.root(), self.client()),
    {
        let r = String::from_str(self.messages_folder.as_str()).concat("/received/").concat(
            self.client_number.as_str(),
        );
        proof {
            assert(r@ =~= received_dir_spec(self.root(), self.client()));
        }
        r
    }

    /// Enqueues a plain text message: in the client's `to-send` directory,
    /// under the given timestamp stem, exactly the payload file
    /// `<timestamp>.signalmessage` holding `message` is added, and no
    /// marker survives. A collision on either file name refuses the call.
    pub fn add_message_to_send(
        &self,
        dir: &mut Directory,
        timestamp: &str,
        message: String,
    ) -> (r: Result<(), EnqueueError>)
        requires
            old(dir).wf(),
        ensures
            final(dir).wf(),
            final(dir).present(),
            enqueue_outcome(
                r,
                old(dir).entries(),
                final(dir).entries(),
                marker_name(timestamp@),
                message_name(timestamp@),
                message@,
            ),
    {
        proof {
            lemma_suffixes_distinct(timestamp@);
        }
        let marker = marker_file_name(timestamp);
        let payload = message_file_name(timestamp);
        enqueue_item(dir, marker.as_str(), payload.as_str(), message.as_str())
    }

    /// Enqueues an attachment reference: the payload file
    /// `<timestamp>.signalattachment` holds the string form of the
    /// attachment's filesystem path.
    pub fn add_attachment_to_send(
        &self,
        dir: &mut Directory,
        timestamp: &str,
        file_path: &str,
    ) -> (r: Result<(), EnqueueError>)
        requires
            old(dir).wf(),
        ensures
            final(dir).wf(),
            final(dir).present(),
            enqueue_outcome(
                r,
                old(dir).entries(),
                final(dir).entries(),
                marker_name(timestamp@),
                attachment_name(timestamp@),
                file_path@,
            ),
    {
        proof {
            lemma_suffixes_distinct(timestamp@);
        }
        let marker = marker_file_name(timestamp);
        let payload = attachment_file_name(timestamp);
        enqueue_item(dir, marker.as_str(), payload.as_str(), file_path)
    }

    /// Enqueues a quoted reply: the payload file `<timestamp>.signalreply`
    /// holds the quoted timestamp token, a newline, and the reply body.
    pub fn add_reply_to_message(
        &self,
        dir: &mut Directory,
        timestamp: &str,
        reply: String,
        message_timestamp_to_quote: &str,
    ) -> (r: Result<(), EnqueueError>)
        requires
            old(dir).wf(),
        ensures
            final(dir).wf(),
            final(dir).present(),
            enqueue_outcome(
                r,
                old(dir).entries(),
                final(dir).entries(),
                marker_name(timestamp@),
                reply_name(timestamp@),
                reply_content(message_timestamp_to_quote@, reply@),
            ),
    {
        proof {
            lemma_suffixes_distinct(timestamp@);
        }
        let marker = marker_file_name(timestamp);
        let payload = reply_file_name(timestamp);
        let content = crate::names::reply_payload(message_timestamp_to_quote, reply.as_str());
        enqueue_item(dir, marker.as_str(), payload.as_str(), content.as_str())
    }

    /// Drains the client's `received` directory: walks its listing in
    /// enumeration order, claims each plain-message payload by atomically
    /// creating its `.lock` marker, reads it, applies the prefix filter,
    /// and deletes what it accepts. Exactly [`drained`] of the initial
    /// listing is returned and exactly [`remaining`] is left; a directory
    /// that does not exist yields nothing and is not created.
    pub fn access_received_messages(
        &self,
        dir: &mut Directory,
        prefix_identifier_string: String,
    ) -> (out: Vec<SignalMessage>)
        requires
            old(dir).wf(),
        ensures
            final(dir).wf(),
            final(dir).present() == old(dir).present(),
            msg_views(out@) == drained(old(dir).entries(), prefix_identifier_string@),
            final(dir).entries() == remaining(old(dir).entries(), prefix_identifier_string@),
            !old(dir).present() ==> out@.len() == 0 && final(dir).entries() == old(dir).entries(),
    {
        let ghost p = prefix_identifier_string@;
        let mut out: Vec<SignalMessage> = Vec::new();
        if !dir.is_present() {
            proof {
                assert(msg_views(out@) =~= drained(dir.entries(), p));
                assert(dir.entries() =~= remaining(dir.entries(), p));
            }
            return out;
        }
        let names = dir.list_names();
        let ghost es0 = dir.entries();
        let n = names.len();
        proof {
            assert(views_of(names@).len() == names@.len());
        }
        let mut i: usize = 0;
        while i < n
            invariant
                0 <= i <= n,
                n == names@.len(),
                n == es0.len(),
                views_of(names@) == names_of(es0),
                distinct_names(es0),
                dir.wf(),
                dir.present(),
                msg_views(out@) =~= drained_from(es0, es0.take(i as int), p),
                dir.entries() =~= kept_from(es0, es0.take(i as int), p) + es0.skip(i as int),
                p == prefix_identifier_string@,
            decreases n - i,
        {
            let ghost e_i = es0[i as int];
            let ghost cur = dir.entries();
            let ghost kept_i = kept_from(es0, es0.take(i as int), p);
            proof {
                assert(views_of(names@)[i as int] == names@[i as int]@);
                assert(names_of(es0)[i as int] == es0[i as int].0);
                assert(es0.take(i as int + 1).drop_last() =~= es0.take(i as int));
                assert(es0.take(i as int + 1).last() == e_i);
                assert(es0.skip(i as int) =~= seq![e_i] + es0.skip(i as int + 1));
                assert(es0.take(i as int) + es0.skip(i as int) =~= es0);
            }
            let name: &str = names[i].as_str();
            let mut accepted_here = false;
            if is_message_file_name(name) {
                let stem = crate::names::message_stem(name);
                let marker = marker_file_name(stem.as_str());
                proof {
                    assert(marker@ == marker_name(stem_of(e_i.0)));
                    lemma_marker_not_message(stem_of(e_i.0));
                    lemma_has_name_concat(kept_i, es0.skip(i as int), marker@);
                    lemma_kept_nonmessage_names(es0, es0.take(i as int), p, marker@);
                    lemma_has_name_concat(es0.take(i as int), es0.skip(i as int), marker@);
                    assert(has_name(cur, marker@) == has_name(es0, marker@));
                }
                if dir.create_new(marker.as_str(), "") {
                    let ghost cur2 = dir.entries();
                    proof {
                        assert(cur2 == cur.push((marker@, ""@)));
                        assert((kept_i + es0.skip(i as int))[kept_i.len() as int] == es0.skip(
                            i as int,
                        )[0]);
                        assert(cur2[kept_i.len() as int] == e_i);
                        lemma_entry_at_index(cur2, kept_i.len() as int);
                    }
                    let body = dir.read_file(name);
                    proof {
                        assert(body@ == e_i.1);
                    }
                    if body_accepts(body.as_str(), prefix_identifier_string.as_str()) {
                        proof {
                            assert(entry_accepted(es0, e_i, p));
                        }
                        let ghost stem_v = stem@;
                        let ghost body_v = body@;
                        dir.remove_file(name);
                        let ghost cur3 = dir.entries();
                        proof {
                            assert(cur3 == cur2.remove(kept_i.len() as int));
                            assert(cur3 =~= kept_i + es0.skip(i as int + 1) + seq![
                                (marker@, ""@),
                            ]);
                            assert(cur3[cur3.len() - 1] == (marker@, ""@));
                            lemma_entry_at_index(cur3, cur3.len() - 1);
                        }
                        dir.remove_file(marker.as_str());
                        proof {
                            assert(dir.entries() == cur3.remove(cur3.len() - 1));
                            assert(dir.entries() =~= kept_i + es0.skip(i as int + 1));
                        }
                        out.push(SignalMessage { timestamp: stem, message: body });
                        accepted_here = true;
                        proof {
                            assert(kept_from(es0, es0.take(i as int + 1), p) == kept_i);
                            assert(drained_from(es0, es0.take(i as int + 1), p) == drained_from(
                                es0,
                                es0.take(i as int),
                                p,
                            ).push((stem_of(e_i.0), e_i.1)));
                            assert(msg_views(out@) =~= drained_from(
                                es0,
                                es0.take(i as int + 1),
                                p,
                            ));
                        }
                    } else {
                        proof {
                            assert(cur2[cur2.len() - 1] == (marker@, ""@));
                            lemma_entry_at_index(cur2, cur2.len() - 1);
                        }
                        dir.remove_file(marker.as_str());
                        proof {
                            assert(dir.entries() == cur2.remove(cur2.len() - 1));
                            assert(dir.entries() =~= cur);
                            assert(!prefix_accepts(e_i.1, p));
                            assert(!entry_accepted(es0, e_i, p));
                        }
                    }
                } else {
                    proof {
                        assert(has_name(es0, marker_name(stem_of(e_i.0))));
                        assert(!entry_accepted(es0, e_i, p));
                    }
                }
            } else {
                proof {
                    assert(!is_message_name(e_i.0));
                    assert(!entry_accepted(es0, e_i, p));
                }
            }
            proof {
                if !accepted_here {
                    assert(!entry_accepted(es0, e_i, p));
                    assert(kept_from(es0, es0.take(i as int + 1), p) == kept_i.push(e_i));
                    assert(drained_from(es0, es0.take(i as int + 1), p) == drained_from(
                        es0,
                        es0.take(i as int),
                        p,
                    ));
                    assert(dir.entries() =~= cur);
                    assert(kept_i.push(e_i) + es0.skip(i as int + 1) =~= kept_i + (seq![e_i]
                        + es0.skip(i as int + 1)));
                    assert(dir.entries() =~= kept_from(es0, es0.take(i as int + 1), p) + es0.skip(
                        i as int + 1,
                    ));
                    assert(msg_views(out@) =~= drained_from(es0, es0.take(i as int + 1), p));
                }
            }
            i = i + 1;
        }
        proof {
            assert(es0.take(n as int) =~= es0);
            assert(msg_views(out@) =~= drained(es0, p));
            assert(dir.entries() =~= remaining(es0, p) + es0.skip(n as int));
            assert(remaining(es0, p) + es0.skip(n as int) =~= remaining(es0, p));
        }
        out
    }
}

/// What each enqueue result means for the directory: on `Ok` exactly the
/// payload file was added and no marker survives; a `MarkerCollision`
/// leaves the directory unchanged; a `PayloadCollision` leaves the
/// just-created empty marker behind, as an aborted write does.
pub open spec fn enqueue_outcome(
    r: Result<(), EnqueueError>,
    before: Seq<(Seq<char>, Seq<char>)>,
    after: Seq<(Seq<char>, Seq<char>)>,
    marker: Seq<char>,
    payload: Seq<char>,
    content: Seq<char>,
) -> bool {
    match r {
        Ok(()) => {
            &&& !has_name(before, marker)
            &&& !has_name(before, payload)
            &&& after == before.push((payload, content))
        },
        Err(EnqueueError::MarkerCollision) => {
            &&& has_name(before, marker)
            &&& after == before
        },
        Err(EnqueueError::PayloadCollision) => {
            &&& !has_name(before, marker)
            &&& has_name(before, payload)
            &&& after == before.push((marker, Seq::empty()))
        },
    }
}

/// A timestamp's marker name never equals one of its payload names: the
/// suffixes differ in length.
proof fn lemma_suffixes_distinct(stem: Seq<char>)
    ensures
        marker_name(stem) != message_name(stem),
        marker_name(stem) != attachment_name(stem),
        marker_name(stem) != reply_name(stem),
{
    reveal_strlit(".lock");
    reveal_strlit(".signalmessage");
    reveal_strlit(".signalattachment");
    reveal_strlit(".signalreply");
    assert(marker_name(stem).len() == stem.len() + 5);
    assert(message_name(stem).len() == stem.len() + 14);
    assert(attachment_name(stem).len() == stem.len() + 17);
    assert(reply_name(stem).len() == stem.len() + 12);
}

/// The five-step enqueue write over the directory model: create the
/// directory, atomically create the marker, atomically create the payload
/// with its content, remove the marker.
fn enqueue_item(dir: &mut Directory, marker: &str, payload: &str, content: &str) -> (r: Result<
    (),
    EnqueueError,
>)
    requires
        old(dir).wf(),
        marker@ != payload@,
    ensures
        final(dir).wf(),
        final(dir).present(),
        enqueue_outcome(
            r,
            old(dir).entries(),
            final(dir).entries(),
            marker@,
            payload@,
            content@,
        ),
{
    let ghost es = old(dir).entries();
    dir.ensure_present();
    if !dir.create_new(marker, "") {
        return Err(EnqueueError::MarkerCollision);
    }
    proof {
        reveal_strlit("");
        assert(""@ =~= Seq::<char>::empty());
        assert((marker@, ""@) == (marker@, Seq::<char>::empty()));
    }
    let ghost es1 = dir.entries();
    if !dir.create_new(payload, content) {
        proof {
            lemma_has_name_push(es, (marker@, ""@), payload@);
        }
        return Err(EnqueueError::PayloadCollision);
    }
    let ghost es2 = dir.entries();
    proof {
        lemma_has_name_push(es, (marker@, ""@), payload@);
        assert(es2[es.len() as int] == (marker@, ""@));
        lemma_entry_at_index(es2, es.len() as int);
    }
    dir.remove_file(marker);
    proof {
        assert(dir.entries() == es2.remove(es.len() as int));
        assert(dir.entries() =~= es.push((payload@, content@)));
    }
    Ok(())
}

} // verus!
