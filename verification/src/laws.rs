//! The guarantees of one drain pass, stated over the directory model.
//!
//! [`drained`] and [`remaining`] are what
//! [`crate::mailbox::SignalInterface::access_received_messages`] returns
//! and leaves; the laws here say what those two functions promise: no
//! residue for accepted items, at-most-once consumption, and that a
//! prefix-mismatched item survives intact for a later, differently
//! identified pass.

use vstd::prelude::*;
use crate::model::{
    drained, entry_accepted, lemma_drained_contains_accepted, lemma_drained_element_source,
    lemma_kept_contains_entry, lemma_kept_content, lemma_kept_name_subset, lemma_kept_names_from,
    remaining,
};
use crate::names::{
    is_message_name, lemma_message_name_of_stem, marker_name, message_name, message_suffix,
    prefix_accepts, stem_of,
};
use crate::store::{content_of, distinct_names, has_name, names_of};
use crate::text::{first_line, trim_spec};

verus! {

/// No residue on success: after a drain pass, an accepted item's payload
/// file and its marker are both absent, and the item's stem and body stand
/// in what the pass returned.
pub proof fn lemma_accepted_leaves_no_residue(
    es: Seq<(Seq<char>, Seq<char>)>,
    prefix: Seq<char>,
    k: int,
)
    requires
        distinct_names(es),
        0 <= k < es.len(),
        entry_accepted(es, es[k], prefix),
    ensures
        !has_name(remaining(es, prefix), es[k].0),
        !has_name(remaining(es, prefix), marker_name(stem_of(es[k].0))),
        drained(es, prefix).contains((stem_of(es[k].0), es[k].1)),
{
    if has_name(remaining(es, prefix), es[k].0) {
        lemma_kept_names_from(es, es, prefix, es[k].0);
        let j = choose|j: int|
            0 <= j < es.len() && (#[trigger] es[j]).0 == es[k].0 && !entry_accepted(
                es,
                es[j],
                prefix,
            );
        if j != k {
            assert(names_of(es)[j] == es[j].0 && names_of(es)[k] == es[k].0);
        }
    }
    if has_name(remaining(es, prefix), marker_name(stem_of(es[k].0))) {
        lemma_kept_name_subset(es, es, prefix, marker_name(stem_of(es[k].0)));
    }
    lemma_drained_contains_accepted(es, es, prefix, k);
}

/// Mutual exclusion via markers: an item whose marker already exists — a
/// claim held by some other consumer — is neither returned nor touched by
/// a drain pass.
pub proof fn lemma_claimed_item_left_alone(
    es: Seq<(Seq<char>, Seq<char>)>,
    prefix: Seq<char>,
    k: int,
)
    requires
        distinct_names(es),
        0 <= k < es.len(),
        is_message_name(es[k].0),
        has_name(es, marker_name(stem_of(es[k].0))),
    ensures
        has_name(remaining(es, prefix), es[k].0),
        content_of(remaining(es, prefix), es[k].0) == es[k].1,
        forall|j: int|
            0 <= j < drained(es, prefix).len() ==> (#[trigger] drained(es, prefix)[j]).0
                != stem_of(es[k].0),
{
    lemma_kept_content(es, es, prefix, k);
    assert forall|j: int| 0 <= j < drained(es, prefix).len() implies (#[trigger] drained(
        es,
        prefix,
    )[j]).0 != stem_of(es[k].0) by {
        lemma_drained_element_source(es, es, prefix, j);
        let t = choose|t: int|
            0 <= t < es.len() && entry_accepted(es, #[trigger] es[t], prefix) && drained(
                es,
                prefix,
            )[j] == (stem_of(es[t].0), es[t].1);
        if stem_of(es[t].0) == stem_of(es[k].0) {
            lemma_message_name_of_stem(es[t].0);
            lemma_message_name_of_stem(es[k].0);
            assert(es[t].0 == es[k].0);
            if t != k {
                assert(names_of(es)[t] == es[t].0 && names_of(es)[k] == es[k].0);
            }
        }
    }
}

/// At-most-once consumption: an item accepted by one drain pass is gone,
/// and a second pass over what remains, under any identifier, never
/// returns that timestamp again.
pub proof fn lemma_at_most_once(
    es: Seq<(Seq<char>, Seq<char>)>,
    prefix: Seq<char>,
    prefix2: Seq<char>,
    k: int,
)
    requires
        distinct_names(es),
        0 <= k < es.len(),
        entry_accepted(es, es[k], prefix),
    ensures
        !has_name(remaining(es, prefix), es[k].0),
        forall|j: int|
            0 <= j < drained(remaining(es, prefix), prefix2).len() ==> (#[trigger] drained(
                remaining(es, prefix),
                prefix2,
            )[j]).0 != stem_of(es[k].0),
{
    let rem = remaining(es, prefix);
    lemma_accepted_leaves_no_residue(es, prefix, k);
    assert forall|j: int| 0 <= j < drained(rem, prefix2).len() implies (#[trigger] drained(
        rem,
        prefix2,
    )[j]).0 != stem_of(es[k].0) by {
        lemma_drained_element_source(rem, rem, prefix2, j);
        let t = choose|t: int|
            0 <= t < rem.len() && entry_accepted(rem, #[trigger] rem[t], prefix2) && drained(
                rem,
                prefix2,
            )[j] == (stem_of(rem[t].0), rem[t].1);
        if stem_of(rem[t].0) == stem_of(es[k].0) {
            lemma_message_name_of_stem(rem[t].0);
            lemma_message_name_of_stem(es[k].0);
            assert(rem[t].0 == es[k].0);
            assert(names_of(rem)[t] == rem[t].0);
        }
    }
}

/// A prefix mismatch leaves the item for a differently identified
/// consumer: its payload survives with its body intact, no marker is left
/// on it, and a later pass over what remains accepts it both with no
/// identifier and with the matching one.
pub proof fn lemma_prefix_mismatch_left_for_later(
    es: Seq<(Seq<char>, Seq<char>)>,
    prefix: Seq<char>,
    k: int,
)
    requires
        distinct_names(es),
        0 <= k < es.len(),
        is_message_name(es[k].0),
        !has_name(es, marker_name(stem_of(es[k].0))),
        prefix.len() > 0,
        !prefix_accepts(es[k].1, prefix),
    ensures
        remaining(es, prefix).contains(es[k]),
        content_of(remaining(es, prefix), es[k].0) == es[k].1,
        !has_name(remaining(es, prefix), marker_name(stem_of(es[k].0))),
        entry_accepted(remaining(es, prefix), es[k], Seq::empty()),
        entry_accepted(remaining(es, prefix), es[k], trim_spec(first_line(es[k].1))),
{
    lemma_kept_content(es, es, prefix, k);
    lemma_kept_contains_entry(es, es, prefix, k);
    if has_name(remaining(es, prefix), marker_name(stem_of(es[k].0))) {
        lemma_kept_name_subset(es, es, prefix, marker_name(stem_of(es[k].0)));
    }
}

/// Round trip: an enqueued message payload, moved verbatim into a received
/// listing that holds only it, is returned whole — stem and body — by a
/// drain pass with no identifier, and the listing is left empty.
pub proof fn lemma_round_trip(ts: Seq<char>, body: Seq<char>)
    requires
        ts.len() > 0,
    ensures
        drained(seq![(message_name(ts), body)], Seq::empty()) == seq![(ts, body)],
        remaining(seq![(message_name(ts), body)], Seq::empty()) == Seq::<(
            Seq<char>,
            Seq<char>,
        )>::empty(),
{
    reveal_strlit(".signalmessage");
    reveal_strlit(".lock");
    let n = message_name(ts);
    let es = seq![(n, body)];
    assert(n.len() == ts.len() + 14);
    assert(is_message_name(n)) by {
        assert(n.skip(ts.len() as int) =~= message_suffix());
    }
    assert(stem_of(n) =~= ts);
    let m = marker_name(stem_of(n));
    assert(m.len() == ts.len() + 5);
    assert(!has_name(es, m)) by {
        if has_name(es, m) {
            let k = choose|k: int| 0 <= k < names_of(es).len() && names_of(es)[k] == m;
            assert(names_of(es)[0] == n);
        }
    }
    assert(prefix_accepts(body, Seq::empty()));
    assert(entry_accepted(es, es[0], Seq::empty()));
    assert(es.drop_last() =~= Seq::<(Seq<char>, Seq<char>)>::empty());
    assert(crate::model::drained_from(es, Seq::<(Seq<char>, Seq<char>)>::empty(), Seq::empty())
        =~= Seq::<(Seq<char>, Seq<char>)>::empty());
    assert(crate::model::kept_from(es, Seq::<(Seq<char>, Seq<char>)>::empty(), Seq::empty())
        =~= Seq::<(Seq<char>, Seq<char>)>::empty());
    assert(es.last() == es[0]);
    assert(drained(es, Seq::empty()) =~= seq![(ts, body)]);
    assert(remaining(es, Seq::empty()) =~= Seq::<(Seq<char>, Seq<char>)>::empty());
}

} // verus!
