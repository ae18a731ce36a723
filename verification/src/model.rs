//! The meaning of one drain pass over a directory listing.
//!
//! Which entries a drain consumes is a function of the listing as it stood
//! when the pass began: an entry is accepted when it names a plain-message
//! payload, no marker for its stem exists, and its body passes the prefix
//! filter. [`drained`] gives the consumed items in enumeration order and
//! [`remaining`] the listing left behind; the drain operation is verified
//! against exactly these two functions.

use vstd::prelude::*;
use crate::names::{is_message_name, marker_name, prefix_accepts, stem_of};
use crate::store::{content_of, distinct_names, has_name, names_of};
use crate::store::{lemma_entry_at_index, lemma_has_name_push};

verus! {

/// Whether the drain pass consumes entry `e`, judged against the listing
/// `es0` as it stood when the pass began.
pub open spec fn entry_accepted(
    es0: Seq<(Seq<char>, Seq<char>)>,
    e: (Seq<char>, Seq<char>),
    prefix: Seq<char>,
) -> bool {
    &&& is_message_name(e.0)
    &&& !has_name(es0, marker_name(stem_of(e.0)))
    &&& prefix_accepts(e.1, prefix)
}

/// The `(timestamp stem, body)` pairs that a drain pass over the part `es`
/// of the initial listing `es0` returns, in enumeration order.
pub open spec fn drained_from(
    es0: Seq<(Seq<char>, Seq<char>)>,
    es: Seq<(Seq<char>, Seq<char>)>,
    prefix: Seq<char>,
) -> Seq<(Seq<char>, Seq<char>)>
    decreases es.len(),
{
    if es.len() == 0 {
        Seq::empty()
    } else {
        let rest = drained_from(es0, es.drop_last(), prefix);
        if entry_accepted(es0, es.last(), prefix) {
            rest.push((stem_of(es.last().0), es.last().1))
        } else {
            rest
        }
    }
}

/// The entries of the part `es` of the initial listing `es0` that a drain
/// pass leaves in place, in enumeration order.
pub open spec fn kept_from(
    es0: Seq<(Seq<char>, Seq<char>)>,
    es: Seq<(Seq<char>, Seq<char>)>,
    prefix: Seq<char>,
) -> Seq<(Seq<char>, Seq<char>)>
    decreases es.len(),
{
    if es.len() == 0 {
        Seq::empty()
    } else {
        let rest = kept_from(es0, es.drop_last(), prefix);
        if entry_accepted(es0, es.last(), prefix) {
            rest
        } else {
            rest.push(es.last())
        }
    }
}

/// What a drain pass with identifier `prefix` over the listing `es` returns.
pub open spec fn drained(es: Seq<(Seq<char>, Seq<char>)>, prefix: Seq<char>) -> Seq<
    (Seq<char>, Seq<char>),
> {
    drained_from(es, es, prefix)
}

/// What a drain pass with identifier `prefix` leaves of the listing `es`.
pub open spec fn remaining(es: Seq<(Seq<char>, Seq<char>)>, prefix: Seq<char>) -> Seq<
    (Seq<char>, Seq<char>),
> {
    kept_from(es, es, prefix)
}

/// Every name of the kept listing names some non-accepted entry of `es`.
pub proof fn lemma_kept_names_from(
    es0: Seq<(Seq<char>, Seq<char>)>,
    es: Seq<(Seq<char>, Seq<char>)>,
    prefix: Seq<char>,
    n: Seq<char>,
)
    requires
        has_name(kept_from(es0, es, prefix), n),
    ensures
        exists|j: int|
            0 <= j < es.len() && (#[trigger] es[j]).0 == n && !entry_accepted(es0, es[j], prefix),
    decreases es.len(),
{
    if es.len() > 0 {
        let rest = kept_from(es0, es.drop_last(), prefix);
        if entry_accepted(es0, es.last(), prefix) {
            lemma_kept_names_from(es0, es.drop_last(), prefix, n);
            let j = choose|j: int|
                0 <= j < es.drop_last().len() && (#[trigger] es.drop_last()[j]).0 == n
                    && !entry_accepted(es0, es.drop_last()[j], prefix);
            assert(es[j] == es.drop_last()[j]);
        } else {
            lemma_has_name_push(rest, es.last(), n);
            if es.last().0 == n {
                assert(es[es.len() - 1] == es.last());
            } else {
                lemma_kept_names_from(es0, es.drop_last(), prefix, n);
                let j = choose|j: int|
                    0 <= j < es.drop_last().len() && (#[trigger] es.drop_last()[j]).0 == n
                        && !entry_accepted(es0, es.drop_last()[j], prefix);
                assert(es[j] == es.drop_last()[j]);
            }
        }
    }
}

/// A name absent from `es` is absent from the kept listing.
pub proof fn lemma_kept_name_subset(
    es0: Seq<(Seq<char>, Seq<char>)>,
    es: Seq<(Seq<char>, Seq<char>)>,
    prefix: Seq<char>,
    n: Seq<char>,
)
    requires
        has_name(kept_from(es0, es, prefix), n),
    ensures
        has_name(es, n),
{
    lemma_kept_names_from(es0, es, prefix, n);
    let j = choose|j: int|
        0 <= j < es.len() && (#[trigger] es[j]).0 == n && !entry_accepted(es0, es[j], prefix);
    assert(names_of(es)[j] == n);
}

/// A name that no plain-message payload carries — a marker's, for one — is
/// kept exactly when it stood in `es`.
pub proof fn lemma_kept_nonmessage_names(
    es0: Seq<(Seq<char>, Seq<char>)>,
    es: Seq<(Seq<char>, Seq<char>)>,
    prefix: Seq<char>,
    n: Seq<char>,
)
    requires
        !is_message_name(n),
    ensures
        has_name(kept_from(es0, es, prefix), n) == has_name(es, n),
    decreases es.len(),
{
    if has_name(kept_from(es0, es, prefix), n) {
        lemma_kept_name_subset(es0, es, prefix, n);
    }
    if es.len() > 0 {
        lemma_kept_nonmessage_names(es0, es.drop_last(), prefix, n);
        let rest = kept_from(es0, es.drop_last(), prefix);
        if has_name(es, n) {
            let k = choose|k: int| 0 <= k < names_of(es).len() && names_of(es)[k] == n;
            assert(es[k].0 == n);
            if k == es.len() - 1 {
                assert(!entry_accepted(es0, es.last(), prefix));
                lemma_has_name_push(rest, es.last(), n);
            } else {
                assert(es.drop_last()[k].0 == n);
                assert(names_of(es.drop_last())[k] == n);
                if !entry_accepted(es0, es.last(), prefix) {
                    lemma_has_name_push(rest, es.last(), n);
                }
            }
        }
    }
}

/// An accepted entry's stem and body stand in the drained sequence.
pub proof fn lemma_drained_contains_accepted(
    es0: Seq<(Seq<char>, Seq<char>)>,
    es: Seq<(Seq<char>, Seq<char>)>,
    prefix: Seq<char>,
    k: int,
)
    requires
        0 <= k < es.len(),
        entry_accepted(es0, es[k], prefix),
    ensures
        drained_from(es0, es, prefix).contains((stem_of(es[k].0), es[k].1)),
    decreases es.len(),
{
    let out = drained_from(es0, es, prefix);
    let rest = drained_from(es0, es.drop_last(), prefix);
    if k == es.len() - 1 {
        assert(es.last() == es[k]);
        assert(out[out.len() - 1] == (stem_of(es[k].0), es[k].1));
    } else {
        assert(es.drop_last()[k] == es[k]);
        lemma_drained_contains_accepted(es0, es.drop_last(), prefix, k);
        let j = choose|j: int| 0 <= j < rest.len() && rest[j] == (stem_of(es[k].0), es[k].1);
        assert(out[j] == rest[j]);
    }
}

/// Every drained pair comes from an accepted entry of `es`.
pub proof fn lemma_drained_element_source(
    es0: Seq<(Seq<char>, Seq<char>)>,
    es: Seq<(Seq<char>, Seq<char>)>,
    prefix: Seq<char>,
    j: int,
)
    requires
        0 <= j < drained_from(es0, es, prefix).len(),
    ensures
        exists|t: int|
            0 <= t < es.len() && entry_accepted(es0, #[trigger] es[t], prefix) && drained_from(
                es0,
                es,
                prefix,
            )[j] == (stem_of(es[t].0), es[t].1),
    decreases es.len(),
{
    let out = drained_from(es0, es, prefix);
    let rest = drained_from(es0, es.drop_last(), prefix);
    if entry_accepted(es0, es.last(), prefix) && j == out.len() - 1 {
        let t = es.len() - 1;
        assert(es[t] == es.last());
        assert(out[j] == (stem_of(es[t].0), es[t].1));
    } else {
        assert(out[j] == rest[j]);
        lemma_drained_element_source(es0, es.drop_last(), prefix, j);
        let t = choose|t: int|
            0 <= t < es.drop_last().len() && entry_accepted(
                es0,
                #[trigger] es.drop_last()[t],
                prefix,
            ) && rest[j] == (stem_of(es.drop_last()[t].0), es.drop_last()[t].1);
        assert(es[t] == es.drop_last()[t]);
    }
}

/// A non-accepted entry stands unchanged in the kept listing.
pub proof fn lemma_kept_contains_entry(
    es0: Seq<(Seq<char>, Seq<char>)>,
    es: Seq<(Seq<char>, Seq<char>)>,
    prefix: Seq<char>,
    k: int,
)
    requires
        0 <= k < es.len(),
        !entry_accepted(es0, es[k], prefix),
    ensures
        kept_from(es0, es, prefix).contains(es[k]),
    decreases es.len(),
{
    let out = kept_from(es0, es, prefix);
    let rest = kept_from(es0, es.drop_last(), prefix);
    if k == es.len() - 1 {
        assert(es.last() == es[k]);
        assert(out[out.len() - 1] == es[k]);
    } else {
        assert(es.drop_last()[k] == es[k]);
        lemma_kept_contains_entry(es0, es.drop_last(), prefix, k);
        let j = choose|j: int| 0 <= j < rest.len() && rest[j] == es[k];
        if entry_accepted(es0, es.last(), prefix) {
            assert(out[j] == es[k]);
        } else {
            assert(out[j] == rest[j]);
        }
    }
}

/// Distinct names stay distinct in the kept listing.
pub proof fn lemma_kept_distinct(
    es0: Seq<(Seq<char>, Seq<char>)>,
    es: Seq<(Seq<char>, Seq<char>)>,
    prefix: Seq<char>,
)
    requires
        distinct_names(es),
    ensures
        distinct_names(kept_from(es0, es, prefix)),
    decreases es.len(),
{
    if es.len() > 0 {
        assert forall|i: int, j: int|
            0 <= i < j < es.drop_last().len() implies names_of(es.drop_last())[i] != names_of(
            es.drop_last(),
        )[j] by {
            assert(es.drop_last()[i] == es[i] && es.drop_last()[j] == es[j]);
            assert(names_of(es)[i] != names_of(es)[j]);
        }
        lemma_kept_distinct(es0, es.drop_last(), prefix);
        let rest = kept_from(es0, es.drop_last(), prefix);
        if !entry_accepted(es0, es.last(), prefix) {
            let out = rest.push(es.last());
            assert forall|i: int, j: int|
                0 <= i < j < out.len() implies names_of(out)[i] != names_of(out)[j] by {
                assert(names_of(out)[i] == out[i].0 && names_of(out)[j] == out[j].0);
                if j == out.len() - 1 {
                    assert(out[i] == rest[i]);
                    if rest[i].0 == es.last().0 {
                        assert(names_of(rest)[i] == rest[i].0);
                        lemma_kept_name_subset(es0, es.drop_last(), prefix, rest[i].0);
                        let k = choose|k: int|
                            0 <= k < names_of(es.drop_last()).len() && names_of(es.drop_last())[k]
                                == rest[i].0;
                        assert(es.drop_last()[k].0 == es[k].0);
                        assert(names_of(es)[k] == names_of(es)[es.len() - 1]);
                    }
                } else {
                    assert(out[i] == rest[i] && out[j] == rest[j]);
                    assert(names_of(rest)[i] != names_of(rest)[j]);
                }
            }
        }
    }
}

/// In a distinct listing, the kept entry with a given name keeps its body.
pub proof fn lemma_kept_content(
    es0: Seq<(Seq<char>, Seq<char>)>,
    es: Seq<(Seq<char>, Seq<char>)>,
    prefix: Seq<char>,
    k: int,
)
    requires
        distinct_names(es),
        0 <= k < es.len(),
        !entry_accepted(es0, es[k], prefix),
    ensures
        has_name(kept_from(es0, es, prefix), es[k].0),
        content_of(kept_from(es0, es, prefix), es[k].0) == es[k].1,
    decreases es.len(),
{
    lemma_kept_contains_entry(es0, es, prefix, k);
    lemma_kept_distinct(es0, es, prefix);
    let out = kept_from(es0, es, prefix);
    let j = choose|j: int| 0 <= j < out.len() && out[j] == es[k];
    lemma_entry_at_index(out, j);
}

} // verus!
