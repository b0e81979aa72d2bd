//! The seen record of a search: the words discovered so far, in the order
//! of their discovery, each with the position of the word it was reached
//! from. What one step of expansion does to a record is stated here.

use vstd::prelude::*;
use crate::ladder::linked;
use crate::words::{first_position, lemma_first_position};

verus! {

/// The parent of a root: it was reached from no other word.
pub const NO_PARENT: usize = usize::MAX;

/// Every entry is a root or was reached from an earlier entry.
pub open spec fn well_linked(parents: Seq<usize>) -> bool {
    forall|i: int| 0 <= i < parents.len() ==> #[trigger] parents[i] == NO_PARENT || parents[i] < i
}

/// The words from the root down to entry `i`, following the parents of a
/// record. Outside the record the trail is empty.
pub open spec fn trail(seen: Seq<Seq<u8>>, parents: Seq<usize>, i: int) -> Seq<Seq<u8>>
    decreases i,
{
    if 0 <= i < seen.len() && i < parents.len() {
        if parents[i] < i {
            trail(seen, parents, parents[i] as int).push(seen[i])
        } else {
            seq![seen[i]]
        }
    } else {
        Seq::empty()
    }
}

/// The two halves of a ladder that meet in one word, put together: the
/// front half as it is, then the back half backwards without the meeting
/// word.
pub open spec fn joined(front_half: Seq<Seq<u8>>, back_half: Seq<Seq<u8>>) -> Seq<Seq<u8>> {
    front_half + back_half.drop_last().reverse()
}

/// `after` begins with `before`.
pub open spec fn extends<A>(before: Seq<A>, after: Seq<A>) -> bool {
    &&& before.len() <= after.len()
    &&& forall|i: int| 0 <= i < before.len() ==> #[trigger] after[i] == before[i]
}

/// The entries behind a search list: each a word with its position in the
/// seen record.
pub open spec fn entry_words(list: Seq<(&[u8], usize)>) -> Seq<(Seq<u8>, usize)> {
    list.map_values(|e: (&[u8], usize)| (e.0@, e.1))
}

/// The words of a list of entries.
pub open spec fn heads(entries: Seq<(Seq<u8>, usize)>) -> Seq<Seq<u8>> {
    entries.map_values(|e: (Seq<u8>, usize)| e.0)
}

/// The entries of the words that a record holds from position `from` on.
pub open spec fn entries_from(seen: Seq<Seq<u8>>, from: int) -> Seq<(Seq<u8>, usize)> {
    Seq::new((seen.len() - from) as nat, |t: int| (seen[from + t], (from + t) as usize))
}

/// `w` is linked to the frontier word at position `k`, and to none before
/// it.
pub open spec fn first_link(frontier: Seq<Seq<u8>>, k: int, w: Seq<u8>) -> bool {
    &&& 0 <= k < frontier.len()
    &&& linked(frontier[k], w)
    &&& forall|e: int| 0 <= e < k ==> !linked(#[trigger] frontier[e], w)
}

/// The position of the first frontier word that is linked to `w`.
pub open spec fn first_link_of(frontier: Seq<Seq<u8>>, w: Seq<u8>) -> int {
    choose|k: int| first_link(frontier, k, w)
}

/// The search comes to `a` before it comes to `b`: from an earlier
/// frontier word, or from the same one at an earlier place in `words`.
pub open spec fn goes_before(
    frontier: Seq<Seq<u8>>,
    words: Seq<Seq<u8>>,
    a: Seq<u8>,
    b: Seq<u8>,
) -> bool {
    let ka = first_link_of(frontier, a);
    let kb = first_link_of(frontier, b);
    ka < kb || (ka == kb && first_position(words, a) < first_position(words, b))
}

/// The words of `seen` from position `from` on stand in the order in
/// which the search comes to them.
pub open spec fn in_search_order(
    frontier: Seq<Seq<u8>>,
    words: Seq<Seq<u8>>,
    from: int,
    seen: Seq<Seq<u8>>,
) -> bool {
    forall|i: int, j: int|
        #![trigger seen[i], seen[j]]
        from <= i < j < seen.len() ==> goes_before(frontier, words, seen[i], seen[j])
}

/// What one step of expansion has added to a seen list: words of `words`
/// that are not excluded, were not in the list and are linked to a
/// frontier word, none twice, in the order of the search.
pub open spec fn found(
    frontier: Seq<Seq<u8>>,
    words: Seq<Seq<u8>>,
    excluded: Seq<Seq<u8>>,
    seen_before: Seq<Seq<u8>>,
    seen_after: Seq<Seq<u8>>,
) -> bool {
    &&& extends(seen_before, seen_after)
    &&& forall|i: int|
        seen_before.len() <= i < seen_after.len() ==> {
            &&& words.contains(#[trigger] seen_after[i])
            &&& !excluded.contains(seen_after[i])
            &&& first_link(frontier, first_link_of(frontier, seen_after[i]), seen_after[i])
        }
    &&& forall|i: int, k: int|
        #![trigger seen_after[i], seen_after[k]]
        seen_before.len() <= i < seen_after.len() && 0 <= k < i ==> seen_after[k] != seen_after[i]
    &&& in_search_order(frontier, words, seen_before.len() as int, seen_after)
}

/// The parents that one step of expansion has recorded: for each word
/// found, the position that the first frontier entry linked to it has in
/// the record.
pub open spec fn parented(
    frontier: Seq<(Seq<u8>, usize)>,
    seen_before: Seq<Seq<u8>>,
    parents_before: Seq<usize>,
    seen_after: Seq<Seq<u8>>,
    parents_after: Seq<usize>,
) -> bool {
    &&& extends(parents_before, parents_after)
    &&& parents_after.len() - parents_before.len() == seen_after.len() - seen_before.len()
    &&& forall|i: int|
        seen_before.len() <= i < seen_after.len() ==> parents_after[i - seen_before.len()
            + parents_before.len()] == frontier[first_link_of(
            heads(frontier),
            #[trigger] seen_after[i],
        )].1
}

/// What one step of expansion has added to a seen record: the words
/// found, and their parents.
pub open spec fn grown(
    frontier: Seq<(Seq<u8>, usize)>,
    words: Seq<Seq<u8>>,
    excluded: Seq<Seq<u8>>,
    seen_before: Seq<Seq<u8>>,
    parents_before: Seq<usize>,
    seen_after: Seq<Seq<u8>>,
    parents_after: Seq<usize>,
) -> bool {
    &&& found(heads(frontier), words, excluded, seen_before, seen_after)
    &&& parented(frontier, seen_before, parents_before, seen_after, parents_after)
}

/// `spread`, as far as an expansion has come: for the frontier words
/// before `k`, and for the one at `k` with the words before `j`.
pub open spec fn spread_so_far(
    frontier: Seq<Seq<u8>>,
    words: Seq<Seq<u8>>,
    excluded: Seq<Seq<u8>>,
    seen: Seq<Seq<u8>>,
    k: int,
    j: int,
) -> bool {
    forall|e: int, c: int|
        #![trigger frontier[e], words[c]]
        0 <= e < frontier.len() && 0 <= c < words.len() && (e < k || (e == k && c < j)) && linked(
            frontier[e],
            words[c],
        ) && !excluded.contains(words[c]) ==> seen.contains(words[c])
}

/// Every word of `words` that is not excluded and is linked to a frontier
/// word is in the list.
pub open spec fn spread(
    frontier: Seq<Seq<u8>>,
    words: Seq<Seq<u8>>,
    excluded: Seq<Seq<u8>>,
    seen: Seq<Seq<u8>>,
) -> bool {
    spread_so_far(frontier, words, excluded, seen, frontier.len() as int, 0)
}

/// The search came to every word of `seen` from position `from` on
/// before it came to the frontier word at `k` with the word at `j`.
pub open spec fn found_before(
    frontier: Seq<Seq<u8>>,
    words: Seq<Seq<u8>>,
    from: int,
    seen: Seq<Seq<u8>>,
    k: int,
    j: int,
) -> bool {
    forall|i: int|
        from <= i < seen.len() ==> {
            let ki = first_link_of(frontier, #[trigger] seen[i]);
            ki < k || (ki == k && first_position(words, seen[i]) < j)
        }
}

/// None of the words of `seen` from position `from` on is in `other`.
pub open spec fn apart_from(seen: Seq<Seq<u8>>, from: int, other: Seq<Seq<u8>>) -> bool {
    forall|i: int| from <= i < seen.len() ==> !other.contains(#[trigger] seen[i])
}

/// A word has one first link.
pub proof fn lemma_first_link_unique(frontier: Seq<Seq<u8>>, k: int, w: Seq<u8>)
    requires
        first_link(frontier, k, w),
    ensures
        first_link_of(frontier, w) == k,
{
    let c = first_link_of(frontier, w);
    assert(first_link(frontier, c, w));
    if c < k {
        assert(!linked(frontier[c], w));
    }
    if k < c {
        assert(!linked(frontier[k], w));
    }
}

/// The step of an expansion that finds a word: with the frontier word at
/// `k` in hand, the word at `j` of `words` is linked to it, not excluded
/// and not yet in the list, and is appended.
pub proof fn lemma_found_push(
    frontier: Seq<Seq<u8>>,
    words: Seq<Seq<u8>>,
    excluded: Seq<Seq<u8>>,
    seen_before: Seq<Seq<u8>>,
    seen: Seq<Seq<u8>>,
    k: int,
    j: int,
)
    requires
        found(frontier, words, excluded, seen_before, seen),
        spread_so_far(frontier, words, excluded, seen, k, j),
        found_before(frontier, words, seen_before.len() as int, seen, k, j),
        0 <= k < frontier.len(),
        0 <= j < words.len(),
        linked(frontier[k], words[j]),
        !excluded.contains(words[j]),
        !seen.contains(words[j]),
    ensures
        found(frontier, words, excluded, seen_before, seen.push(words[j])),
        spread_so_far(frontier, words, excluded, seen.push(words[j]), k, j + 1),
        found_before(frontier, words, seen_before.len() as int, seen.push(words[j]), k, j + 1),
        first_link_of(frontier, words[j]) == k,
        first_position(words, words[j]) == j,
{
    let w = words[j];
    let seen_after = seen.push(w);
    assert(first_link(frontier, k, w)) by {
        assert forall|e: int| 0 <= e < k implies !linked(#[trigger] frontier[e], w) by {
            if linked(frontier[e], words[j]) {
                assert(seen.contains(words[j]));
            }
        }
    }
    lemma_first_link_unique(frontier, k, w);
    assert forall|c: int| 0 <= c < j implies words[c] != w by {
        if words[c] == w {
            assert(linked(frontier[k], words[c]));
            assert(seen.contains(words[c]));
        }
    }
    lemma_first_position(words, w, j);
    assert forall|i: int| seen_before.len() <= i < seen_after.len() implies {
        &&& words.contains(#[trigger] seen_after[i])
        &&& !excluded.contains(seen_after[i])
        &&& first_link(frontier, first_link_of(frontier, seen_after[i]), seen_after[i])
    } by {
        if i < seen.len() {
            assert(seen_after[i] == seen[i]);
        } else {
            assert(seen_after[i] == w);
        }
    }
    assert forall|i: int, c: int|
        #![trigger seen_after[i], seen_after[c]]
        seen_before.len() <= i < seen_after.len() && 0 <= c < i implies seen_after[c]
        != seen_after[i] by {
        if i < seen.len() {
            assert(seen[c] != seen[i]);
        } else {
            assert(seen[c] != w);
        }
    }
    assert forall|i: int, c: int|
        #![trigger seen_after[i], seen_after[c]]
        seen_before.len() <= i < c < seen_after.len() implies goes_before(
        frontier,
        words,
        seen_after[i],
        seen_after[c],
    ) by {
        if c < seen.len() {
            assert(goes_before(frontier, words, seen[i], seen[c]));
        } else {
            assert(seen_after[i] == seen[i]);
            assert(seen_after[c] == w);
        }
    }
    assert forall|e: int, c: int|
        #![trigger frontier[e], words[c]]
        0 <= e < frontier.len() && 0 <= c < words.len() && (e < k || (e == k && c < j + 1))
            && linked(frontier[e], words[c]) && !excluded.contains(
            words[c],
        ) implies seen_after.contains(words[c]) by {
        if e == k && c == j {
            assert(seen_after[seen.len() as int] == w);
        } else {
            assert(seen.contains(words[c]));
            let at = choose|at: int| 0 <= at < seen.len() && seen[at] == words[c];
            assert(seen_after[at] == words[c]);
        }
    }
    assert forall|i: int| seen_before.len() <= i < seen_after.len() implies {
        let ki = first_link_of(frontier, #[trigger] seen_after[i]);
        ki < k || (ki == k && first_position(words, seen_after[i]) < j + 1)
    } by {
        if i < seen.len() {
            assert(seen_after[i] == seen[i]);
        } else {
            assert(seen_after[i] == w);
        }
    }
}

/// The same step, for the parents: the position of the frontier entry in
/// hand is appended.
pub proof fn lemma_parented_push(
    frontier: Seq<(Seq<u8>, usize)>,
    seen_before: Seq<Seq<u8>>,
    parents_before: Seq<usize>,
    seen: Seq<Seq<u8>>,
    parents: Seq<usize>,
    w: Seq<u8>,
)
    requires
        parented(frontier, seen_before, parents_before, seen, parents),
        extends(seen_before, seen),
    ensures
        parented(
            frontier,
            seen_before,
            parents_before,
            seen.push(w),
            parents.push(frontier[first_link_of(heads(frontier), w)].1),
        ),
{
    let seen_after = seen.push(w);
    let parents_after = parents.push(frontier[first_link_of(heads(frontier), w)].1);
    assert forall|i: int| seen_before.len() <= i < seen_after.len() implies parents_after[i
        - seen_before.len() + parents_before.len()] == frontier[first_link_of(
        heads(frontier),
        #[trigger] seen_after[i],
    )].1 by {
        if i < seen.len() {
            assert(seen_after[i] == seen[i]);
        } else {
            assert(seen_after[i] == w);
        }
    }
}

} // verus!
