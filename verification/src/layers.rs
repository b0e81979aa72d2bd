//! A search that advances layer by layer, and what its seen record holds
//! at each layer: the reasons why the ladders that the solver returns are
//! shortest ones.

use vstd::prelude::*;
use vstd::seq_lib::seq_to_set_is_finite;
use vstd::set_lib::lemma_len_subset;
use crate::ladder::{
    connected, is_chain, is_farthest_ladder, is_ladder, is_shortest_ladder, lemma_chain_append,
    lemma_chain_push, lemma_chain_reverse, lemma_chain_take, lemma_ladder_reverse,
    lemma_linked_symmetric, lemma_shortest_reverse, linked, starts_at, step, usable,
};
use crate::record::{
    apart_from, entries_from, entry_words, extends, first_link, first_link_of, found, grown,
    heads, joined, spread, trail, well_linked, NO_PARENT,
};
use crate::words::{first_position, slice_words};

verus! {

/// Entry `i` was reached from an earlier entry to which it is linked, and
/// lies one layer deeper.
pub open spec fn reached(
    seen: Seq<Seq<u8>>,
    parents: Seq<usize>,
    depths: Seq<nat>,
    i: int,
) -> bool {
    &&& parents[i] < i
    &&& linked(seen[parents[i] as int], seen[i])
    &&& depths[i] == depths[parents[i] as int] + 1
}

/// The record holds `w` at a depth of at most `d`.
pub open spec fn within(seen: Seq<Seq<u8>>, depths: Seq<nat>, w: Seq<u8>, d: nat) -> bool {
    exists|m: int| 0 <= m < seen.len() && (#[trigger] seen[m]) == w && depths[m] <= d
}

/// A record that is a tree: it begins with its root, holds usable words
/// only and none twice, every later entry was reached from an earlier
/// one, and the depths, which count the links back to the root, never
/// fall along the record.
pub open spec fn rooted(
    words: Seq<Seq<u8>>,
    excluded: Seq<Seq<u8>>,
    seen: Seq<Seq<u8>>,
    parents: Seq<usize>,
    depths: Seq<nat>,
) -> bool {
    &&& seen.len() == parents.len()
    &&& seen.len() == depths.len()
    &&& 1 <= seen.len() <= usize::MAX
    &&& parents[0] == NO_PARENT
    &&& depths[0] == 0
    &&& forall|i: int| 0 <= i < seen.len() ==> usable(words, excluded, #[trigger] seen[i])
    &&& forall|i: int| 1 <= i < seen.len() ==> #[trigger] reached(seen, parents, depths, i)
    &&& forall|i: int, j: int|
        #![trigger seen[i], seen[j]]
        0 <= i < j < seen.len() ==> seen[i] != seen[j]
    &&& forall|i: int, j: int|
        #![trigger depths[i], depths[j]]
        0 <= i <= j < seen.len() ==> depths[i] <= depths[j]
}

/// A record that a breadth-first search has brought to layer `level`: a
/// tree whose last entries, those at depth `level`, are the frontier, and
/// in which every usable word that is linked to an entry before the
/// frontier stands at most one layer below that entry.
pub open spec fn layered(
    words: Seq<Seq<u8>>,
    excluded: Seq<Seq<u8>>,
    seen: Seq<Seq<u8>>,
    parents: Seq<usize>,
    depths: Seq<nat>,
    frontier: Seq<(Seq<u8>, usize)>,
    level: nat,
) -> bool {
    let lo = seen.len() - frontier.len();
    &&& rooted(words, excluded, seen, parents, depths)
    &&& frontier.len() <= seen.len()
    &&& frontier == entries_from(seen, lo)
    &&& forall|i: int| 0 <= i < lo ==> #[trigger] depths[i] < level
    &&& forall|i: int| lo <= i < seen.len() ==> #[trigger] depths[i] == level
    &&& forall|i: int, j: int|
        #![trigger seen[i], words[j]]
        0 <= i < lo && 0 <= j < words.len() && linked(seen[i], words[j]) && !excluded.contains(
            words[j],
        ) ==> within(seen, depths, words[j], depths[i] + 1)
}

/// The depths of a record that has grown to `n` entries, the new ones at
/// depth `d`.
pub open spec fn deepened(depths: Seq<nat>, n: int, d: nat) -> Seq<nat> {
    depths + Seq::new((n - depths.len()) as nat, |t: int| d)
}

/// No word stands in both records.
pub open spec fn apart(seen: Seq<Seq<u8>>, other: Seq<Seq<u8>>) -> bool {
    forall|i: int, j: int|
        #![trigger seen[i], other[j]]
        0 <= i < seen.len() && 0 <= j < other.len() ==> seen[i] != other[j]
}

/// A record that holds its root alone is at layer 0.
pub proof fn lemma_layered_root(words: Seq<Seq<u8>>, excluded: Seq<Seq<u8>>, root: Seq<u8>)
    requires
        usable(words, excluded, root),
    ensures
        layered(
            words,
            excluded,
            seq![root],
            seq![NO_PARENT],
            seq![0nat],
            seq![(root, 0usize)],
            0,
        ),
{
    let seen = seq![root];
    let frontier = seq![(root, 0usize)];
    assert(frontier =~= entries_from(seen, 0));
}

/// In a tree every entry is a root or was reached from an earlier entry.
pub proof fn lemma_rooted_well_linked(
    words: Seq<Seq<u8>>,
    excluded: Seq<Seq<u8>>,
    seen: Seq<Seq<u8>>,
    parents: Seq<usize>,
    depths: Seq<nat>,
)
    requires
        rooted(words, excluded, seen, parents, depths),
    ensures
        well_linked(parents),
{
    assert forall|i: int| 0 <= i < parents.len() implies #[trigger] parents[i] == NO_PARENT
        || parents[i] < i by {
        if i >= 1 {
            assert(reached(seen, parents, depths, i));
        }
    }
}

/// The trail to an entry of a tree is a chain from the root to that
/// entry, with as many links as the entry is deep.
pub proof fn lemma_trail(
    words: Seq<Seq<u8>>,
    excluded: Seq<Seq<u8>>,
    seen: Seq<Seq<u8>>,
    parents: Seq<usize>,
    depths: Seq<nat>,
    i: int,
)
    requires
        rooted(words, excluded, seen, parents, depths),
        0 <= i < seen.len(),
    ensures
        is_ladder(words, excluded, seen[0], seen[i], trail(seen, parents, i)),
        trail(seen, parents, i).len() == depths[i] + 1,
    decreases i,
{
    if i == 0 {
        assert(trail(seen, parents, i) =~= seq![seen[0]]);
    } else {
        assert(reached(seen, parents, depths, i));
        let up = parents[i] as int;
        lemma_trail(words, excluded, seen, parents, depths, up);
        lemma_chain_push(words, excluded, trail(seen, parents, up), seen[i]);
    }
}

/// A layered record holds the last word of every chain from its root that
/// has no more links than the record has layers, and holds it no deeper
/// than the chain is long.
pub proof fn lemma_reach(
    words: Seq<Seq<u8>>,
    excluded: Seq<Seq<u8>>,
    seen: Seq<Seq<u8>>,
    parents: Seq<usize>,
    depths: Seq<nat>,
    frontier: Seq<(Seq<u8>, usize)>,
    level: nat,
    q: Seq<Seq<u8>>,
)
    requires
        layered(words, excluded, seen, parents, depths, frontier, level),
        is_chain(words, excluded, q),
        q.first() == seen[0],
        q.len() - 1 <= level,
    ensures
        within(seen, depths, q.last(), (q.len() - 1) as nat),
    decreases q.len(),
{
    if q.len() == 1 {
        assert(seen[0] == q.last());
    } else {
        let n = q.len() as int;
        let head = q.take(n - 1);
        lemma_chain_take(words, excluded, q, n - 1);
        lemma_reach(words, excluded, seen, parents, depths, frontier, level, head);
        assert(head.last() == q[n - 2]);
        let m = choose|m: int|
            0 <= m < seen.len() && (#[trigger] seen[m]) == q[n - 2] && depths[m] <= n - 2;
        assert(depths[m] < level);
        let lo = seen.len() - frontier.len();
        assert(m < lo) by {
            if m >= lo {
                assert(depths[m] == level);
            }
        }
        assert(usable(words, excluded, q[n - 1]));
        let j = choose|j: int| 0 <= j < words.len() && words[j] == q[n - 1];
        assert(step(q, n - 2));
        assert(linked(seen[m], words[j]));
        assert(within(seen, depths, words[j], depths[m] + 1));
        let r = choose|r: int|
            0 <= r < seen.len() && (#[trigger] seen[r]) == words[j] && depths[r] <= depths[m] + 1;
        assert(seen[r] == q.last() && depths[r] <= n - 1);
    }
}

/// A layered record whose frontier is empty holds the last word of every
/// chain from its root.
pub proof fn lemma_exhausted(
    words: Seq<Seq<u8>>,
    excluded: Seq<Seq<u8>>,
    seen: Seq<Seq<u8>>,
    parents: Seq<usize>,
    depths: Seq<nat>,
    frontier: Seq<(Seq<u8>, usize)>,
    level: nat,
    q: Seq<Seq<u8>>,
)
    requires
        layered(words, excluded, seen, parents, depths, frontier, level),
        frontier.len() == 0,
        is_chain(words, excluded, q),
        q.first() == seen[0],
    ensures
        seen.contains(q.last()),
    decreases q.len(),
{
    if q.len() == 1 {
        assert(seen[0] == q.last());
    } else {
        let n = q.len() as int;
        let head = q.take(n - 1);
        lemma_chain_take(words, excluded, q, n - 1);
        lemma_exhausted(words, excluded, seen, parents, depths, frontier, level, head);
        assert(head.last() == q[n - 2]);
        let m = choose|m: int| 0 <= m < seen.len() && seen[m] == q[n - 2];
        assert(usable(words, excluded, q[n - 1]));
        let j = choose|j: int| 0 <= j < words.len() && words[j] == q[n - 1];
        assert(step(q, n - 2));
        assert(linked(seen[m], words[j]));
        assert(within(seen, depths, words[j], depths[m] + 1));
        let r = choose|r: int|
            0 <= r < seen.len() && (#[trigger] seen[r]) == words[j] && depths[r] <= depths[m] + 1;
        assert(seen[r] == q.last());
    }
}

/// A tree holds no more entries than there are words to find.
pub proof fn lemma_rooted_bound(
    words: Seq<Seq<u8>>,
    excluded: Seq<Seq<u8>>,
    seen: Seq<Seq<u8>>,
    parents: Seq<usize>,
    depths: Seq<nat>,
)
    requires
        rooted(words, excluded, seen, parents, depths),
    ensures
        seen.len() <= words.len(),
{
    assert(seen.no_duplicates()) by {
        assert forall|i: int, j: int|
            0 <= i < seen.len() && 0 <= j < seen.len() && i != j implies seen[i] != seen[j] by {
            if i < j {
                assert(seen[i] != seen[j]);
            } else {
                assert(seen[j] != seen[i]);
            }
        }
    }
    seen.unique_seq_to_set();
    words.lemma_cardinality_of_set();
    seq_to_set_is_finite(words);
    assert(seen.to_set().subset_of(words.to_set())) by {
        assert forall|w: Seq<u8>| seen.to_set().contains(w) implies words.to_set().contains(w) by {
            let i = choose|i: int| 0 <= i < seen.len() && seen[i] == w;
            assert(usable(words, excluded, seen[i]));
        }
    }
    lemma_len_subset(seen.to_set(), words.to_set());
}

/// A layered record to which an expansion of its frontier has added
/// words is a tree, with the new words one layer below the frontier.
pub proof fn lemma_tree_grows(
    words: Seq<Seq<u8>>,
    excluded: Seq<Seq<u8>>,
    seen: Seq<Seq<u8>>,
    parents: Seq<usize>,
    depths: Seq<nat>,
    frontier: Seq<(Seq<u8>, usize)>,
    level: nat,
    seen_after: Seq<Seq<u8>>,
    parents_after: Seq<usize>,
)
    requires
        layered(words, excluded, seen, parents, depths, frontier, level),
        grown(frontier, words, excluded, seen, parents, seen_after, parents_after),
        seen_after.len() <= usize::MAX,
    ensures
        rooted(
            words,
            excluded,
            seen_after,
            parents_after,
            deepened(depths, seen_after.len() as int, level + 1),
        ),
{
    let deeper = deepened(depths, seen_after.len() as int, level + 1);
    let lo = seen.len() - frontier.len();
    assert(forall|i: int| 0 <= i < seen.len() ==> deeper[i] == depths[i]);
    assert(forall|i: int| seen.len() <= i < seen_after.len() ==> deeper[i] == level + 1);
    assert(parents_after[0] == parents[0]);
    assert forall|i: int| 0 <= i < seen_after.len() implies usable(
        words,
        excluded,
        #[trigger] seen_after[i],
    ) by {
        if i < seen.len() {
            assert(seen_after[i] == seen[i]);
        }
    }
    assert forall|i: int| 1 <= i < seen_after.len() implies #[trigger] reached(
        seen_after,
        parents_after,
        deeper,
        i,
    ) by {
        if i < seen.len() {
            assert(reached(seen, parents, depths, i));
            assert(seen_after[i] == seen[i]);
            assert(parents_after[i] == parents[i]);
            assert(seen_after[parents[i] as int] == seen[parents[i] as int]);
        } else {
            let w = seen_after[i];
            assert(usable(words, excluded, w));
            let k = first_link_of(heads(frontier), w);
            assert(first_link(heads(frontier), k, w));
            assert(parents_after[i - seen.len() + parents.len()] == frontier[k].1);
            assert(heads(frontier)[k] == frontier[k].0);
            assert(frontier[k] == (seen[lo + k], (lo + k) as usize));
            assert(seen_after[lo + k] == seen[lo + k]);
            assert(depths[lo + k] == level);
        }
    }
    assert forall|i: int, j: int|
        #![trigger seen_after[i], seen_after[j]]
        0 <= i < j < seen_after.len() implies seen_after[i] != seen_after[j] by {
        if j < seen.len() {
            assert(seen[i] != seen[j]);
            assert(seen_after[i] == seen[i]);
            assert(seen_after[j] == seen[j]);
        } else {
            assert(seen_after[i] != seen_after[j]);
        }
    }
    assert forall|i: int, j: int|
        #![trigger deeper[i], deeper[j]]
        0 <= i <= j < seen_after.len() implies deeper[i] <= deeper[j] by {
        if j < seen.len() {
            assert(depths[i] <= depths[j]);
        } else if i < seen.len() {
            if i < lo {
                assert(depths[i] < level);
            } else {
                assert(depths[i] == level);
            }
        }
    }
}

/// A layered record whose whole frontier has been expanded is layered
/// one level deeper, and the words found are its frontier.
pub proof fn lemma_layer_grows(
    words: Seq<Seq<u8>>,
    excluded: Seq<Seq<u8>>,
    seen: Seq<Seq<u8>>,
    parents: Seq<usize>,
    depths: Seq<nat>,
    frontier: Seq<(Seq<u8>, usize)>,
    level: nat,
    seen_after: Seq<Seq<u8>>,
    parents_after: Seq<usize>,
)
    requires
        layered(words, excluded, seen, parents, depths, frontier, level),
        grown(frontier, words, excluded, seen, parents, seen_after, parents_after),
        spread(heads(frontier), words, excluded, seen_after),
        seen_after.len() <= usize::MAX,
    ensures
        layered(
            words,
            excluded,
            seen_after,
            parents_after,
            deepened(depths, seen_after.len() as int, level + 1),
            entries_from(seen_after, seen.len() as int),
            level + 1,
        ),
{
    lemma_tree_grows(
        words,
        excluded,
        seen,
        parents,
        depths,
        frontier,
        level,
        seen_after,
        parents_after,
    );
    let deeper = deepened(depths, seen_after.len() as int, level + 1);
    let lo = seen.len() - frontier.len();
    let found = entries_from(seen_after, seen.len() as int);
    assert(forall|i: int| 0 <= i < seen.len() ==> deeper[i] == depths[i]);
    assert(forall|i: int| seen.len() <= i < seen_after.len() ==> deeper[i] == level + 1);
    assert(seen_after.len() - found.len() == seen.len());
    assert forall|i: int| 0 <= i < seen.len() implies #[trigger] deeper[i] < level + 1 by {
        if i < lo {
            assert(depths[i] < level);
        } else {
            assert(depths[i] == level);
        }
    }
    assert forall|i: int, j: int|
        #![trigger seen_after[i], words[j]]
        0 <= i < seen.len() && 0 <= j < words.len() && linked(seen_after[i], words[j])
            && !excluded.contains(words[j]) implies within(
        seen_after,
        deeper,
        words[j],
        deeper[i] + 1,
    ) by {
        assert(seen_after[i] == seen[i]);
        if i < lo {
            assert(within(seen, depths, words[j], depths[i] + 1));
            let m = choose|m: int|
                0 <= m < seen.len() && (#[trigger] seen[m]) == words[j] && depths[m] <= depths[i]
                    + 1;
            assert(seen_after[m] == words[j] && deeper[m] <= deeper[i] + 1);
        } else {
            let k = i - lo;
            assert(frontier[k] == (seen[lo + k], (lo + k) as usize));
            assert(heads(frontier)[k] == seen[i]);
            assert(depths[i] == level);
            assert(seen_after.contains(words[j]));
            let m = choose|m: int| 0 <= m < seen_after.len() && seen_after[m] == words[j];
            if m < seen.len() {
                if m < lo {
                    assert(depths[m] < level);
                } else {
                    assert(depths[m] == level);
                }
            }
            assert(seen_after[m] == words[j] && deeper[m] <= deeper[i] + 1);
        }
    }
}

/// Two chains that end in one word make one chain: the first, then the
/// second backwards without the shared word.
pub proof fn lemma_joined(
    words: Seq<Seq<u8>>,
    excluded: Seq<Seq<u8>>,
    x: Seq<Seq<u8>>,
    y: Seq<Seq<u8>>,
)
    requires
        is_chain(words, excluded, x),
        is_chain(words, excluded, y),
        x.last() == y.last(),
    ensures
        is_ladder(words, excluded, x.first(), y.first(), joined(x, y)),
        joined(x, y).len() == x.len() + y.len() - 1,
{
    if y.len() == 1 {
        assert(y.drop_last().reverse() =~= Seq::<Seq<u8>>::empty());
        assert(joined(x, y) =~= x);
    } else {
        let n = y.len() as int;
        let rest = y.drop_last();
        assert(rest =~= y.take(n - 1));
        lemma_chain_take(words, excluded, y, n - 1);
        lemma_chain_reverse(words, excluded, rest);
        let back = rest.reverse();
        assert(back.first() == y[n - 2]);
        assert(back.last() == y[0]);
        assert(step(y, n - 2));
        lemma_linked_symmetric(y[n - 2], y[n - 1]);
        lemma_chain_append(words, excluded, x, back);
        assert(joined(x, y).first() == x[0]);
        assert(joined(x, y).last() == back.last());
    }
}

/// Joining the other way round gives the same ladder backwards.
pub proof fn lemma_joined_reverse(x: Seq<Seq<u8>>, y: Seq<Seq<u8>>)
    requires
        x.len() >= 1,
        y.len() >= 1,
        x.last() == y.last(),
    ensures
        joined(y, x) == joined(x, y).reverse(),
{
    let a = joined(y, x);
    let b = joined(x, y).reverse();
    assert(a.len() == b.len());
    assert forall|i: int| 0 <= i < a.len() implies a[i] == b[i] by {
        let total = x.len() + y.len() - 1;
        let r = total - 1 - i;
        if i < y.len() - 1 {
            assert(a[i] == y[i]);
            assert(r >= x.len());
            assert(joined(x, y)[r] == y.drop_last().reverse()[r - x.len()]);
        } else if i == y.len() - 1 {
            assert(a[i] == y.last());
            assert(joined(x, y)[r] == x.last());
        } else {
            assert(a[i] == x.drop_last().reverse()[i - y.len()]);
            assert(joined(x, y)[r] == x[r]);
        }
    }
    assert(a =~= b);
}

/// While two layered records hold no word in common, every ladder from
/// the root of the one to the root of the other has more links than the
/// two records have layers together.
pub proof fn lemma_no_short_ladder(
    words: Seq<Seq<u8>>,
    excluded: Seq<Seq<u8>>,
    seen: Seq<Seq<u8>>,
    parents: Seq<usize>,
    depths: Seq<nat>,
    frontier: Seq<(Seq<u8>, usize)>,
    level: nat,
    seen_other: Seq<Seq<u8>>,
    parents_other: Seq<usize>,
    depths_other: Seq<nat>,
    frontier_other: Seq<(Seq<u8>, usize)>,
    level_other: nat,
    q: Seq<Seq<u8>>,
)
    requires
        layered(words, excluded, seen, parents, depths, frontier, level),
        layered(
            words,
            excluded,
            seen_other,
            parents_other,
            depths_other,
            frontier_other,
            level_other,
        ),
        apart(seen, seen_other),
        is_ladder(words, excluded, seen[0], seen_other[0], q),
    ensures
        q.len() >= level + level_other + 2,
{
    if q.len() < level + level_other + 2 {
        let links = q.len() - 1;
        let m: int = if links <= level {
            links
        } else {
            level as int
        };
        let head = q.take(m + 1);
        lemma_chain_take(words, excluded, q, m + 1);
        lemma_reach(words, excluded, seen, parents, depths, frontier, level, head);
        assert(head.last() == q[m]);
        let i = choose|i: int|
            0 <= i < seen.len() && (#[trigger] seen[i]) == q[m] && depths[i] <= (head.len()
                - 1) as nat;
        lemma_chain_reverse(words, excluded, q);
        let turned = q.reverse();
        let tail = turned.take(links - m + 1);
        lemma_chain_take(words, excluded, turned, links - m + 1);
        assert(tail.first() == q.last());
        assert(tail.last() == q[m]);
        lemma_reach(
            words,
            excluded,
            seen_other,
            parents_other,
            depths_other,
            frontier_other,
            level_other,
            tail,
        );
        let j = choose|j: int|
            0 <= j < seen_other.len() && (#[trigger] seen_other[j]) == q[m] && depths_other[j]
                <= (tail.len() - 1) as nat;
        assert(seen[i] != seen_other[j]);
    }
}

/// The ladder through the word at which a search from both ends first
/// meets is a shortest ladder between the two roots.
///
/// One side, layered at `level`, has been expanded as far as the entry
/// `at`, a word that the other side, layered at `level_other`, holds.
/// Before that expansion the two records held no word in common.
pub proof fn lemma_meeting(
    words: Seq<Seq<u8>>,
    excluded: Seq<Seq<u8>>,
    seen: Seq<Seq<u8>>,
    parents: Seq<usize>,
    depths: Seq<nat>,
    frontier: Seq<(Seq<u8>, usize)>,
    level: nat,
    seen_after: Seq<Seq<u8>>,
    parents_after: Seq<usize>,
    at: int,
    seen_other: Seq<Seq<u8>>,
    parents_other: Seq<usize>,
    depths_other: Seq<nat>,
    frontier_other: Seq<(Seq<u8>, usize)>,
    level_other: nat,
)
    requires
        layered(words, excluded, seen, parents, depths, frontier, level),
        layered(
            words,
            excluded,
            seen_other,
            parents_other,
            depths_other,
            frontier_other,
            level_other,
        ),
        apart(seen, seen_other),
        grown(frontier, words, excluded, seen, parents, seen_after, parents_after),
        seen_after.len() <= usize::MAX,
        seen.len() <= at < seen_after.len(),
        seen_other.contains(seen_after[at]),
    ensures
        is_shortest_ladder(
            words,
            excluded,
            seen[0],
            seen_other[0],
            joined(
                trail(seen_after, parents_after, at),
                trail(seen_other, parents_other, first_position(seen_other, seen_after[at])),
            ),
        ),
{
    let w = seen_after[at];
    let deeper = deepened(depths, seen_after.len() as int, level + 1);
    lemma_tree_grows(
        words,
        excluded,
        seen,
        parents,
        depths,
        frontier,
        level,
        seen_after,
        parents_after,
    );
    lemma_trail(words, excluded, seen_after, parents_after, deeper, at);
    let x = trail(seen_after, parents_after, at);
    assert(deeper[at] == level + 1);
    assert(seen_after[0] == seen[0]);
    let there = choose|j: int| 0 <= j < seen_other.len() && seen_other[j] == w;
    assert(forall|k: int| 0 <= k < there ==> seen_other[k] != w) by {
        assert forall|k: int| 0 <= k < there implies seen_other[k] != w by {
            assert(seen_other[k] != seen_other[there]);
        }
    }
    let j = first_position(seen_other, w);
    assert(0 <= j < seen_other.len() && seen_other[j] == w);
    lemma_trail(words, excluded, seen_other, parents_other, depths_other, j);
    let y = trail(seen_other, parents_other, j);
    let lo_other = seen_other.len() - frontier_other.len();
    assert(depths_other[j] <= level_other) by {
        if j < lo_other {
            assert(depths_other[j] < level_other);
        } else {
            assert(depths_other[j] == level_other);
        }
    }
    lemma_joined(words, excluded, x, y);
    let p = joined(x, y);
    assert forall|q: Seq<Seq<u8>>| #[trigger]
        is_ladder(words, excluded, seen[0], seen_other[0], q) implies p.len() <= q.len() by {
        lemma_no_short_ladder(
            words,
            excluded,
            seen,
            parents,
            depths,
            frontier,
            level,
            seen_other,
            parents_other,
            depths_other,
            frontier_other,
            level_other,
            q,
        );
    }
}

/// `lemma_meeting`, for a meeting that the side of the second root has
/// found: the ladder still runs from the first root to the second.
pub proof fn lemma_meeting_back(
    words: Seq<Seq<u8>>,
    excluded: Seq<Seq<u8>>,
    seen: Seq<Seq<u8>>,
    parents: Seq<usize>,
    depths: Seq<nat>,
    frontier: Seq<(Seq<u8>, usize)>,
    level: nat,
    seen_after: Seq<Seq<u8>>,
    parents_after: Seq<usize>,
    at: int,
    seen_other: Seq<Seq<u8>>,
    parents_other: Seq<usize>,
    depths_other: Seq<nat>,
    frontier_other: Seq<(Seq<u8>, usize)>,
    level_other: nat,
)
    requires
        layered(words, excluded, seen, parents, depths, frontier, level),
        layered(
            words,
            excluded,
            seen_other,
            parents_other,
            depths_other,
            frontier_other,
            level_other,
        ),
        apart(seen, seen_other),
        grown(frontier, words, excluded, seen, parents, seen_after, parents_after),
        seen_after.len() <= usize::MAX,
        seen.len() <= at < seen_after.len(),
        seen_other.contains(seen_after[at]),
    ensures
        is_shortest_ladder(
            words,
            excluded,
            seen_other[0],
            seen[0],
            joined(
                trail(seen_other, parents_other, first_position(seen_other, seen_after[at])),
                trail(seen_after, parents_after, at),
            ),
        ),
{
    lemma_meeting(
        words,
        excluded,
        seen,
        parents,
        depths,
        frontier,
        level,
        seen_after,
        parents_after,
        at,
        seen_other,
        parents_other,
        depths_other,
        frontier_other,
        level_other,
    );
    let x = trail(seen_after, parents_after, at);
    let y = trail(seen_other, parents_other, first_position(seen_other, seen_after[at]));
    assert(is_ladder(words, excluded, seen[0], seen_other[0], joined(x, y)));
    lemma_tree_grows(
        words,
        excluded,
        seen,
        parents,
        depths,
        frontier,
        level,
        seen_after,
        parents_after,
    );
    lemma_trail(
        words,
        excluded,
        seen_after,
        parents_after,
        deepened(depths, seen_after.len() as int, level + 1),
        at,
    );
    let w = seen_after[at];
    let there = choose|j: int| 0 <= j < seen_other.len() && seen_other[j] == w;
    assert forall|k: int| 0 <= k < there implies seen_other[k] != w by {
        assert(seen_other[k] != seen_other[there]);
    }
    let j = first_position(seen_other, w);
    assert(0 <= j < seen_other.len() && seen_other[j] == w);
    lemma_trail(words, excluded, seen_other, parents_other, depths_other, j);
    lemma_joined_reverse(x, y);
    lemma_shortest_reverse(words, excluded, seen[0], seen_other[0], joined(x, y));
}

/// Once the frontier of one of two records without a common word is
/// empty, no ladder joins their roots.
pub proof fn lemma_unreachable(
    words: Seq<Seq<u8>>,
    excluded: Seq<Seq<u8>>,
    seen: Seq<Seq<u8>>,
    parents: Seq<usize>,
    depths: Seq<nat>,
    frontier: Seq<(Seq<u8>, usize)>,
    level: nat,
    seen_other: Seq<Seq<u8>>,
)
    requires
        layered(words, excluded, seen, parents, depths, frontier, level),
        frontier.len() == 0,
        seen_other.len() >= 1,
        apart(seen, seen_other),
    ensures
        !connected(words, excluded, seen[0], seen_other[0]),
        !connected(words, excluded, seen_other[0], seen[0]),
{
    assert forall|p: Seq<Seq<u8>>| !is_ladder(words, excluded, seen[0], seen_other[0], p) by {
        if is_ladder(words, excluded, seen[0], seen_other[0], p) {
            lemma_exhausted(words, excluded, seen, parents, depths, frontier, level, p);
            let i = choose|i: int| 0 <= i < seen.len() && seen[i] == p.last();
            assert(seen[i] != seen_other[0]);
        }
    }
    assert forall|p: Seq<Seq<u8>>| !is_ladder(words, excluded, seen_other[0], seen[0], p) by {
        if is_ladder(words, excluded, seen_other[0], seen[0], p) {
            lemma_ladder_reverse(words, excluded, seen_other[0], seen[0], p);
            assert(is_ladder(words, excluded, seen[0], seen_other[0], p.reverse()));
        }
    }
}

/// The trail to an entry of a layered record is a shortest ladder from
/// the root to that entry.
pub proof fn lemma_trail_shortest(
    words: Seq<Seq<u8>>,
    excluded: Seq<Seq<u8>>,
    seen: Seq<Seq<u8>>,
    parents: Seq<usize>,
    depths: Seq<nat>,
    frontier: Seq<(Seq<u8>, usize)>,
    level: nat,
    i: int,
)
    requires
        layered(words, excluded, seen, parents, depths, frontier, level),
        0 <= i < seen.len(),
    ensures
        is_shortest_ladder(words, excluded, seen[0], seen[i], trail(seen, parents, i)),
        trail(seen, parents, i).len() == depths[i] + 1,
{
    let p = trail(seen, parents, i);
    lemma_trail(words, excluded, seen, parents, depths, i);
    let lo = seen.len() - frontier.len();
    assert(depths[i] <= level) by {
        if i < lo {
            assert(depths[i] < level);
        } else {
            assert(depths[i] == level);
        }
    }
    assert forall|q: Seq<Seq<u8>>| #[trigger]
        is_ladder(words, excluded, seen[0], seen[i], q) implies p.len() <= q.len() by {
        if q.len() < p.len() {
            lemma_short_chain_depth(words, excluded, seen, parents, depths, frontier, level, q, i);
        }
    }
}

/// An entry at which a chain from the root ends lies no deeper than the
/// chain is long.
proof fn lemma_short_chain_depth(
    words: Seq<Seq<u8>>,
    excluded: Seq<Seq<u8>>,
    seen: Seq<Seq<u8>>,
    parents: Seq<usize>,
    depths: Seq<nat>,
    frontier: Seq<(Seq<u8>, usize)>,
    level: nat,
    q: Seq<Seq<u8>>,
    i: int,
)
    requires
        layered(words, excluded, seen, parents, depths, frontier, level),
        0 <= i < seen.len(),
        is_chain(words, excluded, q),
        q.first() == seen[0],
        q.last() == seen[i],
        q.len() - 1 <= level,
    ensures
        depths[i] <= q.len() - 1,
{
    lemma_reach(words, excluded, seen, parents, depths, frontier, level, q);
    let m = choose|m: int|
        0 <= m < seen.len() && (#[trigger] seen[m]) == q.last() && depths[m] <= (q.len()
            - 1) as nat;
    if m < i {
        assert(seen[m] != seen[i]);
    }
    if i < m {
        assert(seen[i] != seen[m]);
    }
}

/// Once the frontier of a layered record is empty, every word to which a
/// chain from the root leads is reached by a trail, and no trail is
/// longer than the one to the last entry.
pub proof fn lemma_reaches_all(
    words: Seq<Seq<u8>>,
    excluded: Seq<Seq<u8>>,
    seen: Seq<Seq<u8>>,
    parents: Seq<usize>,
    depths: Seq<nat>,
    frontier: Seq<(Seq<u8>, usize)>,
    level: nat,
    q: Seq<Seq<u8>>,
) -> (r: Seq<Seq<u8>>)
    requires
        layered(words, excluded, seen, parents, depths, frontier, level),
        frontier.len() == 0,
        is_chain(words, excluded, q),
        q.first() == seen[0],
    ensures
        is_ladder(words, excluded, seen[0], q.last(), r),
        r.len() <= depths[seen.len() - 1] + 1,
{
    lemma_exhausted(words, excluded, seen, parents, depths, frontier, level, q);
    let m = choose|m: int| 0 <= m < seen.len() && seen[m] == q.last();
    lemma_trail(words, excluded, seen, parents, depths, m);
    assert(depths[m] <= depths[seen.len() - 1]);
    trail(seen, parents, m)
}

/// The trail to the last entry of a layered record whose frontier is
/// empty is a farthest ladder: the search has seen every word that can be
/// reached from the root, layer by layer, and that entry lies in the last
/// layer.
pub proof fn lemma_farthest(
    words: Seq<Seq<u8>>,
    excluded: Seq<Seq<u8>>,
    seen: Seq<Seq<u8>>,
    parents: Seq<usize>,
    depths: Seq<nat>,
    frontier: Seq<(Seq<u8>, usize)>,
    level: nat,
)
    requires
        layered(words, excluded, seen, parents, depths, frontier, level),
        frontier.len() == 0,
    ensures
        is_farthest_ladder(words, excluded, trail(seen, parents, seen.len() - 1)),
        trail(seen, parents, seen.len() - 1).first() == seen[0],
        trail(seen, parents, seen.len() - 1).last() == seen.last(),
{
    let last = seen.len() - 1;
    let p = trail(seen, parents, last);
    lemma_trail_shortest(words, excluded, seen, parents, depths, frontier, level, last);
    assert forall|q: Seq<Seq<u8>>| #[trigger]
        starts_at(words, excluded, p.first(), q) implies exists|r: Seq<Seq<u8>>|
        #[trigger] is_ladder(words, excluded, p.first(), q.last(), r) && r.len() <= p.len() by {
        let r = lemma_reaches_all(words, excluded, seen, parents, depths, frontier, level, q);
        assert(is_ladder(words, excluded, p.first(), q.last(), r) && r.len() <= p.len());
    }
}

/// The words of a frontier without positions have the length of the
/// words that the search runs through.
pub proof fn lemma_plain_frontier_lengths(
    universe: Seq<Seq<u8>>,
    excluded: Seq<Seq<u8>>,
    seen: Seq<Seq<u8>>,
    parents: Seq<usize>,
    depths: Seq<nat>,
    frontier: Seq<(Seq<u8>, usize)>,
    level: nat,
    search: Seq<&[u8]>,
    words: Seq<&[u8]>,
)
    requires
        layered(universe, excluded, seen, parents, depths, frontier, level),
        universe == slice_words(words),
        heads(frontier) == slice_words(search),
        words.len() >= 1,
        forall|j: int| 0 <= j < words.len() ==> (#[trigger] words[j])@.len() == words[0]@.len(),
    ensures
        forall|k: int, j: int|
            #![trigger search[k], words[j]]
            0 <= k < search.len() && 0 <= j < words.len() ==> search[k]@.len() == words[j]@.len(),
{
    let lo = seen.len() - frontier.len();
    assert forall|k: int, j: int|
        #![trigger search[k], words[j]]
        0 <= k < search.len() && 0 <= j < words.len() implies search[k]@.len()
        == words[j]@.len() by {
        assert(heads(frontier).len() == frontier.len());
        assert(slice_words(search).len() == search.len());
        assert(heads(frontier)[k] == frontier[k].0);
        assert(slice_words(search)[k] == search[k]@);
        assert(frontier[k] == (seen[lo + k], (lo + k) as usize));
        assert(usable(universe, excluded, seen[lo + k]));
        let c = choose|c: int| 0 <= c < universe.len() && universe[c] == seen[lo + k];
        assert(universe[c] == words[c]@);
    }
}

/// The words of a frontier have the length of the words that the search
/// runs through.
pub proof fn lemma_frontier_lengths(
    universe: Seq<Seq<u8>>,
    excluded: Seq<Seq<u8>>,
    seen: Seq<Seq<u8>>,
    parents: Seq<usize>,
    depths: Seq<nat>,
    search: Seq<(&[u8], usize)>,
    level: nat,
    words: Seq<&[u8]>,
)
    requires
        layered(universe, excluded, seen, parents, depths, entry_words(search), level),
        universe == slice_words(words),
        words.len() >= 1,
        forall|j: int| 0 <= j < words.len() ==> (#[trigger] words[j])@.len() == words[0]@.len(),
    ensures
        forall|k: int, j: int|
            #![trigger search[k], words[j]]
            0 <= k < search.len() && 0 <= j < words.len() ==> search[k].0@.len() == words[j]@.len(),
{
    let frontier = entry_words(search);
    let lo = seen.len() - frontier.len();
    assert forall|k: int, j: int|
        #![trigger search[k], words[j]]
        0 <= k < search.len() && 0 <= j < words.len() implies search[k].0@.len()
        == words[j]@.len() by {
        assert(frontier[k] == (search[k].0@, search[k].1));
        assert(frontier[k] == (seen[lo + k], (lo + k) as usize));
        assert(usable(universe, excluded, seen[lo + k]));
        let c = choose|c: int| 0 <= c < universe.len() && universe[c] == seen[lo + k];
        assert(universe[c] == words[c]@);
    }
}

/// Two records stay apart when one of them grows by words that the other
/// does not hold.
pub proof fn lemma_apart_grows(seen: Seq<Seq<u8>>, seen_after: Seq<Seq<u8>>, other: Seq<Seq<u8>>)
    requires
        apart(seen, other),
        extends(seen, seen_after),
        apart_from(seen_after, seen.len() as int, other),
    ensures
        apart(seen_after, other),
{
    assert forall|i: int, j: int|
        #![trigger seen_after[i], other[j]]
        0 <= i < seen_after.len() && 0 <= j < other.len() implies seen_after[i] != other[j] by {
        if i < seen.len() {
            assert(seen_after[i] == seen[i]);
            assert(seen[i] != other[j]);
        } else {
            assert(!other.contains(seen_after[i]));
        }
    }
}

/// Being apart has no direction.
pub proof fn lemma_apart_symmetric(seen: Seq<Seq<u8>>, other: Seq<Seq<u8>>)
    requires
        apart(seen, other),
    ensures
        apart(other, seen),
{
    assert forall|i: int, j: int|
        #![trigger other[i], seen[j]]
        0 <= i < other.len() && 0 <= j < seen.len() implies other[i] != seen[j] by {
        assert(seen[j] != other[i]);
    }
}

/// The parents that an expansion which keeps none would have recorded:
/// for each word found, the first frontier entry that is linked to it.
pub open spec fn adopted(
    frontier: Seq<(Seq<u8>, usize)>,
    parents: Seq<usize>,
    seen_after: Seq<Seq<u8>>,
) -> Seq<usize> {
    parents + Seq::new(
        (seen_after.len() - parents.len()) as nat,
        |t: int| frontier[first_link_of(heads(frontier), seen_after[parents.len() + t])].1,
    )
}

/// What an expansion without parents has found is what an expansion with
/// parents would have found, had it recorded the adopted parents.
pub proof fn lemma_adopted(
    frontier: Seq<(Seq<u8>, usize)>,
    words: Seq<Seq<u8>>,
    excluded: Seq<Seq<u8>>,
    seen: Seq<Seq<u8>>,
    parents: Seq<usize>,
    seen_after: Seq<Seq<u8>>,
)
    requires
        seen.len() == parents.len(),
        found(heads(frontier), words, excluded, seen, seen_after),
    ensures
        grown(
            frontier,
            words,
            excluded,
            seen,
            parents,
            seen_after,
            adopted(frontier, parents, seen_after),
        ),
{
    let parents_after = adopted(frontier, parents, seen_after);
    assert forall|i: int| seen.len() <= i < seen_after.len() implies parents_after[i - seen.len()
        + parents.len()] == frontier[first_link_of(
        heads(frontier),
        #[trigger] seen_after[i],
    )].1 by {
        assert(parents_after[i] == frontier[first_link_of(
            heads(frontier),
            seen_after[parents.len() + (i - parents.len())],
        )].1);
    }
}

} // verus!
