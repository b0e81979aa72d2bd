//! The mathematical model: words, the one-letter link between them, and
//! chains of linked words.

use vstd::prelude::*;

verus! {

/// The number of positions below `n` at which `a` and `b` differ.
pub open spec fn mismatches_below(a: Seq<u8>, b: Seq<u8>, n: int) -> nat
    decreases n,
{
    if n <= 0 {
        0
    } else {
        mismatches_below(a, b, n - 1) + if a[n - 1] != b[n - 1] {
            1nat
        } else {
            0nat
        }
    }
}

/// The number of positions at which two words of one length differ.
pub open spec fn mismatches(a: Seq<u8>, b: Seq<u8>) -> nat {
    mismatches_below(a, b, a.len() as int)
}

/// Two words are linked when they have one length and differ in exactly
/// one position.
pub open spec fn linked(a: Seq<u8>, b: Seq<u8>) -> bool {
    a.len() == b.len() && mismatches(a, b) == 1
}

/// Counting further positions never lowers the count.
pub proof fn lemma_mismatches_grow(a: Seq<u8>, b: Seq<u8>, m: int, n: int)
    requires
        m <= n,
    ensures
        mismatches_below(a, b, m) <= mismatches_below(a, b, n),
    decreases n - m,
{
    if m < n {
        lemma_mismatches_grow(a, b, m, n - 1);
    }
}

/// No position below `n` differs exactly when the count below `n` is zero.
pub proof fn lemma_mismatches_zero(a: Seq<u8>, b: Seq<u8>, n: int)
    ensures
        mismatches_below(a, b, n) == 0 <==> forall|k: int| 0 <= k < n ==> a[k] == b[k],
    decreases n,
{
    if n > 0 {
        lemma_mismatches_zero(a, b, n - 1);
        if mismatches_below(a, b, n) == 0 {
            assert forall|k: int| 0 <= k < n implies a[k] == b[k] by {
                if k < n - 1 {
                } else {
                }
            }
        }
    }
}

/// Words of one length are equal exactly when they differ nowhere.
pub proof fn lemma_no_mismatch_is_equality(a: Seq<u8>, b: Seq<u8>)
    requires
        a.len() == b.len(),
    ensures
        mismatches(a, b) == 0 <==> a == b,
{
    lemma_mismatches_zero(a, b, a.len() as int);
    if mismatches(a, b) == 0 {
        assert(a =~= b);
    }
}

/// The count of differing positions does not depend on the order of the
/// two words.
pub proof fn lemma_mismatches_symmetric(a: Seq<u8>, b: Seq<u8>, n: int)
    ensures
        mismatches_below(a, b, n) == mismatches_below(b, a, n),
    decreases n,
{
    if n > 0 {
        lemma_mismatches_symmetric(a, b, n - 1);
    }
}

/// The link has no direction.
pub proof fn lemma_linked_symmetric(a: Seq<u8>, b: Seq<u8>)
    ensures
        linked(a, b) == linked(b, a),
{
    lemma_mismatches_symmetric(a, b, a.len() as int);
}

/// `a` and `b` differ at position `i`, and at no other position below
/// `n`.
pub open spec fn differ_only_at(a: Seq<u8>, b: Seq<u8>, n: int, i: int) -> bool {
    &&& 0 <= i < n
    &&& a[i] != b[i]
    &&& forall|k: int| 0 <= k < n && k != i ==> a[k] == b[k]
}

/// The count below `n` is one exactly when the two words differ at one
/// position below `n` and nowhere else.
pub proof fn lemma_one_mismatch(a: Seq<u8>, b: Seq<u8>, n: int)
    ensures
        mismatches_below(a, b, n) == 1 <==> exists|i: int| differ_only_at(a, b, n, i),
    decreases n,
{
    if n > 0 {
        let m = n - 1;
        lemma_one_mismatch(a, b, m);
        lemma_mismatches_zero(a, b, m);
        if mismatches_below(a, b, n) == 1 {
            if a[m] != b[m] {
                assert(differ_only_at(a, b, n, m));
            } else {
                let i = choose|i: int| differ_only_at(a, b, m, i);
                assert(differ_only_at(a, b, n, i));
            }
        }
        if exists|i: int| differ_only_at(a, b, n, i) {
            let i = choose|i: int| differ_only_at(a, b, n, i);
            if i < m {
                assert(differ_only_at(a, b, m, i));
            }
        }
    }
}

/// Two words are linked exactly when they have one length, differ at one
/// position and agree at every other.
pub proof fn lemma_linked_one_position(a: Seq<u8>, b: Seq<u8>)
    ensures
        linked(a, b) <==> a.len() == b.len() && exists|i: int|
            differ_only_at(a, b, a.len() as int, i),
{
    lemma_one_mismatch(a, b, a.len() as int);
}

/// A word may stand in a chain: it is one of `universe` and not one of
/// `excluded`.
pub open spec fn usable(universe: Seq<Seq<u8>>, excluded: Seq<Seq<u8>>, w: Seq<u8>) -> bool {
    universe.contains(w) && !excluded.contains(w)
}

/// The words at positions `i` and `i + 1` of `p` are linked.
pub open spec fn step(p: Seq<Seq<u8>>, i: int) -> bool {
    linked(p[i], p[i + 1])
}

/// A chain: at least one word, every word usable, and each linked to the
/// next.
pub open spec fn is_chain(universe: Seq<Seq<u8>>, excluded: Seq<Seq<u8>>, p: Seq<Seq<u8>>) -> bool {
    &&& p.len() >= 1
    &&& forall|i: int| 0 <= i < p.len() ==> usable(universe, excluded, #[trigger] p[i])
    &&& forall|i: int| 0 <= i < p.len() - 1 ==> #[trigger] step(p, i)
}

/// A ladder from `a` to `b`: a chain that begins with `a` and ends with
/// `b`.
pub open spec fn is_ladder(
    universe: Seq<Seq<u8>>,
    excluded: Seq<Seq<u8>>,
    a: Seq<u8>,
    b: Seq<u8>,
    p: Seq<Seq<u8>>,
) -> bool {
    is_chain(universe, excluded, p) && p.first() == a && p.last() == b
}

/// A ladder from `a` to `b` than which no ladder from `a` to `b` is
/// shorter.
pub open spec fn is_shortest_ladder(
    universe: Seq<Seq<u8>>,
    excluded: Seq<Seq<u8>>,
    a: Seq<u8>,
    b: Seq<u8>,
    p: Seq<Seq<u8>>,
) -> bool {
    &&& is_ladder(universe, excluded, a, b, p)
    &&& forall|q: Seq<Seq<u8>>| #[trigger]
        is_ladder(universe, excluded, a, b, q) ==> p.len() <= q.len()
}

/// Some ladder leads from `a` to `b`.
pub open spec fn connected(
    universe: Seq<Seq<u8>>,
    excluded: Seq<Seq<u8>>,
    a: Seq<u8>,
    b: Seq<u8>,
) -> bool {
    exists|p: Seq<Seq<u8>>| is_ladder(universe, excluded, a, b, p)
}

/// All words of a chain have one length.
pub proof fn lemma_chain_one_length(
    universe: Seq<Seq<u8>>,
    excluded: Seq<Seq<u8>>,
    p: Seq<Seq<u8>>,
    i: int,
)
    requires
        is_chain(universe, excluded, p),
        0 <= i < p.len(),
    ensures
        p[i].len() == p[0].len(),
    decreases i,
{
    if i > 0 {
        lemma_chain_one_length(universe, excluded, p, i - 1);
        assert(step(p, i - 1));
    }
}

/// The beginning of a chain is a chain.
pub proof fn lemma_chain_take(
    universe: Seq<Seq<u8>>,
    excluded: Seq<Seq<u8>>,
    p: Seq<Seq<u8>>,
    n: int,
)
    requires
        is_chain(universe, excluded, p),
        1 <= n <= p.len(),
    ensures
        is_chain(universe, excluded, p.take(n)),
{
    let t = p.take(n);
    assert forall|i: int| 0 <= i < t.len() implies usable(universe, excluded, #[trigger] t[i]) by {
        assert(t[i] == p[i]);
    }
    assert forall|i: int| 0 <= i < t.len() - 1 implies #[trigger] step(t, i) by {
        assert(step(p, i));
    }
}

/// A chain read backwards is a chain.
pub proof fn lemma_chain_reverse(universe: Seq<Seq<u8>>, excluded: Seq<Seq<u8>>, p: Seq<Seq<u8>>)
    requires
        is_chain(universe, excluded, p),
    ensures
        is_chain(universe, excluded, p.reverse()),
{
    let r = p.reverse();
    assert forall|i: int| 0 <= i < r.len() implies usable(universe, excluded, #[trigger] r[i]) by {
        assert(r[i] == p[p.len() - 1 - i]);
    }
    assert forall|i: int| 0 <= i < r.len() - 1 implies #[trigger] step(r, i) by {
        let m = p.len() - 2 - i;
        assert(step(p, m));
        assert(r[i] == p[m + 1]);
        assert(r[i + 1] == p[m]);
        lemma_linked_symmetric(p[m], p[m + 1]);
    }
}

/// A chain followed by a chain is a chain, if the last word of the first
/// is linked to the first word of the second.
pub proof fn lemma_chain_append(
    universe: Seq<Seq<u8>>,
    excluded: Seq<Seq<u8>>,
    p: Seq<Seq<u8>>,
    q: Seq<Seq<u8>>,
)
    requires
        is_chain(universe, excluded, p),
        is_chain(universe, excluded, q),
        linked(p.last(), q.first()),
    ensures
        is_chain(universe, excluded, p + q),
{
    let c = p + q;
    assert forall|i: int| 0 <= i < c.len() implies usable(universe, excluded, #[trigger] c[i]) by {
        if i < p.len() {
            assert(c[i] == p[i]);
        } else {
            assert(c[i] == q[i - p.len()]);
        }
    }
    assert forall|i: int| 0 <= i < c.len() - 1 implies #[trigger] step(c, i) by {
        if i < p.len() - 1 {
            assert(step(p, i));
        } else if i == p.len() - 1 {
            assert(c[i] == p.last());
            assert(c[i + 1] == q.first());
        } else {
            assert(step(q, i - p.len()));
            assert(c[i] == q[i - p.len()]);
            assert(c[i + 1] == q[i - p.len() + 1]);
        }
    }
}

/// A chain with a usable word after it that is linked to its last word is
/// a chain.
pub proof fn lemma_chain_push(
    universe: Seq<Seq<u8>>,
    excluded: Seq<Seq<u8>>,
    p: Seq<Seq<u8>>,
    w: Seq<u8>,
)
    requires
        is_chain(universe, excluded, p),
        usable(universe, excluded, w),
        linked(p.last(), w),
    ensures
        is_chain(universe, excluded, p.push(w)),
{
    let q = seq![w];
    assert(is_chain(universe, excluded, q));
    lemma_chain_append(universe, excluded, p, q);
    assert(p + q =~= p.push(w));
}

/// A ladder read backwards is a ladder the other way.
pub proof fn lemma_ladder_reverse(
    universe: Seq<Seq<u8>>,
    excluded: Seq<Seq<u8>>,
    a: Seq<u8>,
    b: Seq<u8>,
    p: Seq<Seq<u8>>,
)
    requires
        is_ladder(universe, excluded, a, b, p),
    ensures
        is_ladder(universe, excluded, b, a, p.reverse()),
        p.reverse().len() == p.len(),
{
    lemma_chain_reverse(universe, excluded, p);
}

/// A shortest ladder read backwards is a shortest ladder the other way.
pub proof fn lemma_shortest_reverse(
    universe: Seq<Seq<u8>>,
    excluded: Seq<Seq<u8>>,
    a: Seq<u8>,
    b: Seq<u8>,
    p: Seq<Seq<u8>>,
)
    requires
        is_shortest_ladder(universe, excluded, a, b, p),
    ensures
        is_shortest_ladder(universe, excluded, b, a, p.reverse()),
{
    lemma_ladder_reverse(universe, excluded, a, b, p);
    assert forall|q: Seq<Seq<u8>>| #[trigger]
        is_ladder(universe, excluded, b, a, q) implies p.reverse().len() <= q.len() by {
        lemma_ladder_reverse(universe, excluded, b, a, q);
        assert(is_ladder(universe, excluded, a, b, q.reverse()));
    }
}

/// Whether a sequence of words is a ladder depends on the universe only
/// through its words of the ladder's length.
pub proof fn lemma_ladder_universe(
    universe: Seq<Seq<u8>>,
    other: Seq<Seq<u8>>,
    excluded: Seq<Seq<u8>>,
    a: Seq<u8>,
    b: Seq<u8>,
    p: Seq<Seq<u8>>,
)
    requires
        is_ladder(universe, excluded, a, b, p),
        forall|w: Seq<u8>| w.len() == a.len() && universe.contains(w) ==> other.contains(w),
    ensures
        is_ladder(other, excluded, a, b, p),
{
    assert forall|i: int| 0 <= i < p.len() implies usable(other, excluded, #[trigger] p[i]) by {
        lemma_chain_one_length(universe, excluded, p, i);
    }
}

/// The words of `dictionary` that have `length` letters, in its order.
pub open spec fn of_length(dictionary: Seq<Seq<u8>>, length: nat) -> Seq<Seq<u8>> {
    dictionary.filter(|w: Seq<u8>| w.len() == length)
}

/// The words that a ladder from `a` to `b` may pass through: those of the
/// dictionary, and the two query words themselves.
pub open spec fn universe_of(dictionary: Seq<Seq<u8>>, a: Seq<u8>, b: Seq<u8>) -> Seq<Seq<u8>> {
    dictionary.push(a).push(b)
}

/// A chain that begins with `a`.
pub open spec fn starts_at(
    universe: Seq<Seq<u8>>,
    excluded: Seq<Seq<u8>>,
    a: Seq<u8>,
    q: Seq<Seq<u8>>,
) -> bool {
    is_chain(universe, excluded, q) && q.first() == a
}

/// Every word to which a chain from `a` leads is reached from `a` by a
/// ladder of at most `n` words.
pub open spec fn reaches_all_within(
    universe: Seq<Seq<u8>>,
    excluded: Seq<Seq<u8>>,
    a: Seq<u8>,
    n: nat,
) -> bool {
    forall|q: Seq<Seq<u8>>| #[trigger]
        starts_at(universe, excluded, a, q) ==> exists|r: Seq<Seq<u8>>|
            #[trigger] is_ladder(universe, excluded, a, q.last(), r) && r.len() <= n
}

/// A shortest ladder from its first word to a word that is as far from it
/// as any word is.
pub open spec fn is_farthest_ladder(
    universe: Seq<Seq<u8>>,
    excluded: Seq<Seq<u8>>,
    p: Seq<Seq<u8>>,
) -> bool {
    &&& is_shortest_ladder(universe, excluded, p.first(), p.last(), p)
    &&& reaches_all_within(universe, excluded, p.first(), p.len())
}

/// What the two sweeps of the diameter search give when the first starts
/// at `start`: a farthest ladder that begins where a farthest ladder from
/// `start` ends. No word is excluded.
pub open spec fn is_sweep_from(universe: Seq<Seq<u8>>, start: Seq<u8>, p: Seq<Seq<u8>>) -> bool {
    &&& is_farthest_ladder(universe, Seq::empty(), p)
    &&& exists|s: Seq<Seq<u8>>|
        #![trigger is_farthest_ladder(universe, Seq::empty(), s)]
        is_farthest_ladder(universe, Seq::empty(), s) && s.first() == start && s.last()
            == p.first()
}

/// What the diameter search gives for the words of `length` letters. The
/// first sweep starts at one of them: the first in the dictionary's order
/// if `in_order` holds.
pub open spec fn is_sweep_result(
    dictionary: Seq<Seq<u8>>,
    length: nat,
    in_order: bool,
    p: Seq<Seq<u8>>,
) -> bool {
    exists|start: Seq<u8>|
        {
            &&& of_length(dictionary, length).contains(start)
            &&& in_order ==> start == of_length(dictionary, length).first()
            &&& #[trigger] is_sweep_from(dictionary, start, p)
        }
}

/// One more word in the dictionary is one more word of its length.
pub proof fn lemma_of_length_push(dictionary: Seq<Seq<u8>>, length: nat, w: Seq<u8>)
    ensures
        of_length(dictionary.push(w), length) == if w.len() == length {
            of_length(dictionary, length).push(w)
        } else {
            of_length(dictionary, length)
        },
{
    let pred = |w: Seq<u8>| w.len() == length;
    dictionary.lemma_filter_push(w, pred);
}

/// The sweeps give the same through the words of one length as through
/// the whole dictionary.
pub proof fn lemma_sweep_universe(
    universe: Seq<Seq<u8>>,
    other: Seq<Seq<u8>>,
    start: Seq<u8>,
    p: Seq<Seq<u8>>,
)
    requires
        is_sweep_from(universe, start, p),
        forall|w: Seq<u8>| w.len() == start.len() ==> (universe.contains(w) <==> other.contains(w)),
    ensures
        is_sweep_from(other, start, p),
{
    let none = Seq::<Seq<u8>>::empty();
    let s = choose|s: Seq<Seq<u8>>|
        #![trigger is_farthest_ladder(universe, none, s)]
        is_farthest_ladder(universe, none, s) && s.first() == start && s.last() == p.first();
    lemma_chain_one_length(universe, none, s, s.len() - 1);
    lemma_farthest_universe(universe, other, none, s);
    lemma_farthest_universe(universe, other, none, p);
}

/// A word is of `of_length` exactly when the dictionary holds it and it
/// has that length.
pub proof fn lemma_of_length(dictionary: Seq<Seq<u8>>, length: nat, w: Seq<u8>)
    ensures
        of_length(dictionary, length).contains(w) <==> dictionary.contains(w) && w.len() == length,
{
    let pred = |w: Seq<u8>| w.len() == length;
    if of_length(dictionary, length).contains(w) {
        dictionary.lemma_filter_contains_rev(pred, w);
        let i = choose|i: int|
            0 <= i < dictionary.filter(pred).len() && dictionary.filter(pred)[i] == w;
        dictionary.lemma_filter_pred(pred, i);
    }
    if dictionary.contains(w) && w.len() == length {
        let i = choose|i: int| 0 <= i < dictionary.len() && dictionary[i] == w;
        dictionary.lemma_filter_contains(pred, i);
    }
}

/// What a sequence holds after one more word.
pub proof fn lemma_push_contains(list: Seq<Seq<u8>>, x: Seq<u8>, w: Seq<u8>)
    ensures
        list.push(x).contains(w) <==> list.contains(w) || w == x,
{
    if list.push(x).contains(w) {
        let i = choose|i: int| 0 <= i < list.push(x).len() && list.push(x)[i] == w;
        if i < list.len() {
            assert(list[i] == w);
        }
    }
    if list.contains(w) {
        let i = choose|i: int| 0 <= i < list.len() && list[i] == w;
        assert(list.push(x)[i] == w);
    }
    if w == x {
        assert(list.push(x)[list.len() as int] == w);
    }
}

/// Whether a ladder is a shortest one depends on the universe only
/// through its words of the ladder's length.
pub proof fn lemma_shortest_universe(
    universe: Seq<Seq<u8>>,
    other: Seq<Seq<u8>>,
    excluded: Seq<Seq<u8>>,
    a: Seq<u8>,
    b: Seq<u8>,
    p: Seq<Seq<u8>>,
)
    requires
        is_shortest_ladder(universe, excluded, a, b, p),
        forall|w: Seq<u8>| w.len() == a.len() ==> (universe.contains(w) <==> other.contains(w)),
    ensures
        is_shortest_ladder(other, excluded, a, b, p),
{
    lemma_ladder_universe(universe, other, excluded, a, b, p);
    assert forall|q: Seq<Seq<u8>>| #[trigger]
        is_ladder(other, excluded, a, b, q) implies p.len() <= q.len() by {
        lemma_ladder_universe(other, universe, excluded, a, b, q);
    }
}

/// Whether two words are connected depends on the universe only through
/// its words of their length.
pub proof fn lemma_connected_universe(
    universe: Seq<Seq<u8>>,
    other: Seq<Seq<u8>>,
    excluded: Seq<Seq<u8>>,
    a: Seq<u8>,
    b: Seq<u8>,
)
    requires
        connected(universe, excluded, a, b),
        forall|w: Seq<u8>| w.len() == a.len() && universe.contains(w) ==> other.contains(w),
    ensures
        connected(other, excluded, a, b),
{
    let p = choose|p: Seq<Seq<u8>>| is_ladder(universe, excluded, a, b, p);
    lemma_ladder_universe(universe, other, excluded, a, b, p);
}

/// Whether a ladder is a farthest one depends on the universe only
/// through its words of the ladder's length.
pub proof fn lemma_farthest_universe(
    universe: Seq<Seq<u8>>,
    other: Seq<Seq<u8>>,
    excluded: Seq<Seq<u8>>,
    p: Seq<Seq<u8>>,
)
    requires
        is_farthest_ladder(universe, excluded, p),
        forall|w: Seq<u8>|
            w.len() == p.first().len() ==> (universe.contains(w) <==> other.contains(w)),
    ensures
        is_farthest_ladder(other, excluded, p),
{
    let a = p.first();
    lemma_shortest_universe(universe, other, excluded, a, p.last(), p);
    assert forall|q: Seq<Seq<u8>>| #[trigger]
        starts_at(other, excluded, a, q) implies exists|r: Seq<Seq<u8>>|
        #[trigger] is_ladder(other, excluded, a, q.last(), r) && r.len() <= p.len() by {
        assert(is_ladder(other, excluded, a, q.last(), q));
        lemma_ladder_universe(other, universe, excluded, a, q.last(), q);
        assert(starts_at(universe, excluded, a, q));
        let r = choose|r: Seq<Seq<u8>>|
            #[trigger] is_ladder(universe, excluded, a, q.last(), r) && r.len() <= p.len();
        lemma_ladder_universe(universe, other, excluded, a, q.last(), r);
    }
}

/// The only shortest ladder from a usable word to itself is that word
/// alone.
pub proof fn lemma_ladder_to_itself(
    universe: Seq<Seq<u8>>,
    excluded: Seq<Seq<u8>>,
    a: Seq<u8>,
    p: Seq<Seq<u8>>,
)
    requires
        usable(universe, excluded, a),
        is_shortest_ladder(universe, excluded, a, a, p),
    ensures
        p == seq![a],
{
    let alone = seq![a];
    assert(is_ladder(universe, excluded, a, a, alone));
    assert(p =~= alone);
}

/// Excluding one more word leaves fewer ladders: a ladder that avoids
/// the excluded words and `w` is a ladder that avoids the excluded words,
/// and `w` is not on it.
pub proof fn lemma_exclusion_narrows(
    universe: Seq<Seq<u8>>,
    excluded: Seq<Seq<u8>>,
    w: Seq<u8>,
    a: Seq<u8>,
    b: Seq<u8>,
    p: Seq<Seq<u8>>,
)
    requires
        is_ladder(universe, excluded.push(w), a, b, p),
    ensures
        is_ladder(universe, excluded, a, b, p),
        !p.contains(w),
        forall|i: int| 0 <= i < p.len() ==> !excluded.push(w).contains(#[trigger] p[i]),
{
    assert forall|i: int| 0 <= i < p.len() implies usable(universe, excluded, #[trigger] p[i])
        && p[i] != w by {
        assert(usable(universe, excluded.push(w), p[i]));
        lemma_push_contains(excluded, w, p[i]);
    }
}

/// Once a word that lies on every ladder from `a` to `b` is excluded, no
/// ladder leads from `a` to `b`.
pub proof fn lemma_excluding_a_bridge(
    universe: Seq<Seq<u8>>,
    excluded: Seq<Seq<u8>>,
    w: Seq<u8>,
    a: Seq<u8>,
    b: Seq<u8>,
)
    requires
        forall|p: Seq<Seq<u8>>| #[trigger] is_ladder(universe, excluded, a, b, p) ==> p.contains(w),
    ensures
        !connected(universe, excluded.push(w), a, b),
{
    assert forall|p: Seq<Seq<u8>>| !is_ladder(universe, excluded.push(w), a, b, p) by {
        if is_ladder(universe, excluded.push(w), a, b, p) {
            lemma_exclusion_narrows(universe, excluded, w, a, b, p);
        }
    }
}

/// Once a word that lies on every shortest ladder from `a` to `b` is
/// excluded, every ladder that is left is longer than the shortest were,
/// and `w` is not on it.
pub proof fn lemma_excluding_lengthens(
    universe: Seq<Seq<u8>>,
    excluded: Seq<Seq<u8>>,
    w: Seq<u8>,
    a: Seq<u8>,
    b: Seq<u8>,
    p: Seq<Seq<u8>>,
    r: Seq<Seq<u8>>,
)
    requires
        is_shortest_ladder(universe, excluded, a, b, p),
        forall|q: Seq<Seq<u8>>| #[trigger]
            is_shortest_ladder(universe, excluded, a, b, q) ==> q.contains(w),
        is_ladder(universe, excluded.push(w), a, b, r),
    ensures
        is_ladder(universe, excluded, a, b, r),
        r.len() > p.len(),
        !r.contains(w),
{
    lemma_exclusion_narrows(universe, excluded, w, a, b, r);
    if r.len() <= p.len() {
        assert forall|q: Seq<Seq<u8>>| #[trigger]
            is_ladder(universe, excluded, a, b, q) implies r.len() <= q.len() by {
        }
        assert(is_shortest_ladder(universe, excluded, a, b, r));
    }
}

} // verus!
