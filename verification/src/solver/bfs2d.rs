//! Breadth-first search from both ends.

use vstd::prelude::*;
use rand::seq::SliceRandom;
use rand::thread_rng;
use crate::ladder::{
    connected, is_farthest_ladder, is_ladder, is_shortest_ladder, is_sweep_from,
    lemma_connected_universe, lemma_ladder_to_itself, lemma_of_length, lemma_of_length_push,
    lemma_push_contains, lemma_shortest_universe, lemma_sweep_universe, of_length, universe_of,
    usable,
};
use crate::layers::{
    adopted, apart, deepened, layered, lemma_adopted, lemma_apart_grows, lemma_apart_symmetric,
    lemma_farthest, lemma_frontier_lengths, lemma_layer_grows, lemma_layered_root, lemma_meeting,
    lemma_meeting_back, lemma_plain_frontier_lengths, lemma_rooted_bound,
    lemma_rooted_well_linked, lemma_tree_grows, lemma_unreachable,
};
use crate::record::{
    apart_from, entries_from, entry_words, first_link_of, found, found_before, grown, heads,
    joined, lemma_found_push, lemma_parented_push, parented, spread, spread_so_far, trail,
    well_linked, NO_PARENT,
};
use crate::solver::{distance, SolveError, Solver};
use crate::words::{
    contains_word, copy_word, first_position, lemma_owned_words_push, lemma_slice_words_push,
    owned_words, position_of_word, same_word, slice_words,
};

verus! {

/// A solver that searches breadth-first from the origin and from the
/// target in turn.
pub struct BFS2D {
    dictionary: &'static [&'static [u8]],
    exceptions: Vec<&'static [u8]>,
    randomize: bool,
}

/// Shuffles `words` in place: `SliceRandom::shuffle` of the crate `rand`,
/// drawing from that crate's `thread_rng()`.
///
/// Trusted, not proved: the shuffle only swaps elements, so the list
/// holds afterwards the byte strings that it held before, each as often
/// as before. Of their order nothing is claimed. Where the system cannot
/// seed the generator, `rand` panics.
#[verifier::external_body]
fn shuffle_words<'a>(words: &mut Vec<&'a [u8]>)
    ensures
        final(words)@.to_multiset() == old(words)@.to_multiset(),
{
    words.shuffle(&mut thread_rng());
}

/// A shuffled list holds the words that it held before.
proof fn lemma_shuffled(before: Seq<&[u8]>, after: Seq<&[u8]>)
    requires
        before.to_multiset() == after.to_multiset(),
    ensures
        forall|w: Seq<u8>| slice_words(before).contains(w) <==> slice_words(after).contains(w),
        before.len() == after.len(),
{
    before.to_multiset_ensures();
    after.to_multiset_ensures();
    assert forall|w: Seq<u8>| slice_words(before).contains(w) implies slice_words(after).contains(
        w,
    ) by {
        let i = choose|i: int| 0 <= i < before.len() && slice_words(before)[i] == w;
        assert(before.contains(before[i]));
        assert(after.to_multiset().count(before[i]) > 0);
        let j = choose|j: int| 0 <= j < after.len() && after[j] == before[i];
        assert(slice_words(after)[j] == w);
    }
    assert forall|w: Seq<u8>| slice_words(after).contains(w) implies slice_words(before).contains(
        w,
    ) by {
        let i = choose|i: int| 0 <= i < after.len() && slice_words(after)[i] == w;
        assert(after.contains(after[i]));
        assert(before.to_multiset().count(after[i]) > 0);
        let j = choose|j: int| 0 <= j < before.len() && before[j] == after[i];
        assert(slice_words(before)[j] == w);
    }
}

/// `onto`, followed by the words of `list` in the opposite order.
fn append_reversed(onto: Vec<Vec<u8>>, list: Vec<Vec<u8>>) -> (all: Vec<Vec<u8>>)
    ensures
        owned_words(all@) == owned_words(onto@) + owned_words(list@).reverse(),
{
    let mut list = list;
    let mut all = onto;
    let ghost head = owned_words(onto@);
    let ghost given = owned_words(list@);
    proof {
        assert(given.take(given.len() as int) =~= given);
        assert(head + given.skip(given.len() as int).reverse() =~= head);
    }
    while list.len() > 0
        invariant
            list@.len() <= given.len(),
            owned_words(list@) == given.take(list@.len() as int),
            owned_words(all@) == head + given.skip(list@.len() as int).reverse(),
        decreases list@.len(),
    {
        let ghost before = list@;
        let ghost all_before = all@;
        let w = list.pop().unwrap();
        all.push(w);
        proof {
            lemma_owned_words_push(all_before, w);
            assert(owned_words(list@) =~= given.take(list@.len() as int));
            assert(owned_words(before)[before.len() - 1] == w@);
            assert(w@ == given[list@.len() as int]);
            assert(owned_words(all@) =~= head + given.skip(list@.len() as int).reverse());
        }
    }
    proof {
        assert(given.skip(0) =~= given);
    }
    all
}

impl Solver for BFS2D {
    closed spec fn dictionary(&self) -> Seq<Seq<u8>> {
        slice_words(self.dictionary@)
    }

    closed spec fn exceptions(&self) -> Seq<Seq<u8>> {
        slice_words(self.exceptions@)
    }

    fn new(dictionary: &'static [&'static [u8]], randomize: bool) -> (solver: Self)
        ensures
            solver.shuffles() == randomize,
    {
        let solver = Self { dictionary, exceptions: Vec::new(), randomize };
        proof {
            assert(slice_words(solver.exceptions@) =~= Seq::<Seq<u8>>::empty());
        }
        solver
    }

    fn solve(&self, origin: &[u8], target: &[u8]) -> (result: Result<Vec<Vec<u8>>, SolveError>) {
        if origin.len() != target.len() {
            return Err(SolveError::LengthMismatch);
        }
        let mut words = self.words_of_length(origin.len());
        if self.randomize {
            let ghost listed = words@;
            shuffle_words(&mut words);
            proof {
                lemma_shuffled(listed, words@);
            }
        }
        let ghost universe = slice_words(words@).push(origin@).push(target@);
        let ghost whole = universe_of(self.dictionary(), origin@, target@);
        proof {
            assert forall|w: Seq<u8>|
                w.len() == origin@.len() implies (universe.contains(w) <==> whole.contains(w)) by {
                lemma_of_length(self.dictionary(), origin@.len(), w);
                lemma_push_contains(slice_words(words@), origin@, w);
                lemma_push_contains(slice_words(words@).push(origin@), target@, w);
                lemma_push_contains(self.dictionary(), origin@, w);
                lemma_push_contains(self.dictionary().push(origin@), target@, w);
            }
            assert forall|j: int| 0 <= j < words@.len() implies (#[trigger] words@[j])@.len()
                == origin@.len() by {
                assert(slice_words(words@)[j] == words@[j]@);
                lemma_of_length(self.dictionary(), origin@.len(), words@[j]@);
            }
        }
        let result = self.solve_among(words, origin, target);
        proof {
            match &result {
                Ok(path) => {
                    lemma_shortest_universe(
                        universe,
                        whole,
                        self.exceptions(),
                        origin@,
                        target@,
                        owned_words(path@),
                    );
                    if origin@ == target@ && !self.exceptions().contains(origin@) {
                        lemma_push_contains(self.dictionary().push(origin@), target@, origin@);
                        lemma_ladder_to_itself(
                            whole,
                            self.exceptions(),
                            origin@,
                            owned_words(path@),
                        );
                    }
                },
                Err(_) => {
                    if connected(whole, self.exceptions(), origin@, target@) {
                        lemma_connected_universe(
                            whole,
                            universe,
                            self.exceptions(),
                            origin@,
                            target@,
                        );
                    }
                    if origin@ == target@ && !self.exceptions().contains(origin@) {
                        lemma_push_contains(self.dictionary().push(origin@), target@, origin@);
                        assert(is_ladder(
                            whole,
                            self.exceptions(),
                            origin@,
                            target@,
                            seq![origin@],
                        ));
                    }
                },
            }
        }
        result
    }

    fn find_largest_ladder(&self, length: usize, randomize: bool) -> (result: Result<
        Vec<Vec<u8>>,
        SolveError,
    >) {
        let mut words = self.words_of_length(length);
        let ghost listed = words@;
        if randomize {
            shuffle_words(&mut words);
            proof {
                lemma_shuffled(listed, words@);
            }
        }
        proof {
            assert forall|j: int| 0 <= j < words@.len() implies (#[trigger] words@[j])@.len()
                == length by {
                assert(slice_words(words@)[j] == words@[j]@);
                lemma_of_length(self.dictionary(), length as nat, words@[j]@);
            }
        }
        let result = self.largest_among(words);
        proof {
            if let Ok(path) = &result {
                let start = slice_words(words@)[0];
                lemma_of_length(self.dictionary(), length as nat, start);
                assert forall|w: Seq<u8>| w.len() == start.len() implies (slice_words(
                    words@,
                ).contains(w) <==> self.dictionary().contains(w)) by {
                    lemma_of_length(self.dictionary(), length as nat, w);
                }
                lemma_sweep_universe(
                    slice_words(words@),
                    self.dictionary(),
                    start,
                    owned_words(path@),
                );
            }
        }
        result
    }

    fn word_exists(&self, word: &[u8]) -> (exists: bool) {
        contains_word(self.dictionary, word)
    }

    fn get_dictionary(&self) -> (dictionary: &'static [&'static [u8]]) {
        self.dictionary
    }

    fn set_exceptions(&mut self, exceptions: &[&'static [u8]])
        ensures
            final(self).shuffles() == old(self).shuffles(),
    {
        let mut copy: Vec<&'static [u8]> = Vec::new();
        let mut i: usize = 0;
        while i < exceptions.len()
            invariant
                i <= exceptions@.len(),
                copy@ == exceptions@.take(i as int),
            decreases exceptions@.len() - i,
        {
            copy.push(exceptions[i]);
            proof {
                assert(copy@ =~= exceptions@.take(i as int + 1));
            }
            i += 1;
        }
        proof {
            assert(exceptions@.take(exceptions@.len() as int) =~= exceptions@);
        }
        self.exceptions = copy;
    }
}

impl BFS2D {
    /// Whether `solve` shuffles the words before it searches. Which of
    /// several shortest ladders is found depends on their order.
    pub closed spec fn shuffles(&self) -> bool {
        self.randomize
    }

    /// The words of the dictionary that have `length` letters, in its
    /// order.
    fn words_of_length(&self, length: usize) -> (words: Vec<&'static [u8]>)
        ensures
            slice_words(words@) == of_length(self.dictionary(), length as nat),
    {
        let ghost all = slice_words(self.dictionary@);
        let mut words: Vec<&'static [u8]> = Vec::new();
        let mut i: usize = 0;
        proof {
            assert(all.take(0) =~= Seq::<Seq<u8>>::empty());
            assert(slice_words(words@) =~= of_length(all.take(0), length as nat));
        }
        while i < self.dictionary.len()
            invariant
                i <= self.dictionary@.len(),
                all == slice_words(self.dictionary@),
                slice_words(words@) == of_length(all.take(i as int), length as nat),
            decreases self.dictionary@.len() - i,
        {
            let w: &'static [u8] = self.dictionary[i];
            let ghost listed = words@;
            if w.len() == length {
                words.push(w);
            }
            proof {
                lemma_slice_words_push(listed, w);
                assert(all.take(i as int + 1) =~= all.take(i as int).push(w@));
                lemma_of_length_push(all.take(i as int), length as nat, w@);
            }
            i += 1;
        }
        proof {
            assert(all.take(all.len() as int) =~= all);
        }
        words
    }

    /// What the two sweeps of the diameter search give through `words`,
    /// the first sweep starting at the first of them.
    ///
    /// Both sweeps ignore the excluded words. The first keeps no parents:
    /// all it is for is the word it finds last. The second starts there,
    /// and the trail to the word that it finds last is the result.
    pub fn largest_among<'a>(&self, words: Vec<&'a [u8]>) -> (result: Result<
        Vec<Vec<u8>>,
        SolveError,
    >)
        requires
            forall|j: int|
                0 <= j < words@.len() ==> (#[trigger] words@[j])@.len() == words@[0]@.len(),
        ensures
            match result {
                Ok(path) => words@.len() > 0 && is_sweep_from(
                    slice_words(words@),
                    slice_words(words@)[0],
                    owned_words(path@),
                ),
                Err(e) => e == SolveError::NoWordsOfLength && words@.len() == 0,
            },
    {
        if words.len() == 0 {
            return Err(SolveError::NoWordsOfLength);
        }
        let open = BFS2D {
            dictionary: self.dictionary,
            exceptions: Vec::new(),
            randomize: self.randomize,
        };
        let ghost universe = slice_words(words@);
        let ghost none = Seq::<Seq<u8>>::empty();
        proof {
            assert(open.exceptions() =~= none);
            assert(universe[0] == words@[0]@);
            lemma_layered_root(universe, none, universe[0]);
        }
        let mut seen: Vec<&'a [u8]> = Vec::new();
        seen.push(words[0]);
        let mut search: Vec<&'a [u8]> = Vec::new();
        search.push(words[0]);
        let mut next_search: Vec<&'a [u8]> = Vec::new();
        let ghost mut parents_kept: Seq<usize> = seq![NO_PARENT];
        let ghost mut depths: Seq<nat> = seq![0nat];
        let ghost mut level: nat = 0;
        let ghost mut frontier: Seq<(Seq<u8>, usize)> = seq![(universe[0], 0usize)];
        proof {
            assert(slice_words(seen@) =~= seq![universe[0]]);
            assert(slice_words(search@) =~= seq![universe[0]]);
            assert(heads(frontier) =~= slice_words(search@));
            lemma_rooted_bound(universe, none, slice_words(seen@), parents_kept, depths);
        }
        while !search.is_empty()
            invariant
                universe == slice_words(words@),
                none == Seq::<Seq<u8>>::empty(),
                open.exceptions() == none,
                words@.len() > 0,
                forall|j: int|
                    0 <= j < words@.len() ==> (#[trigger] words@[j])@.len() == words@[0]@.len(),
                layered(universe, none, slice_words(seen@), parents_kept, depths, frontier, level),
                slice_words(seen@)[0] == universe[0],
                heads(frontier) == slice_words(search@),
                next_search@.len() == 0,
                seen@.len() <= universe.len(),
            decreases universe.len() - seen@.len() + search@.len(),
        {
            let ghost seen_before = slice_words(seen@);
            let ghost frontier_words = slice_words(search@);
            proof {
                lemma_plain_frontier_lengths(
                    universe,
                    none,
                    seen_before,
                    parents_kept,
                    depths,
                    frontier,
                    level,
                    search@,
                    words@,
                );
                assert(slice_words(next_search@) =~= Seq::<Seq<u8>>::empty());
            }
            open.explore_without_tracking(
                &mut seen,
                &mut search,
                &mut next_search,
                words.as_slice(),
            );
            proof {
                assert(seen@.len() == seen.len());
                let seen_after = slice_words(seen@);
                lemma_adopted(frontier, universe, none, seen_before, parents_kept, seen_after);
                let parents_after = adopted(frontier, parents_kept, seen_after);
                lemma_layer_grows(
                    universe,
                    none,
                    seen_before,
                    parents_kept,
                    depths,
                    frontier,
                    level,
                    seen_after,
                    parents_after,
                );
                parents_kept = parents_after;
                depths = deepened(depths, seen_after.len() as int, level + 1);
                level = level + 1;
                frontier = entries_from(seen_after, seen_before.len() as int);
                assert(slice_words(search@) =~= seen_after.skip(seen_before.len() as int));
                assert(heads(frontier) =~= slice_words(search@));
                lemma_rooted_bound(universe, none, seen_after, parents_kept, depths);
            }
        }
        let ghost start = universe[0];
        let ghost first_sweep = trail(slice_words(seen@), parents_kept, seen@.len() - 1);
        proof {
            lemma_farthest(
                universe,
                none,
                slice_words(seen@),
                parents_kept,
                depths,
                frontier,
                level,
            );
        }

        let origin: &'a [u8] = seen[seen.len() - 1];
        proof {
            assert(slice_words(seen@)[seen@.len() - 1] == origin@);
            assert(usable(universe, none, origin@));
            lemma_layered_root(universe, none, origin@);
        }
        seen.clear();
        seen.push(origin);
        let mut parents: Vec<usize> = Vec::new();
        parents.push(usize::MAX);
        let mut search: Vec<(&'a [u8], usize)> = Vec::new();
        search.push((origin, 0));
        let mut next_search: Vec<(&'a [u8], usize)> = Vec::new();
        let nothing: Vec<&'a [u8]> = Vec::new();
        let ghost mut depths: Seq<nat> = seq![0nat];
        let ghost mut level: nat = 0;
        proof {
            assert(slice_words(seen@) =~= seq![origin@]);
            assert(parents@ =~= seq![NO_PARENT]);
            assert(entry_words(search@) =~= seq![(origin@, 0usize)]);
            assert(slice_words(nothing@) =~= Seq::<Seq<u8>>::empty());
            lemma_rooted_bound(universe, none, slice_words(seen@), parents@, depths);
        }
        while !search.is_empty()
            invariant
                universe == slice_words(words@),
                none == Seq::<Seq<u8>>::empty(),
                open.exceptions() == none,
                words@.len() > 0,
                nothing@.len() == 0,
                forall|j: int|
                    0 <= j < words@.len() ==> (#[trigger] words@[j])@.len() == words@[0]@.len(),
                layered(
                    universe,
                    none,
                    slice_words(seen@),
                    parents@,
                    depths,
                    entry_words(search@),
                    level,
                ),
                slice_words(seen@)[0] == origin@,
                next_search@.len() == 0,
                seen@.len() <= universe.len(),
            decreases universe.len() - seen@.len() + search@.len(),
        {
            let ghost seen_before = slice_words(seen@);
            let ghost parents_before = parents@;
            let ghost frontier = entry_words(search@);
            proof {
                lemma_frontier_lengths(
                    universe,
                    none,
                    seen_before,
                    parents@,
                    depths,
                    search@,
                    level,
                    words@,
                );
                assert(entry_words(next_search@) =~= Seq::<(Seq<u8>, usize)>::empty());
            }
            let met = open.explore(
                &mut seen,
                &mut parents,
                &mut search,
                &mut next_search,
                words.as_slice(),
                nothing.as_slice(),
            );
            proof {
                assert(seen@.len() == seen.len());
                assert(slice_words(nothing@) =~= Seq::<Seq<u8>>::empty());
                assert(met is None);
                lemma_layer_grows(
                    universe,
                    none,
                    seen_before,
                    parents_before,
                    depths,
                    frontier,
                    level,
                    slice_words(seen@),
                    parents@,
                );
                depths = deepened(depths, seen@.len() as int, level + 1);
                level = level + 1;
                assert(entry_words(search@) =~= entries_from(
                    slice_words(seen@),
                    seen_before.len() as int,
                ));
                lemma_rooted_bound(universe, none, slice_words(seen@), parents@, depths);
            }
        }
        proof {
            lemma_farthest(
                universe,
                none,
                slice_words(seen@),
                parents@,
                depths,
                entry_words(search@),
                level,
            );
            lemma_rooted_well_linked(universe, none, slice_words(seen@), parents@, depths);
            assert(is_farthest_ladder(universe, none, first_sweep) && first_sweep.first() == start
                && first_sweep.last() == origin@);
        }
        let target_index = seen.len() - 1;
        Ok(self.untangle_solution(target_index, seen.as_slice(), parents.as_slice()))
    }

    /// A shortest ladder from `origin` to `target` through `words`.
    ///
    /// The ladder may use the words of `words` and the two query words
    /// themselves, less the excluded words. The search runs from both ends
    /// in turn, one layer at a time, until a word found on one side is
    /// known on the other.
    pub fn solve_among<'a>(
        &self,
        words: Vec<&'a [u8]>,
        origin: &'a [u8],
        target: &'a [u8],
    ) -> (result: Result<Vec<Vec<u8>>, SolveError>)
        requires
            origin@.len() == target@.len(),
            forall|j: int| 0 <= j < words@.len() ==> (#[trigger] words@[j])@.len() == origin@.len(),
        ensures
            match result {
                Ok(path) => is_shortest_ladder(
                    slice_words(words@).push(origin@).push(target@),
                    self.exceptions(),
                    origin@,
                    target@,
                    owned_words(path@),
                ),
                Err(e) => e == SolveError::NoSolution && !connected(
                    slice_words(words@).push(origin@).push(target@),
                    self.exceptions(),
                    origin@,
                    target@,
                ),
            },
    {
        let ghost universe = slice_words(words@).push(origin@).push(target@);
        let ghost excluded = self.exceptions();
        proof {
            assert(universe[universe.len() - 2] == origin@);
            assert(universe[universe.len() - 1] == target@);
        }
        if contains_word(self.exceptions.as_slice(), origin) || contains_word(
            self.exceptions.as_slice(),
            target,
        ) {
            proof {
                assert forall|p: Seq<Seq<u8>>| !is_ladder(
                    universe,
                    excluded,
                    origin@,
                    target@,
                    p,
                ) by {
                    if is_ladder(universe, excluded, origin@, target@, p) {
                        assert(usable(universe, excluded, p[0]));
                        assert(usable(universe, excluded, p[p.len() - 1]));
                    }
                }
            }
            return Err(SolveError::NoSolution);
        }
        if same_word(origin, target) {
            let mut path: Vec<Vec<u8>> = Vec::new();
            path.push(copy_word(origin));
            proof {
                assert(owned_words(path@) =~= seq![origin@]);
            }
            return Ok(path);
        }
        let mut pool = words;
        let ghost given = pool@;
        pool.push(origin);
        pool.push(target);
        proof {
            lemma_slice_words_push(given, origin);
            lemma_slice_words_push(given.push(origin), target);
            lemma_layered_root(universe, excluded, origin@);
            lemma_layered_root(universe, excluded, target@);
        }
        let mut seen_front: Vec<&'a [u8]> = Vec::new();
        seen_front.push(origin);
        let mut parents_front: Vec<usize> = Vec::new();
        parents_front.push(usize::MAX);
        let mut search_front: Vec<(&'a [u8], usize)> = Vec::new();
        search_front.push((origin, 0));
        let mut next_search_front: Vec<(&'a [u8], usize)> = Vec::new();

        let mut seen_back: Vec<&'a [u8]> = Vec::new();
        seen_back.push(target);
        let mut parents_back: Vec<usize> = Vec::new();
        parents_back.push(usize::MAX);
        let mut search_back: Vec<(&'a [u8], usize)> = Vec::new();
        search_back.push((target, 0));
        let mut next_search_back: Vec<(&'a [u8], usize)> = Vec::new();

        let ghost mut depths_front: Seq<nat> = seq![0nat];
        let ghost mut depths_back: Seq<nat> = seq![0nat];
        let ghost mut level_front: nat = 0;
        let ghost mut level_back: nat = 0;
        proof {
            assert(slice_words(seen_front@) =~= seq![origin@]);
            assert(slice_words(seen_back@) =~= seq![target@]);
            assert(parents_front@ =~= seq![NO_PARENT]);
            assert(parents_back@ =~= seq![NO_PARENT]);
            assert(entry_words(search_front@) =~= seq![(origin@, 0usize)]);
            assert(entry_words(search_back@) =~= seq![(target@, 0usize)]);
            lemma_rooted_bound(
                universe,
                excluded,
                slice_words(seen_front@),
                parents_front@,
                depths_front,
            );
        }
        loop
            invariant
                universe == slice_words(words@).push(origin@).push(target@),
                universe == slice_words(pool@),
                excluded == self.exceptions(),
                pool@.len() >= 1,
                forall|j: int|
                    0 <= j < pool@.len() ==> (#[trigger] pool@[j])@.len() == pool@[0]@.len(),
                layered(
                    universe,
                    excluded,
                    slice_words(seen_front@),
                    parents_front@,
                    depths_front,
                    entry_words(search_front@),
                    level_front,
                ),
                layered(
                    universe,
                    excluded,
                    slice_words(seen_back@),
                    parents_back@,
                    depths_back,
                    entry_words(search_back@),
                    level_back,
                ),
                apart(slice_words(seen_front@), slice_words(seen_back@)),
                next_search_front@.len() == 0,
                next_search_back@.len() == 0,
                slice_words(seen_front@)[0] == origin@,
                slice_words(seen_back@)[0] == target@,
                seen_front@.len() <= universe.len(),
            decreases universe.len() - seen_front@.len(),
        {
            let ghost front_before = slice_words(seen_front@);
            let ghost front_parents_before = parents_front@;
            let ghost front_frontier = entry_words(search_front@);
            proof {
                lemma_frontier_lengths(
                    universe,
                    excluded,
                    front_before,
                    parents_front@,
                    depths_front,
                    search_front@,
                    level_front,
                    pool@,
                );
                assert(entry_words(next_search_front@) =~= Seq::<(Seq<u8>, usize)>::empty());
            }
            let sol_front = self.explore(
                &mut seen_front,
                &mut parents_front,
                &mut search_front,
                &mut next_search_front,
                pool.as_slice(),
                seen_back.as_slice(),
            );
            if let Some(index_front) = sol_front {
                proof {
                    assert(seen_front@.len() == seen_front.len());
                    lemma_meeting(
                        universe,
                        excluded,
                        front_before,
                        front_parents_before,
                        depths_front,
                        front_frontier,
                        level_front,
                        slice_words(seen_front@),
                        parents_front@,
                        index_front as int,
                        slice_words(seen_back@),
                        parents_back@,
                        depths_back,
                        entry_words(search_back@),
                        level_back,
                    );
                    lemma_tree_grows(
                        universe,
                        excluded,
                        front_before,
                        front_parents_before,
                        depths_front,
                        front_frontier,
                        level_front,
                        slice_words(seen_front@),
                        parents_front@,
                    );
                    lemma_rooted_well_linked(
                        universe,
                        excluded,
                        slice_words(seen_front@),
                        parents_front@,
                        deepened(depths_front, seen_front@.len() as int, level_front + 1),
                    );
                    lemma_rooted_well_linked(
                        universe,
                        excluded,
                        slice_words(seen_back@),
                        parents_back@,
                        depths_back,
                    );
                }
                return Ok(
                    self.untangle_solution_2way(
                        index_front,
                        true,
                        seen_front.as_slice(),
                        parents_front.as_slice(),
                        seen_back.as_slice(),
                        parents_back.as_slice(),
                    ),
                );
            }
            proof {
                assert(seen_front@.len() == seen_front.len());
                lemma_layer_grows(
                    universe,
                    excluded,
                    front_before,
                    front_parents_before,
                    depths_front,
                    front_frontier,
                    level_front,
                    slice_words(seen_front@),
                    parents_front@,
                );
                depths_front = deepened(depths_front, seen_front@.len() as int, level_front + 1);
                level_front = level_front + 1;
                assert(entry_words(search_front@) =~= entries_from(
                    slice_words(seen_front@),
                    front_before.len() as int,
                ));
                lemma_apart_grows(front_before, slice_words(seen_front@), slice_words(seen_back@));
            }

            let ghost back_before = slice_words(seen_back@);
            let ghost back_parents_before = parents_back@;
            let ghost back_frontier = entry_words(search_back@);
            proof {
                lemma_frontier_lengths(
                    universe,
                    excluded,
                    back_before,
                    parents_back@,
                    depths_back,
                    search_back@,
                    level_back,
                    pool@,
                );
                assert(entry_words(next_search_back@) =~= Seq::<(Seq<u8>, usize)>::empty());
                lemma_apart_symmetric(slice_words(seen_front@), back_before);
            }
            let sol_back = self.explore(
                &mut seen_back,
                &mut parents_back,
                &mut search_back,
                &mut next_search_back,
                pool.as_slice(),
                seen_front.as_slice(),
            );
            if let Some(index_back) = sol_back {
                proof {
                    assert(seen_back@.len() == seen_back.len());
                    lemma_meeting_back(
                        universe,
                        excluded,
                        back_before,
                        back_parents_before,
                        depths_back,
                        back_frontier,
                        level_back,
                        slice_words(seen_back@),
                        parents_back@,
                        index_back as int,
                        slice_words(seen_front@),
                        parents_front@,
                        depths_front,
                        entry_words(search_front@),
                        level_front,
                    );
                    lemma_tree_grows(
                        universe,
                        excluded,
                        back_before,
                        back_parents_before,
                        depths_back,
                        back_frontier,
                        level_back,
                        slice_words(seen_back@),
                        parents_back@,
                    );
                    lemma_rooted_well_linked(
                        universe,
                        excluded,
                        slice_words(seen_back@),
                        parents_back@,
                        deepened(depths_back, seen_back@.len() as int, level_back + 1),
                    );
                    lemma_rooted_well_linked(
                        universe,
                        excluded,
                        slice_words(seen_front@),
                        parents_front@,
                        depths_front,
                    );
                }
                return Ok(
                    self.untangle_solution_2way(
                        index_back,
                        false,
                        seen_front.as_slice(),
                        parents_front.as_slice(),
                        seen_back.as_slice(),
                        parents_back.as_slice(),
                    ),
                );
            }
            proof {
                assert(seen_back@.len() == seen_back.len());
                lemma_layer_grows(
                    universe,
                    excluded,
                    back_before,
                    back_parents_before,
                    depths_back,
                    back_frontier,
                    level_back,
                    slice_words(seen_back@),
                    parents_back@,
                );
                depths_back = deepened(depths_back, seen_back@.len() as int, level_back + 1);
                level_back = level_back + 1;
                assert(entry_words(search_back@) =~= entries_from(
                    slice_words(seen_back@),
                    back_before.len() as int,
                ));
                lemma_apart_grows(back_before, slice_words(seen_back@), slice_words(seen_front@));
                lemma_apart_symmetric(slice_words(seen_back@), slice_words(seen_front@));
                lemma_rooted_bound(
                    universe,
                    excluded,
                    slice_words(seen_front@),
                    parents_front@,
                    depths_front,
                );
            }

            if search_front.is_empty() || search_back.is_empty() {
                proof {
                    if search_front@.len() == 0 {
                        lemma_unreachable(
                            universe,
                            excluded,
                            slice_words(seen_front@),
                            parents_front@,
                            depths_front,
                            entry_words(search_front@),
                            level_front,
                            slice_words(seen_back@),
                        );
                    } else {
                        lemma_apart_symmetric(slice_words(seen_front@), slice_words(seen_back@));
                        lemma_unreachable(
                            universe,
                            excluded,
                            slice_words(seen_back@),
                            parents_back@,
                            depths_back,
                            entry_words(search_back@),
                            level_back,
                            slice_words(seen_front@),
                        );
                    }
                }
                return Err(SolveError::NoSolution);
            }
        }
    }

    /// Expands a frontier by one layer.
    ///
    /// Every word of `words` that is linked to a word of the frontier
    /// `search`, is not excluded and is not yet in `seen` is appended to
    /// `seen`, with the position of the frontier word that reached it
    /// appended to `parents`. The search takes the frontier words in
    /// their order, and with each of them the words of `words` in theirs.
    /// It stops at the first word found that `seen_other` holds, and
    /// returns its position in `seen`. Otherwise the words it found become
    /// the frontier.
    pub fn explore<'a>(
        &self,
        seen: &mut Vec<&'a [u8]>,
        parents: &mut Vec<usize>,
        search: &mut Vec<(&'a [u8], usize)>,
        next_search: &mut Vec<(&'a [u8], usize)>,
        words: &[&'a [u8]],
        seen_other: &[&'a [u8]],
    ) -> (found: Option<usize>)
        requires
            forall|k: int, j: int|
                #![trigger old(search)@[k], words@[j]]
                0 <= k < old(search)@.len() && 0 <= j < words@.len() ==> old(search)@[k].0@.len()
                    == words@[j]@.len(),
        ensures
            grown(
                entry_words(old(search)@),
                slice_words(words@),
                self.exceptions(),
                slice_words(old(seen)@),
                old(parents)@,
                slice_words(final(seen)@),
                final(parents)@,
            ),
            found is None ==> {
                &&& final(next_search)@.len() == 0
                &&& entry_words(final(search)@) == entry_words(old(next_search)@) + entries_from(
                    slice_words(final(seen)@),
                    old(seen)@.len() as int,
                )
                &&& apart_from(
                    slice_words(final(seen)@),
                    old(seen)@.len() as int,
                    slice_words(seen_other@),
                )
                &&& spread(
                    heads(entry_words(old(search)@)),
                    slice_words(words@),
                    self.exceptions(),
                    slice_words(final(seen)@),
                )
            },
            found matches Some(at) ==> {
                &&& old(seen)@.len() <= at == final(seen)@.len() - 1
                &&& slice_words(seen_other@).contains(slice_words(final(seen)@)[at as int])
                &&& apart_from(
                    slice_words(final(seen)@).drop_last(),
                    old(seen)@.len() as int,
                    slice_words(seen_other@),
                )
                &&& spread_so_far(
                    heads(entry_words(old(search)@)),
                    slice_words(words@),
                    self.exceptions(),
                    slice_words(final(seen)@),
                    first_link_of(
                        heads(entry_words(old(search)@)),
                        slice_words(final(seen)@)[at as int],
                    ),
                    first_position(slice_words(words@), slice_words(final(seen)@)[at as int]) + 1,
                )
                &&& final(search)@ == old(search)@
                &&& entry_words(final(next_search)@) == entry_words(old(next_search)@)
                    + entries_from(slice_words(final(seen)@), old(seen)@.len() as int)
            },
    {
        let ghost frontier = entry_words(search@);
        let ghost universe = slice_words(words@);
        let ghost excluded = self.exceptions();
        let ghost seen_before = slice_words(seen@);
        let ghost parents_before = parents@;
        let ghost waiting = entry_words(next_search@);
        let ghost other = slice_words(seen_other@);
        proof {
            assert(entry_words(next_search@) =~= waiting + entries_from(
                seen_before,
                seen_before.len() as int,
            ));
        }
        let mut k: usize = 0;
        while k < search.len()
            invariant
                k <= search@.len(),
                search@ == old(search)@,
                frontier == entry_words(search@),
                universe == slice_words(words@),
                excluded == self.exceptions(),
                other == slice_words(seen_other@),
                seen_before == slice_words(old(seen)@),
                parents_before == old(parents)@,
                waiting == entry_words(old(next_search)@),
                forall|e: int, c: int|
                    #![trigger search@[e], words@[c]]
                    0 <= e < search@.len() && 0 <= c < words@.len() ==> search@[e].0@.len()
                        == words@[c]@.len(),
                found(heads(frontier), universe, excluded, seen_before, slice_words(seen@)),
                parented(frontier, seen_before, parents_before, slice_words(seen@), parents@),
                entry_words(next_search@) == waiting + entries_from(
                    slice_words(seen@),
                    seen_before.len() as int,
                ),
                apart_from(slice_words(seen@), seen_before.len() as int, other),
                spread_so_far(heads(frontier), universe, excluded, slice_words(seen@), k as int, 0),
                found_before(
                    heads(frontier),
                    universe,
                    seen_before.len() as int,
                    slice_words(seen@),
                    k as int,
                    0,
                ),
            decreases search@.len() - k,
        {
            let entry = search[k];
            let word: &'a [u8] = entry.0;
            let parent_index: usize = entry.1;
            let mut j: usize = 0;
            while j < words.len()
                invariant
                    k < search@.len(),
                    j <= words@.len(),
                    search@ == old(search)@,
                    frontier == entry_words(search@),
                    universe == slice_words(words@),
                    excluded == self.exceptions(),
                    other == slice_words(seen_other@),
                    seen_before == slice_words(old(seen)@),
                    parents_before == old(parents)@,
                    waiting == entry_words(old(next_search)@),
                    word@ == heads(frontier)[k as int],
                    parent_index == frontier[k as int].1,
                    forall|e: int, c: int|
                        #![trigger search@[e], words@[c]]
                        0 <= e < search@.len() && 0 <= c < words@.len() ==> search@[e].0@.len()
                            == words@[c]@.len(),
                    found(heads(frontier), universe, excluded, seen_before, slice_words(seen@)),
                    parented(frontier, seen_before, parents_before, slice_words(seen@), parents@),
                    entry_words(next_search@) == waiting + entries_from(
                        slice_words(seen@),
                        seen_before.len() as int,
                    ),
                    apart_from(slice_words(seen@), seen_before.len() as int, other),
                    spread_so_far(
                        heads(frontier),
                        universe,
                        excluded,
                        slice_words(seen@),
                        k as int,
                        j as int,
                    ),
                    found_before(
                        heads(frontier),
                        universe,
                        seen_before.len() as int,
                        slice_words(seen@),
                        k as int,
                        j as int,
                    ),
                decreases words@.len() - j,
            {
                let next: &'a [u8] = words[j];
                proof {
                    assert(search@[k as int].0@.len() == words@[j as int]@.len());
                }
                if distance(word, next) == 1 && !contains_word(self.exceptions.as_slice(), next)
                    && !contains_word(seen.as_slice(), next) {
                    let ghost seen_then = slice_words(seen@);
                    let ghost parents_then = parents@;
                    let ghost seen_list = seen@;
                    let ghost next_list = next_search@;
                    let at: usize = seen.len();
                    parents.push(parent_index);
                    next_search.push((next, at));
                    seen.push(next);
                    proof {
                        lemma_slice_words_push(seen_list, next);
                        lemma_found_push(
                            heads(frontier),
                            universe,
                            excluded,
                            seen_before,
                            seen_then,
                            k as int,
                            j as int,
                        );
                        lemma_parented_push(
                            frontier,
                            seen_before,
                            parents_before,
                            seen_then,
                            parents_then,
                            next@,
                        );
                        assert(entry_words(next_search@) =~= entry_words(next_list).push(
                            (next@, at),
                        ));
                        assert(entry_words(next_search@) =~= waiting + entries_from(
                            slice_words(seen@),
                            seen_before.len() as int,
                        ));
                    }
                    if contains_word(seen_other, next) {
                        proof {
                            assert(slice_words(seen@).drop_last() =~= seen_then);
                        }
                        return Some(seen.len() - 1);
                    }
                }
                j += 1;
            }
            k += 1;
        }
        std::mem::swap(search, next_search);
        next_search.clear();
        None
    }

    /// Expands a frontier by one layer, keeping no parents.
    ///
    /// Every word of `words` that is linked to a word of the frontier
    /// `search`, is not excluded and is not yet in `seen` is appended to
    /// `seen`. The words found become the frontier.
    pub fn explore_without_tracking<'a>(
        &self,
        seen: &mut Vec<&'a [u8]>,
        search: &mut Vec<&'a [u8]>,
        next_search: &mut Vec<&'a [u8]>,
        words: &[&'a [u8]],
    )
        requires
            forall|k: int, j: int|
                #![trigger old(search)@[k], words@[j]]
                0 <= k < old(search)@.len() && 0 <= j < words@.len() ==> old(search)@[k]@.len()
                    == words@[j]@.len(),
        ensures
            found(
                slice_words(old(search)@),
                slice_words(words@),
                self.exceptions(),
                slice_words(old(seen)@),
                slice_words(final(seen)@),
            ),
            spread(
                slice_words(old(search)@),
                slice_words(words@),
                self.exceptions(),
                slice_words(final(seen)@),
            ),
            final(next_search)@.len() == 0,
            slice_words(final(search)@) == slice_words(old(next_search)@) + slice_words(
                final(seen)@,
            ).skip(old(seen)@.len() as int),
    {
        let ghost frontier = slice_words(search@);
        let ghost universe = slice_words(words@);
        let ghost excluded = self.exceptions();
        let ghost seen_before = slice_words(seen@);
        let ghost waiting = slice_words(next_search@);
        proof {
            assert(slice_words(next_search@) =~= waiting + seen_before.skip(
                seen_before.len() as int,
            ));
        }
        let mut k: usize = 0;
        while k < search.len()
            invariant
                k <= search@.len(),
                search@ == old(search)@,
                frontier == slice_words(search@),
                universe == slice_words(words@),
                excluded == self.exceptions(),
                seen_before == slice_words(old(seen)@),
                waiting == slice_words(old(next_search)@),
                forall|e: int, c: int|
                    #![trigger search@[e], words@[c]]
                    0 <= e < search@.len() && 0 <= c < words@.len() ==> search@[e]@.len()
                        == words@[c]@.len(),
                found(frontier, universe, excluded, seen_before, slice_words(seen@)),
                slice_words(next_search@) == waiting + slice_words(seen@).skip(
                    seen_before.len() as int,
                ),
                spread_so_far(frontier, universe, excluded, slice_words(seen@), k as int, 0),
                found_before(
                    frontier,
                    universe,
                    seen_before.len() as int,
                    slice_words(seen@),
                    k as int,
                    0,
                ),
            decreases search@.len() - k,
        {
            let word: &'a [u8] = search[k];
            let mut j: usize = 0;
            while j < words.len()
                invariant
                    k < search@.len(),
                    j <= words@.len(),
                    search@ == old(search)@,
                    frontier == slice_words(search@),
                    universe == slice_words(words@),
                    excluded == self.exceptions(),
                    seen_before == slice_words(old(seen)@),
                    waiting == slice_words(old(next_search)@),
                    word@ == frontier[k as int],
                    forall|e: int, c: int|
                        #![trigger search@[e], words@[c]]
                        0 <= e < search@.len() && 0 <= c < words@.len() ==> search@[e]@.len()
                            == words@[c]@.len(),
                    found(frontier, universe, excluded, seen_before, slice_words(seen@)),
                    slice_words(next_search@) == waiting + slice_words(seen@).skip(
                        seen_before.len() as int,
                    ),
                    spread_so_far(
                        frontier,
                        universe,
                        excluded,
                        slice_words(seen@),
                        k as int,
                        j as int,
                    ),
                    found_before(
                        frontier,
                        universe,
                        seen_before.len() as int,
                        slice_words(seen@),
                        k as int,
                        j as int,
                    ),
                decreases words@.len() - j,
            {
                let next: &'a [u8] = words[j];
                proof {
                    assert(search@[k as int]@.len() == words@[j as int]@.len());
                }
                if distance(word, next) == 1 && !contains_word(self.exceptions.as_slice(), next)
                    && !contains_word(seen.as_slice(), next) {
                    let ghost seen_then = slice_words(seen@);
                    let ghost seen_list = seen@;
                    let ghost next_list = next_search@;
                    next_search.push(next);
                    seen.push(next);
                    proof {
                        lemma_slice_words_push(seen_list, next);
                        lemma_slice_words_push(next_list, next);
                        lemma_found_push(
                            frontier,
                            universe,
                            excluded,
                            seen_before,
                            seen_then,
                            k as int,
                            j as int,
                        );
                        assert(slice_words(next_search@) =~= waiting + slice_words(seen@).skip(
                            seen_before.len() as int,
                        ));
                    }
                }
                j += 1;
            }
            k += 1;
        }
        std::mem::swap(search, next_search);
        next_search.clear();
    }

    /// The ladder through a word that both sides of a search have seen.
    ///
    /// `index` is the position of the meeting word in the record of the side
    /// that discovered it: the front side if `front` holds, else the back
    /// side. On the other side the word is looked up, and its first
    /// occurrence counts. The ladder runs from the front root down to the
    /// meeting word and from there up to the back root.
    pub fn untangle_solution_2way<'a>(
        &self,
        index: usize,
        front: bool,
        seen_front: &[&'a [u8]],
        parents_front: &[usize],
        seen_back: &[&'a [u8]],
        parents_back: &[usize],
    ) -> (solution: Vec<Vec<u8>>)
        requires
            seen_front@.len() == parents_front@.len(),
            seen_back@.len() == parents_back@.len(),
            well_linked(parents_front@),
            well_linked(parents_back@),
            front ==> index < seen_front@.len() && slice_words(seen_back@).contains(
                slice_words(seen_front@)[index as int],
            ),
            !front ==> index < seen_back@.len() && slice_words(seen_front@).contains(
                slice_words(seen_back@)[index as int],
            ),
        ensures
            front ==> owned_words(solution@) == joined(
                trail(slice_words(seen_front@), parents_front@, index as int),
                trail(
                    slice_words(seen_back@),
                    parents_back@,
                    first_position(slice_words(seen_back@), slice_words(seen_front@)[index as int]),
                ),
            ),
            !front ==> owned_words(solution@) == joined(
                trail(
                    slice_words(seen_front@),
                    parents_front@,
                    first_position(slice_words(seen_front@), slice_words(seen_back@)[index as int]),
                ),
                trail(slice_words(seen_back@), parents_back@, index as int),
            ),
    {
        if front {
            let at = position_of_word(seen_back, seen_front[index]);
            let index_back = at.unwrap();
            self.join_trails(index, index_back, seen_front, parents_front, seen_back, parents_back)
        } else {
            let at = position_of_word(seen_front, seen_back[index]);
            let index_front = at.unwrap();
            self.join_trails(index_front, index, seen_front, parents_front, seen_back, parents_back)
        }
    }

    /// The trail to `index_front` on the front side, then the trail to
    /// `index_back` on the back side backwards, without its last word.
    fn join_trails<'a>(
        &self,
        index_front: usize,
        index_back: usize,
        seen_front: &[&'a [u8]],
        parents_front: &[usize],
        seen_back: &[&'a [u8]],
        parents_back: &[usize],
    ) -> (solution: Vec<Vec<u8>>)
        requires
            seen_front@.len() == parents_front@.len(),
            seen_back@.len() == parents_back@.len(),
            well_linked(parents_front@),
            well_linked(parents_back@),
            index_front < seen_front@.len(),
            index_back < seen_back@.len(),
        ensures
            owned_words(solution@) == joined(
                trail(slice_words(seen_front@), parents_front@, index_front as int),
                trail(slice_words(seen_back@), parents_back@, index_back as int),
            ),
    {
        let solution_front = self.untangle_solution(index_front, seen_front, parents_front);
        let mut solution_back = self.untangle_solution(index_back, seen_back, parents_back);
        let ghost back_half = owned_words(solution_back@);
        if solution_back.len() > 0 {
            solution_back.pop();
        }
        proof {
            assert(owned_words(solution_back@) =~= back_half.drop_last());
        }
        append_reversed(solution_front, solution_back)
    }

    /// The words from the root of a seen record down to entry `index`.
    pub fn untangle_solution<'a>(
        &self,
        index: usize,
        seen: &[&'a [u8]],
        parents: &[usize],
    ) -> (solution: Vec<Vec<u8>>)
        requires
            seen@.len() == parents@.len(),
            index == NO_PARENT || index < seen@.len(),
            well_linked(parents@),
        ensures
            owned_words(solution@) == trail(slice_words(seen@), parents@, index as int),
    {
        let ghost words = slice_words(seen@);
        let count: usize = seen.len();
        let mut backwards: Vec<Vec<u8>> = Vec::new();
        let mut i: usize = index;
        while i != usize::MAX
            invariant
                count == seen@.len(),
                seen@.len() == parents@.len(),
                words == slice_words(seen@),
                i == NO_PARENT || i < seen@.len(),
                well_linked(parents@),
                trail(words, parents@, index as int) == trail(words, parents@, i as int)
                    + owned_words(backwards@).reverse(),
            decreases
                    (if i == NO_PARENT {
                        0
                    } else {
                        i + 1
                    }),
        {
            let ghost before = backwards@;
            let w = copy_word(seen[i]);
            backwards.push(w);
            proof {
                lemma_owned_words_push(before, w);
                let up = parents@[i as int];
                assert(up == NO_PARENT || up < i);
                assert(trail(words, parents@, i as int) == trail(words, parents@, up as int).push(
                    words[i as int],
                )) by {
                    if up == NO_PARENT {
                        assert(trail(words, parents@, up as int) =~= Seq::<Seq<u8>>::empty());
                        assert(seq![words[i as int]] =~= Seq::<Seq<u8>>::empty().push(
                            words[i as int],
                        ));
                    }
                }
                assert(trail(words, parents@, up as int).push(words[i as int]) + owned_words(
                    before,
                ).reverse() =~= trail(words, parents@, up as int) + owned_words(
                    backwards@,
                ).reverse());
            }
            i = parents[i];
        }
        proof {
            assert(trail(words, parents@, i as int) =~= Seq::<Seq<u8>>::empty());
            assert(trail(words, parents@, index as int) =~= owned_words(backwards@).reverse());
        }
        let solution = append_reversed(Vec::new(), backwards);
        proof {
            assert(owned_words(solution@) =~= owned_words(backwards@).reverse());
        }
        solution
    }
}

} // verus!
