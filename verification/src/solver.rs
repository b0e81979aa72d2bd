//! The solver interface, its errors and the distance between two words.

use vstd::prelude::*;

pub mod bfs2d;

use crate::ladder::{
    connected, is_ladder, is_shortest_ladder, is_sweep_result, lemma_chain_one_length,
    lemma_excluding_a_bridge, lemma_excluding_lengthens, lemma_mismatches_grow,
    lemma_no_mismatch_is_equality, linked, mismatches, mismatches_below, of_length, step,
    universe_of, usable,
};
use crate::words::{owned_words, slice_words};

verus! {

/// Why a search gave no ladder.
#[derive(Clone, Copy, Debug, PartialEq, Eq, Structural)]
pub enum SolveError {
    /// The two words of a query have different lengths.
    LengthMismatch,
    /// No ladder joins the two words.
    NoSolution,
    /// The dictionary holds no word of the length asked for.
    NoWordsOfLength,
}

impl SolveError {
    /// The failure in words, for whoever shows it.
    pub fn message(&self) -> (text: &'static str)
        ensures
            text@ == match self {
                SolveError::LengthMismatch => "Both words must be of the same length"@,
                SolveError::NoSolution => "There is no solution"@,
                SolveError::NoWordsOfLength => "The dictionary has no word of that length"@,
            },
    {
        match self {
            SolveError::LengthMismatch => "Both words must be of the same length",
            SolveError::NoSolution => "There is no solution",
            SolveError::NoWordsOfLength => "The dictionary has no word of that length",
        }
    }
}

/// What a search from `origin` to `target` must answer: a shortest
/// ladder where one exists, and else the reason why none was found.
pub open spec fn is_answer(
    dictionary: Seq<Seq<u8>>,
    exceptions: Seq<Seq<u8>>,
    origin: Seq<u8>,
    target: Seq<u8>,
    answer: Result<Seq<Seq<u8>>, SolveError>,
) -> bool {
    match answer {
        Ok(path) => origin.len() == target.len() && is_shortest_ladder(
            universe_of(dictionary, origin, target),
            exceptions,
            origin,
            target,
            path,
        ),
        Err(SolveError::LengthMismatch) => origin.len() != target.len(),
        Err(SolveError::NoSolution) => origin.len() == target.len() && !connected(
            universe_of(dictionary, origin, target),
            exceptions,
            origin,
            target,
        ),
        Err(SolveError::NoWordsOfLength) => false,
    }
}

/// What an answer says in detail. A ladder is given exactly when the two
/// words have one length and some ladder joins them; it begins with
/// `origin`, ends with `target`, links each word to the next, holds no
/// excluded word, and no ladder between the two words is shorter. Words of
/// different lengths, and those only, are refused as such.
pub proof fn lemma_answer(
    dictionary: Seq<Seq<u8>>,
    exceptions: Seq<Seq<u8>>,
    origin: Seq<u8>,
    target: Seq<u8>,
    answer: Result<Seq<Seq<u8>>, SolveError>,
)
    requires
        is_answer(dictionary, exceptions, origin, target, answer),
    ensures
        answer is Ok <==> origin.len() == target.len() && connected(
            universe_of(dictionary, origin, target),
            exceptions,
            origin,
            target,
        ),
        answer == Err::<Seq<Seq<u8>>, SolveError>(SolveError::LengthMismatch) <==> origin.len()
            != target.len(),
        answer matches Ok(path) ==> {
            &&& path.len() >= 1
            &&& path.first() == origin
            &&& path.last() == target
            &&& forall|i: int| 0 <= i < path.len() - 1 ==> #[trigger] step(path, i)
            &&& forall|i: int| 0 <= i < path.len() ==> !exceptions.contains(#[trigger] path[i])
            &&& forall|other: Seq<Seq<u8>>| #[trigger]
                is_ladder(
                    universe_of(dictionary, origin, target),
                    exceptions,
                    origin,
                    target,
                    other,
                ) ==> path.len() <= other.len()
        },
{
    let universe = universe_of(dictionary, origin, target);
    match answer {
        Ok(path) => {
            assert(is_ladder(universe, exceptions, origin, target, path));
            assert forall|i: int| 0 <= i < path.len() implies !exceptions.contains(
                #[trigger] path[i],
            ) by {
                assert(usable(universe, exceptions, path[i]));
            }
        },
        Err(_) => {
            if origin.len() == target.len() && connected(universe, exceptions, origin, target) {
                let p = choose|p: Seq<Seq<u8>>| is_ladder(universe, exceptions, origin, target, p);
                lemma_chain_one_length(universe, exceptions, p, p.len() - 1);
            }
        },
    }
    if connected(universe, exceptions, origin, target) {
        let p = choose|p: Seq<Seq<u8>>| is_ladder(universe, exceptions, origin, target, p);
        lemma_chain_one_length(universe, exceptions, p, p.len() - 1);
    }
}

/// What a search answers once one more word is excluded, a word that
/// lies on every shortest ladder between the two words: a longer ladder
/// that is a ladder without the exclusion too and does not hold the word,
/// or that there is no solution. Where the word lies on every ladder
/// between the two, there is no solution.
pub proof fn lemma_answer_without(
    dictionary: Seq<Seq<u8>>,
    exceptions: Seq<Seq<u8>>,
    w: Seq<u8>,
    origin: Seq<u8>,
    target: Seq<u8>,
    before: Result<Seq<Seq<u8>>, SolveError>,
    after: Result<Seq<Seq<u8>>, SolveError>,
)
    requires
        is_answer(dictionary, exceptions, origin, target, before),
        is_answer(dictionary, exceptions.push(w), origin, target, after),
        before is Ok,
        forall|p: Seq<Seq<u8>>| #[trigger]
            is_shortest_ladder(
                universe_of(dictionary, origin, target),
                exceptions,
                origin,
                target,
                p,
            ) ==> p.contains(w),
    ensures
        match after {
            Ok(path) => {
                &&& is_ladder(
                    universe_of(dictionary, origin, target),
                    exceptions,
                    origin,
                    target,
                    path,
                )
                &&& !path.contains(w)
                &&& before matches Ok(found) && path.len() > found.len()
            },
            Err(e) => e == SolveError::NoSolution,
        },
        (forall|p: Seq<Seq<u8>>| #[trigger]
            is_ladder(universe_of(dictionary, origin, target), exceptions, origin, target, p)
                ==> p.contains(w)) ==> after == Err::<Seq<Seq<u8>>, SolveError>(
            SolveError::NoSolution,
        ),
{
    let universe = universe_of(dictionary, origin, target);
    match after {
        Ok(path) => {
            lemma_excluding_lengthens(
                universe,
                exceptions,
                w,
                origin,
                target,
                before->Ok_0,
                path,
            );
        },
        Err(_) => {},
    }
    if forall|p: Seq<Seq<u8>>| #[trigger]
        is_ladder(universe, exceptions, origin, target, p) ==> p.contains(w) {
        lemma_excluding_a_bridge(universe, exceptions, w, origin, target);
        if let Ok(path) = after {
            assert(is_ladder(universe, exceptions.push(w), origin, target, path));
        }
    }
}

/// The answer of a search, with the words of its ladder.
pub open spec fn answer_words(result: Result<Vec<Vec<u8>>, SolveError>) -> Result<
    Seq<Seq<u8>>,
    SolveError,
> {
    match result {
        Ok(path) => Ok(owned_words(path@)),
        Err(e) => Err(e),
    }
}

/// A solver of word ladders over a dictionary, with a set of excluded
/// words that its caller may replace between searches.
pub trait Solver: Sized {
    /// The words of the dictionary, in its order.
    spec fn dictionary(&self) -> Seq<Seq<u8>>;

    /// The excluded words.
    spec fn exceptions(&self) -> Seq<Seq<u8>>;

    /// A solver over `dictionary` that excludes no word.
    fn new(dictionary: &'static [&'static [u8]], randomize: bool) -> (solver: Self)
        ensures
            solver.dictionary() == slice_words(dictionary@),
            solver.exceptions() == Seq::<Seq<u8>>::empty(),
    ;

    /// A shortest ladder from `origin` to `target`.
    ///
    /// The ladder passes through words of the dictionary that are not
    /// excluded; the two query words need not be in the dictionary, but
    /// must not be excluded either. Words of different lengths are
    /// refused, and where no ladder joins the two words the search says
    /// so.
    fn solve(&self, origin: &[u8], target: &[u8]) -> (result: Result<Vec<Vec<u8>>, SolveError>)
        ensures
            is_answer(
                self.dictionary(),
                self.exceptions(),
                origin@,
                target@,
                answer_words(result),
            ),
            origin@ == target@ && !self.exceptions().contains(origin@) ==> (result matches Ok(path)
                && owned_words(path@) == seq![origin@]),
    ;

    /// A ladder that is close to the longest of the shortest ladders
    /// between words of `length` letters, found in two sweeps that ignore
    /// the excluded words.
    ///
    /// The first sweep runs from one word of that length, the first in the
    /// dictionary unless `randomize` holds, to a word as far from it as
    /// any. The second runs from there, and the ladder returned is a
    /// shortest ladder to a word as far from that one as any.
    fn find_largest_ladder(&self, length: usize, randomize: bool) -> (result: Result<
        Vec<Vec<u8>>,
        SolveError,
    >)
        ensures
            match result {
                Ok(path) => is_sweep_result(
                    self.dictionary(),
                    length as nat,
                    !randomize,
                    owned_words(path@),
                ),
                Err(e) => e == SolveError::NoWordsOfLength && of_length(
                    self.dictionary(),
                    length as nat,
                ).len() == 0,
            },
    ;

    /// Whether the dictionary holds `word`, whatever its length and
    /// whether or not it is excluded.
    fn word_exists(&self, word: &[u8]) -> (exists: bool)
        ensures
            exists == self.dictionary().contains(word@),
    ;

    /// The dictionary that the solver was made with.
    fn get_dictionary(&self) -> (dictionary: &'static [&'static [u8]])
        ensures
            slice_words(dictionary@) == self.dictionary(),
    ;

    /// Replaces the excluded words by `exceptions`.
    fn set_exceptions(&mut self, exceptions: &[&'static [u8]])
        ensures
            final(self).exceptions() == slice_words(exceptions@),
            final(self).dictionary() == old(self).dictionary(),
    ;
}

/// The distance between `w1` and `w2`, counted only as far as the search
/// needs it: the number of positions at which they differ, or 2 as soon as
/// there are two or more.
pub fn distance(w1: &[u8], w2: &[u8]) -> (d: usize)
    requires
        w1@.len() == w2@.len(),
    ensures
        d == if mismatches(w1@, w2@) >= 2 { 2 } else { mismatches(w1@, w2@) },
        d == 0 <==> w1@ == w2@,
        d == 1 <==> linked(w1@, w2@),
{
    let mut count: usize = 0;
    let mut i: usize = 0;
    while i < w1.len()
        invariant
            i <= w1@.len(),
            w1@.len() == w2@.len(),
            count == mismatches_below(w1@, w2@, i as int),
            count <= 1,
        decreases w1@.len() - i,
    {
        if w1[i] != w2[i] {
            count += 1;
            if count > 1 {
                proof {
                    lemma_mismatches_grow(w1@, w2@, i as int + 1, w1@.len() as int);
                    lemma_no_mismatch_is_equality(w1@, w2@);
                }
                return count;
            }
        }
        i += 1;
    }
    proof {
        lemma_no_mismatch_is_equality(w1@, w2@);
    }
    count
}

} // verus!
