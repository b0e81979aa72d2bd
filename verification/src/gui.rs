//! The state behind an interactive window: two words, the solution that
//! was found for them, and the words that the user has taken out of play.
//!
//! The window itself is not here. It hands each thing the user does to
//! one of the methods below and draws what the state then holds.

use vstd::prelude::*;
use crate::solver::{answer_words, is_answer, SolveError, Solver};
use crate::words::{
    lemma_slice_words_push, position_of_word, same_word, slice_words, to_upper, upper,
};

verus! {

/// The state of a session.
pub struct MyApp<S: Solver> {
    solver: S,
    origin: Vec<u8>,
    target: Vec<u8>,
    solution: Option<Result<Vec<Vec<u8>>, SolveError>>,
    exceptions: Vec<&'static [u8]>,
}

/// What a session holds.
pub struct Session {
    /// The dictionary of the solver.
    pub dictionary: Seq<Seq<u8>>,
    /// The words that the solver excludes.
    pub excluded: Seq<Seq<u8>>,
    /// The word to start from, in upper case.
    pub origin: Seq<u8>,
    /// The word to arrive at, in upper case.
    pub target: Seq<u8>,
    /// What the last search answered, if the two words have not changed
    /// since.
    pub solution: Option<Result<Seq<Seq<u8>>, SolveError>>,
    /// The words that the user has taken out of play, in the order in
    /// which they were taken out.
    pub exceptions: Seq<Seq<u8>>,
}

impl<S: Solver> View for MyApp<S> {
    type V = Session;

    closed spec fn view(&self) -> Session {
        Session {
            dictionary: self.solver.dictionary(),
            excluded: self.solver.exceptions(),
            origin: self.origin@,
            target: self.target@,
            solution: match self.solution {
                Some(answer) => Some(answer_words(answer)),
                None => None,
            },
            exceptions: slice_words(self.exceptions@),
        }
    }
}

impl<S: Solver> MyApp<S> {
    /// A session around `solver`: no words yet, no solution, and nothing
    /// taken out of play.
    pub fn new(solver: S) -> (app: Self)
        ensures
            app@ == (Session {
                dictionary: solver.dictionary(),
                excluded: solver.exceptions(),
                origin: Seq::empty(),
                target: Seq::empty(),
                solution: None,
                exceptions: Seq::empty(),
            }),
    {
        let app = Self {
            solver,
            origin: Vec::new(),
            target: Vec::new(),
            solution: None,
            exceptions: Vec::new(),
        };
        proof {
            assert(slice_words(app.exceptions@) =~= Seq::<Seq<u8>>::empty());
        }
        app
    }

    /// Searches for the two words as they stand, and keeps the answer.
    pub fn update_solution(&mut self)
        ensures
            final(self)@.solution matches Some(answer) && is_answer(
                old(self)@.dictionary,
                old(self)@.excluded,
                old(self)@.origin,
                old(self)@.target,
                answer,
            ),
            final(self)@ == (Session { solution: final(self)@.solution, ..old(self)@ }),
    {
        let answer = self.solver.solve(self.origin.as_slice(), self.target.as_slice());
        self.solution = Some(answer);
    }

    /// Forgets the answer of the last search.
    pub fn clear_solution(&mut self)
        ensures
            final(self)@ == (Session { solution: None, ..old(self)@ }),
    {
        self.solution = None;
    }

    /// The user has typed `text` as the word to start from: it is kept in
    /// upper case, and the answer of the last search is forgotten.
    pub fn set_origin(&mut self, text: &[u8])
        ensures
            final(self)@ == (Session { origin: upper(text@), solution: None, ..old(self)@ }),
    {
        self.origin = to_upper(text);
        self.solution = None;
    }

    /// The user has typed `text` as the word to arrive at: it is kept in
    /// upper case, and the answer of the last search is forgotten.
    pub fn set_target(&mut self, text: &[u8])
        ensures
            final(self)@ == (Session { target: upper(text@), solution: None, ..old(self)@ }),
    {
        self.target = to_upper(text);
        self.solution = None;
    }

    /// Whether `word` can be taken out of play: it is a word of the
    /// dictionary, and neither of the two words of the search.
    pub open spec fn can_exclude(session: Session, word: Seq<u8>) -> bool {
        session.dictionary.contains(word) && word != session.origin && word != session.target
    }

    /// The user asks to take `word` out of play.
    ///
    /// Where that can be done, the solver excludes `word` from now on,
    /// with the words taken out before, and the search is run again.
    /// Where it cannot, nothing changes.
    pub fn exclude(&mut self, word: &[u8]) -> (done: bool)
        ensures
            done == Self::can_exclude(old(self)@, word@),
            !done ==> final(self)@ == old(self)@,
            done ==> {
                &&& final(self)@.exceptions == old(self)@.exceptions.push(word@)
                &&& final(self)@.excluded == final(self)@.exceptions
                &&& final(self)@.solution matches Some(answer) && is_answer(
                    old(self)@.dictionary,
                    final(self)@.excluded,
                    old(self)@.origin,
                    old(self)@.target,
                    answer,
                )
                &&& final(self)@ == (Session {
                    exceptions: final(self)@.exceptions,
                    excluded: final(self)@.excluded,
                    solution: final(self)@.solution,
                    ..old(self)@
                })
            },
    {
        if same_word(word, self.origin.as_slice()) || same_word(word, self.target.as_slice()) {
            return false;
        }
        let dictionary = self.solver.get_dictionary();
        match position_of_word(dictionary, word) {
            None => false,
            Some(at) => {
                let entry: &'static [u8] = dictionary[at];
                proof {
                    lemma_slice_words_push(self.exceptions@, entry);
                }
                self.exceptions.push(entry);
                self.solver.set_exceptions(self.exceptions.as_slice());
                self.update_solution();
                true
            },
        }
    }

    /// The user has put the word at `index` of the words taken out back
    /// into play: the solver excludes the others only, and the search is
    /// run again.
    pub fn restore(&mut self, index: usize)
        requires
            index < old(self)@.exceptions.len(),
        ensures
            final(self)@.exceptions == old(self)@.exceptions.remove(index as int),
            final(self)@.excluded == final(self)@.exceptions,
            final(self)@.solution matches Some(answer) && is_answer(
                old(self)@.dictionary,
                final(self)@.excluded,
                old(self)@.origin,
                old(self)@.target,
                answer,
            ),
            final(self)@ == (Session {
                exceptions: final(self)@.exceptions,
                excluded: final(self)@.excluded,
                solution: final(self)@.solution,
                ..old(self)@
            }),
    {
        let ghost before = self.exceptions@;
        self.exceptions.remove(index);
        proof {
            assert(slice_words(before.remove(index as int)) =~= slice_words(before).remove(
                index as int,
            ));
        }
        self.solver.set_exceptions(self.exceptions.as_slice());
        self.update_solution();
    }

    /// The word to start from.
    pub fn origin(&self) -> (text: &Vec<u8>)
        ensures
            text@ == self@.origin,
    {
        &self.origin
    }

    /// The word to arrive at.
    pub fn target(&self) -> (text: &Vec<u8>)
        ensures
            text@ == self@.target,
    {
        &self.target
    }

    /// Whether the dictionary holds the word to start from.
    pub fn origin_exists(&self) -> (exists: bool)
        ensures
            exists == self@.dictionary.contains(self@.origin),
    {
        self.solver.word_exists(self.origin.as_slice())
    }

    /// Whether the dictionary holds the word to arrive at.
    pub fn target_exists(&self) -> (exists: bool)
        ensures
            exists == self@.dictionary.contains(self@.target),
    {
        self.solver.word_exists(self.target.as_slice())
    }

    /// What the last search answered, if the two words have not changed
    /// since.
    pub fn solution(&self) -> (solution: &Option<Result<Vec<Vec<u8>>, SolveError>>)
        ensures
            self@.solution == match *solution {
                Some(answer) => Some(answer_words(answer)),
                None => None,
            },
    {
        &self.solution
    }

    /// The words taken out of play.
    pub fn exceptions(&self) -> (words: &Vec<&'static [u8]>)
        ensures
            slice_words(words@) == self@.exceptions,
    {
        &self.exceptions
    }
}

} // verus!
