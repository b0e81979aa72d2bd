use word_ladder::gui::MyApp;
use word_ladder::solver::bfs2d::BFS2D;
use word_ladder::solver::{SolveError, Solver};
use word_ladder::words::to_upper;

fn toy() -> &'static [&'static [u8]] {
    &[b"COLD", b"CORD", b"CARD", b"WARD", b"WARM", b"WORD", b"WORM"]
}

fn owned(words: &[&[u8]]) -> Vec<Vec<u8>> {
    words.iter().map(|w| w.to_vec()).collect()
}

#[test]
fn to_upper_changes_small_letters_only() {
    assert_eq!(to_upper(b"cold"), b"COLD".to_vec());
    assert_eq!(to_upper(b"CoLd"), b"COLD".to_vec());
    assert_eq!(to_upper(b"a-z {`}"), b"A-Z {`}".to_vec());
    assert_eq!(to_upper(&[96, 97, 122, 123, 200, 0]), vec![96, 65, 90, 123, 200, 0]);
    assert_eq!(to_upper(b""), Vec::<u8>::new());
}

#[test]
fn a_new_session_is_empty() {
    let app = MyApp::new(BFS2D::new(toy(), false));
    assert!(app.origin().is_empty());
    assert!(app.target().is_empty());
    assert_eq!(*app.solution(), None);
    assert!(app.exceptions().is_empty());
    assert!(!app.origin_exists());
    assert!(!app.target_exists());
}

#[test]
fn typed_words_are_kept_in_upper_case() {
    let mut app = MyApp::new(BFS2D::new(toy(), false));
    app.set_origin(b"cold");
    app.set_target(b"Warm");
    assert_eq!(*app.origin(), b"COLD".to_vec());
    assert_eq!(*app.target(), b"WARM".to_vec());
    assert!(app.origin_exists());
    assert!(app.target_exists());
    app.set_target(b"warn");
    assert!(!app.target_exists());
}

#[test]
fn update_solution_keeps_the_answer() {
    let mut app = MyApp::new(BFS2D::new(toy(), false));
    app.set_origin(b"cold");
    app.set_target(b"warm");
    assert_eq!(*app.solution(), None);
    app.update_solution();
    assert_eq!(
        *app.solution(),
        Some(Ok(owned(&[b"COLD", b"CORD", b"CARD", b"WARD", b"WARM"])))
    );
}

#[test]
fn update_solution_keeps_the_failure() {
    let mut app = MyApp::new(BFS2D::new(toy(), false));
    app.set_origin(b"cold");
    app.set_target(b"war");
    app.update_solution();
    assert_eq!(*app.solution(), Some(Err(SolveError::LengthMismatch)));
    app.set_target(b"zzzz");
    app.update_solution();
    assert_eq!(*app.solution(), Some(Err(SolveError::NoSolution)));
}

#[test]
fn typing_forgets_the_solution() {
    let mut app = MyApp::new(BFS2D::new(toy(), false));
    app.set_origin(b"cold");
    app.set_target(b"warm");
    app.update_solution();
    app.set_origin(b"cord");
    assert_eq!(*app.solution(), None);
    app.update_solution();
    assert_eq!(*app.solution(), Some(Ok(owned(&[b"CORD", b"CARD", b"WARD", b"WARM"]))));
    app.set_target(b"ward");
    assert_eq!(*app.solution(), None);
}

#[test]
fn clear_solution_forgets_the_solution_only() {
    let mut app = MyApp::new(BFS2D::new(toy(), false));
    app.set_origin(b"cold");
    app.set_target(b"cord");
    app.update_solution();
    app.clear_solution();
    assert_eq!(*app.solution(), None);
    assert_eq!(*app.origin(), b"COLD".to_vec());
    assert_eq!(*app.target(), b"CORD".to_vec());
}

#[test]
fn excluding_a_word_searches_again() {
    let mut app = MyApp::new(BFS2D::new(toy(), false));
    app.set_origin(b"cord");
    app.set_target(b"warm");
    app.update_solution();
    assert_eq!(*app.solution(), Some(Ok(owned(&[b"CORD", b"CARD", b"WARD", b"WARM"]))));
    assert!(app.exclude(b"CARD"));
    let excluded: Vec<&[u8]> = vec![b"CARD"];
    assert_eq!(*app.exceptions(), excluded);
    assert_eq!(*app.solution(), Some(Ok(owned(&[b"CORD", b"WORD", b"WARD", b"WARM"]))));
    assert!(app.exclude(b"WORD"));
    let excluded: Vec<&[u8]> = vec![b"CARD", b"WORD"];
    assert_eq!(*app.exceptions(), excluded);
    assert_eq!(*app.solution(), Some(Err(SolveError::NoSolution)));
}

#[test]
fn restoring_a_word_searches_again() {
    let mut app = MyApp::new(BFS2D::new(toy(), false));
    app.set_origin(b"cord");
    app.set_target(b"warm");
    app.exclude(b"CARD");
    app.exclude(b"WORD");
    assert_eq!(*app.solution(), Some(Err(SolveError::NoSolution)));
    app.restore(0);
    let excluded: Vec<&[u8]> = vec![b"WORD"];
    assert_eq!(*app.exceptions(), excluded);
    assert_eq!(*app.solution(), Some(Ok(owned(&[b"CORD", b"CARD", b"WARD", b"WARM"]))));
    app.restore(0);
    assert!(app.exceptions().is_empty());
    assert_eq!(*app.solution(), Some(Ok(owned(&[b"CORD", b"CARD", b"WARD", b"WARM"]))));
}

#[test]
fn a_session_replaces_what_the_solver_excluded() {
    let mut solver = BFS2D::new(toy(), false);
    solver.set_exceptions(&[b"CARD", b"WORD"]);
    let mut app = MyApp::new(solver);
    app.set_origin(b"cord");
    app.set_target(b"warm");
    app.update_solution();
    assert_eq!(*app.solution(), Some(Err(SolveError::NoSolution)));
    app.exclude(b"WORD");
    assert_eq!(*app.solution(), Some(Ok(owned(&[b"CORD", b"CARD", b"WARD", b"WARM"]))));
}

#[test]
fn the_two_words_of_the_search_stay_in_play() {
    let mut app = MyApp::new(BFS2D::new(toy(), false));
    app.set_origin(b"cord");
    app.set_target(b"warm");
    app.update_solution();
    assert!(!app.exclude(b"CORD"));
    assert!(!app.exclude(b"WARM"));
    assert!(app.exceptions().is_empty());
    assert_eq!(*app.solution(), Some(Ok(owned(&[b"CORD", b"CARD", b"WARD", b"WARM"]))));
}

#[test]
fn a_word_outside_the_dictionary_cannot_be_taken_out() {
    let mut app = MyApp::new(BFS2D::new(toy(), false));
    app.set_origin(b"cord");
    app.set_target(b"warm");
    assert!(!app.exclude(b"ZZZZ"));
    assert!(!app.exclude(b"card"));
    assert!(app.exceptions().is_empty());
    assert_eq!(*app.solution(), None);
}
