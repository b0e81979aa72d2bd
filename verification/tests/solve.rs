use word_ladder::solver::bfs2d::BFS2D;
use word_ladder::solver::{distance, SolveError, Solver};

fn toy() -> &'static [&'static [u8]] {
    &[b"COLD", b"CORD", b"CARD", b"WARD", b"WARM"]
}

fn grid() -> &'static [&'static [u8]] {
    &[
        b"AAA", b"AAB", b"ABA", b"BAA", b"ABB", b"BAB", b"BBA", b"BBB", b"CCC", b"CCD", b"XY",
        b"XZ", b"AAAA", b"AAA",
    ]
}

fn owned(words: &[&[u8]]) -> Vec<Vec<u8>> {
    words.iter().map(|w| w.to_vec()).collect()
}

fn is_valid(path: &[Vec<u8>], dictionary: &[&[u8]], origin: &[u8], target: &[u8]) -> bool {
    if path.is_empty() || path[0] != origin || path[path.len() - 1] != target {
        return false;
    }
    for i in 0..path.len() {
        let known = dictionary.iter().any(|w| *w == path[i].as_slice());
        if !known && path[i] != origin && path[i] != target {
            return false;
        }
        if i + 1 < path.len() {
            if path[i].len() != path[i + 1].len() || distance(&path[i], &path[i + 1]) != 1 {
                return false;
            }
        }
    }
    true
}

/// The number of words on a shortest ladder, by a plain search from one end.
fn reference_length(
    dictionary: &[&[u8]],
    excluded: &[&[u8]],
    origin: &[u8],
    target: &[u8],
) -> Option<usize> {
    if excluded.contains(&origin) || excluded.contains(&target) {
        return None;
    }
    let mut layer: Vec<Vec<u8>> = vec![origin.to_vec()];
    let mut seen: Vec<Vec<u8>> = vec![origin.to_vec()];
    let mut count = 1;
    while !layer.is_empty() {
        if layer.iter().any(|w| w.as_slice() == target) {
            return Some(count);
        }
        let mut next: Vec<Vec<u8>> = Vec::new();
        for w in &layer {
            let mut candidates: Vec<&[u8]> = dictionary.to_vec();
            candidates.push(target);
            for c in candidates {
                if c.len() == w.len()
                    && distance(w, c) == 1
                    && !excluded.contains(&c)
                    && !seen.iter().any(|s| s.as_slice() == c)
                {
                    seen.push(c.to_vec());
                    next.push(c.to_vec());
                }
            }
        }
        layer = next;
        count += 1;
    }
    None
}

#[test]
fn cold_to_warm() {
    let solver = BFS2D::new(toy(), false);
    let path = solver.solve(b"COLD", b"WARM").unwrap();
    assert_eq!(path, owned(&[b"COLD", b"CORD", b"CARD", b"WARD", b"WARM"]));
}

#[test]
fn warm_to_cold() {
    let solver = BFS2D::new(toy(), false);
    let path = solver.solve(b"WARM", b"COLD").unwrap();
    assert_eq!(path, owned(&[b"WARM", b"WARD", b"CARD", b"CORD", b"COLD"]));
}

#[test]
fn cold_to_warm_without_card() {
    let mut solver = BFS2D::new(toy(), false);
    solver.set_exceptions(&[b"CARD"]);
    assert_eq!(solver.solve(b"COLD", b"WARM"), Err(SolveError::NoSolution));
}

#[test]
fn neighbours_give_two_words() {
    let solver = BFS2D::new(toy(), false);
    assert_eq!(solver.solve(b"COLD", b"CORD").unwrap(), owned(&[b"COLD", b"CORD"]));
    assert_eq!(solver.solve(b"CARD", b"CORD").unwrap(), owned(&[b"CARD", b"CORD"]));
}

#[test]
fn three_words() {
    let solver = BFS2D::new(toy(), false);
    assert_eq!(
        solver.solve(b"COLD", b"CARD").unwrap(),
        owned(&[b"COLD", b"CORD", b"CARD"])
    );
    assert_eq!(
        solver.solve(b"CORD", b"WARD").unwrap(),
        owned(&[b"CORD", b"CARD", b"WARD"])
    );
}

#[test]
fn a_word_to_itself() {
    let solver = BFS2D::new(toy(), false);
    assert_eq!(solver.solve(b"COLD", b"COLD").unwrap(), owned(&[b"COLD"]));
    assert_eq!(solver.solve(b"WARD", b"WARD").unwrap(), owned(&[b"WARD"]));
}

#[test]
fn a_word_to_itself_outside_the_dictionary() {
    let solver = BFS2D::new(toy(), false);
    assert_eq!(solver.solve(b"ZZZZ", b"ZZZZ").unwrap(), owned(&[b"ZZZZ"]));
    let empty = BFS2D::new(&[], false);
    assert_eq!(empty.solve(b"", b"").unwrap(), vec![Vec::<u8>::new()]);
}

#[test]
fn different_lengths_are_refused() {
    let solver = BFS2D::new(toy(), false);
    assert_eq!(solver.solve(b"COLD", b"WAR"), Err(SolveError::LengthMismatch));
    assert_eq!(solver.solve(b"", b"WARM"), Err(SolveError::LengthMismatch));
    assert_eq!(solver.solve(b"COLDER", b"WARM"), Err(SolveError::LengthMismatch));
}

#[test]
fn different_lengths_are_refused_before_exclusions() {
    let mut solver = BFS2D::new(toy(), false);
    solver.set_exceptions(&[b"COLD"]);
    assert_eq!(solver.solve(b"COLD", b"WAR"), Err(SolveError::LengthMismatch));
}

#[test]
fn unconnected_words_have_no_solution() {
    let solver = BFS2D::new(grid(), false);
    assert_eq!(solver.solve(b"AAA", b"CCC"), Err(SolveError::NoSolution));
    assert_eq!(solver.solve(b"CCD", b"BBB"), Err(SolveError::NoSolution));
    let toy_solver = BFS2D::new(toy(), false);
    assert_eq!(toy_solver.solve(b"COLD", b"ZZZZ"), Err(SolveError::NoSolution));
}

#[test]
fn an_excluded_end_has_no_solution() {
    let mut solver = BFS2D::new(toy(), false);
    solver.set_exceptions(&[b"COLD"]);
    assert_eq!(solver.solve(b"COLD", b"WARM"), Err(SolveError::NoSolution));
    assert_eq!(solver.solve(b"WARM", b"COLD"), Err(SolveError::NoSolution));
    assert_eq!(solver.solve(b"COLD", b"COLD"), Err(SolveError::NoSolution));
    assert_eq!(
        solver.solve(b"CORD", b"WARM").unwrap(),
        owned(&[b"CORD", b"CARD", b"WARD", b"WARM"])
    );
}

#[test]
fn words_outside_the_dictionary_may_be_the_ends() {
    let solver = BFS2D::new(toy(), false);
    assert_eq!(
        solver.solve(b"BOLD", b"WARM").unwrap(),
        owned(&[b"BOLD", b"COLD", b"CORD", b"CARD", b"WARD", b"WARM"])
    );
    assert_eq!(
        solver.solve(b"COLD", b"WORM").unwrap(),
        owned(&[b"COLD", b"CORD", b"CARD", b"WARD", b"WARM", b"WORM"])
    );
    assert_eq!(solver.solve(b"ZOLD", b"ZOLT").unwrap(), owned(&[b"ZOLD", b"ZOLT"]));
}

#[test]
fn every_pair_gets_a_valid_shortest_ladder() {
    let dictionary = grid();
    let solver = BFS2D::new(dictionary, false);
    for a in dictionary {
        for b in dictionary {
            let found = solver.solve(a, b);
            if a.len() != b.len() {
                assert_eq!(found, Err(SolveError::LengthMismatch));
                continue;
            }
            match reference_length(dictionary, &[], a, b) {
                Some(n) => {
                    let path = found.unwrap();
                    assert!(is_valid(&path, dictionary, a, b));
                    assert_eq!(path.len(), n);
                }
                None => assert_eq!(found, Err(SolveError::NoSolution)),
            }
        }
    }
}

#[test]
fn every_pair_gets_a_valid_shortest_ladder_around_exclusions() {
    let dictionary = grid();
    let excluded: [&'static [u8]; 3] = [b"ABA", b"BAB", b"XZ"];
    let mut solver = BFS2D::new(dictionary, false);
    solver.set_exceptions(&excluded);
    for a in dictionary {
        for b in dictionary {
            if a.len() != b.len() {
                continue;
            }
            let found = solver.solve(a, b);
            match reference_length(dictionary, &excluded, a, b) {
                Some(n) => {
                    let path = found.unwrap();
                    assert!(is_valid(&path, dictionary, a, b));
                    assert_eq!(path.len(), n);
                    for w in &path {
                        assert!(!excluded.contains(&w.as_slice()));
                    }
                }
                None => assert_eq!(found, Err(SolveError::NoSolution)),
            }
        }
    }
}

#[test]
fn excluding_a_word_on_every_shortest_ladder_lengthens() {
    let dictionary: &'static [&'static [u8]] =
        &[b"AAA", b"AAB", b"ABB", b"BBB", b"BAA", b"BBA", b"ABA"];
    let mut solver = BFS2D::new(dictionary, false);
    let direct = solver.solve(b"AAA", b"AAB").unwrap();
    assert_eq!(direct, owned(&[b"AAA", b"AAB"]));
    let before = solver.solve(b"AAA", b"ABB").unwrap();
    assert_eq!(before.len(), 3);
    solver.set_exceptions(&[b"AAB", b"ABA"]);
    let after = solver.solve(b"AAA", b"ABB").unwrap();
    assert_eq!(after, owned(&[b"AAA", b"BAA", b"BBA", b"BBB", b"ABB"]));
    assert!(after.len() > before.len());
    assert!(!after.contains(&b"AAB".to_vec()));
    assert!(!after.contains(&b"ABA".to_vec()));
}

#[test]
fn excluding_a_bridge_leaves_no_solution() {
    let mut solver = BFS2D::new(toy(), false);
    for bridge in [b"CORD", b"CARD", b"WARD"] {
        let one: [&'static [u8]; 1] = [bridge];
        solver.set_exceptions(&one);
        assert_eq!(solver.solve(b"COLD", b"WARM"), Err(SolveError::NoSolution));
    }
    solver.set_exceptions(&[]);
    assert_eq!(solver.solve(b"COLD", b"WARM").unwrap().len(), 5);
}

#[test]
fn exceptions_are_replaced_not_added() {
    let mut solver = BFS2D::new(toy(), false);
    solver.set_exceptions(&[b"CARD"]);
    assert_eq!(solver.solve(b"COLD", b"WARM"), Err(SolveError::NoSolution));
    solver.set_exceptions(&[b"ZZZZ"]);
    assert_eq!(
        solver.solve(b"COLD", b"WARM").unwrap(),
        owned(&[b"COLD", b"CORD", b"CARD", b"WARD", b"WARM"])
    );
}

#[test]
fn repeated_words_in_the_dictionary_do_no_harm() {
    let dictionary: &'static [&'static [u8]] =
        &[b"COLD", b"CORD", b"CORD", b"COLD", b"CARD", b"WARD", b"CARD", b"WARM", b"WARM"];
    let solver = BFS2D::new(dictionary, false);
    assert_eq!(
        solver.solve(b"COLD", b"WARM").unwrap(),
        owned(&[b"COLD", b"CORD", b"CARD", b"WARD", b"WARM"])
    );
}

#[test]
fn a_shuffled_search_finds_ladders_of_the_same_length() {
    let dictionary = grid();
    let solver = BFS2D::new(dictionary, true);
    for _ in 0..20 {
        let path = solver.solve(b"AAA", b"BBB").unwrap();
        assert!(is_valid(&path, dictionary, b"AAA", b"BBB"));
        assert_eq!(path.len(), 4);
        assert_eq!(solver.solve(b"AAA", b"CCC"), Err(SolveError::NoSolution));
    }
}

#[test]
fn a_shuffled_search_finds_more_than_one_ladder() {
    let solver = BFS2D::new(grid(), true);
    let first = solver.solve(b"AAA", b"BBB").unwrap();
    let mut other = false;
    for _ in 0..200 {
        if solver.solve(b"AAA", b"BBB").unwrap() != first {
            other = true;
        }
    }
    assert!(other);
}

#[test]
fn a_search_in_order_finds_the_same_ladder_each_time() {
    let solver = BFS2D::new(grid(), false);
    let first = solver.solve(b"AAA", b"BBB").unwrap();
    for _ in 0..20 {
        assert_eq!(solver.solve(b"AAA", b"BBB").unwrap(), first);
    }
}

#[test]
fn solve_among_uses_the_words_it_is_given() {
    let solver = BFS2D::new(&[], false);
    let words: Vec<&[u8]> = vec![b"CORD", b"CARD", b"WARD"];
    assert_eq!(
        solver.solve_among(words, b"COLD", b"WARM").unwrap(),
        owned(&[b"COLD", b"CORD", b"CARD", b"WARD", b"WARM"])
    );
    let fewer: Vec<&[u8]> = vec![b"CORD", b"WARD"];
    assert_eq!(
        solver.solve_among(fewer, b"COLD", b"WARM"),
        Err(SolveError::NoSolution)
    );
}

#[test]
fn word_exists_looks_at_the_whole_dictionary() {
    let mut solver = BFS2D::new(grid(), false);
    assert!(solver.word_exists(b"AAA"));
    assert!(solver.word_exists(b"XY"));
    assert!(solver.word_exists(b"AAAA"));
    assert!(!solver.word_exists(b"AA"));
    assert!(!solver.word_exists(b""));
    solver.set_exceptions(&[b"AAA"]);
    assert!(solver.word_exists(b"AAA"));
}

#[test]
fn get_dictionary_hands_back_the_dictionary() {
    let solver = BFS2D::new(toy(), true);
    assert_eq!(solver.get_dictionary(), toy());
}
