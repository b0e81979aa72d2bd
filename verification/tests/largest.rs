use word_ladder::solver::bfs2d::BFS2D;
use word_ladder::solver::{distance, SolveError, Solver};

fn toy() -> &'static [&'static [u8]] {
    &[b"COLD", b"CORD", b"CARD", b"WARD", b"WARM"]
}

fn owned(words: &[&[u8]]) -> Vec<Vec<u8>> {
    words.iter().map(|w| w.to_vec()).collect()
}

/// The number of links on a shortest ladder between every two words of one
/// length, by repeated relaxation over all pairs.
fn all_pairs(words: &[&[u8]]) -> Vec<Vec<Option<usize>>> {
    let n = words.len();
    let mut d: Vec<Vec<Option<usize>>> = vec![vec![None; n]; n];
    for i in 0..n {
        for j in 0..n {
            if words[i] == words[j] {
                d[i][j] = Some(0);
            } else if distance(words[i], words[j]) == 1 {
                d[i][j] = Some(1);
            }
        }
    }
    for k in 0..n {
        for i in 0..n {
            for j in 0..n {
                if let (Some(a), Some(b)) = (d[i][k], d[k][j]) {
                    if d[i][j].map_or(true, |c| a + b < c) {
                        d[i][j] = Some(a + b);
                    }
                }
            }
        }
    }
    d
}

fn index_of(words: &[&[u8]], w: &[u8]) -> usize {
    words.iter().position(|x| *x == w).unwrap()
}

fn check_sweep(dictionary: &'static [&'static [u8]], length: usize, randomize: bool) {
    let solver = BFS2D::new(dictionary, false);
    let path = solver.find_largest_ladder(length, randomize).unwrap();
    let words: Vec<&[u8]> = dictionary.iter().copied().filter(|w| w.len() == length).collect();
    let d = all_pairs(&words);
    assert!(!path.is_empty());
    for w in &path {
        assert!(words.contains(&w.as_slice()));
    }
    for i in 0..path.len() - 1 {
        assert_eq!(distance(&path[i], &path[i + 1]), 1);
    }
    let from = index_of(&words, &path[0]);
    let to = index_of(&words, &path[path.len() - 1]);
    assert_eq!(d[from][to], Some(path.len() - 1));
    for j in 0..words.len() {
        if let Some(far) = d[from][j] {
            assert!(far <= path.len() - 1);
        }
    }
    let mut starts = 0;
    for s in 0..words.len() {
        if let Some(reach) = d[s][from] {
            if (0..words.len()).all(|j| d[s][j].map_or(true, |x| x <= reach)) {
                starts += 1;
            }
        }
    }
    assert!(starts > 0);
    if !randomize {
        let reach = d[0][from].unwrap();
        assert!((0..words.len()).all(|j| d[0][j].map_or(true, |x| x <= reach)));
    }
}

#[test]
fn largest_ladder_of_the_toy_dictionary() {
    let solver = BFS2D::new(toy(), false);
    let path = solver.find_largest_ladder(4, false).unwrap();
    assert_eq!(path, owned(&[b"WARM", b"WARD", b"CARD", b"CORD", b"COLD"]));
}

#[test]
fn largest_ladder_from_the_middle() {
    let dictionary: &'static [&'static [u8]] = &[b"CARD", b"COLD", b"CORD", b"WARD", b"WARM"];
    let solver = BFS2D::new(dictionary, false);
    let path = solver.find_largest_ladder(4, false).unwrap();
    assert_eq!(path.len(), 5);
    check_sweep(dictionary, 4, false);
}

#[test]
fn largest_ladder_is_shortest_between_its_ends() {
    check_sweep(toy(), 4, false);
    let mixed: &'static [&'static [u8]] = &[
        b"AAA", b"AAB", b"ABA", b"BAA", b"ABB", b"BAB", b"BBA", b"BBB", b"CCC", b"CCD", b"XY",
        b"XZ", b"AAAA", b"AAA",
    ];
    check_sweep(mixed, 3, false);
    check_sweep(mixed, 2, false);
    check_sweep(mixed, 4, false);
}

#[test]
fn largest_ladder_shuffled() {
    let mixed: &'static [&'static [u8]] = &[
        b"AAA", b"AAB", b"ABA", b"BAA", b"ABB", b"BAB", b"BBA", b"BBB", b"CCC", b"CCD", b"XY",
        b"XZ", b"AAAA", b"AAA",
    ];
    for _ in 0..20 {
        check_sweep(toy(), 4, true);
        check_sweep(mixed, 3, true);
    }
}

#[test]
fn largest_ladder_shuffled_starts_in_more_than_one_place() {
    let mixed: &'static [&'static [u8]] = &[b"AAA", b"AAB", b"CCC", b"CCD", b"EEE", b"EEF"];
    let solver = BFS2D::new(mixed, false);
    let first = solver.find_largest_ladder(3, true).unwrap();
    let mut other = false;
    for _ in 0..200 {
        if solver.find_largest_ladder(3, true).unwrap() != first {
            other = true;
        }
    }
    assert!(other);
}

#[test]
fn largest_ladder_of_a_single_word() {
    let dictionary: &'static [&'static [u8]] = &[b"COLD", b"WARMER"];
    let solver = BFS2D::new(dictionary, false);
    assert_eq!(solver.find_largest_ladder(4, false).unwrap(), owned(&[b"COLD"]));
    assert_eq!(solver.find_largest_ladder(6, false).unwrap(), owned(&[b"WARMER"]));
}

#[test]
fn largest_ladder_without_words_of_the_length() {
    let solver = BFS2D::new(toy(), false);
    assert_eq!(solver.find_largest_ladder(3, false), Err(SolveError::NoWordsOfLength));
    assert_eq!(solver.find_largest_ladder(0, true), Err(SolveError::NoWordsOfLength));
    let empty = BFS2D::new(&[], false);
    assert_eq!(empty.find_largest_ladder(4, false), Err(SolveError::NoWordsOfLength));
}

#[test]
fn largest_ladder_ignores_exclusions() {
    let mut solver = BFS2D::new(toy(), false);
    solver.set_exceptions(&[b"CARD"]);
    let path = solver.find_largest_ladder(4, false).unwrap();
    assert_eq!(path, owned(&[b"WARM", b"WARD", b"CARD", b"CORD", b"COLD"]));
}

#[test]
fn largest_among_starts_at_the_first_word() {
    let solver = BFS2D::new(&[], false);
    let words: Vec<&[u8]> = vec![b"CARD", b"CORD", b"COLD", b"WARD", b"WARM"];
    let path = solver.largest_among(words).unwrap();
    assert_eq!(path.len(), 5);
    assert_eq!(solver.largest_among(Vec::new()), Err(SolveError::NoWordsOfLength));
}
