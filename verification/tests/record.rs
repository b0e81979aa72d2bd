use word_ladder::solver::bfs2d::BFS2D;
use word_ladder::solver::Solver;

fn toy() -> &'static [&'static [u8]] {
    &[b"COLD", b"CORD", b"CARD", b"WARD", b"WARM"]
}

fn owned(words: &[&[u8]]) -> Vec<Vec<u8>> {
    words.iter().map(|w| w.to_vec()).collect()
}

#[test]
fn explore_adds_one_layer() {
    let solver = BFS2D::new(toy(), false);
    let mut seen: Vec<&[u8]> = vec![b"CARD"];
    let mut parents: Vec<usize> = vec![usize::MAX];
    let mut search: Vec<(&[u8], usize)> = vec![(b"CARD", 0)];
    let mut next_search: Vec<(&[u8], usize)> = vec![];
    let other: Vec<&[u8]> = vec![b"ZZZZ"];
    let found =
        solver.explore(&mut seen, &mut parents, &mut search, &mut next_search, toy(), &other);
    assert_eq!(found, None);
    let expected_seen: Vec<&[u8]> = vec![b"CARD", b"CORD", b"WARD"];
    assert_eq!(seen, expected_seen);
    assert_eq!(parents, vec![usize::MAX, 0, 0]);
    let expected_search: Vec<(&[u8], usize)> = vec![(b"CORD", 1), (b"WARD", 2)];
    assert_eq!(search, expected_search);
    assert!(next_search.is_empty());

    let found =
        solver.explore(&mut seen, &mut parents, &mut search, &mut next_search, toy(), &other);
    assert_eq!(found, None);
    let expected_seen: Vec<&[u8]> = vec![b"CARD", b"CORD", b"WARD", b"COLD", b"WARM"];
    assert_eq!(seen, expected_seen);
    assert_eq!(parents, vec![usize::MAX, 0, 0, 1, 2]);
    let expected_search: Vec<(&[u8], usize)> = vec![(b"COLD", 3), (b"WARM", 4)];
    assert_eq!(search, expected_search);

    let found =
        solver.explore(&mut seen, &mut parents, &mut search, &mut next_search, toy(), &other);
    assert_eq!(found, None);
    assert_eq!(seen.len(), 5);
    assert!(search.is_empty());
    assert!(next_search.is_empty());
}

#[test]
fn explore_stops_at_a_word_of_the_other_side() {
    let solver = BFS2D::new(toy(), false);
    let mut seen: Vec<&[u8]> = vec![b"CARD"];
    let mut parents: Vec<usize> = vec![usize::MAX];
    let mut search: Vec<(&[u8], usize)> = vec![(b"CARD", 0)];
    let mut next_search: Vec<(&[u8], usize)> = vec![];
    let other: Vec<&[u8]> = vec![b"COLD", b"CORD"];
    let found =
        solver.explore(&mut seen, &mut parents, &mut search, &mut next_search, toy(), &other);
    assert_eq!(found, Some(1));
    let expected_seen: Vec<&[u8]> = vec![b"CARD", b"CORD"];
    assert_eq!(seen, expected_seen);
    assert_eq!(parents, vec![usize::MAX, 0]);
    let expected_search: Vec<(&[u8], usize)> = vec![(b"CARD", 0)];
    assert_eq!(search, expected_search);
    let expected_next: Vec<(&[u8], usize)> = vec![(b"CORD", 1)];
    assert_eq!(next_search, expected_next);
}

#[test]
fn explore_passes_over_excluded_and_seen_words() {
    let mut solver = BFS2D::new(toy(), false);
    solver.set_exceptions(&[b"WARD"]);
    let mut seen: Vec<&[u8]> = vec![b"COLD", b"CORD"];
    let mut parents: Vec<usize> = vec![usize::MAX, 0];
    let mut search: Vec<(&[u8], usize)> = vec![(b"CORD", 1)];
    let mut next_search: Vec<(&[u8], usize)> = vec![];
    let found =
        solver.explore(&mut seen, &mut parents, &mut search, &mut next_search, toy(), &[]);
    assert_eq!(found, None);
    let expected_seen: Vec<&[u8]> = vec![b"COLD", b"CORD", b"CARD"];
    assert_eq!(seen, expected_seen);
    assert_eq!(parents, vec![usize::MAX, 0, 1]);
    let found =
        solver.explore(&mut seen, &mut parents, &mut search, &mut next_search, toy(), &[]);
    assert_eq!(found, None);
    assert_eq!(seen.len(), 3);
    assert!(search.is_empty());
}

#[test]
fn explore_gives_each_word_to_the_first_frontier_word_linked_to_it() {
    let dictionary: &'static [&'static [u8]] = &[b"AB", b"BA", b"BB"];
    let solver = BFS2D::new(dictionary, false);
    let mut seen: Vec<&[u8]> = vec![b"AA", b"AB", b"BA"];
    let mut parents: Vec<usize> = vec![usize::MAX, 0, 0];
    let mut search: Vec<(&[u8], usize)> = vec![(b"AB", 1), (b"BA", 2)];
    let mut next_search: Vec<(&[u8], usize)> = vec![];
    let found =
        solver.explore(&mut seen, &mut parents, &mut search, &mut next_search, dictionary, &[]);
    assert_eq!(found, None);
    let expected_seen: Vec<&[u8]> = vec![b"AA", b"AB", b"BA", b"BB"];
    assert_eq!(seen, expected_seen);
    assert_eq!(parents, vec![usize::MAX, 0, 0, 1]);
}

#[test]
fn explore_without_tracking_adds_one_layer() {
    let solver = BFS2D::new(toy(), false);
    let mut seen: Vec<&[u8]> = vec![b"CARD"];
    let mut search: Vec<&[u8]> = vec![b"CARD"];
    let mut next_search: Vec<&[u8]> = vec![];
    solver.explore_without_tracking(&mut seen, &mut search, &mut next_search, toy());
    let layer: Vec<&[u8]> = vec![b"CORD", b"WARD"];
    let all: Vec<&[u8]> = vec![b"CARD", b"CORD", b"WARD"];
    assert_eq!(seen, all);
    assert_eq!(search, layer);
    assert!(next_search.is_empty());
    solver.explore_without_tracking(&mut seen, &mut search, &mut next_search, toy());
    let layer: Vec<&[u8]> = vec![b"COLD", b"WARM"];
    assert_eq!(search, layer);
    assert_eq!(seen.len(), 5);
    solver.explore_without_tracking(&mut seen, &mut search, &mut next_search, toy());
    assert!(search.is_empty());
    assert_eq!(seen.len(), 5);
}

#[test]
fn explore_without_tracking_passes_over_excluded_words() {
    let mut solver = BFS2D::new(toy(), false);
    solver.set_exceptions(&[b"CORD"]);
    let mut seen: Vec<&[u8]> = vec![b"CARD"];
    let mut search: Vec<&[u8]> = vec![b"CARD"];
    let mut next_search: Vec<&[u8]> = vec![];
    solver.explore_without_tracking(&mut seen, &mut search, &mut next_search, toy());
    let all: Vec<&[u8]> = vec![b"CARD", b"WARD"];
    assert_eq!(seen, all);
}

#[test]
fn untangle_solution_walks_back_to_the_root() {
    let solver = BFS2D::new(toy(), false);
    let seen: Vec<&[u8]> = vec![b"CARD", b"CORD", b"WARD", b"COLD", b"WARM"];
    let parents = vec![usize::MAX, 0, 0, 1, 2];
    assert_eq!(
        solver.untangle_solution(3, &seen, &parents),
        owned(&[b"CARD", b"CORD", b"COLD"])
    );
    assert_eq!(
        solver.untangle_solution(4, &seen, &parents),
        owned(&[b"CARD", b"WARD", b"WARM"])
    );
    assert_eq!(solver.untangle_solution(0, &seen, &parents), owned(&[b"CARD"]));
    assert_eq!(
        solver.untangle_solution(usize::MAX, &seen, &parents),
        Vec::<Vec<u8>>::new()
    );
}

#[test]
fn untangle_solution_2way_joins_the_halves() {
    let solver = BFS2D::new(toy(), false);
    let seen_front: Vec<&[u8]> = vec![b"COLD", b"CORD", b"CARD"];
    let parents_front = vec![usize::MAX, 0, 1];
    let seen_back: Vec<&[u8]> = vec![b"WARM", b"WARD", b"CARD"];
    let parents_back = vec![usize::MAX, 0, 1];
    let whole = owned(&[b"COLD", b"CORD", b"CARD", b"WARD", b"WARM"]);
    assert_eq!(
        solver.untangle_solution_2way(
            2,
            true,
            &seen_front,
            &parents_front,
            &seen_back,
            &parents_back,
        ),
        whole
    );
    assert_eq!(
        solver.untangle_solution_2way(
            2,
            false,
            &seen_front,
            &parents_front,
            &seen_back,
            &parents_back,
        ),
        whole
    );
}

#[test]
fn untangle_solution_2way_meeting_at_a_root() {
    let solver = BFS2D::new(toy(), false);
    let seen_front: Vec<&[u8]> = vec![b"COLD", b"CORD"];
    let parents_front = vec![usize::MAX, 0];
    let seen_back: Vec<&[u8]> = vec![b"CORD"];
    let parents_back = vec![usize::MAX];
    assert_eq!(
        solver.untangle_solution_2way(
            1,
            true,
            &seen_front,
            &parents_front,
            &seen_back,
            &parents_back,
        ),
        owned(&[b"COLD", b"CORD"])
    );
    assert_eq!(
        solver.untangle_solution_2way(
            0,
            false,
            &seen_front,
            &parents_front,
            &seen_back,
            &parents_back,
        ),
        owned(&[b"COLD", b"CORD"])
    );
}

#[test]
fn untangle_solution_2way_takes_the_first_occurrence() {
    let solver = BFS2D::new(toy(), false);
    let seen_front: Vec<&[u8]> = vec![b"COLD", b"CORD"];
    let parents_front = vec![usize::MAX, 0];
    let seen_back: Vec<&[u8]> = vec![b"CARD", b"CORD", b"WARD", b"CORD"];
    let parents_back = vec![usize::MAX, 0, 0, 2];
    assert_eq!(
        solver.untangle_solution_2way(
            1,
            true,
            &seen_front,
            &parents_front,
            &seen_back,
            &parents_back,
        ),
        owned(&[b"COLD", b"CORD", b"CARD"])
    );
}
