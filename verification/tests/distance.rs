use word_ladder::solver::distance;

#[test]
fn distance_of_equal_words_is_zero() {
    assert_eq!(distance(b"COLD", b"COLD"), 0);
    assert_eq!(distance(b"", b""), 0);
}

#[test]
fn distance_of_one_changed_letter_is_one() {
    assert_eq!(distance(b"COLD", b"CORD"), 1);
    assert_eq!(distance(b"COLD", b"BOLD"), 1);
    assert_eq!(distance(b"COLD", b"COLT"), 1);
    assert_eq!(distance(b"A", b"B"), 1);
}

#[test]
fn distance_stops_counting_at_two() {
    assert_eq!(distance(b"COLD", b"CARD"), 2);
    assert_eq!(distance(b"COLD", b"WARM"), 2);
    assert_eq!(distance(b"AAAAAAAA", b"BBBBBBBB"), 2);
}

#[test]
fn distance_has_no_direction() {
    let words: [&[u8]; 5] = [b"COLD", b"CORD", b"CARD", b"WARD", b"WARM"];
    for a in words {
        for b in words {
            assert_eq!(distance(a, b), distance(b, a));
        }
    }
}

#[test]
fn distance_compares_bytes_not_letters() {
    assert_eq!(distance(&[0u8, 255, 7], &[0u8, 254, 7]), 1);
    assert_eq!(distance(b"cold", b"COLD"), 2);
}
