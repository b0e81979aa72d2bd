//! Words as byte strings, and the few operations the search needs on them.

use vstd::prelude::*;
use vstd::slice::slice_to_vec;

verus! {

/// The words behind a list of borrowed byte strings.
pub open spec fn slice_words(list: Seq<&[u8]>) -> Seq<Seq<u8>> {
    list.map_values(|w: &[u8]| w@)
}

/// The words behind a list of owned byte strings.
pub open spec fn owned_words(list: Seq<Vec<u8>>) -> Seq<Seq<u8>> {
    list.map_values(|w: Vec<u8>| w@)
}

/// Appending a byte string appends its word.
pub proof fn lemma_slice_words_push(list: Seq<&[u8]>, w: &[u8])
    ensures
        slice_words(list.push(w)) == slice_words(list).push(w@),
{
    assert(slice_words(list.push(w)) =~= slice_words(list).push(w@));
}

/// Appending an owned byte string appends its word.
pub proof fn lemma_owned_words_push(list: Seq<Vec<u8>>, w: Vec<u8>)
    ensures
        owned_words(list.push(w)) == owned_words(list).push(w@),
{
    assert(owned_words(list.push(w)) =~= owned_words(list).push(w@));
}

/// Whether two byte strings hold the same word.
pub fn same_word(a: &[u8], b: &[u8]) -> (same: bool)
    ensures
        same == (a@ == b@),
{
    if a.len() != b.len() {
        return false;
    }
    let mut i: usize = 0;
    while i < a.len()
        invariant
            i <= a@.len(),
            a@.len() == b@.len(),
            forall|k: int| 0 <= k < i ==> a@[k] == b@[k],
        decreases a@.len() - i,
    {
        if a[i] != b[i] {
            return false;
        }
        i += 1;
    }
    assert(a@ =~= b@);
    true
}

/// Whether `list` holds the word `w`, compared byte by byte.
pub fn contains_word(list: &[&[u8]], w: &[u8]) -> (found: bool)
    ensures
        found == slice_words(list@).contains(w@),
{
    let mut i: usize = 0;
    while i < list.len()
        invariant
            i <= list@.len(),
            forall|k: int| 0 <= k < i ==> slice_words(list@)[k] != w@,
        decreases list@.len() - i,
    {
        if same_word(list[i], w) {
            assert(slice_words(list@)[i as int] == w@);
            return true;
        }
        i += 1;
    }
    false
}

/// The position of the first occurrence of `w` in `list`.
pub open spec fn first_position(list: Seq<Seq<u8>>, w: Seq<u8>) -> int {
    choose|i: int| 0 <= i < list.len() && list[i] == w && forall|k: int| 0 <= k < i ==> list[k] != w
}

/// The first occurrence is the one with no occurrence before it.
pub proof fn lemma_first_position(list: Seq<Seq<u8>>, w: Seq<u8>, at: int)
    requires
        0 <= at < list.len(),
        list[at] == w,
        forall|k: int| 0 <= k < at ==> list[k] != w,
    ensures
        first_position(list, w) == at,
{
    let chosen = first_position(list, w);
    assert(0 <= chosen < list.len() && list[chosen] == w && forall|k: int|
        0 <= k < chosen ==> list[k] != w);
}

/// The position of the first occurrence of `w` in `list`, if it occurs.
pub fn position_of_word(list: &[&[u8]], w: &[u8]) -> (at: Option<usize>)
    ensures
        at is Some <==> slice_words(list@).contains(w@),
        at matches Some(i) ==> i == first_position(slice_words(list@), w@) && i < list@.len()
            && slice_words(list@)[i as int] == w@,
{
    let mut i: usize = 0;
    while i < list.len()
        invariant
            i <= list@.len(),
            forall|k: int| 0 <= k < i ==> slice_words(list@)[k] != w@,
        decreases list@.len() - i,
    {
        if same_word(list[i], w) {
            proof {
                assert(slice_words(list@)[i as int] == w@);
                lemma_first_position(slice_words(list@), w@, i as int);
            }
            return Some(i);
        }
        i += 1;
    }
    None
}

/// A byte in upper case: the small ASCII letters become capitals, every
/// other byte stays.
pub open spec fn upper_byte(b: u8) -> u8 {
    if 97 <= b <= 122 {
        (b - 32) as u8
    } else {
        b
    }
}

/// A text in upper case, byte by byte.
pub open spec fn upper(text: Seq<u8>) -> Seq<u8> {
    text.map_values(|b: u8| upper_byte(b))
}

/// An owned copy of `text` in upper case.
pub fn to_upper(text: &[u8]) -> (copy: Vec<u8>)
    ensures
        copy@ == upper(text@),
{
    let mut copy: Vec<u8> = Vec::new();
    let mut i: usize = 0;
    while i < text.len()
        invariant
            i <= text@.len(),
            copy@ == upper(text@.take(i as int)),
        decreases text@.len() - i,
    {
        let b: u8 = text[i];
        let c: u8 = if 97 <= b && b <= 122 {
            b - 32
        } else {
            b
        };
        copy.push(c);
        proof {
            assert(text@.take(i as int + 1) =~= text@.take(i as int).push(b));
            assert(copy@ =~= upper(text@.take(i as int + 1)));
        }
        i += 1;
    }
    proof {
        assert(text@.take(text@.len() as int) =~= text@);
    }
    copy
}

/// An owned copy of a word.
pub fn copy_word(w: &[u8]) -> (copy: Vec<u8>)
    ensures
        copy@ == w@,
{
    slice_to_vec(w)
}

} // verus!
