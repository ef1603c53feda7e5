//! Chunk keys: the reserved suffix that tags one chunk of a value with its index.
use vstd::prelude::*;
use vstd::string::*;
use crate::number::{
    decimal, decimal_chars, lemma_decimal_digits, lemma_parse_decimal, parse_chars, parse_index,
};
use crate::text::{chars_of, string_of, string_of_range};

verus! {

/// The text between a base key and a chunk index.
pub open spec fn part_marker() -> Seq<char> {
    seq!['.', 'p', 'a', 'r', 't']
}

/// The key of chunk `index` of the value stored under `base`.
pub open spec fn chunk_key(base: Seq<char>, index: nat) -> Seq<char> {
    base + part_marker() + decimal(index)
}

/// True when the marker stands in `key` at position `at`.
pub open spec fn marker_at(key: Seq<char>, at: int) -> bool {
    0 <= at && at + 5 <= key.len() && key.subrange(at, at + 5) == part_marker()
}

/// The greatest position below `limit` at which the marker stands in `key`, or -1.
pub open spec fn last_marker_before(key: Seq<char>, limit: int) -> int
    decreases limit,
{
    if limit <= 0 {
        -1
    } else if marker_at(key, limit - 1) {
        limit - 1
    } else {
        last_marker_before(key, limit - 1)
    }
}

/// The position of the last marker in `key`, or -1 when it holds none.
pub open spec fn last_marker(key: Seq<char>) -> int {
    last_marker_before(key, key.len() as int)
}

/// The base key and the chunk index that `key` denotes. Where `key` ends in the
/// marker followed by an index, they are what precedes the marker and that index.
/// Any other key, also one whose last marker is followed by something that is no
/// index, denotes itself with index 0.
pub open spec fn split(key: Seq<char>) -> (Seq<char>, nat) {
    let at = last_marker(key);
    if at < 0 {
        (key, 0)
    } else {
        match parse_index(key.skip(at + 5)) {
            Some(index) => (key.take(at), index),
            None => (key, 0),
        }
    }
}

/// The base key that `key` belongs to.
pub open spec fn key_base(key: Seq<char>) -> Seq<char> {
    split(key).0
}

/// The chunk index that `key` carries; 0 for a key without one.
pub open spec fn key_index(key: Seq<char>) -> nat {
    split(key).1
}

/// True when `key` denotes a whole value: it does not end in a marker and an index.
pub open spec fn is_whole(key: Seq<char>) -> bool {
    last_marker(key) < 0 || parse_index(key.skip(last_marker(key) + 5)) is None
}

/// `last_marker_before` is the greatest marker position below the limit.
pub proof fn lemma_last_marker_before(key: Seq<char>, limit: int)
    ensures
        -1 <= last_marker_before(key, limit),
        last_marker_before(key, limit) < limit || limit <= 0,
        last_marker_before(key, limit) >= 0 ==> marker_at(key, last_marker_before(key, limit)),
        forall|j: int| last_marker_before(key, limit) < j < limit ==> !marker_at(key, j),
    decreases limit,
{
    if limit > 0 && !marker_at(key, limit - 1) {
        lemma_last_marker_before(key, limit - 1);
    }
}

/// The last marker of a key, when it has one, is a marker position, lies within
/// the key, and no marker stands after it.
pub proof fn lemma_last_marker(key: Seq<char>)
    ensures
        -1 <= last_marker(key),
        last_marker(key) >= 0 ==> marker_at(key, last_marker(key)),
        forall|j: int| last_marker(key) < j ==> !marker_at(key, j),
{
    lemma_last_marker_before(key, key.len() as int);
}

/// A whole key denotes itself with index 0, and only a whole key is its own base.
pub proof fn lemma_whole_key(key: Seq<char>)
    ensures
        is_whole(key) <==> key_base(key) == key,
        is_whole(key) ==> key_index(key) == 0,
{
    lemma_last_marker(key);
}

/// A chunk key denotes the base and the index it was made from, whatever the base.
pub proof fn lemma_split_chunk_key(base: Seq<char>, index: nat)
    requires
        index <= usize::MAX,
    ensures
        split(chunk_key(base, index)) == (base, index),
{
    let key = chunk_key(base, index);
    let at = base.len() as int;
    lemma_decimal_digits(index);
    assert(key.subrange(at, at + 5) =~= part_marker());
    assert(marker_at(key, at));
    lemma_last_marker(key);
    assert(last_marker(key) == at);
    assert(key.skip(at + 5) =~= decimal(index));
    lemma_parse_decimal(index);
}

/// The key of chunk `index` of the value stored under `base`.
pub fn chunk_key_string(base: &str, index: usize) -> (key: String)
    ensures
        key@ == chunk_key(base@, index as nat),
{
    let mut key = String::from_str(base);
    proof {
        reveal_strlit(".part");
    }
    key.append(".part");
    let digits = decimal_chars(index);
    let text = string_of(&digits);
    key.append(text.as_str());
    key
}

/// True when the marker stands in `chars` at position `at`.
fn has_marker_at(chars: &Vec<char>, at: usize) -> (yes: bool)
    requires
        at + 5 <= chars.len(),
    ensures
        yes == marker_at(chars@, at as int),
{
    let yes = chars[at] == '.' && chars[at + 1] == 'p' && chars[at + 2] == 'a' && chars[at + 3]
        == 'r' && chars[at + 4] == 't';
    proof {
        let window = chars@.subrange(at as int, at + 5);
        if yes {
            assert(window =~= part_marker());
        }
    }
    yes
}

/// The position of the last marker in `chars`, if it holds one.
fn find_last_marker(chars: &Vec<char>) -> (found: Option<usize>)
    ensures
        match found {
            Some(at) => last_marker(chars@) == at,
            None => last_marker(chars@) == -1,
        },
{
    if chars.len() < 5 {
        proof {
            lemma_last_marker(chars@);
        }
        return None;
    }
    let mut limit: usize = chars.len() - 4;
    proof {
        lemma_last_marker(chars@);
        lemma_last_marker_before(chars@, limit as int);
    }
    while limit > 0
        invariant
            limit + 4 <= chars.len(),
            last_marker(chars@) == last_marker_before(chars@, limit as int),
        decreases limit,
    {
        if has_marker_at(chars, limit - 1) {
            return Some(limit - 1);
        }
        limit = limit - 1;
    }
    None
}

/// The base key and the chunk index that `key` denotes.
pub fn split_key(key: &str) -> (parts: (String, usize))
    ensures
        parts.0@ == key_base(key@),
        parts.1 == key_index(key@),
{
    let chars = chars_of(key);
    proof {
        lemma_last_marker(chars@);
    }
    match find_last_marker(&chars) {
        Some(at) => match parse_chars(&chars, at + 5) {
            Some(index) => (string_of_range(&chars, 0, at), index),
            None => (String::from_str(key), 0),
        },
        None => (String::from_str(key), 0),
    }
}

} // verus!
