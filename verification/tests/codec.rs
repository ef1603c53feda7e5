use ssm_fs::codec::{decode, encode, CHUNK_SIZE};

fn entry(key: &str, value: &[u8]) -> (String, Vec<u8>) {
    (key.to_string(), value.to_vec())
}

fn sample(len: usize) -> Vec<u8> {
    (0..len).map(|i| (i * 7 % 251) as u8).collect()
}

#[test]
fn default_chunk_size_is_4096() {
    assert_eq!(CHUNK_SIZE, 4096);
}

#[test]
fn content_that_fits_is_one_entry_under_the_base_key() {
    let entries = encode(b"hello", "k", 5);
    assert_eq!(entries, vec![entry("k", b"hello")]);
    let entries = encode(b"hello", "k", 4096);
    assert_eq!(entries, vec![entry("k", b"hello")]);
}

#[test]
fn empty_content_is_one_empty_entry() {
    let entries = encode(b"", "k", 1);
    assert_eq!(entries, vec![entry("k", b"")]);
    assert_eq!(decode(&entries), vec![entry("k", b"")]);
}

#[test]
fn longer_content_is_cut_into_numbered_chunks() {
    let entries = encode(b"abcdefghij", "k", 4);
    assert_eq!(
        entries,
        vec![entry("k.part0", b"abcd"), entry("k.part1", b"efgh"), entry("k.part2", b"ij")]
    );
}

#[test]
fn content_of_a_whole_number_of_chunks_has_no_empty_chunk() {
    let entries = encode(b"abcdefgh", "dir/file", 4);
    assert_eq!(entries, vec![entry("dir/file.part0", b"abcd"), entry("dir/file.part1", b"efgh")]);
}

#[test]
fn chunk_size_one_gives_one_entry_per_byte() {
    let entries = encode(b"abc", "k", 1);
    assert_eq!(entries, vec![entry("k.part0", b"a"), entry("k.part1", b"b"), entry("k.part2", b"c")]);
}

#[test]
fn chunk_count_is_the_ceiling_of_length_over_size() {
    for (len, size, count) in [(10usize, 3usize, 4usize), (9, 3, 3), (4097, 4096, 2), (12288, 4096, 3), (12289, 4096, 4)] {
        assert_eq!(encode(&sample(len), "k", size).len(), count);
    }
}

#[test]
fn no_value_exceeds_the_chunk_size() {
    for size in [1usize, 2, 3, 7, 64, 4096] {
        for len in [0usize, 1, 2, 63, 64, 65, 5000] {
            let content = sample(len);
            for (_, value) in encode(&content, "k", size) {
                assert!(value.len() <= size);
            }
        }
    }
}

#[test]
fn values_joined_in_order_are_the_content() {
    let content = sample(10_000);
    let entries = encode(&content, "k", 4096);
    let mut joined = Vec::new();
    for (_, value) in &entries {
        joined.extend_from_slice(value);
    }
    assert_eq!(joined, content);
}

#[test]
fn decode_gives_back_what_encode_took() {
    for size in [1usize, 2, 5, 4096] {
        for len in [0usize, 1, 4, 5, 6, 11, 9000] {
            let content = sample(len);
            let entries = encode(&content, "k", size);
            assert_eq!(decode(&entries), vec![("k".to_string(), content)]);
        }
    }
}

#[test]
fn decode_sorts_chunks_by_index_whatever_their_order() {
    let content = sample(23);
    let mut entries = encode(&content, "k", 2);
    assert_eq!(entries.len(), 12);
    entries.reverse();
    assert_eq!(decode(&entries), vec![("k".to_string(), content.clone())]);
    entries.swap(0, 7);
    entries.swap(3, 10);
    entries.rotate_left(5);
    assert_eq!(decode(&entries), vec![("k".to_string(), content)]);
}

#[test]
fn chunk_ten_comes_after_chunk_nine() {
    let entries = vec![entry("k.part10", b"K"), entry("k.part9", b"J"), entry("k.part2", b"C")];
    assert_eq!(decode(&entries), vec![entry("k", b"CJK")]);
}

#[test]
fn a_suffix_that_is_no_number_is_not_split() {
    let entries = vec![entry("x.partY", b"v")];
    assert_eq!(decode(&entries), vec![entry("x.partY", b"v")]);
}

#[test]
fn a_marker_without_digits_is_not_split() {
    let entries = vec![entry("x.part", b"v"), entry("y.part-1", b"w"), entry("z.part 1", b"u")];
    assert_eq!(
        decode(&entries),
        vec![entry("x.part", b"v"), entry("y.part-1", b"w"), entry("z.part 1", b"u")]
    );
}

#[test]
fn only_the_last_marker_counts() {
    let entries = vec![entry("a.part1.partX", b"v"), entry("a.part1.part2", b"w")];
    assert_eq!(decode(&entries), vec![entry("a.part1.partX", b"v"), entry("a.part1", b"w")]);
}

#[test]
fn an_index_too_large_is_not_split() {
    let key = "x.part340282366920938463463374607431768211456";
    let entries = vec![entry(key, b"v")];
    assert_eq!(decode(&entries), vec![entry(key, b"v")]);
}

#[test]
fn a_plus_sign_and_leading_zeros_are_read() {
    let entries = vec![entry("x.part+2", b"c"), entry("x.part001", b"b"), entry("x.part0", b"a")];
    assert_eq!(decode(&entries), vec![entry("x", b"abc")]);
}

#[test]
fn a_whole_key_and_chunk_zero_share_a_group() {
    let entries = vec![entry("x", b"a"), entry("x.part1", b"c"), entry("x.part0", b"b")];
    assert_eq!(decode(&entries), vec![entry("x", b"abc")]);
}

#[test]
fn chunks_with_the_same_index_are_kept_in_order() {
    let entries = vec![entry("x.part1", b"1a"), entry("x.part0", b"0"), entry("x.part1", b"1b")];
    assert_eq!(decode(&entries), vec![entry("x", b"01a1b")]);
}

#[test]
fn groups_come_in_the_order_of_their_first_entry() {
    let entries = vec![
        entry("b.part1", b"2"),
        entry("a", b"x"),
        entry("b.part0", b"1"),
        entry("c/d.part0", b"y"),
    ];
    assert_eq!(decode(&entries), vec![entry("b", b"12"), entry("a", b"x"), entry("c/d", b"y")]);
}

#[test]
fn no_entries_decode_to_no_files() {
    assert_eq!(decode(&Vec::new()), Vec::new());
}

#[test]
fn a_base_key_with_a_marker_round_trips_when_chunked() {
    let content = sample(9);
    let entries = encode(&content, "x.part3", 4);
    assert_eq!(entries[0].0, "x.part3.part0");
    assert_eq!(decode(&entries), vec![("x.part3".to_string(), content)]);
}

#[test]
fn binary_content_round_trips() {
    let content: Vec<u8> = (0..=255u8).cycle().take(700).collect();
    let entries = encode(&content, "bin", 256);
    assert_eq!(entries.len(), 3);
    assert_eq!(decode(&entries), vec![("bin".to_string(), content)]);
}
