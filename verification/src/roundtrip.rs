//! What encoding and decoding guarantee together: decoding gives back what was
//! encoded, in whatever order the entries arrive.
use vstd::prelude::*;
use vstd::seq_lib::{
    to_multiset_build, to_multiset_contains, to_multiset_insert, to_multiset_len,
    to_multiset_remove,
};
use crate::codec::{
    as_chunk, assembled, bases, chunk, chunk_count, chunks_of, contents, decoded, encoded,
    insert_chunk, joined, lemma_chunk_bounds, lemma_chunks_of_empty, lemma_chunks_of_push,
    sort_chunks, Chunk,
};
use crate::key::{
    chunk_key, is_whole, key_base, key_index, lemma_split_chunk_key, lemma_whole_key, part_marker,
};
use crate::number::{decimal, lemma_decimal_value};

verus! {

/// True when the indices of `chunks` never decrease from one chunk to the next.
pub open spec fn ordered(chunks: Seq<Chunk>) -> bool {
    forall|i: int, j: int| 0 <= i <= j < chunks.len() ==> chunks[i].0 <= chunks[j].0
}

/// True when the indices of `chunks` grow from each chunk to the next.
pub open spec fn strictly_ordered(chunks: Seq<Chunk>) -> bool {
    forall|i: int, j: int| 0 <= i < j < chunks.len() ==> chunks[i].0 < chunks[j].0
}

/// The chunks of `content` cut into chunks of `size` bytes, each with its index.
pub open spec fn indexed_chunks(content: Seq<u8>, size: nat) -> Seq<Chunk> {
    Seq::new(chunk_count(content.len(), size), |i: int| (i as nat, chunk(content, size, i as nat)))
}

/// The position at which `insert_chunk` puts a chunk.
proof fn lemma_insert_position(sorted: Seq<Chunk>, chunk: Chunk) -> (at: int)
    ensures
        0 <= at <= sorted.len(),
        insert_chunk(sorted, chunk) == sorted.insert(at, chunk),
        forall|j: int| at <= j < sorted.len() ==> (#[trigger] sorted[j]).0 > chunk.0,
        at > 0 ==> sorted[at - 1].0 <= chunk.0,
    decreases sorted.len(),
{
    if sorted.len() > 0 && sorted.last().0 > chunk.0 {
        let rest = sorted.drop_last();
        let at = lemma_insert_position(rest, chunk);
        assert forall|j: int| at <= j < sorted.len() implies (#[trigger] sorted[j]).0 > chunk.0 by {
            if j < rest.len() {
                assert(rest[j] == sorted[j]);
            }
        }
        at
    } else {
        sorted.len() as int
    }
}

/// Sorting puts the chunks in ascending order of index and neither adds nor
/// loses a chunk.
pub proof fn lemma_sort_chunks(chunks: Seq<Chunk>)
    ensures
        ordered(sort_chunks(chunks)),
        sort_chunks(chunks).to_multiset() == chunks.to_multiset(),
        sort_chunks(chunks).len() == chunks.len(),
    decreases chunks.len(),
{
    if chunks.len() > 0 {
        let rest = chunks.drop_last();
        let last = chunks.last();
        let sorted = sort_chunks(rest);
        lemma_sort_chunks(rest);
        // The last chunk goes between the chunks of no greater and those of
        // greater index.
        let at = lemma_insert_position(sorted, last);
        to_multiset_insert(sorted, at, last);
        assert(chunks =~= rest.push(last));
        to_multiset_build(rest, last);
    }
}

/// Chunks with the same index leave the sort in the order in which they entered.
pub proof fn lemma_sort_chunks_stable(chunks: Seq<Chunk>, index: nat)
    ensures
        sort_chunks(chunks).filter(|c: Chunk| c.0 == index) == chunks.filter(
            |c: Chunk| c.0 == index,
        ),
    decreases chunks.len(),
{
    let same = |c: Chunk| c.0 == index;
    if chunks.len() > 0 {
        let rest = chunks.drop_last();
        let last = chunks.last();
        let sorted = sort_chunks(rest);
        lemma_sort_chunks_stable(rest, index);
        // Behind the place of the last chunk stand only chunks of greater index.
        let at = lemma_insert_position(sorted, last);
        let front = sorted.take(at);
        let back = sorted.skip(at);
        assert(sorted =~= front + back);
        Seq::filter_distributes_over_add(front, back, same);
        Seq::filter_distributes_over_add(front.push(last), back, same);
        front.lemma_filter_push(last, same);
        assert(chunks =~= rest.push(last));
        rest.lemma_filter_push(last, same);
        if last.0 == index {
            back.lemma_all_neg_filter_empty(same);
        }
    }
}

/// Two lists of chunks that hold the same chunks, one in ascending order and the
/// other with growing indices, are the same list.
pub proof fn lemma_ordered_unique(a: Seq<Chunk>, b: Seq<Chunk>)
    requires
        ordered(a),
        strictly_ordered(b),
        a.to_multiset() == b.to_multiset(),
    ensures
        a == b,
    decreases b.len(),
{
    to_multiset_len(a);
    to_multiset_len(b);
    if b.len() > 0 {
        // Each list ends in its chunk of greatest index, and each holds the last
        // chunk of the other: so both end in the same chunk, and what precedes
        // it holds the same chunks again.
        let last_a = a.last();
        let last_b = b.last();
        to_multiset_contains(a, last_b);
        to_multiset_contains(b, last_b);
        to_multiset_contains(a, last_a);
        to_multiset_contains(b, last_a);
        let rest_a = a.drop_last();
        let rest_b = b.drop_last();
        to_multiset_remove(a, a.len() - 1);
        to_multiset_remove(b, b.len() - 1);
        lemma_ordered_unique(rest_a, rest_b);
        assert(b =~= rest_b.push(last_b));
    }
}

/// Lists that hold the same items still do after each item is mapped.
pub proof fn lemma_map_same_items<A, B>(a: Seq<A>, b: Seq<A>, f: spec_fn(A) -> B)
    requires
        a.to_multiset() == b.to_multiset(),
    ensures
        a.map_values(f).to_multiset() == b.map_values(f).to_multiset(),
    decreases a.len(),
{
    to_multiset_len(a);
    to_multiset_len(b);
    if a.len() == 0 {
        assert(a.map_values(f) =~= b.map_values(f));
    } else {
        // Take the last item out of `a` and the same item out of `b`.
        let last = a.last();
        let rest_a = a.drop_last();
        to_multiset_contains(a, last);
        to_multiset_contains(b, last);
        let j = choose|j: int| 0 <= j < b.len() && b[j] == last;
        let rest_b = b.remove(j);
        to_multiset_remove(a, a.len() - 1);
        to_multiset_remove(b, j);
        lemma_map_same_items(rest_a, rest_b, f);
        assert(a.map_values(f) =~= rest_a.map_values(f).push(f(last)));
        assert(b.map_values(f) =~= rest_b.map_values(f).insert(j, f(last)));
        to_multiset_build(rest_a.map_values(f), f(last));
        to_multiset_insert(rest_b.map_values(f), j, f(last));
    }
}

/// Where every entry belongs to one base key, that key is the only one listed and
/// every entry is one of its chunks.
pub proof fn lemma_single_group(entries: Seq<(Seq<char>, Seq<u8>)>, base: Seq<char>)
    requires
        forall|i: int| 0 <= i < entries.len() ==> key_base(#[trigger] entries[i].0) == base,
    ensures
        chunks_of(entries, base) == entries.map_values(as_chunk()),
        entries.len() > 0 ==> bases(entries) == seq![base],
    decreases entries.len(),
{
    if entries.len() == 0 {
        lemma_chunks_of_empty(base);
    } else {
        let rest = entries.drop_last();
        let last = entries.last();
        lemma_single_group(rest, base);
        assert(entries =~= rest.push(last));
        lemma_chunks_of_push(rest, last, base);
        if rest.len() == 0 {
            assert(bases(rest) =~= Seq::<Seq<char>>::empty());
        } else {
            assert(bases(rest)[0] == base);
        }
    }
}

/// The first `count` chunks of a content, joined, are its first bytes.
proof fn lemma_joined_prefix(content: Seq<u8>, size: nat, count: nat)
    requires
        size >= 1,
        count <= chunk_count(content.len(), size),
    ensures
        joined(indexed_chunks(content, size).take(count as int)) == content.take(
            if count * size <= content.len() {
                (count * size) as int
            } else {
                content.len() as int
            },
        ),
    decreases count,
{
    let all = indexed_chunks(content, size);
    let values = |c: Chunk| c.1;
    if count == 0 {
        assert(0 * size == 0) by (nonlinear_arith);
    } else {
        let before = (count - 1) as nat;
        lemma_joined_prefix(content, size, before);
        lemma_chunk_bounds(content.len(), size, before);
        assert(all.take(count as int).map_values(values) =~= all.take(before as int).map_values(
            values,
        ).push(all[before as int].1));
        all.take(before as int).map_values(values).lemma_flatten_push(all[before as int].1);
    }
}

/// Byte-exactness: the chunks of a content, joined in order, are the content.
pub proof fn lemma_joined_chunks(content: Seq<u8>, size: nat)
    requires
        size >= 1,
    ensures
        joined(indexed_chunks(content, size)) == content,
{
    let count = chunk_count(content.len(), size);
    let all = indexed_chunks(content, size);
    lemma_joined_prefix(content, size, count);
    assert(all.take(count as int) =~= all);
    if count > 0 {
        lemma_chunk_bounds(content.len(), size, (count - 1) as nat);
    } else {
        assert(content.len() == 0) by (nonlinear_arith)
            requires
                size >= 1,
                (content.len() + size - 1) / (size as int) == 0,
        ;
    }
}

/// The shape of what encoding gives. No value is over the bound. Content that
/// fits is one entry under the base key itself. Longer content is as many entries
/// as it fills chunks, entry `i` under the chunk key of the base key and `i`. In
/// both cases the values, joined in order, are the content.
pub proof fn lemma_encoded_shape(content: Seq<u8>, base: Seq<char>, size: nat)
    requires
        size >= 1,
    ensures
        forall|i: int|
            0 <= i < encoded(content, base, size).len() ==> (#[trigger] encoded(
                content,
                base,
                size,
            )[i]).1.len() <= size,
        content.len() <= size ==> encoded(content, base, size) == seq![(base, content)],
        content.len() > size ==> encoded(content, base, size).len() == chunk_count(
            content.len(),
            size,
        ),
        content.len() > size ==> forall|i: int|
            0 <= i < encoded(content, base, size).len() ==> (#[trigger] encoded(
                content,
                base,
                size,
            )[i]).0 == chunk_key(base, i as nat),
        encoded(content, base, size).map_values(|e: (Seq<char>, Seq<u8>)| e.1).flatten()
            == content,
{
    let all = encoded(content, base, size);
    let values = all.map_values(|e: (Seq<char>, Seq<u8>)| e.1);
    if content.len() <= size {
        values.lemma_flatten_singleton();
    } else {
        assert forall|i: int| 0 <= i < all.len() implies (#[trigger] all[i]).1.len() <= size by {
            lemma_chunk_bounds(content.len(), size, i as nat);
        }
        lemma_joined_chunks(content, size);
        assert(values =~= indexed_chunks(content, size).map_values(|c: Chunk| c.1));
    }
}

/// Chunks of one value never share a key: chunk keys of one base key with
/// different indices differ.
pub proof fn lemma_chunk_keys_differ(base: Seq<char>, i: nat, j: nat)
    requires
        i != j,
    ensures
        chunk_key(base, i) != chunk_key(base, j),
{
    if chunk_key(base, i) == chunk_key(base, j) {
        let lead = base + part_marker();
        assert(chunk_key(base, i).skip(lead.len() as int) =~= decimal(i));
        assert(chunk_key(base, j).skip(lead.len() as int) =~= decimal(j));
        lemma_decimal_value(i);
        lemma_decimal_value(j);
    }
}

/// No two entries that encoding gives have the same key.
pub proof fn lemma_encoded_keys_differ(content: Seq<u8>, base: Seq<char>, size: nat)
    requires
        size >= 1,
    ensures
        forall|i: int, j: int|
            0 <= i < j < encoded(content, base, size).len() ==> encoded(content, base, size)[i].0
                != encoded(content, base, size)[j].0,
{
    let all = encoded(content, base, size);
    assert forall|i: int, j: int| 0 <= i < j < all.len() implies all[i].0 != all[j].0 by {
        lemma_chunk_keys_differ(base, i as nat, j as nat);
    }
}

/// Decoding gives back what was encoded, whatever the order of the entries:
/// any list that holds exactly the entries that encoding gave decodes to the
/// base key with the content. The content has at most `usize::MAX` bytes, so
/// that every chunk index can be read back. Content that fits in one chunk is
/// stored under the base key itself, so there the base key must denote a whole
/// value; a base key that itself ends in a marker and an index would be read as
/// a chunk of another key.
pub proof fn lemma_decode_shuffled(
    content: Seq<u8>,
    base: Seq<char>,
    size: nat,
    shuffled: Seq<(Seq<char>, Seq<u8>)>,
)
    requires
        size >= 1,
        content.len() <= usize::MAX,
        content.len() > size || is_whole(base),
        shuffled.to_multiset() == encoded(content, base, size).to_multiset(),
    ensures
        decoded(shuffled) == seq![(base, content)],
{
    let all = encoded(content, base, size);
    let target = all.map_values(as_chunk());
    // What the encoder gave: one group, with growing indices, that joins to the content.
    if content.len() <= size {
        lemma_whole_key(base);
        let values = target.map_values(|c: Chunk| c.1);
        values.lemma_flatten_singleton();
    } else {
        let count = chunk_count(content.len(), size);
        assert(count <= content.len()) by (nonlinear_arith)
            requires
                size >= 1,
                count == (content.len() + size - 1) / (size as int),
        ;
        assert forall|i: int| 0 <= i < all.len() implies key_base(#[trigger] all[i].0) == base
            && key_index(all[i].0) == i by {
            lemma_split_chunk_key(base, i as nat);
        }
        assert(target =~= indexed_chunks(content, size));
        lemma_joined_chunks(content, size);
    }
    // The shuffled list holds the same entries.
    to_multiset_len(shuffled);
    to_multiset_len(all);
    assert forall|i: int| 0 <= i < shuffled.len() implies key_base(#[trigger] shuffled[i].0)
        == base by {
        to_multiset_contains(shuffled, shuffled[i]);
        to_multiset_contains(all, shuffled[i]);
    }
    lemma_single_group(shuffled, base);
    let given = shuffled.map_values(as_chunk());
    lemma_map_same_items(shuffled, all, as_chunk());
    lemma_sort_chunks(given);
    lemma_ordered_unique(sort_chunks(given), target);
}

/// A key that does not end in a marker and an index is never split: an entry
/// under such a key, alone, decodes to itself.
pub proof fn lemma_whole_entry(key: Seq<char>, value: Seq<u8>)
    requires
        is_whole(key),
    ensures
        decoded(seq![(key, value)]) == seq![(key, value)],
{
    let entries = seq![(key, value)];
    lemma_whole_key(key);
    lemma_single_group(entries, key);
    let chunks = entries.map_values(as_chunk());
    assert(sort_chunks(chunks.drop_last()) == chunks.drop_last());
    assert(sort_chunks(chunks) =~= chunks);
    let values = chunks.map_values(|c: Chunk| c.1);
    values.lemma_flatten_singleton();
}

/// Decoding what encoding gave returns the base key with the content.
pub proof fn lemma_round_trip(content: Seq<u8>, base: Seq<char>, size: nat)
    requires
        size >= 1,
        content.len() <= usize::MAX,
        content.len() > size || is_whole(base),
    ensures
        decoded(encoded(content, base, size)) == seq![(base, content)],
{
    lemma_decode_shuffled(content, base, size, encoded(content, base, size));
}

} // verus!
