//! The chunked blob codec: a byte sequence of any size as entries of bounded
//! size, and back.
use vstd::prelude::*;
use vstd::slice::{slice_subrange, slice_to_vec};
use vstd::string::*;
use crate::key::{chunk_key, chunk_key_string, key_base, key_index, split_key};
use crate::models::{lemma_views_push, views};
use crate::roundtrip::lemma_encoded_shape;

verus! {

/// The largest value, in bytes, that is stored under one key unless a caller
/// asks for another bound.
pub const CHUNK_SIZE: usize = 4096;

/// The number of chunks of at most `size` bytes that `len` bytes fill.
pub open spec fn chunk_count(len: nat, size: nat) -> nat
    recommends
        size >= 1,
{
    ((len + size - 1) / (size as int)) as nat
}

/// Chunk `i` of `content` cut into chunks of `size` bytes: the last one may be shorter.
pub open spec fn chunk(content: Seq<u8>, size: nat, i: nat) -> Seq<u8>
    recommends
        size >= 1,
        i * size < content.len(),
{
    content.subrange(
        (i * size) as int,
        if (i + 1) * size <= content.len() {
            ((i + 1) * size) as int
        } else {
            content.len() as int
        },
    )
}

/// The entries that store `content` under `base` with values of at most `size`
/// bytes. Content that fits is one entry under `base` itself. Longer content is
/// cut into consecutive chunks, chunk `i` under the chunk key of `base` and `i`.
pub open spec fn encoded(content: Seq<u8>, base: Seq<char>, size: nat) -> Seq<
    (Seq<char>, Seq<u8>),
>
    recommends
        size >= 1,
{
    if content.len() <= size {
        seq![(base, content)]
    } else {
        Seq::new(
            chunk_count(content.len(), size),
            |i: int| (chunk_key(base, i as nat), chunk(content, size, i as nat)),
        )
    }
}

/// Where chunk `i` starts and ends, and that it is neither empty nor over the bound.
pub proof fn lemma_chunk_bounds(len: nat, size: nat, i: nat)
    requires
        size >= 1,
        i < chunk_count(len, size),
    ensures
        i * size < len,
        (i + 1) * size == i * size + size,
        (i + 1) * size >= len <==> i + 1 == chunk_count(len, size),
{
    let n = chunk_count(len, size);
    assert((i + 1) * size == i * size + size) by (nonlinear_arith);
    assert(i * size < len && ((i + 1) * size >= len <==> i + 1 == n)) by (nonlinear_arith)
        requires
            size >= 1,
            i < n,
            n == (len + size - 1) / (size as int),
    ;
}

/// The number of chunks, computed without overflow.
pub proof fn lemma_chunk_count(len: nat, size: nat)
    requires
        size >= 1,
        len >= 1,
    ensures
        chunk_count(len, size) == (len - 1) / (size as int) + 1,
        chunk_count(len, size) <= len,
{
    assert((len + size - 1) / (size as int) == (len - 1) / (size as int) + 1 && (len - 1) / (
    size as int) + 1 <= len) by (nonlinear_arith)
        requires
            size >= 1,
            len >= 1,
    ;
}

/// Stores `content` under `base_key` as entries whose values hold at most
/// `chunk_size` bytes each. Content that fits is stored whole under the base key.
/// Longer content is cut into chunks of `chunk_size` bytes, the last one perhaps
/// shorter, chunk `i` under the chunk key of the base key and `i`.
pub fn encode(content: &[u8], base_key: &str, chunk_size: usize) -> (entries: Vec<
    (String, Vec<u8>),
>)
    requires
        chunk_size >= 1,
    ensures
        views(entries@) == encoded(content@, base_key@, chunk_size as nat),
        forall|i: int| 0 <= i < entries.len() ==> (#[trigger] entries[i]).1.len() <= chunk_size,
        content.len() <= chunk_size ==> entries.len() == 1 && entries[0].0@ == base_key@
            && entries[0].1@ == content@,
        content.len() > chunk_size ==> entries.len() == chunk_count(
            content@.len(),
            chunk_size as nat,
        ),
        content.len() > chunk_size ==> forall|i: int|
            0 <= i < entries.len() ==> (#[trigger] entries[i]).0@ == chunk_key(
                base_key@,
                i as nat,
            ),
{
    proof {
        lemma_encoded_shape(content@, base_key@, chunk_size as nat);
    }
    let len = content.len();
    let mut entries: Vec<(String, Vec<u8>)> = Vec::new();
    if len <= chunk_size {
        entries.push((String::from_str(base_key), slice_to_vec(content)));
        assert(views(entries@) =~= encoded(content@, base_key@, chunk_size as nat));
        return entries;
    }
    proof {
        lemma_chunk_count(len as nat, chunk_size as nat);
    }
    let count: usize = (len - 1) / chunk_size + 1;
    let ghost all = encoded(content@, base_key@, chunk_size as nat);
    let mut i: usize = 0;
    while i < count
        invariant
            chunk_size >= 1,
            len == content@.len(),
            len > chunk_size,
            count == chunk_count(len as nat, chunk_size as nat),
            i <= count,
            all == encoded(content@, base_key@, chunk_size as nat),
            views(entries@) == all.take(i as int),
        decreases count - i,
    {
        proof {
            lemma_chunk_bounds(len as nat, chunk_size as nat, i as nat);
        }
        let start: usize = i * chunk_size;
        let end: usize = if len - start > chunk_size {
            start + chunk_size
        } else {
            len
        };
        let value = slice_to_vec(slice_subrange(content, start, end));
        let entry = (chunk_key_string(base_key, i), value);
        proof {
            lemma_views_push(entries@, entry);
        }
        entries.push(entry);
        i = i + 1;
    }
    assert forall|i: int| 0 <= i < entries.len() implies (#[trigger] entries[i]).1.len()
        <= chunk_size && entries[i].0@ == chunk_key(base_key@, i as nat) by {
        assert(views(entries@)[i] == (entries[i].0@, entries[i].1@));
    }
    entries
}

/// One chunk as the decoder sees it: its index and its bytes.
pub type Chunk = (nat, Seq<u8>);

/// Selects the entries whose key belongs to `base`.
pub open spec fn in_group(base: Seq<char>) -> spec_fn((Seq<char>, Seq<u8>)) -> bool {
    |entry: (Seq<char>, Seq<u8>)| key_base(entry.0) == base
}

/// Reads an entry as a chunk: the index that its key carries, and its value.
pub open spec fn as_chunk() -> spec_fn((Seq<char>, Seq<u8>)) -> Chunk {
    |entry: (Seq<char>, Seq<u8>)| (key_index(entry.0), entry.1)
}

/// The chunks stored under `base` among `entries`, in the order of the entries.
pub open spec fn chunks_of(entries: Seq<(Seq<char>, Seq<u8>)>, base: Seq<char>) -> Seq<Chunk> {
    entries.filter(in_group(base)).map_values(as_chunk())
}

/// `sorted` with `chunk` put behind the last chunk whose index is not greater.
pub open spec fn insert_chunk(sorted: Seq<Chunk>, chunk: Chunk) -> Seq<Chunk>
    decreases sorted.len(),
{
    if sorted.len() > 0 && sorted.last().0 > chunk.0 {
        insert_chunk(sorted.drop_last(), chunk).push(sorted.last())
    } else {
        sorted.push(chunk)
    }
}

/// `chunks` in ascending order of index; chunks with the same index keep the
/// order in which they stand in `chunks`.
pub open spec fn sort_chunks(chunks: Seq<Chunk>) -> Seq<Chunk>
    decreases chunks.len(),
{
    if chunks.len() == 0 {
        chunks
    } else {
        insert_chunk(sort_chunks(chunks.drop_last()), chunks.last())
    }
}

/// The bytes of `chunks`, one chunk after the other.
pub open spec fn joined(chunks: Seq<Chunk>) -> Seq<u8> {
    chunks.map_values(|chunk: Chunk| chunk.1).flatten()
}

/// The content stored under `base` among `entries`: its chunks in ascending order
/// of index, joined.
pub open spec fn assembled(entries: Seq<(Seq<char>, Seq<u8>)>, base: Seq<char>) -> Seq<u8> {
    joined(sort_chunks(chunks_of(entries, base)))
}

/// The base keys of `entries`, each once, in the order in which they first occur.
pub open spec fn bases(entries: Seq<(Seq<char>, Seq<u8>)>) -> Seq<Seq<char>>
    decreases entries.len(),
{
    if entries.len() == 0 {
        Seq::empty()
    } else {
        let earlier = bases(entries.drop_last());
        let base = key_base(entries.last().0);
        if earlier.contains(base) {
            earlier
        } else {
            earlier.push(base)
        }
    }
}

/// The contents of `keys` among `entries`, each with its key.
pub open spec fn contents(entries: Seq<(Seq<char>, Seq<u8>)>, keys: Seq<Seq<char>>) -> Seq<
    (Seq<char>, Seq<u8>),
> {
    keys.map_values(|base: Seq<char>| (base, assembled(entries, base)))
}

/// What `entries` decode to: for each base key, in the order in which the base
/// keys first occur, the key and the content stored under it.
pub open spec fn decoded(entries: Seq<(Seq<char>, Seq<u8>)>) -> Seq<(Seq<char>, Seq<u8>)> {
    contents(entries, bases(entries))
}

/// How the chunks of a base key grow when one entry is added.
pub proof fn lemma_chunks_of_push(
    entries: Seq<(Seq<char>, Seq<u8>)>,
    entry: (Seq<char>, Seq<u8>),
    base: Seq<char>,
)
    ensures
        chunks_of(entries.push(entry), base) == if key_base(entry.0) == base {
            chunks_of(entries, base).push((key_index(entry.0), entry.1))
        } else {
            chunks_of(entries, base)
        },
{
    entries.lemma_filter_push(entry, in_group(base));
    if key_base(entry.0) == base {
        entries.filter(in_group(base)).lemma_push_map_commute(as_chunk(), entry);
    }
}

/// No entries hold no chunks.
pub proof fn lemma_chunks_of_empty(base: Seq<char>)
    ensures
        chunks_of(Seq::empty(), base) == Seq::<Chunk>::empty(),
{
    reveal(Seq::filter);
}

/// A base key is listed exactly when some entry belongs to it.
pub proof fn lemma_bases_contains(entries: Seq<(Seq<char>, Seq<u8>)>, base: Seq<char>)
    ensures
        bases(entries).contains(base) <==> exists|j: int|
            0 <= j < entries.len() && key_base(#[trigger] entries[j].0) == base,
    decreases entries.len(),
{
    if entries.len() > 0 {
        let rest = entries.drop_last();
        let earlier = bases(rest);
        let all = bases(entries);
        lemma_bases_contains(rest, base);
        if all.contains(base) && !earlier.contains(base) {
            // Then the last entry brought the key in.
            assert(key_base(entries[entries.len() - 1].0) == base);
        }
        if earlier.contains(base) {
            let k = choose|k: int| 0 <= k < earlier.len() && earlier[k] == base;
            assert(all[k] == base);
            let j = choose|j: int| 0 <= j < rest.len() && key_base(#[trigger] rest[j].0) == base;
            assert(key_base(entries[j].0) == base);
        }
        if exists|j: int| 0 <= j < entries.len() && key_base(#[trigger] entries[j].0) == base {
            let j = choose|j: int|
                0 <= j < entries.len() && key_base(#[trigger] entries[j].0) == base;
            if j < rest.len() {
                assert(key_base(rest[j].0) == base);
            } else if !earlier.contains(base) {
                assert(all[earlier.len() as int] == base);
            }
        }
    }
}

/// No base key is listed twice.
pub proof fn lemma_bases_distinct(entries: Seq<(Seq<char>, Seq<u8>)>)
    ensures
        bases(entries).no_duplicates(),
    decreases entries.len(),
{
    if entries.len() > 0 {
        lemma_bases_distinct(entries.drop_last());
    }
}

/// Where a chunk goes: behind every chunk whose index is not greater, before
/// every chunk whose index is.
pub proof fn lemma_insert_chunk_at(sorted: Seq<Chunk>, chunk: Chunk, at: int)
    requires
        0 <= at <= sorted.len(),
        forall|j: int| at <= j < sorted.len() ==> (#[trigger] sorted[j]).0 > chunk.0,
        at > 0 ==> sorted[at - 1].0 <= chunk.0,
    ensures
        insert_chunk(sorted, chunk) == sorted.insert(at, chunk),
    decreases sorted.len(),
{
    if at < sorted.len() {
        lemma_insert_chunk_at(sorted.drop_last(), chunk, at);
    }
}

/// The base key and chunk index of every entry.
fn split_all(entries: &Vec<(String, Vec<u8>)>) -> (splits: Vec<(String, usize)>)
    ensures
        splits.len() == entries.len(),
        forall|i: int|
            0 <= i < entries.len() ==> (#[trigger] splits[i]).0@ == key_base(entries[i].0@)
                && splits[i].1 == key_index(entries[i].0@),
{
    let mut splits: Vec<(String, usize)> = Vec::new();
    let mut i: usize = 0;
    while i < entries.len()
        invariant
            i <= entries.len(),
            splits.len() == i,
            forall|j: int|
                0 <= j < i ==> (#[trigger] splits[j]).0@ == key_base(entries[j].0@) && splits[j].1
                    == key_index(entries[j].0@),
        decreases entries.len() - i,
    {
        let parts = split_key(entries[i].0.as_str());
        splits.push(parts);
        i = i + 1;
    }
    splits
}

/// The chunks that `order` names: each item is a chunk index and the position of
/// the entry that holds the chunk's bytes.
spec fn placed(order: Seq<(usize, usize)>, entries: Seq<(String, Vec<u8>)>) -> Seq<Chunk> {
    order.map_values(|item: (usize, usize)| (item.0 as nat, entries[item.1 as int].1@))
}

/// Appends `bytes` to `out`.
fn append_bytes(out: &mut Vec<u8>, bytes: &Vec<u8>)
    ensures
        final(out)@ == old(out)@ + bytes@,
{
    let mut i: usize = 0;
    while i < bytes.len()
        invariant
            i <= bytes.len(),
            out@ == old(out)@ + bytes@.take(i as int),
        decreases bytes.len() - i,
    {
        out.push(bytes[i]);
        i = i + 1;
    }
}

/// The content stored under `base` among `entries`, whose keys `splits` has split.
fn assemble(
    entries: &Vec<(String, Vec<u8>)>,
    splits: &Vec<(String, usize)>,
    base: &String,
) -> (content: Vec<u8>)
    requires
        splits.len() == entries.len(),
        forall|i: int|
            0 <= i < entries.len() ==> (#[trigger] splits[i]).0@ == key_base(entries[i].0@)
                && splits[i].1 == key_index(entries[i].0@),
    ensures
        content@ == assembled(views(entries@), base@),
{
    let ghost model = views(entries@);
    let mut order: Vec<(usize, usize)> = Vec::new();
    let mut k: usize = 0;
    proof {
        lemma_chunks_of_empty(base@);
    }
    while k < entries.len()
        invariant
            k <= entries.len(),
            splits.len() == entries.len(),
            model == views(entries@),
            forall|i: int|
                0 <= i < entries.len() ==> (#[trigger] splits[i]).0@ == key_base(entries[i].0@)
                    && splits[i].1 == key_index(entries[i].0@),
            forall|j: int| 0 <= j < order.len() ==> (#[trigger] order[j]).1 < entries.len(),
            placed(order@, entries@) == sort_chunks(chunks_of(model.take(k as int), base@)),
        decreases entries.len() - k,
    {
        let ghost before = chunks_of(model.take(k as int), base@);
        proof {
            assert(model.take(k + 1) =~= model.take(k as int).push(model[k as int]));
            lemma_chunks_of_push(model.take(k as int), model[k as int], base@);
        }
        if splits[k].0 == *base {
            let index = splits[k].1;
            let mut at: usize = order.len();
            while at > 0 && order[at - 1].0 > index
                invariant
                    at <= order.len(),
                    forall|j: int| at <= j < order.len() ==> (#[trigger] order[j]).0 > index,
                decreases at,
            {
                at = at - 1;
            }
            let ghost sorted = placed(order@, entries@);
            let ghost chunk: Chunk = (index as nat, entries[k as int].1@);
            proof {
                lemma_insert_chunk_at(sorted, chunk, at as int);
                assert(before.push(chunk).drop_last() =~= before);
            }
            order.insert(at, (index, k));
        }
        k = k + 1;
    }
    assert(model.take(entries.len() as int) =~= model);
    let ghost chunks = placed(order@, entries@);
    let ghost values = chunks.map_values(|chunk: Chunk| chunk.1);
    let mut content: Vec<u8> = Vec::new();
    let mut j: usize = 0;
    while j < order.len()
        invariant
            j <= order.len(),
            forall|j: int| 0 <= j < order.len() ==> (#[trigger] order[j]).1 < entries.len(),
            chunks == placed(order@, entries@),
            values == chunks.map_values(|chunk: Chunk| chunk.1),
            content@ == values.take(j as int).flatten(),
        decreases order.len() - j,
    {
        let at = order[j].1;
        proof {
            assert(values.take(j + 1) =~= values.take(j as int).push(values[j as int]));
            values.take(j as int).lemma_flatten_push(values[j as int]);
        }
        append_bytes(&mut content, &entries[at].1);
        j = j + 1;
    }
    assert(values.take(order.len() as int) =~= values);
    content
}

/// Puts entries back together: for each base key, in the order in which the base
/// keys first occur among `entries`, the key and the content stored under it. Two
/// chunks of one base key with the same index are both kept, in the order of the
/// entries.
pub fn decode(entries: &Vec<(String, Vec<u8>)>) -> (files: Vec<(String, Vec<u8>)>)
    ensures
        views(files@) == decoded(views(entries@)),
        forall|i: int, j: int| 0 <= i < j < files.len() ==> files[i].0@ != files[j].0@,
{
    let ghost model = views(entries@);
    let splits = split_all(entries);
    let mut files: Vec<(String, Vec<u8>)> = Vec::new();
    let mut i: usize = 0;
    while i < entries.len()
        invariant
            i <= entries.len(),
            splits.len() == entries.len(),
            model == views(entries@),
            forall|j: int|
                0 <= j < entries.len() ==> (#[trigger] splits[j]).0@ == key_base(entries[j].0@)
                    && splits[j].1 == key_index(entries[j].0@),
            views(files@) == contents(model, bases(model.take(i as int))),
        decreases entries.len() - i,
    {
        let ghost earlier = model.take(i as int);
        let ghost base = key_base(model[i as int].0);
        proof {
            assert(model.take(i + 1).drop_last() =~= earlier);
            lemma_bases_contains(earlier, base);
        }
        let mut seen = false;
        let mut j: usize = 0;
        while j < i && !seen
            invariant
                j <= i <= entries.len(),
                i < entries.len(),
                splits.len() == entries.len(),
                model == views(entries@),
                base == key_base(model[i as int].0),
                forall|j: int|
                    0 <= j < entries.len() ==> (#[trigger] splits[j]).0@ == key_base(
                        entries[j].0@,
                    ) && splits[j].1 == key_index(entries[j].0@),
                seen ==> exists|w: int| 0 <= w < i && key_base(#[trigger] model[w].0) == base,
                !seen ==> forall|w: int| 0 <= w < j ==> key_base(#[trigger] model[w].0) != base,
            decreases i - j + if seen { 0int } else { 1int },
        {
            if splits[j].0 == splits[i].0 {
                assert(key_base(model[j as int].0) == base);
                seen = true;
            } else {
                j = j + 1;
            }
        }
        proof {
            if seen {
                let w = choose|w: int| 0 <= w < i && key_base(#[trigger] model[w].0) == base;
                assert(key_base(earlier[w].0) == base);
            }
        }
        if !seen {
            let content = assemble(entries, &splits, &splits[i].0);
            let file = (splits[i].0.clone(), content);
            proof {
                lemma_views_push(files@, file);
            }
            files.push(file);
        }
        i = i + 1;
    }
    assert(model.take(entries.len() as int) =~= model);
    proof {
        lemma_bases_distinct(model);
        assert forall|i: int, j: int| 0 <= i < j < files.len() implies files[i].0@
            != files[j].0@ by {
            assert(views(files@)[i].0 == files[i].0@ && views(files@)[j].0 == files[j].0@);
        }
    }
    files
}

} // verus!
