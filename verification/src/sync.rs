//! The tree sync engine: which parameters store a file tree, which files a
//! listing holds, and what a copy from one prefix to another writes.
use vstd::prelude::*;
use vstd::string::*;
use vstd::utf8::{decode_utf8, decode_utf8_encode_utf8, encode_utf8, valid_utf8};
use crate::codec::{decode, decoded, encode, encoded, CHUNK_SIZE};
use crate::key::{is_whole, part_marker};
use crate::models::{lemma_views_push, views};
use crate::number::decimal;
use crate::roundtrip::{lemma_decode_shuffled, lemma_map_same_items};
use crate::store::{
    copy_kind, lossy_text, put_request, text_from_bytes, Parameter, ParameterKind, PutRequest,
};
use crate::text::{
    after_last, lemma_split_last, push_char, strip_prefix, stripped_prefix, text_after_last,
    trim_end, trimmed_end,
};

verus! {

/// The key suffix of a relative path: each component behind a separator.
pub open spec fn ssm_key(components: Seq<Seq<char>>) -> Seq<char> {
    components.map_values(|component: Seq<char>| seq!['/'] + component).flatten()
}

/// The base key of a file: the prefix without trailing separators, then the key
/// suffix of the file's relative path.
pub open spec fn upload_key(prefix: Seq<char>, components: Seq<Seq<char>>) -> Seq<char> {
    trim_end(prefix, '/') + ssm_key(components)
}

/// True when `request` writes `entry` as an upload does: under the entry's key, as
/// a secret, replacing what is stored, with the text that stands for the entry's
/// bytes. Where the bytes are valid UTF-8, that is the text they encode.
pub open spec fn uploads(request: PutRequest, entry: (Seq<char>, Seq<u8>)) -> bool {
    &&& request.name@ == entry.0
    &&& request.value@ == lossy_text(entry.1)
    &&& valid_utf8(entry.1) ==> request.value@ == decode_utf8(entry.1)
    &&& request.overwrite
    &&& request.kind == ParameterKind::Secure
}

/// The key of a stored parameter relative to `prefix`: the key without the
/// prefix and one separator, where it starts with them, else the key itself.
pub open spec fn relative_key(name: Seq<char>, prefix: Seq<char>) -> Seq<char> {
    strip_prefix(name, prefix.push('/'))
}

/// Reads a listed parameter as a codec entry: its key relative to `prefix`, and
/// the bytes of its value.
pub open spec fn listed_entry(prefix: Seq<char>) -> spec_fn((Seq<char>, Seq<char>)) -> (
    Seq<char>,
    Seq<u8>,
) {
    |parameter: (Seq<char>, Seq<char>)|
        (relative_key(parameter.0, prefix), encode_utf8(parameter.1))
}

/// The files that the parameters listed under `prefix` hold: each relative path
/// with its content.
pub open spec fn downloaded(parameters: Seq<(Seq<char>, Seq<char>)>, prefix: Seq<char>) -> Seq<
    (Seq<char>, Seq<u8>),
> {
    decoded(parameters.map_values(listed_entry(prefix)))
}

/// The key that a copy from `from` to `to` gives to the parameter `name`: `to`,
/// then `name` without one leading `from`.
pub open spec fn copied_name(name: Seq<char>, from: Seq<char>, to: Seq<char>) -> Seq<char> {
    to + strip_prefix(name, from)
}

/// True when `request` writes a copy of `parameter` from under `from` to under
/// `to`: same value, same classification, replacing what is stored.
pub open spec fn copies(
    request: PutRequest,
    parameter: Parameter,
    from: Seq<char>,
    to: Seq<char>,
) -> bool {
    &&& request.name@ == copied_name(parameter.name@, from, to)
    &&& request.value@ == parameter.value@
    &&& request.kind == parameter.kind
    &&& request.overwrite
}

/// The key suffix of a relative path, given by its components: each component
/// behind a separator.
pub fn to_ssm_key(components: &Vec<String>) -> (key: String)
    ensures
        key@ == ssm_key(views(components@)),
{
    let ghost parts = views(components@).map_values(|component: Seq<char>| seq!['/'] + component);
    let mut key = String::new();
    let mut i: usize = 0;
    while i < components.len()
        invariant
            i <= components.len(),
            parts == views(components@).map_values(|component: Seq<char>| seq!['/'] + component),
            key@ == parts.take(i as int).flatten(),
        decreases components.len() - i,
    {
        proof {
            assert(parts.take(i + 1) =~= parts.take(i as int).push(parts[i as int]));
            parts.take(i as int).lemma_flatten_push(parts[i as int]);
        }
        push_char(&mut key, '/');
        key.append(components[i].as_str());
        i = i + 1;
    }
    assert(parts.take(components.len() as int) =~= parts);
    key
}

/// The base key under which the file with the relative path `components` is
/// stored below `prefix`.
pub fn upload_base_key(prefix: &str, components: &Vec<String>) -> (key: String)
    ensures
        key@ == upload_key(prefix@, views(components@)),
{
    let mut key = trimmed_end(prefix, '/');
    let suffix = to_ssm_key(components);
    key.append(suffix.as_str());
    key
}

/// The writes that store a file below `prefix`: its content, encoded under its
/// base key with the default chunk size, one write for each entry, in order.
pub fn upload_requests(content: &[u8], prefix: &str, components: &Vec<String>) -> (requests: Vec<
    PutRequest,
>)
    ensures
        requests.len() == encoded(
            content@,
            upload_key(prefix@, views(components@)),
            CHUNK_SIZE as nat,
        ).len(),
        forall|i: int|
            0 <= i < requests.len() ==> uploads(
                #[trigger] requests[i],
                encoded(content@, upload_key(prefix@, views(components@)), CHUNK_SIZE as nat)[i],
            ),
{
    let base = upload_base_key(prefix, components);
    let entries = encode(content, base.as_str(), CHUNK_SIZE);
    let ghost all = encoded(content@, upload_key(prefix@, views(components@)), CHUNK_SIZE as nat);
    let mut requests: Vec<PutRequest> = Vec::new();
    let mut i: usize = 0;
    while i < entries.len()
        invariant
            i <= entries.len(),
            views(entries@) == all,
            requests.len() == i,
            forall|j: int| 0 <= j < i ==> uploads(#[trigger] requests[j], all[j]),
        decreases entries.len() - i,
    {
        let value = text_from_bytes(entries[i].1.as_slice());
        let request = put_request(entries[i].0.clone(), value, ParameterKind::Secure);
        requests.push(request);
        i = i + 1;
    }
    requests
}

/// The key of the stored parameter `name` relative to `prefix`.
pub fn relative_name(name: &str, prefix: &str) -> (relative: String)
    ensures
        relative@ == relative_key(name@, prefix@),
{
    let mut lead = String::from_str(prefix);
    push_char(&mut lead, '/');
    stripped_prefix(name, lead.as_str())
}

/// The files that the parameters listed under `prefix` hold. Each parameter is a
/// name and a value. Names are taken relative to the prefix and grouped by base
/// key; the content of a file is the values of its chunks in ascending order of
/// index. The files come in the order in which their base keys first occur.
pub fn download_files(parameters: &Vec<(String, String)>, prefix: &str) -> (files: Vec<
    (String, Vec<u8>),
>)
    ensures
        views(files@) == downloaded(views(parameters@), prefix@),
{
    let ghost listed = views(parameters@).map_values(listed_entry(prefix@));
    let mut entries: Vec<(String, Vec<u8>)> = Vec::new();
    let mut i: usize = 0;
    while i < parameters.len()
        invariant
            i <= parameters.len(),
            listed == views(parameters@).map_values(listed_entry(prefix@)),
            views(entries@) == listed.take(i as int),
        decreases parameters.len() - i,
    {
        let key = relative_name(parameters[i].0.as_str(), prefix);
        let value = parameters[i].1.as_str().as_bytes_vec();
        let entry = (key, value);
        proof {
            lemma_views_push(entries@, entry);
        }
        entries.push(entry);
        i = i + 1;
    }
    assert(listed.take(parameters.len() as int) =~= listed);
    decode(&entries)
}

/// The file that one parameter fetched by its full name holds: named by the last
/// component of the parameter's name, with the bytes of its value as content.
/// The name is not read as a chunk key.
pub fn single_file(name: &str, value: &str) -> (file: (String, Vec<u8>))
    ensures
        file.0@ == after_last(name@, '/'),
        !file.0@.contains('/'),
        file.1@ == encode_utf8(value@),
{
    proof {
        lemma_split_last(name@, '/');
    }
    (text_after_last(name, '/'), value.as_bytes_vec())
}

/// The writes that copy `parameters`, listed under `prefix`, to under
/// `to_prefix`: one write for each parameter, in order, with the same value and
/// the same classification.
pub fn copy_requests(parameters: &Vec<Parameter>, prefix: &str, to_prefix: &str) -> (requests: Vec<
    PutRequest,
>)
    ensures
        requests.len() == parameters.len(),
        forall|i: int|
            0 <= i < requests.len() ==> copies(
                #[trigger] requests[i],
                parameters[i],
                prefix@,
                to_prefix@,
            ),
{
    let mut requests: Vec<PutRequest> = Vec::new();
    let mut i: usize = 0;
    while i < parameters.len()
        invariant
            i <= parameters.len(),
            requests.len() == i,
            forall|j: int|
                0 <= j < i ==> copies(#[trigger] requests[j], parameters[j], prefix@, to_prefix@),
        decreases parameters.len() - i,
    {
        let parameter = &parameters[i];
        let rest = stripped_prefix(parameter.name.as_str(), prefix);
        let mut name = String::from_str(to_prefix);
        name.append(rest.as_str());
        let request = put_request(name, parameter.value.clone(), copy_kind(&parameter.kind));
        requests.push(request);
        i = i + 1;
    }
    requests
}

/// What a download reads from: the parameters under a prefix, or one parameter
/// by its full name.
#[derive(Clone, Debug, PartialEq, Eq)]
pub enum DownloadSource {
    Prefix(String),
    Name(String),
}

/// Why the arguments of a download name no source.
#[derive(Clone, Copy, Debug, PartialEq, Eq)]
pub enum SourceError {
    /// A prefix and a name were both given.
    Both,
    /// Neither a prefix nor a name was given.
    Neither,
}

/// The source of a download: the prefix or the name, whichever was given. To give
/// both, or neither, is an error.
pub fn download_source(prefix: Option<String>, name: Option<String>) -> (source: Result<
    DownloadSource,
    SourceError,
>)
    ensures
        match (prefix, name) {
            (Some(p), None) => source == Ok::<DownloadSource, SourceError>(
                DownloadSource::Prefix(p),
            ),
            (None, Some(n)) => source == Ok::<DownloadSource, SourceError>(DownloadSource::Name(n)),
            (Some(_), Some(_)) => source == Err::<DownloadSource, SourceError>(SourceError::Both),
            (None, None) => source == Err::<DownloadSource, SourceError>(SourceError::Neither),
        },
{
    match (prefix, name) {
        (Some(p), None) => Ok(DownloadSource::Prefix(p)),
        (None, Some(n)) => Ok(DownloadSource::Name(n)),
        (Some(_), Some(_)) => Err(SourceError::Both),
        (None, None) => Err(SourceError::Neither),
    }
}

/// The relative path of a file as one text: its components with a separator
/// between each two.
pub open spec fn relative_path(components: Seq<Seq<char>>) -> Seq<char> {
    ssm_key(components).skip(1)
}

/// What the store holds of a file after its upload when every chunk of the
/// content is valid UTF-8: under each key of the encoding, the text that the
/// entry's bytes encode.
pub open spec fn stored(content: Seq<u8>, prefix: Seq<char>, components: Seq<Seq<char>>) -> Seq<
    (Seq<char>, Seq<char>),
> {
    encoded(content, upload_key(prefix, components), CHUNK_SIZE as nat).map_values(
        |entry: (Seq<char>, Seq<u8>)| (entry.0, decode_utf8(entry.1)),
    )
}

/// The key suffix of a path with at least one component starts with a separator.
pub proof fn lemma_ssm_key_starts(components: Seq<Seq<char>>)
    requires
        components.len() > 0,
    ensures
        ssm_key(components).len() > 0,
        ssm_key(components)[0] == '/',
{
}

/// The mapping between relative paths and keys is reversible: a key made for an
/// upload below a prefix, with whatever follows it, is read back, relative to
/// that prefix without its trailing separators, as the relative path with the
/// same rest.
pub proof fn lemma_relative_of_upload_key(
    prefix: Seq<char>,
    components: Seq<Seq<char>>,
    rest: Seq<char>,
)
    requires
        components.len() > 0,
    ensures
        relative_key(upload_key(prefix, components) + rest, trim_end(prefix, '/'))
            == relative_path(components) + rest,
{
    lemma_ssm_key_starts(components);
}

/// Files at different relative paths are stored under different base keys.
pub proof fn lemma_upload_keys_differ(
    prefix: Seq<char>,
    first: Seq<Seq<char>>,
    second: Seq<Seq<char>>,
)
    requires
        first.len() > 0,
        second.len() > 0,
        relative_path(first) != relative_path(second),
    ensures
        upload_key(prefix, first) != upload_key(prefix, second),
{
    let none = Seq::<char>::empty();
    lemma_relative_of_upload_key(prefix, first, none);
    lemma_relative_of_upload_key(prefix, second, none);
}

/// A download restores what an upload stored: from the parameters that the
/// upload of a file wrote below a prefix, listed in any order, a download from
/// that prefix without its trailing separators makes one file, at the file's
/// relative path, with the file's content. This holds where the store kept the
/// bytes as they were, which it does where every chunk of the content is valid
/// UTF-8; and, for content of one chunk, where the relative path denotes a whole
/// value, since a path that itself ends in a marker and an index is read as a
/// chunk of another file.
pub proof fn lemma_download_restores(
    content: Seq<u8>,
    prefix: Seq<char>,
    components: Seq<Seq<char>>,
    listed: Seq<(Seq<char>, Seq<char>)>,
)
    requires
        content.len() <= usize::MAX,
        components.len() > 0,
        content.len() > CHUNK_SIZE || is_whole(relative_path(components)),
        forall|i: int|
            0 <= i < encoded(
                content,
                upload_key(prefix, components),
                CHUNK_SIZE as nat,
            ).len() ==> valid_utf8(
                (#[trigger] encoded(
                    content,
                    upload_key(prefix, components),
                    CHUNK_SIZE as nat,
                )[i]).1,
            ),
        listed.to_multiset() == stored(content, prefix, components).to_multiset(),
    ensures
        downloaded(listed, trim_end(prefix, '/')) == seq![(relative_path(components), content)],
{
    let from = trim_end(prefix, '/');
    let size = CHUNK_SIZE as nat;
    let written = encoded(content, upload_key(prefix, components), size);
    let kept = stored(content, prefix, components);
    let wanted = encoded(content, relative_path(components), size);
    assert(kept.map_values(listed_entry(from)) =~= wanted) by {
        assert forall|i: int| 0 <= i < written.len() implies (#[trigger] kept.map_values(
            listed_entry(from),
        )[i]) == wanted[i] by {
            decode_utf8_encode_utf8(written[i].1);
            if content.len() <= size {
                lemma_relative_of_upload_key(prefix, components, Seq::empty());
            } else {
                let tail = part_marker() + decimal(i as nat);
                lemma_relative_of_upload_key(prefix, components, tail);
            }
        }
    }
    lemma_map_same_items(listed, kept, listed_entry(from));
    lemma_decode_shuffled(
        content,
        relative_path(components),
        size,
        listed.map_values(listed_entry(from)),
    );
}

/// A copy keeps parameters apart: two different names under the source prefix
/// are copied to two different names.
pub proof fn lemma_copied_names_differ(
    first: Seq<char>,
    second: Seq<char>,
    from: Seq<char>,
    to: Seq<char>,
)
    requires
        from.is_prefix_of(first),
        from.is_prefix_of(second),
        first != second,
    ensures
        copied_name(first, from, to) != copied_name(second, from, to),
{
    let n = from.len() as int;
    let a = copied_name(first, from, to);
    let b = copied_name(second, from, to);
    if a == b {
        assert(a.len() == to.len() + first.skip(n).len());
        assert(b.len() == to.len() + second.skip(n).len());
        assert forall|i: int| 0 <= i < first.len() implies first[i] == second[i] by {
            if i < n {
                assert(first.subrange(0, n)[i] == second.subrange(0, n)[i]);
            } else {
                assert(a[to.len() + i - n] == first.skip(n)[i - n]);
                assert(b[to.len() + i - n] == second.skip(n)[i - n]);
            }
        }
        assert(first =~= second);
    }
}

} // verus!
