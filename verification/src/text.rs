//! Character-level text operations on keys and names, each with its model on `Seq<char>`.
use vstd::prelude::*;
use vstd::string::*;

verus! {

broadcast use vstd::string::group_string_axioms;

/// The upper-case form of an ASCII letter; every other character is itself.
pub open spec fn ascii_upper(c: char) -> char {
    if 'a' <= c && c <= 'z' {
        ((c as u8) - 32) as char
    } else {
        c
    }
}

/// `s` with each ASCII lower-case letter replaced by its upper-case form.
pub open spec fn ascii_uppercase(s: Seq<char>) -> Seq<char> {
    s.map_values(|c: char| ascii_upper(c))
}

/// `s` with every `from` replaced by `to`.
pub open spec fn replace_char(s: Seq<char>, from: char, to: char) -> Seq<char> {
    s.map_values(|c: char| if c == from { to } else { c })
}

/// `s` without its trailing run of `c`.
pub open spec fn trim_end(s: Seq<char>, c: char) -> Seq<char>
    decreases s.len(),
{
    if s.len() > 0 && s.last() == c {
        trim_end(s.drop_last(), c)
    } else {
        s
    }
}

/// The position of the last `c` in `s`, or -1 when `s` holds none.
pub open spec fn last_index(s: Seq<char>, c: char) -> int
    decreases s.len(),
{
    if s.len() == 0 {
        -1
    } else if s.last() == c {
        s.len() - 1
    } else {
        last_index(s.drop_last(), c)
    }
}

/// What follows the last `c` in `s`; all of `s` when it holds no `c`.
pub open spec fn after_last(s: Seq<char>, c: char) -> Seq<char> {
    s.skip(last_index(s, c) + 1)
}

/// What precedes the last `c` in `s`; all of `s` when it holds no `c`.
pub open spec fn before_last(s: Seq<char>, c: char) -> Seq<char> {
    if last_index(s, c) < 0 {
        s
    } else {
        s.take(last_index(s, c))
    }
}

/// `s` without one leading `prefix`; `s` itself when it does not start with `prefix`.
pub open spec fn strip_prefix(s: Seq<char>, prefix: Seq<char>) -> Seq<char> {
    if prefix.is_prefix_of(s) {
        s.skip(prefix.len() as int)
    } else {
        s
    }
}

/// The Unicode upper-case form of a text, as `str::to_uppercase` computes it.
pub uninterp spec fn unicode_uppercase(s: Seq<char>) -> Seq<char>;

/// `last_index` is the greatest position that holds `c`.
pub proof fn lemma_last_index(s: Seq<char>, c: char)
    ensures
        -1 <= last_index(s, c) < s.len(),
        last_index(s, c) >= 0 ==> s[last_index(s, c)] == c,
        forall|j: int| last_index(s, c) < j < s.len() ==> s[j] != c,
    decreases s.len(),
{
    if s.len() > 0 && s.last() != c {
        let rest = s.drop_last();
        lemma_last_index(rest, c);
        assert forall|j: int| last_index(s, c) < j < s.len() implies s[j] != c by {
            if j < rest.len() {
                assert(rest[j] != c);
            }
        }
    }
}

/// What follows the last `c` holds no `c`, and `s` is what precedes it, then `c`,
/// then what follows it.
pub proof fn lemma_split_last(s: Seq<char>, c: char)
    ensures
        !after_last(s, c).contains(c),
        s.contains(c) ==> s == before_last(s, c).push(c) + after_last(s, c),
        !s.contains(c) ==> after_last(s, c) == s && before_last(s, c) == s,
{
    lemma_last_index(s, c);
}

/// Appends one character to a string. Wraps `String::push`, which is documented
/// to append the given character to the end of the string.
#[verifier::external_body]
pub(crate) fn push_char(s: &mut String, c: char)
    ensures
        final(s)@ == old(s)@.push(c),
{
    s.push(c)
}

/// The Unicode upper-case form of `s`. Wraps `str::to_uppercase`; the contract
/// only gives its result a name, since the mapping is a table of the Unicode
/// standard and a function of the text alone.
#[verifier::external_body]
pub(crate) fn to_uppercase(s: &str) -> (upper: String)
    ensures
        upper@ == unicode_uppercase(s@),
{
    s.to_uppercase()
}

/// The characters of `s`, in order.
pub fn chars_of(s: &str) -> (chars: Vec<char>)
    ensures
        chars@ == s@,
{
    let mut chars: Vec<char> = Vec::new();
    for c in it: s.chars()
        invariant
            it.seq() == s@,
            chars@ == s@.take(it.index() as int),
    {
        chars.push(c);
    }
    chars
}

/// The string made of `chars[from..to]`.
pub fn string_of_range(chars: &Vec<char>, from: usize, to: usize) -> (s: String)
    requires
        from <= to <= chars.len(),
    ensures
        s@ == chars@.subrange(from as int, to as int),
{
    let mut s = String::new();
    let mut i: usize = from;
    while i < to
        invariant
            from <= i <= to <= chars.len(),
            s@ == chars@.subrange(from as int, i as int),
        decreases to - i,
    {
        push_char(&mut s, chars[i]);
        i = i + 1;
    }
    s
}

/// The string made of `chars`, in order.
pub fn string_of(chars: &Vec<char>) -> (s: String)
    ensures
        s@ == chars@,
{
    string_of_range(chars, 0, chars.len())
}

/// `s` with every `from` replaced by `to`.
pub fn replaced(s: &str, from: char, to: char) -> (out: String)
    ensures
        out@ == replace_char(s@, from, to),
{
    let mut out = String::new();
    for c in it: s.chars()
        invariant
            it.seq() == s@,
            out@ == replace_char(s@.take(it.index() as int), from, to),
    {
        push_char(&mut out, if c == from { to } else { c });
    }
    out
}

/// The upper-case form of `c` when it is an ASCII letter, `c` itself otherwise.
pub fn to_ascii_upper(c: char) -> (upper: char)
    ensures
        upper == ascii_upper(c),
{
    if 'a' <= c && c <= 'z' {
        let b: u8 = c as u8;
        (b - 32) as char
    } else {
        c
    }
}

/// `s` with each ASCII lower-case letter replaced by its upper-case form.
pub fn ascii_uppercased(s: &str) -> (out: String)
    ensures
        out@ == ascii_uppercase(s@),
{
    let mut out = String::new();
    for c in it: s.chars()
        invariant
            it.seq() == s@,
            out@ == ascii_uppercase(s@.take(it.index() as int)),
    {
        push_char(&mut out, to_ascii_upper(c));
    }
    out
}

/// The position of the last `c` in `chars`, if there is one.
pub fn last_position(chars: &Vec<char>, c: char) -> (found: Option<usize>)
    ensures
        match found {
            Some(i) => last_index(chars@, c) == i,
            None => last_index(chars@, c) == -1,
        },
{
    let mut i: usize = chars.len();
    assert(chars@.take(i as int) =~= chars@);
    while i > 0
        invariant
            i <= chars.len(),
            last_index(chars@, c) == last_index(chars@.take(i as int), c),
        decreases i,
    {
        if chars[i - 1] == c {
            return Some(i - 1);
        }
        proof {
            assert(chars@.take(i as int).drop_last() =~= chars@.take(i - 1));
        }
        i = i - 1;
    }
    None
}

/// `s` without its trailing run of `c`.
pub fn trimmed_end(s: &str, c: char) -> (out: String)
    ensures
        out@ == trim_end(s@, c),
{
    let chars = chars_of(s);
    let mut end: usize = chars.len();
    assert(chars@.take(end as int) =~= chars@);
    while end > 0 && chars[end - 1] == c
        invariant
            end <= chars.len(),
            trim_end(chars@, c) == trim_end(chars@.take(end as int), c),
        decreases end,
    {
        proof {
            assert(chars@.take(end as int).drop_last() =~= chars@.take(end - 1));
        }
        end = end - 1;
    }
    string_of_range(&chars, 0, end)
}

/// What follows the last `c` in `s`; all of `s` when it holds no `c`.
pub fn text_after_last(s: &str, c: char) -> (out: String)
    ensures
        out@ == after_last(s@, c),
{
    let chars = chars_of(s);
    proof {
        lemma_last_index(chars@, c);
    }
    let from = match last_position(&chars, c) {
        Some(i) => i + 1,
        None => 0,
    };
    string_of_range(&chars, from, chars.len())
}

/// What precedes the last `c` in `s`; all of `s` when it holds no `c`.
pub fn text_before_last(s: &str, c: char) -> (out: String)
    ensures
        out@ == before_last(s@, c),
{
    let chars = chars_of(s);
    proof {
        lemma_last_index(chars@, c);
    }
    let to = match last_position(&chars, c) {
        Some(i) => i,
        None => chars.len(),
    };
    string_of_range(&chars, 0, to)
}

/// True when `chars` starts with `prefix`.
pub fn starts_with(chars: &Vec<char>, prefix: &Vec<char>) -> (yes: bool)
    ensures
        yes == prefix@.is_prefix_of(chars@),
{
    if prefix.len() > chars.len() {
        return false;
    }
    let mut i: usize = 0;
    while i < prefix.len()
        invariant
            i <= prefix.len() <= chars.len(),
            prefix@.take(i as int) == chars@.take(i as int),
        decreases prefix.len() - i,
    {
        if prefix[i] != chars[i] {
            return false;
        }
        i = i + 1;
    }
    true
}

/// `s` without one leading `prefix`; `s` itself when it does not start with `prefix`.
pub fn stripped_prefix(s: &str, prefix: &str) -> (out: String)
    ensures
        out@ == strip_prefix(s@, prefix@),
{
    let chars = chars_of(s);
    let lead = chars_of(prefix);
    let from = if starts_with(&chars, &lead) {
        lead.len()
    } else {
        0
    };
    string_of_range(&chars, from, chars.len())
}

} // verus!
