//! Lists of keyed values in which a later value for a key replaces an earlier one.
use vstd::prelude::*;
use vstd::string::*;
use crate::models::{lemma_views_push, views};

verus! {

/// True when the key at position `i` does not occur again behind it.
pub open spec fn is_last(pairs: Seq<(Seq<char>, Seq<char>)>, i: int) -> bool {
    forall|j: int| i < j < pairs.len() ==> (#[trigger] pairs[j]).0 != pairs[i].0
}

/// True when `pair` stands in `pairs` at a position below `count` where it is the
/// last of its key.
pub open spec fn is_last_among(
    pairs: Seq<(Seq<char>, Seq<char>)>,
    count: int,
    pair: (Seq<char>, Seq<char>),
) -> bool {
    exists|i: int| 0 <= i < count && is_last(pairs, i) && #[trigger] pairs[i] == pair
}

/// Of the first `count` pairs, those whose key does not occur again in `pairs`,
/// in order.
pub open spec fn last_wins_among(pairs: Seq<(Seq<char>, Seq<char>)>, count: nat) -> Seq<
    (Seq<char>, Seq<char>),
>
    decreases count,
{
    if count == 0 {
        Seq::empty()
    } else {
        let earlier = last_wins_among(pairs, (count - 1) as nat);
        if is_last(pairs, count - 1) {
            earlier.push(pairs[count - 1])
        } else {
            earlier
        }
    }
}

/// `pairs` as a map keeps them: each key once, with the value of its last
/// occurrence, in the order of the last occurrences.
pub open spec fn last_wins(pairs: Seq<(Seq<char>, Seq<char>)>) -> Seq<(Seq<char>, Seq<char>)> {
    last_wins_among(pairs, pairs.len())
}

/// What `last_wins_among` keeps: exactly the pairs at the positions below
/// `count` that are the last of their key, each at a position of its own, in
/// the order of `pairs`.
pub proof fn lemma_last_wins_among(pairs: Seq<(Seq<char>, Seq<char>)>, count: nat)
    requires
        count <= pairs.len(),
    ensures
        forall|k: int|
            0 <= k < last_wins_among(pairs, count).len() ==> is_last_among(
                pairs,
                count as int,
                #[trigger] last_wins_among(pairs, count)[k],
            ),
        forall|i: int|
            0 <= i < count && is_last(pairs, i) ==> last_wins_among(pairs, count).contains(
                #[trigger] pairs[i],
            ),
        forall|k: int, m: int|
            0 <= k < m < last_wins_among(pairs, count).len() ==> last_wins_among(pairs, count)[k].0
                != last_wins_among(pairs, count)[m].0,
    decreases count,
{
    if count > 0 {
        let before = (count - 1) as nat;
        let earlier = last_wins_among(pairs, before);
        let kept = last_wins_among(pairs, count);
        lemma_last_wins_among(pairs, before);
        assert forall|k: int| 0 <= k < kept.len() implies is_last_among(
            pairs,
            count as int,
            #[trigger] kept[k],
        ) by {
            if k < earlier.len() {
                assert(is_last_among(pairs, before as int, earlier[k]));
            }
        }
        assert forall|i: int| 0 <= i < count && is_last(pairs, i) implies kept.contains(
            #[trigger] pairs[i],
        ) by {
            if i < before {
                let k = choose|k: int| 0 <= k < earlier.len() && earlier[k] == pairs[i];
                assert(kept[k] == pairs[i]);
            } else {
                assert(kept[kept.len() - 1] == pairs[i]);
            }
        }
    }
}

/// No key occurs twice in what `last_wins` keeps, every pair kept is the last
/// of its key in `pairs`, and the last pair of every key is kept.
pub proof fn lemma_last_wins(pairs: Seq<(Seq<char>, Seq<char>)>)
    ensures
        forall|k: int, m: int|
            0 <= k < m < last_wins(pairs).len() ==> last_wins(pairs)[k].0 != last_wins(
                pairs,
            )[m].0,
        forall|k: int|
            0 <= k < last_wins(pairs).len() ==> is_last_among(
                pairs,
                pairs.len() as int,
                #[trigger] last_wins(pairs)[k],
            ),
        forall|i: int|
            0 <= i < pairs.len() && is_last(pairs, i) ==> last_wins(pairs).contains(
                #[trigger] pairs[i],
            ),
{
    lemma_last_wins_among(pairs, pairs.len());
}

/// Keeps of `pairs` each key once, with the value of its last occurrence, in the
/// order of the last occurrences.
pub fn keep_last(pairs: &Vec<(String, String)>) -> (kept: Vec<(String, String)>)
    ensures
        views(kept@) == last_wins(views(pairs@)),
        forall|k: int, m: int| 0 <= k < m < kept.len() ==> kept[k].0@ != kept[m].0@,
{
    let ghost model = views(pairs@);
    let mut kept: Vec<(String, String)> = Vec::new();
    let mut i: usize = 0;
    while i < pairs.len()
        invariant
            i <= pairs.len(),
            model == views(pairs@),
            views(kept@) == last_wins_among(model, i as nat),
        decreases pairs.len() - i,
    {
        let mut last = true;
        let mut j: usize = i + 1;
        while j < pairs.len() && last
            invariant
                i < j <= pairs.len(),
                model == views(pairs@),
                last ==> forall|w: int| i < w < j ==> (#[trigger] model[w]).0 != model[i as int].0,
                !last ==> !is_last(model, i as int),
            decreases pairs.len() - j + if last { 1int } else { 0int },
        {
            if pairs[j].0 == pairs[i].0 {
                assert(model[j as int].0 == model[i as int].0);
                last = false;
            } else {
                j = j + 1;
            }
        }
        if last {
            let pair = (pairs[i].0.clone(), pairs[i].1.clone());
            proof {
                lemma_views_push(kept@, pair);
            }
            kept.push(pair);
        }
        i = i + 1;
    }
    proof {
        lemma_last_wins(model);
        assert forall|k: int, m: int| 0 <= k < m < kept.len() implies kept[k].0@ != kept[m].0@ by {
            assert(views(kept@)[k].0 == kept[k].0@);
            assert(views(kept@)[m].0 == kept[m].0@);
        }
    }
    kept
}

} // verus!
