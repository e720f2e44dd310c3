//! Finding enough messages for one block in one view.

use itertools::Itertools;
use vstd::prelude::*;

use crate::message::{ParsedMessage, ParsedView};
use crate::message_log::{
    lemma_filter_ends, lemma_filter_positions, lemma_filter_step, referenced_messages,
};
use crate::model::{first_quorum, same_block_and_view};

verus! {

/// A block and a view.
pub type Key = (Seq<u8>, u64);

/// The contents of a list of positions under keys.
pub open spec fn pair_views(pairs: Seq<((Vec<u8>, u64), usize)>) -> Seq<(Key, usize)> {
    Seq::new(pairs.len(), |i: int| ((pairs[i].0.0@, pairs[i].0.1), pairs[i].1))
}

/// The contents of a list of groups of positions.
pub open spec fn group_views(groups: Seq<((Vec<u8>, u64), Vec<usize>)>) -> Seq<(Key, Seq<usize>)> {
    Seq::new(groups.len(), |i: int| ((groups[i].0.0@, groups[i].0.1), groups[i].1@))
}

/// The pairs under a key.
pub open spec fn under(key: Key) -> spec_fn((Key, usize)) -> bool {
    |pair: (Key, usize)| pair.0 == key
}

/// The positions under a key, in order.
pub open spec fn positions_under(pairs: Seq<(Key, usize)>, key: Key) -> Seq<usize> {
    pairs.filter(under(key)).map_values(|pair: (Key, usize)| pair.1)
}

/// Whether the groups hold the positions of the pairs: each key that occurs has one group, and no
/// other key has one; a group holds what stands under its key, in order.
pub open spec fn grouped(pairs: Seq<(Key, usize)>, groups: Seq<(Key, Seq<usize>)>) -> bool {
    &&& forall|g: int, h: int|
        #![trigger groups[g], groups[h]]
        0 <= g < h < groups.len() ==> groups[g].0 != groups[h].0
    &&& forall|g: int|
        #![trigger groups[g]]
        0 <= g < groups.len() ==> groups[g].1 == positions_under(pairs, groups[g].0)
            && groups[g].1.len() > 0
    &&& forall|i: int|
        #![trigger pairs[i]]
        0 <= i < pairs.len() ==> exists|g: int|
            0 <= g < groups.len() && (#[trigger] groups[g]).0 == pairs[i].0
}

/// Groups positions by their keys: `itertools::Itertools::into_group_map`.
///
/// Trusted: that each key that occurs gets one group, with what stands under it in the order in
/// which it came. The order of the groups is left open.
#[verifier::external_body]
fn group_positions(pairs: Vec<((Vec<u8>, u64), usize)>) -> (groups: Vec<
    ((Vec<u8>, u64), Vec<usize>),
>)
    ensures
        grouped(pair_views(pairs@), group_views(groups@)),
{
    pairs.into_iter().into_group_map().into_iter().collect()
}

/// The block and the view of a message.
pub open spec fn key_of(message: ParsedView) -> Key {
    (message.block_id(), message.info().view)
}

/// The messages with their positions, under their blocks and views.
pub open spec fn keyed(messages: Seq<ParsedView>) -> Seq<(Key, usize)> {
    Seq::new(messages.len(), |i: int| (key_of(messages[i]), i as usize))
}

/// The messages at the given positions.
pub open spec fn at_positions(messages: Seq<ParsedView>, positions: Seq<usize>) -> Seq<ParsedView> {
    Seq::new(positions.len(), |i: int| messages[positions[i] as int])
}

/// The messages for one block and view stand at the positions under their key.
proof fn lemma_group(messages: Seq<ParsedView>, message: ParsedView, n: int)
    requires
        0 <= n <= messages.len() <= usize::MAX,
    ensures
        at_positions(
            messages,
            keyed(messages).take(n).filter(under(key_of(message))).map_values(
                |pair: (Key, usize)| pair.1,
            ),
        ) == messages.take(n).filter(same_block_and_view(message)),
        forall|i: int|
            #![trigger keyed(messages).take(n).filter(under(key_of(message)))[i]]
            0 <= i < keyed(messages).take(n).filter(under(key_of(message))).len()
                ==> keyed(messages).take(n).filter(under(key_of(message)))[i].1 < messages.len(),
    decreases n,
{
    let pairs = keyed(messages);
    let pred = under(key_of(message));
    let same = same_block_and_view(message);
    let second = |pair: (Key, usize)| pair.1;
    if n == 0 {
        lemma_filter_ends(pairs, pred);
        lemma_filter_ends(messages, same);
        assert(at_positions(messages, pairs.take(0).filter(pred).map_values(second)) =~= Seq::<
            ParsedView,
        >::empty());
    } else {
        lemma_group(messages, message, n - 1);
        lemma_filter_step(pairs, n - 1, pred);
        lemma_filter_step(messages, n - 1, same);
        let before = pairs.take(n - 1).filter(pred);
        let after = pairs.take(n).filter(pred);
        if pred(pairs[n - 1]) {
            assert(after == before.push(pairs[n - 1]));
            assert(at_positions(messages, after.map_values(second)) =~= at_positions(
                messages,
                before.map_values(second),
            ).push(messages[n - 1]));
        }
    }
}

/// The messages for the block and the view of a message are those of its group.
proof fn lemma_whole_group(messages: Seq<ParsedView>, message: ParsedView)
    requires
        messages.len() <= usize::MAX,
    ensures
        at_positions(messages, positions_under(keyed(messages), key_of(message)))
            == messages.filter(same_block_and_view(message)),
        positions_under(keyed(messages), key_of(message)).len() == messages.filter(
            same_block_and_view(message),
        ).len(),
{
    lemma_group(messages, message, messages.len() as int);
    lemma_filter_ends(keyed(messages), under(key_of(message)));
    lemma_filter_ends(messages, same_block_and_view(message));
}

/// The first position of a group is the first with its key, and no position of another key is in
/// it.
proof fn lemma_group_first(messages: Seq<ParsedView>, key: Key, i: int)
    requires
        0 <= i < messages.len() <= usize::MAX,
        key_of(messages[i]) == key,
    ensures
        positions_under(keyed(messages), key).len() > 0,
        positions_under(keyed(messages), key)[0] <= i,
        key_of(messages[positions_under(keyed(messages), key)[0] as int]) == key,
    decreases messages.len(),
{
    let pairs = keyed(messages);
    let pred = under(key);
    let found = pairs.filter(pred);
    let places = lemma_filter_positions(pairs, pred);
    assert(pairs[i] == (key, i as usize));
    assert(found.contains(pairs[i])) by {
        pairs.lemma_filter_contains(pred, i);
    }
    let k = found.index_of(pairs[i]);
    assert(found[k].1 == i);
    assert(places[k] == i);
    assert(places[0] <= places[k]);
    assert(found[0] == pairs[places[0]]);
}

/// Where no message before a position has enough for its block and view, and the one there has, it
/// is what is found.
proof fn lemma_first_quorum(messages: Seq<ParsedView>, required: int, from: int, at: int)
    requires
        0 <= from <= at < messages.len(),
        forall|i: int|
            #![trigger messages[i]]
            from <= i < at ==> messages.filter(same_block_and_view(messages[i])).len() < required,
        messages.filter(same_block_and_view(messages[at])).len() >= required,
    ensures
        first_quorum(messages, required, from) == Some(
            messages.filter(same_block_and_view(messages[at])),
        ),
    decreases at - from,
{
    if from < at {
        assert(messages.filter(same_block_and_view(messages[from])).len() < required);
        lemma_first_quorum(messages, required, from + 1, at);
    }
}

/// Where no message has enough for its block and view, nothing is found.
proof fn lemma_no_quorum(messages: Seq<ParsedView>, required: int, from: int)
    requires
        0 <= from <= messages.len(),
        forall|i: int|
            #![trigger messages[i]]
            from <= i < messages.len() ==> messages.filter(same_block_and_view(messages[i])).len()
                < required,
    ensures
        first_quorum(messages, required, from) is None,
    decreases messages.len() - from,
{
    if from < messages.len() {
        assert(messages.filter(same_block_and_view(messages[from])).len() < required);
        lemma_no_quorum(messages, required, from + 1);
    }
}

/// Finds enough messages for one block in one view: among those of which there are enough, the ones
/// whose first came in first.
pub fn find_quorum<'a>(messages: &Vec<&'a ParsedMessage>, required: u64) -> (r: Option<
    Vec<&'a ParsedMessage>,
>)
    ensures
        (match r {
            Some(found) => first_quorum(referenced_messages(messages@), required as int, 0) == Some(
                referenced_messages(found@),
            ),
            None => first_quorum(referenced_messages(messages@), required as int, 0) is None,
        }),
{
    let ghost all = referenced_messages(messages@);
    let mut pairs: Vec<((Vec<u8>, u64), usize)> = Vec::new();
    let mut i: usize = 0;
    while i < messages.len()
        invariant
            i <= messages@.len(),
            all == referenced_messages(messages@),
            pairs@.len() == i,
            forall|j: int|
                #![trigger pairs@[j]]
                0 <= j < i ==> ((pairs@[j].0.0@, pairs@[j].0.1), pairs@[j].1) == (
                    key_of(all[j]),
                    j as usize,
                ),
        decreases messages@.len() - i,
    {
        pairs.push(((messages[i].get_block_id(), messages[i].info().view), i));
        i += 1;
    }
    assert(pair_views(pairs@) =~= keyed(all));
    let groups = group_positions(pairs);
    let ghost seen = group_views(groups@);
    let mut best: usize = groups.len();
    let mut k: usize = 0;
    while k < groups.len()
        invariant
            k <= groups@.len(),
            all == referenced_messages(messages@),
            all.len() <= usize::MAX,
            seen == group_views(groups@),
            grouped(keyed(all), seen),
            best < k || best == groups@.len(),
            best < k ==> seen[best as int].1.len() >= required,
            forall|g: int|
                #![trigger seen[g]]
                0 <= g < k && seen[g].1.len() >= required ==> best < k && seen[best as int].1[0]
                    <= seen[g].1[0],
        decreases groups@.len() - k,
    {
        assert(seen[k as int].1.len() > 0);
        if groups[k].1.len() as u64 >= required {
            if best == groups.len() {
                best = k;
            } else {
                assert(seen[best as int].1.len() > 0);
                assert(seen[best as int].1 == groups@[best as int].1@);
                if groups[k].1[0] < groups[best].1[0] {
                    best = k;
                }
            }
        }
        k += 1;
    }
    if best == groups.len() {
        proof {
            assert forall|i: int|
                #![trigger all[i]]
                0 <= i < all.len() implies all.filter(same_block_and_view(all[i])).len()
                < required by {
                assert(keyed(all)[i].0 == key_of(all[i]));
                let g = choose|g: int|
                    0 <= g < seen.len() && (#[trigger] seen[g]).0 == keyed(all)[i].0;
                assert(seen[g].1 == positions_under(keyed(all), key_of(all[i])));
                lemma_whole_group(all, all[i]);
            }
            lemma_no_quorum(all, required as int, 0);
        }
        return None;
    }
    let positions = &groups[best].1;
    let ghost first = seen[best as int].1[0] as int;
    proof {
        assert(positions@ == seen[best as int].1);
        let key = seen[best as int].0;
        assert(positions@ == positions_under(keyed(all), key));
        let found = keyed(all).filter(under(key));
        let places = lemma_filter_positions(keyed(all), under(key));
        assert(found.len() == positions@.len());
        assert(keyed(all)[places[0]] == found[0]);
        assert(positions@[0] == found[0].1);
        assert(key_of(all[first]) == key);
        lemma_whole_group(all, all[first]);
        assert forall|i: int|
            #![trigger all[i]]
            0 <= i < first implies all.filter(same_block_and_view(all[i])).len() < required by {
            assert(keyed(all)[i].0 == key_of(all[i]));
            let g = choose|g: int| 0 <= g < seen.len() && (#[trigger] seen[g]).0 == keyed(all)[i].0;
            assert(seen[g].1 == positions_under(keyed(all), key_of(all[i])));
            lemma_whole_group(all, all[i]);
            lemma_group_first(all, key_of(all[i]), i);
        }
        lemma_first_quorum(all, required as int, 0, first);
        assert forall|j: int| 0 <= j < positions@.len() implies (#[trigger] positions@[j])
            < all.len() by {
            assert(found[j] == keyed(all)[places[j]]);
            assert(positions@[j] == found[j].1);
        }
    }
    let mut found: Vec<&'a ParsedMessage> = Vec::new();
    let mut n: usize = 0;
    while n < positions.len()
        invariant
            n <= positions@.len(),
            all == referenced_messages(messages@),
            forall|j: int| 0 <= j < positions@.len() ==> (#[trigger] positions@[j]) < all.len(),
            found@.len() == n,
            forall|j: int|
                0 <= j < n ==> (#[trigger] found@[j])@ == all[positions@[j] as int],
        decreases positions@.len() - n,
    {
        assert(positions@[n as int] < all.len());
        found.push(messages[positions[n]]);
        n += 1;
    }
    assert(referenced_messages(found@) =~= at_positions(all, positions@));
    Some(found)
}

} // verus!
