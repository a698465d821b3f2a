//! The order in which a graph meets its nodes when it is built from a list
//! of entries, each a tail with the heads listed for it: first the tails, in
//! the order of the list; then, tail by tail, the heads listed for it.

use vstd::prelude::*;

verus! {

/// An entry as plain text: a tail and the heads listed for it.
pub type Entry = (Seq<char>, Seq<Seq<char>>);

/// The names of a list, each where it first occurs.
pub open spec fn first_occurrences(names: Seq<Seq<char>>) -> Seq<Seq<char>>
    decreases names.len(),
{
    if names.len() == 0 {
        Seq::empty()
    } else if first_occurrences(names.drop_last()).contains(names.last()) {
        first_occurrences(names.drop_last())
    } else {
        first_occurrences(names.drop_last()).push(names.last())
    }
}

/// The tails of a list of entries.
pub open spec fn tails_of(entries: Seq<Entry>) -> Seq<Seq<char>> {
    Seq::new(entries.len(), |i: int| entries[i].0)
}

/// The heads that the entries list for `tail`, in the order of the list.
pub open spec fn heads_of(entries: Seq<Entry>, tail: Seq<char>) -> Seq<Seq<char>>
    decreases entries.len(),
{
    if entries.len() == 0 {
        Seq::empty()
    } else if entries.last().0 == tail {
        heads_of(entries.drop_last(), tail) + entries.last().1
    } else {
        heads_of(entries.drop_last(), tail)
    }
}

/// The heads that the entries list for each of `tails` in turn.
pub open spec fn heads_in_turn(entries: Seq<Entry>, tails: Seq<Seq<char>>) -> Seq<Seq<char>>
    decreases tails.len(),
{
    if tails.len() == 0 {
        Seq::empty()
    } else {
        heads_in_turn(entries, tails.drop_last()) + heads_of(entries, tails.last())
    }
}

/// The nodes of the graph built from `entries`, in the order in which it
/// meets them.
pub open spec fn met_in_order(entries: Seq<Entry>) -> Seq<Seq<char>> {
    let tails = first_occurrences(tails_of(entries));
    first_occurrences(tails + heads_in_turn(entries, tails))
}

/// One more name: it is added unless it was met before.
pub proof fn lemma_first_occurrences_push(names: Seq<Seq<char>>, name: Seq<char>)
    ensures
        first_occurrences(names.push(name)) == if first_occurrences(names).contains(name) {
            first_occurrences(names)
        } else {
            first_occurrences(names).push(name)
        },
{
    assert(names.push(name).drop_last() =~= names);
}

/// The first occurrences hold what the list holds, each name once.
pub proof fn lemma_first_occurrences(names: Seq<Seq<char>>)
    ensures
        forall|i: int, j: int|
            0 <= i < j < first_occurrences(names).len() ==> first_occurrences(names)[i]
                != first_occurrences(names)[j],
        forall|x: Seq<char>| #[trigger]
            first_occurrences(names).contains(x) <==> names.contains(x),
    decreases names.len(),
{
    let met = first_occurrences(names);
    if names.len() > 0 {
        let before = names.drop_last();
        let last = names.last();
        lemma_first_occurrences(before);
        let seen = first_occurrences(before);
        assert forall|x: Seq<char>| met.contains(x) <==> names.contains(x) by {
            if met.contains(x) {
                let i = choose|i: int| 0 <= i < met.len() && met[i] == x;
                if i < seen.len() {
                    assert(seen[i] == x);
                    assert(seen.contains(x));
                    assert(first_occurrences(before).contains(x));
                    assert(before.contains(x));
                    let k = choose|k: int| 0 <= k < before.len() && before[k] == x;
                    assert(names[k] == x);
                } else {
                    assert(names[names.len() - 1] == x);
                }
            }
            if names.contains(x) {
                let k = choose|k: int| 0 <= k < names.len() && names[k] == x;
                if k < before.len() {
                    assert(before[k] == x);
                    assert(before.contains(x));
                    assert(first_occurrences(before).contains(x));
                    let i = choose|i: int| 0 <= i < seen.len() && seen[i] == x;
                    assert(met[i] == x);
                } else if seen.contains(last) {
                } else {
                    assert(met[seen.len() as int] == x);
                }
            }
        }
        assert forall|i: int, j: int| 0 <= i < j < met.len() implies met[i] != met[j] by {
            if j == seen.len() {
                assert(seen[i] == met[i]);
                assert(seen.contains(met[i]));
            }
        }
    }
}

/// A list without repeats is its own list of first occurrences.
pub proof fn lemma_first_occurrences_of_distinct(names: Seq<Seq<char>>)
    requires
        forall|i: int, j: int| 0 <= i < j < names.len() ==> names[i] != names[j],
    ensures
        first_occurrences(names) == names,
    decreases names.len(),
{
    if names.len() > 0 {
        let before = names.drop_last();
        lemma_first_occurrences_of_distinct(before);
        if before.contains(names.last()) {
            let k = choose|k: int| 0 <= k < before.len() && before[k] == names.last();
            assert(names[k] == names[names.len() - 1]);
        }
        assert(before.push(names.last()) =~= names);
    }
}

/// One more entry: its heads are added to those of its tail.
pub proof fn lemma_heads_of_push(entries: Seq<Entry>, entry: Entry, tail: Seq<char>)
    ensures
        heads_of(entries.push(entry), tail) == if entry.0 == tail {
            heads_of(entries, tail) + entry.1
        } else {
            heads_of(entries, tail)
        },
{
    assert(entries.push(entry).drop_last() =~= entries);
}

/// Nothing is listed for a name that is no tail.
pub proof fn lemma_heads_of_stranger(entries: Seq<Entry>, tail: Seq<char>)
    requires
        !tails_of(entries).contains(tail),
    ensures
        heads_of(entries, tail) == Seq::<Seq<char>>::empty(),
    decreases entries.len(),
{
    if entries.len() > 0 {
        let before = entries.drop_last();
        assert(tails_of(entries)[entries.len() - 1] == entries.last().0);
        if tails_of(before).contains(tail) {
            let k = choose|k: int| 0 <= k < before.len() && tails_of(before)[k] == tail;
            assert(tails_of(entries)[k] == tail);
        }
        lemma_heads_of_stranger(before, tail);
    }
}

/// The lists of a list, one after the other.
pub open spec fn joined(lists: Seq<Seq<Seq<char>>>) -> Seq<Seq<char>>
    decreases lists.len(),
{
    if lists.len() == 0 {
        Seq::empty()
    } else {
        joined(lists.drop_last()) + lists.last()
    }
}

/// One more list: it follows the lists before it.
pub proof fn lemma_joined_push(lists: Seq<Seq<Seq<char>>>, list: Seq<Seq<char>>)
    ensures
        joined(lists.push(list)) == joined(lists) + list,
{
    assert(lists.push(list).drop_last() =~= lists);
}

/// The heads listed for each tail, joined, are the heads in turn.
pub proof fn lemma_joined_heads(
    entries: Seq<Entry>,
    tails: Seq<Seq<char>>,
    lists: Seq<Seq<Seq<char>>>,
)
    requires
        lists.len() == tails.len(),
        forall|i: int| 0 <= i < tails.len() ==> lists[i] == heads_of(entries, tails[i]),
    ensures
        joined(lists) == heads_in_turn(entries, tails),
    decreases tails.len(),
{
    if tails.len() > 0 {
        lemma_joined_heads(entries, tails.drop_last(), lists.drop_last());
    }
}

/// Some entry lists `head` for `tail`.
pub open spec fn listed_for(entries: Seq<Entry>, tail: Seq<char>, head: Seq<char>) -> bool {
    exists|k: int|
        0 <= k < entries.len() && (#[trigger] entries[k]).0 == tail && entries[k].1.contains(head)
}

/// The heads of a tail are what some entry lists for it.
pub proof fn lemma_heads_of_holds(entries: Seq<Entry>, tail: Seq<char>, head: Seq<char>)
    ensures
        heads_of(entries, tail).contains(head) <==> listed_for(entries, tail, head),
    decreases entries.len(),
{
    if entries.len() > 0 {
        let before = entries.drop_last();
        let last = entries.last();
        let found = heads_of(before, tail);
        lemma_heads_of_holds(before, tail, head);
        if heads_of(entries, tail).contains(head) {
            let all = heads_of(entries, tail);
            let q = choose|q: int| 0 <= q < all.len() && all[q] == head;
            if last.0 == tail && q >= found.len() {
                assert(last.1[q - found.len()] == head);
                assert(entries[entries.len() - 1] == last);
            } else {
                assert(found[q] == head);
                assert(found.contains(head));
                let k = choose|k: int|
                    0 <= k < before.len() && (#[trigger] before[k]).0 == tail
                        && before[k].1.contains(head);
                assert(entries[k] == before[k]);
            }
        }
        if listed_for(entries, tail, head) {
            let k = choose|k: int|
                0 <= k < entries.len() && (#[trigger] entries[k]).0 == tail
                    && entries[k].1.contains(head);
            if k < before.len() {
                assert(before[k] == entries[k]);
                assert(listed_for(before, tail, head));
                let q = choose|q: int| 0 <= q < found.len() && found[q] == head;
                assert(heads_of(entries, tail)[q] == head);
            } else {
                let q = choose|q: int| 0 <= q < last.1.len() && last.1[q] == head;
                assert(heads_of(entries, tail)[found.len() + q] == head);
            }
        }
    }
}

/// What the heads in turn hold, some entry lists for one of the tails.
pub proof fn lemma_heads_in_turn_holds(entries: Seq<Entry>, tails: Seq<Seq<char>>, x: int)
    requires
        0 <= x < heads_in_turn(entries, tails).len(),
    ensures
        exists|i: int|
            0 <= i < tails.len() && listed_for(
                entries,
                #[trigger] tails[i],
                heads_in_turn(entries, tails)[x],
            ),
    decreases tails.len(),
{
    if tails.len() > 0 {
        let before = tails.drop_last();
        let head = heads_in_turn(entries, tails)[x];
        if x < heads_in_turn(entries, before).len() {
            lemma_heads_in_turn_holds(entries, before, x);
            let i = choose|i: int|
                0 <= i < before.len() && listed_for(entries, #[trigger] before[i], head);
            assert(tails[i] == before[i]);
        } else {
            let q = x - heads_in_turn(entries, before).len();
            assert(heads_of(entries, tails.last())[q] == head);
            assert(heads_of(entries, tails.last()).contains(head));
            lemma_heads_of_holds(entries, tails.last(), head);
            assert(tails[tails.len() - 1] == tails.last());
        }
    }
}

/// Where every head is a tail as well, the nodes are the tails, each where
/// it first occurs.
pub proof fn lemma_met_when_heads_are_tails(entries: Seq<Entry>)
    requires
        forall|k: int, q: int|
            0 <= k < entries.len() && 0 <= q < entries[k].1.len() ==> tails_of(entries).contains(
                #[trigger] entries[k].1[q],
            ),
    ensures
        met_in_order(entries) == first_occurrences(tails_of(entries)),
{
    let tails = first_occurrences(tails_of(entries));
    let more = heads_in_turn(entries, tails);
    lemma_first_occurrences(tails_of(entries));
    assert forall|x: int| 0 <= x < more.len() implies tails.contains(#[trigger] more[x]) by {
        lemma_heads_in_turn_holds(entries, tails, x);
        let i = choose|i: int| 0 <= i < tails.len() && listed_for(entries, #[trigger] tails[i], more[x]);
        let k = choose|k: int|
            0 <= k < entries.len() && (#[trigger] entries[k]).0 == tails[i] && entries[k].1.contains(
                more[x],
            );
        let q = choose|q: int| 0 <= q < entries[k].1.len() && entries[k].1[q] == more[x];
        assert(tails_of(entries).contains(entries[k].1[q]));
        assert(first_occurrences(tails_of(entries)).contains(more[x]));
    }
    lemma_first_occurrences_append_old(tails, more);
    lemma_first_occurrences_of_distinct(tails);
}

/// The lists of heads of a list of entries.
pub open spec fn lists_of(entries: Seq<Entry>) -> Seq<Seq<Seq<char>>> {
    Seq::new(entries.len(), |i: int| entries[i].1)
}

/// For a tail that only one entry names, the heads listed are those of that
/// entry.
pub proof fn lemma_heads_of_single(entries: Seq<Entry>, i: int)
    requires
        0 <= i < entries.len(),
        forall|j: int| 0 <= j < entries.len() && j != i ==> entries[j].0 != entries[i].0,
    ensures
        heads_of(entries, entries[i].0) == entries[i].1,
    decreases entries.len(),
{
    let before = entries.drop_last();
    let tail = entries[i].0;
    if i == entries.len() - 1 {
        assert(!tails_of(before).contains(tail)) by {
            if tails_of(before).contains(tail) {
                let k = choose|k: int| 0 <= k < before.len() && tails_of(before)[k] == tail;
                assert(entries[k].0 == tail);
            }
        }
        lemma_heads_of_stranger(before, tail);
        assert(Seq::<Seq<char>>::empty() + entries[i].1 =~= entries[i].1);
    } else {
        assert(before[i] == entries[i]);
        assert forall|j: int| 0 <= j < before.len() && j != i implies before[j].0
            != before[i].0 by {
            assert(before[j] == entries[j]);
        }
        lemma_heads_of_single(before, i);
    }
}

/// Where every entry has a tail of its own, the nodes are met as the tails
/// stand, followed by the heads as they stand.
pub proof fn lemma_met_with_tails_of_their_own(entries: Seq<Entry>)
    requires
        forall|i: int, j: int|
            0 <= i < j < entries.len() ==> entries[i].0 != entries[j].0,
    ensures
        met_in_order(entries) == first_occurrences(tails_of(entries) + joined(lists_of(entries))),
{
    let tails = tails_of(entries);
    lemma_first_occurrences_of_distinct(tails);
    assert forall|i: int| 0 <= i < tails.len() implies lists_of(entries)[i] == heads_of(
        entries,
        tails[i],
    ) by {
        lemma_heads_of_single(entries, i);
    }
    lemma_joined_heads(entries, tails, lists_of(entries));
}

/// Names that were all met before add nothing.
pub proof fn lemma_first_occurrences_append_old(names: Seq<Seq<char>>, more: Seq<Seq<char>>)
    requires
        forall|k: int| 0 <= k < more.len() ==> names.contains(#[trigger] more[k]),
    ensures
        first_occurrences(names + more) == first_occurrences(names),
    decreases more.len(),
{
    if more.len() == 0 {
        assert(names + more =~= names);
    } else {
        let before = more.drop_last();
        assert forall|k: int| 0 <= k < before.len() implies names.contains(
            #[trigger] before[k],
        ) by {
            assert(before[k] == more[k]);
        }
        lemma_first_occurrences_append_old(names, before);
        assert(names + more =~= (names + before).push(more.last()));
        lemma_first_occurrences_push(names + before, more.last());
        lemma_first_occurrences(names);
        assert(names.contains(more[more.len() - 1]));
    }
}

/// Names that were not met before, each once, are added as they stand.
pub proof fn lemma_first_occurrences_append_new(names: Seq<Seq<char>>, more: Seq<Seq<char>>)
    requires
        forall|i: int, j: int| 0 <= i < j < more.len() ==> more[i] != more[j],
        forall|k: int| 0 <= k < more.len() ==> !names.contains(#[trigger] more[k]),
    ensures
        first_occurrences(names + more) == first_occurrences(names) + more,
    decreases more.len(),
{
    if more.len() == 0 {
        assert(names + more =~= names);
        assert(first_occurrences(names) + more =~= first_occurrences(names));
    } else {
        let before = more.drop_last();
        let last = more.last();
        assert forall|k: int| 0 <= k < before.len() implies !names.contains(
            #[trigger] before[k],
        ) by {
            assert(before[k] == more[k]);
        }
        lemma_first_occurrences_append_new(names, before);
        assert(names + more =~= (names + before).push(last));
        lemma_first_occurrences_push(names + before, last);
        lemma_first_occurrences(names);
        let met = first_occurrences(names) + before;
        assert(!met.contains(last)) by {
            if met.contains(last) {
                let k = choose|k: int| 0 <= k < met.len() && met[k] == last;
                if k < first_occurrences(names).len() {
                    assert(first_occurrences(names).contains(last));
                    assert(names.contains(more[more.len() - 1]));
                } else {
                    assert(more[k - first_occurrences(names).len()] == more[more.len() - 1]);
                }
            }
        }
        assert(met.push(last) =~= first_occurrences(names) + more);
    }
}

/// What the joined lists hold, one of the lists holds.
pub proof fn lemma_joined_holds(lists: Seq<Seq<Seq<char>>>, k: int)
    requires
        0 <= k < joined(lists).len(),
    ensures
        exists|i: int, q: int|
            0 <= i < lists.len() && 0 <= q < lists[i].len() && #[trigger] lists[i][q] == joined(
                lists,
            )[k],
    decreases lists.len(),
{
    if lists.len() > 0 {
        let before = lists.drop_last();
        if k < joined(before).len() {
            lemma_joined_holds(before, k);
            let (i, q) = choose|i: int, q: int|
                0 <= i < before.len() && 0 <= q < before[i].len() && #[trigger] before[i][q]
                    == joined(before)[k];
            assert(lists[i][q] == joined(lists)[k]);
        } else {
            let q = k - joined(before).len();
            assert(lists[lists.len() - 1][q] == joined(lists)[k]);
        }
    }
}

} // verus!
