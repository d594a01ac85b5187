//! The mathematical model of a store's contents: a sequence of records in
//! insertion order, oldest first, together with the operations on it and
//! the laws that relate them.

use crate::record::PasteView;
use vstd::prelude::*;

verus! {

/// Some record in `s` has the key `key`.
pub open spec fn has_key(s: Seq<PasteView>, key: Seq<char>) -> bool {
    exists|i: int| 0 <= i < s.len() && (#[trigger] s[i]).title == key
}

/// No key occurs twice in `s`.
pub open spec fn distinct_keys(s: Seq<PasteView>) -> bool {
    forall|i: int, j: int|
        0 <= i < j < s.len() ==> (#[trigger] s[i]).title != (#[trigger] s[j]).title
}

/// The place of a record with the key `key`. Where the keys of `s` are
/// distinct and `key` is among them, it is the only such place.
pub open spec fn position(s: Seq<PasteView>, key: Seq<char>) -> int {
    choose|i: int| 0 <= i < s.len() && (#[trigger] s[i]).title == key
}

/// The payload stored under `key`, if there is one.
pub open spec fn lookup(s: Seq<PasteView>, key: Seq<char>) -> Option<Seq<u8>> {
    if has_key(s, key) {
        Some(s[position(s, key)].content)
    } else {
        None
    }
}

/// The keys of `s`, in order.
pub open spec fn keys(s: Seq<PasteView>) -> Seq<Seq<char>> {
    s.map_values(|e: PasteView| e.title)
}

/// The predicate that holds of the records whose key is not `key`.
pub open spec fn keyed_otherwise(key: Seq<char>) -> spec_fn(PasteView) -> bool {
    |e: PasteView| e.title != key
}

/// `s` without the records whose key is `key`; the others keep their order.
pub open spec fn without_key(s: Seq<PasteView>, key: Seq<char>) -> Seq<PasteView> {
    s.filter(keyed_otherwise(key))
}

/// `s` after `e` was put into it, with no regard to capacity: a record that
/// had the same key is gone, and `e` is the newest record.
pub open spec fn put(s: Seq<PasteView>, e: PasteView) -> Seq<PasteView> {
    without_key(s, e.title).push(e)
}

/// `s` cut down to its newest `capacity` records.
pub open spec fn trimmed(s: Seq<PasteView>, capacity: nat) -> Seq<PasteView> {
    if s.len() > capacity {
        s.skip(s.len() - capacity)
    } else {
        s
    }
}

/// `s` after `e` was inserted under the capacity `capacity`: `e` is put,
/// then the oldest records leave until no more than `capacity` are left.
pub open spec fn inserted(s: Seq<PasteView>, e: PasteView, capacity: nat) -> Seq<PasteView> {
    trimmed(put(s, e), capacity)
}

/// `s` after each record of `entries` was inserted in turn.
pub open spec fn inserted_all(s: Seq<PasteView>, entries: Seq<PasteView>, capacity: nat) -> Seq<
    PasteView,
>
    decreases entries.len(),
{
    if entries.len() == 0 {
        s
    } else {
        inserted(inserted_all(s, entries.drop_last(), capacity), entries.last(), capacity)
    }
}

/// The contents rebuilt from the records of a snapshot: each is put in
/// turn, and nothing is evicted.
pub open spec fn hydrated(entries: Seq<PasteView>) -> Seq<PasteView>
    decreases entries.len(),
{
    if entries.len() == 0 {
        Seq::empty()
    } else {
        put(hydrated(entries.drop_last()), entries.last())
    }
}

/// Removing a key that does not occur changes nothing.
pub proof fn lemma_without_absent_key(s: Seq<PasteView>, key: Seq<char>)
    requires
        !has_key(s, key),
    ensures
        without_key(s, key) == s,
    decreases s.len(),
{
    reveal(Seq::filter);
    if s.len() > 0 {
        let rest = s.drop_last();
        assert forall|i: int| 0 <= i < rest.len() implies (#[trigger] rest[i]).title != key by {
            assert(s[i].title != key);
        }
        lemma_without_absent_key(rest, key);
        assert(s.last() == s[s.len() - 1]);
        assert(rest.push(s.last()) =~= s);
    }
}

/// Where the keys are distinct, removing the key at place `i` removes that
/// one record.
pub proof fn lemma_without_present_key(s: Seq<PasteView>, i: int)
    requires
        distinct_keys(s),
        0 <= i < s.len(),
    ensures
        without_key(s, s[i].title) == s.remove(i),
{
    let key = s[i].title;
    let before = s.take(i);
    let after = s.skip(i + 1);
    let one = seq![s[i]];
    assert(!has_key(before, key)) by {
        assert forall|k: int| 0 <= k < before.len() implies (#[trigger] before[k]).title
            != key by {
            assert(before[k] == s[k]);
        }
    }
    assert(!has_key(after, key)) by {
        assert forall|k: int| 0 <= k < after.len() implies (#[trigger] after[k]).title
            != key by {
            assert(after[k] == s[i + 1 + k]);
        }
    }
    lemma_without_absent_key(before, key);
    lemma_without_absent_key(after, key);
    assert(without_key(one, key) == Seq::<PasteView>::empty()) by {
        reveal_with_fuel(Seq::filter, 2);
        assert(one.drop_last() =~= Seq::<PasteView>::empty());
    }
    assert(s =~= (before + one) + after);
    Seq::filter_distributes_over_add(before, one, keyed_otherwise(key));
    Seq::filter_distributes_over_add(before + one, after, keyed_otherwise(key));
    assert(s.remove(i) =~= before + after);
}

/// Removing a key leaves a sequence in which that key does not occur, whose
/// records all come from `s`, and whose keys are distinct where those of `s`
/// were.
pub proof fn lemma_without_key_properties(s: Seq<PasteView>, key: Seq<char>)
    ensures
        !has_key(without_key(s, key), key),
        without_key(s, key).len() <= s.len(),
        forall|other: Seq<char>|
            other != key ==> (has_key(without_key(s, key), other) <==> has_key(s, other)),
        distinct_keys(s) ==> distinct_keys(without_key(s, key)),
    decreases s.len(),
{
    reveal(Seq::filter);
    let out = without_key(s, key);
    if s.len() > 0 {
        let rest = s.drop_last();
        let last = s.last();
        let sub = without_key(rest, key);
        lemma_without_key_properties(rest, key);
        assert forall|other: Seq<char>| other != key implies (has_key(out, other) <==> has_key(
            s,
            other,
        )) by {
            if has_key(out, other) {
                let k = choose|k: int| 0 <= k < out.len() && (#[trigger] out[k]).title == other;
                if k < sub.len() {
                    assert(sub[k].title == other);
                    assert(has_key(rest, other));
                    let m = choose|m: int|
                        0 <= m < rest.len() && (#[trigger] rest[m]).title == other;
                    assert(s[m].title == other);
                } else {
                    assert(s[s.len() - 1].title == other);
                }
            }
            if has_key(s, other) {
                let m = choose|m: int| 0 <= m < s.len() && (#[trigger] s[m]).title == other;
                if m < rest.len() {
                    assert(rest[m].title == other);
                    assert(has_key(rest, other));
                    assert(has_key(sub, other));
                    let k = choose|k: int|
                        0 <= k < sub.len() && (#[trigger] sub[k]).title == other;
                    assert(out[k].title == other);
                } else {
                    assert(out[out.len() - 1].title == other);
                }
            }
        }
        if distinct_keys(s) {
            assert(distinct_keys(rest)) by {
                assert forall|i: int, j: int| 0 <= i < j < rest.len() implies (
                #[trigger] rest[i]).title != (#[trigger] rest[j]).title by {
                    assert(s[i].title != s[j].title);
                }
            }
            if last.title != key {
                assert forall|i: int, j: int| 0 <= i < j < out.len() implies (
                #[trigger] out[i]).title != (#[trigger] out[j]).title by {
                    if j < sub.len() {
                        assert(sub[i].title != sub[j].title);
                    } else {
                        assert(out[i] == sub[i]);
                        if sub[i].title == last.title {
                            assert(has_key(sub, last.title));
                            assert(has_key(rest, last.title));
                            let m = choose|m: int|
                                0 <= m < rest.len() && (#[trigger] rest[m]).title == last.title;
                            assert(s[m].title != s[s.len() - 1].title);
                        }
                    }
                }
            }
        }
    }
}

/// Where the keys of `s` are distinct, so are those of `s` after a record
/// was put, and that record is the newest.
pub proof fn lemma_put_properties(s: Seq<PasteView>, e: PasteView)
    requires
        distinct_keys(s),
    ensures
        distinct_keys(put(s, e)),
        put(s, e).len() <= s.len() + 1,
        put(s, e).last() == e,
        forall|other: Seq<char>|
            other != e.title ==> (has_key(put(s, e), other) <==> has_key(s, other)),
{
    let rest = without_key(s, e.title);
    let out = put(s, e);
    lemma_without_key_properties(s, e.title);
    assert forall|i: int, j: int| 0 <= i < j < out.len() implies (#[trigger] out[i]).title
        != (#[trigger] out[j]).title by {
        if j < rest.len() {
            assert(rest[i].title != rest[j].title);
        } else {
            assert(out[i] == rest[i]);
        }
    }
    assert forall|other: Seq<char>| other != e.title implies (has_key(out, other) <==> has_key(
        s,
        other,
    )) by {
        if has_key(out, other) {
            let k = choose|k: int| 0 <= k < out.len() && (#[trigger] out[k]).title == other;
            assert(rest[k].title == other);
            assert(has_key(rest, other));
        }
        if has_key(s, other) {
            assert(has_key(rest, other));
            let k = choose|k: int| 0 <= k < rest.len() && (#[trigger] rest[k]).title == other;
            assert(out[k].title == other);
        }
    }
}

/// Cutting a sequence down leaves no more than the capacity, keeps distinct
/// keys distinct, and keeps the newest record where the capacity is positive.
pub proof fn lemma_trimmed_properties(s: Seq<PasteView>, capacity: nat)
    ensures
        trimmed(s, capacity).len() <= capacity,
        trimmed(s, capacity).len() <= s.len(),
        distinct_keys(s) ==> distinct_keys(trimmed(s, capacity)),
        capacity > 0 && s.len() > 0 ==> trimmed(s, capacity).len() > 0 && trimmed(
            s,
            capacity,
        ).last() == s.last(),
{
    let out = trimmed(s, capacity);
    if distinct_keys(s) && s.len() > capacity {
        let cut = s.len() - capacity;
        assert forall|i: int, j: int| 0 <= i < j < out.len() implies (#[trigger] out[i]).title
            != (#[trigger] out[j]).title by {
            assert(s[cut + i].title != s[cut + j].title);
        }
    }
}

/// Where the keys are distinct, the payload found under the key at place
/// `i` is that of the record at place `i`.
pub proof fn lemma_lookup_at(s: Seq<PasteView>, i: int)
    requires
        distinct_keys(s),
        0 <= i < s.len(),
    ensures
        has_key(s, s[i].title),
        position(s, s[i].title) == i,
        lookup(s, s[i].title) == Some(s[i].content),
{
    let key = s[i].title;
    assert(s[i].title == key);
    let p = position(s, key);
    assert(0 <= p < s.len() && s[p].title == key);
    if p < i {
        assert(s[p].title != s[i].title);
    }
    if i < p {
        assert(s[i].title != s[p].title);
    }
}

/// The keys of a part of `s` are distinct where those of `s` are.
pub proof fn lemma_distinct_keys_of_prefix(s: Seq<PasteView>)
    requires
        distinct_keys(s),
        s.len() > 0,
    ensures
        distinct_keys(s.drop_last()),
        !has_key(s.drop_last(), s.last().title),
{
    let rest = s.drop_last();
    assert forall|i: int, j: int| 0 <= i < j < rest.len() implies (#[trigger] rest[i]).title
        != (#[trigger] rest[j]).title by {
        assert(s[i].title != s[j].title);
    }
    assert forall|k: int| 0 <= k < rest.len() implies (#[trigger] rest[k]).title
        != s.last().title by {
        assert(s[k].title != s[s.len() - 1].title);
    }
}

/// The capacity bound: after one insert or more, the store holds no more
/// records than its capacity, whatever it held before.
pub proof fn lemma_capacity_bound(
    s: Seq<PasteView>,
    entries: Seq<PasteView>,
    capacity: nat,
)
    requires
        entries.len() > 0,
    ensures
        inserted_all(s, entries, capacity).len() <= capacity,
{
    lemma_trimmed_properties(
        put(inserted_all(s, entries.drop_last(), capacity), entries.last()),
        capacity,
    );
}

/// Inserting keeps the keys distinct.
pub proof fn lemma_inserted_all_keys_distinct(
    s: Seq<PasteView>,
    entries: Seq<PasteView>,
    capacity: nat,
)
    requires
        distinct_keys(s),
    ensures
        distinct_keys(inserted_all(s, entries, capacity)),
    decreases entries.len(),
{
    if entries.len() > 0 {
        let prev = inserted_all(s, entries.drop_last(), capacity);
        lemma_inserted_all_keys_distinct(s, entries.drop_last(), capacity);
        lemma_put_properties(prev, entries.last());
        lemma_trimmed_properties(put(prev, entries.last()), capacity);
    }
}

/// First in, first out: records with distinct keys, inserted one after the
/// other into an empty store, leave the newest `capacity` of them in the
/// order of their insertion. With one record more than the capacity, the
/// first is gone and the others are all there.
pub proof fn lemma_fifo_eviction(entries: Seq<PasteView>, capacity: nat)
    requires
        distinct_keys(entries),
    ensures
        inserted_all(Seq::empty(), entries, capacity) == trimmed(entries, capacity),
        entries.len() == capacity + 1 ==> {
            &&& inserted_all(Seq::empty(), entries, capacity) == entries.drop_first()
            &&& !has_key(inserted_all(Seq::empty(), entries, capacity), entries.first().title)
        },
    decreases entries.len(),
{
    let out = inserted_all(Seq::empty(), entries, capacity);
    if entries.len() > 0 {
        let rest = entries.drop_last();
        let last = entries.last();
        let prev = inserted_all(Seq::empty(), rest, capacity);
        lemma_distinct_keys_of_prefix(entries);
        lemma_fifo_eviction(rest, capacity);
        assert(!has_key(prev, last.title)) by {
            assert forall|k: int| 0 <= k < prev.len() implies (#[trigger] prev[k]).title
                != last.title by {
                if rest.len() > capacity {
                    assert(prev[k] == rest[rest.len() - capacity + k]);
                } else {
                    assert(prev[k] == rest[k]);
                }
            }
        }
        lemma_without_absent_key(prev, last.title);
        assert(out =~= trimmed(entries, capacity));
    }
    if entries.len() == capacity + 1 {
        let first = entries.first();
        assert(out =~= entries.drop_first());
        assert forall|k: int| 0 <= k < out.len() implies (#[trigger] out[k]).title
            != first.title by {
            assert(entries[0].title != entries[k + 1].title);
        }
    }
}

/// Inserting again under a key that is held moves the record to the newest
/// end: where the store is within its capacity, the record at the key's old
/// place is gone, the others keep their order, and the new record is last.
pub proof fn lemma_reinsert_moves_to_end(
    s: Seq<PasteView>,
    i: int,
    content: Seq<u8>,
    capacity: nat,
)
    requires
        distinct_keys(s),
        0 <= i < s.len() <= capacity,
    ensures
        inserted(s, PasteView { title: s[i].title, content }, capacity) == s.remove(i).push(
            PasteView { title: s[i].title, content },
        ),
{
    lemma_without_present_key(s, i);
}

/// What is rebuilt from any sequence of records has distinct keys.
pub proof fn lemma_hydrated_keys_distinct(entries: Seq<PasteView>)
    ensures
        distinct_keys(hydrated(entries)),
    decreases entries.len(),
{
    if entries.len() > 0 {
        lemma_hydrated_keys_distinct(entries.drop_last());
        lemma_put_properties(hydrated(entries.drop_last()), entries.last());
    }
}

/// Records with distinct keys are rebuilt as they are: none is added,
/// dropped or moved.
pub proof fn lemma_hydrated_of_distinct_keys(entries: Seq<PasteView>)
    requires
        distinct_keys(entries),
    ensures
        hydrated(entries) == entries,
    decreases entries.len(),
{
    if entries.len() > 0 {
        lemma_distinct_keys_of_prefix(entries);
        lemma_hydrated_of_distinct_keys(entries.drop_last());
        lemma_without_absent_key(entries.drop_last(), entries.last().title);
        assert(entries.drop_last().push(entries.last()) =~= entries);
    } else {
        assert(entries =~= Seq::empty());
    }
}

} // verus!
