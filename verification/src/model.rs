use vstd::prelude::*;

use crate::key::Key;

verus! {

// Mathematical model of an interner's state: the sequence of interned
// values in insertion order. The zero-based position of a value in this
// sequence is the index its key stands for.

/// Whether `v` has already been interned.
pub open spec fn contains_entry<A>(entries: Seq<A>, v: A) -> bool {
    exists|i: int| 0 <= i < entries.len() && entries[i] == v
}

/// The index of an already interned value.
pub open spec fn entry_index<A>(entries: Seq<A>, v: A) -> int {
    choose|i: int| 0 <= i < entries.len() && entries[i] == v
}

/// No value is interned twice.
pub open spec fn entries_distinct<A>(entries: Seq<A>) -> bool {
    forall|i: int, j: int| 0 <= i < j < entries.len() ==> entries[i] != entries[j]
}

/// The entries after interning `v`: unchanged when `v` is already
/// present, extended by `v` otherwise.
pub open spec fn interned_entries<A>(entries: Seq<A>, v: A) -> Seq<A> {
    if contains_entry(entries, v) {
        entries
    } else {
        entries.push(v)
    }
}

/// The index that interning `v` hands out: the index of the existing
/// entry when `v` is already present, the next fresh index otherwise.
pub open spec fn interned_index<A>(entries: Seq<A>, v: A) -> int {
    if contains_entry(entries, v) {
        entry_index(entries, v)
    } else {
        entries.len() as int
    }
}

/// The entries after interning each item in turn, first to last.
pub open spec fn interned_all<A>(entries: Seq<A>, items: Seq<A>) -> Seq<A>
    decreases items.len(),
{
    if items.len() == 0 {
        entries
    } else {
        interned_all(interned_entries(entries, items[0]), items.drop_first())
    }
}

/// Interning a batch never shrinks the entries.
pub proof fn lemma_interned_all_len_grows<A>(entries: Seq<A>, items: Seq<A>)
    ensures
        entries.len() <= interned_all(entries, items).len(),
    decreases items.len(),
{
    if items.len() > 0 {
        lemma_interned_all_len_grows(interned_entries(entries, items[0]), items.drop_first());
    }
}

/// What resolving index `i` returns: the entry at `i`, or nothing when
/// `i` is out of range.
pub open spec fn resolved_entry<A>(entries: Seq<A>, i: int) -> Option<A> {
    if 0 <= i < entries.len() {
        Some(entries[i])
    } else {
        None
    }
}

/// The summed length of all entries.
pub open spec fn total_len<A>(entries: Seq<Seq<A>>) -> int
    decreases entries.len(),
{
    if entries.len() == 0 {
        0
    } else {
        total_len(entries.drop_last()) + entries.last().len()
    }
}

/// The smaller of two integers.
pub open spec fn min_int(a: int, b: int) -> int {
    if a <= b {
        a
    } else {
        b
    }
}

/// In distinct entries, the index of an interned value is the only
/// position holding it.
pub proof fn lemma_entry_index_unique<A>(entries: Seq<A>, v: A, i: int)
    requires
        entries_distinct(entries),
        0 <= i < entries.len(),
        entries[i] == v,
    ensures
        contains_entry(entries, v),
        entry_index(entries, v) == i,
{
    assert(contains_entry(entries, v));
    let j = entry_index(entries, v);
    assert(0 <= j < entries.len() && entries[j] == v);
    if i < j {
        assert(entries[i] != entries[j]);
    } else if j < i {
        assert(entries[j] != entries[i]);
    }
}

/// Interning keeps the entries distinct.
pub proof fn lemma_intern_keeps_distinct<A>(entries: Seq<A>, v: A)
    requires
        entries_distinct(entries),
    ensures
        entries_distinct(interned_entries(entries, v)),
{
    if !contains_entry(entries, v) {
        let e1 = entries.push(v);
        assert forall|i: int, j: int| 0 <= i < j < e1.len() implies e1[i] != e1[j] by {
            if j == entries.len() {
                assert(e1[i] == entries[i]);
                if e1[i] == v {
                    assert(contains_entry(entries, v));
                }
            }
        }
    }
}

/// Law: interning hands out an index that resolves to the value, and
/// interning the same value again returns the same index and leaves the
/// entries unchanged.
pub proof fn lemma_intern_idempotent<A>(entries: Seq<A>, v: A)
    ensures
        0 <= interned_index(entries, v) < interned_entries(entries, v).len(),
        interned_entries(entries, v)[interned_index(entries, v)] == v,
        interned_entries(interned_entries(entries, v), v) == interned_entries(entries, v),
        interned_index(interned_entries(entries, v), v) == interned_index(entries, v),
{
    let e1 = interned_entries(entries, v);
    let k1 = interned_index(entries, v);
    if contains_entry(entries, v) {
        assert(0 <= k1 < entries.len() && entries[k1] == v);
    } else {
        assert(e1[entries.len() as int] == v);
        assert(contains_entry(e1, v));
        let j = entry_index(e1, v);
        assert(0 <= j < e1.len() && e1[j] == v);
        if j < entries.len() {
            assert(entries[j] == v);
            assert(contains_entry(entries, v));
        }
        assert(j == entries.len() as int);
    }
    assert(contains_entry(e1, v)) by {
        assert(e1[k1] == v);
    }
}

/// Law: interning two different values hands out two different indices.
pub proof fn lemma_intern_distinct<A>(entries: Seq<A>, v1: A, v2: A)
    requires
        v1 != v2,
    ensures
        interned_index(interned_entries(entries, v1), v2) != interned_index(entries, v1),
{
    let e1 = interned_entries(entries, v1);
    let k1 = interned_index(entries, v1);
    lemma_intern_idempotent(entries, v1);
    let k2 = interned_index(e1, v2);
    if contains_entry(e1, v2) {
        assert(e1[k2] == v2);
        assert(e1[k1] == v1);
    } else {
        assert(k2 == e1.len() as int);
    }
}

/// Law: interning two different values, one after the other, hands out
/// two different keys. `k1` and `k2` are the keys the two interning
/// calls returned, pinned by their contracts to the interned indices.
pub proof fn lemma_intern_distinct_keys<A>(entries: Seq<A>, v1: A, v2: A, k1: Key, k2: Key)
    requires
        v1 != v2,
        k1.idx() == interned_index(entries, v1),
        k2.idx() == interned_index(interned_entries(entries, v1), v2),
    ensures
        k1 != k2,
{
    lemma_intern_distinct(entries, v1, v2);
}

/// Law: a lookup after interning finds the entry and returns exactly the
/// index that interning handed out.
pub proof fn lemma_lookup_after_intern<A>(entries: Seq<A>, v: A)
    requires
        entries_distinct(entries),
    ensures
        contains_entry(interned_entries(entries, v), v),
        entry_index(interned_entries(entries, v), v) == interned_index(entries, v),
{
    lemma_intern_idempotent(entries, v);
    lemma_intern_keeps_distinct(entries, v);
    lemma_entry_index_unique(
        interned_entries(entries, v),
        v,
        interned_index(entries, v),
    );
}

/// Law: once the entries are cleared, no key resolves to anything.
pub proof fn lemma_empty_resolves_nothing<A>(i: int)
    ensures
        resolved_entry(Seq::<A>::empty(), i) is None,
{
}

} // verus!
