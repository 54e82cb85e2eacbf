//! The interning engine, working on byte slices.
//!
//! The engine keeps two structures in step: an append-only store that
//! lists the interned values in insertion order, and a hash index mapping
//! each value back to the store position holding it. A key is the
//! complement-encoded store position.

use vstd::prelude::*;

use crate::backing;
use crate::backing::index_entries;
use crate::backing::store_entries;
use crate::key::Key;
use crate::model::contains_entry;
use crate::model::entries_distinct;
use crate::model::entry_index;
use crate::model::interned_all;
use crate::model::interned_entries;
use crate::model::interned_index;
use crate::model::lemma_entry_index_unique;
use crate::model::lemma_interned_all_len_grows;
use crate::model::min_int;
use crate::model::total_len;

verus! {

/// Bytes the memory diagnostic charges for the interner itself: the two
/// collections' own structures, counted at eight machine words.
pub const INSTANCE_OVERHEAD: usize = 64;

/// Bytes the memory diagnostic charges per interned entry beside its
/// payload: three machine words for the store's buffer header, three
/// for the index's key header, and one for the index's position entry.
pub const ENTRY_OVERHEAD: usize = 56;

/// Narrow a fresh store position to the key-sized count. The key space
/// ends at `u32::MAX`; a position beyond it cannot be represented.
pub fn assert_key(key: usize) -> (r: u32)
    requires
        key < u32::MAX as usize,
    ensures
        r as int == key as int,
{
    key as u32
}

/// Byte-slice interner: deduplicates slices and exchanges them for
/// [`Key`]s, resolvable back in O(1).
pub struct ParaCord {
    store: boxcar::Vec<Vec<u8>>,
    index: clashmap::ClashMap<Vec<u8>, u32, foldhash::fast::RandomState>,
}

impl View for ParaCord {
    type V = Seq<Seq<u8>>;

    /// The interned values, in insertion order.
    closed spec fn view(&self) -> Seq<Seq<u8>> {
        store_entries(self.store)
    }
}

impl ParaCord {
    /// The index lists exactly the stored values, each under its store
    /// position; no more values are stored than keys can address, and no
    /// value is longer than a key-sized count can measure.
    pub closed spec fn wf(self) -> bool {
        &&& self@.len() <= u32::MAX
        &&& forall|i: int|
            0 <= i < self@.len() ==> index_entries(self.index).contains_key(#[trigger] self@[i])
                && index_entries(self.index)[self@[i]] == i as u32
        &&& forall|b: Seq<u8>|
            #[trigger] index_entries(self.index).contains_key(b) ==> (index_entries(self.index)[b]
                as int) < self@.len() && self@[index_entries(self.index)[b] as int] == b
        &&& forall|i: int| 0 <= i < self@.len() ==> (#[trigger] self@[i]).len() <= u32::MAX
    }

    /// A well-formed interner holds each value at most once.
    pub proof fn lemma_wf_distinct(self)
        requires
            self.wf(),
        ensures
            entries_distinct(self@),
    {
        assert forall|i: int, j: int| 0 <= i < j < self@.len() implies self@[i] != self@[j] by {
            if self@[i] == self@[j] {
                assert(index_entries(self.index)[self@[i]] == i as u32);
                assert(index_entries(self.index)[self@[j]] == j as u32);
            }
        }
    }

    /// A well-formed interner stays within the key space: it holds at
    /// most `u32::MAX` entries, none longer than `u32::MAX`.
    pub proof fn lemma_wf_bounds(self)
        requires
            self.wf(),
        ensures
            self@.len() <= u32::MAX,
            forall|i: int| 0 <= i < self@.len() ==> (#[trigger] self@[i]).len() <= u32::MAX,
    {
    }

    /// Create an empty interner that hashes with the given state.
    pub fn with_hasher(hasher: foldhash::fast::RandomState) -> (r: ParaCord)
        ensures
            r.wf(),
            r@ == Seq::<Seq<u8>>::empty(),
    {
        ParaCord { store: backing::store_new(), index: backing::index_new(hasher) }
    }

    /// How many slices have been interned.
    pub fn len(&self) -> (n: usize)
        ensures
            n as int == self@.len(),
    {
        backing::store_len(&self.store)
    }

    /// Whether no slice has been interned.
    pub fn is_empty(&self) -> (b: bool)
        ensures
            b == (self@.len() == 0),
    {
        self.len() == 0
    }

    /// Look the slice up without interning it. Returns the key of the
    /// entry holding the slice, or `None` when it was never interned.
    pub fn get(&self, s: &[u8]) -> (r: Option<Key>)
        requires
            self.wf(),
        ensures
            r matches Some(k) ==> contains_entry(self@, s@) && k.valid() && k.idx() == entry_index(self@, s@),
            r is None ==> !contains_entry(self@, s@),
    {
        match backing::index_find(&self.index, s) {
            Some(i) => {
                proof {
                    self.lemma_wf_distinct();
                    lemma_entry_index_unique(self@, s@, i as int);
                }
                Some(Key::from_index(i as usize))
            },
            None => {
                proof {
                    if contains_entry(self@, s@) {
                        let w = entry_index(self@, s@);
                        assert(index_entries(self.index).contains_key(self@[w]));
                    }
                }
                None
            },
        }
    }

    /// Exchange the slice for its key, interning it first when it was
    /// never interned before. Interning appends the value to the store
    /// and links the index to the fresh position; a repeated value is
    /// answered from the index and changes nothing.
    pub fn get_or_intern(&mut self, s: &[u8]) -> (k: Key)
        requires
            old(self).wf(),
            s@.len() <= u32::MAX,
            contains_entry(old(self)@, s@) || old(self)@.len() < u32::MAX,
        ensures
            final(self).wf(),
            final(self)@ == interned_entries(old(self)@, s@),
            k.valid(),
            k.idx() == interned_index(old(self)@, s@),
            final(self)@[k.idx()] == s@,
    {
        match self.get(s) {
            Some(k) => k,
            None => self.intern_slow(s),
        }
    }

    /// Same contract as [`ParaCord::get_or_intern`]. A static slice
    /// could in principle be linked without copying; entries here are
    /// owned, so this takes the ordinary interning path.
    pub fn get_or_intern_static(&mut self, s: &'static [u8]) -> (k: Key)
        requires
            old(self).wf(),
            s@.len() <= u32::MAX,
            contains_entry(old(self)@, s@) || old(self)@.len() < u32::MAX,
        ensures
            final(self).wf(),
            final(self)@ == interned_entries(old(self)@, s@),
            k.valid(),
            k.idx() == interned_index(old(self)@, s@),
            final(self)@[k.idx()] == s@,
    {
        self.get_or_intern(s)
    }

    /// The miss path: copy the slice into the store, then link the index
    /// to the fresh position.
    fn intern_slow(&mut self, s: &[u8]) -> (k: Key)
        requires
            old(self).wf(),
            !contains_entry(old(self)@, s@),
            old(self)@.len() < u32::MAX,
            s@.len() <= u32::MAX,
        ensures
            final(self).wf(),
            final(self)@ == old(self)@.push(s@),
            k.valid(),
            k.idx() == old(self)@.len(),
            final(self)@[k.idx()] == s@,
    {
        let owned: Vec<u8> = vstd::slice::slice_to_vec(s);
        let linked: Vec<u8> = vstd::slice::slice_to_vec(s);
        let i: usize = backing::store_push(&mut self.store, owned);
        let k = Key::from_index(i);
        backing::index_insert(&mut self.index, linked, assert_key(i));
        proof {
            let prev = old(self)@;
            let cur = self@;
            let prev_idx = index_entries(old(self).index);
            let cur_idx = index_entries(self.index);
            assert(cur == prev.push(s@));
            assert(cur_idx == prev_idx.insert(s@, i as u32));
            assert forall|j: int|
                0 <= j < cur.len() implies cur_idx.contains_key(#[trigger] cur[j]) && cur_idx[cur[j]]
                == j as u32 by {
                if j < prev.len() {
                    assert(cur[j] == prev[j]);
                    assert(prev_idx.contains_key(prev[j]) && prev_idx[prev[j]] == j as u32);
                    if prev[j] == s@ {
                        assert(contains_entry(prev, s@));
                    }
                } else {
                    assert(cur[j] == s@);
                }
            }
            assert forall|b: Seq<u8>| #[trigger] cur_idx.contains_key(b) implies (cur_idx[b] as int)
                < cur.len() && cur[cur_idx[b] as int] == b by {
                if b == s@ {
                    assert(cur_idx[b] == i as u32);
                    assert(cur[i as int] == s@);
                } else {
                    assert(prev_idx.contains_key(b) && prev_idx[b] == cur_idx[b]);
                    assert(cur[prev_idx[b] as int] == prev[prev_idx[b] as int]);
                }
            }
            assert forall|j: int| 0 <= j < cur.len() implies (#[trigger] cur[j]).len()
                <= u32::MAX by {
                if j < prev.len() {
                    assert(cur[j] == prev[j]);
                }
            }
        }
        k
    }

    /// Exchange the key back for its slice, or `None` when the key's
    /// position is out of range — a key from another instance, or one
    /// issued before a `clear`.
    pub fn try_resolve(&self, key: Key) -> (r: Option<&[u8]>)
        ensures
            r matches Some(b) ==> key.idx() < self@.len() && b@ == self@[key.idx()],
            r is None ==> key.idx() >= self@.len(),
    {
        let i: usize = key.into_repr() as usize;
        match backing::store_get(&self.store, i) {
            Some(v) => Some(v.as_slice()),
            None => None,
        }
    }

    /// Exchange the key back for its slice. The key must come from this
    /// instance, after its last `clear`; its position is then in range.
    pub fn resolve(&self, key: Key) -> (r: &[u8])
        requires
            key.idx() < self@.len(),
        ensures
            r@ == self@[key.idx()],
    {
        let i: usize = key.into_repr() as usize;
        match backing::store_get(&self.store, i) {
            Some(v) => v.as_slice(),
            None => vstd::pervasive::unreached(),
        }
    }

    /// Exchange the key back for its slice without the checked fallback:
    /// the unchecked name promises nothing on a foreign key, so the
    /// bound stands as a precondition and nothing is tested.
    pub fn resolve_unchecked(&self, key: Key) -> (r: &[u8])
        requires
            key.idx() < self@.len(),
        ensures
            r@ == self@[key.idx()],
    {
        self.resolve(key)
    }

    /// Every (key, slice) pair, in insertion order.
    pub fn iter(&self) -> (r: Vec<(Key, Vec<u8>)>)
        requires
            self.wf(),
        ensures
            r@.len() == self@.len(),
            forall|i: int|
                0 <= i < r@.len() ==> (#[trigger] r@[i]).0.valid() && r@[i].0.idx() == i
                    && r@[i].1@ == self@[i],
    {
        let n: usize = self.len();
        let mut out: Vec<(Key, Vec<u8>)> = Vec::new();
        let mut i: usize = 0;
        while i < n
            invariant
                self.wf(),
                n as int == self@.len(),
                i <= n,
                out@.len() == i as int,
                forall|j: int|
                    0 <= j < i as int ==> (#[trigger] out@[j]).0.valid() && out@[j].0.idx() == j
                        && out@[j].1@ == self@[j],
            decreases n - i,
        {
            let v: &Vec<u8> = match backing::store_get(&self.store, i) {
                Some(v) => v,
                None => vstd::pervasive::unreached(),
            };
            let k = Key::from_index(i);
            out.push((k, vstd::slice::slice_to_vec(v.as_slice())));
            i = i + 1;
        }
        out
    }

    /// Intern every item in turn, first to last, keeping only the first
    /// occurrence of each repeated value.
    pub fn extend(&mut self, items: &Vec<Vec<u8>>)
        requires
            old(self).wf(),
            forall|k: int|
                0 <= k < items.deep_view().len() ==> (#[trigger] items.deep_view()[k]).len()
                    <= u32::MAX,
            interned_all(old(self)@, items.deep_view()).len() <= u32::MAX,
        ensures
            final(self).wf(),
            final(self)@ == interned_all(old(self)@, items.deep_view()),
    {
        let n: usize = items.len();
        let mut j: usize = 0;
        proof {
            assert(items.deep_view().skip(0) == items.deep_view());
        }
        while j < n
            invariant
                self.wf(),
                n as int == items@.len(),
                n as int == items.deep_view().len(),
                j <= n,
                forall|k: int|
                    0 <= k < items.deep_view().len() ==> (#[trigger] items.deep_view()[k]).len()
                        <= u32::MAX,
                interned_all(self@, items.deep_view().skip(j as int)) == interned_all(
                    old(self)@,
                    items.deep_view(),
                ),
                interned_all(old(self)@, items.deep_view()).len() <= u32::MAX,
            decreases n - j,
        {
            let it: &Vec<u8> = &items[j];
            proof {
                let dv = items.deep_view();
                assert(dv[j as int] =~= items@[j as int]@);
                assert(dv.skip(j as int)[0] == dv[j as int]);
                assert(dv.skip(j as int).drop_first() =~= dv.skip(j as int + 1));
                lemma_interned_all_len_grows(
                    interned_entries(self@, dv[j as int]),
                    dv.skip(j as int).drop_first(),
                );
            }
            let _ = self.get_or_intern(it.as_slice());
            j = j + 1;
        }
        proof {
            assert(items.deep_view().skip(n as int) =~= Seq::<Seq<u8>>::empty());
        }
    }

    /// Build an interner holding the given items, interned first to last.
    pub fn from_iter(items: &Vec<Vec<u8>>) -> (r: ParaCord)
        requires
            forall|k: int|
                0 <= k < items.deep_view().len() ==> (#[trigger] items.deep_view()[k]).len()
                    <= u32::MAX,
            interned_all(Seq::<Seq<u8>>::empty(), items.deep_view()).len() <= u32::MAX,
        ensures
            r.wf(),
            r@ == interned_all(Seq::<Seq<u8>>::empty(), items.deep_view()),
    {
        let mut r = ParaCord::default();
        r.extend(items);
        r
    }

    /// Drop every entry and invalidate every key issued so far. Requires
    /// exclusive access; afterwards the interner is as new.
    pub fn clear(&mut self)
        ensures
            final(self).wf(),
            final(self)@ == Seq::<Seq<u8>>::empty(),
    {
        backing::store_clear(&mut self.store);
        backing::index_clear(&mut self.index);
    }

    /// A diagnostic estimate of the memory held: a fixed charge for the
    /// interner itself, a fixed bookkeeping charge for each entry, and
    /// the summed lengths of the interned slices, saturating at
    /// `usize::MAX`. The charges stand for the store's and the index's
    /// headers, so the estimate is positive whenever anything is held;
    /// it is a diagnostic, not part of the correctness contract.
    pub fn current_memory_usage(&self) -> (r: usize)
        requires
            self.wf(),
        ensures
            r as int == min_int(spec_memory_estimate(self@), usize::MAX as int),
            self@.len() > 0 ==> r > 0,
    {
        let n: usize = self.len();
        let mut sum: u128 = INSTANCE_OVERHEAD as u128;
        let mut i: usize = 0;
        proof {
            assert(sum as int == spec_memory_estimate(self@.take(0)));
        }
        while i < n
            invariant
                self.wf(),
                n as int == self@.len(),
                i <= n,
                sum as int == spec_memory_estimate(self@.take(i as int)),
                sum as int <= (INSTANCE_OVERHEAD as int) + (i as int) * entry_cost_bound(),
                sum >= INSTANCE_OVERHEAD as u128,
            decreases n - i,
        {
            let v: &Vec<u8> = match backing::store_get(&self.store, i) {
                Some(v) => v,
                None => vstd::pervasive::unreached(),
            };
            proof {
                let c = entry_cost_bound();
                assert(self@.take(i as int + 1).drop_last() == self@.take(i as int));
                assert((i as int) * c + c == (i as int + 1) * c) by (nonlinear_arith);
                assert((i as int + 1) * c <= (u32::MAX as int) * c) by (nonlinear_arith)
                    requires
                        i as int + 1 <= u32::MAX as int,
                        c >= 0,
                ;
            }
            sum = sum + (ENTRY_OVERHEAD as u128) + (v.len() as u128);
            i = i + 1;
        }
        proof {
            assert(self@.take(n as int) == self@);
        }
        if sum > (usize::MAX as u128) {
            usize::MAX
        } else {
            sum as usize
        }
    }
}

/// The estimated footprint of the given entries: the per-instance
/// charge, a per-entry charge, and the payload lengths.
pub open spec fn spec_memory_estimate(entries: Seq<Seq<u8>>) -> int {
    (INSTANCE_OVERHEAD as int) + (ENTRY_OVERHEAD as int) * (entries.len() as int) + total_len(
        entries,
    )
}

/// The largest amount one entry can add to the estimate: its
/// bookkeeping charge and the longest payload a key-sized count can
/// measure.
spec fn entry_cost_bound() -> int {
    (ENTRY_OVERHEAD as int) + (u32::MAX as int)
}

impl Default for ParaCord {
    /// An empty interner with a freshly seeded hasher state.
    fn default() -> (r: ParaCord)
        ensures
            r.wf(),
            r@ == Seq::<Seq<u8>>::empty(),
    {
        ParaCord::with_hasher(backing::fresh_hasher_state())
    }
}

} // verus!
