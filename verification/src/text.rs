//! The string surface of the interner.
//!
//! A thin adapter over the byte-slice engine: a string is interned as its
//! UTF-8 bytes, and because only such bytes ever enter the store, every
//! stored entry decodes back to a string. The well-formedness invariant
//! records that, which is what lets resolution hand out `&str` again —
//! the checked decoding is proved to succeed instead of being skipped.

use vstd::prelude::*;

use crate::backing;
use crate::backing::bytes_as_str;
use crate::key::Key;
use crate::model::contains_entry;
use crate::model::entries_distinct;
use crate::model::entry_index;
use crate::model::interned_all;
use crate::model::interned_entries;
use crate::model::interned_index;
use crate::model::lemma_entry_index_unique;
use crate::model::lemma_interned_all_len_grows;
use crate::model::min_int;
use crate::slice::spec_memory_estimate;
use vstd::utf8::decode_utf8;
use vstd::utf8::decode_utf8_encode_utf8;
use vstd::utf8::encode_utf8;
use vstd::utf8::encode_utf8_decode_utf8;
use vstd::utf8::encode_utf8_valid_utf8;
use vstd::utf8::valid_utf8;

verus! {

broadcast use crate::key::Key::lemma_idx_nonneg;

/// The byte entries read back as the strings they encode.
pub open spec fn decoded_entries(bytes: Seq<Seq<u8>>) -> Seq<Seq<char>> {
    Seq::new(bytes.len(), |i: int| decode_utf8(bytes[i]))
}

/// The string entries written out as their UTF-8 encodings.
pub open spec fn encoded_entries(entries: Seq<Seq<char>>) -> Seq<Seq<u8>> {
    Seq::new(entries.len(), |i: int| encode_utf8(entries[i]))
}

/// Every entry is a UTF-8 encoding.
spec fn all_valid_utf8(bytes: Seq<Seq<u8>>) -> bool {
    forall|i: int| 0 <= i < bytes.len() ==> valid_utf8(#[trigger] bytes[i])
}

/// Over valid entries, holding a string and holding its encoding are the
/// same thing, position by position.
proof fn lemma_decoded_entry_matches(bytes: Seq<Seq<u8>>, t: Seq<char>)
    requires
        all_valid_utf8(bytes),
    ensures
        forall|i: int|
            0 <= i < bytes.len() ==> ((#[trigger] decoded_entries(bytes)[i] == t) <==> bytes[i]
                == encode_utf8(t)),
        contains_entry(decoded_entries(bytes), t) <==> contains_entry(bytes, encode_utf8(t)),
{
    let dec = decoded_entries(bytes);
    assert forall|i: int|
        0 <= i < bytes.len() implies ((#[trigger] dec[i] == t) <==> bytes[i] == encode_utf8(
        t,
    )) by {
        if bytes[i] == encode_utf8(t) {
            encode_utf8_decode_utf8(t);
            assert(dec[i] == decode_utf8(bytes[i]));
        }
        if dec[i] == t {
            decode_utf8_encode_utf8(bytes[i]);
            assert(encode_utf8(decode_utf8(bytes[i])) == bytes[i]);
        }
    }
    if contains_entry(dec, t) {
        let w = choose|i: int| 0 <= i < dec.len() && dec[i] == t;
        assert(bytes[w] == encode_utf8(t));
    }
    if contains_entry(bytes, encode_utf8(t)) {
        let w = choose|i: int| 0 <= i < bytes.len() && bytes[i] == encode_utf8(t);
        assert(dec[w] == t);
    }
}

/// Decoding keeps distinct entries distinct.
proof fn lemma_decoded_distinct(bytes: Seq<Seq<u8>>)
    requires
        all_valid_utf8(bytes),
        entries_distinct(bytes),
    ensures
        entries_distinct(decoded_entries(bytes)),
{
    let dec = decoded_entries(bytes);
    assert forall|i: int, j: int| 0 <= i < j < dec.len() implies dec[i] != dec[j] by {
        if dec[i] == dec[j] {
            decode_utf8_encode_utf8(bytes[i]);
            decode_utf8_encode_utf8(bytes[j]);
            assert(bytes[i] == encode_utf8(dec[i]));
            assert(bytes[j] == encode_utf8(dec[j]));
        }
    }
}

/// Over valid, distinct entries, a string sits at the same position as
/// its encoding.
proof fn lemma_decoded_entry_index(bytes: Seq<Seq<u8>>, t: Seq<char>)
    requires
        all_valid_utf8(bytes),
        entries_distinct(bytes),
        contains_entry(decoded_entries(bytes), t),
    ensures
        contains_entry(bytes, encode_utf8(t)),
        entry_index(decoded_entries(bytes), t) == entry_index(bytes, encode_utf8(t)),
{
    lemma_decoded_entry_matches(bytes, t);
    let dec = decoded_entries(bytes);
    let w = entry_index(dec, t);
    assert(0 <= w < dec.len() && dec[w] == t);
    lemma_entry_index_unique(bytes, encode_utf8(t), w);
}

/// String interner: deduplicates strings and exchanges them for
/// [`Key`]s, resolvable back in O(1).
pub struct ParaCord {
    inner: crate::slice::ParaCord,
}

impl View for ParaCord {
    type V = Seq<Seq<char>>;

    /// The interned strings, in insertion order.
    closed spec fn view(&self) -> Seq<Seq<char>> {
        decoded_entries(self.inner@)
    }
}

impl ParaCord {
    /// The engine is well formed and holds UTF-8 encodings only.
    pub closed spec fn wf(self) -> bool {
        &&& self.inner.wf()
        &&& all_valid_utf8(self.inner@)
    }

    /// A well-formed interner holds each string at most once.
    pub proof fn lemma_wf_distinct(self)
        requires
            self.wf(),
        ensures
            entries_distinct(self@),
    {
        self.inner.lemma_wf_distinct();
        lemma_decoded_distinct(self.inner@);
    }

    /// Create an empty interner that hashes with the given state.
    pub fn with_hasher(hasher: foldhash::fast::RandomState) -> (r: ParaCord)
        ensures
            r.wf(),
            r@ == Seq::<Seq<char>>::empty(),
    {
        let r = ParaCord { inner: crate::slice::ParaCord::with_hasher(hasher) };
        proof {
            assert(r@ =~= Seq::<Seq<char>>::empty());
        }
        r
    }

    /// How many strings have been interned.
    pub fn len(&self) -> (n: usize)
        ensures
            n as int == self@.len(),
    {
        self.inner.len()
    }

    /// Whether no string has been interned.
    pub fn is_empty(&self) -> (b: bool)
        ensures
            b == (self@.len() == 0),
    {
        self.inner.is_empty()
    }

    /// Look the string up without interning it. Returns the key of the
    /// entry holding it, or `None` when it was never interned.
    pub fn get(&self, s: &str) -> (r: Option<Key>)
        requires
            self.wf(),
        ensures
            r matches Some(k) ==> contains_entry(self@, s@) && k.valid() && k.idx() == entry_index(self@, s@),
            r is None ==> !contains_entry(self@, s@),
    {
        let b: &[u8] = s.as_bytes();
        let r = self.inner.get(b);
        proof {
            lemma_decoded_entry_matches(self.inner@, s@);
            if contains_entry(self@, s@) {
                self.inner.lemma_wf_distinct();
                lemma_decoded_entry_index(self.inner@, s@);
            }
        }
        r
    }

    /// Exchange the string for its key, interning it first when it was
    /// never interned before. A repeated string is answered from the
    /// index and changes nothing.
    pub fn get_or_intern(&mut self, s: &str) -> (k: Key)
        requires
            old(self).wf(),
            encode_utf8(s@).len() <= u32::MAX,
            contains_entry(old(self)@, s@) || old(self)@.len() < u32::MAX,
        ensures
            final(self).wf(),
            final(self)@ == interned_entries(old(self)@, s@),
            k.valid(),
            k.idx() == interned_index(old(self)@, s@),
            final(self)@[k.idx()] == s@,
    {
        let b: &[u8] = s.as_bytes();
        proof {
            lemma_decoded_entry_matches(old(self).inner@, s@);
        }
        let k = self.inner.get_or_intern(b);
        proof {
            let prev = old(self).inner@;
            let enc = encode_utf8(s@);
            if contains_entry(prev, enc) {
                old(self).inner.lemma_wf_distinct();
                lemma_decoded_entry_index(prev, s@);
                assert(self.inner@ == prev);
            } else {
                assert(self.inner@ == prev.push(enc));
                encode_utf8_valid_utf8(s@);
                encode_utf8_decode_utf8(s@);
                assert forall|i: int|
                    0 <= i < self.inner@.len() implies valid_utf8(#[trigger] self.inner@[i]) by {
                    if i < prev.len() {
                        assert(self.inner@[i] == prev[i]);
                    }
                }
                assert(decoded_entries(self.inner@) =~= decoded_entries(prev).push(s@));
            }
        }
        k
    }

    /// Same contract as [`ParaCord::get_or_intern`]. A static string
    /// could in principle be linked without copying; entries here are
    /// owned, so this takes the ordinary interning path.
    pub fn get_or_intern_static(&mut self, s: &'static str) -> (k: Key)
        requires
            old(self).wf(),
            encode_utf8(s@).len() <= u32::MAX,
            contains_entry(old(self)@, s@) || old(self)@.len() < u32::MAX,
        ensures
            final(self).wf(),
            final(self)@ == interned_entries(old(self)@, s@),
            k.valid(),
            k.idx() == interned_index(old(self)@, s@),
            final(self)@[k.idx()] == s@,
    {
        self.get_or_intern(s)
    }

    /// Exchange the key back for its string, or `None` when the key's
    /// position is out of range — a key from another instance, or one
    /// issued before a `clear`.
    pub fn try_resolve(&self, key: Key) -> (r: Option<&str>)
        requires
            self.wf(),
        ensures
            r matches Some(t) ==> key.idx() < self@.len() && t@ == self@[key.idx()],
            r is None ==> key.idx() >= self@.len(),
    {
        match self.inner.try_resolve(key) {
            Some(b) => {
                proof {
                    assert(valid_utf8(self.inner@[key.idx()]));
                }
                match bytes_as_str(b) {
                    Some(t) => {
                        proof {
                            encode_utf8_decode_utf8(t@);
                            assert(self@[key.idx()] == decode_utf8(self.inner@[key.idx()]));
                        }
                        Some(t)
                    },
                    None => vstd::pervasive::unreached(),
                }
            },
            None => None,
        }
    }

    /// Exchange the key back for its string. The key must come from this
    /// instance, after its last `clear`; its position is then in range.
    pub fn resolve(&self, key: Key) -> (r: &str)
        requires
            self.wf(),
            key.idx() < self@.len(),
        ensures
            r@ == self@[key.idx()],
    {
        match self.try_resolve(key) {
            Some(t) => t,
            None => vstd::pervasive::unreached(),
        }
    }

    /// Exchange the key back for its string without the checked
    /// fallback: the unchecked name promises nothing on a foreign key,
    /// so the bound stands as a precondition and nothing is tested.
    pub fn resolve_unchecked(&self, key: Key) -> (r: &str)
        requires
            self.wf(),
            key.idx() < self@.len(),
        ensures
            r@ == self@[key.idx()],
    {
        self.resolve(key)
    }

    /// Every (key, string) pair, in insertion order.
    pub fn iter(&self) -> (r: Vec<(Key, String)>)
        requires
            self.wf(),
        ensures
            r@.len() == self@.len(),
            forall|i: int|
                0 <= i < r@.len() ==> (#[trigger] r@[i]).0.valid() && r@[i].0.idx() == i
                    && r@[i].1@ == self@[i],
    {
        let n: usize = self.len();
        let mut out: Vec<(Key, String)> = Vec::new();
        let mut i: usize = 0;
        proof {
            self.inner.lemma_wf_bounds();
        }
        while i < n
            invariant
                self.wf(),
                n as int == self@.len(),
                self@.len() <= u32::MAX,
                i <= n,
                out@.len() == i as int,
                forall|j: int|
                    0 <= j < i as int ==> (#[trigger] out@[j]).0.valid() && out@[j].0.idx() == j
                        && out@[j].1@ == self@[j],
            decreases n - i,
        {
            let k = Key::from_index(i);
            let t: &str = self.resolve(k);
            let owned: String = t.to_owned();
            out.push((k, owned));
            i = i + 1;
        }
        out
    }

    /// Drop every entry and invalidate every key issued so far. Requires
    /// exclusive access; afterwards the interner is as new.
    pub fn clear(&mut self)
        ensures
            final(self).wf(),
            final(self)@ == Seq::<Seq<char>>::empty(),
    {
        self.inner.clear();
        proof {
            assert(self@ =~= Seq::<Seq<char>>::empty());
        }
    }

    /// Another name for [`ParaCord::clear`].
    pub fn reset(&mut self)
        ensures
            final(self).wf(),
            final(self)@ == Seq::<Seq<char>>::empty(),
    {
        self.clear()
    }

    /// A diagnostic estimate of the memory held: a fixed charge for the
    /// interner itself, a fixed bookkeeping charge for each entry, and
    /// the summed lengths of the interned strings' UTF-8 encodings,
    /// saturating at `usize::MAX`. The charges stand for the store's and
    /// the index's headers, so the estimate is positive whenever
    /// anything is held; it is a diagnostic, not part of the correctness
    /// contract.
    pub fn current_memory_usage(&self) -> (r: usize)
        requires
            self.wf(),
        ensures
            r as int == min_int(spec_memory_estimate(encoded_entries(self@)), usize::MAX as int),
            self@.len() > 0 ==> r > 0,
    {
        let r = self.inner.current_memory_usage();
        proof {
            assert forall|i: int|
                0 <= i < self.inner@.len() implies #[trigger] encoded_entries(self@)[i]
                == self.inner@[i] by {
                decode_utf8_encode_utf8(self.inner@[i]);
            }
            assert(encoded_entries(self@) =~= self.inner@);
        }
        r
    }

    /// Intern every item in turn, first to last, keeping only the first
    /// occurrence of each repeated string.
    pub fn extend(&mut self, items: &Vec<String>)
        requires
            old(self).wf(),
            forall|k: int|
                0 <= k < items.deep_view().len() ==> encode_utf8(
                    #[trigger] items.deep_view()[k],
                ).len() <= u32::MAX,
            interned_all(old(self)@, items.deep_view()).len() <= u32::MAX,
        ensures
            final(self).wf(),
            final(self)@ == interned_all(old(self)@, items.deep_view()),
    {
        let n: usize = items.len();
        let mut j: usize = 0;
        proof {
            assert(items.deep_view().skip(0) == items.deep_view());
        }
        while j < n
            invariant
                self.wf(),
                n as int == items@.len(),
                n as int == items.deep_view().len(),
                j <= n,
                forall|k: int|
                    0 <= k < items.deep_view().len() ==> encode_utf8(
                        #[trigger] items.deep_view()[k],
                    ).len() <= u32::MAX,
                interned_all(self@, items.deep_view().skip(j as int)) == interned_all(
                    old(self)@,
                    items.deep_view(),
                ),
                interned_all(old(self)@, items.deep_view()).len() <= u32::MAX,
            decreases n - j,
        {
            let it: &String = &items[j];
            proof {
                let dv = items.deep_view();
                assert(dv[j as int] == items@[j as int]@);
                assert(dv.skip(j as int)[0] == dv[j as int]);
                assert(dv.skip(j as int).drop_first() =~= dv.skip(j as int + 1));
                lemma_interned_all_len_grows(
                    interned_entries(self@, dv[j as int]),
                    dv.skip(j as int).drop_first(),
                );
            }
            let _ = self.get_or_intern(it.as_str());
            j = j + 1;
        }
        proof {
            assert(items.deep_view().skip(n as int) =~= Seq::<Seq<char>>::empty());
        }
    }

    /// Build an interner holding the given items, interned first to last.
    pub fn from_iter(items: &Vec<String>) -> (r: ParaCord)
        requires
            forall|k: int|
                0 <= k < items.deep_view().len() ==> encode_utf8(
                    #[trigger] items.deep_view()[k],
                ).len() <= u32::MAX,
            interned_all(Seq::<Seq<char>>::empty(), items.deep_view()).len() <= u32::MAX,
        ensures
            r.wf(),
            r@ == interned_all(Seq::<Seq<char>>::empty(), items.deep_view()),
    {
        let mut r = ParaCord::default();
        r.extend(items);
        r
    }
}

impl Default for ParaCord {
    /// An empty interner with a freshly seeded hasher state.
    fn default() -> (r: ParaCord)
        ensures
            r.wf(),
            r@ == Seq::<Seq<char>>::empty(),
    {
        ParaCord::with_hasher(backing::fresh_hasher_state())
    }
}

} // verus!
