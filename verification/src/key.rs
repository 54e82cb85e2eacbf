use vstd::prelude::*;

verus! {

/// Key handed out by the interner.
///
/// A key wraps a 32-bit pattern that is the bitwise complement of the
/// zero-based insertion index of the value it stands for. Index 0 maps to
/// the all-ones pattern, and the all-zero pattern is never produced by a
/// valid key, so it is free to encode "absent". Keys are opaque: their
/// ordering and hash are defined over the representation only and carry no
/// meaning.
#[derive(Clone, Copy, PartialEq, Eq, Structural, Hash, PartialOrd, Ord, Debug)]
pub struct Key {
    raw: u32,
}

impl Key {
    /// The zero-based insertion index this key stands for.
    pub closed spec fn idx(self) -> int {
        (self.raw ^ 0xffff_ffffu32) as int
    }

    /// A key is valid when its pattern is non-zero, that is, when its
    /// index is below `u32::MAX`.
    pub closed spec fn valid(self) -> bool {
        self.raw != 0
    }

    /// What `into_repr` returns.
    pub closed spec fn spec_repr(self) -> u32 {
        self.raw ^ 0xffff_ffffu32
    }

    /// What `try_from_repr` returns.
    pub closed spec fn spec_from_repr(x: u32) -> Option<Key> {
        if x == 0xffff_ffffu32 {
            None
        } else {
            Some(Key { raw: x ^ 0xffff_ffffu32 })
        }
    }

    /// Turn the key into its opaque 32-bit representation.
    ///
    /// The only guarantee is that [`Key::try_from_repr`] is the inverse of
    /// this function; see [`Key::lemma_repr_round_trip`].
    pub fn into_repr(self) -> (r: u32)
        ensures
            r == self.spec_repr(),
            r as int == self.idx(),
    {
        self.raw ^ u32::MAX
    }

    /// Recreate a key from its 32-bit representation. Returns `None` only
    /// for the one pattern that no valid key produces.
    pub fn try_from_repr(x: u32) -> (r: Option<Key>)
        ensures
            r == Key::spec_from_repr(x),
            x != u32::MAX ==> (r matches Some(k) && k.valid() && k.idx() == x as int),
            x == u32::MAX ==> r is None,
    {
        let y: u32 = x ^ u32::MAX;
        if y != 0 {
            proof {
                assert((x ^ 0xffff_ffffu32) != 0 ==> x != 0xffff_ffffu32) by (bit_vector);
                assert(((x ^ 0xffff_ffffu32) ^ 0xffff_ffffu32) == x) by (bit_vector);
            }
            Some(Key { raw: y })
        } else {
            proof {
                assert((x ^ 0xffff_ffffu32) == 0 ==> x == 0xffff_ffffu32) by (bit_vector);
            }
            None
        }
    }

    /// Make the key for a fresh insertion index.
    pub(crate) fn from_index(i: usize) -> (k: Key)
        requires
            i < u32::MAX as usize,
        ensures
            k.valid(),
            k.idx() == i as int,
    {
        let t: u32 = i as u32;
        let raw: u32 = t ^ u32::MAX;
        proof {
            assert(t != 0xffff_ffffu32 ==> (t ^ 0xffff_ffffu32) != 0) by (bit_vector);
            assert(((t ^ 0xffff_ffffu32) ^ 0xffff_ffffu32) == t) by (bit_vector);
        }
        Key { raw }
    }

    /// A key's index is never negative.
    pub broadcast proof fn lemma_idx_nonneg(self)
        ensures
            #[trigger] self.idx() >= 0,
    {
    }

    /// Two keys with the same index are the same key.
    pub proof fn lemma_idx_injective(a: Key, b: Key)
        requires
            a.idx() == b.idx(),
        ensures
            a == b,
    {
        let x = a.raw;
        let y = b.raw;
        assert((x ^ 0xffff_ffffu32) == (y ^ 0xffff_ffffu32) ==> x == y) by (bit_vector);
    }

    /// Law: every valid key survives the round trip through its
    /// representation, `try_from_repr(k.into_repr()) == Some(k)`.
    pub proof fn lemma_repr_round_trip(k: Key)
        requires
            k.valid(),
        ensures
            Key::spec_from_repr(k.spec_repr()) == Some(k),
    {
        let x = k.raw;
        assert(x != 0 ==> (x ^ 0xffff_ffffu32) != 0xffff_ffffu32) by (bit_vector);
        assert(((x ^ 0xffff_ffffu32) ^ 0xffff_ffffu32) == x) by (bit_vector);
    }
}

} // verus!
