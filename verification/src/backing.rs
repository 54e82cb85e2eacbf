use vstd::prelude::*;

verus! {

// The two backing collections of the interner, held behind contracts.
//
// The key-to-value store is a `boxcar::Vec`: an append-only vector whose
// indices are handed out densely in insertion order. The value-to-key
// index is a `clashmap::ClashMap`: a sharded hash map, here keyed by the
// interned bytes and hashed by a `foldhash` state. Verified code reads
// and fills them only through the functions below; their contents are
// named by `store_entries` and `index_entries`.
//
// Both collections also allow concurrent insertion through `&self`, in
// which carefully chosen moments can observe a count ahead of the
// initialized entries. The functions below mutate through `&mut` only,
// so here every index below the count is initialized and the contents
// are exactly the pushes so far, in order: `clear` resets the vector's
// index counter along with its entries.

#[verifier::external_type_specification]
#[verifier::external_body]
#[verifier::reject_recursive_types(T)]
pub struct ExBoxcarVec<T>(boxcar::Vec<T>);

#[verifier::external_type_specification]
#[verifier::external_body]
#[verifier::reject_recursive_types(K)]
#[verifier::reject_recursive_types(V)]
#[verifier::reject_recursive_types(S)]
pub struct ExClashMap<K, V, S>(clashmap::ClashMap<K, V, S>);

#[verifier::external_type_specification]
#[verifier::external_body]
pub struct ExFoldRandomState(foldhash::fast::RandomState);

/// The elements the store holds, in index order.
pub uninterp spec fn store_entries(v: boxcar::Vec<Vec<u8>>) -> Seq<Seq<u8>>;

/// The entries the index holds, keyed by the interned bytes.
pub uninterp spec fn index_entries(
    m: clashmap::ClashMap<Vec<u8>, u32, foldhash::fast::RandomState>,
) -> Map<Seq<u8>, u32>;

/// The contents of an index that holds nothing.
pub open spec fn index_empty() -> Map<Seq<u8>, u32> {
    Map::empty()
}

/// Relies on `foldhash::fast::RandomState::default`: a randomly seeded
/// hasher state, of which nothing further can be promised.
#[verifier::external_body]
pub(crate) fn fresh_hasher_state() -> foldhash::fast::RandomState {
    foldhash::fast::RandomState::default()
}

/// Relies on `boxcar::Vec::new`: creates an empty vector.
#[verifier::external_body]
pub(crate) fn store_new() -> (v: boxcar::Vec<Vec<u8>>)
    ensures
        store_entries(v) == Seq::<Seq<u8>>::empty(),
{
    boxcar::Vec::new()
}

/// Relies on `boxcar::Vec::push`: appends the element at the next index
/// and returns that index.
#[verifier::external_body]
pub(crate) fn store_push(v: &mut boxcar::Vec<Vec<u8>>, x: Vec<u8>) -> (i: usize)
    ensures
        store_entries(*final(v)) == store_entries(*old(v)).push(x@),
        i as int == store_entries(*old(v)).len(),
{
    v.push(x)
}

/// Relies on `boxcar::Vec::get`: returns the element at the index, or
/// `None` past the end.
#[verifier::external_body]
pub(crate) fn store_get(v: &boxcar::Vec<Vec<u8>>, i: usize) -> (r: Option<&Vec<u8>>)
    ensures
        r matches Some(x) ==> (i as int) < store_entries(*v).len() && x@ == store_entries(*v)[i as int],
        r is None ==> (i as int) >= store_entries(*v).len(),
{
    v.get(i)
}

/// Relies on `boxcar::Vec::count`: the number of elements.
#[verifier::external_body]
pub(crate) fn store_len(v: &boxcar::Vec<Vec<u8>>) -> (n: usize)
    ensures
        n as int == store_entries(*v).len(),
{
    v.count()
}

/// Relies on `boxcar::Vec::clear`: removes every element.
#[verifier::external_body]
pub(crate) fn store_clear(v: &mut boxcar::Vec<Vec<u8>>)
    ensures
        store_entries(*final(v)) == Seq::<Seq<u8>>::empty(),
{
    v.clear()
}

/// Relies on `clashmap::ClashMap::with_hasher`: creates an empty map that
/// will hash with the given state.
#[verifier::external_body]
pub(crate) fn index_new(hasher: foldhash::fast::RandomState) -> (m: clashmap::ClashMap<
    Vec<u8>,
    u32,
    foldhash::fast::RandomState,
>)
    ensures
        index_entries(m) == index_empty(),
{
    clashmap::ClashMap::with_hasher(hasher)
}

/// Relies on `clashmap::ClashMap::get`: returns the value stored under a
/// key equal to the given bytes, or `None` when there is none.
#[verifier::external_body]
pub(crate) fn index_find(
    m: &clashmap::ClashMap<Vec<u8>, u32, foldhash::fast::RandomState>,
    k: &[u8],
) -> (r: Option<u32>)
    ensures
        r == if index_entries(*m).contains_key(k@) {
            Some(index_entries(*m)[k@])
        } else {
            None::<u32>
        },
{
    m.get(k).map(|entry| *entry)
}

/// Relies on `clashmap::ClashMap::insert_mut`: maps the key to the value,
/// replacing any entry under an equal key.
#[verifier::external_body]
pub(crate) fn index_insert(
    m: &mut clashmap::ClashMap<Vec<u8>, u32, foldhash::fast::RandomState>,
    k: Vec<u8>,
    val: u32,
)
    ensures
        index_entries(*final(m)) == index_entries(*old(m)).insert(k@, val),
{
    let _ = m.insert_mut(k, val);
}

/// Relies on `clashmap::ClashMap::clear`: removes every entry.
#[verifier::external_body]
pub(crate) fn index_clear(m: &mut clashmap::ClashMap<Vec<u8>, u32, foldhash::fast::RandomState>)
    ensures
        index_entries(*final(m)) == index_empty(),
{
    m.clear()
}

/// Relies on `core::str::from_utf8`: succeeds exactly on valid UTF-8,
/// returning the string those bytes encode.
#[verifier::external_body]
pub(crate) fn bytes_as_str(b: &[u8]) -> (r: Option<&str>)
    ensures
        r matches Some(t) ==> vstd::utf8::valid_utf8(b@) && vstd::utf8::encode_utf8(t@) == b@,
        r is None ==> !vstd::utf8::valid_utf8(b@),
{
    core::str::from_utf8(b).ok()
}

} // verus!
