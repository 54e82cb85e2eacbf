use paracord::slice::assert_key;
use paracord::slice::ParaCord;
use paracord::Key;

#[test]
fn slice_works() {
    let mut paracord = ParaCord::default();

    let foo = paracord.get_or_intern(&[1u8, 2, 3, 4]);
    let bar = paracord.get_or_intern(&[5u8, 6, 7, 8]);
    let foo2 = paracord.get_or_intern(&[1u8, 2, 3, 4]);

    assert_eq!(foo, foo2);
    assert_ne!(foo, bar);
    assert_eq!(paracord.resolve(foo), &[1u8, 2, 3, 4]);
    assert_eq!(paracord.resolve(bar), &[5u8, 6, 7, 8]);
}

#[test]
fn slice_get() {
    let mut paracord = ParaCord::default();
    let foo = paracord.get_or_intern(&[1u8, 2, 3, 4]);

    assert_eq!(paracord.get(&[1u8, 2, 3, 4]), Some(foo));
    assert_eq!(paracord.get(&[5u8, 6, 7, 8]), None);
}

#[test]
fn slice_try_resolve() {
    let mut paracord = ParaCord::default();
    let key = paracord.get_or_intern(b"bytes");

    assert_eq!(paracord.try_resolve(key), Some(&b"bytes"[..]));
    assert_eq!(paracord.try_resolve(Key::try_from_repr(100).unwrap()), None);
}

#[test]
fn slice_resolve_unchecked() {
    let mut paracord = ParaCord::default();
    let key = paracord.get_or_intern(b"stable");

    assert_eq!(paracord.resolve_unchecked(key), b"stable");
}

#[test]
fn slice_get_or_intern_static() {
    let mut paracord = ParaCord::default();
    static BYTES: [u8; 3] = [7, 8, 9];

    let a = paracord.get_or_intern_static(&BYTES);
    assert_eq!(a, paracord.get_or_intern_static(&BYTES));
    assert_eq!(a, paracord.get_or_intern(&[7u8, 8, 9]));
    assert_eq!(paracord.resolve(a), &BYTES);
}

#[test]
fn slice_len_and_clear() {
    let mut paracord = ParaCord::default();
    let k = paracord.get_or_intern(&[0u8]);
    paracord.get_or_intern(&[1u8]);
    assert_eq!(paracord.len(), 2);
    assert!(!paracord.is_empty());

    paracord.clear();
    assert!(paracord.is_empty());
    assert_eq!(paracord.try_resolve(k), None);
}

#[test]
fn slice_iter_order() {
    let mut paracord = ParaCord::default();
    paracord.get_or_intern(&[9u8]);
    paracord.get_or_intern(&[8u8]);
    paracord.get_or_intern(&[9u8]);

    let pairs = paracord.iter();
    assert_eq!(pairs.len(), 2);
    assert_eq!(pairs[0].0.into_repr(), 0);
    assert_eq!(pairs[0].1, vec![9u8]);
    assert_eq!(pairs[1].0.into_repr(), 1);
    assert_eq!(pairs[1].1, vec![8u8]);
}

#[test]
fn slice_extend_and_from_iter() {
    let items: Vec<Vec<u8>> = vec![vec![1u8], vec![2u8], vec![1u8], vec![3u8]];
    let paracord = ParaCord::from_iter(&items);
    assert_eq!(paracord.len(), 3);
    assert!(paracord.get(&[1u8]).is_some());
    assert!(paracord.get(&[2u8]).is_some());
    assert!(paracord.get(&[3u8]).is_some());

    let mut other = ParaCord::default();
    other.extend(&items);
    assert_eq!(other.len(), 3);
}

#[test]
fn slice_memory_estimate() {
    let mut paracord = ParaCord::default();
    paracord.get_or_intern(&[1u8, 2, 3]);
    paracord.get_or_intern(&[4u8]);
    // the per-instance charge, two per-entry charges, four payload bytes
    let expected = paracord::slice::INSTANCE_OVERHEAD + 2 * paracord::slice::ENTRY_OVERHEAD + 4;
    assert_eq!(paracord.current_memory_usage(), expected);
}

#[test]
fn slice_memory_positive_when_nonempty() {
    let mut paracord = ParaCord::default();
    paracord.get_or_intern(&[]);
    assert_eq!(paracord.len(), 1);
    assert!(paracord.current_memory_usage() > 0);
}

#[test]
fn assert_key_narrows() {
    assert_eq!(assert_key(0), 0);
    assert_eq!(assert_key(123_456), 123_456);
    assert_eq!(assert_key((u32::MAX - 1) as usize), u32::MAX - 1);
}