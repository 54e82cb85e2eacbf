use paracord::Key;
use paracord::ParaCord;

#[test]
fn works() {
    let mut paracord = ParaCord::default();

    let foo = paracord.get_or_intern("foo");
    let bar = paracord.get_or_intern("bar");
    let foo2 = paracord.get_or_intern("foo");

    assert_eq!(foo, foo2);
    assert_ne!(foo, bar);
    assert_eq!(paracord.resolve(foo), "foo");
    assert_eq!(paracord.resolve(bar), "bar");
}

#[test]
fn with_hasher() {
    let mut rodeo = ParaCord::with_hasher(foldhash::fast::RandomState::default());

    let key = rodeo.get_or_intern("Test");
    assert_eq!("Test", rodeo.resolve(key));
}

#[test]
fn get_or_intern() {
    let mut rodeo = ParaCord::default();

    let a = rodeo.get_or_intern("A");
    assert_eq!(a, rodeo.get_or_intern("A"));

    let b = rodeo.get_or_intern("B");
    assert_eq!(b, rodeo.get_or_intern("B"));

    let c = rodeo.get_or_intern("C");
    assert_eq!(c, rodeo.get_or_intern("C"));
}

#[test]
fn get_or_intern_static() {
    let mut rodeo = ParaCord::default();

    let a = rodeo.get_or_intern_static("A");
    assert_eq!(a, rodeo.get_or_intern_static("A"));

    let b = rodeo.get_or_intern_static("B");
    assert_eq!(b, rodeo.get_or_intern_static("B"));

    let c = rodeo.get_or_intern_static("C");
    assert_eq!(c, rodeo.get_or_intern_static("C"));
}

#[test]
fn get() {
    let mut rodeo = ParaCord::default();
    let key = rodeo.get_or_intern("A");

    assert_eq!(Some(key), rodeo.get("A"));
}

#[test]
fn resolve() {
    let mut rodeo = ParaCord::default();
    let key = rodeo.get_or_intern("A");

    assert_eq!("A", rodeo.resolve(key));
}

#[test]
#[should_panic]
fn resolve_panics() {
    let rodeo = ParaCord::default();
    rodeo.resolve(Key::try_from_repr(100).unwrap());
}

#[test]
fn try_resolve() {
    let mut rodeo = ParaCord::default();
    let key = rodeo.get_or_intern("A");

    assert_eq!(Some("A"), rodeo.try_resolve(key));
    assert_eq!(None, rodeo.try_resolve(Key::try_from_repr(100).unwrap()));
}

#[test]
fn len() {
    let mut rodeo = ParaCord::default();
    rodeo.get_or_intern("A");
    rodeo.get_or_intern("B");
    rodeo.get_or_intern("C");

    assert_eq!(rodeo.len(), 3);
}

#[test]
fn empty() {
    let rodeo = ParaCord::default();

    assert!(rodeo.is_empty());
}

#[test]
fn drops() {
    let _ = ParaCord::default();
}

#[test]
fn memory() {
    let mut paracord = ParaCord::default();
    paracord.get_or_intern("A");
    paracord.get_or_intern("B");
    paracord.get_or_intern("C");

    assert!(paracord.current_memory_usage() > 0);
}

#[test]
fn clear() {
    let mut paracord = ParaCord::default();
    let k1 = paracord.get_or_intern("A");
    paracord.clear();

    assert!(paracord.try_resolve(k1).is_none());
    assert!(paracord.is_empty());
}

#[test]
fn iter() {
    let mut rodeo = ParaCord::default();
    rodeo.get_or_intern_static("A");
    rodeo.get_or_intern_static("B");
    rodeo.get_or_intern_static("C");
    let values: Vec<(u32, String)> = rodeo
        .iter()
        .into_iter()
        .map(|(k, v)| (k.into_repr(), v))
        .collect();
    assert_eq!(values.len(), 3);
    assert!(values.contains(&(0, String::from("A"))));
    assert!(values.contains(&(1, String::from("B"))));
    assert!(values.contains(&(2, String::from("C"))));
}

#[test]
fn from_iter() {
    let items: Vec<String> = vec![
        String::from("a"),
        String::from("b"),
        String::from("c"),
        String::from("d"),
        String::from("e"),
    ];
    let rodeo = ParaCord::from_iter(&items);

    assert!(rodeo.get("a").is_some());
    assert!(rodeo.get("b").is_some());
    assert!(rodeo.get("c").is_some());
    assert!(rodeo.get("d").is_some());
    assert!(rodeo.get("e").is_some());
}

#[test]
fn extend() {
    let mut rodeo = ParaCord::default();
    assert!(rodeo.is_empty());

    let items: Vec<String> = vec![
        String::from("a"),
        String::from("b"),
        String::from("c"),
        String::from("d"),
        String::from("e"),
    ];
    rodeo.extend(&items);
    assert!(rodeo.get("a").is_some());
    assert!(rodeo.get("b").is_some());
    assert!(rodeo.get("c").is_some());
    assert!(rodeo.get("d").is_some());
    assert!(rodeo.get("e").is_some());
}

fn is_send<T: Send>() {}
fn is_sync<T: Sync>() {}

#[test]
fn check_send_sync() {
    is_send::<ParaCord>();
    is_sync::<ParaCord>();
    is_send::<paracord::slice::ParaCord>();
    is_sync::<paracord::slice::ParaCord>();
}

#[test]
fn idempotence_scenario() {
    let mut rodeo = ParaCord::default();
    let k1 = rodeo.get_or_intern("value");
    let k2 = rodeo.get_or_intern("value");
    let k3 = rodeo.get_or_intern("value");
    assert_eq!(k1, k2);
    assert_eq!(k1, k3);
    assert_eq!(rodeo.resolve(k1), "value");
    assert_eq!(rodeo.len(), 1);
}

#[test]
fn distinctness_scenario() {
    let mut rodeo = ParaCord::default();
    let k1 = rodeo.get_or_intern("left");
    let k2 = rodeo.get_or_intern("right");
    assert_ne!(k1, k2);
    assert_ne!(k1.into_repr(), k2.into_repr());
}

#[test]
fn lookup_without_insert() {
    let mut rodeo = ParaCord::default();
    assert_eq!(None, rodeo.get("ghost"));
    assert_eq!(rodeo.len(), 0);

    let k = rodeo.get_or_intern("ghost");
    assert_eq!(Some(k), rodeo.get("ghost"));
    assert_eq!(rodeo.len(), 1);

    // a lookup never grows the interner
    rodeo.get("ghost");
    rodeo.get("other");
    assert_eq!(rodeo.len(), 1);
}

#[test]
fn repr_round_trip() {
    let mut rodeo = ParaCord::default();
    let k1 = rodeo.get_or_intern("");
    let k2 = rodeo.get_or_intern("x");
    assert_eq!(Key::try_from_repr(k1.into_repr()), Some(k1));
    assert_eq!(Key::try_from_repr(k2.into_repr()), Some(k2));
    assert_eq!(k1.into_repr(), 0);
    assert_eq!(k2.into_repr(), 1);
    assert_eq!(Key::try_from_repr(u32::MAX), None);
}

#[test]
fn reset_invalidation() {
    let mut rodeo = ParaCord::default();
    let k1 = rodeo.get_or_intern("one");
    let k2 = rodeo.get_or_intern("two");
    rodeo.reset();
    assert_eq!(rodeo.len(), 0);
    assert!(rodeo.is_empty());
    assert_eq!(None, rodeo.try_resolve(k1));
    assert_eq!(None, rodeo.try_resolve(k2));
}

#[test]
fn iteration_completeness() {
    let mut rodeo = ParaCord::default();
    let names = ["one", "two", "three", "four"];
    let mut keys = Vec::new();
    for name in names {
        keys.push(rodeo.get_or_intern(name));
    }
    let pairs = rodeo.iter();
    assert_eq!(pairs.len(), names.len());
    for (i, (key, value)) in pairs.into_iter().enumerate() {
        assert_eq!(key, keys[i]);
        assert_eq!(value, names[i]);
        assert_eq!(rodeo.resolve(key), names[i]);
    }
}

#[test]
fn example_scenario() {
    let mut rodeo = ParaCord::default();
    let k1 = rodeo.get_or_intern("foo");
    let k2 = rodeo.get_or_intern("bar");
    assert_ne!(k1, k2);
    let k3 = rodeo.get_or_intern("foo");
    assert_eq!(k1, k3);
    assert_eq!(rodeo.len(), 2);
    assert_eq!(rodeo.resolve(k1), "foo");
    assert_eq!(rodeo.resolve(k2), "bar");
}

#[test]
fn memory_positive_when_nonempty() {
    let mut paracord = ParaCord::default();
    paracord.get_or_intern("");
    assert_eq!(paracord.len(), 1);
    assert!(paracord.current_memory_usage() > 0);
}

#[test]
fn empty_string_interns() {
    let mut rodeo = ParaCord::default();
    let k = rodeo.get_or_intern("");
    assert_eq!(rodeo.resolve(k), "");
    assert_eq!(Some(k), rodeo.get(""));
    assert_eq!(rodeo.len(), 1);
}

#[test]
fn unicode_round_trip() {
    let mut rodeo = ParaCord::default();
    let k = rodeo.get_or_intern("héllo wörld — ☃");
    assert_eq!(rodeo.resolve(k), "héllo wörld — ☃");
    assert_eq!(Some(k), rodeo.get("héllo wörld — ☃"));
}