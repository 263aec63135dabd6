use adae::key_generator::{InvalidKeyError, KeyCollisionError, KeyGenerator, OverflowError};
use adae::keys::AudioClipKey;

#[test]
fn add_one() {
    let mut kg = KeyGenerator::<AudioClipKey>::new();
    assert_eq!(kg.remaining_keys(), u32::MAX);
    kg.next().unwrap();
    assert_eq!(kg.remaining_keys(), u32::MAX - 1);
}

#[test]
fn add_multiple() {
    let mut kg = KeyGenerator::<AudioClipKey>::new();

    for i in 1..50 {
        kg.next().unwrap();
        assert_eq!(kg.remaining_keys(), u32::MAX - i);
    }
}

#[test]
fn free_one() {
    let mut kg = KeyGenerator::<AudioClipKey>::new();
    let k = kg.next().unwrap();
    kg.free(k).unwrap();
    assert_eq!(kg.remaining_keys(), u32::MAX);
}

#[test]
fn free_multiple() {
    let mut kg = KeyGenerator::<AudioClipKey>::new();

    let mut ks = Vec::new();
    for _ in 0..50 {
        ks.push(kg.next().unwrap());
    }

    for k in ks {
        kg.free(k).unwrap();
    }

    assert_eq!(kg.remaining_keys(), u32::MAX);
}

#[test]
fn free_invalid() {
    let mut kg = KeyGenerator::<AudioClipKey>::new();
    let r = kg.free(AudioClipKey(6));
    assert_eq!(r, Err(InvalidKeyError { key: AudioClipKey(6) }));
    assert_eq!(kg.remaining_keys(), u32::MAX);
}

#[test]
fn reserve() {
    let mut kg = KeyGenerator::<AudioClipKey>::new();

    kg.reserve(AudioClipKey(0)).unwrap();
    assert_eq!(kg.remaining_keys(), u32::MAX - 1);

    // Depends on key starting at 0
    let k = kg.next().unwrap();
    assert_eq!(k, AudioClipKey(1));
}

#[test]
fn reserve_invalid() {
    let mut kg = KeyGenerator::<AudioClipKey>::new();
    let k = kg.next().unwrap();
    let r = kg.reserve(k);
    assert_eq!(r, Err(KeyCollisionError { key: k }));
}

#[test]
fn free_reserve() {
    let mut kg = KeyGenerator::<AudioClipKey>::new();
    let k = kg.next().unwrap();

    // When freeing a key it should not be reused immediately
    kg.free(k).unwrap();
    kg.next().unwrap();
    let r = kg.reserve(k);

    assert_eq!(r, Ok(()));
    assert_eq!(kg.remaining_keys(), u32::MAX - 2);
}

#[test]
fn in_use() {
    let mut kg = KeyGenerator::<AudioClipKey>::new();

    assert!(!kg.in_use(AudioClipKey(0)));
    kg.reserve(AudioClipKey(0)).unwrap();
    assert!(kg.in_use(AudioClipKey(0)));
}

#[test]
fn next_then_free_leaves_keys_as_before() {
    let mut kg = KeyGenerator::<AudioClipKey>::new();
    let a = kg.next().unwrap();
    let used = kg.used_keys();
    let b = kg.next().unwrap();
    kg.free(b).unwrap();
    assert_eq!(kg.used_keys(), used);
    assert!(kg.in_use(a));
    assert!(!kg.in_use(b));
    // The counter stays past the freed key.
    assert_eq!(kg.next().unwrap(), AudioClipKey(2));
}

#[test]
fn next_n_and_peek() {
    let mut kg = KeyGenerator::<AudioClipKey>::new();
    assert_eq!(kg.peek_next(), Ok(AudioClipKey(0)));
    let ks = kg.next_n(3).unwrap();
    assert_eq!(ks, vec![AudioClipKey(0), AudioClipKey(1), AudioClipKey(2)]);
    assert_eq!(kg.used_keys(), 3);
    assert_eq!(kg.next_n(u32::MAX), Err(OverflowError));
    assert_eq!(kg.used_keys(), 3);
}

#[test]
fn from_keys_continues_after_largest() {
    let mut kg = KeyGenerator::from_keys(&[AudioClipKey(4), AudioClipKey(9), AudioClipKey(2)]);
    assert_eq!(kg.used_keys(), 3);
    assert_eq!(kg.next(), Ok(AudioClipKey(10)));
}
