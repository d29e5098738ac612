use std::sync::Arc;

use sukari::Bytes;

#[test]
fn bytes_shares_arc_payloads() {
    let shared: Arc<[u8]> = Arc::from(b"payload".as_slice());
    let bytes = Bytes::from(shared.clone());
    let cloned = bytes.clone();

    assert_eq!(bytes.as_slice(), b"payload");
    assert!(Arc::ptr_eq(bytes.as_arc(), &shared));
    assert!(Arc::ptr_eq(bytes.as_arc(), cloned.as_arc()));

    let exported: Arc<[u8]> = cloned.into();
    assert!(Arc::ptr_eq(&exported, &shared));
}

#[test]
fn bytes_into_vec_returns_owned_payload() {
    let bytes = Bytes::from(Arc::<[u8]>::from(b"payload".as_slice()));

    assert_eq!(bytes.into_vec(), b"payload");
}

#[test]
fn bytes_are_made_from_vectors_and_slices() {
    let from_vec = Bytes::new(vec![3, 1, 2]);
    let from_slice = Bytes::from([3u8, 1, 2].as_slice());
    let converted = Bytes::from(vec![3, 1, 2]);

    assert_eq!(from_vec, from_slice);
    assert_eq!(from_vec, converted);
    assert_eq!(from_vec.len(), 3);
    assert!(!from_vec.is_empty());
    assert_eq!(from_vec.as_ref(), &[3, 1, 2]);
    assert_eq!(from_vec.into_arc().as_ref(), &[3, 1, 2]);
}

#[test]
fn default_bytes_are_empty() {
    let bytes = Bytes::default();

    assert!(bytes.is_empty());
    assert_eq!(bytes.len(), 0);
    assert_eq!(bytes.into_vec(), Vec::<u8>::new());
}
