use requiem_nif::pool::{bytes_equal, BufferPool};

#[test]
fn init_registers_count_and_size() {
    let mut pool = BufferPool::new();
    pool.buffer_init(b"svc", 4, 2048);
    assert_eq!(pool.slot_count(b"svc"), 4);
    assert_eq!(pool.slot(b"svc", 0).unwrap().lock().len(), 2048);
}

#[test]
fn second_init_keeps_first_shape() {
    let mut pool = BufferPool::new();
    pool.buffer_init(b"svc", 4, 2048);
    pool.buffer_init(b"svc", 9, 16);
    assert_eq!(pool.slot_count(b"svc"), 4);
    for pick in 0..12u64 {
        assert_eq!(pool.slot(b"svc", pick).unwrap().lock().len(), 2048);
    }
}

#[test]
fn identifiers_are_independent() {
    let mut pool = BufferPool::new();
    pool.buffer_init(b"a", 2, 8);
    pool.buffer_init(b"b", 3, 4);
    assert_eq!(pool.slot_count(b"a"), 2);
    assert_eq!(pool.slot_count(b"b"), 3);
    assert_eq!(pool.slot(b"b", 7).unwrap().lock().len(), 4);
}

#[test]
fn missing_identifier_has_no_slot() {
    let mut pool = BufferPool::new();
    assert_eq!(pool.slot_count(b"svc"), 0);
    assert!(pool.slot(b"svc", 3).is_none());
    pool.buffer_init(b"svc", 1, 8);
    assert!(pool.slot(b"sv", 0).is_none());
    assert!(pool.slot(b"svcx", 0).is_none());
}

#[test]
fn empty_pool_for_identifier_has_no_slot() {
    let mut pool = BufferPool::new();
    pool.buffer_init(b"svc", 0, 2048);
    assert_eq!(pool.slot_count(b"svc"), 0);
    assert!(pool.slot(b"svc", 0).is_none());
    pool.buffer_init(b"svc", 4, 2048);
    assert_eq!(pool.slot_count(b"svc"), 0);
}

#[test]
fn slot_pick_wraps_around() {
    let mut pool = BufferPool::new();
    pool.buffer_init(b"svc", 3, 1);
    pool.slot(b"svc", 1).unwrap().lock()[0] = 7;
    assert_eq!(pool.slot(b"svc", 4).unwrap().lock()[0], 7);
    assert_eq!(pool.slot(b"svc", 2).unwrap().lock()[0], 0);
    assert_eq!(pool.slot(b"svc", 0).unwrap().lock()[0], 0);
}

#[test]
fn byte_strings_compare() {
    assert!(bytes_equal(b"", b""));
    assert!(bytes_equal(b"svc", b"svc"));
    assert!(!bytes_equal(b"svc", b"svd"));
    assert!(!bytes_equal(b"svc", b"sv"));
}
