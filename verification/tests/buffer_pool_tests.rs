use page_store::buffer_pool::buffer_pool::{BufferPool, GetPageError};
use page_store::page::{Page, SIZE};
use page_store::persist::Reader;
use page_store::tuple::{Tuple, TupleValue};

/// A backing store of `count` pages; page `i` carries one integer tuple
/// holding `i`.
fn store_with_pages(count: usize) -> Reader {
    let mut data: Vec<u8> = Vec::new();
    for i in 0..count {
        let mut p = Page::new();
        let tuple = Tuple {
            types: &["integer"],
            values: vec![TupleValue::Integer(i as i32)],
        };
        p.write(&tuple).unwrap();
        data.extend_from_slice(&p.data);
    }
    Reader::new(data)
}

#[test]
fn test_get_reads_missing_page_from_store() {
    let reader = store_with_pages(3);
    let mut pool = BufferPool::new(100, reader);

    let guard = pool.get(1).unwrap();
    assert_eq!(guard.get().id, 1);
    assert_eq!(guard.is_from_pool(), false);

    let tuple = guard.get().read(0, &["integer"]).unwrap();
    assert_eq!(tuple.values[0], TupleValue::Integer(1));
}

#[test]
fn test_second_get_is_served_from_pool() {
    let reader = store_with_pages(3);
    let mut pool = BufferPool::new(100, reader);

    {
        let guard = pool.get(1).unwrap();
        assert_eq!(guard.is_from_pool(), false);
    }
    {
        let guard = pool.get(1).unwrap();
        assert_eq!(guard.get().id, 1);
        assert_eq!(guard.is_from_pool(), true);
    }
}

#[test]
fn test_pool_of_one_evicts_previous_page() {
    let reader = store_with_pages(3);
    let mut pool = BufferPool::new(1, reader);

    {
        let guard = pool.get(0).unwrap();
        assert_eq!(guard.get().id, 0);
    }
    {
        let guard = pool.get(1).unwrap();
        assert_eq!(guard.get().id, 1);
        assert_eq!(guard.is_from_pool(), false);
    }
    {
        // The second id displaced the first: serving it again reads disk.
        let guard = pool.get(0).unwrap();
        assert_eq!(guard.get().id, 0);
        assert_eq!(guard.is_from_pool(), false);
    }
}

#[test]
fn test_eviction_cycle_small_pool() {
    let reader = store_with_pages(40);
    let mut pool = BufferPool::new(2, reader);

    for id in [10, 20, 30] {
        let guard = pool.get(id).unwrap();
        assert_eq!(guard.get().id, id);
    }

    let guard = pool.get(10).unwrap();
    assert_eq!(guard.get().id, 10);
}

#[test]
fn test_every_page_is_servable() {
    let reader = store_with_pages(50);
    let mut pool = BufferPool::new(500, reader);

    for round in 0..3 {
        for id in 0..50u64 {
            let guard = pool.get(id).unwrap();
            assert_eq!(guard.get().id, id);
            if round > 0 {
                assert_eq!(guard.is_from_pool(), true);
            }
        }
    }
}

#[test]
fn test_get_beyond_store_fails() {
    let reader = store_with_pages(2);
    let mut pool = BufferPool::new(4, reader);

    assert_eq!(pool.page_count(), 2);
    let result = pool.get(9);
    assert!(matches!(result, Err(GetPageError::FailedToReadFromDisk)));

    // The failure leaves the pool fully usable.
    let guard = pool.get(1).unwrap();
    assert_eq!(guard.get().id, 1);
}

#[test]
fn test_served_page_carries_store_image() {
    let reader = store_with_pages(4);
    let expected: Vec<u8> = {
        let mut p = Page::new();
        let tuple = Tuple {
            types: &["integer"],
            values: vec![TupleValue::Integer(2)],
        };
        p.write(&tuple).unwrap();
        p.data.clone()
    };

    let mut pool = BufferPool::new(8, reader);
    let guard = pool.get(2).unwrap();
    assert_eq!(guard.get().data, expected);
    assert_eq!(guard.get().data.len(), SIZE);
}
