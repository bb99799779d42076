use page_store::buffer_pool::BufferPool;
use page_store::page::Page;
use page_store::persist::Reader;
use page_store::tuple::{Tuple, TupleValue};

fn page_with_id(id: u64) -> Page {
    let mut p = Page::new();
    p.id = id;
    p
}

#[test]
fn test_add_and_get() {
    let mut pool = BufferPool::new(16);

    pool.add(page_with_id(3)).unwrap();
    pool.add(page_with_id(9)).unwrap();

    assert_eq!(pool.get(3).unwrap().id, 3);
    assert_eq!(pool.get(9).unwrap().id, 9);
    assert!(pool.get(4).is_none());
}

#[test]
fn test_add_evicts_when_full() {
    let mut pool = BufferPool::new(4);

    for id in [1, 2, 3, 4] {
        pool.add(page_with_id(id)).unwrap();
    }

    // A fifth page forces the clock sweep to clear a cell.
    pool.add(page_with_id(5)).unwrap();
    assert_eq!(pool.get(5).unwrap().id, 5);
}

#[test]
fn test_reader_round_trip() {
    let mut p = Page::new();
    let tuple = Tuple {
        types: &["integer", "varchar"],
        values: vec![
            TupleValue::Integer(11),
            TupleValue::Varchar(b"hey".to_vec()),
        ],
    };
    p.write(&tuple).unwrap();

    let mut store: Vec<u8> = Vec::new();
    store.extend_from_slice(&p.data);
    store.extend_from_slice(&p.data);
    let reader = Reader::new(store);

    assert_eq!(reader.page_count(), 2);

    let mut frame = Page::new();
    reader.read_page(1, &mut frame).unwrap();
    assert_eq!(frame.data, p.data);
    assert!(reader.read_page(2, &mut frame).is_err());
}

#[test]
fn test_tuple_serialisation_round_trip() {
    let tuple = Tuple {
        types: &["varchar", "integer"],
        values: vec![
            TupleValue::Varchar(b"roundtrip".to_vec()),
            TupleValue::Integer(-77),
        ],
    };

    let data = tuple.to_data().unwrap();
    assert_eq!(data[0], 0);
    assert_eq!(data[1], 9);

    let back = Tuple::read(&["varchar", "integer"], &data);
    assert_eq!(back, tuple);
}

#[test]
fn test_tuple_too_long_for_prefix_is_rejected() {
    let tuple = Tuple {
        types: &["varchar"],
        values: vec![TupleValue::Varchar(vec![b'x'; 70_000])],
    };

    assert!(tuple.to_data().is_err());
}

#[test]
fn test_store_well_formed_accepts_real_pages() {
    let mut p = Page::new();
    let tuple = Tuple {
        types: &["integer"],
        values: vec![TupleValue::Integer(5)],
    };
    p.write(&tuple).unwrap();

    let mut store: Vec<u8> = Vec::new();
    store.extend_from_slice(&p.data);
    store.extend_from_slice(&Page::new().data);
    let reader = Reader::new(store);

    assert!(reader.store_well_formed());
}

#[test]
fn test_store_well_formed_rejects_garbage_header() {
    // A slot count too large for the page to hold.
    let mut bytes = Page::new().data.clone();
    bytes[2] = 0xff;
    bytes[3] = 0xff;
    let reader = Reader::new(bytes);

    assert!(!reader.store_well_formed());
}
