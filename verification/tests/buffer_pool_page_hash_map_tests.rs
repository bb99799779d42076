use page_store::buffer_pool::page_hash_map::{
    BufferPoolPageHashMap,
    InsertPageResult::{ExistingPage, NewPage},
};
use page_store::tuple::{Tuple, TupleValue};

#[test]
fn buffer_pool_page_hash_map_tests_test_simple() {
    let mut m = BufferPoolPageHashMap::new(100);

    {
        let frame_index = match m.insert_page(&1) {
            Ok(NewPage(frame_index)) => frame_index,
            _ => panic!("Cannot insert page"),
        };
        let page = m.frame_mut(frame_index);
        let _ = page.write(&Tuple {
            types: &["integer"],
            values: vec![TupleValue::Integer(15)],
        });
        page.id = 1;
    }

    {
        let frame_index = m.read_page(&1).unwrap();
        let page = m.frame(frame_index);
        let tuple = page.read(0, &["integer"]).unwrap();

        assert_eq!(tuple.values[0], TupleValue::Integer(15));
    }
}

#[test]
fn test_insert_rounds_sequential() {
    let mut m = BufferPoolPageHashMap::new(500);

    for _ in 0..10 {
        for id in 0..50 {
            match m.insert_page(&id) {
                Ok(NewPage(frame_index)) => {
                    println!("New page {}", id);

                    let page = m.frame_mut(frame_index);
                    page.id = id;
                    page.data[67] = 1;
                    page.data[69] = 7;
                },
                Ok(ExistingPage(_)) => {
                    println!("Existing page {}", id);
                },
                Err(err) => {
                    println!("Error for page {} {:?}", id, err);
                },
            };
        }
    }

    for id in 0..50 {
        let frame_index = m.read_page(&id).unwrap();
        assert_eq!(id, m.frame(frame_index).id);
    }
}

#[test]
fn test_insert_existing_page_is_reported() {
    let mut m = BufferPoolPageHashMap::new(10);

    let frame_index = match m.insert_page(&42) {
        Ok(NewPage(frame_index)) => frame_index,
        _ => panic!("Cannot insert page"),
    };
    m.frame_mut(frame_index).id = 42;

    match m.insert_page(&42) {
        Ok(ExistingPage(existing)) => assert_eq!(existing, frame_index),
        _ => panic!("Expected the resident page"),
    };
}
