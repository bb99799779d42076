use page_store::hash_map::LinearIndirectPageHashMap;
use page_store::page::Page;

fn page_with_id(id: u64) -> Page {
    let mut p = Page::new();
    p.id = id;
    p
}

#[test]
fn linear_hashmap_tests_test_simple() {
    let mut m = LinearIndirectPageHashMap::new(100);

    {
        let p = page_with_id(1);
        m.insert(p).unwrap();
    }

    {
        let p = page_with_id(2);
        m.insert(p).unwrap();
    }

    assert_eq!(m.get(1).unwrap().0.id, 1);
    assert_eq!(m.get(2).unwrap().0.id, 2);
}

#[test]
fn test_conflicting_inserts_with_deletes() {
    let mut m = LinearIndirectPageHashMap::new(5);
    let mut ids: std::collections::VecDeque<u64> =
        vec![31, 44, 53, 78, 87, 104, 106, 125, 126, 127, 128].into();

    {
        let mut inserted_ids = std::collections::VecDeque::new();

        for _ in 0..5 {
            let id = ids.pop_front().unwrap();
            let p = page_with_id(id);
            m.insert(p).unwrap();
            inserted_ids.push_back(id);
        }

        let p = page_with_id(ids.pop_front().unwrap());
        let result = m.insert(p);
        assert_eq!(result.is_err(), true);

        for _ in 0..5 {
            let id = inserted_ids.pop_front().unwrap();
            let p = m.get(id).unwrap();
            assert_eq!(id, p.0.id);
        }

        m.delete(&53).unwrap();

        let p = page_with_id(12);
        m.insert(p).unwrap();
    }

    assert_eq!(m.get(31).unwrap().0.id, 31);
    assert_eq!(m.get(44).unwrap().0.id, 44);
    assert_eq!(m.get(12).unwrap().0.id, 12);
    assert_eq!(m.get(78).unwrap().0.id, 78);
    assert_eq!(m.get(87).unwrap().0.id, 87);

    assert_eq!(m.get(5).is_none(), true);
}

#[test]
fn test_delete() {
    let mut m = LinearIndirectPageHashMap::new(5);

    {
        m.insert(page_with_id(31)).unwrap();
        assert_eq!(m.get(31).unwrap().0.id, 31);
    }

    {
        m.delete(&31).unwrap();
        assert_eq!(m.get(31).is_none(), true);
    }

    {
        m.insert(page_with_id(44)).unwrap();
        assert_eq!(m.get(44).unwrap().0.id, 44);
    }
}

#[test]
fn test_repeated_insert_rounds() {
    for _ in 0..100 {
        let mut ids: std::collections::VecDeque<u64> =
            vec![31, 44, 53, 78, 87, 104, 106, 125, 126, 127, 128].into();
        let mut m = LinearIndirectPageHashMap::new(5);

        for _ in 0..5 {
            let id = ids.pop_front().unwrap();
            let _ = m.insert(page_with_id(id));
        }

        for id in [31, 44, 53, 78, 87] {
            assert_eq!(id, m.get(id).unwrap().0.id);
        }
    }
}

#[test]
fn test_delete_by_index_removes_page() {
    let mut m = LinearIndirectPageHashMap::new(8);
    m.insert(page_with_id(5)).unwrap();

    let cell = m.get(5).unwrap().1;
    m.delete_by_index(cell).unwrap();

    assert!(m.get(5).is_none());
}
