use page_store::buffer_pool::clock::Clock;

#[test]
fn buffer_pool_clock_tests_test_simple() {
    let mut c = Clock::new(8);

    {
        c.track_insert(&0);
        c.track_insert(&1);
        c.track_insert(&2);

        let r = c.find_victim_key();
        assert_eq!(0, r.unwrap());

        c.track_insert(&1);

        let r = c.find_victim_key();
        assert_eq!(2, r.unwrap());
    }
}

#[test]
fn test_victim_rotation_covers_every_slot() {
    let size = 1024;

    let mut c = Clock::new(size);

    for i in 0..size {
        c.track_insert(&i);
    }

    let mut keys: Vec<usize> = Vec::new();
    for _ in 0..size {
        let key = c.find_victim_key().unwrap();
        c.track_delete(&key);
        keys.push(key);
    }
    keys.sort();

    let expected_keys: Vec<usize> = (0..size).collect();
    assert_eq!(keys, expected_keys);
}

#[test]
fn test_find_victim_fails_after_deletes() {
    let size = 64;

    let mut c = Clock::new(size);

    for i in 0..size {
        c.track_insert(&i);
    }
    for i in 0..size {
        c.track_delete(&i);
    }

    assert_eq!(true, c.find_victim_key().is_err());
}

#[test]
fn test_find_victim_on_empty_clock() {
    let mut c = Clock::new(4);
    assert!(c.find_victim_key().is_err());
}
