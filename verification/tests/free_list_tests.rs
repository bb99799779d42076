use page_store::util::free_list::{AllocatedPage, ConcurrentFreeList};

#[test]
fn test_concurrent_free_list() {
    {
        let mut free_list = ConcurrentFreeList::new(vec![0, 1, 2]);

        println!("{:?}", free_list.len() == 0);

        let next = free_list.allocate_page().unwrap();
        println!("{:?}", next.free_list_id);
        println!("{:?}", free_list.len() == 0);

        let next = free_list.allocate_page().unwrap();
        println!("{:?}", next.free_list_id);
        println!("{:?}", free_list.len() == 0);

        let next = free_list.allocate_page().unwrap();
        println!("{:?}", next.free_list_id);
        println!("{:?}", free_list.len() == 0);
    }
}

#[test]
fn test_allocate_pops_in_insertion_order() {
    let size = 1000;
    let mut free_list = ConcurrentFreeList::new((0..size).collect());

    let mut popped: Vec<usize> = Vec::new();
    loop {
        match free_list.allocate_page() {
            Ok(a) => popped.push(a.free_list_id),
            Err(()) => break,
        }
    }

    assert_eq!(popped, (0..size).collect::<Vec<usize>>());
}

#[test]
fn test_deallocate_returns_to_front() {
    let mut free_list = ConcurrentFreeList::new(vec![4, 7]);

    let a = free_list.allocate_page().unwrap();
    assert_eq!(a.free_list_id, 4);

    free_list.deallocate_page(AllocatedPage { free_list_id: 9 });
    let b = free_list.allocate_page().unwrap();
    assert_eq!(b.free_list_id, 9);

    let c = free_list.allocate_page().unwrap();
    assert_eq!(c.free_list_id, 7);

    assert!(free_list.allocate_page().is_err());
}
