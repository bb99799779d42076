use page_store::page::Page;
use page_store::tuple::{Tuple, TupleValue};

#[test]
fn test_create_page() {
    let mut p = Page::new();

    assert_eq!(p.slots, 0);
    assert_eq!(p.free_space, 1024 * 8 - 4);

    {
        /* Tuple 0 */
        let tuple = Tuple {
            types: &["integer", "varchar"],
            values: vec![
                TupleValue::Integer(10),
                TupleValue::Varchar("Hello!".to_owned().into_bytes()),
            ],
        };

        let slot = p.write(&tuple).unwrap();
        assert_eq!(slot.id, 0);

        let tuple_read = p.read(slot.id, &["integer", "varchar"]).unwrap();
        assert_eq!(
            tuple_read,
            Tuple {
                types: &["integer", "varchar"],
                values: vec![
                    TupleValue::Integer(10),
                    TupleValue::Varchar("Hello!".to_owned().into_bytes()),
                ],
            }
        );
    }

    {
        let tuple = Tuple {
            types: &["varchar", "varchar"],
            values: vec![
                TupleValue::Varchar("It's me again".to_owned().into_bytes()),
                TupleValue::Varchar("lalalala".to_owned().into_bytes()),
            ],
        };

        let slot = p.write(&tuple).unwrap();
        assert_eq!(slot.id, 1);

        let tuple_read = p.read(slot.id, &["varchar", "varchar"]).unwrap();
        assert_eq!(
            tuple_read,
            Tuple {
                types: &["varchar", "varchar"],
                values: vec![
                    TupleValue::Varchar("It's me again".to_owned().into_bytes()),
                    TupleValue::Varchar("lalalala".to_owned().into_bytes()),
                ],
            }
        );
    }

    {
        let tuple = Tuple {
            types: &["varchar", "varchar", "integer"],
            values: vec![
                TupleValue::Varchar("It's me again heeey".to_owned().into_bytes()),
                TupleValue::Varchar("test test".to_owned().into_bytes()),
                TupleValue::Integer(25),
            ],
        };

        let slot = p.write(&tuple).unwrap();
        assert_eq!(slot.id, 2);

        assert_eq!(p.has_space(&tuple).unwrap(), true);

        let tuple_read = p.read(slot.id, &["varchar", "varchar", "integer"]).unwrap();
        assert_eq!(
            tuple_read,
            Tuple {
                types: &["varchar", "varchar", "integer"],
                values: vec![
                    TupleValue::Varchar("It's me again heeey".to_owned().into_bytes()),
                    TupleValue::Varchar("test test".to_owned().into_bytes()),
                    TupleValue::Integer(25),
                ],
            }
        );
    }

    {
        let vec = vec![b' '; 20_000];
        let s = String::from_utf8(vec).expect("Invalid UTF-8 string");

        let tuple = Tuple {
            types: &["varchar"],
            values: vec![TupleValue::Varchar(s.into_bytes())],
        };

        assert_eq!(p.has_space(&tuple).unwrap(), false);
    }

    {
        let vec = vec![b' '; 7_000];
        let s = String::from_utf8(vec).expect("Invalid UTF-8 string");

        let tuple = Tuple {
            types: &["varchar"],
            values: vec![TupleValue::Varchar(s.into_bytes())],
        };

        assert_eq!(p.has_space(&tuple).unwrap(), true);
    }
}

#[test]
fn test_read_iterator_returns_raw_tuples() {
    let mut p = Page::new();

    let t1 = Tuple { types: &["integer"], values: vec![TupleValue::Integer(7)] };
    let t2 = Tuple {
        types: &["varchar"],
        values: vec![TupleValue::Varchar(b"abc".to_vec())],
    };
    p.write(&t1).unwrap();
    p.write(&t2).unwrap();

    let raw = p.read_iterator();
    assert_eq!(raw.len(), 2);
    assert_eq!(raw[0], vec![0, 0, 0, 7]);
    assert_eq!(raw[1], vec![0, 3, b'a', b'b', b'c']);
}

#[test]
fn test_from_data_recomputes_metadata() {
    let mut p = Page::new();
    let tuple = Tuple {
        types: &["integer"],
        values: vec![TupleValue::Integer(-1)],
    };
    p.write(&tuple).unwrap();

    let rebuilt = Page::from_data(p.data.clone());
    assert_eq!(rebuilt.slots, 1);
    assert_eq!(rebuilt.free_space, p.free_space);

    let tuple_read = rebuilt.read(0, &["integer"]).unwrap();
    assert_eq!(tuple_read.values[0], TupleValue::Integer(-1));
}
