use layered_kv::archive::{Archive, IndexVecElement};
use layered_kv::conversion::{int_to_vec, section_to_int};
use layered_kv::hashtable::Hashtable;
use layered_kv::list::ListDb;
use layered_kv::store::Store;
use layered_kv::tuple_list::TupleList;

fn temp_store() -> Store {
    let db = sled::Config::new().temporary(true).open().expect("Failed to open database");
    Store::new(db)
}

#[test]
fn section_to_int_and_int_to_vec_test() {
    let mut vec = vec![];
    int_to_vec(99012892, &mut vec);
    let total = section_to_int(&vec);
    assert_eq!(total, 99012892);
}

#[test]
fn db_test1() {
    let mut a = temp_store();
    assert!(a.insert(&[1, 3, 5, 7, 9], &[1, 1, 4, 5, 1, 4]).expect("").clone());
    assert_eq!(a.get(&[1, 3, 5, 7, 9]).unwrap(), Some(vec![1, 1, 4, 5, 1, 4]));
    assert!(a.delete(&[1, 3, 5, 7, 9]).unwrap());
    assert_eq!(a.get("114514".as_bytes()).unwrap(), None);
}

#[test]
fn list_test_string() {
    let mut store = temp_store();
    let a = ListDb::new(&mut store, b"113314".to_vec()).expect("");
    for i in 0..a.length(&store).unwrap() {
        let _ = a.delete(&mut store, i);
    }
    a.change_length(&mut store, 0 + 1).unwrap();
    a.overwrite(&mut store, 0, &vec![1]).unwrap();
    assert_eq!(a.access(&store, 0), Some(vec![1]));
}

#[test]
fn test() {
    let mut store = temp_store();
    let a = TupleList::new(&mut store, b"156745qxxs23".to_vec(), 2).unwrap();
    assert_eq!(a.length(&store).unwrap(), 0);
    a.append(
        &mut store,
        &vec![b"I love".to_vec(), b"XXXXXXXXXXXX".to_vec()],
    )
    .unwrap();
    assert_eq!(a.length(&store).unwrap(), 1);
    let t = a.access(&store, a.length(&store).unwrap() - 1).unwrap();
    assert_eq!(t[0], Some(b"I love".to_vec()));
    assert_eq!(t[1], Some(b"XXXXXXXXXXXX".to_vec()));
    let last = a.length(&store).unwrap() - 1;
    let _ = a.delete(&mut store, last);
    assert_eq!(a.length(&store).unwrap(), 0);
    let t = a.access(&store, a.length(&store).unwrap()).unwrap();
    assert_eq!(t[0], None);
    assert_eq!(t[1], None);
    a.append(&mut store, &vec![b"I love".to_vec(), b"She".to_vec()]).unwrap();
    a.overwrite(&mut store, 0, &vec![b"I love".to_vec(), b"He".to_vec()]).unwrap();
    let t = a.access(&store, a.length(&store).unwrap() - 1).unwrap();
    assert_eq!(t[1], Some(b"He".to_vec()));
    let last = a.length(&store).unwrap() - 1;
    let _ = a.delete(&mut store, last);
    assert_eq!(a.length(&store).unwrap(), 0);
}

#[test]
fn test_hashtable() {
    let mut store = temp_store();
    let a = Hashtable::new(&mut store, b"1]&_+3)_~*-1)4".to_vec()).unwrap();
    a.insert(&mut store, &b"lst".to_vec(), &vec![1, 5, 2]).unwrap();
    assert_eq!(a.get(&store, &b"lst".to_vec()), Some(vec![1, 5, 2]));
    a.insert(&mut store, &b"I li".to_vec(), &vec![1, 1, 4, 5, 1, 4]).unwrap();
    let entries = a.to_tuple_list(&store, Some(10usize));
    assert_eq!(entries.len(), 2);
    assert!(a.delete(&mut store, &b"lst".to_vec()).unwrap());
    assert_eq!(a.get(&store, &b"lst".to_vec()), None);
}

#[test]
fn archive_test1() {
    let mut store = temp_store();
    let a = Archive::new_object(&mut store, b"12_+_514".to_vec()).unwrap();
    let iv = vec![
        IndexVecElement::HeadMarking,
        IndexVecElement::List(3),
        IndexVecElement::Hashtable(b"lst".to_vec()),
    ];
    let lev = a.new(&mut store, &iv).unwrap();
    lev.overwrite(&mut store, &vec![1, 1, 4, 5, 1, 4]).unwrap();
    assert_eq!(lev.access(&store), Some(vec![1, 1, 4, 5, 1, 4]));
    assert!(a.delete(&mut store, &iv).unwrap());
    assert_eq!(lev.access(&store), None);
}
