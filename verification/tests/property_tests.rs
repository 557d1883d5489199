use layered_kv::archive::{Archive, IndexVecElement};
use layered_kv::bytes::bytes_eq;
use layered_kv::conversion::{bitwise_division, int_to_vec, section_to_int};
use layered_kv::digits::{dec_to_usize, usize_to_dec};
use layered_kv::hashtable::{fnv1a, Hashtable};
use layered_kv::list::ListDb;
use layered_kv::store::Store;
use layered_kv::tuple_list::TupleList;

fn temp_store() -> Store {
    let db = sled::Config::new().temporary(true).open().expect("Failed to open database");
    Store::new(db)
}

#[test]
fn decimal_codec_round_trip() {
    assert_eq!(usize_to_dec(0), b"0".to_vec());
    assert_eq!(usize_to_dec(10000), b"10000".to_vec());
    assert_eq!(dec_to_usize(b"0"), Some(0));
    assert_eq!(dec_to_usize(b"12345"), Some(12345));
    assert_eq!(dec_to_usize(b""), None);
    assert_eq!(dec_to_usize(b"007"), None);
    assert_eq!(dec_to_usize(b"12a4"), None);
    for n in [0usize, 1, 9, 10, 255, 99999, usize::MAX] {
        assert_eq!(dec_to_usize(&usize_to_dec(n)), Some(n));
    }
}

#[test]
fn bitwise_division_exact() {
    let (q, r) = bitwise_division(99012892, 255);
    assert_eq!(q, 99012892 / 255);
    assert_eq!(r, 99012892 % 255);
    let (q, r) = bitwise_division(0, 255);
    assert_eq!((q, r), (0, 0));
    let (q, r) = bitwise_division(254, 255);
    assert_eq!((q, r), (0, 254));
}

#[test]
fn int_run_sums_back() {
    for n in [0u32, 1, 254, 255, 256, 99012892, 0x7fffffff] {
        let mut v = vec![];
        int_to_vec(n, &mut v);
        assert_eq!(section_to_int(&v), n as u128);
    }
}

#[test]
fn bytes_eq_matches() {
    assert!(bytes_eq(b"abc", b"abc"));
    assert!(!bytes_eq(b"abc", b"abd"));
    assert!(!bytes_eq(b"abc", b"abcd"));
    assert!(bytes_eq(b"", b""));
}

// Deleting the tail index shrinks the recorded length to one below the
// deleted index; deleting a non-tail index leaves the length alone and
// tombstones the slot.
#[test]
fn list_delete_semantics() {
    let mut store = temp_store();
    let l = ListDb::new(&mut store, b"dl".to_vec()).unwrap();
    for v in [b"a".to_vec(), b"b".to_vec(), b"c".to_vec(), b"d".to_vec()] {
        l.append(&mut store, &v).unwrap();
    }
    assert_eq!(l.length(&store), Some(4));
    // Non-tail delete: length unchanged, slot reads absent.
    l.delete(&mut store, 1).unwrap();
    assert_eq!(l.length(&store), Some(4));
    assert_eq!(l.access(&store, 1), None);
    assert_eq!(l.access(&store, 2), Some(b"c".to_vec()));
    // Tail delete at index 3: length shrinks to index - 1 == 2.
    l.delete(&mut store, 3).unwrap();
    assert_eq!(l.length(&store), Some(2));
    assert_eq!(l.access(&store, 3), None);
}

// Safety-overwrite then access returns the written value, whether the
// index was below or beyond the previous length.
#[test]
fn safety_overwrite_round_trip() {
    let mut store = temp_store();
    let l = ListDb::new(&mut store, b"so".to_vec()).unwrap();
    l.safety_overwrite(&mut store, 7, &b"beyond".to_vec()).unwrap();
    assert_eq!(l.access(&store, 7), Some(b"beyond".to_vec()));
    assert_eq!(l.length(&store), Some(8));
    l.safety_overwrite(&mut store, 2, &b"within".to_vec()).unwrap();
    assert_eq!(l.access(&store, 2), Some(b"within".to_vec()));
    assert_eq!(l.length(&store), Some(8));
}

// The backing list length stays an exact multiple of the arity across
// successful appends, overwrites, and deletes.
#[test]
fn tuple_arity_consistency() {
    let mut store = temp_store();
    let t = TupleList::new(&mut store, b"ar".to_vec(), 2).unwrap();
    let under = ListDb::new(&mut store, b"Tuple:ar".to_vec()).unwrap();
    t.append(&mut store, &vec![b"k1".to_vec(), b"v1".to_vec()]).unwrap();
    t.append(&mut store, &vec![b"k2".to_vec(), b"v2".to_vec()]).unwrap();
    assert_eq!(under.length(&store), Some(t.length(&store).unwrap() * 2));
    t.overwrite(&mut store, 0, &vec![b"k9".to_vec(), b"v9".to_vec()]).unwrap();
    assert_eq!(under.length(&store), Some(t.length(&store).unwrap() * 2));
    t.delete(&mut store, 1).unwrap();
    assert_eq!(under.length(&store), Some(t.length(&store).unwrap() * 2));
    t.delete(&mut store, 0).unwrap();
    assert_eq!(under.length(&store), Some(t.length(&store).unwrap() * 2));
}

fn bucket_of(key: &[u8]) -> u64 {
    fnv1a(key) % 10000
}

// Round trip for two distinct keys, including two that collide into the
// same bucket.
#[test]
fn hashtable_round_trip() {
    let mut store = temp_store();
    let h = Hashtable::new(&mut store, b"rt".to_vec()).unwrap();
    h.insert(&mut store, &b"alpha".to_vec(), &b"one".to_vec()).unwrap();
    h.insert(&mut store, &b"beta".to_vec(), &b"two".to_vec()).unwrap();
    assert_eq!(h.get(&store, &b"alpha".to_vec()), Some(b"one".to_vec()));
    assert_eq!(h.get(&store, &b"beta".to_vec()), Some(b"two".to_vec()));

    // Find two distinct short keys that share a bucket.
    let base = b"c0".to_vec();
    let target = bucket_of(&base);
    let mut colliding = None;
    for i in 1..100000u32 {
        let cand = format!("c{}", i).into_bytes();
        if bucket_of(&cand) == target && cand != base {
            colliding = Some(cand);
            break;
        }
    }
    let other = colliding.expect("no colliding key found");
    h.insert(&mut store, &base, &b"first".to_vec()).unwrap();
    h.insert(&mut store, &other, &b"second".to_vec()).unwrap();
    assert_eq!(h.get(&store, &base), Some(b"first".to_vec()));
    assert_eq!(h.get(&store, &other), Some(b"second".to_vec()));
    // Overwrite through insert keeps the other chain entry.
    h.insert(&mut store, &base, &b"third".to_vec()).unwrap();
    assert_eq!(h.get(&store, &base), Some(b"third".to_vec()));
    assert_eq!(h.get(&store, &other), Some(b"second".to_vec()));
}

// A scan limit caps the number of returned entries exactly.
#[test]
fn to_tuple_list_limit() {
    let mut store = temp_store();
    let h = Hashtable::new(&mut store, b"lim".to_vec()).unwrap();
    h.insert(&mut store, &b"a".to_vec(), &b"1".to_vec()).unwrap();
    h.insert(&mut store, &b"b".to_vec(), &b"2".to_vec()).unwrap();
    h.insert(&mut store, &b"c".to_vec(), &b"3".to_vec()).unwrap();
    assert_eq!(h.to_tuple_list(&store, Some(2)).len(), 2);
    assert_eq!(h.to_tuple_list(&store, Some(0)).len(), 0);
    assert_eq!(h.to_tuple_list(&store, None).len(), 3);
}

// After a delete the key reads absent and a second delete reports that
// the key does not exist.
#[test]
fn hashtable_delete_twice() {
    let mut store = temp_store();
    let h = Hashtable::new(&mut store, b"dd".to_vec()).unwrap();
    h.insert(&mut store, &b"gone".to_vec(), &b"v".to_vec()).unwrap();
    assert!(h.delete(&mut store, &b"gone".to_vec()).unwrap());
    assert_eq!(h.get(&store, &b"gone".to_vec()), None);
    let again = h.delete(&mut store, &b"gone".to_vec());
    assert_eq!(again.unwrap_err(), "Key does not exist");
}

#[test]
fn list_overwrite_bounds() {
    let mut store = temp_store();
    let l = ListDb::new(&mut store, b"ob".to_vec()).unwrap();
    let r = l.overwrite(&mut store, 0, &b"x".to_vec());
    assert_eq!(r.unwrap_err(), "Index too large");
}

#[test]
fn tuple_value_length_error() {
    let mut store = temp_store();
    let t = TupleList::new(&mut store, b"vl".to_vec(), 2).unwrap();
    let r = t.overwrite(&mut store, 0, &vec![b"only-one".to_vec()]);
    assert_eq!(r.unwrap_err(), "Value length error");
}

// Reopening an existing list leaves its length and elements untouched.
#[test]
fn list_reopen_unchanged() {
    let mut store = temp_store();
    let l = ListDb::new(&mut store, b"re".to_vec()).unwrap();
    l.append(&mut store, &b"x".to_vec()).unwrap();
    let l2 = ListDb::new(&mut store, b"re".to_vec()).unwrap();
    assert_eq!(l2.length(&store), Some(1));
    assert_eq!(l2.access(&store, 0), Some(b"x".to_vec()));
}

#[test]
fn list_open_absent() {
    let mut store = temp_store();
    assert!(ListDb::open(&store, b"nothing".to_vec()).is_none());
    let _ = ListDb::new(&mut store, b"nothing".to_vec()).unwrap();
    assert!(ListDb::open(&store, b"nothing".to_vec()).is_some());
}

// Construct-then-open: build a path, write through it, reopen the same
// path, and read the value back; delete through the handle empties it.
#[test]
fn archive_construct_then_open() {
    let mut store = temp_store();
    let a = Archive::new_object(&mut store, b"arc".to_vec()).unwrap();
    let iv = vec![
        IndexVecElement::HeadMarking,
        IndexVecElement::List(3),
        IndexVecElement::Hashtable(b"lst".to_vec()),
    ];
    let built = a.new(&mut store, &iv).unwrap();
    built.overwrite(&mut store, &b"114514".to_vec()).unwrap();
    let reopened = a.open(&store, &iv).unwrap();
    assert_eq!(reopened.access(&store), Some(b"114514".to_vec()));
    reopened.delete(&mut store).unwrap();
    assert_eq!(reopened.access(&store), None);
}

// Two paths sharing only the root marker lead to independent values.
#[test]
fn archive_isolation() {
    let mut store = temp_store();
    let a = Archive::new_object(&mut store, b"iso".to_vec()).unwrap();
    let p1 = vec![
        IndexVecElement::HeadMarking,
        IndexVecElement::List(1),
        IndexVecElement::Hashtable(b"left".to_vec()),
    ];
    let p2 = vec![
        IndexVecElement::HeadMarking,
        IndexVecElement::List(2),
        IndexVecElement::TupleList(0, 1, 2),
    ];
    let e1 = a.new(&mut store, &p1).unwrap();
    let e2 = a.new(&mut store, &p2).unwrap();
    e1.overwrite(&mut store, &b"one".to_vec()).unwrap();
    e2.overwrite(&mut store, &b"two".to_vec()).unwrap();
    assert_eq!(e1.access(&store), Some(b"one".to_vec()));
    assert_eq!(e2.access(&store), Some(b"two".to_vec()));
    e1.overwrite(&mut store, &b"changed".to_vec()).unwrap();
    assert_eq!(e2.access(&store), Some(b"two".to_vec()));
    assert_eq!(e1.access(&store), Some(b"changed".to_vec()));
}

#[test]
fn archive_reopen_object() {
    let mut store = temp_store();
    let a = Archive::new_object(&mut store, b"ro".to_vec()).unwrap();
    let b = Archive::open_object(&store, b"ro".to_vec()).unwrap();
    assert_eq!(a.head_index_uuid, b.head_index_uuid);
    assert!(Archive::open_object(&store, b"missing".to_vec()).is_none());
}
