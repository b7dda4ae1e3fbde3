use heapstore::fields::{Field, FieldVal, IntField, StringField};
use heapstore::heap_page::{HeapPage, HeapPageId, PAGE_SIZE};
use heapstore::tuple::{parse_tuple, Tuple, TupleDesc};
use heapstore::errors::DbError;
use heapstore::types::{Type, STRING_SIZE};

fn demo_desc() -> TupleDesc {
    TupleDesc::new(
        vec![Type::IntType, Type::StringType],
        vec!["id".to_string(), "name".to_string()],
    )
}

fn demo_tuple(id: i32, name: &str) -> Tuple {
    Tuple::new(
        vec![
            FieldVal::IntField(IntField::new(id)),
            FieldVal::StringField(StringField::new(name.to_string(), name.len() as u32)),
        ],
        &demo_desc(),
    )
}

#[test]
fn type_lengths() {
    assert_eq!(Type::IntType.get_len(), 4);
    assert_eq!(Type::StringType.get_len(), STRING_SIZE + 4);
}

#[test]
fn int_field_serializes_big_endian() {
    let f = IntField::new(42);
    assert_eq!(f.serialize(), vec![0u8, 0, 0, 42]);
    let neg = IntField::new(-2);
    // two's complement big endian
    assert_eq!(neg.serialize(), vec![0xffu8, 0xff, 0xff, 0xfe]);
    let big = IntField::new(0x0102_0304);
    assert_eq!(big.serialize(), vec![1u8, 2, 3, 4]);
}

#[test]
fn string_field_layout() {
    let f = StringField::new("Alice".to_string(), 5);
    let bytes = f.serialize();
    assert_eq!(bytes.len(), STRING_SIZE + 4);
    assert_eq!(&bytes[0..4], &[0u8, 0, 0, 5]);
    assert_eq!(&bytes[4..9], b"Alice");
    assert!(bytes[9..].iter().all(|b| *b == 0));
}

#[test]
fn int_field_parse_round_trip() {
    for v in [0i32, 1, -1, 42, i32::MAX, i32::MIN, -123456] {
        let bytes = IntField::new(v).serialize();
        let parsed = Type::IntType.parse(&bytes).expect("parse");
        match parsed {
            FieldVal::IntField(g) => assert_eq!(g.get_value(), v),
            _ => panic!("wrong field kind"),
        }
    }
}

#[test]
fn string_field_parse_round_trip() {
    let bytes = StringField::new("Bob".to_string(), 3).serialize();
    let parsed = Type::StringType.parse(&bytes).expect("parse");
    match parsed {
        FieldVal::StringField(s) => {
            assert_eq!(s.get_value(), "Bob");
            assert_eq!(s.len, 3);
        }
        _ => panic!("wrong field kind"),
    }
}

#[test]
fn string_parse_rejects_oversized_length_prefix() {
    let mut bytes = vec![0u8; STRING_SIZE + 4];
    // length prefix larger than the payload region
    bytes[0..4].copy_from_slice(&(STRING_SIZE as u32 + 1).to_be_bytes());
    assert!(Type::StringType.parse(&bytes).is_err());
}

#[test]
fn string_parse_rejects_bad_utf8() {
    let mut bytes = vec![0u8; STRING_SIZE + 4];
    bytes[0..4].copy_from_slice(&2u32.to_be_bytes());
    bytes[4] = 0xff;
    bytes[5] = 0xfe;
    assert!(Type::StringType.parse(&bytes).is_err());
}

#[test]
fn int_parse_rejects_short_input() {
    assert!(Type::IntType.parse(&[1u8, 2]).is_err());
}

#[test]
fn tuple_serializes_to_fixed_width() {
    let td = demo_desc();
    let t = demo_tuple(7, "Grace");
    let bytes = t.serialize();
    assert_eq!(bytes.len(), td.get_size());
    assert_eq!(bytes.len(), 4 + STRING_SIZE + 4);
    let parsed = parse_tuple(&bytes, &td).expect("tuple parse");
    match parsed.get_field(0).unwrap() {
        FieldVal::IntField(g) => assert_eq!(g.get_value(), 7),
        _ => panic!("wrong kind"),
    }
    match parsed.get_field(1).unwrap() {
        FieldVal::StringField(s) => assert_eq!(s.get_value(), "Grace"),
        _ => panic!("wrong kind"),
    }
}

#[test]
fn fresh_page_is_empty_and_slot_count_matches_schema() {
    let td = demo_desc();
    let pid = HeapPageId::new(9, 0);
    let page = HeapPage::empty(pid, &td);
    // tuple is 264 bytes wide: floor(4096 * 8 / (264 * 8 + 1)) slots
    assert_eq!(page.get_num_slots(), 15);
    assert_eq!(page.get_num_empty_slots(), 15);
    assert_eq!(page.get_id(), pid);
    assert_eq!(page.tuples().unwrap().len(), 0);
}

#[test]
fn page_add_until_full_then_refuses() {
    let td = demo_desc();
    let mut page = HeapPage::empty(HeapPageId::new(1, 0), &td);
    let slots = page.get_num_slots();
    for i in 0..slots {
        let got = page.add_tuple(&demo_tuple(i as i32, "x"));
        assert_eq!(got, Some(i));
    }
    assert_eq!(page.get_num_empty_slots(), 0);
    // a page that reports no free slot never takes another tuple
    assert_eq!(page.add_tuple(&demo_tuple(99, "y")), None);
}

#[test]
fn page_delete_frees_slot_and_empty_delete_errors() {
    let td = demo_desc();
    let mut page = HeapPage::empty(HeapPageId::new(1, 0), &td);
    page.add_tuple(&demo_tuple(1, "a")).unwrap();
    page.add_tuple(&demo_tuple(2, "b")).unwrap();
    assert!(page.delete_tuple(0).is_ok());
    assert_eq!(page.get_num_empty_slots(), page.get_num_slots() - 1);
    // already empty: an error, by contract
    assert!(page.delete_tuple(0).is_err());
    // out of range
    assert!(page.delete_tuple(10_000).is_err());
    // the freed slot is reused first
    assert_eq!(page.add_tuple(&demo_tuple(3, "c")), Some(0));
}

#[test]
fn page_round_trip_byte_for_byte() {
    let td = demo_desc();
    let mut page = HeapPage::empty(HeapPageId::new(5, 3), &td);
    page.add_tuple(&demo_tuple(11, "Ada")).unwrap();
    page.add_tuple(&demo_tuple(22, "Lin")).unwrap();
    page.delete_tuple(0).unwrap();

    let data = page.get_page_data();
    assert_eq!(data.len(), PAGE_SIZE);
    let reread = HeapPage::new(HeapPageId::new(5, 3), data.clone(), &td);
    // the page read back is the page written
    assert_eq!(reread.used, page.used);
    assert_eq!(reread.slots, page.slots);
    // and serializing again gives the same bytes, byte for byte
    assert_eq!(reread.get_page_data(), data);

    let tuples = reread.tuples().unwrap();
    assert_eq!(tuples.len(), 1);
    match tuples[0].get_field(0).unwrap() {
        FieldVal::IntField(g) => assert_eq!(g.get_value(), 22),
        _ => panic!("wrong kind"),
    }
    let rid = tuples[0].get_record_id().unwrap();
    assert_eq!(rid.get_page_id(), HeapPageId::new(5, 3));
    assert_eq!(rid.get_slot_number(), 1);
}

#[test]
fn heap_file_read_write_pages() {
    let td = demo_desc();
    let mut file = heapstore::heap_file::HeapFile::with_id(demo_desc(), 77);
    assert_eq!(file.num_pages(), 0);
    let pn = file.allocate_page().unwrap();
    assert_eq!(pn, 0);
    assert_eq!(file.num_pages(), 1);

    let mut page = file.read_page(HeapPageId::new(77, 0)).unwrap();
    page.add_tuple(&demo_tuple(5, "Eve")).unwrap();
    file.write_page(&page).unwrap();

    let back = file.read_page(HeapPageId::new(77, 0)).unwrap();
    assert_eq!(back.used, page.used);
    assert_eq!(back.slots, page.slots);

    // out-of-range and foreign reads fail as specified
    assert_eq!(file.read_page(HeapPageId::new(77, 1)).unwrap_err(), DbError::IoError);
    assert_eq!(file.read_page(HeapPageId::new(78, 0)).unwrap_err(), DbError::NotFound);
    // writes cannot leave a hole past the end
    let far = HeapPage::empty(HeapPageId::new(77, 9), &td);
    assert!(file.write_page(&far).is_err());
}

#[test]
fn error_descriptions_are_nonempty() {
    for e in [
        DbError::Abort,
        DbError::Wait,
        DbError::IoError,
        DbError::InvalidState,
        DbError::NotFound,
    ] {
        assert!(!e.describe().is_empty());
    }
}
