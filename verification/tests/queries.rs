use heapstore::catalog::parse_schema_line;
use heapstore::database::Database;
use heapstore::fields::{FieldVal, IntField, StringField};
use heapstore::table::{Predicate, Table};
use heapstore::tuple::{Tuple, TupleDesc};
use heapstore::types::Type;

fn load_demo_db() -> Database {
    let mut db = Database::new();
    let schema = "employees (id: Int, name: String)\n\
                  products (id: Int, title: String)\n\
                  test2 (title: String, price: Int)\n";
    db.catalog.load_schema(schema).unwrap();
    db
}

fn tuple_for(td: &TupleDesc, id: i32, text: &str) -> Tuple {
    let mut fields = Vec::new();
    for ty in td.types.iter() {
        match ty {
            Type::IntType => fields.push(FieldVal::IntField(IntField::new(id))),
            Type::StringType => fields.push(FieldVal::StringField(StringField::new(
                text.to_string(),
                text.len() as u32,
            ))),
        }
    }
    Tuple::new(fields, td)
}

#[test]
fn schema_lines_parse() {
    let (name, td) = parse_schema_line(b"employees (id: Int, name: String)").unwrap();
    assert_eq!(name, "employees");
    assert_eq!(td.get_num_fields(), 2);
    assert_eq!(*td.get_field_type(0).unwrap(), Type::IntType);
    assert_eq!(*td.get_field_type(1).unwrap(), Type::StringType);
    assert_eq!(td.get_field_name(0).unwrap().as_str(), "id");
    assert_eq!(td.get_field_name(1).unwrap().as_str(), "name");
    assert_eq!(td.name_to_id("name"), Some(1));
    assert_eq!(td.name_to_id("missing"), None);

    assert!(parse_schema_line(b"no parens here").is_err());
    assert!(parse_schema_line(b"bad (id: Float)").is_err());
    assert!(parse_schema_line(b"empty ()").is_err());
}

#[test]
fn load_schema_registers_tables() {
    let db = load_demo_db();
    assert_eq!(db.get_catalog().entries.len(), 3);
    let emp = db.get_catalog().get_table_from_name("employees").unwrap();
    assert_eq!(emp.get_tuple_desc().get_num_fields(), 2);
    assert!(db.get_catalog().get_table_from_name("absent").is_none());
    // ids are resolvable both ways
    let id = emp.get_id();
    assert!(db.get_catalog().get_table_from_id(id).is_some());
    assert!(db.get_catalog().get_tuple_desc(id).is_some());
}

#[test]
fn scan_respects_count_and_order() {
    let mut db = load_demo_db();
    let table = Table::new("employees", db.get_catalog()).unwrap();
    let td = table.get_tuple_desc().clone_desc();
    for i in 0..5 {
        table.insert_tuple(&mut db, &tuple_for(&td, i, "emp")).unwrap();
    }
    let mut full = table.scan(&mut db, 20).unwrap();
    let mut seen = Vec::new();
    while let Some(t) = full.next() {
        match t.get_field(0).unwrap() {
            FieldVal::IntField(g) => seen.push(g.get_value()),
            _ => panic!("wrong kind"),
        }
    }
    assert_eq!(seen, vec![0, 1, 2, 3, 4]);

    let limited = table.scan(&mut db, 2).unwrap();
    assert_eq!(limited.data.len(), 2);
}

#[test]
fn filter_skips_failing_tuples() {
    let mut db = load_demo_db();
    let table = Table::new("employees", db.get_catalog()).unwrap();
    let td = table.get_tuple_desc().clone_desc();
    for i in 0..6 {
        table.insert_tuple(&mut db, &tuple_for(&td, i, "emp")).unwrap();
    }
    let mut it = table.scan(&mut db, 20).unwrap();
    it.table_filter("id", Predicate::GreaterThan(1));
    it.table_filter("id", Predicate::LessThan(4));
    let mut seen = Vec::new();
    while let Some(t) = it.next() {
        match t.get_field(0).unwrap() {
            FieldVal::IntField(g) => seen.push(g.get_value()),
            _ => panic!("wrong kind"),
        }
    }
    assert_eq!(seen, vec![2, 3]);

    // an equality predicate on the string field
    let mut it2 = table.scan(&mut db, 20).unwrap();
    it2.table_filter("name", Predicate::Equals("emp".to_string()));
    let mut count = 0;
    while it2.next().is_some() {
        count += 1;
    }
    assert_eq!(count, 6);

    // a predicate of the wrong kind for the field is false, not an error
    let mut it3 = table.scan(&mut db, 20).unwrap();
    it3.table_filter("name", Predicate::GreaterThan(0));
    assert!(it3.next().is_none());
}

#[test]
fn project_keeps_wanted_fields() {
    let mut db = load_demo_db();
    let table = Table::new("products", db.get_catalog()).unwrap();
    let td = table.get_tuple_desc().clone_desc();
    for i in 0..3 {
        table.insert_tuple(&mut db, &tuple_for(&td, i, "book")).unwrap();
    }
    let it = table.scan(&mut db, 20).unwrap();
    let mut proj = it.project(vec!["title".to_string()]);
    let mut count = 0;
    while let Some(t) = proj.next() {
        assert_eq!(t.get_tuple_desc().get_num_fields(), 1);
        assert_eq!(t.get_tuple_desc().get_field_name(0).unwrap().as_str(), "title");
        match t.get_field(0).unwrap() {
            FieldVal::StringField(s) => assert_eq!(s.get_value(), "book"),
            _ => panic!("wrong kind"),
        }
        count += 1;
    }
    assert_eq!(count, 3);
}

#[test]
fn join_matches_on_field_equality() {
    let mut db = load_demo_db();
    let products = Table::new("products", db.get_catalog()).unwrap();
    let ptd = products.get_tuple_desc().clone_desc();
    let test2 = Table::new("test2", db.get_catalog()).unwrap();
    let ttd = test2.get_tuple_desc().clone_desc();

    products.insert_tuple(&mut db, &tuple_for(&ptd, 1, "left")).unwrap();
    products.insert_tuple(&mut db, &tuple_for(&ptd, 2, "right")).unwrap();
    test2.insert_tuple(&mut db, &tuple_for(&ttd, 10, "left")).unwrap();
    test2.insert_tuple(&mut db, &tuple_for(&ttd, 20, "other")).unwrap();

    let scan_products = products.scan(&mut db, 20).unwrap();
    let scan_test2 = test2.scan(&mut db, 20).unwrap();
    let mut joined = scan_products.join(&scan_test2, "title", "title").unwrap();

    let t = joined.next().expect("one matching pair");
    // left fields then right fields
    assert_eq!(t.get_tuple_desc().get_num_fields(), 4);
    match t.get_field(0).unwrap() {
        FieldVal::IntField(g) => assert_eq!(g.get_value(), 1),
        _ => panic!("wrong kind"),
    }
    match t.get_field(1).unwrap() {
        FieldVal::StringField(s) => assert_eq!(s.get_value(), "left"),
        _ => panic!("wrong kind"),
    }
    match t.get_field(2).unwrap() {
        FieldVal::StringField(s) => assert_eq!(s.get_value(), "left"),
        _ => panic!("wrong kind"),
    }
    match t.get_field(3).unwrap() {
        FieldVal::IntField(g) => assert_eq!(g.get_value(), 10),
        _ => panic!("wrong kind"),
    }
    assert!(joined.next().is_none());

    // joining on a missing field is an error
    let s1 = products.scan(&mut db, 20).unwrap();
    let s2 = test2.scan(&mut db, 20).unwrap();
    assert!(s1.join(&s2, "absent", "title").is_err());
}

#[test]
fn join_yields_every_matching_pair_in_nested_loop_order() {
    let mut db = load_demo_db();
    let products = Table::new("products", db.get_catalog()).unwrap();
    let ptd = products.get_tuple_desc().clone_desc();
    let test2 = Table::new("test2", db.get_catalog()).unwrap();
    let ttd = test2.get_tuple_desc().clone_desc();

    // two left rows and two right rows, all sharing one title: the join
    // is the full cross product, left-major then right order
    products.insert_tuple(&mut db, &tuple_for(&ptd, 1, "same")).unwrap();
    products.insert_tuple(&mut db, &tuple_for(&ptd, 2, "same")).unwrap();
    test2.insert_tuple(&mut db, &tuple_for(&ttd, 10, "same")).unwrap();
    test2.insert_tuple(&mut db, &tuple_for(&ttd, 20, "same")).unwrap();

    let sp = products.scan(&mut db, 20).unwrap();
    let st = test2.scan(&mut db, 20).unwrap();
    let joined = sp.join(&st, "title", "title").unwrap();
    let pairs: Vec<(i32, i32)> = joined
        .data
        .iter()
        .map(|t| {
            let l = match t.get_field(0).unwrap() {
                FieldVal::IntField(g) => g.get_value(),
                _ => panic!("wrong kind"),
            };
            let r = match t.get_field(3).unwrap() {
                FieldVal::IntField(g) => g.get_value(),
                _ => panic!("wrong kind"),
            };
            (l, r)
        })
        .collect();
    assert_eq!(pairs, vec![(1, 10), (1, 20), (2, 10), (2, 20)]);
}

#[test]
fn test_table() {
    let mut db = Database::new();
    db.catalog
        .load_schema("products (id: Int, title: String)\ntest2 (title: String, price: Int)\n")
        .unwrap();

    let my_table = Table::new("products", db.get_catalog()).unwrap();
    let scan = my_table.scan(&mut db, 20).unwrap();
    assert_eq!(scan.data.len(), 0);

    let mut scan2 = my_table.scan(&mut db, 2).unwrap();
    scan2.table_filter("id", Predicate::GreaterThan(1));
    assert!(scan2.next().is_none());

    let my_table2 = Table::new("test2", db.get_catalog()).unwrap();
    let scan3 = my_table2.scan(&mut db, 2).unwrap();
    let scan4 = my_table.scan(&mut db, 2).unwrap();
    let join = scan3.join(&scan4, "title", "id").unwrap();
    assert_eq!(join.data.len(), 0);

    let scan5 = my_table.scan(&mut db, 2).unwrap();
    let proj = scan5.project(vec!["title".to_string()]);
    assert_eq!(proj.data.len(), 0);
}

#[test]
fn combined_desc_concatenates() {
    let a = TupleDesc::new(vec![Type::IntType], vec!["id".to_string()]);
    let b = TupleDesc::new(vec![Type::StringType], vec!["title".to_string()]);
    let c = TupleDesc::combine(&a, &b);
    assert_eq!(c.get_num_fields(), 2);
    assert_eq!(c.get_field_name(0).unwrap().as_str(), "id");
    assert_eq!(c.get_field_name(1).unwrap().as_str(), "title");
    assert_eq!(c.get_size(), a.get_size() + b.get_size());
}
