use docatlas::fields::FieldKind;
use docatlas::persisted_vec::PersistentVec;
use docatlas::schema::{Schema, SchemaField};

fn field(name: &str, kind: FieldKind) -> SchemaField {
    SchemaField { name: name.to_string(), kind }
}

#[test]
fn index_schema() {
    let schema = Schema::from_fields(vec![field("start_time", FieldKind::Number(8))]);
    assert_eq!(schema.len(), 1);

    let mut p_vec = PersistentVec::<u8>::in_memory().unwrap();
    p_vec.extend(vec![0u8; 32]).unwrap();
    let mut split = schema.row_bytes(p_vec);

    for i in 0..split.len() {
        let row = split.read(i).unwrap();
        assert_eq!(row.len(), schema.row_size());
    }
}

#[test]
fn row_size_sums_fields() {
    let mut schema = Schema::new();
    assert_eq!(schema.row_size(), 0);
    schema.push(field("a", FieldKind::Keyword(3)));
    schema.push(field("b", FieldKind::Text(5)));
    schema.push(field("c", FieldKind::Number(8)));
    assert_eq!(schema.row_size(), 16);
}

#[test]
fn lookup_by_name_and_position() {
    let mut schema = Schema::from_fields(vec![
        field("a", FieldKind::Keyword(3)),
        field("b", FieldKind::Text(5)),
        field("b", FieldKind::Number(8)),
    ]);
    assert_eq!(schema.get("b").unwrap().kind, FieldKind::Text(5));
    assert!(schema.get("z").is_none());
    assert_eq!(schema.get_at(2).unwrap().kind, FieldKind::Number(8));
    assert!(schema.get_at(3).is_none());
    schema.get_at_mut(0).unwrap().kind = FieldKind::Number(1);
    assert_eq!(schema.get_at(0).unwrap().kind, FieldKind::Number(1));
    schema.get_mut("b").unwrap().name = "d".to_string();
    assert_eq!(schema.get_at(1).unwrap().name, "d");
    assert_eq!(schema.get("b").unwrap().kind, FieldKind::Number(8));
}

#[test]
fn iter_hands_out_fields_in_order() {
    let schema = Schema::from_fields(vec![field("a", FieldKind::Keyword(3)), field("b", FieldKind::Text(5))]);
    let mut it = schema.iter();
    assert_eq!(it.next().unwrap().name, "a");
    assert_eq!(it.next().unwrap().name, "b");
    assert!(it.next().is_none());
    assert!(it.next().is_none());
}

#[test]
fn field_kind_size() {
    assert_eq!(FieldKind::Keyword(4).size(), 4);
    assert_eq!(FieldKind::Text(9).size(), 9);
    assert_eq!(FieldKind::Number(8).size(), 8);
}
