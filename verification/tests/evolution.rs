use ezpzdb::alter::alter;
use ezpzdb::create::{CreateData, create};
use ezpzdb::insert::insert;
use ezpzdb::models::{EngineError, FieldDataType, Table};
use ezpzdb::num::IndexNumber;
use ezpzdb::value::Value;

fn tokens(list: &[&str]) -> Vec<String> {
    list.iter().map(|w| w.to_string()).collect()
}

fn blank() -> Table {
    Table { name: String::new(), schema: Vec::new(), data: Vec::new(), indexes: Vec::new() }
}

fn numbered_table() -> Table {
    let t = create(
        CreateData::Table { name: "t".to_string(), schema: tokens(&["id", "NUMBER", "KEY", "name", "TEXT"]) },
        blank(),
    )
    .expect("create");
    // inserted out of key order on purpose
    let t = insert(t, tokens(&["id", "3", "name", "c"])).expect("insert");
    let t = insert(t, tokens(&["id", "1", "name", "a"])).expect("insert");
    insert(t, tokens(&["id", "2", "name", "b"])).expect("insert")
}

fn get_int(row: &ezpzdb::value::Row, name: &str) -> i64 {
    match row.get(name) {
        Some(Value::Num(IndexNumber::Int(k))) => *k,
        _ => panic!("expected an integer cell"),
    }
}

fn get_text(row: &ezpzdb::value::Row, name: &str) -> String {
    match row.get(name) {
        Some(Value::Text(s)) => s.clone(),
        _ => panic!("expected a text cell"),
    }
}

#[test]
fn add_text_backfills_empty_text() {
    let t = numbered_table();
    let t = alter(t, "ADD".to_string(), tokens(&["nick", "TEXT"])).expect("alter add");
    assert_eq!(t.schema.len(), 3);
    assert_eq!(t.schema[2].name.as_str(), "nick");
    assert_eq!(t.schema[2].data_type, Some(FieldDataType::TEXT));
    for (_, row) in &t.data {
        assert_eq!(get_text(row, "nick").as_str(), "");
    }
    assert!(t.check_wf());
}

#[test]
fn add_serial_counts_in_key_order() {
    let t = numbered_table();
    let t = alter(t, "add".to_string(), tokens(&["seq", "serial"])).expect("alter add");
    // rows were inserted as keys 3, 1, 2; the serial values follow
    // ascending key order, not insertion order
    assert_eq!(get_int(&t.data[0].1, "seq"), 3);
    assert_eq!(get_int(&t.data[1].1, "seq"), 1);
    assert_eq!(get_int(&t.data[2].1, "seq"), 2);
    assert_eq!(t.schema[2].serial.as_ref().unwrap().next_val, 4);
}

#[test]
fn add_number_and_boolean_defaults() {
    let t = numbered_table();
    let t = alter(t, "ADD".to_string(), tokens(&["n", "NUMBER"])).expect("add number");
    let t = alter(t, "ADD".to_string(), tokens(&["b", "BOOLEAN"])).expect("add boolean");
    assert_eq!(get_int(&t.data[0].1, "n"), 0);
    match t.data[0].1.get("b") {
        Some(Value::Bool(false)) => {},
        _ => panic!("expected false"),
    }
}

#[test]
fn add_existing_column_is_rejected() {
    let t = numbered_table();
    let r = alter(t, "ADD".to_string(), tokens(&["name", "TEXT"]));
    assert_eq!(r.err(), Some(EngineError::ColumnExists));
}

#[test]
fn alter_needs_enough_tokens() {
    let t = numbered_table();
    let r = alter(t, "ADD".to_string(), tokens(&["only"]));
    assert_eq!(r.err(), Some(EngineError::MissingParameters));
    let t = numbered_table();
    let r = alter(t, "DROP".to_string(), tokens(&[]));
    assert_eq!(r.err(), Some(EngineError::MissingParameters));
}

#[test]
fn unknown_action_is_refused() {
    let t = numbered_table();
    let r = alter(t, "explode".to_string(), tokens(&["x"]));
    assert_eq!(r.err(), Some(EngineError::UnknownAction));
}

#[test]
fn drop_primary_key_is_rejected_and_nothing_changes() {
    let t = numbered_table();
    let r = alter(t, "DROP".to_string(), tokens(&["id"]));
    assert_eq!(r.err(), Some(EngineError::CannotDropPrimaryKey));
    // an error persists nothing: a fresh snapshot still has both columns
    let t = numbered_table();
    assert_eq!(t.schema.len(), 2);
    assert_eq!(t.data.len(), 3);
}

#[test]
fn drop_removes_column_from_schema_and_rows() {
    let t = numbered_table();
    let t = alter(t, "drop".to_string(), tokens(&["name"])).expect("drop");
    assert_eq!(t.schema.len(), 1);
    for (_, row) in &t.data {
        assert!(row.get("name").is_none());
    }
    assert!(t.check_wf());
}

#[test]
fn drop_unknown_column_is_rejected() {
    let t = numbered_table();
    let r = alter(t, "DROP".to_string(), tokens(&["ghost"]));
    assert_eq!(r.err(), Some(EngineError::ColumnNotFound));
}

#[test]
fn rename_moves_cells() {
    let t = numbered_table();
    let t = alter(t, "RENAME".to_string(), tokens(&["name", "title"])).expect("rename");
    assert_eq!(t.schema[1].name.as_str(), "title");
    assert_eq!(get_text(&t.data[0].1, "title").as_str(), "c");
    assert!(t.data[0].1.get("name").is_none());
}

#[test]
fn modify_to_same_type_is_reported() {
    let t = numbered_table();
    let r = alter(t, "MODIFY".to_string(), tokens(&["name", "TEXT"]));
    assert_eq!(r.err(), Some(EngineError::TypeUnchanged));
}

#[test]
fn modify_to_invalid_type_is_rejected() {
    let t = numbered_table();
    let r = alter(t, "MODIFY".to_string(), tokens(&["name", "text"]));
    assert_eq!(r.err(), Some(EngineError::InvalidDataType));
}

#[test]
fn modify_unknown_column_still_persists_unchanged() {
    let t = numbered_table();
    let t2 = alter(t, "MODIFY".to_string(), tokens(&["ghost", "TEXT"])).expect("modify");
    assert_eq!(t2.schema.len(), 2);
    assert_eq!(t2.data.len(), 3);
}

#[test]
fn modify_number_to_text_renders_values() {
    let t = numbered_table();
    let t = alter(t, "MODIFY".to_string(), tokens(&["id", "TEXT"])).expect("modify");
    assert_eq!(t.schema[0].data_type, Some(FieldDataType::TEXT));
    assert_eq!(get_text(&t.data[0].1, "id").as_str(), "3");
    // the row-map key itself is untouched: only the cell was coerced
    match &t.data[0].0 {
        Value::Num(IndexNumber::Int(3)) => {},
        _ => panic!("key should still be the number three"),
    }
}

#[test]
fn modify_text_to_number_keeps_integers_only() {
    let t = create(
        CreateData::Table { name: "t".to_string(), schema: tokens(&["id", "NUMBER", "KEY", "v", "TEXT"]) },
        blank(),
    )
    .expect("create");
    let t = insert(t, tokens(&["id", "1", "v", "5"])).expect("insert");
    let t = alter(t, "MODIFY".to_string(), tokens(&["v", "NUMBER"])).expect("modify");
    // the text cell `5` displays as `"5"`, quotes included, which does not
    // read back as an integer: it coerces to zero
    assert_eq!(get_int(&t.data[0].1, "v"), 0);
}

#[test]
fn modify_text_to_boolean_reads_the_words() {
    let t = create(
        CreateData::Table { name: "t".to_string(), schema: tokens(&["id", "NUMBER", "KEY", "v", "TEXT"]) },
        blank(),
    )
    .expect("create");
    let t = insert(t, tokens(&["id", "1", "v", "true"])).expect("insert");
    let t = insert(t, tokens(&["id", "2", "v", "yes"])).expect("insert");
    let t = alter(t, "MODIFY".to_string(), tokens(&["v", "BOOLEAN"])).expect("modify");
    match t.data[0].1.get("v") {
        Some(Value::Bool(true)) => {},
        _ => panic!("expected true"),
    }
    match t.data[1].1.get("v") {
        Some(Value::Bool(false)) => {},
        _ => panic!("expected false"),
    }
}

#[test]
fn modify_to_serial_assigns_rank_values() {
    let t = numbered_table();
    let t = alter(t, "MODIFY".to_string(), tokens(&["name", "SERIAL"])).expect("modify");
    assert_eq!(t.schema[1].data_type, Some(FieldDataType::SERIAL));
    assert_eq!(t.schema[1].serial.as_ref().unwrap().next_val, 4);
    assert_eq!(get_int(&t.data[0].1, "name"), 3);
    assert_eq!(get_int(&t.data[1].1, "name"), 1);
    assert_eq!(get_int(&t.data[2].1, "name"), 2);
}

#[test]
fn insert_boolean_folds_case() {
    let t = create(
        CreateData::Table { name: "t".to_string(), schema: tokens(&["id", "NUMBER", "KEY", "ok", "BOOLEAN"]) },
        blank(),
    )
    .expect("create");
    let t = insert(t, tokens(&["id", "1", "ok", "TRUE"])).expect("insert");
    let t = insert(t, tokens(&["id", "2", "ok", "maybe"])).expect("insert");
    match t.data[0].1.get("ok") {
        Some(Value::Bool(true)) => {},
        _ => panic!("expected true"),
    }
    match t.data[1].1.get("ok") {
        Some(Value::Bool(false)) => {},
        _ => panic!("expected false"),
    }
}

#[test]
fn decimal_cells_round_trip_through_insert() {
    let t = create(
        CreateData::Table { name: "t".to_string(), schema: tokens(&["id", "NUMBER", "KEY", "x", "NUMBER"]) },
        blank(),
    )
    .expect("create");
    let t = insert(t, tokens(&["id", "1", "x", "2.50"])).expect("insert");
    match t.data[0].1.get("x") {
        Some(Value::Num(IndexNumber::Float(d))) => {
            assert_eq!(d.mant, 25);
            assert_eq!(d.scale, 1);
        },
        _ => panic!("expected a decimal cell"),
    }
}

#[test]
fn wf_checkers_accept_engine_output() {
    let t = numbered_table();
    assert!(t.check_wf());
    assert!(t.check_schema_typed());
    assert!(t.check_serial_headroom());
    let bad = Table {
        name: String::new(),
        schema: Vec::new(),
        data: vec![
            (Value::Num(IndexNumber::Int(1)), ezpzdb::value::Row::new()),
            (Value::Num(IndexNumber::Int(1)), ezpzdb::value::Row::new()),
        ],
        indexes: Vec::new(),
    };
    assert!(!bad.check_wf());
}
