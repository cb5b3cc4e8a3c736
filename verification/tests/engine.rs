use ezpzdb::create::{CreateData, create};
use ezpzdb::delete::delete;
use ezpzdb::insert::insert;
use ezpzdb::models::{EngineError, FieldDataType, IndexStore, Table};
use ezpzdb::num::IndexNumber;
use ezpzdb::select::{WhereClause, Condition, HandType, build_query, count_hits, evaluate_query, find_best_index, select};
use ezpzdb::update::update;
use ezpzdb::query;
use ezpzdb::value::{Row, Value};

fn words(list: &[&str]) -> Vec<String> {
    list.iter().map(|w| w.to_string()).collect()
}

fn empty_table() -> Table {
    Table { name: String::new(), schema: Vec::new(), data: Vec::new(), indexes: Vec::new() }
}

fn people_table() -> Table {
    let t = create(
        CreateData::Table { name: "people".to_string(), schema: words(&["id", "NUMBER", "KEY", "name", "TEXT"]) },
        empty_table(),
    )
    .expect("create table");
    let t = insert(t, words(&["id", "1", "name", "Alice"])).expect("insert 1");
    insert(t, words(&["id", "2", "name", "Bob"])).expect("insert 2")
}

fn cell<'a>(row: &'a ezpzdb::value::Row, name: &str) -> &'a Value {
    row.get(name).expect("cell present")
}

fn text_of(v: &Value) -> String {
    match v {
        Value::Text(s) => s.clone(),
        _ => panic!("expected text"),
    }
}

fn int_of(v: &Value) -> i64 {
    match v {
        Value::Num(IndexNumber::Int(k)) => *k,
        _ => panic!("expected an integer"),
    }
}

#[test]
fn create_table_parses_schema_and_starts_empty() {
    let t = create(
        CreateData::Table { name: "t".to_string(), schema: words(&["id", "NUMBER", "KEY", "name", "TEXT", "ok", "BOOLEAN", "n", "SERIAL"]) },
        empty_table(),
    )
    .expect("create");
    assert_eq!(t.name.as_str(), "t");
    assert_eq!(t.data.len(), 0);
    assert_eq!(t.indexes.len(), 0);
    assert_eq!(t.schema.len(), 4);
    assert_eq!(t.schema[0].name.as_str(), "id");
    assert_eq!(t.schema[0].data_type, Some(FieldDataType::NUMBER));
    assert!(t.schema[0].primary_key);
    assert_eq!(t.schema[1].data_type, Some(FieldDataType::TEXT));
    assert!(!t.schema[1].primary_key);
    assert_eq!(t.schema[2].data_type, Some(FieldDataType::BOOLEAN));
    assert_eq!(t.schema[3].data_type, Some(FieldDataType::SERIAL));
    assert_eq!(t.schema[3].serial.as_ref().unwrap().next_val, 1);
    assert!(t.check_wf());
}

#[test]
fn schema_with_two_types_is_fatal() {
    let r = create(
        CreateData::Table { name: "t".to_string(), schema: words(&["a", "TEXT", "NUMBER"]) },
        empty_table(),
    );
    assert_eq!(r.err(), Some(EngineError::MultipleTypes));
}

#[test]
fn schema_with_two_keys_is_fatal() {
    let r = create(
        CreateData::Table { name: "t".to_string(), schema: words(&["a", "KEY", "b", "KEY"]) },
        empty_table(),
    );
    assert_eq!(r.err(), Some(EngineError::MultipleKeys));
}

#[test]
fn serial_after_another_type_is_fatal() {
    let r = create(
        CreateData::Table { name: "t".to_string(), schema: words(&["a", "TEXT", "SERIAL"]) },
        empty_table(),
    );
    assert_eq!(r.err(), Some(EngineError::MultipleTypes));
}

#[test]
fn second_key_on_one_field_is_fatal() {
    let r = create(
        CreateData::Table { name: "t".to_string(), schema: words(&["a", "KEY", "KEY"]) },
        empty_table(),
    );
    assert_eq!(r.err(), Some(EngineError::MultipleKeys));
}

#[test]
fn insert_then_select_star_returns_the_row() {
    let t = people_table();
    let out = select(&t, words(&["*", "FROM", "people"]));
    assert_eq!(out.filtered.len(), 2);
    assert_eq!(int_of(&out.filtered[0].0), 1);
    assert_eq!(text_of(cell(&out.filtered[0].1, "name")).as_str(), "Alice");
    // the primary-key column is listed first and marked as projected
    assert!(out.schema[0].0);
    assert_eq!(out.schema[0].1.name.as_str(), "id");
    assert_eq!(out.missing.len(), 0);
}

#[test]
fn duplicate_primary_key_is_rejected() {
    let t = people_table();
    let before = t.data.len();
    let r = insert(t, words(&["id", "2", "name", "Copy"]));
    assert_eq!(r.err(), Some(EngineError::DuplicateKey));
    // on an error nothing is persisted; the stored snapshot still has two rows
    let t = people_table();
    assert_eq!(t.data.len(), before);
}

#[test]
fn insert_without_key_value_is_rejected() {
    let t = create(
        CreateData::Table { name: "t".to_string(), schema: words(&["id", "NUMBER", "KEY"]) },
        empty_table(),
    )
    .expect("create");
    let r = insert(t, words(&["id", "oops"]));
    assert_eq!(r.err(), Some(EngineError::MissingKey));
}

#[test]
fn serial_column_ignores_supplied_literal() {
    let t = create(
        CreateData::Table { name: "t".to_string(), schema: words(&["id", "SERIAL", "KEY", "name", "TEXT"]) },
        empty_table(),
    )
    .expect("create");
    let t = insert(t, words(&["id", "99", "name", "a"])).expect("insert");
    let t = insert(t, words(&["name", "b"])).expect("insert");
    assert_eq!(int_of(&t.data[0].0), 1);
    assert_eq!(int_of(&t.data[1].0), 2);
    assert_eq!(t.schema[0].serial.as_ref().unwrap().next_val, 3);
}

#[test]
fn where_filters_rows() {
    let t = people_table();
    let out = select(&t, words(&["*", "FROM", "people", "WHERE", "name", "=", "Alice"]));
    assert_eq!(out.filtered.len(), 1);
    assert_eq!(int_of(&out.filtered[0].0), 1);
    assert_eq!(text_of(cell(&out.filtered[0].1, "name")).as_str(), "Alice");
}

#[test]
fn and_chain_filters_conjunctively() {
    let t = people_table();
    let out = select(&t, words(&["*", "FROM", "people", "WHERE", "id", ">", "0", "AND", "name", "=", "Bob"]));
    assert_eq!(out.filtered.len(), 1);
    assert_eq!(int_of(&out.filtered[0].0), 2);
    let none = select(&t, words(&["*", "FROM", "people", "WHERE", "id", ">", "5", "AND", "name", "=", "Bob"]));
    assert_eq!(none.filtered.len(), 0);
    assert_eq!(none.missing.len(), 0);
    assert_eq!(none.schema.len(), 0);
}

#[test]
fn or_chain_filters_disjunctively() {
    let t = people_table();
    let out = select(&t, words(&["*", "FROM", "people", "WHERE", "name", "=", "Alice", "OR", "name", "=", "Bob"]));
    assert_eq!(out.filtered.len(), 2);
}

#[test]
fn missing_projection_fields_are_reported() {
    let t = people_table();
    let out = select(&t, words(&["id", "nickname", "FROM", "people"]));
    assert_eq!(out.missing.len(), 1);
    assert_eq!(out.missing[0].as_str(), "nickname");
}

#[test]
fn scenario_insert_update_delete() {
    // schema `id NUMBER KEY, name TEXT`, two inserts, then the documented
    // SELECT / UPDATE / DELETE sequence
    let t = people_table();
    let out = select(&t, words(&["*", "FROM", "people", "WHERE", "name", "=", "Alice"]));
    assert_eq!(out.filtered.len(), 1);
    assert_eq!(int_of(&out.filtered[0].0), 1);
    assert_eq!(int_of(cell(&out.filtered[0].1, "id")), 1);
    assert_eq!(text_of(cell(&out.filtered[0].1, "name")).as_str(), "Alice");

    let t = update(t, words(&["SET", "name", "=", "Carol", "WHERE", "id", "=", "1"])).expect("update");
    let out = select(&t, words(&["*", "FROM", "people", "WHERE", "id", "=", "1"]));
    assert_eq!(out.filtered.len(), 1);
    assert_eq!(text_of(cell(&out.filtered[0].1, "name")).as_str(), "Carol");

    let t = delete(t, words(&["WHERE", "id", "=", "2"])).expect("delete");
    let out = select(&t, words(&["*", "FROM", "people"]));
    assert_eq!(out.filtered.len(), 1);
    assert_eq!(int_of(&out.filtered[0].0), 1);
}

#[test]
fn delete_without_match_reports_not_found() {
    let t = people_table();
    let r = delete(t, words(&["WHERE", "id", "=", "9"]));
    assert_eq!(r.err(), Some(EngineError::NotFound));
}

#[test]
fn delete_without_where_clears_the_table() {
    let t = people_table();
    let t = delete(t, words(&[])).expect("delete all");
    assert_eq!(t.data.len(), 0);
}

#[test]
fn update_needs_a_where_marker() {
    let t = people_table();
    let r = update(t, words(&["SET", "name", "=", "X"]));
    assert_eq!(r.err(), Some(EngineError::NoQuery));
    let t = people_table();
    let r = update(t, words(&["WHERE", "id", "=", "1"]));
    assert_eq!(r.err(), Some(EngineError::NoChanges));
}

#[test]
fn update_persists_even_with_no_match() {
    let t = people_table();
    let t = update(t, words(&["SET", "name", "=", "X", "WHERE", "id", "=", "9"])).expect("update");
    assert_eq!(t.data.len(), 2);
    assert_eq!(text_of(cell(&t.data[0].1, "name")).as_str(), "Alice");
}

#[test]
fn update_serial_column_is_rejected() {
    let t = create(
        CreateData::Table { name: "t".to_string(), schema: words(&["id", "SERIAL", "KEY"]) },
        empty_table(),
    )
    .expect("create");
    let t = insert(t, words(&[])).expect("insert");
    let r = update(t, words(&["SET", "id", "=", "7", "WHERE", "id", "=", "1"]));
    assert_eq!(r.err(), Some(EngineError::SerialAssignment));
}

#[test]
fn update_unknown_column_is_rejected() {
    let t = people_table();
    let r = update(t, words(&["SET", "ghost", "=", "1", "WHERE", "id", "=", "1"]));
    assert_eq!(r.err(), Some(EngineError::ColumnNotFound));
}

#[test]
fn create_index_snapshots_buckets() {
    let t = people_table();
    let t = create(
        CreateData::Index { table: "people".to_string(), column: "name".to_string() },
        t,
    )
    .expect("create index");
    assert_eq!(t.indexes.len(), 1);
    assert_eq!(t.indexes[0].0.as_str(), "name");
    let idx = &t.indexes[0].1;
    assert_eq!(idx.index_type, FieldDataType::TEXT);
    match &idx.index_data {
        IndexStore::Text(entries) => {
            assert_eq!(entries.len(), 2);
            assert_eq!(entries[0].0.as_str(), "Alice");
            assert_eq!(entries[1].0.as_str(), "Bob");
            assert_eq!(entries[0].1.len(), 1);
            assert_eq!(int_of(&entries[0].1[0]), 1);
        },
        _ => panic!("expected a text store"),
    }
    assert!(t.check_wf());
}

#[test]
fn index_is_a_stale_snapshot_after_insert() {
    let t = people_table();
    let t = create(
        CreateData::Index { table: "people".to_string(), column: "name".to_string() },
        t,
    )
    .expect("create index");
    let t = insert(t, words(&["id", "3", "name", "Cara"])).expect("insert");
    match &t.indexes[0].1.index_data {
        IndexStore::Text(entries) => {
            // the new row is nowhere in the buckets: the snapshot is stale
            assert_eq!(entries.len(), 2);
            let total: usize = entries.iter().map(|e| e.1.len()).sum();
            assert_eq!(total, 2);
        },
        _ => panic!("expected a text store"),
    }
}

#[test]
fn numeric_index_merges_equal_integer_and_decimal_keys() {
    let t = create(
        CreateData::Table { name: "t".to_string(), schema: words(&["id", "NUMBER", "KEY", "x", "NUMBER"]) },
        empty_table(),
    )
    .expect("create");
    let t = insert(t, words(&["id", "1", "x", "2"])).expect("insert int");
    let t = insert(t, words(&["id", "2", "x", "2.0"])).expect("insert decimal");
    let t = create(CreateData::Index { table: "t".to_string(), column: "x".to_string() }, t)
        .expect("create index");
    match &t.indexes[0].1.index_data {
        IndexStore::Number(entries) => {
            assert_eq!(entries.len(), 1);
            assert_eq!(entries[0].1.len(), 2);
        },
        _ => panic!("expected a number store"),
    }
    // an equality estimate against `2` counts both rows
    let clause = WhereClause {
        left_hand: "x".to_string(),
        operator: Condition::Equals,
        right_hand: HandType::Integer(2),
        connector: None,
    };
    assert_eq!(count_hits(&t.indexes[0].1.index_data, &clause), 2);
}

#[test]
fn cost_estimates_follow_the_store() {
    let t = people_table();
    let t = create(
        CreateData::Index { table: "people".to_string(), column: "name".to_string() },
        t,
    )
    .expect("create index");
    let eq = WhereClause {
        left_hand: "name".to_string(),
        operator: Condition::Equals,
        right_hand: HandType::Str("Alice".to_string()),
        connector: None,
    };
    let ne = WhereClause {
        left_hand: "name".to_string(),
        operator: Condition::NotEquals,
        right_hand: HandType::Str("Alice".to_string()),
        connector: None,
    };
    let gt = WhereClause {
        left_hand: "name".to_string(),
        operator: Condition::GreaterThan,
        right_hand: HandType::Str("Alice".to_string()),
        connector: None,
    };
    let store = &t.indexes[0].1.index_data;
    assert_eq!(count_hits(store, &eq), 1);
    assert_eq!(count_hits(store, &ne), 1);
    assert_eq!(count_hits(store, &gt), 1);
    // the planner picks the (only) indexed clause
    let clauses = vec![eq];
    assert_eq!(find_best_index(&t, &clauses), Some(0));
    // full scan and the estimate agree on the same rows either way
    let q = build_query(words(&["*", "FROM", "people", "WHERE", "name", "=", "Alice"]));
    let rows = evaluate_query(&t, &q);
    assert_eq!(rows.len(), 1);
}

#[test]
fn index_on_mismatched_values_aborts() {
    let t = create(
        CreateData::Table { name: "t".to_string(), schema: words(&["id", "NUMBER", "KEY", "x", "NUMBER"]) },
        empty_table(),
    )
    .expect("create");
    // `x` takes null here: `nope` parses as neither integer nor decimal
    let t = insert(t, words(&["id", "1", "x", "nope"])).expect("insert");
    let r = create(CreateData::Index { table: "t".to_string(), column: "x".to_string() }, t);
    assert_eq!(r.err(), Some(EngineError::IndexTypeMismatch));
}

#[test]
fn index_on_unknown_column_is_refused() {
    let t = people_table();
    let r = create(CreateData::Index { table: "people".to_string(), column: "ghost".to_string() }, t);
    assert_eq!(r.err(), Some(EngineError::ColumnNotFound));
}

#[test]
fn index_on_untyped_column_is_refused() {
    let t = create(
        CreateData::Table { name: "t".to_string(), schema: words(&["a", "KEY"]) },
        empty_table(),
    )
    .expect("create");
    let r = create(CreateData::Index { table: "t".to_string(), column: "a".to_string() }, t);
    assert_eq!(r.err(), Some(EngineError::ColumnDataMissing));
}

#[test]
fn legacy_store_evaluation_compares_text_numerically() {
    let mut r1 = Row::new();
    r1.set("size", Value::Text("10".to_string()));
    let mut r2 = Row::new();
    r2.set("size", Value::Text("9".to_string()));
    let store = vec![("a".to_string(), r1), ("b".to_string(), r2)];
    let q = query::build_query(
        ["SELECT", "*", "FROM", "t", "WHERE", "size", ">", "9"]
            .iter()
            .map(|w| w.to_string())
            .collect(),
    );
    let out = query::evaluate_query(&store, &q);
    // text "10" reads as the number ten, which beats nine despite the
    // lexicographic order saying otherwise
    assert_eq!(out.len(), 1);
    assert_eq!(out[0].0.as_str(), "a");
}
