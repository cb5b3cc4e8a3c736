//! ALTER: schema evolution. ADD appends a column and backfills a default
//! into every row; MODIFY changes a column's declared type and coerces
//! every stored value; DROP removes a column (never the primary key);
//! RENAME rekeys a column in the schema and in every row. SERIAL columns
//! are assigned `1 + (number of strictly smaller primary keys)` — the
//! value each row receives when rows are visited in ascending primary-key
//! order — and the counter is left past the last value handed out.

use vstd::prelude::*;
use crate::models::EngineError;
use crate::models::FieldDataType;
use crate::models::FieldDef;
use crate::models::FieldDefV;
use crate::models::SerialState;
use crate::models::Table;
use crate::models::TableV;
use crate::models::table_wf;
use crate::create::find_field_pos;
use crate::create::schema_field;
use crate::num::IndexNumber;
use crate::text::eq_ci;
use crate::text::str_eq;
use crate::text::str_eq_ci;
use crate::text::str_trim;
use crate::text::trim_spec;
use crate::value::Row;
use crate::value::RowV;
use crate::value::Value;
use crate::value::ValueV;
use crate::value::json_text;
use crate::value::key_lt;
use crate::value::key_lt_exec;
use crate::value::lemma_row_remove_preserves_wf;
use crate::value::lemma_row_set_preserves_wf;
use crate::value::row_get;
use crate::value::row_remove;
use crate::value::row_set;
use crate::value::row_vals_wf;
use crate::value::row_wf;

verus! {

/// How many row keys stand strictly below `k` in the key order: the rank
/// that decides a SERIAL backfill value.
pub open spec fn count_lt(d: Seq<(ValueV, RowV)>, k: ValueV) -> nat
    decreases d.len(),
{
    if d.len() == 0 {
        0
    } else {
        count_lt(d.drop_last(), k) + if key_lt(d.last().0, k) {
            1nat
        } else {
            0nat
        }
    }
}

pub proof fn lemma_count_lt_bound(d: Seq<(ValueV, RowV)>, k: ValueV)
    ensures
        count_lt(d, k) <= d.len(),
    decreases d.len(),
{
    if d.len() > 0 {
        lemma_count_lt_bound(d.drop_last(), k);
    }
}

/// The column type an ADD names (case-folded); anything unrecognized
/// falls back to TEXT.
pub open spec fn add_type_of(tok: Seq<char>) -> FieldDataType {
    if eq_ci(tok, "TEXT"@) {
        FieldDataType::TEXT
    } else if eq_ci(tok, "NUMBER"@) {
        FieldDataType::NUMBER
    } else if eq_ci(tok, "BOOLEAN"@) {
        FieldDataType::BOOLEAN
    } else if eq_ci(tok, "SERIAL"@) {
        FieldDataType::SERIAL
    } else {
        FieldDataType::TEXT
    }
}

/// The default an added column backfills into a row.
pub open spec fn add_default(dt: FieldDataType, full: Seq<(ValueV, RowV)>, key: ValueV) -> ValueV {
    match dt {
        FieldDataType::TEXT => ValueV::Text(Seq::empty()),
        FieldDataType::NUMBER => ValueV::Num(IndexNumber::Int(0)),
        FieldDataType::BOOLEAN => ValueV::Bool(false),
        FieldDataType::SERIAL => ValueV::Num(
            IndexNumber::Int((1 + count_lt(full, key)) as i64),
        ),
    }
}

pub open spec fn add_fill(
    full: Seq<(ValueV, RowV)>,
    d: Seq<(ValueV, RowV)>,
    col: Seq<char>,
    dt: FieldDataType,
) -> Seq<(ValueV, RowV)>
    decreases d.len(),
{
    if d.len() == 0 {
        d
    } else {
        add_fill(full, d.drop_last(), col, dt).push(
            (d.last().0, row_set(d.last().1, col, add_default(dt, full, d.last().0))),
        )
    }
}

pub open spec fn spec_alter_add(t: TableV, tokens: Seq<Seq<char>>) -> Result<TableV, EngineError> {
    if tokens.len() <= 1 {
        Err(EngineError::MissingParameters)
    } else {
        let col = tokens[0];
        let dt = add_type_of(tokens[1]);
        if schema_field(t.schema, col) is Some {
            Err(EngineError::ColumnExists)
        } else {
            let serial = if dt == FieldDataType::SERIAL {
                Some(SerialState { next_val: (1 + t.data.len()) as u32 })
            } else {
                None
            };
            Ok(
                TableV {
                    schema: t.schema.push(
                        FieldDefV { name: col, data_type: Some(dt), primary_key: false, serial },
                    ),
                    data: add_fill(t.data, t.data, col, dt),
                    ..t
                },
            )
        }
    }
}

/// The column type a MODIFY names — exact, upper-case spelling only.
pub open spec fn modify_type_of(tok: Seq<char>) -> Option<FieldDataType> {
    if tok == "TEXT"@ {
        Some(FieldDataType::TEXT)
    } else if tok == "NUMBER"@ {
        Some(FieldDataType::NUMBER)
    } else if tok == "BOOLEAN"@ {
        Some(FieldDataType::BOOLEAN)
    } else if tok == "SERIAL"@ {
        Some(FieldDataType::SERIAL)
    } else {
        None
    }
}

/// One row under a MODIFY coercion. TEXT rewrites the cell to its
/// trimmed display text; NUMBER keeps an integer and turns anything else
/// into zero; BOOLEAN re-reads text cells only; SERIAL assigns the rank
/// value whether or not the cell existed. A row without the cell is left
/// alone (except under SERIAL).
pub open spec fn modify_cell(
    dt: FieldDataType,
    row: RowV,
    col: Seq<char>,
    full: Seq<(ValueV, RowV)>,
    key: ValueV,
) -> RowV {
    match dt {
        FieldDataType::TEXT => match row_get(row, col) {
            Some(v) => row_set(row, col, ValueV::Text(trim_spec(json_text(v)))),
            None => row,
        },
        FieldDataType::NUMBER => match row_get(row, col) {
            Some(ValueV::Num(IndexNumber::Int(k))) => row_set(
                row,
                col,
                ValueV::Num(IndexNumber::Int(k)),
            ),
            Some(_) => row_set(row, col, ValueV::Num(IndexNumber::Int(0))),
            None => row,
        },
        FieldDataType::BOOLEAN => match row_get(row, col) {
            Some(ValueV::Text(s)) => row_set(row, col, ValueV::Bool(s == "true"@)),
            _ => row,
        },
        FieldDataType::SERIAL => row_set(
            row,
            col,
            ValueV::Num(IndexNumber::Int((1 + count_lt(full, key)) as i64)),
        ),
    }
}

pub open spec fn modify_fill(
    full: Seq<(ValueV, RowV)>,
    d: Seq<(ValueV, RowV)>,
    col: Seq<char>,
    dt: FieldDataType,
) -> Seq<(ValueV, RowV)>
    decreases d.len(),
{
    if d.len() == 0 {
        d
    } else {
        modify_fill(full, d.drop_last(), col, dt).push(
            (d.last().0, modify_cell(dt, d.last().1, col, full, d.last().0)),
        )
    }
}

/// The schema with the first column named `col` replaced by `nf`.
pub open spec fn schema_replace(schema: Seq<FieldDefV>, col: Seq<char>, nf: FieldDefV) -> Seq<
    FieldDefV,
>
    decreases schema.len(),
{
    if schema.len() == 0 {
        schema
    } else if schema[0].name == col {
        seq![nf] + schema.drop_first()
    } else {
        seq![schema[0]] + schema_replace(schema.drop_first(), col, nf)
    }
}

pub open spec fn spec_alter_modify(t: TableV, tokens: Seq<Seq<char>>) -> Result<
    TableV,
    EngineError,
> {
    if tokens.len() <= 1 {
        Err(EngineError::MissingParameters)
    } else {
        let col = tokens[0];
        match schema_field(t.schema, col) {
            None => Ok(t),  // reported, but the unchanged snapshot is still written back
            Some(f) => match modify_type_of(tokens[1]) {
                None => Err(EngineError::InvalidDataType),
                Some(nt) => {
                    if f.data_type == Some(nt) {
                        Err(EngineError::TypeUnchanged)
                    } else {
                        let nf = FieldDefV {
                            data_type: Some(nt),
                            serial: if nt == FieldDataType::SERIAL {
                                Some(SerialState { next_val: (1 + t.data.len()) as u32 })
                            } else {
                                f.serial
                            },
                            ..f
                        };
                        Ok(
                            TableV {
                                schema: schema_replace(t.schema, col, nf),
                                data: modify_fill(t.data, t.data, col, nt),
                                ..t
                            },
                        )
                    }
                },
            },
        }
    }
}

/// The first primary-key column.
pub open spec fn first_pk(schema: Seq<FieldDefV>) -> Option<FieldDefV>
    decreases schema.len(),
{
    if schema.len() == 0 {
        None
    } else if schema[0].primary_key {
        Some(schema[0])
    } else {
        first_pk(schema.drop_first())
    }
}

/// The schema with the first column named `col` removed.
pub open spec fn schema_remove_first(schema: Seq<FieldDefV>, col: Seq<char>) -> Seq<FieldDefV>
    decreases schema.len(),
{
    if schema.len() == 0 {
        schema
    } else if schema[0].name == col {
        schema.drop_first()
    } else {
        seq![schema[0]] + schema_remove_first(schema.drop_first(), col)
    }
}

pub open spec fn drop_fill(d: Seq<(ValueV, RowV)>, col: Seq<char>) -> Seq<(ValueV, RowV)>
    decreases d.len(),
{
    if d.len() == 0 {
        d
    } else {
        drop_fill(d.drop_last(), col).push((d.last().0, row_remove(d.last().1, col)))
    }
}

pub open spec fn spec_alter_drop(t: TableV, tokens: Seq<Seq<char>>) -> Result<TableV, EngineError> {
    if tokens.len() == 0 {
        Err(EngineError::MissingParameters)
    } else {
        let col = tokens[0];
        if match first_pk(t.schema) {
            Some(f) => f.name == col,
            None => false,
        } {
            Err(EngineError::CannotDropPrimaryKey)
        } else {
            match schema_field(t.schema, col) {
                None => Err(EngineError::ColumnNotFound),
                Some(_) => Ok(
                    TableV {
                        schema: schema_remove_first(t.schema, col),
                        data: drop_fill(t.data, col),
                        ..t
                    },
                ),
            }
        }
    }
}

/// One row under a RENAME: the value moves to the new name, and the old
/// cell goes away (renaming a column onto its own name therefore drops
/// the cell). A row without the cell is left alone.
pub open spec fn rename_cell(row: RowV, col: Seq<char>, new: Seq<char>) -> RowV {
    match row_get(row, col) {
        Some(v) => row_remove(row_set(row, new, v), col),
        None => row,
    }
}

pub open spec fn rename_fill(d: Seq<(ValueV, RowV)>, col: Seq<char>, new: Seq<char>) -> Seq<
    (ValueV, RowV),
>
    decreases d.len(),
{
    if d.len() == 0 {
        d
    } else {
        rename_fill(d.drop_last(), col, new).push(
            (d.last().0, rename_cell(d.last().1, col, new)),
        )
    }
}

pub open spec fn spec_alter_rename(t: TableV, tokens: Seq<Seq<char>>) -> Result<
    TableV,
    EngineError,
> {
    if tokens.len() <= 1 {
        Err(EngineError::MissingParameters)
    } else {
        let col = tokens[0];
        let new = tokens[1];
        match schema_field(t.schema, col) {
            None => Err(EngineError::ColumnNotFound),
            Some(f) => Ok(
                TableV {
                    schema: schema_replace(t.schema, col, FieldDefV { name: new, ..f }),
                    data: rename_fill(t.data, col, new),
                    ..t
                },
            ),
        }
    }
}

/// What an ALTER leaves, per action word (exactly `add`/`ADD` and so on);
/// anything else is refused.
pub open spec fn spec_alter(t: TableV, action: Seq<char>, tokens: Seq<Seq<char>>) -> Result<
    TableV,
    EngineError,
> {
    if action == "add"@ || action == "ADD"@ {
        spec_alter_add(t, tokens)
    } else if action == "modify"@ || action == "MODIFY"@ {
        spec_alter_modify(t, tokens)
    } else if action == "drop"@ || action == "DROP"@ {
        spec_alter_drop(t, tokens)
    } else if action == "rename"@ || action == "RENAME"@ {
        spec_alter_rename(t, tokens)
    } else {
        Err(EngineError::UnknownAction)
    }
}

fn count_lt_exec(data: &Vec<(Value, Row)>, k: &Value) -> (r: usize)
    requires
        k@.wf(),
        forall|j: int| 0 <= j < data@.len() ==> (#[trigger] data@[j]).0@.wf(),
    ensures
        r == count_lt(data@.map_values(|e: (Value, Row)| (e.0@, e.1@)), k@),
        r <= data@.len(),
{
    let ghost dv = data@.map_values(|e: (Value, Row)| (e.0@, e.1@));
    let n = data.len();
    let mut acc: usize = 0;
    let mut i: usize = 0;
    proof {
        assert(dv.take(0) =~= Seq::<(ValueV, RowV)>::empty());
    }
    while i < n
        invariant
            0 <= i <= n,
            n == data@.len(),
            dv == data@.map_values(|e: (Value, Row)| (e.0@, e.1@)),
            k@.wf(),
            forall|j: int| 0 <= j < data@.len() ==> (#[trigger] data@[j]).0@.wf(),
            acc == count_lt(dv.take(i as int), k@),
            acc <= i,
        decreases n - i,
    {
        proof {
            assert(dv.take(i + 1).drop_last() =~= dv.take(i as int));
            assert(dv.take(i + 1).last() == dv[i as int]);
            assert(dv[i as int].0 == data@[i as int].0@);
            assert(data@[i as int].0@.wf());
        }
        if key_lt_exec(&data[i].0, k) {
            acc = acc + 1;
        }
        i = i + 1;
    }
    proof {
        assert(dv.take(n as int) =~= dv);
    }
    acc
}

/// Apply one ALTER action to a table snapshot; an error leaves nothing to
/// persist.
pub fn alter(table: Table, action: String, tokens: Vec<String>) -> (r: Result<Table, EngineError>)
    requires
        table_wf(table@),
        table@.data.len() < 0xffff_ffff,
    ensures
        match spec_alter(table@, action@, tokens@.map_values(|s: String| s@)) {
            Ok(tv) => r is Ok && r->Ok_0@ == tv && table_wf(r->Ok_0@),
            Err(e) => r == Err::<Table, EngineError>(e),
        },
{
    if str_eq(action.as_str(), "add") || str_eq(action.as_str(), "ADD") {
        alter_add(table, &tokens)
    } else if str_eq(action.as_str(), "modify") || str_eq(action.as_str(), "MODIFY") {
        alter_modify(table, &tokens)
    } else if str_eq(action.as_str(), "drop") || str_eq(action.as_str(), "DROP") {
        alter_drop(table, &tokens)
    } else if str_eq(action.as_str(), "rename") || str_eq(action.as_str(), "RENAME") {
        alter_rename(table, &tokens)
    } else {
        Err(EngineError::UnknownAction)
    }
}

/// ALTER ADD: append a typed column and backfill its default.
#[verifier::loop_isolation(false)]
#[verifier::rlimit(60)]
fn alter_add(table: Table, tokens: &Vec<String>) -> (r: Result<Table, EngineError>)
    requires
        table_wf(table@),
        table@.data.len() < 0xffff_ffff,
    ensures
        match spec_alter_add(table@, tokens@.map_values(|s: String| s@)) {
            Ok(tv) => r is Ok && r->Ok_0@ == tv && table_wf(r->Ok_0@),
            Err(e) => r == Err::<Table, EngineError>(e),
        },
{
    let ghost tv0 = table@;
    let ghost toks = tokens@.map_values(|s: String| s@);
    {
        if tokens.len() <= 1 {
            return Err(EngineError::MissingParameters);
        }
        proof {
            assert(toks[0] == tokens@[0]@);
            assert(toks[1] == tokens@[1]@);
        }
        let dt = if str_eq_ci(tokens[1].as_str(), "TEXT") {
            FieldDataType::TEXT
        } else if str_eq_ci(tokens[1].as_str(), "NUMBER") {
            FieldDataType::NUMBER
        } else if str_eq_ci(tokens[1].as_str(), "BOOLEAN") {
            FieldDataType::BOOLEAN
        } else if str_eq_ci(tokens[1].as_str(), "SERIAL") {
            FieldDataType::SERIAL
        } else {
            FieldDataType::TEXT
        };
        if find_field_pos(&table.schema, tokens[0].as_str()).is_some() {
            return Err(EngineError::ColumnExists);
        }
        let n_rows = table.data.len();
        let serial = if matches!(dt, FieldDataType::SERIAL) {
            Some(SerialState { next_val: 1 + (n_rows as u32) })
        } else {
            None
        };
        let new_field = FieldDef {
            name: tokens[0].clone(),
            data_type: Some(dt),
            primary_key: false,
            serial,
        };
        let Table { name, schema, data, indexes } = table;
        let mut schema = schema;
        schema.push(new_field);
        proof {
            assert(schema@.map_values(|f: FieldDef| f@) =~= tv0.schema.push(
                FieldDefV {
                    name: toks[0],
                    data_type: Some(dt),
                    primary_key: false,
                    serial: if dt == FieldDataType::SERIAL {
                        Some(SerialState { next_val: (1 + tv0.data.len()) as u32 })
                    } else {
                        None
                    },
                },
            ));
        }
        let ghost dv = tv0.data;
        let mut out: Vec<(Value, Row)> = Vec::new();
        let mut i: usize = 0;
        proof {
            assert(dv.take(0) =~= Seq::<(ValueV, RowV)>::empty());
        }
        while i < n_rows
            invariant
                0 <= i <= n_rows,
                n_rows == data@.len(),
                dv == data@.map_values(|e: (Value, Row)| (e.0@, e.1@)),
                out@.map_values(|e: (Value, Row)| (e.0@, e.1@)) == add_fill(
                    dv,
                    dv.take(i as int),
                    toks[0],
                    dt,
                ),
                forall|j: int|
                    0 <= j < out@.len() ==> (#[trigger] out@[j]).0@.wf() && row_wf(out@[j].1@)
                        && row_vals_wf(out@[j].1@),
            decreases n_rows - i,
        {
            proof {
                assert(dv.take(i + 1).drop_last() =~= dv.take(i as int));
                assert(dv.take(i + 1).last() == dv[i as int]);
                assert(dv[i as int] == (data@[i as int].0@, data@[i as int].1@));
                assert(row_vals_wf(dv[i as int].1) && row_wf(dv[i as int].1));
                assert(dv[i as int].0.wf());
            }
            let default_val: Value = match dt {
                FieldDataType::TEXT => Value::Text(String::new()),
                FieldDataType::NUMBER => Value::Num(IndexNumber::Int(0)),
                FieldDataType::BOOLEAN => Value::Bool(false),
                FieldDataType::SERIAL => {
                    proof {
                        assert(forall|j: int|
                            0 <= j < data@.len() ==> (#[trigger] data@[j]).0@ == dv[j].0);
                        lemma_count_lt_bound(dv, dv[i as int].0);
                    }
                    let cnt = count_lt_exec(&data, &data[i].0);
                    Value::Num(IndexNumber::Int((cnt as i64) + 1))
                },
            };
            proof {
                assert(default_val@ == add_default(dt, dv, dv[i as int].0));
                lemma_row_set_preserves_wf(dv[i as int].1, toks[0], default_val@);
            }
            let mut new_row = data[i].1.clone();
            new_row.set(tokens[0].as_str(), default_val);
            let ghost pre = out@.map_values(|e: (Value, Row)| (e.0@, e.1@));
            out.push((data[i].0.clone(), new_row));
            proof {
                assert(out@.map_values(|e: (Value, Row)| (e.0@, e.1@)) =~= pre.push(
                    (dv[i as int].0, row_set(dv[i as int].1, toks[0], default_val@)),
                ));
            }
            i = i + 1;
        }
        proof {
            assert(dv.take(n_rows as int) =~= dv);
            lemma_fill_keys_add(dv, dv, toks[0], dt);
        }
        return Ok(Table { name, schema, data: out, indexes });
    }
}

/// ALTER MODIFY: change a column's declared type and coerce every value.
#[verifier::loop_isolation(false)]
#[verifier::rlimit(60)]
fn alter_modify(table: Table, tokens: &Vec<String>) -> (r: Result<Table, EngineError>)
    requires
        table_wf(table@),
        table@.data.len() < 0xffff_ffff,
    ensures
        match spec_alter_modify(table@, tokens@.map_values(|s: String| s@)) {
            Ok(tv) => r is Ok && r->Ok_0@ == tv && table_wf(r->Ok_0@),
            Err(e) => r == Err::<Table, EngineError>(e),
        },
{
    let ghost tv0 = table@;
    let ghost toks = tokens@.map_values(|s: String| s@);
    {
        if tokens.len() <= 1 {
            return Err(EngineError::MissingParameters);
        }
        proof {
            assert(toks[0] == tokens@[0]@);
            assert(toks[1] == tokens@[1]@);
        }
        let pos = match find_field_pos(&table.schema, tokens[0].as_str()) {
            Some(p) => p,
            None => {
                return Ok(table);
            },
        };
        let nt = if str_eq(tokens[1].as_str(), "TEXT") {
            FieldDataType::TEXT
        } else if str_eq(tokens[1].as_str(), "NUMBER") {
            FieldDataType::NUMBER
        } else if str_eq(tokens[1].as_str(), "BOOLEAN") {
            FieldDataType::BOOLEAN
        } else if str_eq(tokens[1].as_str(), "SERIAL") {
            FieldDataType::SERIAL
        } else {
            return Err(EngineError::InvalidDataType);
        };
        proof {
            assert(tv0.schema[pos as int] == table.schema@[pos as int]@);
        }
        match &table.schema[pos].data_type {
            Some(d) => {
                if *d == nt {
                    return Err(EngineError::TypeUnchanged);
                }
            },
            None => {},
        }
        let n_rows = table.data.len();
        let mut nf = table.schema[pos].clone();
        nf.data_type = Some(nt);
        if matches!(nt, FieldDataType::SERIAL) {
            nf.serial = Some(SerialState { next_val: 1 + (n_rows as u32) });
        }
        let Table { name, schema, data, indexes } = table;
        let mut schema = schema;
        let ghost sv0 = tv0.schema;
        schema.set(pos, nf);
        proof {
            lemma_schema_replace_at(sv0, toks[0], schema@.map_values(|f: FieldDef| f@)[pos as int], pos as int);
            assert(schema@.map_values(|f: FieldDef| f@) =~= sv0.update(
                pos as int,
                schema@.map_values(|f: FieldDef| f@)[pos as int],
            ));
        }
        let ghost dv = tv0.data;
        let mut out: Vec<(Value, Row)> = Vec::new();
        let mut i: usize = 0;
        proof {
            assert(dv.take(0) =~= Seq::<(ValueV, RowV)>::empty());
        }
        while i < n_rows
            invariant
                0 <= i <= n_rows,
                n_rows == data@.len(),
                dv == data@.map_values(|e: (Value, Row)| (e.0@, e.1@)),
                out@.map_values(|e: (Value, Row)| (e.0@, e.1@)) == modify_fill(
                    dv,
                    dv.take(i as int),
                    toks[0],
                    nt,
                ),
                forall|j: int|
                    0 <= j < out@.len() ==> (#[trigger] out@[j]).0@.wf() && row_wf(out@[j].1@)
                        && row_vals_wf(out@[j].1@),
            decreases n_rows - i,
        {
            proof {
                assert(dv.take(i + 1).drop_last() =~= dv.take(i as int));
                assert(dv.take(i + 1).last() == dv[i as int]);
                assert(dv[i as int] == (data@[i as int].0@, data@[i as int].1@));
                assert(row_vals_wf(dv[i as int].1) && row_wf(dv[i as int].1));
                assert(dv[i as int].0.wf());
                if row_get(dv[i as int].1, toks[0]) is Some {
                    lemma_row_get_wf_alter(dv[i as int].1, toks[0]);
                }
            }
            let mut new_row = data[i].1.clone();
            match nt {
                FieldDataType::TEXT => {
                    if let Some(v) = lookup_cell(&data, i, tokens[0].as_str()) {
                        let rendered = v.render_json();
                        let trimmed = str_trim(rendered.as_str());
                        new_row.set(tokens[0].as_str(), Value::Text(trimmed));
                        proof {
                            lemma_row_set_preserves_wf(
                                dv[i as int].1,
                                toks[0],
                                ValueV::Text(
                                    trim_spec(json_text(row_get(dv[i as int].1, toks[0])->Some_0)),
                                ),
                            );
                        }
                    }
                },
                FieldDataType::NUMBER => {
                    if let Some(v) = lookup_cell(&data, i, tokens[0].as_str()) {
                        let nv = match v {
                            Value::Num(IndexNumber::Int(k)) => Value::Num(IndexNumber::Int(*k)),
                            _ => Value::Num(IndexNumber::Int(0)),
                        };
                        new_row.set(tokens[0].as_str(), nv);
                        proof {
                            lemma_row_set_preserves_wf(
                                dv[i as int].1,
                                toks[0],
                                match row_get(dv[i as int].1, toks[0])->Some_0 {
                                    ValueV::Num(IndexNumber::Int(k)) => ValueV::Num(
                                        IndexNumber::Int(k),
                                    ),
                                    _ => ValueV::Num(IndexNumber::Int(0)),
                                },
                            );
                        }
                    }
                },
                FieldDataType::BOOLEAN => {
                    let is_text = match lookup_cell(&data, i, tokens[0].as_str()) {
                        Some(Value::Text(_)) => true,
                        _ => false,
                    };
                    if is_text {
                        let bv = match lookup_cell(&data, i, tokens[0].as_str()) {
                            Some(Value::Text(s)) => {
                                proof {
                                    reveal_strlit("true");
                                }
                                Value::Bool(str_eq(s.as_str(), "true"))
                            },
                            _ => Value::Null,
                        };
                        new_row.set(tokens[0].as_str(), bv);
                        proof {
                            lemma_row_set_preserves_wf(
                                dv[i as int].1,
                                toks[0],
                                match row_get(dv[i as int].1, toks[0])->Some_0 {
                                    ValueV::Text(s) => ValueV::Bool(s == "true"@),
                                    _ => ValueV::Null,
                                },
                            );
                        }
                    }
                },
                FieldDataType::SERIAL => {
                    proof {
                        assert(forall|j: int|
                            0 <= j < data@.len() ==> (#[trigger] data@[j]).0@ == dv[j].0);
                        lemma_count_lt_bound(dv, dv[i as int].0);
                    }
                    let cnt = count_lt_exec(&data, &data[i].0);
                    new_row.set(tokens[0].as_str(), Value::Num(IndexNumber::Int((cnt as i64) + 1)));
                    proof {
                        lemma_row_set_preserves_wf(
                            dv[i as int].1,
                            toks[0],
                            ValueV::Num(
                                IndexNumber::Int((1 + count_lt(dv, dv[i as int].0)) as i64),
                            ),
                        );
                    }
                },
            }
            proof {
                assert(new_row@ == modify_cell(nt, dv[i as int].1, toks[0], dv, dv[i as int].0));
            }
            let ghost pre = out@.map_values(|e: (Value, Row)| (e.0@, e.1@));
            out.push((data[i].0.clone(), new_row));
            proof {
                assert(out@.map_values(|e: (Value, Row)| (e.0@, e.1@)) =~= pre.push(
                    (dv[i as int].0, modify_cell(nt, dv[i as int].1, toks[0], dv, dv[i as int].0)),
                ));
            }
            i = i + 1;
        }
        proof {
            assert(dv.take(n_rows as int) =~= dv);
            lemma_fill_keys_modify(dv, dv, toks[0], nt);
        }
        return Ok(Table { name, schema, data: out, indexes });
    }
}

/// ALTER DROP: remove a non-key column from the schema and every row.
#[verifier::loop_isolation(false)]
#[verifier::rlimit(60)]
fn alter_drop(table: Table, tokens: &Vec<String>) -> (r: Result<Table, EngineError>)
    requires
        table_wf(table@),
    ensures
        match spec_alter_drop(table@, tokens@.map_values(|s: String| s@)) {
            Ok(tv) => r is Ok && r->Ok_0@ == tv && table_wf(r->Ok_0@),
            Err(e) => r == Err::<Table, EngineError>(e),
        },
{
    let ghost tv0 = table@;
    let ghost toks = tokens@.map_values(|s: String| s@);
    {
        if tokens.len() == 0 {
            return Err(EngineError::MissingParameters);
        }
        proof {
            assert(toks[0] == tokens@[0]@);
        }
        let pk_pos = find_pk_pos(&table.schema);
        if let Some(pp) = pk_pos {
            if str_eq(table.schema[pp].name.as_str(), tokens[0].as_str()) {
                proof {
                    assert(tv0.schema[pp as int] == table.schema@[pp as int]@);
                }
                return Err(EngineError::CannotDropPrimaryKey);
            }
            proof {
                assert(tv0.schema[pp as int] == table.schema@[pp as int]@);
            }
        }
        let pos = match find_field_pos(&table.schema, tokens[0].as_str()) {
            Some(p) => p,
            None => {
                return Err(EngineError::ColumnNotFound);
            },
        };
        let Table { name, schema, data, indexes } = table;
        let mut schema = schema;
        schema.remove(pos);
        proof {
            lemma_schema_remove_at(tv0.schema, toks[0], pos as int);
            assert(schema@.map_values(|f: FieldDef| f@) =~= tv0.schema.remove(pos as int));
        }
        let ghost dv = tv0.data;
        let mut out: Vec<(Value, Row)> = Vec::new();
        let n_rows = data.len();
        let mut i: usize = 0;
        proof {
            assert(dv.take(0) =~= Seq::<(ValueV, RowV)>::empty());
        }
        while i < n_rows
            invariant
                0 <= i <= n_rows,
                n_rows == data@.len(),
                dv == data@.map_values(|e: (Value, Row)| (e.0@, e.1@)),
                out@.map_values(|e: (Value, Row)| (e.0@, e.1@)) == drop_fill(
                    dv.take(i as int),
                    toks[0],
                ),
                forall|j: int|
                    0 <= j < out@.len() ==> (#[trigger] out@[j]).0@.wf() && row_wf(out@[j].1@)
                        && row_vals_wf(out@[j].1@),
            decreases n_rows - i,
        {
            proof {
                assert(dv.take(i + 1).drop_last() =~= dv.take(i as int));
                assert(dv.take(i + 1).last() == dv[i as int]);
                assert(dv[i as int] == (data@[i as int].0@, data@[i as int].1@));
                assert(row_vals_wf(dv[i as int].1) && row_wf(dv[i as int].1));
                assert(dv[i as int].0.wf());
                lemma_row_remove_preserves_wf(dv[i as int].1, toks[0]);
            }
            let mut new_row = data[i].1.clone();
            new_row.remove(tokens[0].as_str());
            let ghost pre = out@.map_values(|e: (Value, Row)| (e.0@, e.1@));
            out.push((data[i].0.clone(), new_row));
            proof {
                assert(out@.map_values(|e: (Value, Row)| (e.0@, e.1@)) =~= pre.push(
                    (dv[i as int].0, row_remove(dv[i as int].1, toks[0])),
                ));
            }
            i = i + 1;
        }
        proof {
            assert(dv.take(n_rows as int) =~= dv);
            lemma_fill_keys_drop(dv, toks[0]);
        }
        return Ok(Table { name, schema, data: out, indexes });
    }
}

/// ALTER RENAME: move a column to a new name in the schema and every row.
#[verifier::loop_isolation(false)]
#[verifier::rlimit(60)]
fn alter_rename(table: Table, tokens: &Vec<String>) -> (r: Result<Table, EngineError>)
    requires
        table_wf(table@),
    ensures
        match spec_alter_rename(table@, tokens@.map_values(|s: String| s@)) {
            Ok(tv) => r is Ok && r->Ok_0@ == tv && table_wf(r->Ok_0@),
            Err(e) => r == Err::<Table, EngineError>(e),
        },
{
    let ghost tv0 = table@;
    let ghost toks = tokens@.map_values(|s: String| s@);
    {
        if tokens.len() <= 1 {
            return Err(EngineError::MissingParameters);
        }
        proof {
            assert(toks[0] == tokens@[0]@);
            assert(toks[1] == tokens@[1]@);
        }
        let pos = match find_field_pos(&table.schema, tokens[0].as_str()) {
            Some(p) => p,
            None => {
                return Err(EngineError::ColumnNotFound);
            },
        };
        let mut nf = table.schema[pos].clone();
        nf.name = tokens[1].clone();
        let Table { name, schema, data, indexes } = table;
        let mut schema = schema;
        let ghost sv0 = tv0.schema;
        schema.set(pos, nf);
        proof {
            lemma_schema_replace_at(sv0, toks[0], schema@.map_values(|f: FieldDef| f@)[pos as int], pos as int);
            assert(schema@.map_values(|f: FieldDef| f@) =~= sv0.update(
                pos as int,
                schema@.map_values(|f: FieldDef| f@)[pos as int],
            ));
        }
        let ghost dv = tv0.data;
        let mut out: Vec<(Value, Row)> = Vec::new();
        let n_rows = data.len();
        let mut i: usize = 0;
        proof {
            assert(dv.take(0) =~= Seq::<(ValueV, RowV)>::empty());
        }
        while i < n_rows
            invariant
                0 <= i <= n_rows,
                n_rows == data@.len(),
                dv == data@.map_values(|e: (Value, Row)| (e.0@, e.1@)),
                out@.map_values(|e: (Value, Row)| (e.0@, e.1@)) == rename_fill(
                    dv.take(i as int),
                    toks[0],
                    toks[1],
                ),
                forall|j: int|
                    0 <= j < out@.len() ==> (#[trigger] out@[j]).0@.wf() && row_wf(out@[j].1@)
                        && row_vals_wf(out@[j].1@),
            decreases n_rows - i,
        {
            proof {
                assert(dv.take(i + 1).drop_last() =~= dv.take(i as int));
                assert(dv.take(i + 1).last() == dv[i as int]);
                assert(dv[i as int] == (data@[i as int].0@, data@[i as int].1@));
                assert(row_vals_wf(dv[i as int].1) && row_wf(dv[i as int].1));
                assert(dv[i as int].0.wf());
                if row_get(dv[i as int].1, toks[0]) is Some {
                    lemma_row_get_wf_alter(dv[i as int].1, toks[0]);
                    lemma_row_set_preserves_wf(
                        dv[i as int].1,
                        toks[1],
                        row_get(dv[i as int].1, toks[0])->Some_0,
                    );
                    lemma_row_remove_preserves_wf(
                        row_set(
                            dv[i as int].1,
                            toks[1],
                            row_get(dv[i as int].1, toks[0])->Some_0,
                        ),
                        toks[0],
                    );
                }
            }
            let mut new_row = data[i].1.clone();
            if let Some(v) = lookup_cell(&data, i, tokens[0].as_str()) {
                let moved = v.clone();
                new_row.set(tokens[1].as_str(), moved);
                new_row.remove(tokens[0].as_str());
            }
            proof {
                assert(new_row@ == rename_cell(dv[i as int].1, toks[0], toks[1]));
            }
            let ghost pre = out@.map_values(|e: (Value, Row)| (e.0@, e.1@));
            out.push((data[i].0.clone(), new_row));
            proof {
                assert(out@.map_values(|e: (Value, Row)| (e.0@, e.1@)) =~= pre.push(
                    (dv[i as int].0, rename_cell(dv[i as int].1, toks[0], toks[1])),
                ));
            }
            i = i + 1;
        }
        proof {
            assert(dv.take(n_rows as int) =~= dv);
            lemma_fill_keys_rename(dv, toks[0], toks[1]);
        }
        return Ok(Table { name, schema, data: out, indexes });
    }
}

fn lookup_cell<'a>(data: &'a Vec<(Value, Row)>, i: usize, col: &str) -> (r: Option<&'a Value>)
    requires
        i < data@.len(),
    ensures
        ({
            let rv = data@.map_values(|e: (Value, Row)| (e.0@, e.1@))[i as int].1;
            match r {
                Some(v) => row_get(rv, col@) == Some(v@),
                None => row_get(rv, col@) is None,
            }
        }),
{
    proof {
        assert(data@.map_values(|e: (Value, Row)| (e.0@, e.1@))[i as int].1 == data@[i as int].1@);
    }
    data[i].1.get(col)
}

fn find_pk_pos(schema: &Vec<FieldDef>) -> (r: Option<usize>)
    ensures
        ({
            let sv = schema@.map_values(|f: FieldDef| f@);
            match r {
                Some(i) => 0 <= i < sv.len() && first_pk(sv) == Some(sv[i as int]),
                None => first_pk(sv) is None,
            }
        }),
{
    let ghost sv = schema@.map_values(|f: FieldDef| f@);
    let n = schema.len();
    let mut i: usize = 0;
    proof {
        assert(sv.skip(0) =~= sv);
    }
    while i < n
        invariant
            0 <= i <= n,
            n == schema@.len(),
            sv == schema@.map_values(|f: FieldDef| f@),
            first_pk(sv) == first_pk(sv.skip(i as int)),
        decreases n - i,
    {
        proof {
            assert(sv.skip(i as int)[0] == sv[i as int]);
            assert(sv.skip(i as int).drop_first() =~= sv.skip(i + 1));
            assert(sv[i as int] == schema@[i as int]@);
        }
        if schema[i].primary_key {
            return Some(i);
        }
        i = i + 1;
    }
    proof {
        assert(sv.skip(n as int) =~= Seq::<FieldDefV>::empty());
    }
    None
}

proof fn lemma_row_get_wf_alter(r: RowV, name: Seq<char>)
    requires
        row_vals_wf(r),
        row_get(r, name) is Some,
    ensures
        row_get(r, name)->Some_0.wf(),
    decreases r.len(),
{
    if r.len() > 0 && r[0].0 != name {
        assert(forall|i: int| 0 <= i < r.drop_first().len() ==> (#[trigger] r.drop_first()[i]).1
            == r[i + 1].1);
        lemma_row_get_wf_alter(r.drop_first(), name);
    }
}

proof fn lemma_schema_replace_at(schema: Seq<FieldDefV>, col: Seq<char>, nf: FieldDefV, i: int)
    requires
        0 <= i < schema.len(),
        schema[i].name == col,
        forall|j: int| 0 <= j < i ==> (#[trigger] schema[j]).name != col,
    ensures
        schema_replace(schema, col, nf) == schema.update(i, nf),
    decreases i,
{
    if i == 0 {
        assert(schema_replace(schema, col, nf) =~= schema.update(0, nf));
    } else {
        assert(forall|j: int|
            0 <= j < i - 1 ==> (#[trigger] schema.drop_first()[j]).name != col);
        lemma_schema_replace_at(schema.drop_first(), col, nf, i - 1);
        assert(seq![schema[0]] + schema.drop_first().update(i - 1, nf) =~= schema.update(i, nf));
    }
}

proof fn lemma_schema_remove_at(schema: Seq<FieldDefV>, col: Seq<char>, i: int)
    requires
        0 <= i < schema.len(),
        schema[i].name == col,
        forall|j: int| 0 <= j < i ==> (#[trigger] schema[j]).name != col,
    ensures
        schema_remove_first(schema, col) == schema.remove(i),
    decreases i,
{
    if i == 0 {
        assert(schema_remove_first(schema, col) =~= schema.remove(0));
    } else {
        assert(forall|j: int|
            0 <= j < i - 1 ==> (#[trigger] schema.drop_first()[j]).name != col);
        lemma_schema_remove_at(schema.drop_first(), col, i - 1);
        assert(seq![schema[0]] + schema.drop_first().remove(i - 1) =~= schema.remove(i));
    }
}

proof fn lemma_fill_keys_add(full: Seq<(ValueV, RowV)>, d: Seq<(ValueV, RowV)>, col: Seq<char>, dt: FieldDataType)
    ensures
        add_fill(full, d, col, dt).len() == d.len(),
        forall|j: int| 0 <= j < d.len() ==> (#[trigger] add_fill(full, d, col, dt)[j]).0 == d[j].0,
    decreases d.len(),
{
    if d.len() > 0 {
        lemma_fill_keys_add(full, d.drop_last(), col, dt);
        assert(forall|j: int| 0 <= j < d.len() - 1 ==> (#[trigger] d.drop_last()[j]).0 == d[j].0);
    }
}

proof fn lemma_fill_keys_modify(full: Seq<(ValueV, RowV)>, d: Seq<(ValueV, RowV)>, col: Seq<char>, dt: FieldDataType)
    ensures
        modify_fill(full, d, col, dt).len() == d.len(),
        forall|j: int|
            0 <= j < d.len() ==> (#[trigger] modify_fill(full, d, col, dt)[j]).0 == d[j].0,
    decreases d.len(),
{
    if d.len() > 0 {
        lemma_fill_keys_modify(full, d.drop_last(), col, dt);
        assert(forall|j: int| 0 <= j < d.len() - 1 ==> (#[trigger] d.drop_last()[j]).0 == d[j].0);
    }
}

proof fn lemma_fill_keys_drop(d: Seq<(ValueV, RowV)>, col: Seq<char>)
    ensures
        drop_fill(d, col).len() == d.len(),
        forall|j: int| 0 <= j < d.len() ==> (#[trigger] drop_fill(d, col)[j]).0 == d[j].0,
    decreases d.len(),
{
    if d.len() > 0 {
        lemma_fill_keys_drop(d.drop_last(), col);
        assert(forall|j: int| 0 <= j < d.len() - 1 ==> (#[trigger] d.drop_last()[j]).0 == d[j].0);
    }
}

proof fn lemma_fill_keys_rename(d: Seq<(ValueV, RowV)>, col: Seq<char>, new: Seq<char>)
    ensures
        rename_fill(d, col, new).len() == d.len(),
        forall|j: int| 0 <= j < d.len() ==> (#[trigger] rename_fill(d, col, new)[j]).0 == d[j].0,
    decreases d.len(),
{
    if d.len() > 0 {
        lemma_fill_keys_rename(d.drop_last(), col, new);
        assert(forall|j: int| 0 <= j < d.len() - 1 ==> (#[trigger] d.drop_last()[j]).0 == d[j].0);
    }
}

} // verus!
