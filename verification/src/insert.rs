//! INSERT: resolve each schema column's literal from `name value` token
//! pairs, coerce it to the column's type, and add the row under its
//! primary-key value.

use vstd::prelude::*;
use crate::num::IndexNumber;
use crate::models::EngineError;
use crate::models::FieldDataType;
use crate::models::FieldDef;
use crate::models::FieldDefV;
use crate::models::SerialState;
use crate::models::Table;
use crate::models::TableV;
use crate::models::data_has_key;
use crate::models::schema_typed;
use crate::models::serial_headroom;
use crate::models::schema_wf;
use crate::models::table_wf;
use crate::text::dec_of;
use crate::text::dec_ok;
use crate::text::eq_ci;
use crate::text::i64_ok;
use crate::text::int_val;
use crate::text::parse_decimal;
use crate::text::parse_i64;
use crate::text::str_eq;
use crate::text::str_eq_ci;
use crate::value::Row;
use crate::value::RowV;
use crate::value::Value;
use crate::value::ValueV;
use crate::value::lemma_row_set_preserves_wf;
use crate::value::row_set;
use crate::value::row_vals_wf;
use crate::value::row_wf;

verus! {

/// The token that follows the first occurrence of `name`, or empty text
/// when `name` is absent or stands last.
pub open spec fn tok_after(tokens: Seq<Seq<char>>, name: Seq<char>) -> Seq<char>
    decreases tokens.len(),
{
    if tokens.len() == 0 {
        Seq::empty()
    } else if tokens[0] == name {
        if tokens.len() > 1 {
            tokens[1]
        } else {
            Seq::empty()
        }
    } else {
        tok_after(tokens.drop_first(), name)
    }
}

/// A NUMBER literal: an integer if it parses, else an exact decimal, else
/// null.
pub open spec fn coerce_number(tok: Seq<char>) -> ValueV {
    if i64_ok(tok) {
        ValueV::Num(IndexNumber::Int(int_val(tok) as i64))
    } else if dec_ok(tok) {
        ValueV::Num(IndexNumber::Float(dec_of(tok)))
    } else {
        ValueV::Null
    }
}

/// A BOOLEAN literal on INSERT: true exactly when the token lower-cases
/// to `true`.
pub open spec fn coerce_bool_insert(tok: Seq<char>) -> ValueV {
    ValueV::Bool(eq_ci(tok, "true"@))
}

/// The value one column takes from its literal, and the column state left
/// behind (SERIAL consumes and advances its counter, ignoring the
/// literal).
pub open spec fn field_value(f: FieldDefV, tok: Seq<char>) -> (FieldDefV, ValueV) {
    match f.data_type {
        Some(FieldDataType::NUMBER) => (f, coerce_number(tok)),
        Some(FieldDataType::BOOLEAN) => (f, coerce_bool_insert(tok)),
        Some(FieldDataType::TEXT) => (f, ValueV::Text(tok)),
        _ => {
            let cur = f.serial->Some_0.next_val;
            (
                FieldDefV { serial: Some(SerialState { next_val: (cur + 1) as u32 }), ..f },
                ValueV::Num(IndexNumber::Int(cur as i64)),
            )
        },
    }
}

/// Walk the schema in order, resolving every column's value; the row key
/// is the primary-key column's value (null when no column is the key).
pub open spec fn spec_gen(schema: Seq<FieldDefV>, tokens: Seq<Seq<char>>) -> (
    Seq<FieldDefV>,
    ValueV,
    RowV,
)
    decreases schema.len(),
{
    if schema.len() == 0 {
        (schema, ValueV::Null, Seq::empty())
    } else {
        let (ps, key, row) = spec_gen(schema.drop_last(), tokens);
        let f = schema.last();
        let fv = field_value(f, tok_after(tokens, f.name));
        (
            ps.push(fv.0),
            if f.primary_key {
                fv.1
            } else {
                key
            },
            row_set(row, f.name, fv.1),
        )
    }
}

/// What INSERT leaves: the row added under its key and the SERIAL
/// counters advanced — or the reason it was rejected, with nothing to
/// persist.
pub open spec fn spec_insert(t: TableV, tokens: Seq<Seq<char>>) -> Result<TableV, EngineError> {
    let (ns, key, row) = spec_gen(t.schema, tokens);
    if key == ValueV::Null {
        Err(EngineError::MissingKey)
    } else if data_has_key(t.data, key) {
        Err(EngineError::DuplicateKey)
    } else {
        Ok(TableV { schema: ns, data: t.data.push((key, row)), ..t })
    }
}

fn token_after_exec(tokens: &Vec<String>, name: &str) -> (r: String)
    ensures
        r@ == tok_after(tokens@.map_values(|s: String| s@), name@),
{
    let ghost tv = tokens@.map_values(|s: String| s@);
    let n = tokens.len();
    let mut i: usize = 0;
    proof {
        assert(tv.skip(0) =~= tv);
    }
    while i < n
        invariant
            0 <= i <= n,
            n == tokens@.len(),
            tv == tokens@.map_values(|s: String| s@),
            tok_after(tv, name@) == tok_after(tv.skip(i as int), name@),
        decreases n - i,
    {
        proof {
            assert(tv.skip(i as int)[0] == tv[i as int]);
            assert(tv[i as int] == tokens@[i as int]@);
            assert(tv.skip(i as int).drop_first() =~= tv.skip(i + 1));
        }
        if str_eq(tokens[i].as_str(), name) {
            if i + 1 < n {
                proof {
                    assert(tv.skip(i as int)[1] == tv[i + 1]);
                }
                return tokens[i + 1].clone();
            } else {
                return String::new();
            }
        }
        i = i + 1;
    }
    proof {
        assert(tv.skip(n as int) =~= Seq::<Seq<char>>::empty());
    }
    String::new()
}

fn coerce_number_exec(tok: &str) -> (r: Value)
    ensures
        r@ == coerce_number(tok@),
        r@.wf(),
{
    if let Some(v) = parse_i64(tok) {
        return Value::Num(IndexNumber::Int(v));
    }
    if let Some(d) = parse_decimal(tok) {
        return Value::Num(IndexNumber::Float(d));
    }
    Value::Null
}

/// Resolve every column's value from the `name value` token pairs,
/// advancing SERIAL counters in place; the returned key is the
/// primary-key column's value.
#[verifier::loop_isolation(false)]
pub fn generate_row_data(schema: &mut Vec<FieldDef>, new_data_tokens: &Vec<String>) -> (r: (
    Value,
    Row,
))
    requires
        schema_typed(old(schema)@.map_values(|f: FieldDef| f@)),
        schema_wf(old(schema)@.map_values(|f: FieldDef| f@)),
        serial_headroom(old(schema)@.map_values(|f: FieldDef| f@)),
    ensures
        ({
            let sv = old(schema)@.map_values(|f: FieldDef| f@);
            let toks = new_data_tokens@.map_values(|s: String| s@);
            let g = spec_gen(sv, toks);
            &&& final(schema)@.map_values(|f: FieldDef| f@) == g.0
            &&& r.0@ == g.1
            &&& r.1@ == g.2
            &&& r.0@.wf()
            &&& row_wf(r.1@)
            &&& row_vals_wf(r.1@)
        }),
{
    let ghost sv = schema@.map_values(|f: FieldDef| f@);
    let ghost toks = new_data_tokens@.map_values(|s: String| s@);
    let n = schema.len();
    let mut row_key: Value = Value::Null;
    let mut row = Row::new();
    let mut i: usize = 0;
    proof {
        assert(sv.take(0) =~= Seq::<FieldDefV>::empty());
        assert(schema@.map_values(|f: FieldDef| f@) =~= spec_gen(sv.take(0), toks).0 + sv.skip(0));
    }
    while i < n
        invariant
            0 <= i <= n,
            n == schema@.len(),
            schema@.map_values(|f: FieldDef| f@) == spec_gen(sv.take(i as int), toks).0 + sv.skip(
                i as int,
            ),
            row_key@ == spec_gen(sv.take(i as int), toks).1,
            row@ == spec_gen(sv.take(i as int), toks).2,
            row_key@.wf(),
            row_wf(row@),
            row_vals_wf(row@),
        decreases n - i,
    {
        proof {
            assert(sv.take(i + 1).drop_last() =~= sv.take(i as int));
            assert(sv.take(i + 1).last() == sv[i as int]);
            assert(spec_gen(sv.take(i as int), toks).0.len() == i) by {
                lemma_spec_gen_len(sv.take(i as int), toks);
            }
            assert(schema@.map_values(|f: FieldDef| f@)[i as int] == sv.skip(i as int)[0]);
            assert(schema@[i as int]@ == sv[i as int]);
        }
        let value_token = token_after_exec(new_data_tokens, schema[i].name.as_str());
        let ghost f = sv[i as int];
        let ghost fv = field_value(f, tok_after(toks, f.name));
        let ghost pre_map = schema@.map_values(|f2: FieldDef| f2@);
        let dt = match schema[i].data_type {
            Some(d) => d,
            None => {
                proof {
                    assert(false);
                }
                FieldDataType::TEXT
            },
        };
        let field_val: Value = match dt {
            FieldDataType::NUMBER => coerce_number_exec(value_token.as_str()),
            FieldDataType::BOOLEAN => Value::Bool(str_eq_ci(value_token.as_str(), "true")),
            FieldDataType::TEXT => Value::Text(value_token),
            FieldDataType::SERIAL => {
                let cur: u32 = match schema[i].serial {
                    Some(st) => st.next_val,
                    None => {
                        proof {
                            assert(false);
                        }
                        1
                    },
                };
                let mut fd = schema[i].clone();
                fd.serial = Some(SerialState { next_val: cur + 1 });
                schema.set(i, fd);
                proof {
                    assert(schema@.map_values(|f2: FieldDef| f2@) =~= pre_map.update(
                        i as int,
                        fv.0,
                    ));
                }
                Value::Num(IndexNumber::Int(cur as i64))
            },
        };
        proof {
            assert(field_val@ == fv.1);
            lemma_spec_gen_len(sv.take(i + 1), toks);
            assert(spec_gen(sv.take(i + 1), toks).0 == spec_gen(sv.take(i as int), toks).0.push(
                fv.0,
            ));
            let lhs = schema@.map_values(|f2: FieldDef| f2@);
            assert(lhs =~= pre_map.update(i as int, fv.0));
            let rhs = spec_gen(sv.take(i + 1), toks).0 + sv.skip(i + 1);
            assert(lhs =~= rhs);
        }
        if schema[i].primary_key {
            row_key = field_val.clone();
        }
        proof {
            lemma_row_set_preserves_wf(row@, f.name, field_val@);
        }
        let ghost name_snapshot = f.name;
        let field_name: String = clone_field_name(schema, i);
        row.set(field_name.as_str(), field_val);
        i = i + 1;
    }
    proof {
        assert(sv.take(n as int) =~= sv);
        assert(sv.skip(n as int) =~= Seq::<FieldDefV>::empty());
        assert(spec_gen(sv, toks).0 + sv.skip(n as int) =~= spec_gen(sv, toks).0);
    }
    (row_key, row)
}

fn clone_field_name(schema: &Vec<FieldDef>, i: usize) -> (r: String)
    requires
        i < schema@.len(),
    ensures
        r@ == schema@[i as int]@.name,
{
    schema[i].name.clone()
}

proof fn lemma_spec_gen_len(schema: Seq<FieldDefV>, toks: Seq<Seq<char>>)
    ensures
        spec_gen(schema, toks).0.len() == schema.len(),
    decreases schema.len(),
{
    if schema.len() > 0 {
        lemma_spec_gen_len(schema.drop_last(), toks);
    }
}

proof fn lemma_spec_gen_schema_shape(schema: Seq<FieldDefV>, toks: Seq<Seq<char>>)
    ensures
        spec_gen(schema, toks).0.len() == schema.len(),
        forall|j: int|
            0 <= j < schema.len() ==> {
                let nf = #[trigger] spec_gen(schema, toks).0[j];
                nf.name == schema[j].name && nf.primary_key == schema[j].primary_key
                    && nf.data_type == schema[j].data_type && (schema[j].serial is Some
                    ==> nf.serial is Some)
            },
    decreases schema.len(),
{
    lemma_spec_gen_len(schema, toks);
    if schema.len() > 0 {
        lemma_spec_gen_schema_shape(schema.drop_last(), toks);
        lemma_spec_gen_len(schema.drop_last(), toks);
    }
}

/// Add one row. The resolved key must be non-null and unused; an error
/// leaves nothing to persist. Indexes are deliberately left as they are:
/// they are point-in-time snapshots.
#[verifier::loop_isolation(false)]
pub fn insert(table: Table, new_data_tokens: Vec<String>) -> (r: Result<Table, EngineError>)
    requires
        table_wf(table@),
        schema_typed(table@.schema),
        serial_headroom(table@.schema),
    ensures
        match spec_insert(table@, new_data_tokens@.map_values(|s: String| s@)) {
            Ok(tv) => r is Ok && r->Ok_0@ == tv && table_wf(r->Ok_0@),
            Err(e) => r == Err::<Table, EngineError>(e),
        },
{
    let ghost tv0 = table@;
    let ghost toks = new_data_tokens@.map_values(|s: String| s@);
    let Table { name, schema, data, indexes } = table;
    let mut schema = schema;
    let (new_key, new_row) = generate_row_data(&mut schema, &new_data_tokens);
    if matches!(new_key, Value::Null) {
        return Err(EngineError::MissingKey);
    }
    let ghost dv = tv0.data;
    let n = data.len();
    let mut i: usize = 0;
    while i < n
        invariant
            0 <= i <= n,
            n == data@.len(),
            dv == data@.map_values(|e: (Value, Row)| (e.0@, e.1@)),
            forall|j: int| 0 <= j < i ==> (#[trigger] dv[j]).0 != new_key@,
        decreases n - i,
    {
        proof {
            assert(dv[i as int].0 == data@[i as int].0@);
        }
        if data[i].0.eq_value(&new_key) {
            proof {
                assert(data_has_key(dv, new_key@));
            }
            return Err(EngineError::DuplicateKey);
        }
        i = i + 1;
    }
    let mut data = data;
    data.push((new_key, new_row));
    let t = Table { name, schema, data, indexes };
    proof {
        assert(t@.data =~= tv0.data.push((spec_gen(tv0.schema, toks).1, spec_gen(
            tv0.schema,
            toks,
        ).2)));
        lemma_spec_gen_schema_shape(tv0.schema, toks);
        assert(schema_wf(t@.schema));
        assert(table_wf(t@)) by {
            assert(forall|a: int, b: int|
                0 <= a < b < t@.data.len() ==> (#[trigger] t@.data[a]).0 != (
                #[trigger] t@.data[b]).0);
            assert(forall|a: int| 0 <= a < t@.data.len() ==> (#[trigger] t@.data[a]).0.wf());
            assert(forall|a: int| 0 <= a < t@.data.len() ==> row_wf((#[trigger] t@.data[a]).1));
            assert(forall|a: int| 0 <= a < t@.data.len() ==> row_vals_wf(
                (#[trigger] t@.data[a]).1,
            ));
        }
    }
    Ok(t)
}

} // verus!
