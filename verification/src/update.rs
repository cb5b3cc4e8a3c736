//! UPDATE: split the tokens at the first WHERE marker, coerce the new
//! literal to the target column's declared type, and overwrite the column
//! in every matching row. The snapshot is persisted even when nothing
//! matched — unlike DELETE, which only persists on a match.

use vstd::prelude::*;
use crate::models::EngineError;
use crate::models::FieldDataType;
use crate::models::Table;
use crate::models::TableV;
use crate::models::table_wf;
use crate::create::schema_field;
use crate::insert::coerce_number;
use crate::select::QueryV;
use crate::select::build_query;
use crate::select::passes_clauses;
use crate::select::spec_build_query;
use crate::select::spec_matches;
use crate::text::parse_bool;
use crate::text::parse_decimal;
use crate::text::parse_i64;
use crate::text::str_eq;
use crate::value::Row;
use crate::value::RowV;
use crate::value::Value;
use crate::value::ValueV;
use crate::value::lemma_row_set_preserves_wf;
use crate::value::row_set;
use crate::value::row_vals_wf;
use crate::value::row_wf;

verus! {

/// Index of the first `where` or `WHERE` token.
pub open spec fn first_where_pos(tokens: Seq<Seq<char>>) -> Option<int>
    decreases tokens.len(),
{
    if tokens.len() == 0 {
        None
    } else if tokens[0] == "where"@ || tokens[0] == "WHERE"@ {
        Some(0int)
    } else {
        match first_where_pos(tokens.drop_first()) {
            None => None,
            Some(p) => Some(p + 1),
        }
    }
}

/// The new literal under the target column's declared type: text
/// verbatim; numbers as integer, then decimal, else null; booleans only
/// from the exact words, else null; a SERIAL column refuses the
/// assignment outright; an untyped column takes null.
pub open spec fn spec_right_hand(dt: Option<FieldDataType>, tok: Seq<char>) -> Result<
    ValueV,
    EngineError,
> {
    match dt {
        Some(FieldDataType::TEXT) => Ok(ValueV::Text(tok)),
        Some(FieldDataType::NUMBER) => Ok(coerce_number(tok)),
        Some(FieldDataType::BOOLEAN) => if tok == "true"@ {
            Ok(ValueV::Bool(true))
        } else if tok == "false"@ {
            Ok(ValueV::Bool(false))
        } else {
            Ok(ValueV::Null)
        },
        Some(FieldDataType::SERIAL) => Err(EngineError::SerialAssignment),
        None => Ok(ValueV::Null),
    }
}

/// Every matching row with the column overwritten.
pub open spec fn update_rows(
    d: Seq<(ValueV, RowV)>,
    q: QueryV,
    col: Seq<char>,
    v: ValueV,
) -> Seq<(ValueV, RowV)>
    decreases d.len(),
{
    if d.len() == 0 {
        d
    } else if spec_matches(d.last().1, q) {
        update_rows(d.drop_last(), q, col, v).push((d.last().0, row_set(d.last().1, col, v)))
    } else {
        update_rows(d.drop_last(), q, col, v).push(d.last())
    }
}

/// The WHERE tail is appended to an implicit `* FROM <name>` prefix.
pub open spec fn spec_update_query(t: TableV, tokens: Seq<Seq<char>>, p: int) -> QueryV {
    spec_build_query(seq!["*"@, "FROM"@, t.name] + tokens.skip(p))
}

/// What UPDATE leaves, or the reason it was rejected with nothing to
/// persist.
pub open spec fn spec_update(t: TableV, tokens: Seq<Seq<char>>) -> Result<TableV, EngineError> {
    match first_where_pos(tokens) {
        None => Err(EngineError::NoQuery),
        Some(p) => {
            if p == 0 {
                Err(EngineError::NoChanges)
            } else {
                let q = spec_update_query(t, tokens, p);
                match schema_field(t.schema, tokens[1]) {
                    None => Err(EngineError::ColumnNotFound),
                    Some(fld) => match spec_right_hand(fld.data_type, tokens[3]) {
                        Err(e) => Err(e),
                        Ok(v) => Ok(TableV { data: update_rows(t.data, q, tokens[1], v), ..t }),
                    },
                }
            }
        },
    }
}

proof fn lemma_fwp_shift(tokens: Seq<Seq<char>>, i: int)
    requires
        0 <= i <= tokens.len(),
        forall|j: int| 0 <= j < i ==> !((#[trigger] tokens[j]) == "where"@ || tokens[j] == "WHERE"@),
    ensures
        first_where_pos(tokens) == match first_where_pos(tokens.skip(i)) {
            None => None::<int>,
            Some(p) => Some(p + i),
        },
    decreases i,
{
    if i == 0 {
        assert(tokens.skip(0) =~= tokens);
    } else {
        assert(tokens.drop_first() =~= tokens.skip(1));
        assert(forall|j: int|
            0 <= j < i - 1 ==> !((#[trigger] tokens.skip(1)[j]) == "where"@ || tokens.skip(1)[j]
                == "WHERE"@));
        lemma_fwp_shift(tokens.skip(1), i - 1);
        assert(tokens.skip(1).skip(i - 1) =~= tokens.skip(i));
    }
}

fn find_where_pos(tokens: &Vec<String>) -> (r: Option<usize>)
    ensures
        ({
            let tv = tokens@.map_values(|s: String| s@);
            match r {
                Some(p) => first_where_pos(tv) == Some(p as int) && p < tokens@.len(),
                None => first_where_pos(tv) is None,
            }
        }),
{
    let ghost tv = tokens@.map_values(|s: String| s@);
    let n = tokens.len();
    let mut i: usize = 0;
    while i < n
        invariant
            0 <= i <= n,
            n == tokens@.len(),
            tv == tokens@.map_values(|s: String| s@),
            forall|j: int| 0 <= j < i ==> !((#[trigger] tv[j]) == "where"@ || tv[j] == "WHERE"@),
        decreases n - i,
    {
        proof {
            assert(tv[i as int] == tokens@[i as int]@);
        }
        if str_eq(tokens[i].as_str(), "where") || str_eq(tokens[i].as_str(), "WHERE") {
            proof {
                lemma_fwp_shift(tv, i as int);
                assert(tv.skip(i as int)[0] == tv[i as int]);
            }
            return Some(i);
        }
        i = i + 1;
    }
    proof {
        lemma_fwp_shift(tv, n as int);
        assert(tv.skip(n as int) =~= Seq::<Seq<char>>::empty());
    }
    None
}

/// Whether an UPDATE token list is shaped acceptably: either no WHERE
/// marker at all, an empty change specification, or a change
/// specification long enough to carry a column and a literal. A caller
/// holding arbitrary tokens tests this before asking for the update.
pub fn update_tokens_ok(tokens: &Vec<String>) -> (r: bool)
    ensures
        r == match first_where_pos(tokens@.map_values(|s: String| s@)) {
            Some(p) => p == 0 || p >= 4,
            None => true,
        },
{
    match find_where_pos(tokens) {
        Some(p) => p == 0 || p >= 4,
        None => true,
    }
}

/// The coerced right-hand value for an UPDATE change specification.
pub fn build_right_hand_change(data_type: &Option<FieldDataType>, value: &String) -> (r: Result<
    Value,
    EngineError,
>)
    ensures
        match spec_right_hand(*data_type, value@) {
            Ok(v) => r is Ok && r->Ok_0@ == v && r->Ok_0@.wf(),
            Err(e) => r == Err::<Value, EngineError>(e),
        },
{
    match data_type {
        Some(FieldDataType::TEXT) => Ok(Value::Text(value.clone())),
        Some(FieldDataType::NUMBER) => {
            if let Some(v) = parse_i64(value.as_str()) {
                return Ok(Value::Num(crate::num::IndexNumber::Int(v)));
            }
            if let Some(d) = parse_decimal(value.as_str()) {
                return Ok(Value::Num(crate::num::IndexNumber::Float(d)));
            }
            Ok(Value::Null)
        },
        Some(FieldDataType::BOOLEAN) => {
            proof {
                reveal_strlit("true");
                reveal_strlit("false");
            }
            match parse_bool(value.as_str()) {
                Some(b) => Ok(Value::Bool(b)),
                None => Ok(Value::Null),
            }
        },
        Some(FieldDataType::SERIAL) => Err(EngineError::SerialAssignment),
        None => Ok(Value::Null),
    }
}

/// Apply one UPDATE. The change tokens before the WHERE marker name the
/// column (second token) and the new literal (fourth token); everything
/// from the marker on filters the rows.
#[verifier::loop_isolation(false)]
pub fn update(table: Table, tokens: Vec<String>) -> (r: Result<Table, EngineError>)
    requires
        table_wf(table@),
        match first_where_pos(tokens@.map_values(|s: String| s@)) {
            Some(p) => p == 0 || p >= 4,
            None => true,
        },
    ensures
        match spec_update(table@, tokens@.map_values(|s: String| s@)) {
            Ok(tv) => r is Ok && r->Ok_0@ == tv && table_wf(r->Ok_0@),
            Err(e) => r == Err::<Table, EngineError>(e),
        },
{
    let ghost tv0 = table@;
    let ghost toks = tokens@.map_values(|s: String| s@);
    let p = match find_where_pos(&tokens) {
        Some(p) => p,
        None => {
            return Err(EngineError::NoQuery);
        },
    };
    if p == 0 {
        return Err(EngineError::NoChanges);
    }
    // assemble `* FROM <name> <where tail>`
    let mut final_query: Vec<String> = Vec::new();
    proof {
        reveal_strlit("*");
        reveal_strlit("FROM");
    }
    let mut star = String::new();
    star.append("*");
    final_query.push(star);
    let mut fromkw = String::new();
    fromkw.append("FROM");
    final_query.push(fromkw);
    final_query.push(table.name.clone());
    let n = tokens.len();
    let mut i: usize = p;
    proof {
        assert(toks.subrange(p as int, p as int) =~= Seq::<Seq<char>>::empty());
        assert(final_query@.map_values(|s: String| s@) =~~= seq!["*"@, "FROM"@, tv0.name]
            + toks.subrange(p as int, p as int));
    }
    while i < n
        invariant
            p <= i <= n,
            n == tokens@.len(),
            toks == tokens@.map_values(|s: String| s@),
            final_query@.map_values(|s: String| s@) == seq!["*"@, "FROM"@, tv0.name] + toks.subrange(
                p as int,
                i as int,
            ),
        decreases n - i,
    {
        proof {
            assert(toks[i as int] == tokens@[i as int]@);
        }
        let ghost pre = final_query@.map_values(|s: String| s@);
        final_query.push(tokens[i].clone());
        proof {
            assert(final_query@.map_values(|s: String| s@) =~= pre.push(toks[i as int]));
            assert(pre.push(toks[i as int]) =~= seq!["*"@, "FROM"@, tv0.name] + toks.subrange(
                p as int,
                i + 1,
            ));
        }
        i = i + 1;
    }
    proof {
        assert(toks.subrange(p as int, n as int) =~= toks.skip(p as int));
        assert(final_query@.map_values(|s: String| s@) == seq!["*"@, "FROM"@, tv0.name]
            + toks.skip(p as int));
    }
    let query = build_query(final_query);
    let field_pos = match crate::create::find_field_pos(&table.schema, tokens[1].as_str()) {
        Some(fp) => fp,
        None => {
            proof {
                assert(toks[1] == tokens@[1]@);
            }
            return Err(EngineError::ColumnNotFound);
        },
    };
    proof {
        assert(toks[1] == tokens@[1]@);
        assert(toks[3] == tokens@[3]@);
    }
    let right_hand = match build_right_hand_change(&table.schema[field_pos].data_type, &tokens[3]) {
        Ok(v) => v,
        Err(e) => {
            proof {
                assert(tv0.schema[field_pos as int] == table.schema@[field_pos as int]@);
            }
            return Err(e);
        },
    };
    proof {
        assert(tv0.schema[field_pos as int] == table.schema@[field_pos as int]@);
    }
    let ghost q = query@;
    let ghost dv = tv0.data;
    let ghost colv = toks[1];
    let ghost vv = right_hand@;
    let Table { name, schema, data, indexes } = table;
    let mut out: Vec<(Value, Row)> = Vec::new();
    let m = data.len();
    let mut k: usize = 0;
    proof {
        assert(dv.take(0) =~= Seq::<(ValueV, RowV)>::empty());
    }
    while k < m
        invariant
            0 <= k <= m,
            m == data@.len(),
            dv == data@.map_values(|e: (Value, Row)| (e.0@, e.1@)),
            out@.map_values(|e: (Value, Row)| (e.0@, e.1@)) == update_rows(
                dv.take(k as int),
                q,
                colv,
                vv,
            ),
            forall|j: int|
                0 <= j < out@.len() ==> (#[trigger] out@[j]).0@.wf() && row_wf(out@[j].1@)
                    && row_vals_wf(out@[j].1@),
        decreases m - k,
    {
        proof {
            assert(dv.take(k + 1).drop_last() =~= dv.take(k as int));
            assert(dv.take(k + 1).last() == dv[k as int]);
            assert(dv[k as int] == (data@[k as int].0@, data@[k as int].1@));
            assert(row_vals_wf(dv[k as int].1));
        }
        let matched = match &query.where_clause {
            Some(clauses) => passes_clauses(&data[k], clauses),
            None => true,
        };
        let ghost pre = out@.map_values(|e: (Value, Row)| (e.0@, e.1@));
        if matched {
            let mut new_row = data[k].1.clone();
            let field_name = clone_str(&tokens[1]);
            new_row.set(field_name.as_str(), right_hand.clone());
            proof {
                lemma_row_set_preserves_wf(dv[k as int].1, colv, vv);
            }
            out.push((data[k].0.clone(), new_row));
            proof {
                assert(out@.map_values(|e: (Value, Row)| (e.0@, e.1@)) =~= pre.push(
                    (dv[k as int].0, row_set(dv[k as int].1, colv, vv)),
                ));
            }
        } else {
            out.push((data[k].0.clone(), data[k].1.clone()));
            proof {
                assert(out@.map_values(|e: (Value, Row)| (e.0@, e.1@)) =~= pre.push(
                    dv[k as int],
                ));
            }
        }
        k = k + 1;
    }
    proof {
        assert(dv.take(m as int) =~= dv);
        lemma_update_rows_keys(dv, q, colv, vv);
    }
    Ok(Table { name, schema, data: out, indexes })
}

fn clone_str(s: &String) -> (r: String)
    ensures
        r@ == s@,
{
    s.clone()
}

proof fn lemma_update_rows_keys(d: Seq<(ValueV, RowV)>, q: QueryV, col: Seq<char>, v: ValueV)
    ensures
        update_rows(d, q, col, v).len() == d.len(),
        forall|j: int|
            0 <= j < d.len() ==> (#[trigger] update_rows(d, q, col, v)[j]).0 == d[j].0,
    decreases d.len(),
{
    if d.len() > 0 {
        lemma_update_rows_keys(d.drop_last(), q, col, v);
        assert(forall|j: int|
            0 <= j < d.len() - 1 ==> (#[trigger] d.drop_last()[j]).0 == d[j].0);
    }
}

} // verus!
