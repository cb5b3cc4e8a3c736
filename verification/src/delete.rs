//! DELETE: evaluate the WHERE chain and drop every matching row. When
//! nothing matches, nothing is persisted.

use vstd::prelude::*;
use crate::models::EngineError;
use crate::models::Table;
use crate::models::TableV;
use crate::models::data_wf;
use crate::models::table_wf;
use crate::select::QueryV;
use crate::select::build_query;
use crate::select::evaluate_query;
use crate::select::filter_data;
use crate::select::passes_clauses;
use crate::select::spec_build_query;
use crate::select::spec_matches;
use crate::value::Row;
use crate::value::RowV;
use crate::value::Value;
use crate::value::ValueV;
use crate::value::row_vals_wf;

verus! {

/// The rows that survive a DELETE: those the query does not match.
pub open spec fn keep_data(d: Seq<(ValueV, RowV)>, q: QueryV) -> Seq<(ValueV, RowV)>
    decreases d.len(),
{
    if d.len() == 0 {
        d
    } else if spec_matches(d.last().1, q) {
        keep_data(d.drop_last(), q)
    } else {
        keep_data(d.drop_last(), q).push(d.last())
    }
}

/// What DELETE leaves: the non-matching rows — or `NotFound`, with
/// nothing to persist, when no row matched. Without a WHERE chain every
/// row matches and the table empties.
pub open spec fn spec_delete(t: TableV, tokens: Seq<Seq<char>>) -> Result<TableV, EngineError> {
    let q = spec_build_query(tokens);
    if filter_data(t.data, q).len() == 0 {
        Err(EngineError::NotFound)
    } else {
        Ok(TableV { data: keep_data(t.data, q), ..t })
    }
}

proof fn lemma_keep_data_wf(d: Seq<(ValueV, RowV)>, q: QueryV)
    requires
        data_wf(d),
    ensures
        data_wf(keep_data(d, q)),
        forall|j: int|
            0 <= j < keep_data(d, q).len() ==> exists|l: int|
                0 <= l < d.len() && d[l] == #[trigger] keep_data(d, q)[j],
    decreases d.len(),
{
    let out = keep_data(d, q);
    if d.len() > 0 {
        let prev = d.drop_last();
        assert(data_wf(prev)) by {
            assert(forall|l: int| 0 <= l < prev.len() ==> (#[trigger] prev[l]) == d[l]);
        }
        lemma_keep_data_wf(prev, q);
        let ki = keep_data(prev, q);
        if !spec_matches(d.last().1, q) {
            assert(out == ki.push(d.last()));
            assert forall|a: int, b: int| 0 <= a < b < out.len() implies (#[trigger] out[a]).0
                != (#[trigger] out[b]).0 by {
                if b == out.len() - 1 {
                    assert(out[a] == ki[a]);
                    let l = choose|l: int| 0 <= l < prev.len() && prev[l] == ki[a];
                    assert(d[l] == ki[a]);
                    assert(out[b] == d[d.len() - 1]);
                } else {
                    assert(out[a] == ki[a] && out[b] == ki[b]);
                }
            }
            assert forall|j: int| 0 <= j < out.len() implies (#[trigger] out[j]).0.wf()
                && crate::value::row_wf(out[j].1) && row_vals_wf(out[j].1) by {
                if j < out.len() - 1 {
                    assert(out[j] == ki[j]);
                } else {
                    assert(out[j] == d[d.len() - 1]);
                }
            }
        }
    }
}

/// Remove every matching row and report the new snapshot; report
/// `NotFound`, with nothing to persist, when no row matched.
#[verifier::loop_isolation(false)]
pub fn delete(table: Table, delete_query_tokens: Vec<String>) -> (r: Result<Table, EngineError>)
    requires
        table_wf(table@),
    ensures
        match spec_delete(table@, delete_query_tokens@.map_values(|s: String| s@)) {
            Ok(tv) => r is Ok && r->Ok_0@ == tv && table_wf(r->Ok_0@),
            Err(e) => r == Err::<Table, EngineError>(e),
        },
{
    let ghost tv0 = table@;
    let ghost toks = delete_query_tokens@.map_values(|s: String| s@);
    let query = build_query(delete_query_tokens);
    let filtered = evaluate_query(&table, &query);
    if filtered.len() == 0 {
        proof {
            assert(filter_data(tv0.data, spec_build_query(toks)).len() == filtered@.map_values(
                |e: (Value, Row)| (e.0@, e.1@),
            ).len());
        }
        return Err(EngineError::NotFound);
    }
    let ghost q = query@;
    let ghost dv = tv0.data;
    let Table { name, schema, data, indexes } = table;
    let mut kept: Vec<(Value, Row)> = Vec::new();
    let n = data.len();
    let mut i: usize = 0;
    proof {
        assert(dv.take(0) =~= Seq::<(ValueV, RowV)>::empty());
    }
    while i < n
        invariant
            0 <= i <= n,
            n == data@.len(),
            dv == data@.map_values(|e: (Value, Row)| (e.0@, e.1@)),
            kept@.map_values(|e: (Value, Row)| (e.0@, e.1@)) == keep_data(dv.take(i as int), q),
        decreases n - i,
    {
        proof {
            assert(dv.take(i + 1).drop_last() =~= dv.take(i as int));
            assert(dv.take(i + 1).last() == dv[i as int]);
            assert(dv[i as int] == (data@[i as int].0@, data@[i as int].1@));
            assert(row_vals_wf(dv[i as int].1));
        }
        let matched = match &query.where_clause {
            Some(clauses) => passes_clauses(&data[i], clauses),
            None => true,
        };
        let ghost pre = kept@.map_values(|e: (Value, Row)| (e.0@, e.1@));
        if !matched {
            kept.push((data[i].0.clone(), data[i].1.clone()));
            proof {
                assert(kept@.map_values(|e: (Value, Row)| (e.0@, e.1@)) =~= pre.push(
                    dv[i as int],
                ));
            }
        }
        i = i + 1;
    }
    proof {
        assert(dv.take(n as int) =~= dv);
        lemma_keep_data_wf(dv, q);
    }
    Ok(Table { name, schema, data: kept, indexes })
}

} // verus!
