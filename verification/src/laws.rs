//! Engine-wide laws: statements that tie several operations together,
//! proved once here over the same specifications the operations' own
//! contracts use.

use vstd::prelude::*;
use crate::alter::add_default;
use crate::alter::add_fill;
use crate::alter::add_type_of;
use crate::alter::count_lt;
use crate::alter::first_pk;
use crate::alter::lemma_count_lt_bound;
use crate::alter::spec_alter_add;
use crate::alter::spec_alter_drop;
use crate::create::num_insert;
use crate::create::spec_build_num;
use crate::insert::spec_gen;
use crate::insert::spec_insert;
use crate::models::EngineError;
use crate::models::FieldDataType;
use crate::models::TableV;
use crate::models::data_wf;
use crate::num::IndexNumber;
use crate::num::lemma_num_eq_lt_compat;
use crate::num::num_eq;
use crate::num::num_lt;
use crate::select::Connector;
use crate::select::QueryV;
use crate::select::WhereClauseV;
use crate::select::filter_data;
use crate::select::lemma_filter_data_all;
use crate::select::passes_upto;
use crate::select::spec_build_query;
use crate::select::spec_eval_clause;
use crate::select::spec_matches;
use crate::value::RowV;
use crate::value::ValueV;
use crate::value::key_lt;
use crate::value::lemma_key_lt_irrefl;
use crate::value::lemma_key_lt_trans;
use crate::value::lemma_row_set_get;
use crate::value::row_get;

verus! {

/// A fresh INSERT is immediately visible: a wildcard SELECT with no WHERE
/// chain returns every row, the new one included; and a second INSERT
/// resolving the same primary-key value is rejected as a duplicate, so
/// the row count stands.
pub proof fn lemma_insert_then_select(t: TableV, tokens: Seq<Seq<char>>, tokens2: Seq<Seq<char>>)
    requires
        spec_insert(t, tokens) is Ok,
        spec_gen(spec_insert(t, tokens)->Ok_0.schema, tokens2).1 == spec_gen(t.schema, tokens).1,
    ensures
        ({
            let g = spec_gen(t.schema, tokens);
            let t2 = spec_insert(t, tokens)->Ok_0;
            &&& t2.data == t.data.push((g.1, g.2))
            &&& filter_data(t2.data, spec_build_query(seq!["*"@])) == t2.data
            &&& spec_insert(t2, tokens2) == Err::<TableV, EngineError>(EngineError::DuplicateKey)
        }),
{
    let g = spec_gen(t.schema, tokens);
    let t2 = spec_insert(t, tokens)->Ok_0;
    reveal_strlit("*");
    reveal_strlit("FROM");
    reveal_strlit("WHERE");
    reveal_strlit("AND");
    reveal_strlit("OR");
    let toks = seq!["*"@];
    assert(toks.drop_last() =~= Seq::<Seq<char>>::empty());
    assert("*"@.len() == 1 && "FROM"@.len() == 4 && "WHERE"@.len() == 5 && "AND"@.len() == 3
        && "OR"@.len() == 2);
    assert(toks.last() == "*"@);
    assert(crate::select::bq_run(toks, crate::select::bq_init()) == crate::select::bq_step(
        crate::select::bq_run(toks.drop_last(), crate::select::bq_init()),
        "*"@,
    ));
    assert(crate::select::bq_run(toks.drop_last(), crate::select::bq_init())
        == crate::select::bq_init());
    assert(spec_build_query(toks).where_clause is None);
    lemma_filter_data_all(t2.data, spec_build_query(toks));
    assert(t2.data[t2.data.len() - 1].0 == g.1);
    assert(crate::models::data_has_key(t2.data, spec_gen(t2.schema, tokens2).1));
}

/// INSERT never touches the indexes: they are point-in-time snapshots and
/// an index built before an unrelated INSERT keeps exactly its buckets.
pub proof fn lemma_insert_keeps_indexes(t: TableV, tokens: Seq<Seq<char>>)
    requires
        spec_insert(t, tokens) is Ok,
    ensures
        spec_insert(t, tokens)->Ok_0.indexes == t.indexes,
{
}

/// ALTER DROP refuses the primary-key column outright; nothing is
/// persisted on an error, so the stored schema and rows stand as they
/// were.
pub proof fn lemma_drop_primary_key_rejected(t: TableV, tokens: Seq<Seq<char>>)
    requires
        tokens.len() > 0,
        first_pk(t.schema) is Some,
        first_pk(t.schema)->Some_0.name == tokens[0],
    ensures
        spec_alter_drop(t, tokens) == Err::<TableV, EngineError>(
            EngineError::CannotDropPrimaryKey,
        ),
{
}

/// Every clause of the chain joins with AND (or nothing).
pub open spec fn and_only(cs: Seq<WhereClauseV>) -> bool {
    forall|i: int| 0 <= i < cs.len() ==> (#[trigger] cs[i]).connector != Some(Connector::OR)
}

/// The rows a single clause keeps, in stored order.
pub open spec fn filter_single(d: Seq<(ValueV, RowV)>, c: WhereClauseV) -> Seq<(ValueV, RowV)>
    decreases d.len(),
{
    if d.len() == 0 {
        d
    } else if spec_eval_clause(d.last().1, c) {
        filter_single(d.drop_last(), c).push(d.last())
    } else {
        filter_single(d.drop_last(), c)
    }
}

proof fn lemma_and_chain_all(row: RowV, cs: Seq<WhereClauseV>, n: int)
    requires
        and_only(cs),
        1 <= n <= cs.len(),
        passes_upto(row, cs, n),
    ensures
        forall|j: int| 0 <= j < n ==> spec_eval_clause(row, #[trigger] cs[j]),
    decreases n,
{
    if n > 1 {
        lemma_and_chain_all(row, cs, n - 1);
    }
}

/// An index-assisted evaluator that first narrows the scanned rows with
/// any one clause of an AND-only chain, then tests the full chain,
/// returns exactly the full scan's rows. The planner's driving clause is
/// therefore free to narrow without changing any result.
pub proof fn lemma_index_narrowing(d: Seq<(ValueV, RowV)>, q: QueryV, i: int)
    requires
        q.where_clause is Some,
        q.where_clause->Some_0.len() >= 1,
        and_only(q.where_clause->Some_0),
        0 <= i < q.where_clause->Some_0.len(),
    ensures
        filter_data(filter_single(d, q.where_clause->Some_0[i]), q) == filter_data(d, q),
    decreases d.len(),
{
    let cs = q.where_clause->Some_0;
    let c = cs[i];
    if d.len() > 0 {
        let dl = d.drop_last();
        let e = d.last();
        lemma_index_narrowing(dl, q, i);
        if spec_eval_clause(e.1, c) {
            assert(filter_single(d, c) == filter_single(dl, c).push(e));
            assert(filter_single(dl, c).push(e).drop_last() =~= filter_single(dl, c));
            assert(filter_data(filter_single(d, c), q) == if spec_matches(e.1, q) {
                filter_data(filter_single(dl, c), q).push(e)
            } else {
                filter_data(filter_single(dl, c), q)
            });
        } else {
            if spec_matches(e.1, q) {
                lemma_and_chain_all(e.1, cs, cs.len() as int);
                assert(false);
            }
        }
    }
}

proof fn lemma_count_le(d: Seq<(ValueV, RowV)>, ka: ValueV, kb: ValueV)
    requires
        key_lt(ka, kb),
    ensures
        count_lt(d, ka) <= count_lt(d, kb),
    decreases d.len(),
{
    if d.len() > 0 {
        lemma_count_le(d.drop_last(), ka, kb);
        if key_lt(d.last().0, ka) {
            lemma_key_lt_trans(d.last().0, ka, kb);
        }
    }
}

proof fn lemma_count_strict(d: Seq<(ValueV, RowV)>, ka: ValueV, kb: ValueV, i: int)
    requires
        key_lt(ka, kb),
        0 <= i < d.len(),
        d[i].0 == ka,
    ensures
        count_lt(d, ka) < count_lt(d, kb),
    decreases d.len(),
{
    lemma_key_lt_irrefl(ka);
    if i == d.len() - 1 {
        lemma_count_le(d.drop_last(), ka, kb);
    } else {
        lemma_count_strict(d.drop_last(), ka, kb, i);
        if key_lt(d.last().0, ka) {
            lemma_key_lt_trans(d.last().0, ka, kb);
        }
    }
}

proof fn lemma_count_self(d: Seq<(ValueV, RowV)>, i: int)
    requires
        0 <= i < d.len(),
    ensures
        count_lt(d, d[i].0) <= d.len() - 1,
    decreases d.len(),
{
    lemma_key_lt_irrefl(d[i].0);
    if i == d.len() - 1 {
        lemma_count_lt_bound(d.drop_last(), d[i].0);
    } else {
        lemma_count_self(d.drop_last(), i);
        assert(d.drop_last()[i] == d[i]);
    }
}

proof fn lemma_add_fill_get(
    full: Seq<(ValueV, RowV)>,
    d: Seq<(ValueV, RowV)>,
    col: Seq<char>,
    dt: FieldDataType,
)
    ensures
        add_fill(full, d, col, dt).len() == d.len(),
        forall|j: int|
            0 <= j < d.len() ==> (#[trigger] add_fill(full, d, col, dt)[j]).0 == d[j].0 && row_get(
                add_fill(full, d, col, dt)[j].1,
                col,
            ) == Some(add_default(dt, full, d[j].0)),
    decreases d.len(),
{
    if d.len() > 0 {
        lemma_add_fill_get(full, d.drop_last(), col, dt);
        lemma_row_set_get(d.last().1, col, add_default(dt, full, d.last().0));
        assert(forall|j: int| 0 <= j < d.len() - 1 ==> (#[trigger] d.drop_last()[j]) == d[j]);
    }
}

/// ALTER ADD of a TEXT column backfills empty text into every
/// pre-existing row.
pub proof fn lemma_add_text_backfill(t: TableV, tokens: Seq<Seq<char>>)
    requires
        spec_alter_add(t, tokens) is Ok,
        tokens.len() > 1,
        add_type_of(tokens[1]) == FieldDataType::TEXT,
    ensures
        ({
            let t2 = spec_alter_add(t, tokens)->Ok_0;
            &&& t2.data.len() == t.data.len()
            &&& forall|j: int|
                0 <= j < t2.data.len() ==> row_get((#[trigger] t2.data[j]).1, tokens[0]) == Some(
                    ValueV::Text(Seq::empty()),
                )
        }),
{
    lemma_add_fill_get(t.data, t.data, tokens[0], FieldDataType::TEXT);
}

/// ALTER ADD of a SERIAL column assigns each pre-existing row the value
/// `1 + (number of strictly smaller primary keys)`: rows visited in
/// ascending primary-key order receive strictly increasing values,
/// starting at 1 and never exceeding the row count.
pub proof fn lemma_add_serial_backfill(t: TableV, tokens: Seq<Seq<char>>)
    requires
        spec_alter_add(t, tokens) is Ok,
        tokens.len() > 1,
        add_type_of(tokens[1]) == FieldDataType::SERIAL,
        data_wf(t.data),
    ensures
        ({
            let t2 = spec_alter_add(t, tokens)->Ok_0;
            &&& t2.data.len() == t.data.len()
            &&& forall|j: int|
                0 <= j < t2.data.len() ==> row_get((#[trigger] t2.data[j]).1, tokens[0]) == Some(
                    ValueV::Num(IndexNumber::Int((1 + count_lt(t.data, t.data[j].0)) as i64)),
                )
            &&& forall|a: int, b: int|
                0 <= a < t.data.len() && 0 <= b < t.data.len() && key_lt(
                    (#[trigger] t.data[a]).0,
                    (#[trigger] t.data[b]).0,
                ) ==> count_lt(t.data, t.data[a].0) < count_lt(t.data, t.data[b].0)
            &&& forall|j: int|
                0 <= j < t.data.len() ==> 1 <= 1 + count_lt(t.data, (#[trigger] t.data[j]).0)
                    <= t.data.len()
        }),
{
    lemma_add_fill_get(t.data, t.data, tokens[0], FieldDataType::SERIAL);
    assert forall|a: int, b: int|
        0 <= a < t.data.len() && 0 <= b < t.data.len() && key_lt(
            (#[trigger] t.data[a]).0,
            (#[trigger] t.data[b]).0,
        ) implies count_lt(t.data, t.data[a].0) < count_lt(t.data, t.data[b].0) by {
        lemma_count_strict(t.data, t.data[a].0, t.data[b].0, a);
    }
    assert forall|j: int| 0 <= j < t.data.len() implies 1 <= 1 + count_lt(
        t.data,
        (#[trigger] t.data[j]).0,
    ) <= t.data.len() by {
        lemma_count_self(t.data, j);
    }
}


/// Primary keys of every row whose value under `col` equals `k` as a
/// number, in scan order.
pub open spec fn num_matches_of(d: Seq<(ValueV, RowV)>, col: Seq<char>, k: IndexNumber) -> Seq<
    ValueV,
>
    decreases d.len(),
{
    if d.len() == 0 {
        Seq::empty()
    } else {
        num_matches_of(d.drop_last(), col, k) + (match row_get(d.last().1, col) {
            Some(ValueV::Num(x)) => if num_eq(x, k) {
                seq![d.last().0]
            } else {
                Seq::empty()
            },
            _ => Seq::empty(),
        })
    }
}

/// All bucket contents stored under keys numerically equal to `k`.
pub open spec fn bucket_of(s: Seq<(IndexNumber, Seq<ValueV>)>, k: IndexNumber) -> Seq<ValueV>
    decreases s.len(),
{
    if s.len() == 0 {
        Seq::empty()
    } else {
        bucket_of(s.drop_last(), k) + (if num_eq(s.last().0, k) {
            s.last().1
        } else {
            Seq::empty()
        })
    }
}

proof fn lemma_bucket_of_cons(
    e: (IndexNumber, Seq<ValueV>),
    s: Seq<(IndexNumber, Seq<ValueV>)>,
    c: IndexNumber,
)
    ensures
        bucket_of(seq![e] + s, c) == (if num_eq(e.0, c) {
            e.1
        } else {
            Seq::<ValueV>::empty()
        }) + bucket_of(s, c),
    decreases s.len(),
{
    let head: Seq<ValueV> = if num_eq(e.0, c) {
        e.1
    } else {
        Seq::empty()
    };
    if s.len() == 0 {
        assert(seq![e] + s =~= seq![e]);
        assert(seq![e].last() == e);
        assert(seq![e].drop_last() =~= Seq::<(IndexNumber, Seq<ValueV>)>::empty());
        assert(bucket_of(seq![e].drop_last(), c) == Seq::<ValueV>::empty());
        assert(bucket_of(seq![e], c) =~= head + bucket_of(s, c));
    } else {
        lemma_bucket_of_cons(e, s.drop_last(), c);
        assert((seq![e] + s).drop_last() =~= seq![e] + s.drop_last());
        assert((seq![e] + s).last() == s.last());
        assert(bucket_of(seq![e] + s, c) =~= head + bucket_of(s, c));
    }
}

proof fn lemma_bucket_of_none(s: Seq<(IndexNumber, Seq<ValueV>)>, c: IndexNumber)
    requires
        forall|j: int| 0 <= j < s.len() ==> !num_eq((#[trigger] s[j]).0, c),
    ensures
        bucket_of(s, c) == Seq::<ValueV>::empty(),
    decreases s.len(),
{
    if s.len() > 0 {
        lemma_bucket_of_none(s.drop_last(), c);
        assert(bucket_of(s, c) =~= Seq::<ValueV>::empty());
    }
}

/// Placing one primary key under key `k` appends it to the bucket read
/// under any numerically equal key, and leaves every other bucket alone.
proof fn lemma_bucket_of_insert(
    s: Seq<(IndexNumber, Seq<ValueV>)>,
    k: IndexNumber,
    pk: ValueV,
    c: IndexNumber,
)
    requires
        crate::models::num_store_sorted(s),
    ensures
        bucket_of(num_insert(s, k, pk), c) == bucket_of(s, c) + (if num_eq(k, c) {
            seq![pk]
        } else {
            Seq::<ValueV>::empty()
        }),
    decreases s.len(),
{
    let r = num_insert(s, k, pk);
    let tail: Seq<ValueV> = if num_eq(k, c) {
        seq![pk]
    } else {
        Seq::empty()
    };
    if s.len() == 0 {
        assert(r == seq![(k, seq![pk])]);
        assert(r.last() == (k, seq![pk]));
        assert(r.drop_last() =~= Seq::<(IndexNumber, Seq<ValueV>)>::empty());
        assert(bucket_of(r.drop_last(), c) == Seq::<ValueV>::empty());
        assert(bucket_of(r, c) =~= bucket_of(s, c) + tail);
    } else if num_lt(s[0].0, k) {
        assert(crate::models::num_store_sorted(s.drop_first()));
        lemma_bucket_of_insert(s.drop_first(), k, pk, c);
        assert(r == seq![s[0]] + num_insert(s.drop_first(), k, pk));
        lemma_bucket_of_cons(s[0], num_insert(s.drop_first(), k, pk), c);
        lemma_bucket_of_cons(s[0], s.drop_first(), c);
        assert(seq![s[0]] + s.drop_first() =~= s);
        assert(bucket_of(r, c) =~= bucket_of(s, c) + tail);
    } else if num_eq(s[0].0, k) {
        assert(r == seq![(s[0].0, s[0].1.push(pk))] + s.drop_first());
        lemma_bucket_of_cons((s[0].0, s[0].1.push(pk)), s.drop_first(), c);
        lemma_bucket_of_cons(s[0], s.drop_first(), c);
        assert(seq![s[0]] + s.drop_first() =~= s);
        // behind a matching head every key is strictly larger, so no later
        // bucket reads under an equal key
        lemma_num_eq_lt_compat(s[0].0, k, c);
        if num_eq(s[0].0, c) {
            assert(num_eq(k, c));
            assert forall|j: int| 0 <= j < s.drop_first().len() implies !num_eq(
                (#[trigger] s.drop_first()[j]).0,
                c,
            ) by {
                assert(s.drop_first()[j] == s[j + 1]);
                assert(num_lt(s[0].0, s[j + 1].0));
                if num_eq(s[j + 1].0, c) {
                    lemma_num_eq_lt_compat(s[0].0, c, s[j + 1].0);
                    assert(num_eq(s[0].0, s[j + 1].0));
                    lemma_num_eq_lt_compat(s[0].0, s[j + 1].0, s[j + 1].0);
                    assert(num_lt(s[j + 1].0, s[j + 1].0));
                    assert(false);
                }
            }
            lemma_bucket_of_none(s.drop_first(), c);
            assert(bucket_of(r, c) =~= (s[0].1.push(pk)) + bucket_of(s.drop_first(), c));
            assert(bucket_of(s, c) =~= s[0].1 + bucket_of(s.drop_first(), c));
            assert(bucket_of(r, c) =~= bucket_of(s, c) + tail);
        } else {
            assert(!num_eq(k, c));
            assert(bucket_of(r, c) =~= bucket_of(s.drop_first(), c));
            assert(bucket_of(s, c) =~= bucket_of(s.drop_first(), c));
            assert(bucket_of(r, c) =~= bucket_of(s, c) + tail);
        }
    } else {
        assert(r == seq![(k, seq![pk])] + s);
        lemma_bucket_of_cons((k, seq![pk]), s, c);
        assert(bucket_of(r, c) =~= tail + bucket_of(s, c));
        // the fresh bucket's key equals no stored key, so reading under any
        // stored key sees the old contents; reading under `k` sees only the
        // fresh primary key, and the old side is empty
        if num_eq(k, c) {
            assert forall|j: int| 0 <= j < s.len() implies !num_eq((#[trigger] s[j]).0, c) by {
                if num_eq(s[j].0, c) {
                    lemma_num_eq_lt_compat(s[j].0, c, k);
                    assert(num_eq(s[j].0, k));
                    if j == 0 {
                        assert(false);
                    } else {
                        assert(num_lt(s[0].0, s[j].0));
                        lemma_num_eq_lt_compat(s[j].0, k, s[0].0);
                        assert(num_lt(s[0].0, k));
                        assert(false);
                    }
                }
            }
            lemma_bucket_of_none(s, c);
            assert(bucket_of(r, c) =~= bucket_of(s, c) + tail);
        } else {
            assert(bucket_of(r, c) =~= bucket_of(s, c) + tail);
        }
    }
}

proof fn lemma_build_num_sorted(d: Seq<(ValueV, RowV)>, col: Seq<char>)
    requires
        spec_build_num(d, col) is Some,
    ensures
        crate::models::num_store_sorted(spec_build_num(d, col)->Some_0),
    decreases d.len(),
{
    if d.len() > 0 {
        lemma_build_num_sorted(d.drop_last(), col);
        let prev = spec_build_num(d.drop_last(), col)->Some_0;
        match row_get(d.last().1, col) {
            Some(ValueV::Num(x)) => {
                crate::create::lemma_num_insert_props(prev, x, d.last().0);
            },
            _ => {},
        }
    }
}

/// What a numeric index stores, bucket for bucket: reading the built store
/// under any number yields exactly the primary keys of the rows whose
/// column holds an equal number, in scan order — an integer `2` and a
/// decimal `2.0` therefore land in one shared bucket.
pub proof fn lemma_num_index_content(d: Seq<(ValueV, RowV)>, col: Seq<char>, c: IndexNumber)
    requires
        spec_build_num(d, col) is Some,
    ensures
        bucket_of(spec_build_num(d, col)->Some_0, c) == num_matches_of(d, col, c),
    decreases d.len(),
{
    if d.len() == 0 {
        assert(bucket_of(spec_build_num(d, col)->Some_0, c) =~= num_matches_of(d, col, c));
    } else {
        lemma_num_index_content(d.drop_last(), col, c);
        lemma_build_num_sorted(d.drop_last(), col);
        let prev = spec_build_num(d.drop_last(), col)->Some_0;
        match row_get(d.last().1, col) {
            Some(ValueV::Num(x)) => {
                lemma_bucket_of_insert(prev, x, d.last().0, c);
                assert(bucket_of(spec_build_num(d, col)->Some_0, c) =~= num_matches_of(d, col, c));
            },
            _ => {
                assert(false);
            },
        }
    }
}

} // verus!
