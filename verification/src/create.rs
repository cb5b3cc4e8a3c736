//! CREATE TABLE and CREATE INDEX.
//!
//! A schema is a flat token sequence read left to right: each column starts
//! with its name, then consumes attribute tokens (a type keyword or KEY)
//! until something else starts the next column. An index is built once, as
//! a snapshot: every row's value for the column is bucketed under its key
//! in a sorted store, and one mismatched value aborts the whole build.

use vstd::prelude::*;
use crate::num::IndexNumber;
use crate::num::Rank;
use crate::num::num_cmp;
use crate::num::num_eq;
use crate::num::num_lt;
use crate::num::lemma_num_lt_trans;
use crate::text::lex_lt;
use crate::text::str_eq;
use crate::text::str_lt;
use crate::text::lemma_lex_lt_trans;
use crate::text::lemma_lex_lt_connected;
use crate::models::EngineError;
use crate::models::FieldDataType;
use crate::models::FieldDef;
use crate::models::FieldDefV;
use crate::models::Index;
use crate::models::IndexStore;
use crate::models::IndexStoreV;
use crate::models::IndexV;
use crate::models::SerialState;
use crate::models::Table;
use crate::models::TableV;
use crate::models::entries_total;
use crate::models::num_store_sorted;
use crate::models::schema_wf;
use crate::models::store_wf;
use crate::models::table_wf;
use crate::models::text_store_sorted;
use crate::models::bool_store_sorted;
use crate::models::bool_pair;
use crate::value::Row;
use crate::value::RowV;
use crate::value::Value;
use crate::value::ValueV;
use crate::value::row_get;
use crate::value::row_vals_wf;

verus! {

/// What a CREATE command creates.
pub enum CreateData {
    Table { name: String, schema: Vec<String> },
    Index { table: String, column: String },
}

/// The type keyword a schema attribute token names, if any.
pub open spec fn type_keyword_of(t: Seq<char>) -> Option<FieldDataType> {
    if t == "TEXT"@ {
        Some(FieldDataType::TEXT)
    } else if t == "NUMBER"@ {
        Some(FieldDataType::NUMBER)
    } else if t == "BOOLEAN"@ {
        Some(FieldDataType::BOOLEAN)
    } else {
        None
    }
}

pub open spec fn some_pk(acc: Seq<FieldDefV>) -> bool {
    exists|i: int| 0 <= i < acc.len() && acc[i].primary_key
}

/// Read one column's attribute tokens, then hand the rest back to
/// `parse_fields`. A second type keyword on one column (SERIAL included)
/// and a second KEY anywhere in the schema are fatal; SERIAL seeds the
/// column's counter at one.
pub open spec fn parse_attrs(
    toks: Seq<Seq<char>>,
    cur: FieldDefV,
    acc: Seq<FieldDefV>,
) -> Result<Seq<FieldDefV>, EngineError>
    decreases toks.len(), 1int,
{
    if toks.len() == 0 {
        Ok(acc.push(cur))
    } else if type_keyword_of(toks[0]) is Some {
        if cur.data_type is Some {
            Err(EngineError::MultipleTypes)
        } else {
            parse_attrs(
                toks.drop_first(),
                FieldDefV { data_type: type_keyword_of(toks[0]), ..cur },
                acc,
            )
        }
    } else if toks[0] == "SERIAL"@ {
        if cur.data_type is Some {
            Err(EngineError::MultipleTypes)
        } else {
            parse_attrs(
                toks.drop_first(),
                FieldDefV {
                    data_type: Some(FieldDataType::SERIAL),
                    serial: Some(SerialState { next_val: 1 }),
                    ..cur
                },
                acc,
            )
        }
    } else if toks[0] == "KEY"@ {
        if some_pk(acc) || cur.primary_key {
            Err(EngineError::MultipleKeys)
        } else {
            parse_attrs(toks.drop_first(), FieldDefV { primary_key: true, ..cur }, acc)
        }
    } else {
        parse_fields(toks, acc.push(cur))
    }
}

/// Read columns from the token stream: a name, then its attributes.
pub open spec fn parse_fields(toks: Seq<Seq<char>>, acc: Seq<FieldDefV>) -> Result<
    Seq<FieldDefV>,
    EngineError,
>
    decreases toks.len(), 0int,
{
    if toks.len() == 0 {
        Ok(acc)
    } else {
        parse_attrs(
            toks.drop_first(),
            FieldDefV {
                name: toks[0],
                data_type: None,
                primary_key: false,
                serial: None,
            },
            acc,
        )
    }
}

/// The schema a token sequence parses to.
pub open spec fn spec_generate_schema(toks: Seq<Seq<char>>) -> Result<
    Seq<FieldDefV>,
    EngineError,
> {
    parse_fields(toks, Seq::empty())
}

fn type_keyword_exec(t: &str) -> (r: Option<FieldDataType>)
    ensures
        r == type_keyword_of(t@),
{
    if str_eq(t, "TEXT") {
        Some(FieldDataType::TEXT)
    } else if str_eq(t, "NUMBER") {
        Some(FieldDataType::NUMBER)
    } else if str_eq(t, "BOOLEAN") {
        Some(FieldDataType::BOOLEAN)
    } else {
        None
    }
}

/// Parse schema tokens into column definitions. The result always has at
/// most one primary key, and SERIAL columns carry their counter.
pub fn generate_schema(schema_tokens: &Vec<String>) -> (r: Result<Vec<FieldDef>, EngineError>)
    ensures
        match r {
            Ok(fields) => spec_generate_schema(schema_tokens@.map_values(|s: String| s@)) == Ok::<
                Seq<FieldDefV>,
                EngineError,
            >(fields@.map_values(|f: FieldDef| f@)) && schema_wf(
                fields@.map_values(|f: FieldDef| f@),
            ),
            Err(e) => spec_generate_schema(schema_tokens@.map_values(|s: String| s@)) == Err::<
                Seq<FieldDefV>,
                EngineError,
            >(e),
        },
{
    let ghost toks = schema_tokens@.map_values(|s: String| s@);
    let n = schema_tokens.len();
    let mut acc: Vec<FieldDef> = Vec::new();
    let mut i: usize = 0;
    proof {
        assert(toks.skip(0) =~= toks);
        assert(acc@.map_values(|f: FieldDef| f@) =~= Seq::<FieldDefV>::empty());
    }
    while i < n
        invariant
            0 <= i <= n,
            n == schema_tokens@.len(),
            toks == schema_tokens@.map_values(|s: String| s@),
            spec_generate_schema(toks) == parse_fields(
                toks.skip(i as int),
                acc@.map_values(|f: FieldDef| f@),
            ),
            schema_wf(acc@.map_values(|f: FieldDef| f@)),
        decreases n - i,
    {
        proof {
            assert(toks.skip(i as int)[0] == toks[i as int]);
            assert(toks[i as int] == schema_tokens@[i as int]@);
            assert(toks.skip(i as int).drop_first() =~= toks.skip(i + 1));
        }
        let name = schema_tokens[i].clone();
        let mut cur = FieldDef { name, data_type: None, primary_key: false, serial: None };
        i = i + 1;
        let ghost i0 = i as int;
        let mut done = false;
        // consume this column's attribute tokens
        while i < n && !done
            invariant
                i0 <= i as int,
                0 <= i <= n,
                n == schema_tokens@.len(),
                toks == schema_tokens@.map_values(|s: String| s@),
                spec_generate_schema(toks) == parse_attrs(
                    toks.skip(i as int),
                    cur@,
                    acc@.map_values(|f: FieldDef| f@),
                ),
                schema_wf(acc@.map_values(|f: FieldDef| f@)),
                cur@.data_type == Some(FieldDataType::SERIAL) ==> cur@.serial is Some,
                cur@.primary_key ==> !some_pk(acc@.map_values(|f: FieldDef| f@)),
                done ==> i < n && parse_attrs(
                    toks.skip(i as int),
                    cur@,
                    acc@.map_values(|f: FieldDef| f@),
                ) == parse_fields(
                    toks.skip(i as int),
                    acc@.map_values(|f: FieldDef| f@).push(cur@),
                ),
            decreases n - i + if done { 0int } else { 1int },
        {
            proof {
                assert(toks.skip(i as int)[0] == toks[i as int]);
                assert(toks[i as int] == schema_tokens@[i as int]@);
                assert(toks.skip(i as int).drop_first() =~= toks.skip(i + 1));
            }
            let attr = schema_tokens[i].as_str();
            if let Some(dt) = type_keyword_exec(attr) {
                if cur.data_type.is_some() {
                    return Err(EngineError::MultipleTypes);
                }
                cur.data_type = Some(dt);
                i = i + 1;
            } else if str_eq(attr, "SERIAL") {
                if cur.data_type.is_some() {
                    return Err(EngineError::MultipleTypes);
                }
                cur.data_type = Some(FieldDataType::SERIAL);
                cur.serial = Some(SerialState { next_val: 1 });
                i = i + 1;
            } else if str_eq(attr, "KEY") {
                if cur.primary_key {
                    return Err(EngineError::MultipleKeys);
                }
                let mut has = false;
                let m = acc.len();
                let mut j: usize = 0;
                while j < m
                    invariant
                        0 <= j <= m,
                        m == acc@.len(),
                        has == exists|l: int| 0 <= l < j && (#[trigger] acc@[l])@.primary_key,
                    decreases m - j,
                {
                    proof {
                        assert(acc@.map_values(|f: FieldDef| f@)[j as int] == acc@[j as int]@);
                    }
                    if acc[j].primary_key {
                        has = true;
                    }
                    j = j + 1;
                }
                if has {
                    proof {
                        let l = choose|l: int| 0 <= l < acc@.len() && (#[trigger] acc@[l])@.primary_key;
                        assert(acc@.map_values(|f: FieldDef| f@)[l].primary_key);
                    }
                    return Err(EngineError::MultipleKeys);
                }
                proof {
                    assert(!some_pk(acc@.map_values(|f: FieldDef| f@)));
                }
                cur.primary_key = true;
                i = i + 1;
            } else {
                done = true;
            }
        }
        let ghost accv = acc@.map_values(|f: FieldDef| f@);
        acc.push(cur);
        proof {
            assert(acc@.map_values(|f: FieldDef| f@) =~= accv.push(cur@));
            assert(schema_wf(accv.push(cur@))) by {
                let newv = accv.push(cur@);
                assert(forall|a: int, b: int|
                    0 <= a < b < newv.len() ==> !((#[trigger] newv[a]).primary_key
                        && (#[trigger] newv[b]).primary_key)) by {
                    assert(forall|a: int| 0 <= a < accv.len() ==> newv[a] == accv[a]);
                    if cur@.primary_key {
                        assert(forall|a: int| 0 <= a < accv.len() ==> !(#[trigger] accv[a]).primary_key);
                    }
                }
            }
        }
    }
    proof {
        assert(toks.skip(n as int) =~= Seq::<Seq<char>>::empty());
    }
    Ok(acc)
}

/// Place one primary key under a text key, keeping the store sorted:
/// an existing equal key grows its bucket, otherwise a fresh bucket is
/// spliced in at its ordered position.
pub open spec fn text_insert(
    s: Seq<(Seq<char>, Seq<ValueV>)>,
    k: Seq<char>,
    pk: ValueV,
) -> Seq<(Seq<char>, Seq<ValueV>)>
    decreases s.len(),
{
    if s.len() == 0 {
        seq![(k, seq![pk])]
    } else if lex_lt(s[0].0, k) {
        seq![s[0]] + text_insert(s.drop_first(), k, pk)
    } else if s[0].0 == k {
        seq![(s[0].0, s[0].1.push(pk))] + s.drop_first()
    } else {
        seq![(k, seq![pk])] + s
    }
}

/// As `text_insert`, but keys compare numerically: a decimal equal in
/// value to a stored integer key joins that key's bucket.
pub open spec fn num_insert(
    s: Seq<(IndexNumber, Seq<ValueV>)>,
    k: IndexNumber,
    pk: ValueV,
) -> Seq<(IndexNumber, Seq<ValueV>)>
    decreases s.len(),
{
    if s.len() == 0 {
        seq![(k, seq![pk])]
    } else if num_lt(s[0].0, k) {
        seq![s[0]] + num_insert(s.drop_first(), k, pk)
    } else if num_eq(s[0].0, k) {
        seq![(s[0].0, s[0].1.push(pk))] + s.drop_first()
    } else {
        seq![(k, seq![pk])] + s
    }
}

pub open spec fn bool_insert(
    s: Seq<(bool, Seq<ValueV>)>,
    k: bool,
    pk: ValueV,
) -> Seq<(bool, Seq<ValueV>)>
    decreases s.len(),
{
    if s.len() == 0 {
        seq![(k, seq![pk])]
    } else if !s[0].0 && k {
        seq![s[0]] + bool_insert(s.drop_first(), k, pk)
    } else if s[0].0 == k {
        seq![(s[0].0, s[0].1.push(pk))] + s.drop_first()
    } else {
        seq![(k, seq![pk])] + s
    }
}

proof fn lemma_text_insert_props(s: Seq<(Seq<char>, Seq<ValueV>)>, k: Seq<char>, pk: ValueV)
    requires
        text_store_sorted(s),
    ensures
        text_store_sorted(text_insert(s, k, pk)),
        entries_total(text_insert(s, k, pk)) == entries_total(s) + 1,
        forall|j: int|
            0 <= j < text_insert(s, k, pk).len() ==> (#[trigger] text_insert(s, k, pk)[j]).0 == k
                || exists|l: int| 0 <= l < s.len() && s[l].0 == text_insert(s, k, pk)[j].0,
    decreases s.len(),
{
    let r = text_insert(s, k, pk);
    crate::models::lemma_entries_total_singleton((k, seq![pk]));
    if s.len() == 0 {
    } else if lex_lt(s[0].0, k) {
        let rest = s.drop_first();
        assert(text_store_sorted(rest));
        lemma_text_insert_props(rest, k, pk);
        let ri = text_insert(rest, k, pk);
        assert(r =~= seq![s[0]] + ri);
        crate::models::lemma_entries_total_add(seq![s[0]], ri);
        crate::models::lemma_entries_total_add(seq![s[0]], rest);
        assert(seq![s[0]] + rest =~= s);
        crate::models::lemma_entries_total_singleton(s[0]);
        assert forall|a: int, b: int| 0 <= a < b < r.len() implies lex_lt(
            (#[trigger] r[a]).0,
            (#[trigger] r[b]).0,
        ) by {
            if a == 0 {
                assert(r[b] == ri[b - 1]);
                assert(ri[b - 1].0 == k || exists|l: int| 0 <= l < rest.len() && rest[l].0 == ri[b
                    - 1].0);
                if ri[b - 1].0 == k {
                } else {
                    let l = choose|l: int| 0 <= l < rest.len() && rest[l].0 == ri[b - 1].0;
                    assert(s[l + 1].0 == ri[b - 1].0);
                }
            } else {
                assert(r[a] == ri[a - 1] && r[b] == ri[b - 1]);
            }
        }
    } else if s[0].0 == k {
        assert(r =~= seq![(s[0].0, s[0].1.push(pk))] + s.drop_first());
        crate::models::lemma_entries_total_add(seq![(s[0].0, s[0].1.push(pk))], s.drop_first());
        crate::models::lemma_entries_total_add(seq![s[0]], s.drop_first());
        assert(seq![s[0]] + s.drop_first() =~= s);
        crate::models::lemma_entries_total_singleton((s[0].0, s[0].1.push(pk)));
        crate::models::lemma_entries_total_singleton(s[0]);
        assert forall|a: int, b: int| 0 <= a < b < r.len() implies lex_lt(
            (#[trigger] r[a]).0,
            (#[trigger] r[b]).0,
        ) by {
            assert(r[a].0 == s[a].0 && r[b].0 == s[b].0);
        }
    } else {
        if !lex_lt(k, s[0].0) {
            lemma_lex_lt_connected(s[0].0, k);
        }
        assert(lex_lt(k, s[0].0));
        assert(r =~= seq![(k, seq![pk])] + s);
        crate::models::lemma_entries_total_add(seq![(k, seq![pk])], s);
        assert forall|a: int, b: int| 0 <= a < b < r.len() implies lex_lt(
            (#[trigger] r[a]).0,
            (#[trigger] r[b]).0,
        ) by {
            if a == 0 && b > 1 {
                lemma_lex_lt_trans(k, s[0].0, s[b - 1].0);
            }
        }
    }
}

pub proof fn lemma_num_insert_props(s: Seq<(IndexNumber, Seq<ValueV>)>, k: IndexNumber, pk: ValueV)
    requires
        num_store_sorted(s),
    ensures
        num_store_sorted(num_insert(s, k, pk)),
        entries_total(num_insert(s, k, pk)) == entries_total(s) + 1,
        forall|j: int|
            0 <= j < num_insert(s, k, pk).len() ==> (#[trigger] num_insert(s, k, pk)[j]).0 == k
                || exists|l: int| 0 <= l < s.len() && s[l].0 == num_insert(s, k, pk)[j].0,
    decreases s.len(),
{
    let r = num_insert(s, k, pk);
    crate::models::lemma_entries_total_singleton((k, seq![pk]));
    if s.len() == 0 {
    } else if num_lt(s[0].0, k) {
        let rest = s.drop_first();
        assert(num_store_sorted(rest));
        lemma_num_insert_props(rest, k, pk);
        let ri = num_insert(rest, k, pk);
        assert(r =~= seq![s[0]] + ri);
        crate::models::lemma_entries_total_add(seq![s[0]], ri);
        crate::models::lemma_entries_total_add(seq![s[0]], rest);
        assert(seq![s[0]] + rest =~= s);
        crate::models::lemma_entries_total_singleton(s[0]);
        assert forall|a: int, b: int| 0 <= a < b < r.len() implies num_lt(
            (#[trigger] r[a]).0,
            (#[trigger] r[b]).0,
        ) by {
            if a == 0 {
                assert(r[b] == ri[b - 1]);
                if ri[b - 1].0 == k {
                } else {
                    let l = choose|l: int| 0 <= l < rest.len() && rest[l].0 == ri[b - 1].0;
                    assert(s[l + 1].0 == ri[b - 1].0);
                }
            } else {
                assert(r[a] == ri[a - 1] && r[b] == ri[b - 1]);
            }
        }
    } else if num_eq(s[0].0, k) {
        assert(r =~= seq![(s[0].0, s[0].1.push(pk))] + s.drop_first());
        crate::models::lemma_entries_total_add(seq![(s[0].0, s[0].1.push(pk))], s.drop_first());
        crate::models::lemma_entries_total_add(seq![s[0]], s.drop_first());
        assert(seq![s[0]] + s.drop_first() =~= s);
        crate::models::lemma_entries_total_singleton((s[0].0, s[0].1.push(pk)));
        crate::models::lemma_entries_total_singleton(s[0]);
        assert forall|a: int, b: int| 0 <= a < b < r.len() implies num_lt(
            (#[trigger] r[a]).0,
            (#[trigger] r[b]).0,
        ) by {
            assert(r[a].0 == s[a].0 && r[b].0 == s[b].0);
        }
    } else {
        assert(num_lt(k, s[0].0));
        assert(r =~= seq![(k, seq![pk])] + s);
        crate::models::lemma_entries_total_add(seq![(k, seq![pk])], s);
        assert forall|a: int, b: int| 0 <= a < b < r.len() implies num_lt(
            (#[trigger] r[a]).0,
            (#[trigger] r[b]).0,
        ) by {
            if a == 0 && b > 1 {
                lemma_num_lt_trans(k, s[0].0, s[b - 1].0);
            }
        }
    }
}

proof fn lemma_bool_insert_props(s: Seq<(bool, Seq<ValueV>)>, k: bool, pk: ValueV)
    requires
        bool_store_sorted(s),
    ensures
        bool_store_sorted(bool_insert(s, k, pk)),
        entries_total(bool_insert(s, k, pk)) == entries_total(s) + 1,
    decreases s.len(),
{
    let r = bool_insert(s, k, pk);
    crate::models::lemma_entries_total_singleton((k, seq![pk]));
    if s.len() == 0 {
    } else if !s[0].0 && k {
        let rest = s.drop_first();
        assert(bool_store_sorted(rest));
        lemma_bool_insert_props(rest, k, pk);
        let ri = bool_insert(rest, k, pk);
        assert(r =~= seq![s[0]] + ri);
        crate::models::lemma_entries_total_add(seq![s[0]], ri);
        crate::models::lemma_entries_total_add(seq![s[0]], rest);
        assert(seq![s[0]] + rest =~= s);
        crate::models::lemma_entries_total_singleton(s[0]);
        assert forall|a: int, b: int| 0 <= a < b < r.len() implies bool_pair(
            #[trigger] r[a],
            #[trigger] r[b],
        ) by {
            if a > 0 {
                assert(r[a] == ri[a - 1] && r[b] == ri[b - 1]);
                assert(bool_pair(ri[a - 1], ri[b - 1]));
            } else {
                assert(r[b] == ri[b - 1]);
                if b > 1 {
                    assert(bool_pair(ri[b - 2], ri[b - 1]));
                }
                assert(!s[0].0);
                assert(ri[b - 1].0 == k || (exists|l: int|
                    0 <= l < rest.len() && rest[l].0 == ri[b - 1].0));
                if ri[b - 1].0 != k {
                    let l = choose|l: int| 0 <= l < rest.len() && rest[l].0 == ri[b - 1].0;
                    assert(bool_pair(s[0], s[l + 1]));
                }
            }
        }
    } else if s[0].0 == k {
        assert(r =~= seq![(s[0].0, s[0].1.push(pk))] + s.drop_first());
        crate::models::lemma_entries_total_add(seq![(s[0].0, s[0].1.push(pk))], s.drop_first());
        crate::models::lemma_entries_total_add(seq![s[0]], s.drop_first());
        assert(seq![s[0]] + s.drop_first() =~= s);
        crate::models::lemma_entries_total_singleton((s[0].0, s[0].1.push(pk)));
        crate::models::lemma_entries_total_singleton(s[0]);
        assert forall|a: int, b: int| 0 <= a < b < r.len() implies bool_pair(
            #[trigger] r[a],
            #[trigger] r[b],
        ) by {
            assert(bool_pair(s[a], s[b]));
            assert(r[a].0 == s[a].0 && r[b].0 == s[b].0);
        }
    } else {
        assert(r =~= seq![(k, seq![pk])] + s);
        crate::models::lemma_entries_total_add(seq![(k, seq![pk])], s);
        assert(!k && s[0].0);
        if s.len() >= 2 {
            assert(bool_pair(s[0], s[1]));
            assert(false);
        }
        assert forall|a: int, b: int| 0 <= a < b < r.len() implies bool_pair(
            #[trigger] r[a],
            #[trigger] r[b],
        ) by {
            assert(a == 0 && b == 1);
        }
    }
}

proof fn lemma_text_insert_prefix(s: Seq<(Seq<char>, Seq<ValueV>)>, k: Seq<char>, pk: ValueV, i: int)
    requires
        0 <= i <= s.len(),
        forall|j: int| 0 <= j < i ==> lex_lt((#[trigger] s[j]).0, k),
    ensures
        text_insert(s, k, pk) == s.take(i) + text_insert(s.skip(i), k, pk),
    decreases i,
{
    if i == 0 {
        assert(s.skip(0) =~= s);
        assert(s.take(0) + text_insert(s, k, pk) =~= text_insert(s, k, pk));
    } else {
        assert(lex_lt(s[0].0, k));
        assert(s.drop_first() =~= s.skip(1));
        assert(forall|j: int| 0 <= j < i - 1 ==> lex_lt((#[trigger] s.skip(1)[j]).0, k));
        lemma_text_insert_prefix(s.skip(1), k, pk, i - 1);
        assert(s.skip(1).take(i - 1) =~= s.take(i).drop_first());
        assert(s.skip(1).skip(i - 1) =~= s.skip(i));
        assert(seq![s[0]] + (s.take(i).drop_first() + text_insert(s.skip(i), k, pk)) =~= s.take(i)
            + text_insert(s.skip(i), k, pk));
    }
}

proof fn lemma_num_insert_prefix(s: Seq<(IndexNumber, Seq<ValueV>)>, k: IndexNumber, pk: ValueV, i: int)
    requires
        0 <= i <= s.len(),
        forall|j: int| 0 <= j < i ==> num_lt((#[trigger] s[j]).0, k),
    ensures
        num_insert(s, k, pk) == s.take(i) + num_insert(s.skip(i), k, pk),
    decreases i,
{
    if i == 0 {
        assert(s.skip(0) =~= s);
        assert(s.take(0) + num_insert(s, k, pk) =~= num_insert(s, k, pk));
    } else {
        assert(num_lt(s[0].0, k));
        assert(s.drop_first() =~= s.skip(1));
        assert(forall|j: int| 0 <= j < i - 1 ==> num_lt((#[trigger] s.skip(1)[j]).0, k));
        lemma_num_insert_prefix(s.skip(1), k, pk, i - 1);
        assert(s.skip(1).take(i - 1) =~= s.take(i).drop_first());
        assert(s.skip(1).skip(i - 1) =~= s.skip(i));
        assert(seq![s[0]] + (s.take(i).drop_first() + num_insert(s.skip(i), k, pk)) =~= s.take(i)
            + num_insert(s.skip(i), k, pk));
    }
}

fn clone_values(v: &Vec<Value>) -> (r: Vec<Value>)
    ensures
        r@.map_values(|x: Value| x@) == v@.map_values(|x: Value| x@),
{
    let n = v.len();
    let mut out: Vec<Value> = Vec::new();
    let mut i: usize = 0;
    while i < n
        invariant
            0 <= i <= n,
            n == v@.len(),
            out@.len() == i,
            forall|j: int| 0 <= j < i ==> (#[trigger] out@[j])@ == v@[j]@,
        decreases n - i,
    {
        out.push(v[i].clone());
        i = i + 1;
    }
    proof {
        assert(out@.map_values(|x: Value| x@) =~= v@.map_values(|x: Value| x@));
    }
    out
}

/// Bucket one row's text value for the column; a non-text value refuses.
/// Relies on nothing outside the store's sorted order.
pub fn set_text_index(key: &Value, row: &Row, column: &str, btree: &mut Vec<(String, Vec<Value>)>) -> (ok:
    bool)
    ensures
        ({
            let old_v = old(btree)@.map_values(
                |e: (String, Vec<Value>)| (e.0@, e.1@.map_values(|x: Value| x@)),
            );
            let new_v = final(btree)@.map_values(
                |e: (String, Vec<Value>)| (e.0@, e.1@.map_values(|x: Value| x@)),
            );
            match row_get(row@, column@) {
                Some(ValueV::Text(t)) => ok && new_v == text_insert(old_v, t, key@),
                _ => !ok && new_v == old_v,
            }
        }),
{
    let ghost old_v = btree@.map_values(
        |e: (String, Vec<Value>)| (e.0@, e.1@.map_values(|x: Value| x@)),
    );
    let tval = match row.get(column) {
        Some(Value::Text(t)) => t,
        _ => {
            return false;
        },
    };
    let n = btree.len();
    let mut i: usize = 0;
    while i < n && str_lt(btree[i].0.as_str(), tval.as_str())
        invariant
            0 <= i <= n,
            n == btree@.len(),
            btree@ == old(btree)@,
            old_v == btree@.map_values(
                |e: (String, Vec<Value>)| (e.0@, e.1@.map_values(|x: Value| x@)),
            ),
            forall|j: int| 0 <= j < i ==> lex_lt((#[trigger] old_v[j]).0, tval@),
        decreases n - i,
    {
        proof {
            assert(old_v[i as int].0 == btree@[i as int].0@);
        }
        i = i + 1;
    }
    proof {
        assert(i < n ==> old_v[i as int].0 == btree@[i as int].0@);
        lemma_text_insert_prefix(old_v, tval@, key@, i as int);
    }
    if i < n && str_eq(btree[i].0.as_str(), tval.as_str()) {
        let kk = btree[i].0.clone();
        let mut bucket = clone_values(&btree[i].1);
        bucket.push(key.clone());
        let ghost bucketv = bucket@.map_values(|x: Value| x@);
        btree.set(i, (kk, bucket));
        proof {
            assert(bucketv =~= old_v[i as int].1.push(key@));
            assert(old_v.skip(i as int)[0] == old_v[i as int]);
            assert(old_v.skip(i as int).drop_first() =~= old_v.skip(i + 1));
            assert(text_insert(old_v.skip(i as int), tval@, key@) =~= seq![
                (old_v[i as int].0, old_v[i as int].1.push(key@)),
            ] + old_v.skip(i + 1));
            assert(final(btree)@.map_values(
                |e: (String, Vec<Value>)| (e.0@, e.1@.map_values(|x: Value| x@)),
            ) =~= old_v.take(i as int) + (seq![(old_v[i as int].0, old_v[i as int].1.push(key@))]
                + old_v.skip(i + 1)));
        }
        true
    } else {
        let mut nk = String::new();
        nk.append(tval.as_str());
        let mut bucket: Vec<Value> = Vec::new();
        bucket.push(key.clone());
        btree.insert(i, (nk, bucket));
        proof {
            if i < n {
                assert(old_v.skip(i as int)[0] == old_v[i as int]);
                assert(!lex_lt(old_v[i as int].0, tval@));
                assert(old_v[i as int].0 != tval@);
            } else {
                assert(old_v.skip(i as int) =~= Seq::<(Seq<char>, Seq<ValueV>)>::empty());
            }
            assert(text_insert(old_v.skip(i as int), tval@, key@) =~= seq![
                (tval@, seq![key@]),
            ] + old_v.skip(i as int));
            assert(final(btree)@.map_values(
                |e: (String, Vec<Value>)| (e.0@, e.1@.map_values(|x: Value| x@)),
            ) =~~= old_v.take(i as int) + (seq![(tval@, seq![key@])] + old_v.skip(i as int)));
        }
        true
    }
}

/// Bucket one row's numeric value for the column under the numeric order;
/// a non-numeric value refuses, as does a non-numeric index type.
pub fn set_number_index(
    key: &Value,
    row: &Row,
    column: &str,
    index_type: &FieldDataType,
    btree: &mut Vec<(IndexNumber, Vec<Value>)>,
) -> (ok: bool)
    requires
        row_vals_wf(row@),
        forall|j: int| 0 <= j < old(btree)@.len() ==> (#[trigger] old(btree)@[j]).0.wf(),
        *index_type == FieldDataType::NUMBER || *index_type == FieldDataType::SERIAL,
    ensures
        ({
            let old_v = old(btree)@.map_values(
                |e: (IndexNumber, Vec<Value>)| (e.0, e.1@.map_values(|x: Value| x@)),
            );
            let new_v = final(btree)@.map_values(
                |e: (IndexNumber, Vec<Value>)| (e.0, e.1@.map_values(|x: Value| x@)),
            );
            match row_get(row@, column@) {
                Some(ValueV::Num(x)) => ok && new_v == num_insert(old_v, x, key@),
                _ => !ok && new_v == old_v,
            }
        }),
        forall|j: int| 0 <= j < final(btree)@.len() ==> (#[trigger] final(btree)@[j]).0.wf(),
{
    let ghost old_v = btree@.map_values(
        |e: (IndexNumber, Vec<Value>)| (e.0, e.1@.map_values(|x: Value| x@)),
    );
    let got = row.get(column);
    let nval = match got {
        Some(Value::Num(x)) => *x,
        _ => {
            return false;
        },
    };
    proof {
        lemma_row_get_wf_local(row@, column@);
    }
    let n = btree.len();
    let mut i: usize = 0;
    let mut scanning = true;
    while i < n && scanning
        invariant
            0 <= i <= n,
            n == btree@.len(),
            btree@ == old(btree)@,
            nval.wf(),
            forall|j: int| 0 <= j < btree@.len() ==> (#[trigger] btree@[j]).0.wf(),
            old_v == btree@.map_values(
                |e: (IndexNumber, Vec<Value>)| (e.0, e.1@.map_values(|x: Value| x@)),
            ),
            forall|j: int| 0 <= j < i ==> num_lt((#[trigger] old_v[j]).0, nval),
            !scanning ==> i < n && !num_lt(old_v[i as int].0, nval),
        decreases n - i + if scanning { 1int } else { 0int },
    {
        proof {
            assert(old_v[i as int].0 == btree@[i as int].0);
        }
        let rk = num_cmp(&btree[i].0, &nval);
        if matches!(rk, Rank::Less) {
            i = i + 1;
        } else {
            scanning = false;
        }
    }
    proof {
        assert(i < n ==> old_v[i as int].0 == btree@[i as int].0);
        lemma_num_insert_prefix(old_v, nval, key@, i as int);
    }
    let eq_here = if i < n {
        matches!(num_cmp(&btree[i].0, &nval), Rank::Equal)
    } else {
        false
    };
    if eq_here {
        let kk = btree[i].0;
        let mut bucket = clone_values(&btree[i].1);
        bucket.push(key.clone());
        let ghost bucketv = bucket@.map_values(|x: Value| x@);
        btree.set(i, (kk, bucket));
        proof {
            assert(bucketv =~= old_v[i as int].1.push(key@));
            assert(old_v.skip(i as int)[0] == old_v[i as int]);
            assert(old_v.skip(i as int).drop_first() =~= old_v.skip(i + 1));
            assert(num_insert(old_v.skip(i as int), nval, key@) =~= seq![
                (old_v[i as int].0, old_v[i as int].1.push(key@)),
            ] + old_v.skip(i + 1));
            assert(final(btree)@.map_values(
                |e: (IndexNumber, Vec<Value>)| (e.0, e.1@.map_values(|x: Value| x@)),
            ) =~= old_v.take(i as int) + (seq![(old_v[i as int].0, old_v[i as int].1.push(key@))]
                + old_v.skip(i + 1)));
        }
        true
    } else {
        let mut bucket: Vec<Value> = Vec::new();
        bucket.push(key.clone());
        btree.insert(i, (nval, bucket));
        proof {
            if i < n {
                assert(old_v.skip(i as int)[0] == old_v[i as int]);
                assert(!num_lt(old_v[i as int].0, nval));
                assert(!num_eq(old_v[i as int].0, nval));
            } else {
                assert(old_v.skip(i as int) =~= Seq::<(IndexNumber, Seq<ValueV>)>::empty());
            }
            assert(num_insert(old_v.skip(i as int), nval, key@) =~= seq![
                (nval, seq![key@]),
            ] + old_v.skip(i as int));
            assert(final(btree)@.map_values(
                |e: (IndexNumber, Vec<Value>)| (e.0, e.1@.map_values(|x: Value| x@)),
            ) =~~= old_v.take(i as int) + (seq![(nval, seq![key@])] + old_v.skip(i as int)));
        }
        true
    }
}

proof fn lemma_row_get_wf_local(r: RowV, name: Seq<char>)
    requires
        row_vals_wf(r),
        row_get(r, name) is Some,
    ensures
        row_get(r, name)->Some_0.wf(),
    decreases r.len(),
{
    if r.len() > 0 && r[0].0 != name {
        assert(forall|i: int| 0 <= i < r.drop_first().len() ==> (#[trigger] r.drop_first()[i]).1
            == r[i + 1].1);
        lemma_row_get_wf_local(r.drop_first(), name);
    }
}

/// Bucket one row's boolean value for the column; a non-boolean value
/// refuses.
pub fn set_bool_index(key: &Value, row: &Row, column: &str, btree: &mut Vec<(bool, Vec<Value>)>) -> (ok:
    bool)
    requires
        bool_store_sorted(
            old(btree)@.map_values(|e: (bool, Vec<Value>)| (e.0, e.1@.map_values(|x: Value| x@))),
        ),
    ensures
        ({
            let old_v = old(btree)@.map_values(
                |e: (bool, Vec<Value>)| (e.0, e.1@.map_values(|x: Value| x@)),
            );
            let new_v = final(btree)@.map_values(
                |e: (bool, Vec<Value>)| (e.0, e.1@.map_values(|x: Value| x@)),
            );
            match row_get(row@, column@) {
                Some(ValueV::Bool(b)) => ok && new_v == bool_insert(old_v, b, key@),
                _ => !ok && new_v == old_v,
            }
        }),
{
    let ghost old_v = btree@.map_values(
        |e: (bool, Vec<Value>)| (e.0, e.1@.map_values(|x: Value| x@)),
    );
    let bval = match row.get(column) {
        Some(Value::Bool(b)) => *b,
        _ => {
            return false;
        },
    };
    let n = btree.len();
    let mut i: usize = 0;
    if n > 0 && !btree[0].0 && bval {
        i = 1;
    }
    proof {
        assert(forall|j: int| 0 <= j < i ==> old_v[j] == (btree@[j].0, btree@[j].1@.map_values(|x: Value| x@)));
    }
    if i < n && btree[i].0 == bval {
        let mut bucket = clone_values(&btree[i].1);
        bucket.push(key.clone());
        let ghost bucketv = bucket@.map_values(|x: Value| x@);
        btree.set(i, (bval, bucket));
        proof {
            assert(old_v[i as int].0 == old(btree)@[i as int].0);
            assert(bucketv =~= old_v[i as int].1.push(key@));
            if i == 0 {
                assert(bool_insert(old_v, bval, key@) =~= seq![
                    (old_v[0].0, old_v[0].1.push(key@)),
                ] + old_v.drop_first());
                assert(final(btree)@.map_values(
                    |e: (bool, Vec<Value>)| (e.0, e.1@.map_values(|x: Value| x@)),
                ) =~= seq![(old_v[0].0, old_v[0].1.push(key@))] + old_v.drop_first());
            } else {
                assert(old_v[0].0 == old(btree)@[0].0);
                assert(!old_v[0].0 && bval);
                assert(old_v.drop_first()[0] == old_v[1]);
                if old_v.len() >= 2 {
                    assert(bool_pair(old_v[0], old_v[1]));
                }
                assert(bool_insert(old_v.drop_first(), bval, key@) =~= seq![
                    (old_v[1].0, old_v[1].1.push(key@)),
                ] + old_v.drop_first().drop_first());
                assert(final(btree)@.map_values(
                    |e: (bool, Vec<Value>)| (e.0, e.1@.map_values(|x: Value| x@)),
                ) =~= seq![old_v[0]] + bool_insert(old_v.drop_first(), bval, key@));
            }
        }
        true
    } else {
        let mut bucket: Vec<Value> = Vec::new();
        bucket.push(key.clone());
        btree.insert(i, (bval, bucket));
        proof {
            if i == 0 {
                if n > 0 {
                    assert(old_v[0].0 == old(btree)@[0].0);
                    assert(!(!old_v[0].0 && bval));
                    assert(old_v[0].0 != bval);
                }
                assert(bool_insert(old_v, bval, key@) =~~= seq![(bval, seq![key@])] + old_v);
                assert(final(btree)@.map_values(
                    |e: (bool, Vec<Value>)| (e.0, e.1@.map_values(|x: Value| x@)),
                ) =~~= seq![(bval, seq![key@])] + old_v);
            } else {
                assert(old_v[0].0 == old(btree)@[0].0);
                assert(!old_v[0].0 && bval);
                if i < n {
                    assert(old_v[i as int].0 == old(btree)@[i as int].0);
                    assert(old_v.drop_first()[0] == old_v[1]);
                    assert(old_v[1].0 != bval);
                    assert(bool_pair(old_v[0], old_v[1]));
                    assert(false);
                } else {
                    assert(old_v.drop_first() =~= Seq::<(bool, Seq<ValueV>)>::empty());
                    assert(bool_insert(old_v.drop_first(), bval, key@) =~= seq![
                        (bval, seq![key@]),
                    ] + old_v.drop_first());
                }
                assert(final(btree)@.map_values(
                    |e: (bool, Vec<Value>)| (e.0, e.1@.map_values(|x: Value| x@)),
                ) =~~= seq![old_v[0]] + bool_insert(old_v.drop_first(), bval, key@));
            }
        }
        true
    }
}

/// First schema column with this name.
pub open spec fn schema_field(schema: Seq<FieldDefV>, col: Seq<char>) -> Option<FieldDefV>
    decreases schema.len(),
{
    if schema.len() == 0 {
        None
    } else if schema[0].name == col {
        Some(schema[0])
    } else {
        schema_field(schema.drop_first(), col)
    }
}

/// The store kind a column type indexes as: SERIAL columns index as NUMBER.
pub open spec fn index_kind(dt: FieldDataType) -> FieldDataType {
    match dt {
        FieldDataType::TEXT => FieldDataType::TEXT,
        FieldDataType::NUMBER => FieldDataType::NUMBER,
        FieldDataType::SERIAL => FieldDataType::NUMBER,
        FieldDataType::BOOLEAN => FieldDataType::BOOLEAN,
    }
}

/// Fold every row's text value for the column into a sorted store; any
/// row whose value is not text aborts the whole build.
pub open spec fn spec_build_text(d: Seq<(ValueV, RowV)>, col: Seq<char>) -> Option<
    Seq<(Seq<char>, Seq<ValueV>)>,
>
    decreases d.len(),
{
    if d.len() == 0 {
        Some(Seq::empty())
    } else {
        match spec_build_text(d.drop_last(), col) {
            None => None,
            Some(s) => match row_get(d.last().1, col) {
                Some(ValueV::Text(t)) => Some(text_insert(s, t, d.last().0)),
                _ => None,
            },
        }
    }
}

pub open spec fn spec_build_num(d: Seq<(ValueV, RowV)>, col: Seq<char>) -> Option<
    Seq<(IndexNumber, Seq<ValueV>)>,
>
    decreases d.len(),
{
    if d.len() == 0 {
        Some(Seq::empty())
    } else {
        match spec_build_num(d.drop_last(), col) {
            None => None,
            Some(s) => match row_get(d.last().1, col) {
                Some(ValueV::Num(x)) => Some(num_insert(s, x, d.last().0)),
                _ => None,
            },
        }
    }
}

pub open spec fn spec_build_bool(d: Seq<(ValueV, RowV)>, col: Seq<char>) -> Option<
    Seq<(bool, Seq<ValueV>)>,
>
    decreases d.len(),
{
    if d.len() == 0 {
        Some(Seq::empty())
    } else {
        match spec_build_bool(d.drop_last(), col) {
            None => None,
            Some(s) => match row_get(d.last().1, col) {
                Some(ValueV::Bool(b)) => Some(bool_insert(s, b, d.last().0)),
                _ => None,
            },
        }
    }
}

/// The store a CREATE INDEX builds for a column of the given kind.
pub open spec fn spec_build_store(
    d: Seq<(ValueV, RowV)>,
    col: Seq<char>,
    kind: FieldDataType,
) -> Option<IndexStoreV> {
    match kind {
        FieldDataType::TEXT => match spec_build_text(d, col) {
            Some(s) => Some(IndexStoreV::Text(s)),
            None => None,
        },
        FieldDataType::NUMBER => match spec_build_num(d, col) {
            Some(s) => Some(IndexStoreV::Number(s)),
            None => None,
        },
        FieldDataType::BOOLEAN => match spec_build_bool(d, col) {
            Some(s) => Some(IndexStoreV::Boolean(s)),
            None => None,
        },
        FieldDataType::SERIAL => None,
    }
}

proof fn lemma_build_text_none(d: Seq<(ValueV, RowV)>, col: Seq<char>, j: int)
    requires
        0 <= j <= d.len(),
        spec_build_text(d.take(j), col) is None,
    ensures
        spec_build_text(d, col) is None,
    decreases d.len() - j,
{
    if j == d.len() {
        assert(d.take(j) =~= d);
    } else {
        assert(d.take(j + 1).drop_last() =~= d.take(j));
        lemma_build_text_none(d, col, j + 1);
    }
}

proof fn lemma_build_num_none(d: Seq<(ValueV, RowV)>, col: Seq<char>, j: int)
    requires
        0 <= j <= d.len(),
        spec_build_num(d.take(j), col) is None,
    ensures
        spec_build_num(d, col) is None,
    decreases d.len() - j,
{
    if j == d.len() {
        assert(d.take(j) =~= d);
    } else {
        assert(d.take(j + 1).drop_last() =~= d.take(j));
        lemma_build_num_none(d, col, j + 1);
    }
}

proof fn lemma_build_bool_none(d: Seq<(ValueV, RowV)>, col: Seq<char>, j: int)
    requires
        0 <= j <= d.len(),
        spec_build_bool(d.take(j), col) is None,
    ensures
        spec_build_bool(d, col) is None,
    decreases d.len() - j,
{
    if j == d.len() {
        assert(d.take(j) =~= d);
    } else {
        assert(d.take(j + 1).drop_last() =~= d.take(j));
        lemma_build_bool_none(d, col, j + 1);
    }
}

/// The index registry with `col` bound to `iv`: an existing entry is
/// overwritten in place, otherwise the entry is appended.
pub open spec fn idx_set(
    idxs: Seq<(Seq<char>, IndexV)>,
    col: Seq<char>,
    iv: IndexV,
) -> Seq<(Seq<char>, IndexV)>
    decreases idxs.len(),
{
    if idxs.len() == 0 {
        seq![(col, iv)]
    } else if idxs[0].0 == col {
        seq![(col, iv)] + idxs.drop_first()
    } else {
        seq![idxs[0]] + idx_set(idxs.drop_first(), col, iv)
    }
}

proof fn lemma_idx_set_at(idxs: Seq<(Seq<char>, IndexV)>, col: Seq<char>, iv: IndexV, i: int)
    requires
        0 <= i < idxs.len(),
        idxs[i].0 == col,
        forall|j: int| 0 <= j < i ==> (#[trigger] idxs[j]).0 != col,
    ensures
        idx_set(idxs, col, iv) == idxs.update(i, (col, iv)),
    decreases i,
{
    if i == 0 {
        assert(idx_set(idxs, col, iv) =~= idxs.update(0, (col, iv)));
    } else {
        assert(forall|j: int| 0 <= j < i - 1 ==> (#[trigger] idxs.drop_first()[j]).0 != col);
        lemma_idx_set_at(idxs.drop_first(), col, iv, i - 1);
        assert(seq![idxs[0]] + idxs.drop_first().update(i - 1, (col, iv)) =~= idxs.update(
            i,
            (col, iv),
        ));
    }
}

proof fn lemma_idx_set_absent(idxs: Seq<(Seq<char>, IndexV)>, col: Seq<char>, iv: IndexV)
    requires
        forall|j: int| 0 <= j < idxs.len() ==> (#[trigger] idxs[j]).0 != col,
    ensures
        idx_set(idxs, col, iv) == idxs.push((col, iv)),
    decreases idxs.len(),
{
    if idxs.len() == 0 {
        assert(idx_set(idxs, col, iv) =~= idxs.push((col, iv)));
    } else {
        lemma_idx_set_absent(idxs.drop_first(), col, iv);
        assert(seq![idxs[0]] + idxs.drop_first().push((col, iv)) =~= idxs.push((col, iv)));
    }
}

/// The store kind and empty store a column type starts its index with.
pub fn set_index_type(column_type: FieldDataType) -> (r: (FieldDataType, IndexStore))
    ensures
        r.0 == index_kind(column_type),
        r.0 == FieldDataType::TEXT ==> r.1@ == IndexStoreV::Text(
            Seq::<(Seq<char>, Seq<ValueV>)>::empty(),
        ),
        r.0 == FieldDataType::NUMBER ==> r.1@ == IndexStoreV::Number(
            Seq::<(IndexNumber, Seq<ValueV>)>::empty(),
        ),
        r.0 == FieldDataType::BOOLEAN ==> r.1@ == IndexStoreV::Boolean(
            Seq::<(bool, Seq<ValueV>)>::empty(),
        ),
{
    proof {
        assert(Seq::<(String, Vec<Value>)>::empty().map_values(
            |e: (String, Vec<Value>)| (e.0@, e.1@.map_values(|x: Value| x@)),
        ) =~= Seq::<(Seq<char>, Seq<ValueV>)>::empty());
        assert(Seq::<(IndexNumber, Vec<Value>)>::empty().map_values(
            |e: (IndexNumber, Vec<Value>)| (e.0, e.1@.map_values(|x: Value| x@)),
        ) =~= Seq::<(IndexNumber, Seq<ValueV>)>::empty());
        assert(Seq::<(bool, Vec<Value>)>::empty().map_values(
            |e: (bool, Vec<Value>)| (e.0, e.1@.map_values(|x: Value| x@)),
        ) =~= Seq::<(bool, Seq<ValueV>)>::empty());
    }
    match column_type {
        FieldDataType::TEXT => (FieldDataType::TEXT, IndexStore::Text(Vec::new())),
        FieldDataType::NUMBER | FieldDataType::SERIAL => (
            FieldDataType::NUMBER,
            IndexStore::Number(Vec::new()),
        ),
        FieldDataType::BOOLEAN => (FieldDataType::BOOLEAN, IndexStore::Boolean(Vec::new())),
    }
}

pub(crate) fn find_field_pos(schema: &Vec<FieldDef>, col: &str) -> (r: Option<usize>)
    ensures
        ({
            let sv = schema@.map_values(|f: FieldDef| f@);
            match r {
                Some(i) => 0 <= i < sv.len() && schema_field(sv, col@) == Some(sv[i as int])
                    && sv[i as int].name == col@ && (forall|j: int|
                    0 <= j < i ==> (#[trigger] sv[j]).name != col@),
                None => schema_field(sv, col@) is None,
            }
        }),
{
    let ghost sv = schema@.map_values(|f: FieldDef| f@);
    let n = schema.len();
    let mut i: usize = 0;
    proof {
        assert(sv.skip(0) =~= sv);
    }
    while i < n
        invariant
            0 <= i <= n,
            n == schema@.len(),
            sv == schema@.map_values(|f: FieldDef| f@),
            schema_field(sv, col@) == schema_field(sv.skip(i as int), col@),
            forall|j: int| 0 <= j < i ==> (#[trigger] sv[j]).name != col@,
        decreases n - i,
    {
        proof {
            assert(sv.skip(i as int)[0] == sv[i as int]);
            assert(sv.skip(i as int).drop_first() =~= sv.skip(i + 1));
            assert(sv[i as int].name == schema@[i as int]@.name);
        }
        if str_eq(schema[i].name.as_str(), col) {
            return Some(i);
        }
        proof {
            assert(sv[i as int].name != col@);
        }
        i = i + 1;
    }
    proof {
        assert(sv.skip(n as int) =~= Seq::<FieldDefV>::empty());
    }
    None
}

/// What a successful CREATE INDEX leaves: the same table with the new
/// snapshot registered (replacing any earlier index on the column).
pub open spec fn spec_create_index(t: TableV, col: Seq<char>) -> Result<TableV, EngineError> {
    match schema_field(t.schema, col) {
        None => Err(EngineError::ColumnNotFound),
        Some(f) => match f.data_type {
            None => Err(EngineError::ColumnDataMissing),
            Some(dt) => {
                let kind = index_kind(dt);
                match spec_build_store(t.data, col, kind) {
                    None => Err(EngineError::IndexTypeMismatch),
                    Some(st) => Ok(
                        TableV {
                            indexes: idx_set(
                                t.indexes,
                                col,
                                IndexV { indexed_column: col, index_type: kind, index_data: st },
                            ),
                            ..t
                        },
                    ),
                }
            },
        },
    }
}

/// CREATE TABLE parses the schema and starts from an empty row map and no
/// indexes (an existing table of the same name is simply replaced);
/// CREATE INDEX scans the given snapshot once and registers the result.
/// An error leaves nothing to persist.
#[verifier::loop_isolation(false)]
pub fn create(create_data: CreateData, current: Table) -> (r: Result<Table, EngineError>)
    requires
        table_wf(current@),
    ensures
        match create_data {
            CreateData::Table { name, schema } => {
                match spec_generate_schema(schema@.map_values(|s: String| s@)) {
                    Ok(fields) => r is Ok && r->Ok_0@.name == name@ && r->Ok_0@.schema == fields
                        && r->Ok_0@.data.len() == 0 && r->Ok_0@.indexes.len() == 0 && table_wf(
                        r->Ok_0@,
                    ),
                    Err(e) => r == Err::<Table, EngineError>(e),
                }
            },
            CreateData::Index { table: _, column } => {
                match spec_create_index(current@, column@) {
                    Ok(tv) => r is Ok && r->Ok_0@ == tv && table_wf(r->Ok_0@),
                    Err(e) => r == Err::<Table, EngineError>(e),
                }
            },
        },
{
    match create_data {
        CreateData::Table { name, schema } => {
            let fields = match generate_schema(&schema) {
                Ok(f) => f,
                Err(e) => {
                    return Err(e);
                },
            };
            let t = Table { name, schema: fields, data: Vec::new(), indexes: Vec::new() };
            proof {
                assert(t@.data =~= Seq::<(ValueV, RowV)>::empty());
                assert(t@.indexes =~= Seq::<(Seq<char>, IndexV)>::empty());
            }
            Ok(t)
        },
        CreateData::Index { table: _, column } => {
            let pos = match find_field_pos(&current.schema, column.as_str()) {
                Some(p) => p,
                None => {
                    return Err(EngineError::ColumnNotFound);
                },
            };
            let dt = match current.schema[pos].data_type {
                Some(dt) => dt,
                None => {
                    proof {
                        assert(current@.schema[pos as int] == current.schema@[pos as int]@);
                    }
                    return Err(EngineError::ColumnDataMissing);
                },
            };
            proof {
                assert(current@.schema[pos as int] == current.schema@[pos as int]@);
            }
            let (index_type, index_data) = set_index_type(dt);
            let ghost dv = current@.data;
            let ghost colv = column@;
            let n = current.data.len();
            let ghost kind = index_kind(dt);
            let built: IndexStore = match index_data {
                IndexStore::Text(mut btree) => {
                    proof {
                        assert(kind == FieldDataType::TEXT);
                    }
                    let mut i: usize = 0;
                    proof {
                        assert(dv.take(0) =~= Seq::<(ValueV, RowV)>::empty());
                        assert(btree@.map_values(
                            |e: (String, Vec<Value>)| (e.0@, e.1@.map_values(|x: Value| x@)),
                        ) =~= Seq::<(Seq<char>, Seq<ValueV>)>::empty());
                    }
                    while i < n
                        invariant
                            0 <= i <= n,
                            n == current.data@.len(),
                            dv == current@.data,
                            colv == column@,
                            schema_field(current@.schema, column@) == Some(
                                schema_field(current@.schema, column@)->Some_0,
                            ),
                            schema_field(current@.schema, column@)->Some_0.data_type == Some(dt),
                            index_kind(dt) == FieldDataType::TEXT,
                            spec_build_text(dv.take(i as int), colv) == Some(
                                btree@.map_values(
                                    |e: (String, Vec<Value>)| (e.0@, e.1@.map_values(|x: Value| x@)),
                                ),
                            ),
                            text_store_sorted(
                                btree@.map_values(
                                    |e: (String, Vec<Value>)| (e.0@, e.1@.map_values(|x: Value| x@)),
                                ),
                            ),
                            entries_total(
                                btree@.map_values(
                                    |e: (String, Vec<Value>)| (e.0@, e.1@.map_values(|x: Value| x@)),
                                ),
                            ) == i,
                        decreases n - i,
                    {
                        proof {
                            assert(dv.take(i + 1).drop_last() =~= dv.take(i as int));
                            assert(dv.take(i + 1).last() == dv[i as int]);
                            assert(dv[i as int] == (current.data@[i as int].0@, current.data@[i as int].1@));
                            let sv = btree@.map_values(
                                |e: (String, Vec<Value>)| (e.0@, e.1@.map_values(|x: Value| x@)),
                            );
                            lemma_text_insert_props(sv, match row_get(dv[i as int].1, colv) {
                                Some(ValueV::Text(t)) => t,
                                _ => Seq::empty(),
                            }, dv[i as int].0);
                        }
                        let ok = set_text_index(&current.data[i].0, &current.data[i].1, column.as_str(), &mut btree);
                        if !ok {
                            proof {
                                lemma_build_text_none(dv, colv, i + 1);
                            }
                            return Err(EngineError::IndexTypeMismatch);
                        }
                        i = i + 1;
                    }
                    proof {
                        assert(dv.take(n as int) =~= dv);
                    }
                    IndexStore::Text(btree)
                },
                IndexStore::Number(mut btree) => {
                    proof {
                        assert(kind == FieldDataType::NUMBER);
                    }
                    let mut i: usize = 0;
                    proof {
                        assert(dv.take(0) =~= Seq::<(ValueV, RowV)>::empty());
                        assert(btree@.map_values(
                            |e: (IndexNumber, Vec<Value>)| (e.0, e.1@.map_values(|x: Value| x@)),
                        ) =~= Seq::<(IndexNumber, Seq<ValueV>)>::empty());
                    }
                    while i < n
                        invariant
                            0 <= i <= n,
                            n == current.data@.len(),
                            dv == current@.data,
                            colv == column@,
                            table_wf(current@),
                            schema_field(current@.schema, column@) == Some(
                                schema_field(current@.schema, column@)->Some_0,
                            ),
                            schema_field(current@.schema, column@)->Some_0.data_type == Some(dt),
                            index_kind(dt) == FieldDataType::NUMBER,
                            index_type == FieldDataType::NUMBER,
                            spec_build_num(dv.take(i as int), colv) == Some(
                                btree@.map_values(
                                    |e: (IndexNumber, Vec<Value>)| (e.0, e.1@.map_values(|x: Value| x@)),
                                ),
                            ),
                            num_store_sorted(
                                btree@.map_values(
                                    |e: (IndexNumber, Vec<Value>)| (e.0, e.1@.map_values(|x: Value| x@)),
                                ),
                            ),
                            entries_total(
                                btree@.map_values(
                                    |e: (IndexNumber, Vec<Value>)| (e.0, e.1@.map_values(|x: Value| x@)),
                                ),
                            ) == i,
                            forall|j: int| 0 <= j < btree@.len() ==> (#[trigger] btree@[j]).0.wf(),
                        decreases n - i,
                    {
                        proof {
                            assert(dv.take(i + 1).drop_last() =~= dv.take(i as int));
                            assert(dv.take(i + 1).last() == dv[i as int]);
                            assert(dv[i as int] == (current.data@[i as int].0@, current.data@[i as int].1@));
                            assert(row_vals_wf(dv[i as int].1));
                            let sv = btree@.map_values(
                                |e: (IndexNumber, Vec<Value>)| (e.0, e.1@.map_values(|x: Value| x@)),
                            );
                            lemma_num_insert_props(sv, match row_get(dv[i as int].1, colv) {
                                Some(ValueV::Num(x)) => x,
                                _ => IndexNumber::Int(0),
                            }, dv[i as int].0);
                            assert(forall|j: int| 0 <= j < sv.len() ==> (#[trigger] sv[j]).0 == btree@[j].0);
                        }
                        let ok = set_number_index(
                            &current.data[i].0,
                            &current.data[i].1,
                            column.as_str(),
                            &index_type,
                            &mut btree,
                        );
                        if !ok {
                            proof {
                                lemma_build_num_none(dv, colv, i + 1);
                            }
                            return Err(EngineError::IndexTypeMismatch);
                        }
                        proof {
                            let sv = btree@.map_values(
                                |e: (IndexNumber, Vec<Value>)| (e.0, e.1@.map_values(|x: Value| x@)),
                            );
                            assert(forall|j: int| 0 <= j < sv.len() ==> (#[trigger] sv[j]).0 == btree@[j].0);
                            if row_get(dv[i as int].1, colv) is Some {
                                lemma_row_get_wf_local(dv[i as int].1, colv);
                            }
                        }
                        i = i + 1;
                    }
                    proof {
                        assert(dv.take(n as int) =~= dv);
                    }
                    IndexStore::Number(btree)
                },
                IndexStore::Boolean(mut btree) => {
                    proof {
                        assert(kind == FieldDataType::BOOLEAN);
                    }
                    let mut i: usize = 0;
                    proof {
                        assert(dv.take(0) =~= Seq::<(ValueV, RowV)>::empty());
                        assert(btree@.map_values(
                            |e: (bool, Vec<Value>)| (e.0, e.1@.map_values(|x: Value| x@)),
                        ) =~= Seq::<(bool, Seq<ValueV>)>::empty());
                    }
                    while i < n
                        invariant
                            0 <= i <= n,
                            n == current.data@.len(),
                            dv == current@.data,
                            colv == column@,
                            schema_field(current@.schema, column@) == Some(
                                schema_field(current@.schema, column@)->Some_0,
                            ),
                            schema_field(current@.schema, column@)->Some_0.data_type == Some(dt),
                            index_kind(dt) == FieldDataType::BOOLEAN,
                            spec_build_bool(dv.take(i as int), colv) == Some(
                                btree@.map_values(
                                    |e: (bool, Vec<Value>)| (e.0, e.1@.map_values(|x: Value| x@)),
                                ),
                            ),
                            bool_store_sorted(
                                btree@.map_values(
                                    |e: (bool, Vec<Value>)| (e.0, e.1@.map_values(|x: Value| x@)),
                                ),
                            ),
                            entries_total(
                                btree@.map_values(
                                    |e: (bool, Vec<Value>)| (e.0, e.1@.map_values(|x: Value| x@)),
                                ),
                            ) == i,
                        decreases n - i,
                    {
                        proof {
                            assert(dv.take(i + 1).drop_last() =~= dv.take(i as int));
                            assert(dv.take(i + 1).last() == dv[i as int]);
                            assert(dv[i as int] == (current.data@[i as int].0@, current.data@[i as int].1@));
                            let sv = btree@.map_values(
                                |e: (bool, Vec<Value>)| (e.0, e.1@.map_values(|x: Value| x@)),
                            );
                            lemma_bool_insert_props(sv, match row_get(dv[i as int].1, colv) {
                                Some(ValueV::Bool(b)) => b,
                                _ => false,
                            }, dv[i as int].0);
                        }
                        let ok = set_bool_index(&current.data[i].0, &current.data[i].1, column.as_str(), &mut btree);
                        if !ok {
                            proof {
                                lemma_build_bool_none(dv, colv, i + 1);
                            }
                            return Err(EngineError::IndexTypeMismatch);
                        }
                        i = i + 1;
                    }
                    proof {
                        assert(dv.take(n as int) =~= dv);
                    }
                    IndexStore::Boolean(btree)
                },
            };
            let new_index = Index {
                indexed_column: column.clone(),
                index_type,
                index_data: built,
            };
            let ghost cv = current@;
            let Table { name, schema, data, indexes } = current;
            let mut indexes = indexes;
            let ghost old_idx = indexes@.map_values(|e: (String, Index)| (e.0@, e.1@));
            let m = indexes.len();
            let mut j: usize = 0;
            let mut placed = false;
            while j < m && !placed
                invariant
                    0 <= j <= m,
                    m == indexes@.len(),
                    indexes@.map_values(|e: (String, Index)| (e.0@, e.1@)) == old_idx,
                    forall|l: int| 0 <= l < j ==> (#[trigger] old_idx[l]).0 != column@,
                    placed ==> j < m && old_idx[j as int].0 == column@,
                decreases m - j + if placed { 0int } else { 1int },
            {
                proof {
                    assert(old_idx[j as int].0 == indexes@[j as int].0@);
                }
                if str_eq(indexes[j].0.as_str(), column.as_str()) {
                    placed = true;
                } else {
                    j = j + 1;
                }
            }
            let ghost ivv = new_index@;
            if placed {
                let ck = column.clone();
                indexes.set(j, (ck, new_index));
                proof {
                    assert(old_idx[j as int].0 == column@);
                    lemma_idx_set_at(old_idx, column@, ivv, j as int);
                    assert(indexes@.map_values(|e: (String, Index)| (e.0@, e.1@)) =~= old_idx.update(
                        j as int,
                        (column@, ivv),
                    ));
                }
            } else {
                let ck = column.clone();
                indexes.push((ck, new_index));
                proof {
                    lemma_idx_set_absent(old_idx, column@, ivv);
                    assert(indexes@.map_values(|e: (String, Index)| (e.0@, e.1@)) =~= old_idx.push(
                        (column@, ivv),
                    ));
                }
            }
            let t = Table { name, schema, data, indexes };
            proof {
                assert(cv.indexes == old_idx);
                let tv = spec_create_index(cv, column@)->Ok_0;
                assert(t@.name == tv.name);
                assert(t@.schema == tv.schema);
                assert(t@.data == tv.data);
                assert(t@.indexes == tv.indexes);
                assert(t@ == tv);
                assert(table_wf(t@)) by {
                    assert(forall|l: int|
                        0 <= l < t@.indexes.len() ==> store_wf(
                            (#[trigger] t@.indexes[l]).1.index_data,
                        ));
                    assert(forall|a: int, b: int|
                        0 <= a < b < t@.indexes.len() ==> (#[trigger] t@.indexes[a]).0 != (
                        #[trigger] t@.indexes[b]).0);
                }
            }
            Ok(t)
        },
    }
}

} // verus!
