//! The table model: schema columns, the row map keyed by primary-key value,
//! and point-in-time secondary indexes with sorted stores.

use vstd::prelude::*;
use crate::num::IndexNumber;
use crate::num::num_lt;
use crate::text::lex_lt;
use crate::value::Row;
use crate::value::RowV;
use crate::value::Value;
use crate::value::ValueV;
use crate::value::row_wf;
use crate::value::row_vals_wf;

verus! {

/// The four column types.
#[derive(Clone, Copy, Debug, PartialEq, Eq, Structural)]
#[allow(non_camel_case_types)]
pub enum FieldDataType {
    TEXT,
    NUMBER,
    BOOLEAN,
    SERIAL,
}

/// Auto-increment state of a SERIAL column: the next value to hand out.
#[derive(Clone, Copy, Debug, PartialEq, Eq, Structural)]
pub struct SerialState {
    pub next_val: u32,
}

/// One schema column.
#[derive(Debug)]
pub struct FieldDef {
    pub name: String,
    pub data_type: Option<FieldDataType>,
    pub primary_key: bool,
    pub serial: Option<SerialState>,
}

/// The mathematical shape of a schema column.
pub struct FieldDefV {
    pub name: Seq<char>,
    pub data_type: Option<FieldDataType>,
    pub primary_key: bool,
    pub serial: Option<SerialState>,
}

impl View for FieldDef {
    type V = FieldDefV;

    open spec fn view(&self) -> FieldDefV {
        FieldDefV {
            name: self.name@,
            data_type: self.data_type,
            primary_key: self.primary_key,
            serial: self.serial,
        }
    }
}

impl Clone for FieldDef {
    fn clone(&self) -> (res: FieldDef)
        ensures
            res@ == self@,
    {
        FieldDef {
            name: self.name.clone(),
            data_type: self.data_type,
            primary_key: self.primary_key,
            serial: self.serial,
        }
    }
}

/// A sorted lookup store: each distinct column value maps to the primary
/// keys of the rows holding it, in scan order.
#[derive(Debug)]
pub enum IndexStore {
    Text(Vec<(String, Vec<Value>)>),
    Number(Vec<(IndexNumber, Vec<Value>)>),
    Boolean(Vec<(bool, Vec<Value>)>),
}

/// The mathematical shape of an index store.
pub enum IndexStoreV {
    Text(Seq<(Seq<char>, Seq<ValueV>)>),
    Number(Seq<(IndexNumber, Seq<ValueV>)>),
    Boolean(Seq<(bool, Seq<ValueV>)>),
}

impl View for IndexStore {
    type V = IndexStoreV;

    open spec fn view(&self) -> IndexStoreV {
        match self {
            IndexStore::Text(v) => IndexStoreV::Text(
                v@.map_values(
                    |e: (String, Vec<Value>)| (e.0@, e.1@.map_values(|x: Value| x@)),
                ),
            ),
            IndexStore::Number(v) => IndexStoreV::Number(
                v@.map_values(
                    |e: (IndexNumber, Vec<Value>)| (e.0, e.1@.map_values(|x: Value| x@)),
                ),
            ),
            IndexStore::Boolean(v) => IndexStoreV::Boolean(
                v@.map_values(|e: (bool, Vec<Value>)| (e.0, e.1@.map_values(|x: Value| x@))),
            ),
        }
    }
}

/// One secondary index: a snapshot of one column at build time.
#[derive(Debug)]
pub struct Index {
    pub indexed_column: String,
    pub index_type: FieldDataType,
    pub index_data: IndexStore,
}

/// The mathematical shape of an index.
pub struct IndexV {
    pub indexed_column: Seq<char>,
    pub index_type: FieldDataType,
    pub index_data: IndexStoreV,
}

impl View for Index {
    type V = IndexV;

    open spec fn view(&self) -> IndexV {
        IndexV {
            indexed_column: self.indexed_column@,
            index_type: self.index_type,
            index_data: self.index_data@,
        }
    }
}

/// A table: its name, schema, row map, and indexes.
#[derive(Debug)]
pub struct Table {
    pub name: String,
    pub schema: Vec<FieldDef>,
    pub data: Vec<(Value, Row)>,
    pub indexes: Vec<(String, Index)>,
}

/// The mathematical shape of a table.
pub struct TableV {
    pub name: Seq<char>,
    pub schema: Seq<FieldDefV>,
    pub data: Seq<(ValueV, RowV)>,
    pub indexes: Seq<(Seq<char>, IndexV)>,
}

pub open spec fn data_view(d: Seq<(Value, Row)>) -> Seq<(ValueV, RowV)> {
    d.map_values(|e: (Value, Row)| (e.0@, e.1@))
}

impl View for Table {
    type V = TableV;

    open spec fn view(&self) -> TableV {
        TableV {
            name: self.name@,
            schema: self.schema@.map_values(|f: FieldDef| f@),
            data: data_view(self.data@),
            indexes: self.indexes@.map_values(|e: (String, Index)| (e.0@, e.1@)),
        }
    }
}

pub open spec fn data_has_key(d: Seq<(ValueV, RowV)>, k: ValueV) -> bool {
    exists|i: int| 0 <= i < d.len() && d[i].0 == k
}

/// At most one schema column is the primary key, and SERIAL columns carry
/// their counter state.
pub open spec fn schema_wf(schema: Seq<FieldDefV>) -> bool {
    &&& forall|i: int, j: int|
        0 <= i < j < schema.len() ==> !((#[trigger] schema[i]).primary_key
            && (#[trigger] schema[j]).primary_key)
    &&& forall|i: int|
        0 <= i < schema.len() && (#[trigger] schema[i]).data_type == Some(FieldDataType::SERIAL)
            ==> schema[i].serial is Some
}

/// Every SERIAL counter still has room to advance.
pub open spec fn serial_headroom(schema: Seq<FieldDefV>) -> bool {
    forall|i: int|
        0 <= i < schema.len() && (#[trigger] schema[i]).serial is Some
            ==> schema[i].serial->Some_0.next_val < 0xffff_ffffu32
}

/// Every schema column has a declared type.
pub open spec fn schema_typed(schema: Seq<FieldDefV>) -> bool {
    forall|i: int| 0 <= i < schema.len() ==> (#[trigger] schema[i]).data_type is Some
}

/// Row-map keys are distinct, keys and cells hold normalized numbers, and
/// rows have distinct cell names.
pub open spec fn data_wf(d: Seq<(ValueV, RowV)>) -> bool {
    &&& forall|i: int, j: int| 0 <= i < j < d.len() ==> (#[trigger] d[i]).0 != (#[trigger] d[j]).0
    &&& forall|i: int| 0 <= i < d.len() ==> (#[trigger] d[i]).0.wf()
    &&& forall|i: int| 0 <= i < d.len() ==> row_wf((#[trigger] d[i]).1)
    &&& forall|i: int| 0 <= i < d.len() ==> row_vals_wf((#[trigger] d[i]).1)
}

/// Bucketed entries in a store, counted.
pub open spec fn entries_total<K>(s: Seq<(K, Seq<ValueV>)>) -> nat
    decreases s.len(),
{
    if s.len() == 0 {
        0
    } else {
        entries_total(s.drop_last()) + s.last().1.len()
    }
}

pub open spec fn text_store_sorted(s: Seq<(Seq<char>, Seq<ValueV>)>) -> bool {
    forall|i: int, j: int| 0 <= i < j < s.len() ==> lex_lt((#[trigger] s[i]).0, (#[trigger] s[j]).0)
}

pub open spec fn num_store_sorted(s: Seq<(IndexNumber, Seq<ValueV>)>) -> bool {
    forall|i: int, j: int| 0 <= i < j < s.len() ==> num_lt((#[trigger] s[i]).0, (#[trigger] s[j]).0)
}

/// In a sorted boolean store a false key stands before a true key.
pub open spec fn bool_pair(a: (bool, Seq<ValueV>), b: (bool, Seq<ValueV>)) -> bool {
    !a.0 && b.0
}

pub open spec fn bool_store_sorted(s: Seq<(bool, Seq<ValueV>)>) -> bool {
    forall|i: int, j: int|
        0 <= i < j < s.len() ==> bool_pair(#[trigger] s[i], #[trigger] s[j])
}

/// A store is strictly sorted by its key order, numeric keys are
/// normalized, and its entry count fits a machine word.
pub open spec fn store_wf(st: IndexStoreV) -> bool {
    match st {
        IndexStoreV::Text(s) => text_store_sorted(s) && entries_total(s) <= usize::MAX,
        IndexStoreV::Number(s) => num_store_sorted(s) && entries_total(s) <= usize::MAX && (forall|
            i: int,
        | 0 <= i < s.len() ==> (#[trigger] s[i]).0.wf()),
        IndexStoreV::Boolean(s) => bool_store_sorted(s) && entries_total(s) <= usize::MAX,
    }
}

/// The table invariant every engine operation preserves.
pub open spec fn table_wf(t: TableV) -> bool {
    &&& schema_wf(t.schema)
    &&& data_wf(t.data)
    &&& forall|i: int, j: int|
        0 <= i < j < t.indexes.len() ==> (#[trigger] t.indexes[i]).0 != (#[trigger] t.indexes[j]).0
    &&& forall|i: int| 0 <= i < t.indexes.len() ==> store_wf((#[trigger] t.indexes[i]).1.index_data)
}

/// What each engine operation can report instead of a new table snapshot.
/// An error always means the stored table is left untouched.
#[derive(Clone, Copy, Debug, PartialEq, Eq, Structural)]
pub enum EngineError {
    /// A schema field was given a second type keyword.
    MultipleTypes,
    /// A second schema field was marked KEY.
    MultipleKeys,
    /// ALTER was given too few tokens.
    MissingParameters,
    /// ALTER ADD of a column that already exists.
    ColumnExists,
    /// The named column is not in the schema.
    ColumnNotFound,
    /// ALTER MODIFY to a type the column already has.
    TypeUnchanged,
    /// ALTER MODIFY to an unknown type name.
    InvalidDataType,
    /// ALTER DROP of the primary-key column.
    CannotDropPrimaryKey,
    /// ALTER with an unknown action word.
    UnknownAction,
    /// The indexed column has no declared type.
    ColumnDataMissing,
    /// A row value did not match the index's expected kind.
    IndexTypeMismatch,
    /// INSERT resolved a null primary key.
    MissingKey,
    /// INSERT with a primary key already in use.
    DuplicateKey,
    /// DELETE matched nothing.
    NotFound,
    /// UPDATE without a WHERE marker.
    NoQuery,
    /// UPDATE with an empty change specification.
    NoChanges,
    /// UPDATE assigning to a SERIAL column.
    SerialAssignment,
}


/// Entry counts add across concatenation.
pub proof fn lemma_entries_total_add<K>(a: Seq<(K, Seq<ValueV>)>, b: Seq<(K, Seq<ValueV>)>)
    ensures
        entries_total(a + b) == entries_total(a) + entries_total(b),
    decreases b.len(),
{
    if b.len() == 0 {
        assert(a + b =~= a);
    } else {
        lemma_entries_total_add(a, b.drop_last());
        assert((a + b).drop_last() =~= a + b.drop_last());
        assert((a + b).last() == b.last());
    }
}

pub proof fn lemma_entries_total_singleton<K>(e: (K, Seq<ValueV>))
    ensures
        entries_total(seq![e]) == e.1.len(),
{
    let s = seq![e];
    assert(s.len() == 1);
    assert(s.drop_last() =~= Seq::<(K, Seq<ValueV>)>::empty());
    assert(s.last() == e);
    assert(entries_total(s.drop_last()) == 0);
    assert(entries_total(s) == entries_total(s.drop_last()) + s.last().1.len());
}

fn wf_value(v: &Value) -> (r: bool)
    ensures
        r == v@.wf(),
{
    match v {
        Value::Num(IndexNumber::Float(d)) => {
            if d.scale > 18 {
                return false;
            }
            if d.scale == 0 {
                return true;
            }
            let rem = d.mant % 10;
            proof {
                assert((rem == 0) == ((d.mant as int) % 10 == 0));
            }
            rem != 0
        },
        _ => true,
    }
}

fn check_row(row: &Row) -> (r: bool)
    ensures
        r == (row_wf(row@) && row_vals_wf(row@)),
{
    let n = row.cells.len();
    let mut i: usize = 0;
    while i < n
        invariant
            0 <= i <= n,
            n == row.cells.len(),
            forall|a: int, b: int| 0 <= a < b < i ==> (#[trigger] row@[a]).0 != (
            #[trigger] row@[b]).0,
            forall|a: int| 0 <= a < i ==> (#[trigger] row@[a]).1.wf(),
        decreases n - i,
    {
        proof {
            assert(row@[i as int] == (row.cells@[i as int].0@, row.cells@[i as int].1@));
        }
        if !wf_value(&row.cells[i].1) {
            proof {
                assert(row@.len() == row.cells@.len());
                assert(row@[i as int].1 == row.cells@[i as int].1@);
                assert(!(row@[i as int].1).wf());
                assert(!row_vals_wf(row@));
            }
            return false;
        }
        let mut j: usize = 0;
        while j < i
            invariant
                0 <= j <= i < n,
                n == row.cells.len(),
                forall|a: int| 0 <= a < j ==> (#[trigger] row@[a]).0 != row@[i as int].0,
            decreases i - j,
        {
            proof {
                assert(row@[j as int] == (row.cells@[j as int].0@, row.cells@[j as int].1@));
                assert(row@[i as int] == (row.cells@[i as int].0@, row.cells@[i as int].1@));
            }
            if crate::text::str_eq(row.cells[j].0.as_str(), row.cells[i].0.as_str()) {
                proof {
                    assert(!row_wf(row@));
                }
                return false;
            }
            j = j + 1;
        }
        i = i + 1;
    }
    true
}

proof fn lemma_text_adjacent_pairwise(s: Seq<(Seq<char>, Seq<ValueV>)>)
    requires
        forall|i: int| 0 <= i < s.len() - 1 ==> lex_lt((#[trigger] s[i]).0, s[i + 1].0),
    ensures
        text_store_sorted(s),
{
    assert forall|i: int, j: int| 0 <= i < j < s.len() implies lex_lt(
        (#[trigger] s[i]).0,
        (#[trigger] s[j]).0,
    ) by {
        lemma_text_chain(s, i, j);
    }
}

proof fn lemma_text_chain(s: Seq<(Seq<char>, Seq<ValueV>)>, i: int, j: int)
    requires
        forall|k: int| 0 <= k < s.len() - 1 ==> lex_lt((#[trigger] s[k]).0, s[k + 1].0),
        0 <= i < j < s.len(),
    ensures
        lex_lt(s[i].0, s[j].0),
    decreases j - i,
{
    if j == i + 1 {
    } else {
        lemma_text_chain(s, i, j - 1);
        crate::text::lemma_lex_lt_trans(s[i].0, s[j - 1].0, s[j].0);
    }
}

proof fn lemma_num_adjacent_pairwise(s: Seq<(IndexNumber, Seq<ValueV>)>)
    requires
        forall|i: int| 0 <= i < s.len() - 1 ==> num_lt((#[trigger] s[i]).0, s[i + 1].0),
    ensures
        num_store_sorted(s),
{
    assert forall|i: int, j: int| 0 <= i < j < s.len() implies num_lt(
        (#[trigger] s[i]).0,
        (#[trigger] s[j]).0,
    ) by {
        lemma_num_chain(s, i, j);
    }
}

proof fn lemma_num_chain(s: Seq<(IndexNumber, Seq<ValueV>)>, i: int, j: int)
    requires
        forall|k: int| 0 <= k < s.len() - 1 ==> num_lt((#[trigger] s[k]).0, s[k + 1].0),
        0 <= i < j < s.len(),
    ensures
        num_lt(s[i].0, s[j].0),
    decreases j - i,
{
    if j == i + 1 {
    } else {
        lemma_num_chain(s, i, j - 1);
        crate::num::lemma_num_lt_trans(s[i].0, s[j - 1].0, s[j].0);
    }
}

pub open spec fn bool_adj(s: Seq<(bool, Seq<ValueV>)>, k: int) -> bool {
    !s[k].0 && s[k + 1].0
}

proof fn lemma_bool_adjacent_pairwise(s: Seq<(bool, Seq<ValueV>)>)
    requires
        forall|i: int| 0 <= i < s.len() - 1 ==> #[trigger] bool_adj(s, i),
    ensures
        bool_store_sorted(s),
{
    assert forall|i: int, j: int| 0 <= i < j < s.len() implies bool_pair(
        #[trigger] s[i],
        #[trigger] s[j],
    ) by {
        lemma_bool_chain(s, i, j);
    }
}

proof fn lemma_bool_chain(s: Seq<(bool, Seq<ValueV>)>, i: int, j: int)
    requires
        forall|k: int| 0 <= k < s.len() - 1 ==> #[trigger] bool_adj(s, k),
        0 <= i < j < s.len(),
    ensures
        !s[i].0 && s[j].0,
    decreases j - i,
{
    if j == i + 1 {
        assert(bool_adj(s, i));
    } else {
        lemma_bool_chain(s, i, j - 1);
        assert(bool_adj(s, j - 1));
    }
}

fn check_store(store: &IndexStore) -> (r: bool)
    ensures
        r == store_wf(store@),
{
    match store {
        IndexStore::Text(s) => check_text_store(s),
        IndexStore::Number(s) => check_num_store(s),
        IndexStore::Boolean(s) => check_bool_store(s),
    }
}

#[verifier::loop_isolation(false)]
fn check_text_store(s: &Vec<(String, Vec<Value>)>) -> (r: bool)
    ensures
        ({
            let sv = s@.map_values(
                |e: (String, Vec<Value>)| (e.0@, e.1@.map_values(|x: Value| x@)),
            );
            r == (text_store_sorted(sv) && entries_total(sv) <= usize::MAX)
        }),
{
    {
        {
            let ghost sv = s@.map_values(
                |e: (String, Vec<Value>)| (e.0@, e.1@.map_values(|x: Value| x@)),
            );
            let n = s.len();
            let mut i: usize = 0;
            let mut tot: u128 = 0;
            proof {
                assert(sv.take(0) =~= Seq::<(Seq<char>, Seq<ValueV>)>::empty());
            }
            while i < n
                invariant
                    0 <= i <= n,
                    forall|k: int|
                        0 <= k < i && k + 1 < n ==> lex_lt((#[trigger] sv[k]).0, sv[k + 1].0),
                    tot == entries_total(sv.take(i as int)),
                    tot <= i * 0xffff_ffff_ffff_ffffu64,
                decreases n - i,
            {
                proof {
                    assert(sv[i as int] == (s@[i as int].0@, s@[i as int].1@.map_values(
                        |x: Value| x@,
                    )));
                    assert(sv.take(i + 1).drop_last() =~= sv.take(i as int));
                    assert(sv.take(i + 1).last() == sv[i as int]);
                    assert((i + 1) * 0xffff_ffff_ffff_ffffu64 == i * 0xffff_ffff_ffff_ffffu64
                        + 0xffff_ffff_ffff_ffffu64) by (nonlinear_arith);
                    assert(i * 0xffff_ffff_ffff_ffffu64 <= 0xffff_ffff_ffff_ffffu64
                        * 0xffff_ffff_ffff_ffffu64) by (nonlinear_arith)
                        requires 0 <= i <= 0xffff_ffff_ffff_ffffu64,
                    ;
                }
                if i + 1 < n {
                    proof {
                        assert(sv[i + 1] == (s@[i + 1].0@, s@[i + 1].1@.map_values(
                            |x: Value| x@,
                        )));
                    }
                    if !crate::text::str_lt(s[i].0.as_str(), s[i + 1].0.as_str()) {
                        return false;
                    }
                }
                tot = tot + (s[i].1.len() as u128);
                i = i + 1;
            }
            proof {
                assert(sv.take(n as int) =~= sv);
                if tot <= usize::MAX as u128 {
                    lemma_text_adjacent_pairwise(sv);
                } else {
                    assert(!(entries_total(sv) <= usize::MAX));
                }
            }
            tot <= usize::MAX as u128
        }
    }
}

#[verifier::loop_isolation(false)]
fn check_num_store(s: &Vec<(IndexNumber, Vec<Value>)>) -> (r: bool)
    ensures
        ({
            let sv = s@.map_values(
                |e: (IndexNumber, Vec<Value>)| (e.0, e.1@.map_values(|x: Value| x@)),
            );
            r == (num_store_sorted(sv) && entries_total(sv) <= usize::MAX && (forall|i: int|
                0 <= i < sv.len() ==> (#[trigger] sv[i]).0.wf()))
        }),
{
    {
        {
            let ghost sv = s@.map_values(
                |e: (IndexNumber, Vec<Value>)| (e.0, e.1@.map_values(|x: Value| x@)),
            );
            let n = s.len();
            let mut i: usize = 0;
            let mut tot: u128 = 0;
            proof {
                assert(sv.take(0) =~= Seq::<(IndexNumber, Seq<ValueV>)>::empty());
            }
            while i < n
                invariant
                    0 <= i <= n,
                    forall|k: int|
                        0 <= k < i && k + 1 < n ==> num_lt((#[trigger] sv[k]).0, sv[k + 1].0),
                    forall|k: int| 0 <= k < i ==> (#[trigger] sv[k]).0.wf(),
                    tot == entries_total(sv.take(i as int)),
                    tot <= i * 0xffff_ffff_ffff_ffffu64,
                decreases n - i,
            {
                proof {
                    assert(sv[i as int] == (s@[i as int].0, s@[i as int].1@.map_values(
                        |x: Value| x@,
                    )));
                    assert(sv.take(i + 1).drop_last() =~= sv.take(i as int));
                    assert(sv.take(i + 1).last() == sv[i as int]);
                    assert((i + 1) * 0xffff_ffff_ffff_ffffu64 == i * 0xffff_ffff_ffff_ffffu64
                        + 0xffff_ffff_ffff_ffffu64) by (nonlinear_arith);
                    assert(i * 0xffff_ffff_ffff_ffffu64 <= 0xffff_ffff_ffff_ffffu64
                        * 0xffff_ffff_ffff_ffffu64) by (nonlinear_arith)
                        requires 0 <= i <= 0xffff_ffff_ffff_ffffu64,
                    ;
                }
                if !wf_value(&Value::Num(s[i].0)) {
                    return false;
                }
                if i + 1 < n {
                    proof {
                        assert(sv[i + 1] == (s@[i + 1].0, s@[i + 1].1@.map_values(
                            |x: Value| x@,
                        )));
                    }
                    if !wf_value(&Value::Num(s[i + 1].0)) {
                        return false;
                    }
                    let rk = crate::num::num_cmp(&s[i].0, &s[i + 1].0);
                    if !matches!(rk, crate::num::Rank::Less) {
                        return false;
                    }
                }
                tot = tot + (s[i].1.len() as u128);
                i = i + 1;
            }
            proof {
                assert(sv.take(n as int) =~= sv);
                if tot <= usize::MAX as u128 {
                    lemma_num_adjacent_pairwise(sv);
                }
            }
            tot <= usize::MAX as u128
        }
    }
}

#[verifier::loop_isolation(false)]
fn check_bool_store(s: &Vec<(bool, Vec<Value>)>) -> (r: bool)
    ensures
        ({
            let sv = s@.map_values(
                |e: (bool, Vec<Value>)| (e.0, e.1@.map_values(|x: Value| x@)),
            );
            r == (bool_store_sorted(sv) && entries_total(sv) <= usize::MAX)
        }),
{
    {
        {
            let ghost sv = s@.map_values(
                |e: (bool, Vec<Value>)| (e.0, e.1@.map_values(|x: Value| x@)),
            );
            let n = s.len();
            let mut i: usize = 0;
            let mut tot: u128 = 0;
            proof {
                assert(sv.take(0) =~= Seq::<(bool, Seq<ValueV>)>::empty());
            }
            while i < n
                invariant
                    0 <= i <= n,
                    forall|k: int| 0 <= k < i && k + 1 < n ==> #[trigger] bool_adj(sv, k),
                    tot == entries_total(sv.take(i as int)),
                    tot <= i * 0xffff_ffff_ffff_ffffu64,
                decreases n - i,
            {
                proof {
                    assert(sv[i as int] == (s@[i as int].0, s@[i as int].1@.map_values(
                        |x: Value| x@,
                    )));
                    assert(sv.take(i + 1).drop_last() =~= sv.take(i as int));
                    assert(sv.take(i + 1).last() == sv[i as int]);
                    assert((i + 1) * 0xffff_ffff_ffff_ffffu64 == i * 0xffff_ffff_ffff_ffffu64
                        + 0xffff_ffff_ffff_ffffu64) by (nonlinear_arith);
                    assert(i * 0xffff_ffff_ffff_ffffu64 <= 0xffff_ffff_ffff_ffffu64
                        * 0xffff_ffff_ffff_ffffu64) by (nonlinear_arith)
                        requires 0 <= i <= 0xffff_ffff_ffff_ffffu64,
                    ;
                }
                if i + 1 < n {
                    proof {
                        assert(sv[i + 1] == (s@[i + 1].0, s@[i + 1].1@.map_values(
                            |x: Value| x@,
                        )));
                    }
                    if !(!s[i].0 && s[i + 1].0) {
                        proof {
                            assert(!bool_pair(sv[i as int], sv[i + 1]));
                            assert(!bool_store_sorted(sv));
                        }
                        return false;
                    }
                    proof {
                        assert(bool_adj(sv, i as int));
                    }
                }
                tot = tot + (s[i].1.len() as u128);
                i = i + 1;
            }
            proof {
                assert(sv.take(n as int) =~= sv);
                if tot <= usize::MAX as u128 {
                    lemma_bool_adjacent_pairwise(sv);
                }
            }
            tot <= usize::MAX as u128
        }
    }
}

impl Table {
    /// Decide the table invariant at run time, so a caller holding a
    /// snapshot of unknown provenance can refuse it instead of calling
    /// the engine outside its contracts.
    #[verifier::loop_isolation(false)]
    pub fn check_wf(&self) -> (r: bool)
        ensures
            r == table_wf(self@),
    {
        // schema: at most one primary key, SERIAL columns carry state
        let ns = self.schema.len();
        let mut i: usize = 0;
        let mut seen_pk = false;
        while i < ns
            invariant
                0 <= i <= ns,
                seen_pk == exists|j: int| 0 <= j < i && (#[trigger] self@.schema[j]).primary_key,
                forall|a: int, b: int|
                    0 <= a < b < i ==> !((#[trigger] self@.schema[a]).primary_key && (
                    #[trigger] self@.schema[b]).primary_key),
                forall|a: int|
                    0 <= a < i && (#[trigger] self@.schema[a]).data_type == Some(
                        FieldDataType::SERIAL,
                    ) ==> self@.schema[a].serial is Some,
            decreases ns - i,
        {
            proof {
                assert(self@.schema[i as int] == self.schema@[i as int]@);
            }
            if self.schema[i].primary_key {
                if seen_pk {
                    return false;
                }
                seen_pk = true;
            }
            if matches!(self.schema[i].data_type, Some(FieldDataType::SERIAL))
                && self.schema[i].serial.is_none() {
                return false;
            }
            i = i + 1;
        }
        // rows: distinct well-formed keys, well-formed cells
        let nd = self.data.len();
        let mut k: usize = 0;
        while k < nd
            invariant
                0 <= k <= nd,
                forall|a: int, b: int|
                    0 <= a < b < k ==> (#[trigger] self@.data[a]).0 != (#[trigger] self@.data[b]).0,
                forall|a: int| 0 <= a < k ==> (#[trigger] self@.data[a]).0.wf(),
                forall|a: int|
                    0 <= a < k ==> row_wf((#[trigger] self@.data[a]).1) && row_vals_wf(
                        self@.data[a].1,
                    ),
            decreases nd - k,
        {
            proof {
                assert(self@.data[k as int] == (self.data@[k as int].0@, self.data@[k as int].1@));
            }
            if !wf_value(&self.data[k].0) {
                return false;
            }
            if !check_row(&self.data[k].1) {
                return false;
            }
            let mut j: usize = 0;
            while j < k
                invariant
                    0 <= j <= k < nd,
                    forall|a: int| 0 <= a < j ==> (#[trigger] self@.data[a]).0 != self@.data[k as int].0,
                decreases k - j,
            {
                proof {
                    assert(self@.data[j as int] == (self.data@[j as int].0@, self.data@[j as int].1@));
                }
                if self.data[j].0.eq_value(&self.data[k].0) {
                    return false;
                }
                j = j + 1;
            }
            k = k + 1;
        }
        // indexes: distinct columns, each store sorted and bounded
        let ni = self.indexes.len();
        let mut p: usize = 0;
        while p < ni
            invariant
                0 <= p <= ni,
                forall|a: int, b: int|
                    0 <= a < b < p ==> (#[trigger] self@.indexes[a]).0 != (
                    #[trigger] self@.indexes[b]).0,
                forall|a: int|
                    0 <= a < p ==> store_wf((#[trigger] self@.indexes[a]).1.index_data),
            decreases ni - p,
        {
            proof {
                assert(self@.indexes[p as int] == (self.indexes@[p as int].0@, self.indexes@[p as int].1@));
            }
            if !check_store(&self.indexes[p].1.index_data) {
                return false;
            }
            let mut j: usize = 0;
            while j < p
                invariant
                    0 <= j <= p < ni,
                    forall|a: int|
                        0 <= a < j ==> (#[trigger] self@.indexes[a]).0 != self@.indexes[p as int].0,
                decreases p - j,
            {
                proof {
                    assert(self@.indexes[j as int] == (self.indexes@[j as int].0@, self.indexes@[j as int].1@));
                }
                if crate::text::str_eq(self.indexes[j].0.as_str(), self.indexes[p].0.as_str()) {
                    return false;
                }
                j = j + 1;
            }
            p = p + 1;
        }
        true
    }

    /// Does every schema column carry a declared type (as INSERT needs)?
    pub fn check_schema_typed(&self) -> (r: bool)
        ensures
            r == schema_typed(self@.schema),
    {
        let n = self.schema.len();
        let mut i: usize = 0;
        while i < n
            invariant
                0 <= i <= n,
                n == self.schema@.len(),
                forall|j: int| 0 <= j < i ==> (#[trigger] self@.schema[j]).data_type is Some,
            decreases n - i,
        {
            proof {
                assert(self@.schema[i as int] == self.schema@[i as int]@);
            }
            if self.schema[i].data_type.is_none() {
                return false;
            }
            i = i + 1;
        }
        true
    }

    /// Does every SERIAL counter still have room to advance (as INSERT
    /// needs)?
    pub fn check_serial_headroom(&self) -> (r: bool)
        ensures
            r == serial_headroom(self@.schema),
    {
        let n = self.schema.len();
        let mut i: usize = 0;
        while i < n
            invariant
                0 <= i <= n,
                n == self.schema@.len(),
                forall|j: int|
                    0 <= j < i && (#[trigger] self@.schema[j]).serial is Some
                        ==> self@.schema[j].serial->Some_0.next_val < 0xffff_ffffu32,
            decreases n - i,
        {
            proof {
                assert(self@.schema[i as int] == self.schema@[i as int]@);
            }
            if let Some(st) = self.schema[i].serial {
                if st.next_val >= 0xffff_ffffu32 {
                    return false;
                }
            }
            i = i + 1;
        }
        true
    }
}

} // verus!
