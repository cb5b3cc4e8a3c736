//! Dynamically typed cell values and rows.
//!
//! A cell holds null, a boolean, a number (integer or decimal), or text; a
//! row is an ordered list of named cells. Rows and values are compared
//! structurally — an integer `2` and a decimal `2.0` are different values
//! here, and compare as equal numbers only where clause evaluation and
//! numeric indexes say so.

use vstd::prelude::*;
use crate::num::IndexNumber;
use crate::num::Rank;
use crate::num::num_cmp;
use crate::num::lemma_num_lt_trans;
use crate::num::lemma_num_eq_lt_compat;
use crate::num::num_eq;
use crate::num::num_lt;
use crate::text::lex_lt;
use crate::text::str_lt;
use crate::text::render_decimal;
use crate::text::render_i64;
use crate::text::render_dec;
use crate::text::render_int;
use crate::text::str_eq;

verus! {

/// A cell value.
#[derive(Debug)]
pub enum Value {
    Null,
    Bool(bool),
    Num(IndexNumber),
    Text(String),
}

/// The mathematical shape of a cell value.
pub enum ValueV {
    Null,
    Bool(bool),
    Num(IndexNumber),
    Text(Seq<char>),
}

impl View for Value {
    type V = ValueV;

    open spec fn view(&self) -> ValueV {
        match self {
            Value::Null => ValueV::Null,
            Value::Bool(b) => ValueV::Bool(*b),
            Value::Num(n) => ValueV::Num(*n),
            Value::Text(s) => ValueV::Text(s@),
        }
    }
}

impl ValueV {
    /// Numbers carry a normalized decimal.
    pub open spec fn wf(self) -> bool {
        match self {
            ValueV::Num(n) => n.wf(),
            _ => true,
        }
    }
}

impl Value {
    /// Structural equality of two cell values.
    pub fn eq_value(&self, other: &Value) -> (r: bool)
        ensures
            r == (self@ == other@),
    {
        match (self, other) {
            (Value::Null, Value::Null) => true,
            (Value::Bool(a), Value::Bool(b)) => a == b,
            (Value::Num(a), Value::Num(b)) => a == b,
            (Value::Text(a), Value::Text(b)) => str_eq(a.as_str(), b.as_str()),
            _ => false,
        }
    }
}

impl Clone for Value {
    fn clone(&self) -> (res: Value)
        ensures
            res@ == self@,
    {
        match self {
            Value::Null => Value::Null,
            Value::Bool(b) => Value::Bool(*b),
            Value::Num(n) => Value::Num(*n),
            Value::Text(s) => Value::Text(s.clone()),
        }
    }
}

/// One row: named cells in insertion order, names distinct.
#[derive(Debug)]
pub struct Row {
    pub cells: Vec<(String, Value)>,
}

/// The mathematical shape of a row.
pub type RowV = Seq<(Seq<char>, ValueV)>;

impl View for Row {
    type V = RowV;

    open spec fn view(&self) -> RowV {
        self.cells@.map_values(|c: (String, Value)| (c.0@, c.1@))
    }
}

/// First value stored under `name`, if any.
pub open spec fn row_get(r: RowV, name: Seq<char>) -> Option<ValueV>
    decreases r.len(),
{
    if r.len() == 0 {
        None
    } else if r[0].0 == name {
        Some(r[0].1)
    } else {
        row_get(r.drop_first(), name)
    }
}

/// The row with `name` bound to `v`: the first existing cell is overwritten
/// in place, or a new cell is appended.
pub open spec fn row_set(r: RowV, name: Seq<char>, v: ValueV) -> RowV
    decreases r.len(),
{
    if r.len() == 0 {
        seq![(name, v)]
    } else if r[0].0 == name {
        seq![(name, v)] + r.drop_first()
    } else {
        seq![r[0]] + row_set(r.drop_first(), name, v)
    }
}

/// The row without any cell named `name`.
pub open spec fn row_remove(r: RowV, name: Seq<char>) -> RowV
    decreases r.len(),
{
    if r.len() == 0 {
        r
    } else if r[0].0 == name {
        row_remove(r.drop_first(), name)
    } else {
        seq![r[0]] + row_remove(r.drop_first(), name)
    }
}

/// Cell names are pairwise distinct.
pub open spec fn row_wf(r: RowV) -> bool {
    forall|i: int, j: int| 0 <= i < j < r.len() ==> r[i].0 != r[j].0
}

/// Every cell holds a well-formed value.
pub open spec fn row_vals_wf(r: RowV) -> bool {
    forall|i: int| 0 <= i < r.len() ==> (#[trigger] r[i].1).wf()
}

impl Row {
    pub fn new() -> (r: Row)
        ensures
            r@ == Seq::<(Seq<char>, ValueV)>::empty(),
    {
        let r = Row { cells: Vec::new() };
        proof {
            assert(r@ =~= Seq::<(Seq<char>, ValueV)>::empty());
        }
        r
    }

    /// Look a cell up by name.
    pub fn get(&self, name: &str) -> (r: Option<&Value>)
        ensures
            match r {
                Some(v) => row_get(self@, name@) == Some(v@),
                None => row_get(self@, name@) is None,
            },
    {
        let n = self.cells.len();
        let mut i: usize = 0;
        proof {
            assert(self@.skip(0) =~= self@);
        }
        while i < n
            invariant
                0 <= i <= n,
                n == self.cells.len(),
                row_get(self@, name@) == row_get(self@.skip(i as int), name@),
            decreases n - i,
        {
            proof {
                assert(self@.skip(i as int)[0] == self@[i as int]);
                assert(self@[i as int].0 == self.cells@[i as int].0@);
                assert(self@.skip(i as int).drop_first() =~= self@.skip(i + 1));
            }
            if str_eq(self.cells[i].0.as_str(), name) {
                proof {
                    assert(row_get(self@.skip(i as int), name@) == Some(self@[i as int].1));
                }
                return Some(&self.cells[i].1);
            }
            i = i + 1;
        }
        proof {
            assert(self@.skip(n as int) =~= Seq::<(Seq<char>, ValueV)>::empty());
        }
        None
    }

    /// Bind `name` to `v`, overwriting an existing cell of that name.
    pub fn set(&mut self, name: &str, v: Value)
        ensures
            final(self)@ == row_set(old(self)@, name@, v@),
    {
        let ghost orig = self@;
        let n = self.cells.len();
        let mut i: usize = 0;
        while i < n
            invariant
                0 <= i <= n,
                n == self.cells.len(),
                self@ == orig,
                orig == old(self)@,
                forall|j: int| 0 <= j < i ==> orig[j].0 != name@,
            decreases n - i,
        {
            proof {
                assert(orig[i as int].0 == self.cells@[i as int].0@);
            }
            if str_eq(self.cells[i].0.as_str(), name) {
                let mut nm = String::new();
                nm.append(name);
                self.cells.set(i, (nm, v));
                proof {
                    lemma_row_set_at(orig, name@, v@, i as int);
                    assert(self@ =~= orig.update(i as int, (name@, v@)));
                }
                return ;
            }
            i = i + 1;
        }
        let mut nm = String::new();
        nm.append(name);
        self.cells.push((nm, v));
        proof {
            lemma_row_set_absent(orig, name@, v@);
            assert(self@ =~= orig.push((name@, v@)));
        }
    }

    /// Remove the cell named `name`, if present.
    pub fn remove(&mut self, name: &str)
        requires
            row_wf(old(self)@),
        ensures
            final(self)@ == row_remove(old(self)@, name@),
    {
        let ghost orig = self@;
        let n = self.cells.len();
        let mut i: usize = 0;
        while i < n
            invariant
                0 <= i <= n,
                n == self.cells.len(),
                self@ == orig,
                orig == old(self)@,
                row_wf(orig),
                forall|j: int| 0 <= j < i ==> orig[j].0 != name@,
            decreases n - i,
        {
            proof {
                assert(orig[i as int].0 == self.cells@[i as int].0@);
            }
            if str_eq(self.cells[i].0.as_str(), name) {
                self.cells.remove(i);
                proof {
                    lemma_row_remove_at(orig, name@, i as int);
                    assert(self@ =~= orig.remove(i as int));
                }
                return ;
            }
            i = i + 1;
        }
        proof {
            lemma_row_remove_absent(orig, name@);
        }
    }
}

impl Clone for Row {
    fn clone(&self) -> (res: Row)
        ensures
            res@ == self@,
    {
        let n = self.cells.len();
        let mut cells: Vec<(String, Value)> = Vec::new();
        let mut i: usize = 0;
        while i < n
            invariant
                0 <= i <= n,
                n == self.cells.len(),
                cells@.len() == i,
                forall|j: int| 0 <= j < i ==> #[trigger] cells@[j].0@ == self.cells@[j].0@
                    && cells@[j].1@ == self.cells@[j].1@,
            decreases n - i,
        {
            let name = self.cells[i].0.clone();
            let v = self.cells[i].1.clone();
            cells.push((name, v));
            i = i + 1;
        }
        let res = Row { cells };
        proof {
            assert(res@ =~= self@);
        }
        res
    }
}

proof fn lemma_row_set_at(r: RowV, name: Seq<char>, v: ValueV, i: int)
    requires
        0 <= i < r.len(),
        r[i].0 == name,
        forall|j: int| 0 <= j < i ==> r[j].0 != name,
    ensures
        row_set(r, name, v) == r.update(i, (name, v)),
    decreases i,
{
    if i == 0 {
        assert(row_set(r, name, v) =~= r.update(0, (name, v)));
    } else {
        assert(forall|j: int| 0 <= j < i - 1 ==> r.drop_first()[j].0 != name);
        lemma_row_set_at(r.drop_first(), name, v, i - 1);
        assert(seq![r[0]] + r.drop_first().update(i - 1, (name, v)) =~= r.update(i, (name, v)));
    }
}

proof fn lemma_row_set_absent(r: RowV, name: Seq<char>, v: ValueV)
    requires
        forall|j: int| 0 <= j < r.len() ==> r[j].0 != name,
    ensures
        row_set(r, name, v) == r.push((name, v)),
    decreases r.len(),
{
    if r.len() == 0 {
        assert(row_set(r, name, v) =~= r.push((name, v)));
    } else {
        lemma_row_set_absent(r.drop_first(), name, v);
        assert(seq![r[0]] + r.drop_first().push((name, v)) =~= r.push((name, v)));
    }
}

proof fn lemma_row_remove_at(r: RowV, name: Seq<char>, i: int)
    requires
        0 <= i < r.len(),
        r[i].0 == name,
        forall|j: int| 0 <= j < i ==> r[j].0 != name,
        forall|a: int, b: int| 0 <= a < b < r.len() ==> r[a].0 != r[b].0,
    ensures
        row_remove(r, name) == r.remove(i),
    decreases i,
{
    if i == 0 {
        assert(forall|j: int| 0 <= j < r.drop_first().len() ==> r.drop_first()[j].0 != name);
        lemma_row_remove_absent(r.drop_first(), name);
        assert(row_remove(r, name) =~= r.remove(0));
    } else {
        assert(forall|j: int| 0 <= j < i - 1 ==> r.drop_first()[j].0 != name);
        assert(forall|a: int, b: int|
            0 <= a < b < r.drop_first().len() ==> r.drop_first()[a].0 != r.drop_first()[b].0);
        lemma_row_remove_at(r.drop_first(), name, i - 1);
        assert(seq![r[0]] + r.drop_first().remove(i - 1) =~= r.remove(i));
    }
}

proof fn lemma_row_remove_absent(r: RowV, name: Seq<char>)
    requires
        forall|j: int| 0 <= j < r.len() ==> r[j].0 != name,
    ensures
        row_remove(r, name) == r,
    decreases r.len(),
{
    if r.len() > 0 {
        lemma_row_remove_absent(r.drop_first(), name);
        assert(seq![r[0]] + r.drop_first() =~= r);
    }
}

/// Rank of each value kind in the cross-type key order.
pub open spec fn kind_rank(v: ValueV) -> int {
    match v {
        ValueV::Null => 0,
        ValueV::Bool(_) => 1,
        ValueV::Num(_) => 2,
        ValueV::Text(_) => 3,
    }
}

/// Total strict order on key values: by kind first, then booleans as
/// `false < true`, numbers by numeric value (an integer stands before the
/// equal-valued decimal), text lexicographically.
pub open spec fn key_lt(a: ValueV, b: ValueV) -> bool {
    if kind_rank(a) != kind_rank(b) {
        kind_rank(a) < kind_rank(b)
    } else {
        match (a, b) {
            (ValueV::Bool(x), ValueV::Bool(y)) => !x && y,
            (ValueV::Num(x), ValueV::Num(y)) => num_lt(x, y) || (num_eq(x, y) && x is Int
                && y is Float),
            (ValueV::Text(x), ValueV::Text(y)) => lex_lt(x, y),
            _ => false,
        }
    }
}


/// The text a value displays as: null and booleans as keywords, numbers in
/// decimal notation, text wrapped in double quotes.
pub open spec fn json_text(v: ValueV) -> Seq<char> {
    match v {
        ValueV::Null => "null"@,
        ValueV::Bool(b) => if b {
            "true"@
        } else {
            "false"@
        },
        ValueV::Num(IndexNumber::Int(k)) => render_int(k as int),
        ValueV::Num(IndexNumber::Float(d)) => render_dec(d),
        ValueV::Text(s) => seq!['"'] + s + seq!['"'],
    }
}

impl Value {
    /// Write a value out as display text.
    pub fn render_json(&self) -> (r: String)
        requires
            self@.wf(),
        ensures
            r@ == json_text(self@),
    {
        match self {
            Value::Null => {
                proof {
                    reveal_strlit("null");
                }
                let mut s = String::new();
                s.append("null");
                proof {
                    assert(s@ =~= "null"@);
                }
                s
            },
            Value::Bool(b) => {
                proof {
                    reveal_strlit("true");
                    reveal_strlit("false");
                }
                let mut s = String::new();
                if *b {
                    s.append("true");
                    proof {
                        assert(s@ =~= "true"@);
                    }
                } else {
                    s.append("false");
                    proof {
                        assert(s@ =~= "false"@);
                    }
                }
                s
            },
            Value::Num(IndexNumber::Int(k)) => render_i64(*k),
            Value::Num(IndexNumber::Float(d)) => render_decimal(d),
            Value::Text(t) => {
                proof {
                    reveal_strlit("\"");
                }
                let mut s = String::new();
                s.append("\"");
                s.append(t.as_str());
                s.append("\"");
                proof {
                    assert(s@ =~= seq!['"'] + t@ + seq!['"']);
                }
                s
            },
        }
    }
}

/// Compare two key values in the cross-type total order.
pub fn key_lt_exec(a: &Value, b: &Value) -> (r: bool)
    requires
        a@.wf(),
        b@.wf(),
    ensures
        r == key_lt(a@, b@),
{
    match (a, b) {
        (Value::Null, Value::Null) => false,
        (Value::Null, _) => true,
        (Value::Bool(_), Value::Null) => false,
        (Value::Bool(x), Value::Bool(y)) => !*x && *y,
        (Value::Bool(_), _) => true,
        (Value::Num(_), Value::Null) => false,
        (Value::Num(_), Value::Bool(_)) => false,
        (Value::Num(x), Value::Num(y)) => {
            match num_cmp(x, y) {
                Rank::Less => true,
                Rank::Greater => false,
                Rank::Equal => matches!(x, IndexNumber::Int(_)) && matches!(
                    y,
                    IndexNumber::Float(_),
                ),
            }
        },
        (Value::Num(_), Value::Text(_)) => true,
        (Value::Text(x), Value::Text(y)) => str_lt(x.as_str(), y.as_str()),
        (Value::Text(_), _) => false,
    }
}

/// Setting a cell keeps names distinct and well-formed values well formed.
pub proof fn lemma_row_set_preserves_wf(r: RowV, name: Seq<char>, v: ValueV)
    requires
        row_wf(r),
    ensures
        row_wf(row_set(r, name, v)),
        row_vals_wf(r) && v.wf() ==> row_vals_wf(row_set(r, name, v)),
        forall|j: int|
            0 <= j < row_set(r, name, v).len() ==> (#[trigger] row_set(r, name, v)[j]).0 == name
                || exists|l: int| 0 <= l < r.len() && r[l].0 == row_set(r, name, v)[j].0,
    decreases r.len(),
{
    let out = row_set(r, name, v);
    if r.len() == 0 {
    } else if r[0].0 == name {
        assert(out =~= seq![(name, v)] + r.drop_first());
    } else {
        assert(forall|a: int, b: int|
            0 <= a < b < r.drop_first().len() ==> (#[trigger] r.drop_first()[a]).0 != (
            #[trigger] r.drop_first()[b]).0);
        lemma_row_set_preserves_wf(r.drop_first(), name, v);
        let ri = row_set(r.drop_first(), name, v);
        assert(out =~= seq![r[0]] + ri);
        assert forall|a: int, b: int| 0 <= a < b < out.len() implies (#[trigger] out[a]).0 != (
        #[trigger] out[b]).0 by {
            if a == 0 {
                assert(out[b] == ri[b - 1]);
                if ri[b - 1].0 == name {
                } else {
                    let l = choose|l: int|
                        0 <= l < r.drop_first().len() && r.drop_first()[l].0 == ri[b - 1].0;
                    assert(r[l + 1].0 == ri[b - 1].0);
                }
            } else {
                assert(out[a] == ri[a - 1] && out[b] == ri[b - 1]);
            }
        }
        if row_vals_wf(r) && v.wf() {
            assert(row_vals_wf(r.drop_first())) by {
                assert(forall|l: int|
                    0 <= l < r.drop_first().len() ==> (#[trigger] r.drop_first()[l]).1 == r[l
                        + 1].1);
            }
            assert forall|j: int| 0 <= j < out.len() implies (#[trigger] out[j].1).wf() by {
                if j > 0 {
                    assert(out[j] == ri[j - 1]);
                }
            }
        }
    }
}

/// Removing a cell keeps names distinct and well-formed values well formed.
pub proof fn lemma_row_remove_preserves_wf(r: RowV, name: Seq<char>)
    requires
        row_wf(r),
    ensures
        row_wf(row_remove(r, name)),
        row_vals_wf(r) ==> row_vals_wf(row_remove(r, name)),
        forall|j: int|
            0 <= j < row_remove(r, name).len() ==> exists|l: int|
                0 <= l < r.len() && r[l] == #[trigger] row_remove(r, name)[j],
    decreases r.len(),
{
    let out = row_remove(r, name);
    if r.len() == 0 {
    } else {
        assert(forall|a: int, b: int|
            0 <= a < b < r.drop_first().len() ==> (#[trigger] r.drop_first()[a]).0 != (
            #[trigger] r.drop_first()[b]).0);
        assert(forall|l: int|
            0 <= l < r.drop_first().len() ==> (#[trigger] r.drop_first()[l]) == r[l + 1]);
        lemma_row_remove_preserves_wf(r.drop_first(), name);
        let ri = row_remove(r.drop_first(), name);
        if r[0].0 == name {
        } else {
            assert(out =~= seq![r[0]] + ri);
            assert forall|a: int, b: int| 0 <= a < b < out.len() implies (#[trigger] out[a]).0
                != (#[trigger] out[b]).0 by {
                if a == 0 {
                    assert(out[b] == ri[b - 1]);
                    let l = choose|l: int|
                        0 <= l < r.drop_first().len() && r.drop_first()[l] == ri[b - 1];
                    assert(r[l + 1] == ri[b - 1]);
                } else {
                    assert(out[a] == ri[a - 1] && out[b] == ri[b - 1]);
                }
            }
            if row_vals_wf(r) {
                assert(row_vals_wf(r.drop_first()));
                assert forall|j: int| 0 <= j < out.len() implies (#[trigger] out[j].1).wf() by {
                    if j > 0 {
                        assert(out[j] == ri[j - 1]);
                    } else {
                        assert(out[0] == r[0]);
                    }
                }
            }
        }
    }
}


/// The key order never relates a value to itself.
pub proof fn lemma_key_lt_irrefl(a: ValueV)
    ensures
        !key_lt(a, a),
{
    match a {
        ValueV::Text(x) => {
            crate::text::lemma_lex_lt_irrefl(x);
        },
        _ => {},
    }
}

/// The key order chains.
pub proof fn lemma_key_lt_trans(a: ValueV, b: ValueV, c: ValueV)
    requires
        key_lt(a, b),
        key_lt(b, c),
    ensures
        key_lt(a, c),
{
    if kind_rank(a) == kind_rank(b) && kind_rank(b) == kind_rank(c) {
        match (a, b, c) {
            (ValueV::Num(x), ValueV::Num(y), ValueV::Num(z)) => {
                if num_lt(x, y) && num_lt(y, z) {
                    lemma_num_lt_trans(x, y, z);
                } else if num_lt(x, y) && num_eq(y, z) {
                    lemma_num_eq_lt_compat(y, z, x);
                } else if num_eq(x, y) && num_lt(y, z) {
                    lemma_num_eq_lt_compat(x, y, z);
                } else {
                    // two representation tie-breaks cannot chain: the middle
                    // value would have to be both decimal and integer
                    assert(false);
                }
            },
            (ValueV::Text(x), ValueV::Text(y), ValueV::Text(z)) => {
                crate::text::lemma_lex_lt_trans(x, y, z);
            },
            _ => {},
        }
    }
}

/// Setting a cell makes it readable back.
pub proof fn lemma_row_set_get(r: RowV, name: Seq<char>, v: ValueV)
    ensures
        row_get(row_set(r, name, v), name) == Some(v),
    decreases r.len(),
{
    if r.len() > 0 && r[0].0 != name {
        lemma_row_set_get(r.drop_first(), name, v);
        assert((seq![r[0]] + row_set(r.drop_first(), name, v)).drop_first() =~= row_set(
            r.drop_first(),
            name,
            v,
        ));
    }
}

} // verus!
