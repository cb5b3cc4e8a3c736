//! An earlier query surface kept alongside the main one: it parses the
//! same SELECT/FROM/WHERE token grammar but starts outside any
//! accumulator (tokens before the first keyword are dropped), reads
//! unknown operators as inert, sizes integer literals at 32 bits, and
//! evaluates against a string-keyed store. Ordered comparisons here read
//! the stored value as text and compare it numerically against the
//! literal; any other pairing is false.

use vstd::prelude::*;
use crate::num::Decimal;
use crate::num::IndexNumber;
use crate::num::Rank;
use crate::num::num_cmp;
use crate::num::rank_of;
use crate::text::dec_of;
use crate::text::dec_ok;
use crate::text::i64_ok;
use crate::text::in_i32_range;
use crate::text::int_val;
use crate::text::parse_bool;
use crate::text::parse_decimal;
use crate::text::parse_i64;
use crate::text::str_eq;
use crate::value::Row;
use crate::value::RowV;
use crate::value::Value;
use crate::value::ValueV;
use crate::value::row_get;
use crate::value::row_vals_wf;

verus! {

#[derive(Clone, Copy, Debug, PartialEq, Eq, Structural)]
#[allow(non_camel_case_types)]
pub enum Connector {
    AND,
    OR,
}

/// The comparison a clause applies; an unrecognized operator token is
/// kept, inert, and matches nothing.
#[derive(Clone, Copy, Debug, PartialEq, Eq, Structural)]
pub enum Condition {
    Equals,
    NotEquals,
    GreaterThan,
    LessThan,
    Invalid,
}

/// A right-hand literal; integers are sized at 32 bits here.
#[derive(Debug)]
pub enum RightHandType {
    Str(String),
    Integer(i32),
    Float(Decimal),
    Boolean(bool),
}

pub enum RightHandTypeV {
    Str(Seq<char>),
    Integer(i32),
    Float(Decimal),
    Boolean(bool),
}

impl View for RightHandType {
    type V = RightHandTypeV;

    open spec fn view(&self) -> RightHandTypeV {
        match self {
            RightHandType::Str(s) => RightHandTypeV::Str(s@),
            RightHandType::Integer(i) => RightHandTypeV::Integer(*i),
            RightHandType::Float(d) => RightHandTypeV::Float(*d),
            RightHandType::Boolean(b) => RightHandTypeV::Boolean(*b),
        }
    }
}

#[derive(Debug)]
pub struct WhereClause {
    pub left_hand: String,
    pub operator: Condition,
    pub right_hand: RightHandType,
    pub connector: Option<Connector>,
}

pub struct WhereClauseV {
    pub left_hand: Seq<char>,
    pub operator: Condition,
    pub right_hand: RightHandTypeV,
    pub connector: Option<Connector>,
}

impl View for WhereClause {
    type V = WhereClauseV;

    open spec fn view(&self) -> WhereClauseV {
        WhereClauseV {
            left_hand: self.left_hand@,
            operator: self.operator,
            right_hand: self.right_hand@,
            connector: self.connector,
        }
    }
}

impl WhereClauseV {
    pub open spec fn wf(self) -> bool {
        match self.right_hand {
            RightHandTypeV::Float(d) => d.wf(),
            _ => true,
        }
    }
}

#[derive(Debug)]
pub struct Query {
    pub select: Vec<String>,
    pub from: String,
    pub where_clause: Option<Vec<WhereClause>>,
}

pub struct QueryV {
    pub select: Seq<Seq<char>>,
    pub from: Seq<char>,
    pub where_clause: Option<Seq<WhereClauseV>>,
}

impl View for Query {
    type V = QueryV;

    open spec fn view(&self) -> QueryV {
        QueryV {
            select: self.select@.map_values(|s: String| s@),
            from: self.from@,
            where_clause: match &self.where_clause {
                Some(cs) => Some(cs@.map_values(|c: WhereClause| c@)),
                None => None,
            },
        }
    }
}

pub open spec fn clauses_wf(cs: Seq<WhereClauseV>) -> bool {
    forall|i: int| 0 <= i < cs.len() ==> (#[trigger] cs[i]).wf()
}

impl QueryV {
    pub open spec fn wf(self) -> bool {
        match self.where_clause {
            Some(cs) => cs.len() >= 1 && clauses_wf(cs),
            None => true,
        }
    }
}

pub open spec fn literal_of(t: Seq<char>) -> RightHandTypeV {
    if i64_ok(t) && in_i32_range(int_val(t)) {
        RightHandTypeV::Integer(int_val(t) as i32)
    } else if dec_ok(t) {
        RightHandTypeV::Float(dec_of(t))
    } else if t == "true"@ {
        RightHandTypeV::Boolean(true)
    } else if t == "false"@ {
        RightHandTypeV::Boolean(false)
    } else {
        RightHandTypeV::Str(t)
    }
}

pub open spec fn op_of(t: Option<Seq<char>>) -> Condition {
    match t {
        Some(s) => if s == "="@ {
            Condition::Equals
        } else if s == "!="@ {
            Condition::NotEquals
        } else if s == ">"@ {
            Condition::GreaterThan
        } else if s == "<"@ {
            Condition::LessThan
        } else {
            Condition::Invalid
        },
        None => Condition::Invalid,
    }
}

pub open spec fn clause_of(toks: Seq<Seq<char>>) -> WhereClauseV {
    let conn: Option<Connector> = if toks.len() > 0 && toks[0] == "AND"@ {
        Some(Connector::AND)
    } else if toks.len() > 0 && toks[0] == "OR"@ {
        Some(Connector::OR)
    } else {
        None
    };
    let rest = if conn is Some {
        toks.drop_first()
    } else {
        toks
    };
    WhereClauseV {
        left_hand: if rest.len() > 0 {
            rest[0]
        } else {
            Seq::empty()
        },
        operator: op_of(
            if rest.len() > 1 {
                Some(rest[1])
            } else {
                None
            },
        ),
        right_hand: if rest.len() > 2 {
            literal_of(rest[2])
        } else {
            RightHandTypeV::Str(Seq::empty())
        },
        connector: conn,
    }
}

/// Which accumulator is current; before the first keyword there is none,
/// and stray tokens are dropped.
#[derive(Clone, Copy, Debug, PartialEq, Eq, Structural)]
pub enum TokenMode {
    MNone,
    MSelect,
    MFrom,
    MWhere,
}

pub struct BuildState {
    pub sel: Seq<Seq<char>>,
    pub from: Seq<Seq<char>>,
    pub done: Seq<WhereClauseV>,
    pub buf: Seq<Seq<char>>,
    pub mode: TokenMode,
}

pub open spec fn flush(st: BuildState) -> BuildState {
    if st.buf.len() > 0 {
        BuildState { done: st.done.push(clause_of(st.buf)), buf: Seq::empty(), ..st }
    } else {
        st
    }
}

pub open spec fn buf_has_connector(buf: Seq<Seq<char>>) -> bool {
    exists|i: int| 0 <= i < buf.len() && (buf[i] == "AND"@ || buf[i] == "OR"@)
}

pub open spec fn pre_flush(st: BuildState) -> BuildState {
    if st.buf.len() > 3 {
        flush(st)
    } else if st.buf.len() > 2 && !buf_has_connector(st.buf) {
        flush(st)
    } else {
        st
    }
}

pub open spec fn bq_step(st0: BuildState, tok: Seq<char>) -> BuildState {
    let st = pre_flush(st0);
    if tok == "SELECT"@ {
        BuildState { mode: TokenMode::MSelect, ..st }
    } else if tok == "FROM"@ {
        BuildState { mode: TokenMode::MFrom, ..st }
    } else if tok == "WHERE"@ {
        BuildState { mode: TokenMode::MWhere, ..st }
    } else if tok == "AND"@ || tok == "OR"@ {
        let st2 = flush(st);
        BuildState { buf: seq![tok], ..st2 }
    } else {
        match st.mode {
            TokenMode::MNone => st,
            TokenMode::MSelect => BuildState { sel: st.sel.push(tok), ..st },
            TokenMode::MFrom => BuildState { from: st.from.push(tok), ..st },
            TokenMode::MWhere => BuildState { buf: st.buf.push(tok), ..st },
        }
    }
}

pub open spec fn bq_init() -> BuildState {
    BuildState {
        sel: Seq::empty(),
        from: Seq::empty(),
        done: Seq::empty(),
        buf: Seq::empty(),
        mode: TokenMode::MNone,
    }
}

pub open spec fn bq_run(toks: Seq<Seq<char>>, init: BuildState) -> BuildState
    decreases toks.len(),
{
    if toks.len() == 0 {
        init
    } else {
        bq_step(bq_run(toks.drop_last(), init), toks.last())
    }
}

pub open spec fn join_all(s: Seq<Seq<char>>) -> Seq<char>
    decreases s.len(),
{
    if s.len() == 0 {
        Seq::empty()
    } else {
        join_all(s.drop_last()) + s.last()
    }
}

pub open spec fn spec_build_query(toks: Seq<Seq<char>>) -> QueryV {
    let st = flush(bq_run(toks, bq_init()));
    QueryV {
        select: st.sel,
        from: join_all(st.from),
        where_clause: if st.done.len() == 0 {
            None
        } else {
            Some(st.done)
        },
    }
}

fn infer_literal(t: &str) -> (r: RightHandType)
    ensures
        r@ == literal_of(t@),
        (match r@ {
            RightHandTypeV::Float(d) => d.wf(),
            _ => true,
        }),
{
    if let Some(v) = parse_i64(t) {
        if -2147483648i64 <= v && v <= 2147483647i64 {
            return RightHandType::Integer(v as i32);
        }
    }
    if let Some(d) = parse_decimal(t) {
        return RightHandType::Float(d);
    }
    if let Some(b) = parse_bool(t) {
        proof {
            reveal_strlit("true");
            reveal_strlit("false");
        }
        return RightHandType::Boolean(b);
    }
    let mut s = String::new();
    s.append(t);
    RightHandType::Str(s)
}

fn build_where_clause(where_tokens: &Vec<String>) -> (r: WhereClause)
    ensures
        r@ == clause_of(where_tokens@.map_values(|s: String| s@)),
        r@.wf(),
{
    let ghost toks = where_tokens@.map_values(|s: String| s@);
    let n = where_tokens.len();
    let mut start: usize = 0;
    let mut connector: Option<Connector> = None;
    if n > 0 {
        if str_eq(where_tokens[0].as_str(), "AND") {
            connector = Some(Connector::AND);
            start = 1;
        } else if str_eq(where_tokens[0].as_str(), "OR") {
            connector = Some(Connector::OR);
            start = 1;
        }
    }
    let left_hand: String = if start < n {
        where_tokens[start].clone()
    } else {
        String::new()
    };
    let operator: Condition = if start + 1 < n {
        let t = where_tokens[start + 1].as_str();
        if str_eq(t, "=") {
            Condition::Equals
        } else if str_eq(t, "!=") {
            Condition::NotEquals
        } else if str_eq(t, ">") {
            Condition::GreaterThan
        } else if str_eq(t, "<") {
            Condition::LessThan
        } else {
            Condition::Invalid
        }
    } else {
        Condition::Invalid
    };
    let right_hand: RightHandType = if start + 2 < n {
        infer_literal(where_tokens[start + 2].as_str())
    } else {
        RightHandType::Str(String::new())
    };
    let r = WhereClause { left_hand, operator, right_hand, connector };
    proof {
        let rest = if connector is Some {
            toks.drop_first()
        } else {
            toks
        };
        assert(rest =~= toks.skip(start as int));
        if start < n {
            assert(rest[0] == toks[start as int]);
        }
        if start + 1 < n {
            assert(rest[1] == toks[start + 1]);
        }
        if start + 2 < n {
            assert(rest[2] == toks[start + 2]);
        }
    }
    r
}

fn finalize_where_clause(temp_where_tokens: &mut Vec<String>, where_tokens: &mut Vec<WhereClause>)
    ensures
        old(temp_where_tokens)@.len() > 0 ==> ({
            &&& final(where_tokens)@.map_values(|c: WhereClause| c@) == old(
                where_tokens,
            )@.map_values(|c: WhereClause| c@).push(
                clause_of(old(temp_where_tokens)@.map_values(|s: String| s@)),
            )
            &&& final(temp_where_tokens)@.len() == 0
            &&& clause_of(old(temp_where_tokens)@.map_values(|s: String| s@)).wf()
        }),
        old(temp_where_tokens)@.len() == 0 ==> ({
            &&& final(where_tokens)@ == old(where_tokens)@
            &&& final(temp_where_tokens)@ == old(temp_where_tokens)@
        }),
{
    if temp_where_tokens.len() > 0 {
        let c = build_where_clause(temp_where_tokens);
        temp_where_tokens.clear();
        where_tokens.push(c);
        proof {
            assert(final(where_tokens)@.map_values(|c: WhereClause| c@) =~= old(
                where_tokens,
            )@.map_values(|c: WhereClause| c@).push(c@));
        }
    }
}

fn has_connector(buf: &Vec<String>) -> (r: bool)
    ensures
        r == buf_has_connector(buf@.map_values(|s: String| s@)),
{
    let n = buf.len();
    let mut i: usize = 0;
    while i < n
        invariant
            0 <= i <= n,
            n == buf.len(),
            forall|j: int|
                0 <= j < i ==> !((#[trigger] buf@[j])@ == "AND"@ || buf@[j]@ == "OR"@),
        decreases n - i,
    {
        proof {
            assert(buf@.map_values(|s: String| s@)[i as int] == buf@[i as int]@);
        }
        if str_eq(buf[i].as_str(), "AND") || str_eq(buf[i].as_str(), "OR") {
            return true;
        }
        i = i + 1;
    }
    false
}

/// Parse tokens into a query; tokens before the first keyword fall away.
pub fn build_query(query_tokens: Vec<String>) -> (q: Query)
    ensures
        q@ == spec_build_query(query_tokens@.map_values(|s: String| s@)),
        q@.wf(),
{
    let ghost toks = query_tokens@.map_values(|s: String| s@);
    let mut select_tokens: Vec<String> = Vec::new();
    let mut from_tokens: Vec<String> = Vec::new();
    let mut where_tokens: Vec<WhereClause> = Vec::new();
    let mut temp_where_tokens: Vec<String> = Vec::new();
    let mut mode = TokenMode::MNone;
    let n = query_tokens.len();
    let mut i: usize = 0;
    proof {
        assert(toks.take(0) =~= Seq::<Seq<char>>::empty());
    }
    while i < n
        invariant
            0 <= i <= n,
            n == query_tokens.len(),
            toks == query_tokens@.map_values(|s: String| s@),
            ({
                let st = bq_run(toks.take(i as int), bq_init());
                &&& select_tokens@.map_values(|s: String| s@) == st.sel
                &&& from_tokens@.map_values(|s: String| s@) == st.from
                &&& where_tokens@.map_values(|c: WhereClause| c@) == st.done
                &&& temp_where_tokens@.map_values(|s: String| s@) == st.buf
                &&& mode == st.mode
            }),
            clauses_wf(where_tokens@.map_values(|c: WhereClause| c@)),
        decreases n - i,
    {
        proof {
            assert(toks.take(i + 1).drop_last() =~= toks.take(i as int));
            assert(toks.take(i + 1).last() == toks[i as int]);
            assert(toks[i as int] == query_tokens@[i as int]@);
        }
        if temp_where_tokens.len() > 3 {
            finalize_where_clause(&mut temp_where_tokens, &mut where_tokens);
        } else if temp_where_tokens.len() > 2 && !has_connector(&temp_where_tokens) {
            finalize_where_clause(&mut temp_where_tokens, &mut where_tokens);
        }
        let q = &query_tokens[i];
        if str_eq(q.as_str(), "SELECT") {
            mode = TokenMode::MSelect;
        } else if str_eq(q.as_str(), "FROM") {
            mode = TokenMode::MFrom;
        } else if str_eq(q.as_str(), "WHERE") {
            mode = TokenMode::MWhere;
        } else if str_eq(q.as_str(), "AND") || str_eq(q.as_str(), "OR") {
            finalize_where_clause(&mut temp_where_tokens, &mut where_tokens);
            temp_where_tokens.push(q.clone());
            proof {
                assert(temp_where_tokens@.map_values(|s: String| s@) =~= seq![toks[i as int]]);
            }
        } else {
            match mode {
                TokenMode::MNone => {},
                TokenMode::MSelect => {
                    select_tokens.push(q.clone());
                    proof {
                        assert(select_tokens@.map_values(|s: String| s@) =~= bq_run(
                            toks.take(i as int),
                            bq_init(),
                        ).sel.push(toks[i as int]));
                    }
                },
                TokenMode::MFrom => {
                    from_tokens.push(q.clone());
                    proof {
                        assert(from_tokens@.map_values(|s: String| s@) =~= bq_run(
                            toks.take(i as int),
                            bq_init(),
                        ).from.push(toks[i as int]));
                    }
                },
                TokenMode::MWhere => {
                    let ghost pre = temp_where_tokens@.map_values(|s: String| s@);
                    temp_where_tokens.push(q.clone());
                    proof {
                        assert(temp_where_tokens@.map_values(|s: String| s@) =~= pre.push(
                            toks[i as int],
                        ));
                    }
                },
            }
        }
        i = i + 1;
    }
    proof {
        assert(toks.take(n as int) =~= toks);
    }
    finalize_where_clause(&mut temp_where_tokens, &mut where_tokens);
    let mut from = String::new();
    let m = from_tokens.len();
    let mut k: usize = 0;
    while k < m
        invariant
            0 <= k <= m,
            m == from_tokens.len(),
            from@ == join_all(from_tokens@.map_values(|s: String| s@).take(k as int)),
        decreases m - k,
    {
        proof {
            let fr = from_tokens@.map_values(|s: String| s@);
            assert(fr.take(k + 1).drop_last() =~= fr.take(k as int));
            assert(fr.take(k + 1).last() == from_tokens@[k as int]@);
        }
        from.append(from_tokens[k].as_str());
        k = k + 1;
    }
    proof {
        let fr = from_tokens@.map_values(|s: String| s@);
        assert(fr.take(m as int) =~= fr);
    }
    let where_clause = if where_tokens.len() == 0 {
        None
    } else {
        Some(where_tokens)
    };
    Query { select: select_tokens, from, where_clause }
}

/// One clause against one entry of the string-keyed store. Equality is
/// structural; ordered comparisons parse a text cell as a number and
/// compare it against a numeric literal, and are false for every other
/// pairing.
pub open spec fn spec_eval_clause(row: RowV, c: WhereClauseV) -> bool {
    let left = match row_get(row, c.left_hand) {
        Some(v) => v,
        None => ValueV::Null,
    };
    let right: ValueV = match c.right_hand {
        RightHandTypeV::Integer(i) => ValueV::Num(IndexNumber::Int(i as i64)),
        RightHandTypeV::Float(d) => ValueV::Num(IndexNumber::Float(d)),
        RightHandTypeV::Boolean(b) => ValueV::Bool(b),
        RightHandTypeV::Str(s) => ValueV::Text(s),
    };
    match c.operator {
        Condition::Equals => left == right,
        Condition::NotEquals => left != right,
        Condition::GreaterThan => spec_compare_gt(left, right, true),
        Condition::LessThan => spec_compare_gt(left, right, false),
        Condition::Invalid => false,
    }
}

/// Text-to-number comparison: the stored text must itself read as a
/// number, and the literal must be numeric.
pub open spec fn spec_compare_gt(left: ValueV, right: ValueV, greater: bool) -> bool {
    match (left, right) {
        (ValueV::Text(s), ValueV::Num(r)) => {
            let ln: Option<IndexNumber> = if i64_ok(s) {
                Some(IndexNumber::Int(int_val(s) as i64))
            } else if dec_ok(s) {
                Some(IndexNumber::Float(dec_of(s)))
            } else {
                None
            };
            match ln {
                Some(l) => if greater {
                    rank_of(l, r) is Greater
                } else {
                    rank_of(l, r) is Less
                },
                None => false,
            }
        },
        _ => false,
    }
}

fn evaluate_clause(data: &(String, Row), clause: &WhereClause) -> (r: bool)
    requires
        row_vals_wf(data.1@),
        clause@.wf(),
    ensures
        r == spec_eval_clause(data.1@, clause@),
{
    let left_opt = data.1.get(clause.left_hand.as_str());
    proof {
        if row_get(data.1@, clause@.left_hand) is Some {
            lemma_row_get_wf_q(data.1@, clause@.left_hand);
        }
    }
    match clause.operator {
        Condition::Equals | Condition::NotEquals => {
            let right: Value = match &clause.right_hand {
                RightHandType::Integer(i) => Value::Num(IndexNumber::Int(*i as i64)),
                RightHandType::Float(d) => Value::Num(IndexNumber::Float(*d)),
                RightHandType::Boolean(b) => Value::Bool(*b),
                RightHandType::Str(s) => Value::Text(s.clone()),
            };
            let eq = match left_opt {
                Some(l) => l.eq_value(&right),
                None => matches!(right, Value::Null),
            };
            if matches!(clause.operator, Condition::Equals) {
                eq
            } else {
                !eq
            }
        },
        Condition::GreaterThan | Condition::LessThan => {
            let greater = matches!(clause.operator, Condition::GreaterThan);
            let rnum: Option<IndexNumber> = match &clause.right_hand {
                RightHandType::Integer(i) => Some(IndexNumber::Int(*i as i64)),
                RightHandType::Float(d) => Some(IndexNumber::Float(*d)),
                _ => None,
            };
            let lnum: Option<IndexNumber> = match left_opt {
                Some(Value::Text(s)) => {
                    if let Some(v) = parse_i64(s.as_str()) {
                        Some(IndexNumber::Int(v))
                    } else if let Some(d) = parse_decimal(s.as_str()) {
                        Some(IndexNumber::Float(d))
                    } else {
                        None
                    }
                },
                _ => None,
            };
            match (lnum, rnum) {
                (Some(l), Some(rv)) => {
                    let rk = num_cmp(&l, &rv);
                    if greater {
                        matches!(rk, Rank::Greater)
                    } else {
                        matches!(rk, Rank::Less)
                    }
                },
                _ => false,
            }
        },
        Condition::Invalid => false,
    }
}

proof fn lemma_row_get_wf_q(r: RowV, name: Seq<char>)
    requires
        row_vals_wf(r),
        row_get(r, name) is Some,
    ensures
        row_get(r, name)->Some_0.wf(),
    decreases r.len(),
{
    if r.len() > 0 && r[0].0 != name {
        assert(forall|i: int| 0 <= i < r.drop_first().len() ==> (#[trigger] r.drop_first()[i]).1
            == r[i + 1].1);
        lemma_row_get_wf_q(r.drop_first(), name);
    }
}

pub open spec fn passes_upto(row: RowV, cs: Seq<WhereClauseV>, n: int) -> bool
    decreases n,
{
    if n <= 1 {
        spec_eval_clause(row, cs[0])
    } else {
        let acc = passes_upto(row, cs, n - 1);
        let e = spec_eval_clause(row, cs[n - 1]);
        match cs[n - 1].connector {
            Some(Connector::OR) => acc || e,
            _ => acc && e,
        }
    }
}

pub open spec fn spec_passes(row: RowV, cs: Seq<WhereClauseV>) -> bool {
    passes_upto(row, cs, cs.len() as int)
}

pub open spec fn spec_matches(row: RowV, q: QueryV) -> bool {
    match q.where_clause {
        None => true,
        Some(cs) => spec_passes(row, cs),
    }
}

/// The entries of the store that match, in stored order.
pub open spec fn filter_store(d: Seq<(Seq<char>, RowV)>, q: QueryV) -> Seq<(Seq<char>, RowV)>
    decreases d.len(),
{
    if d.len() == 0 {
        d
    } else if spec_matches(d.last().1, q) {
        filter_store(d.drop_last(), q).push(d.last())
    } else {
        filter_store(d.drop_last(), q)
    }
}

proof fn lemma_filter_store_all(d: Seq<(Seq<char>, RowV)>, q: QueryV)
    requires
        q.where_clause is None,
    ensures
        filter_store(d, q) == d,
    decreases d.len(),
{
    if d.len() > 0 {
        lemma_filter_store_all(d.drop_last(), q);
        assert(filter_store(d, q) =~= d);
    }
}

/// Evaluate a query against a string-keyed store: without a WHERE chain
/// everything comes back, otherwise each entry is tested against the
/// chain folded left to right.
#[verifier::loop_isolation(false)]
pub fn evaluate_query(row: &Vec<(String, Row)>, query: &Query) -> (r: Vec<(String, Row)>)
    requires
        forall|i: int|
            0 <= i < row@.len() ==> row_vals_wf((#[trigger] row@[i]).1@),
        query@.wf(),
    ensures
        r@.map_values(|e: (String, Row)| (e.0@, e.1@)) == filter_store(
            row@.map_values(|e: (String, Row)| (e.0@, e.1@)),
            query@,
        ),
{
    let ghost dv = row@.map_values(|e: (String, Row)| (e.0@, e.1@));
    let n = row.len();
    let mut out: Vec<(String, Row)> = Vec::new();
    let mut i: usize = 0;
    proof {
        assert(dv.take(0) =~= Seq::<(Seq<char>, RowV)>::empty());
    }
    while i < n
        invariant
            0 <= i <= n,
            n == row@.len(),
            out@.map_values(|e: (String, Row)| (e.0@, e.1@)) == filter_store(
                dv.take(i as int),
                query@,
            ),
        decreases n - i,
    {
        proof {
            assert(dv.take(i + 1).drop_last() =~= dv.take(i as int));
            assert(dv.take(i + 1).last() == dv[i as int]);
            assert(dv[i as int] == (row@[i as int].0@, row@[i as int].1@));
        }
        let matched = match &query.where_clause {
            Some(clauses) => {
                proof {
                    assert(clauses@.map_values(|c: WhereClause| c@)[0] == clauses@[0]@);
                }
                let mut result = evaluate_clause(&row[i], &clauses[0]);
                let m = clauses.len();
                let mut k: usize = 1;
                while k < m
                    invariant
                        1 <= k <= m,
                        m == clauses@.len(),
                        i < row@.len(),
                        result == passes_upto(
                            row@[i as int].1@,
                            clauses@.map_values(|c: WhereClause| c@),
                            k as int,
                        ),
                    decreases m - k,
                {
                    proof {
                        assert(clauses@.map_values(|c: WhereClause| c@)[k as int] == clauses@[k as int]@);
                    }
                    let clause_result = evaluate_clause(&row[i], &clauses[k]);
                    match clauses[k].connector {
                        Some(Connector::AND) => {
                            result = result && clause_result;
                        },
                        Some(Connector::OR) => {
                            result = result || clause_result;
                        },
                        None => {
                            result = result && clause_result;
                        },
                    }
                    k = k + 1;
                }
                result
            },
            None => true,
        };
        let ghost pre = out@.map_values(|e: (String, Row)| (e.0@, e.1@));
        if matched {
            out.push((clone_key(&row[i].0), row[i].1.clone()));
            proof {
                assert(out@.map_values(|e: (String, Row)| (e.0@, e.1@)) =~= pre.push(
                    dv[i as int],
                ));
            }
        }
        i = i + 1;
    }
    proof {
        assert(dv.take(n as int) =~= dv);
        if query@.where_clause is None {
            lemma_filter_store_all(dv, query@);
        }
    }
    out
}

fn clone_key(s: &String) -> (r: String)
    ensures
        r@ == s@,
{
    s.clone()
}

} // verus!
