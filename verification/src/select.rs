//! The query surface: the token grammar for SELECT/FROM/WHERE chains, the
//! clause evaluator, the index-assisted cost heuristic, and projection
//! bookkeeping.
//!
//! Queries arrive as whitespace-split tokens. Tokens accumulate into the
//! projection list, the source-name buffer, or a pending WHERE buffer,
//! following the most recent keyword; the pending buffer is flushed into a
//! completed clause when it grows past three tokens, or past two with no
//! AND/OR inside. There is no precedence: clauses are folded strictly left
//! to right, each under its own connector.

use vstd::prelude::*;
use crate::num::Decimal;
use crate::num::IndexNumber;
use crate::num::Rank;
use crate::num::num_cmp;
use crate::num::rank_of;
use crate::text::dec_of;
use crate::text::dec_ok;
use crate::text::i64_ok;
use crate::text::in_i32_range;
use crate::text::int_val;
use crate::text::lex_lt;
use crate::text::parse_bool;
use crate::text::parse_decimal;
use crate::text::parse_i64;
use crate::text::str_eq;
use crate::text::str_lt;
use crate::models::FieldDef;
use crate::models::FieldDefV;
use crate::models::Index;
use crate::models::IndexStore;
use crate::models::IndexStoreV;
use crate::models::IndexV;
use crate::models::Table;
use crate::models::TableV;
use crate::models::entries_total;
use crate::models::store_wf;
use crate::models::table_wf;
use crate::value::Row;
use crate::value::RowV;
use crate::value::Value;
use crate::value::ValueV;
use crate::value::row_get;
use crate::value::row_vals_wf;

verus! {

/// How a clause joins the running result.
#[derive(Clone, Copy, Debug, PartialEq, Eq, Structural)]
#[allow(non_camel_case_types)]
pub enum Connector {
    AND,
    OR,
}

/// The comparison a clause applies.
#[derive(Clone, Copy, Debug, PartialEq, Eq, Structural)]
pub enum Condition {
    Equals,
    NotEquals,
    GreaterThan,
    LessThan,
}

/// A right-hand literal, inferred as integer, then decimal, then boolean,
/// then plain text.
#[derive(Debug)]
pub enum HandType {
    Str(String),
    Integer(i64),
    Float(Decimal),
    Boolean(bool),
}

/// The mathematical shape of a right-hand literal.
pub enum HandTypeV {
    Str(Seq<char>),
    Integer(i64),
    Float(Decimal),
    Boolean(bool),
}

impl View for HandType {
    type V = HandTypeV;

    open spec fn view(&self) -> HandTypeV {
        match self {
            HandType::Str(s) => HandTypeV::Str(s@),
            HandType::Integer(i) => HandTypeV::Integer(*i),
            HandType::Float(d) => HandTypeV::Float(*d),
            HandType::Boolean(b) => HandTypeV::Boolean(*b),
        }
    }
}

/// One `left op right` comparison with an optional leading connector.
#[derive(Debug)]
pub struct WhereClause {
    pub left_hand: String,
    pub operator: Condition,
    pub right_hand: HandType,
    pub connector: Option<Connector>,
}

/// The mathematical shape of a clause.
pub struct WhereClauseV {
    pub left_hand: Seq<char>,
    pub operator: Condition,
    pub right_hand: HandTypeV,
    pub connector: Option<Connector>,
}

impl View for WhereClause {
    type V = WhereClauseV;

    open spec fn view(&self) -> WhereClauseV {
        WhereClauseV {
            left_hand: self.left_hand@,
            operator: self.operator,
            right_hand: self.right_hand@,
            connector: self.connector,
        }
    }
}

impl WhereClauseV {
    /// Decimal literals carry normalized representations.
    pub open spec fn wf(self) -> bool {
        match self.right_hand {
            HandTypeV::Float(d) => d.wf(),
            _ => true,
        }
    }
}

/// A parsed query: projection, source table, and the clause chain.
#[derive(Debug)]
pub struct Query {
    pub select: Vec<String>,
    pub from: String,
    pub where_clause: Option<Vec<WhereClause>>,
}

/// The mathematical shape of a query.
pub struct QueryV {
    pub select: Seq<Seq<char>>,
    pub from: Seq<char>,
    pub where_clause: Option<Seq<WhereClauseV>>,
}

impl View for Query {
    type V = QueryV;

    open spec fn view(&self) -> QueryV {
        QueryV {
            select: self.select@.map_values(|s: String| s@),
            from: self.from@,
            where_clause: match &self.where_clause {
                Some(cs) => Some(cs@.map_values(|c: WhereClause| c@)),
                None => None,
            },
        }
    }
}

/// Every clause in the chain is well formed.
pub open spec fn clauses_wf(cs: Seq<WhereClauseV>) -> bool {
    forall|i: int| 0 <= i < cs.len() ==> (#[trigger] cs[i]).wf()
}

impl QueryV {
    /// A parsed query never carries an empty clause list, and its decimal
    /// literals are normalized.
    pub open spec fn wf(self) -> bool {
        match self.where_clause {
            Some(cs) => cs.len() >= 1 && clauses_wf(cs),
            None => true,
        }
    }
}

/// The literal a right-hand token denotes: an integer if it parses in the
/// 32-bit range, else an exact decimal, else a boolean, else the text
/// itself.
pub open spec fn literal_of(t: Seq<char>) -> HandTypeV {
    if i64_ok(t) && in_i32_range(int_val(t)) {
        HandTypeV::Integer(int_val(t) as i64)
    } else if dec_ok(t) {
        HandTypeV::Float(dec_of(t))
    } else if t == "true"@ {
        HandTypeV::Boolean(true)
    } else if t == "false"@ {
        HandTypeV::Boolean(false)
    } else {
        HandTypeV::Str(t)
    }
}

/// The operator a token denotes; anything unrecognized (or missing) reads
/// as equality here.
pub open spec fn op_of(t: Option<Seq<char>>) -> Condition {
    match t {
        Some(s) => if s == "="@ {
            Condition::Equals
        } else if s == "!="@ {
            Condition::NotEquals
        } else if s == ">"@ {
            Condition::GreaterThan
        } else if s == "<"@ {
            Condition::LessThan
        } else {
            Condition::Equals
        },
        None => Condition::Equals,
    }
}

/// The clause a flushed buffer denotes: an optional leading AND/OR, then
/// left-hand column, operator, and right-hand literal (absent parts read
/// as empty text).
pub open spec fn clause_of(toks: Seq<Seq<char>>) -> WhereClauseV {
    let conn: Option<Connector> = if toks.len() > 0 && toks[0] == "AND"@ {
        Some(Connector::AND)
    } else if toks.len() > 0 && toks[0] == "OR"@ {
        Some(Connector::OR)
    } else {
        None
    };
    let rest = if conn is Some {
        toks.drop_first()
    } else {
        toks
    };
    WhereClauseV {
        left_hand: if rest.len() > 0 {
            rest[0]
        } else {
            Seq::empty()
        },
        operator: op_of(
            if rest.len() > 1 {
                Some(rest[1])
            } else {
                None
            },
        ),
        right_hand: if rest.len() > 2 {
            literal_of(rest[2])
        } else {
            HandTypeV::Str(Seq::empty())
        },
        connector: conn,
    }
}

/// Which accumulator the most recent keyword selected.
#[derive(Clone, Copy, Debug, PartialEq, Eq, Structural)]
pub enum TokenMode {
    MSelect,
    MFrom,
    MWhere,
}

/// The parser's running state.
pub struct BuildState {
    pub sel: Seq<Seq<char>>,
    pub from: Seq<Seq<char>>,
    pub done: Seq<WhereClauseV>,
    pub buf: Seq<Seq<char>>,
    pub mode: TokenMode,
}

pub open spec fn flush(st: BuildState) -> BuildState {
    if st.buf.len() > 0 {
        BuildState { done: st.done.push(clause_of(st.buf)), buf: Seq::empty(), ..st }
    } else {
        st
    }
}

pub open spec fn buf_has_connector(buf: Seq<Seq<char>>) -> bool {
    exists|i: int| 0 <= i < buf.len() && (buf[i] == "AND"@ || buf[i] == "OR"@)
}

/// The pending buffer is flushed once it holds more than three tokens, or
/// more than two with no connector among them.
pub open spec fn pre_flush(st: BuildState) -> BuildState {
    if st.buf.len() > 3 {
        flush(st)
    } else if st.buf.len() > 2 && !buf_has_connector(st.buf) {
        flush(st)
    } else {
        st
    }
}

/// One token's effect on the parser state.
pub open spec fn bq_step(st0: BuildState, tok: Seq<char>) -> BuildState {
    let st = pre_flush(st0);
    if tok == "FROM"@ {
        BuildState { mode: TokenMode::MFrom, ..st }
    } else if tok == "WHERE"@ {
        BuildState { mode: TokenMode::MWhere, ..st }
    } else if tok == "AND"@ || tok == "OR"@ {
        let st2 = flush(st);
        BuildState { buf: seq![tok], ..st2 }
    } else {
        match st.mode {
            TokenMode::MSelect => BuildState { sel: st.sel.push(tok), ..st },
            TokenMode::MFrom => BuildState { from: st.from.push(tok), ..st },
            TokenMode::MWhere => BuildState { buf: st.buf.push(tok), ..st },
        }
    }
}

pub open spec fn bq_init() -> BuildState {
    BuildState {
        sel: Seq::empty(),
        from: Seq::empty(),
        done: Seq::empty(),
        buf: Seq::empty(),
        mode: TokenMode::MSelect,
    }
}

/// The parser state after reading a token sequence.
pub open spec fn bq_run(toks: Seq<Seq<char>>, init: BuildState) -> BuildState
    decreases toks.len(),
{
    if toks.len() == 0 {
        init
    } else {
        bq_step(bq_run(toks.drop_last(), init), toks.last())
    }
}

/// All source-name tokens, joined without separators.
pub open spec fn join_all(s: Seq<Seq<char>>) -> Seq<char>
    decreases s.len(),
{
    if s.len() == 0 {
        Seq::empty()
    } else {
        join_all(s.drop_last()) + s.last()
    }
}

/// The query a token sequence parses to.
pub open spec fn spec_build_query(toks: Seq<Seq<char>>) -> QueryV {
    let st = flush(bq_run(toks, bq_init()));
    QueryV {
        select: st.sel,
        from: join_all(st.from),
        where_clause: if st.done.len() == 0 {
            None
        } else {
            Some(st.done)
        },
    }
}

/// Build one clause from a flushed buffer.
pub fn build_where_clause(where_tokens: &Vec<String>) -> (r: WhereClause)
    ensures
        r@ == clause_of(where_tokens@.map_values(|s: String| s@)),
        r@.wf(),
{
    let ghost toks = where_tokens@.map_values(|s: String| s@);
    let n = where_tokens.len();
    let mut start: usize = 0;
    let mut connector: Option<Connector> = None;
    if n > 0 {
        if str_eq(where_tokens[0].as_str(), "AND") {
            connector = Some(Connector::AND);
            start = 1;
        } else if str_eq(where_tokens[0].as_str(), "OR") {
            connector = Some(Connector::OR);
            start = 1;
        }
    }
    let left_hand: String = if start < n {
        where_tokens[start].clone()
    } else {
        String::new()
    };
    let operator: Condition = if start + 1 < n {
        let t = where_tokens[start + 1].as_str();
        if str_eq(t, "=") {
            Condition::Equals
        } else if str_eq(t, "!=") {
            Condition::NotEquals
        } else if str_eq(t, ">") {
            Condition::GreaterThan
        } else if str_eq(t, "<") {
            Condition::LessThan
        } else {
            Condition::Equals
        }
    } else {
        Condition::Equals
    };
    let right_hand: HandType = if start + 2 < n {
        infer_literal(where_tokens[start + 2].as_str())
    } else {
        HandType::Str(String::new())
    };
    let r = WhereClause { left_hand, operator, right_hand, connector };
    proof {
        let rest = if connector is Some {
            toks.drop_first()
        } else {
            toks
        };
        assert(rest =~= toks.skip(start as int));
        if start < n {
            assert(rest[0] == toks[start as int]);
        }
        if start + 1 < n {
            assert(rest[1] == toks[start + 1]);
        }
        if start + 2 < n {
            assert(rest[2] == toks[start + 2]);
        }
    }
    r
}

/// Infer the type of a right-hand literal token.
pub fn infer_literal(t: &str) -> (r: HandType)
    ensures
        r@ == literal_of(t@),
        (match r@ {
            HandTypeV::Float(d) => d.wf(),
            _ => true,
        }),
{
    if let Some(v) = parse_i64(t) {
        if -2147483648i64 <= v && v <= 2147483647i64 {
            return HandType::Integer(v);
        }
    }
    if let Some(d) = parse_decimal(t) {
        return HandType::Float(d);
    }
    if let Some(b) = parse_bool(t) {
        proof {
            reveal_strlit("true");
            reveal_strlit("false");
        }
        return HandType::Boolean(b);
    }
    let mut s = String::new();
    s.append(t);
    HandType::Str(s)
}

/// Flush the pending WHERE buffer into a completed clause.
pub fn finalize_where_clause(
    temp_where_tokens: &mut Vec<String>,
    where_tokens: &mut Vec<WhereClause>,
)
    ensures
        old(temp_where_tokens)@.len() > 0 ==> ({
            &&& final(where_tokens)@.map_values(|c: WhereClause| c@) == old(
                where_tokens,
            )@.map_values(|c: WhereClause| c@).push(
                clause_of(old(temp_where_tokens)@.map_values(|s: String| s@)),
            )
            &&& final(temp_where_tokens)@.len() == 0
            &&& clause_of(old(temp_where_tokens)@.map_values(|s: String| s@)).wf()
            &&& clauses_wf(old(where_tokens)@.map_values(|c: WhereClause| c@)) ==> clauses_wf(
                final(where_tokens)@.map_values(|c: WhereClause| c@))
        }),
        old(temp_where_tokens)@.len() == 0 ==> ({
            &&& final(where_tokens)@ == old(where_tokens)@
            &&& final(temp_where_tokens)@ == old(temp_where_tokens)@
        }),
{
    if temp_where_tokens.len() > 0 {
        let c = build_where_clause(temp_where_tokens);
        temp_where_tokens.clear();
        where_tokens.push(c);
        proof {
            assert(final(where_tokens)@.map_values(|c: WhereClause| c@) =~= old(
                where_tokens,
            )@.map_values(|c: WhereClause| c@).push(c@));
        }
    }
}

fn has_connector(buf: &Vec<String>) -> (r: bool)
    ensures
        r == buf_has_connector(buf@.map_values(|s: String| s@)),
{
    let n = buf.len();
    let mut i: usize = 0;
    while i < n
        invariant
            0 <= i <= n,
            n == buf.len(),
            forall|j: int|
                0 <= j < i ==> !((#[trigger] buf@[j])@ == "AND"@ || buf@[j]@ == "OR"@),
        decreases n - i,
    {
        proof {
            assert(buf@.map_values(|s: String| s@)[i as int] == buf@[i as int]@);
        }
        if str_eq(buf[i].as_str(), "AND") || str_eq(buf[i].as_str(), "OR") {
            return true;
        }
        i = i + 1;
    }
    false
}

/// Parse a whitespace-split token sequence into a query. Tokens before any
/// keyword belong to the projection; FROM and WHERE redirect what follows;
/// AND and OR close the pending clause and open the next one.
pub fn build_query(query_tokens: Vec<String>) -> (q: Query)
    ensures
        q@ == spec_build_query(query_tokens@.map_values(|s: String| s@)),
        q@.wf(),
{
    let ghost toks = query_tokens@.map_values(|s: String| s@);
    let mut select_tokens: Vec<String> = Vec::new();
    let mut from_tokens: Vec<String> = Vec::new();
    let mut where_tokens: Vec<WhereClause> = Vec::new();
    let mut temp_where_tokens: Vec<String> = Vec::new();
    let mut mode = TokenMode::MSelect;
    let n = query_tokens.len();
    let mut i: usize = 0;
    proof {
        assert(toks.take(0) =~= Seq::<Seq<char>>::empty());
    }
    while i < n
        invariant
            0 <= i <= n,
            n == query_tokens.len(),
            toks == query_tokens@.map_values(|s: String| s@),
            ({
                let st = bq_run(toks.take(i as int), bq_init());
                &&& select_tokens@.map_values(|s: String| s@) == st.sel
                &&& from_tokens@.map_values(|s: String| s@) == st.from
                &&& where_tokens@.map_values(|c: WhereClause| c@) == st.done
                &&& temp_where_tokens@.map_values(|s: String| s@) == st.buf
                &&& mode == st.mode
            }),
            clauses_wf(where_tokens@.map_values(|c: WhereClause| c@)),
        decreases n - i,
    {
        proof {
            assert(toks.take(i + 1).drop_last() =~= toks.take(i as int));
            assert(toks.take(i + 1).last() == toks[i as int]);
            assert(toks[i as int] == query_tokens@[i as int]@);
        }
        if temp_where_tokens.len() > 3 {
            finalize_where_clause(&mut temp_where_tokens, &mut where_tokens);
        } else if temp_where_tokens.len() > 2 && !has_connector(&temp_where_tokens) {
            finalize_where_clause(&mut temp_where_tokens, &mut where_tokens);
        }
        let q = &query_tokens[i];
        if str_eq(q.as_str(), "FROM") {
            mode = TokenMode::MFrom;
        } else if str_eq(q.as_str(), "WHERE") {
            mode = TokenMode::MWhere;
        } else if str_eq(q.as_str(), "AND") || str_eq(q.as_str(), "OR") {
            finalize_where_clause(&mut temp_where_tokens, &mut where_tokens);
            temp_where_tokens.push(q.clone());
            proof {
                assert(temp_where_tokens@.map_values(|s: String| s@) =~= seq![toks[i as int]]);
            }
        } else {
            match mode {
                TokenMode::MSelect => {
                    select_tokens.push(q.clone());
                    proof {
                        assert(select_tokens@.map_values(|s: String| s@) =~= bq_run(
                            toks.take(i as int),
                            bq_init(),
                        ).sel.push(toks[i as int]));
                    }
                },
                TokenMode::MFrom => {
                    from_tokens.push(q.clone());
                    proof {
                        assert(from_tokens@.map_values(|s: String| s@) =~= bq_run(
                            toks.take(i as int),
                            bq_init(),
                        ).from.push(toks[i as int]));
                    }
                },
                TokenMode::MWhere => {
                    let ghost pre = temp_where_tokens@.map_values(|s: String| s@);
                    temp_where_tokens.push(q.clone());
                    proof {
                        assert(temp_where_tokens@.map_values(|s: String| s@) =~= pre.push(
                            toks[i as int],
                        ));
                    }
                },
            }
        }
        i = i + 1;
    }
    proof {
        assert(toks.take(n as int) =~= toks);
    }
    finalize_where_clause(&mut temp_where_tokens, &mut where_tokens);
    let mut from = String::new();
    let m = from_tokens.len();
    let mut k: usize = 0;
    while k < m
        invariant
            0 <= k <= m,
            m == from_tokens.len(),
            from@ == join_all(from_tokens@.map_values(|s: String| s@).take(k as int)),
        decreases m - k,
    {
        proof {
            let fr = from_tokens@.map_values(|s: String| s@);
            assert(fr.take(k + 1).drop_last() =~= fr.take(k as int));
            assert(fr.take(k + 1).last() == from_tokens@[k as int]@);
        }
        from.append(from_tokens[k].as_str());
        k = k + 1;
    }
    proof {
        let fr = from_tokens@.map_values(|s: String| s@);
        assert(fr.take(m as int) =~= fr);
    }
    let where_clause = if where_tokens.len() == 0 {
        None
    } else {
        Some(where_tokens)
    };
    Query { select: select_tokens, from, where_clause }
}

/// Does the comparison outcome satisfy the operator?
pub open spec fn rank_matches(op: Condition, rk: Rank) -> bool {
    match op {
        Condition::Equals => rk is Equal,
        Condition::NotEquals => !(rk is Equal),
        Condition::GreaterThan => rk is Greater,
        Condition::LessThan => rk is Less,
    }
}

/// One clause against one row: numbers compare across representations,
/// text lexicographically, booleans as `false < true`; a missing cell
/// reads as null, and any other pairing of kinds is simply false.
pub open spec fn spec_eval_clause(row: RowV, c: WhereClauseV) -> bool {
    let left = match row_get(row, c.left_hand) {
        Some(v) => v,
        None => ValueV::Null,
    };
    match (left, c.right_hand) {
        (ValueV::Num(l), HandTypeV::Integer(r)) => rank_matches(
            c.operator,
            rank_of(l, IndexNumber::Int(r)),
        ),
        (ValueV::Num(l), HandTypeV::Float(r)) => rank_matches(
            c.operator,
            rank_of(l, IndexNumber::Float(r)),
        ),
        (ValueV::Text(l), HandTypeV::Str(r)) => match c.operator {
            Condition::Equals => l == r,
            Condition::NotEquals => l != r,
            Condition::GreaterThan => lex_lt(r, l),
            Condition::LessThan => lex_lt(l, r),
        },
        (ValueV::Bool(l), HandTypeV::Boolean(r)) => match c.operator {
            Condition::Equals => l == r,
            Condition::NotEquals => l != r,
            Condition::GreaterThan => l && !r,
            Condition::LessThan => !l && r,
        },
        _ => false,
    }
}

proof fn lemma_row_get_wf(r: RowV, name: Seq<char>)
    requires
        row_vals_wf(r),
        row_get(r, name) is Some,
    ensures
        row_get(r, name)->Some_0.wf(),
    decreases r.len(),
{
    if r.len() > 0 && r[0].0 != name {
        assert(forall|i: int| 0 <= i < r.drop_first().len() ==> (#[trigger] r.drop_first()[i]).1
            == r[i + 1].1);
        lemma_row_get_wf(r.drop_first(), name);
    }
}

fn rank_matches_exec(op: Condition, rk: Rank) -> (r: bool)
    ensures
        r == rank_matches(op, rk),
{
    match op {
        Condition::Equals => matches!(rk, Rank::Equal),
        Condition::NotEquals => !matches!(rk, Rank::Equal),
        Condition::GreaterThan => matches!(rk, Rank::Greater),
        Condition::LessThan => matches!(rk, Rank::Less),
    }
}

/// Test one row against one clause.
pub fn evaluate_clause(data: &(Value, Row), clause: &WhereClause) -> (r: bool)
    requires
        row_vals_wf(data.1@),
        clause@.wf(),
    ensures
        r == spec_eval_clause(data.1@, clause@),
{
    let left_opt = data.1.get(clause.left_hand.as_str());
    proof {
        if row_get(data.1@, clause@.left_hand) is Some {
            lemma_row_get_wf(data.1@, clause@.left_hand);
        }
    }
    match (left_opt, &clause.right_hand) {
        (Some(Value::Num(l)), HandType::Integer(r)) => {
            let rk = num_cmp(l, &IndexNumber::Int(*r));
            rank_matches_exec(clause.operator, rk)
        },
        (Some(Value::Num(l)), HandType::Float(r)) => {
            let rk = num_cmp(l, &IndexNumber::Float(*r));
            rank_matches_exec(clause.operator, rk)
        },
        (Some(Value::Text(l)), HandType::Str(r)) => {
            match clause.operator {
                Condition::Equals => str_eq(l.as_str(), r.as_str()),
                Condition::NotEquals => !str_eq(l.as_str(), r.as_str()),
                Condition::GreaterThan => str_lt(r.as_str(), l.as_str()),
                Condition::LessThan => str_lt(l.as_str(), r.as_str()),
            }
        },
        (Some(Value::Bool(l)), HandType::Boolean(r)) => {
            match clause.operator {
                Condition::Equals => *l == *r,
                Condition::NotEquals => *l != *r,
                Condition::GreaterThan => *l && !*r,
                Condition::LessThan => !*l && *r,
            }
        },
        _ => false,
    }
}

/// The clause chain folded left to right from the first clause, each
/// subsequent result joined under that clause's connector (a missing
/// connector joins as AND).
pub open spec fn passes_upto(row: RowV, cs: Seq<WhereClauseV>, n: int) -> bool
    decreases n,
{
    if n <= 1 {
        spec_eval_clause(row, cs[0])
    } else {
        let acc = passes_upto(row, cs, n - 1);
        let e = spec_eval_clause(row, cs[n - 1]);
        match cs[n - 1].connector {
            Some(Connector::OR) => acc || e,
            _ => acc && e,
        }
    }
}

pub open spec fn spec_passes(row: RowV, cs: Seq<WhereClauseV>) -> bool {
    passes_upto(row, cs, cs.len() as int)
}

/// Test one row against the whole clause chain.
pub fn passes_clauses(v: &(Value, Row), clauses: &Vec<WhereClause>) -> (r: bool)
    requires
        clauses@.len() >= 1,
        row_vals_wf(v.1@),
        clauses_wf(clauses@.map_values(|c: WhereClause| c@)),
    ensures
        r == spec_passes(v.1@, clauses@.map_values(|c: WhereClause| c@)),
{
    let ghost cs = clauses@.map_values(|c: WhereClause| c@);
    proof {
        assert(cs[0] == clauses@[0]@);
    }
    let mut result = evaluate_clause(v, &clauses[0]);
    let n = clauses.len();
    let mut i: usize = 1;
    while i < n
        invariant
            1 <= i <= n,
            n == clauses@.len(),
            cs == clauses@.map_values(|c: WhereClause| c@),
            row_vals_wf(v.1@),
            clauses_wf(cs),
            result == passes_upto(v.1@, cs, i as int),
        decreases n - i,
    {
        proof {
            assert(cs[i as int] == clauses@[i as int]@);
        }
        let clause_result = evaluate_clause(v, &clauses[i]);
        match clauses[i].connector {
            Some(Connector::AND) => {
                result = result && clause_result;
            },
            Some(Connector::OR) => {
                result = result || clause_result;
            },
            None => {
                result = result && clause_result;
            },
        }
        i = i + 1;
    }
    result
}

/// A row matches a query outright when the query has no WHERE chain.
pub open spec fn spec_matches(row: RowV, q: QueryV) -> bool {
    match q.where_clause {
        None => true,
        Some(cs) => spec_passes(row, cs),
    }
}

/// The rows of `d` that match `q`, in stored order.
pub open spec fn filter_data(d: Seq<(ValueV, RowV)>, q: QueryV) -> Seq<(ValueV, RowV)>
    decreases d.len(),
{
    if d.len() == 0 {
        d
    } else if spec_matches(d.last().1, q) {
        filter_data(d.drop_last(), q).push(d.last())
    } else {
        filter_data(d.drop_last(), q)
    }
}

/// Does an index key satisfy the clause's operator against the literal?
pub open spec fn text_key_matches(op: Condition, k: Seq<char>, r: Seq<char>) -> bool {
    match op {
        Condition::Equals => k == r,
        Condition::NotEquals => k != r,
        Condition::GreaterThan => lex_lt(r, k),
        Condition::LessThan => lex_lt(k, r),
    }
}

pub open spec fn num_key_matches(op: Condition, k: IndexNumber, r: IndexNumber) -> bool {
    rank_matches(op, rank_of(k, r))
}

/// Estimated matches in a text store: the sizes of every bucket whose key
/// satisfies the operator, summed.
pub open spec fn text_sum(s: Seq<(Seq<char>, Seq<ValueV>)>, op: Condition, r: Seq<char>) -> nat
    decreases s.len(),
{
    if s.len() == 0 {
        0
    } else {
        text_sum(s.drop_last(), op, r) + if text_key_matches(op, s.last().0, r) {
            s.last().1.len()
        } else {
            0
        }
    }
}

pub open spec fn num_sum(s: Seq<(IndexNumber, Seq<ValueV>)>, op: Condition, r: IndexNumber) -> nat
    decreases s.len(),
{
    if s.len() == 0 {
        0
    } else {
        num_sum(s.drop_last(), op, r) + if num_key_matches(op, s.last().0, r) {
            s.last().1.len()
        } else {
            0
        }
    }
}

pub open spec fn bool_sum(s: Seq<(bool, Seq<ValueV>)>, want_equal: bool, r: bool) -> nat
    decreases s.len(),
{
    if s.len() == 0 {
        0
    } else {
        bool_sum(s.drop_last(), want_equal, r) + if (s.last().0 == r) == want_equal {
            s.last().1.len()
        } else {
            0
        }
    }
}

/// The cost estimate an index gives one clause: equality reads one
/// bucket's size; the other operators sum every matching bucket. A literal
/// whose kind does not fit the store estimates zero, as do ordered
/// comparisons on a boolean store.
pub open spec fn spec_count_hits(st: IndexStoreV, c: WhereClauseV) -> nat {
    match (st, c.right_hand) {
        (IndexStoreV::Text(s), HandTypeV::Str(r)) => text_sum(s, c.operator, r),
        (IndexStoreV::Number(s), HandTypeV::Integer(i)) => num_sum(
            s,
            c.operator,
            IndexNumber::Int(i),
        ),
        (IndexStoreV::Number(s), HandTypeV::Float(f)) => num_sum(
            s,
            c.operator,
            IndexNumber::Float(f),
        ),
        (IndexStoreV::Boolean(s), HandTypeV::Boolean(r)) => match c.operator {
            Condition::Equals => bool_sum(s, true, r),
            Condition::NotEquals => bool_sum(s, false, r),
            _ => 0,
        },
        _ => 0,
    }
}

proof fn lemma_entries_total_take<K>(s: Seq<(K, Seq<ValueV>)>, j: int)
    requires
        0 <= j <= s.len(),
    ensures
        entries_total(s.take(j)) <= entries_total(s),
    decreases s.len(),
{
    if j == s.len() {
        assert(s.take(j) =~= s);
    } else {
        assert(s.take(j) =~= s.drop_last().take(j));
        lemma_entries_total_take(s.drop_last(), j);
    }
}

fn count_text(s: &Vec<(String, Vec<Value>)>, op: Condition, right: &String) -> (r: usize)
    requires
        entries_total(
            s@.map_values(|e: (String, Vec<Value>)| (e.0@, e.1@.map_values(|x: Value| x@))),
        ) <= usize::MAX,
    ensures
        r == text_sum(
            s@.map_values(|e: (String, Vec<Value>)| (e.0@, e.1@.map_values(|x: Value| x@))),
            op,
            right@,
        ),
{
    let ghost sv = s@.map_values(|e: (String, Vec<Value>)| (e.0@, e.1@.map_values(|x: Value| x@)));
    let n = s.len();
    let mut acc: usize = 0;
    let mut i: usize = 0;
    proof {
        assert(sv.take(0) =~= Seq::<(Seq<char>, Seq<ValueV>)>::empty());
    }
    while i < n
        invariant
            0 <= i <= n,
            n == s@.len(),
            sv == s@.map_values(|e: (String, Vec<Value>)| (e.0@, e.1@.map_values(|x: Value| x@))),
            entries_total(sv) <= usize::MAX,
            acc == text_sum(sv.take(i as int), op, right@),
            acc <= entries_total(sv.take(i as int)),
        decreases n - i,
    {
        proof {
            assert(sv.take(i + 1).drop_last() =~= sv.take(i as int));
            assert(sv.take(i + 1).last() == sv[i as int]);
            assert(sv[i as int].0 == s@[i as int].0@);
            assert(sv[i as int].1.len() == s@[i as int].1@.len());
            lemma_entries_total_take(sv, i + 1);
        }
        let key = s[i].0.as_str();
        let m = match op {
            Condition::Equals => str_eq(key, right.as_str()),
            Condition::NotEquals => !str_eq(key, right.as_str()),
            Condition::GreaterThan => str_lt(right.as_str(), key),
            Condition::LessThan => str_lt(key, right.as_str()),
        };
        if m {
            acc = acc + s[i].1.len();
        }
        i = i + 1;
    }
    proof {
        assert(sv.take(n as int) =~= sv);
    }
    acc
}

fn count_num(s: &Vec<(IndexNumber, Vec<Value>)>, op: Condition, right: &IndexNumber) -> (r: usize)
    requires
        entries_total(
            s@.map_values(|e: (IndexNumber, Vec<Value>)| (e.0, e.1@.map_values(|x: Value| x@))),
        ) <= usize::MAX,
        forall|i: int| 0 <= i < s@.len() ==> (#[trigger] s@[i]).0.wf(),
        right.wf(),
    ensures
        r == num_sum(
            s@.map_values(|e: (IndexNumber, Vec<Value>)| (e.0, e.1@.map_values(|x: Value| x@))),
            op,
            *right,
        ),
{
    let ghost sv = s@.map_values(
        |e: (IndexNumber, Vec<Value>)| (e.0, e.1@.map_values(|x: Value| x@)),
    );
    let n = s.len();
    let mut acc: usize = 0;
    let mut i: usize = 0;
    proof {
        assert(sv.take(0) =~= Seq::<(IndexNumber, Seq<ValueV>)>::empty());
    }
    while i < n
        invariant
            0 <= i <= n,
            n == s@.len(),
            sv == s@.map_values(
                |e: (IndexNumber, Vec<Value>)| (e.0, e.1@.map_values(|x: Value| x@)),
            ),
            entries_total(sv) <= usize::MAX,
            forall|j: int| 0 <= j < s@.len() ==> (#[trigger] s@[j]).0.wf(),
            right.wf(),
            acc == num_sum(sv.take(i as int), op, *right),
            acc <= entries_total(sv.take(i as int)),
        decreases n - i,
    {
        proof {
            assert(sv.take(i + 1).drop_last() =~= sv.take(i as int));
            assert(sv.take(i + 1).last() == sv[i as int]);
            assert(sv[i as int].0 == s@[i as int].0);
            assert(sv[i as int].1.len() == s@[i as int].1@.len());
            lemma_entries_total_take(sv, i + 1);
        }
        let rk = num_cmp(&s[i].0, right);
        let m = rank_matches_exec(op, rk);
        if m {
            acc = acc + s[i].1.len();
        }
        i = i + 1;
    }
    proof {
        assert(sv.take(n as int) =~= sv);
    }
    acc
}

fn count_bool(s: &Vec<(bool, Vec<Value>)>, want_equal: bool, right: bool) -> (r: usize)
    requires
        entries_total(
            s@.map_values(|e: (bool, Vec<Value>)| (e.0, e.1@.map_values(|x: Value| x@))),
        ) <= usize::MAX,
    ensures
        r == bool_sum(
            s@.map_values(|e: (bool, Vec<Value>)| (e.0, e.1@.map_values(|x: Value| x@))),
            want_equal,
            right,
        ),
{
    let ghost sv = s@.map_values(|e: (bool, Vec<Value>)| (e.0, e.1@.map_values(|x: Value| x@)));
    let n = s.len();
    let mut acc: usize = 0;
    let mut i: usize = 0;
    proof {
        assert(sv.take(0) =~= Seq::<(bool, Seq<ValueV>)>::empty());
    }
    while i < n
        invariant
            0 <= i <= n,
            n == s@.len(),
            sv == s@.map_values(|e: (bool, Vec<Value>)| (e.0, e.1@.map_values(|x: Value| x@))),
            entries_total(sv) <= usize::MAX,
            acc == bool_sum(sv.take(i as int), want_equal, right),
            acc <= entries_total(sv.take(i as int)),
        decreases n - i,
    {
        proof {
            assert(sv.take(i + 1).drop_last() =~= sv.take(i as int));
            assert(sv.take(i + 1).last() == sv[i as int]);
            assert(sv[i as int].0 == s@[i as int].0);
            assert(sv[i as int].1.len() == s@[i as int].1@.len());
            lemma_entries_total_take(sv, i + 1);
        }
        if (s[i].0 == right) == want_equal {
            acc = acc + s[i].1.len();
        }
        i = i + 1;
    }
    proof {
        assert(sv.take(n as int) =~= sv);
    }
    acc
}

/// Estimate how many rows an index would report for one clause.
pub fn count_hits(index: &IndexStore, clause: &WhereClause) -> (r: usize)
    requires
        store_wf(index@),
        clause@.wf(),
    ensures
        r == spec_count_hits(index@, clause@),
{
    match (index, &clause.right_hand) {
        (IndexStore::Text(s), HandType::Str(right)) => count_text(s, clause.operator, right),
        (IndexStore::Number(s), HandType::Integer(i)) => {
            proof {
                let sv = s@.map_values(
                    |e: (IndexNumber, Vec<Value>)| (e.0, e.1@.map_values(|x: Value| x@)),
                );
                assert(forall|j: int| 0 <= j < s@.len() ==> (#[trigger] s@[j]).0 == sv[j].0);
                assert(forall|j: int| 0 <= j < s@.len() ==> (#[trigger] s@[j]).0.wf());
            }
            count_num(s, clause.operator, &IndexNumber::Int(*i))
        },
        (IndexStore::Number(s), HandType::Float(f)) => {
            proof {
                let sv = s@.map_values(
                    |e: (IndexNumber, Vec<Value>)| (e.0, e.1@.map_values(|x: Value| x@)),
                );
                assert(forall|j: int| 0 <= j < s@.len() ==> (#[trigger] s@[j]).0 == sv[j].0);
                assert(forall|j: int| 0 <= j < s@.len() ==> (#[trigger] s@[j]).0.wf());
            }
            count_num(s, clause.operator, &IndexNumber::Float(*f))
        },
        (IndexStore::Boolean(s), HandType::Boolean(right)) => {
            match clause.operator {
                Condition::Equals => count_bool(s, true, *right),
                Condition::NotEquals => count_bool(s, false, *right),
                _ => 0,
            }
        },
        _ => 0,
    }
}

/// First index registered under a column name.
pub open spec fn index_for(idxs: Seq<(Seq<char>, IndexV)>, col: Seq<char>) -> Option<IndexV>
    decreases idxs.len(),
{
    if idxs.len() == 0 {
        None
    } else if idxs[0].0 == col {
        Some(idxs[0].1)
    } else {
        index_for(idxs.drop_first(), col)
    }
}

/// A clause can be served by an index when one is registered under its
/// left-hand column.
pub open spec fn clause_candidate(t: TableV, c: WhereClauseV) -> bool {
    index_for(t.indexes, c.left_hand) is Some
}

pub open spec fn clause_hits(t: TableV, c: WhereClauseV) -> nat {
    spec_count_hits(index_for(t.indexes, c.left_hand)->Some_0.index_data, c)
}

fn find_index_pos(indexes: &Vec<(String, Index)>, col: &str) -> (r: Option<usize>)
    ensures
        ({
            let iv = indexes@.map_values(|e: (String, Index)| (e.0@, e.1@));
            match r {
                Some(i) => 0 <= i < iv.len() && index_for(iv, col@) == Some(iv[i as int].1),
                None => index_for(iv, col@) is None,
            }
        }),
{
    let ghost iv = indexes@.map_values(|e: (String, Index)| (e.0@, e.1@));
    let n = indexes.len();
    let mut i: usize = 0;
    proof {
        assert(iv.skip(0) =~= iv);
    }
    while i < n
        invariant
            0 <= i <= n,
            n == indexes@.len(),
            iv == indexes@.map_values(|e: (String, Index)| (e.0@, e.1@)),
            index_for(iv, col@) == index_for(iv.skip(i as int), col@),
        decreases n - i,
    {
        proof {
            assert(iv.skip(i as int)[0] == iv[i as int]);
            assert(iv.skip(i as int).drop_first() =~= iv.skip(i + 1));
            assert(iv[i as int].0 == indexes@[i as int].0@);
        }
        if str_eq(indexes[i].0.as_str(), col) {
            return Some(i);
        }
        i = i + 1;
    }
    proof {
        assert(iv.skip(n as int) =~= Seq::<(Seq<char>, IndexV)>::empty());
    }
    None
}

/// Among clauses whose column has an index, the one with the smallest
/// estimated match count; ties keep the earliest clause.
pub fn find_best_index(table: &Table, clauses: &Vec<WhereClause>) -> (r: Option<usize>)
    requires
        table_wf(table@),
        clauses_wf(clauses@.map_values(|c: WhereClause| c@)),
    ensures
        ({
            let cs = clauses@.map_values(|c: WhereClause| c@);
            match r {
                Some(b) => {
                    &&& 0 <= b < cs.len()
                    &&& clause_candidate(table@, cs[b as int])
                    &&& forall|j: int|
                        0 <= j < cs.len() && clause_candidate(table@, #[trigger] cs[j])
                            ==> clause_hits(table@, cs[b as int]) <= clause_hits(table@, cs[j])
                    &&& forall|j: int|
                        0 <= j < b && clause_candidate(table@, #[trigger] cs[j]) ==> clause_hits(
                            table@,
                            cs[b as int],
                        ) < clause_hits(table@, cs[j])
                },
                None => forall|j: int|
                    0 <= j < cs.len() ==> !clause_candidate(table@, #[trigger] cs[j]),
            }
        }),
{
    let ghost cs = clauses@.map_values(|c: WhereClause| c@);
    let n = clauses.len();
    let mut best: Option<usize> = None;
    let mut best_hits: usize = 0;
    let mut i: usize = 0;
    while i < n
        invariant
            0 <= i <= n,
            n == clauses@.len(),
            cs == clauses@.map_values(|c: WhereClause| c@),
            table_wf(table@),
            clauses_wf(cs),
            match best {
                Some(b) => {
                    &&& 0 <= b < i
                    &&& clause_candidate(table@, cs[b as int])
                    &&& best_hits == clause_hits(table@, cs[b as int])
                    &&& forall|j: int|
                        0 <= j < i && clause_candidate(table@, #[trigger] cs[j]) ==> best_hits
                            <= clause_hits(table@, cs[j])
                    &&& forall|j: int|
                        0 <= j < b && clause_candidate(table@, #[trigger] cs[j])
                            ==> best_hits < clause_hits(table@, cs[j])
                },
                None => forall|j: int|
                    0 <= j < i ==> !clause_candidate(table@, #[trigger] cs[j]),
            },
        decreases n - i,
    {
        proof {
            assert(cs[i as int] == clauses@[i as int]@);
        }
        if let Some(p) = find_index_pos(&table.indexes, clauses[i].left_hand.as_str()) {
            proof {
                assert(table@.indexes[p as int].1.index_data == table.indexes@[p as int].1@.index_data);
                assert(store_wf(table@.indexes[p as int].1.index_data));
            }
            let hits = count_hits(&table.indexes[p].1.index_data, &clauses[i]);
            let better = match best {
                Some(_) => hits < best_hits,
                None => true,
            };
            if better {
                best = Some(i);
                best_hits = hits;
            }
        }
        i = i + 1;
    }
    best
}

fn clone_data(d: &Vec<(Value, Row)>) -> (r: Vec<(Value, Row)>)
    ensures
        r@.map_values(|e: (Value, Row)| (e.0@, e.1@)) == d@.map_values(
            |e: (Value, Row)| (e.0@, e.1@),
        ),
{
    let n = d.len();
    let mut out: Vec<(Value, Row)> = Vec::new();
    let mut i: usize = 0;
    while i < n
        invariant
            0 <= i <= n,
            n == d@.len(),
            out@.len() == i,
            forall|j: int| 0 <= j < i ==> (#[trigger] out@[j]).0@ == d@[j].0@ && out@[j].1@
                == d@[j].1@,
        decreases n - i,
    {
        out.push((d[i].0.clone(), d[i].1.clone()));
        i = i + 1;
    }
    proof {
        assert(out@.map_values(|e: (Value, Row)| (e.0@, e.1@)) =~= d@.map_values(
            |e: (Value, Row)| (e.0@, e.1@),
        ));
    }
    out
}

/// Evaluate a query against a table: with no WHERE chain every row comes
/// back; otherwise the cheapest indexed clause is costed (the heuristic
/// only estimates — it never narrows the scan) and every row is tested
/// against the full clause chain.
pub fn evaluate_query(table: &Table, query: &Query) -> (r: Vec<(Value, Row)>)
    requires
        table_wf(table@),
        query@.wf(),
    ensures
        r@.map_values(|e: (Value, Row)| (e.0@, e.1@)) == filter_data(table@.data, query@),
{
    let clauses = match &query.where_clause {
        Some(clauses) => clauses,
        None => {
            let r = clone_data(&table.data);
            proof {
                lemma_filter_data_all(table@.data, query@);
            }
            return r;
        },
    };
    // The driving clause is chosen for its cost estimate alone; results
    // always come from the full scan below.
    let _cost_choice = find_best_index(table, clauses);
    let ghost dv = table@.data;
    let n = table.data.len();
    let mut out: Vec<(Value, Row)> = Vec::new();
    let mut i: usize = 0;
    proof {
        assert(dv.take(0) =~= Seq::<(ValueV, RowV)>::empty());
    }
    while i < n
        invariant
            0 <= i <= n,
            n == table.data@.len(),
            dv == table@.data,
            table_wf(table@),
            query@.wf(),
            query.where_clause == Some(*clauses),
            query@.where_clause == Some(clauses@.map_values(|c: WhereClause| c@)),
            out@.map_values(|e: (Value, Row)| (e.0@, e.1@)) == filter_data(
                dv.take(i as int),
                query@,
            ),
        decreases n - i,
    {
        proof {
            assert(dv.take(i + 1).drop_last() =~= dv.take(i as int));
            assert(dv.take(i + 1).last() == dv[i as int]);
            assert(dv[i as int] == (table.data@[i as int].0@, table.data@[i as int].1@));
            assert(row_vals_wf(dv[i as int].1));
        }
        let ghost pre = out@.map_values(|e: (Value, Row)| (e.0@, e.1@));
        if passes_clauses(&table.data[i], clauses) {
            out.push((table.data[i].0.clone(), table.data[i].1.clone()));
            proof {
                assert(out@.map_values(|e: (Value, Row)| (e.0@, e.1@)) =~= pre.push(
                    dv[i as int],
                ));
            }
        }
        i = i + 1;
    }
    proof {
        assert(dv.take(n as int) =~= dv);
    }
    out
}

pub proof fn lemma_filter_data_all(d: Seq<(ValueV, RowV)>, q: QueryV)
    requires
        q.where_clause is None,
    ensures
        filter_data(d, q) == d,
    decreases d.len(),
{
    if d.len() > 0 {
        lemma_filter_data_all(d.drop_last(), q);
        assert(filter_data(d, q) =~= d);
    }
}


/// Whether any row in the table holds a cell under this name.
pub open spec fn field_in_rows(d: Seq<(ValueV, RowV)>, f: Seq<char>) -> bool {
    exists|i: int| 0 <= i < d.len() && row_get(#[trigger] d[i].1, f) is Some
}

/// The projected names that no row in the table carries (the wildcard is
/// never reported missing), in projection order.
pub open spec fn spec_missing(sel: Seq<Seq<char>>, d: Seq<(ValueV, RowV)>) -> Seq<Seq<char>>
    decreases sel.len(),
{
    if sel.len() == 0 {
        Seq::empty()
    } else if sel.last() != "*"@ && !field_in_rows(d, sel.last()) {
        spec_missing(sel.drop_last(), d).push(sel.last())
    } else {
        spec_missing(sel.drop_last(), d)
    }
}

/// The schema columns with the given primary-key flag, in schema order.
pub open spec fn keep_pk(s: Seq<FieldDefV>, want: bool) -> Seq<FieldDefV>
    decreases s.len(),
{
    if s.len() == 0 {
        Seq::empty()
    } else if s.last().primary_key == want {
        keep_pk(s.drop_last(), want).push(s.last())
    } else {
        keep_pk(s.drop_last(), want)
    }
}

/// A column is kept by the projection when named in it, or when the
/// projection is exactly the wildcard.
pub open spec fn is_projected(sel: Seq<Seq<char>>, name: Seq<char>) -> bool {
    (exists|i: int| 0 <= i < sel.len() && sel[i] == name) || sel == seq!["*"@]
}

/// The schema reordered primary-key first, each column marked with whether
/// the projection keeps it.
pub open spec fn spec_marked_schema(schema: Seq<FieldDefV>, sel: Seq<Seq<char>>) -> Seq<
    (bool, FieldDefV),
> {
    (keep_pk(schema, true) + keep_pk(schema, false)).map_values(
        |f: FieldDefV| (is_projected(sel, f.name), f),
    )
}

fn is_projected_exec(sel: &Vec<String>, name: &str) -> (r: bool)
    ensures
        r == is_projected(sel@.map_values(|s: String| s@), name@),
{
    let ghost sv = sel@.map_values(|s: String| s@);
    proof {
        reveal_strlit("*");
    }
    if sel.len() == 1 && str_eq(sel[0].as_str(), "*") {
        proof {
            assert(sv =~= seq!["*"@]);
        }
        return true;
    }
    let n = sel.len();
    let mut i: usize = 0;
    while i < n
        invariant
            0 <= i <= n,
            n == sel@.len(),
            sv == sel@.map_values(|s: String| s@),
            forall|j: int| 0 <= j < i ==> (#[trigger] sv[j]) != name@,
        decreases n - i,
    {
        proof {
            assert(sv[i as int] == sel@[i as int]@);
        }
        if str_eq(sel[i].as_str(), name) {
            return true;
        }
        i = i + 1;
    }
    proof {
        if sv == seq!["*"@] {
            assert(sv.len() == 1);
            assert(sv[0] == "*"@);
            assert(sv[0] == sel@[0]@);
        }
    }
    false
}

fn field_known(data: &Vec<(Value, Row)>, f: &str) -> (r: bool)
    ensures
        r == field_in_rows(data@.map_values(|e: (Value, Row)| (e.0@, e.1@)), f@),
{
    let ghost dv = data@.map_values(|e: (Value, Row)| (e.0@, e.1@));
    let n = data.len();
    let mut i: usize = 0;
    while i < n
        invariant
            0 <= i <= n,
            n == data@.len(),
            dv == data@.map_values(|e: (Value, Row)| (e.0@, e.1@)),
            forall|j: int| 0 <= j < i ==> row_get(#[trigger] dv[j].1, f@) is None,
        decreases n - i,
    {
        proof {
            assert(dv[i as int].1 == data@[i as int].1@);
        }
        if data[i].1.get(f).is_some() {
            return true;
        }
        i = i + 1;
    }
    false
}

/// What a SELECT reports: the matching rows, the projected names no row
/// carries, and the schema reordered primary-key first with projection
/// marks.
pub struct SelectReturn {
    pub filtered: Vec<(Value, Row)>,
    pub missing: Vec<String>,
    pub schema: Vec<(bool, FieldDef)>,
}

/// Run a SELECT against a table snapshot: parse the tokens, filter the
/// rows, and report projection bookkeeping (left empty when nothing
/// matched).
pub fn select(table: &Table, query: Vec<String>) -> (r: SelectReturn)
    requires
        table_wf(table@),
    ensures
        ({
            let q = spec_build_query(query@.map_values(|s: String| s@));
            let filtered = filter_data(table@.data, q);
            &&& r.filtered@.map_values(|e: (Value, Row)| (e.0@, e.1@)) == filtered
            &&& filtered.len() == 0 ==> r.missing@.len() == 0 && r.schema@.len() == 0
            &&& filtered.len() > 0 ==> r.missing@.map_values(|s: String| s@) == spec_missing(
                q.select,
                table@.data,
            ) && r.schema@.map_values(|e: (bool, FieldDef)| (e.0, e.1@)) == spec_marked_schema(
                table@.schema,
                q.select,
            )
        }),
{
    let built_query: Query = build_query(query);
    let filtered = evaluate_query(table, &built_query);
    if filtered.len() == 0 {
        return SelectReturn { filtered, missing: Vec::new(), schema: Vec::new() };
    }
    proof {
        assert(filter_data(table@.data, built_query@).len() == filtered@.map_values(
            |e: (Value, Row)| (e.0@, e.1@),
        ).len());
    }
    let ghost sel = built_query@.select;
    let ghost dv = table@.data;
    let mut missing: Vec<String> = Vec::new();
    let n = built_query.select.len();
    let mut i: usize = 0;
    proof {
        assert(sel.take(0) =~= Seq::<Seq<char>>::empty());
        assert(missing@.map_values(|s: String| s@) =~= Seq::<Seq<char>>::empty());
        reveal_strlit("*");
    }
    while i < n
        invariant
            0 <= i <= n,
            n == built_query.select@.len(),
            sel == built_query@.select,
            dv == table@.data,
            missing@.map_values(|s: String| s@) == spec_missing(sel.take(i as int), dv),
        decreases n - i,
    {
        proof {
            assert(sel.take(i + 1).drop_last() =~= sel.take(i as int));
            assert(sel.take(i + 1).last() == sel[i as int]);
            assert(sel[i as int] == built_query.select@[i as int]@);
        }
        let f = &built_query.select[i];
        let ghost pre = missing@.map_values(|s: String| s@);
        if !field_known(&table.data, f.as_str()) && !str_eq(f.as_str(), "*") {
            missing.push(f.clone());
            proof {
                assert(missing@.map_values(|s: String| s@) =~= pre.push(sel[i as int]));
            }
        }
        i = i + 1;
    }
    proof {
        assert(sel.take(n as int) =~= sel);
    }
    let ghost schv = table@.schema;
    let mut sorted: Vec<FieldDef> = Vec::new();
    let m = table.schema.len();
    let mut k: usize = 0;
    proof {
        assert(schv.take(0) =~= Seq::<FieldDefV>::empty());
        assert(sorted@.map_values(|f: FieldDef| f@) =~= Seq::<FieldDefV>::empty());
    }
    while k < m
        invariant
            0 <= k <= m,
            m == table.schema@.len(),
            schv == table@.schema,
            sorted@.map_values(|f: FieldDef| f@) == keep_pk(schv.take(k as int), true),
        decreases m - k,
    {
        proof {
            assert(schv.take(k + 1).drop_last() =~= schv.take(k as int));
            assert(schv.take(k + 1).last() == schv[k as int]);
            assert(schv[k as int] == table.schema@[k as int]@);
        }
        let ghost pre = sorted@.map_values(|f: FieldDef| f@);
        if table.schema[k].primary_key {
            sorted.push(table.schema[k].clone());
            proof {
                assert(sorted@.map_values(|f: FieldDef| f@) =~= pre.push(schv[k as int]));
            }
        }
        k = k + 1;
    }
    proof {
        assert(schv.take(m as int) =~= schv);
    }
    let ghost pk_part = keep_pk(schv, true);
    let mut k2: usize = 0;
    proof {
        assert(schv.take(0) =~= Seq::<FieldDefV>::empty());
        assert(pk_part + keep_pk(schv.take(0), false) =~= pk_part);
    }
    while k2 < m
        invariant
            0 <= k2 <= m,
            m == table.schema@.len(),
            schv == table@.schema,
            pk_part == keep_pk(schv, true),
            sorted@.map_values(|f: FieldDef| f@) == pk_part + keep_pk(schv.take(k2 as int), false),
        decreases m - k2,
    {
        proof {
            assert(schv.take(k2 + 1).drop_last() =~= schv.take(k2 as int));
            assert(schv.take(k2 + 1).last() == schv[k2 as int]);
            assert(schv[k2 as int] == table.schema@[k2 as int]@);
        }
        let ghost pre = sorted@.map_values(|f: FieldDef| f@);
        if !table.schema[k2].primary_key {
            sorted.push(table.schema[k2].clone());
            proof {
                assert(sorted@.map_values(|f: FieldDef| f@) =~= pre.push(schv[k2 as int]));
                assert(pk_part + keep_pk(schv.take(k2 + 1), false) =~= pre.push(schv[k2 as int]));
            }
        } else {
            proof {
                assert(pk_part + keep_pk(schv.take(k2 + 1), false) =~= pre);
            }
        }
        k2 = k2 + 1;
    }
    proof {
        assert(schv.take(m as int) =~= schv);
    }
    let ghost sortedv = pk_part + keep_pk(schv, false);
    let mut marked: Vec<(bool, FieldDef)> = Vec::new();
    let sn = sorted.len();
    let mut k3: usize = 0;
    while k3 < sn
        invariant
            0 <= k3 <= sn,
            sn == sorted@.len(),
            sortedv == sorted@.map_values(|f: FieldDef| f@),
            sel == built_query@.select,
            marked@.len() == k3,
            forall|j: int| 0 <= j < k3 ==> (#[trigger] marked@[j]).0 == is_projected(
                sel,
                sortedv[j].name,
            ) && marked@[j].1@ == sortedv[j],
        decreases sn - k3,
    {
        proof {
            assert(sortedv[k3 as int] == sorted@[k3 as int]@);
        }
        let b = is_projected_exec(&built_query.select, sorted[k3].name.as_str());
        marked.push((b, sorted[k3].clone()));
        k3 = k3 + 1;
    }
    proof {
        assert(marked@.map_values(|e: (bool, FieldDef)| (e.0, e.1@)) =~= sortedv.map_values(
            |f: FieldDefV| (is_projected(sel, f.name), f),
        ));
    }
    SelectReturn { filtered, missing, schema: marked }
}

} // verus!
