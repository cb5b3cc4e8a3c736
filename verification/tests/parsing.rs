use ezpzdb::num::{Decimal, IndexNumber, Rank, num_cmp};
use ezpzdb::query;
use ezpzdb::select::{Condition, Connector, HandType, build_query};
use ezpzdb::text::{parse_bool, parse_decimal, parse_i64, render_decimal, render_i64, str_lt, str_trim};

fn toks(words: &[&str]) -> Vec<String> {
    words.iter().map(|w| w.to_string()).collect()
}

#[test]
fn parse_integers() {
    assert_eq!(parse_i64("0"), Some(0));
    assert_eq!(parse_i64("+5"), Some(5));
    assert_eq!(parse_i64("-17"), Some(-17));
    assert_eq!(parse_i64("9223372036854775807"), Some(i64::MAX));
    assert_eq!(parse_i64("-9223372036854775808"), Some(i64::MIN));
    assert_eq!(parse_i64("9223372036854775808"), None);
    assert_eq!(parse_i64(""), None);
    assert_eq!(parse_i64("-"), None);
    assert_eq!(parse_i64("12a"), None);
    assert_eq!(parse_i64("1.5"), None);
}

#[test]
fn parse_decimals() {
    let d = parse_decimal("2.0").unwrap();
    assert_eq!(d.mant, 2);
    assert_eq!(d.scale, 0);
    let d = parse_decimal("2.50").unwrap();
    assert_eq!(d.mant, 25);
    assert_eq!(d.scale, 1);
    let d = parse_decimal("-0.05").unwrap();
    assert_eq!(d.mant, -5);
    assert_eq!(d.scale, 2);
    let d = parse_decimal(".5").unwrap();
    assert_eq!(d.mant, 5);
    assert_eq!(d.scale, 1);
    let d = parse_decimal("7.").unwrap();
    assert_eq!(d.mant, 7);
    assert_eq!(d.scale, 0);
    assert!(parse_decimal("1.2.3").is_none());
    assert!(parse_decimal(".").is_none());
    assert!(parse_decimal("abc").is_none());
    assert!(parse_decimal("").is_none());
}

#[test]
fn parse_booleans() {
    assert_eq!(parse_bool("true"), Some(true));
    assert_eq!(parse_bool("false"), Some(false));
    assert_eq!(parse_bool("True"), None);
    assert_eq!(parse_bool("1"), None);
}

#[test]
fn numeric_order_crosses_representations() {
    let two = IndexNumber::Int(2);
    let two_dec = IndexNumber::Float(Decimal { mant: 2, scale: 0 });
    let half = IndexNumber::Float(Decimal { mant: 5, scale: 1 });
    assert_eq!(num_cmp(&two, &two_dec), Rank::Equal);
    assert_eq!(num_cmp(&half, &two), Rank::Less);
    assert_eq!(num_cmp(&two, &half), Rank::Greater);
    assert_eq!(
        num_cmp(&IndexNumber::Int(-3), &IndexNumber::Float(Decimal { mant: -25, scale: 1 })),
        Rank::Less
    );
}

#[test]
fn render_numbers() {
    assert_eq!(render_i64(0).as_str(), "0");
    assert_eq!(render_i64(-45).as_str(), "-45");
    assert_eq!(render_i64(i64::MIN).as_str(), "-9223372036854775808");
    assert_eq!(render_decimal(&Decimal { mant: 2, scale: 0 }).as_str(), "2.0");
    assert_eq!(render_decimal(&Decimal { mant: 25, scale: 1 }).as_str(), "2.5");
    assert_eq!(render_decimal(&Decimal { mant: -5, scale: 2 }).as_str(), "-0.05");
}

#[test]
fn trim_and_order() {
    assert_eq!(str_trim("  a b \t").as_str(), "a b");
    assert_eq!(str_trim("x").as_str(), "x");
    assert_eq!(str_trim("   ").as_str(), "");
    assert!(str_lt("abc", "abd"));
    assert!(str_lt("ab", "abc"));
    assert!(!str_lt("b", "a"));
    assert!(!str_lt("a", "a"));
}

#[test]
fn build_query_splits_clauses() {
    let q = build_query(toks(&["*", "FROM", "people", "WHERE", "age", ">", "30", "AND", "name", "=", "Bo"]));
    assert_eq!(q.select.len(), 1);
    assert_eq!(q.select[0].as_str(), "*");
    assert_eq!(q.from.as_str(), "people");
    let clauses = q.where_clause.expect("clauses");
    assert_eq!(clauses.len(), 2);
    assert_eq!(clauses[0].left_hand.as_str(), "age");
    assert!(matches!(clauses[0].operator, Condition::GreaterThan));
    assert!(matches!(clauses[0].right_hand, HandType::Integer(30)));
    assert!(clauses[0].connector.is_none());
    assert!(matches!(clauses[1].connector, Some(Connector::AND)));
    assert_eq!(clauses[1].left_hand.as_str(), "name");
    match &clauses[1].right_hand {
        HandType::Str(s) => assert_eq!(s.as_str(), "Bo"),
        _ => panic!("expected a text literal"),
    }
}

#[test]
fn build_query_infers_literal_kind() {
    let q = build_query(toks(&["*", "FROM", "t", "WHERE", "a", "=", "2.5"]));
    let clauses = q.where_clause.unwrap();
    match &clauses[0].right_hand {
        HandType::Float(d) => {
            assert_eq!(d.mant, 25);
            assert_eq!(d.scale, 1);
        },
        _ => panic!("expected a decimal literal"),
    }
    let q = build_query(toks(&["*", "FROM", "t", "WHERE", "a", "=", "true"]));
    assert!(matches!(q.where_clause.unwrap()[0].right_hand, HandType::Boolean(true)));
    // an integer past the 32-bit range reads as a decimal literal
    let q = build_query(toks(&["*", "FROM", "t", "WHERE", "a", "=", "3000000000"]));
    match &q.where_clause.unwrap()[0].right_hand {
        HandType::Float(d) => {
            assert_eq!(d.mant, 3000000000);
            assert_eq!(d.scale, 0);
        },
        _ => panic!("expected a decimal literal"),
    }
}

#[test]
fn build_query_without_where_has_no_clauses() {
    let q = build_query(toks(&["name", "age", "FROM", "people"]));
    assert_eq!(q.select.len(), 2);
    assert!(q.where_clause.is_none());
    assert_eq!(q.from.as_str(), "people");
}

#[test]
fn from_tokens_concatenate() {
    let q = build_query(toks(&["*", "FROM", "peo", "ple"]));
    assert_eq!(q.from.as_str(), "people");
}

#[test]
fn unknown_operator_reads_as_equality_here() {
    let q = build_query(toks(&["*", "FROM", "t", "WHERE", "a", "~", "1"]));
    assert!(matches!(q.where_clause.unwrap()[0].operator, Condition::Equals));
}

#[test]
fn legacy_query_surface_requires_select_keyword() {
    let q = query::build_query(toks(&["dropped", "SELECT", "a", "FROM", "t"]));
    assert_eq!(q.select.len(), 1);
    assert_eq!(q.select[0].as_str(), "a");
    let q2 = query::build_query(toks(&["*", "FROM", "t", "WHERE", "a", "~", "1"]));
    assert!(matches!(
        q2.where_clause.unwrap()[0].operator,
        query::Condition::Invalid
    ));
}
