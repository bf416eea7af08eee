use price_store::query::{
    equal, greater, greater_equal, lesser, lesser_equal, parse_query, Clause, Comp, PredicateSet,
};
use price_store::timestamp::Timestamp;

fn toks(words: &[&str]) -> Vec<String> {
    words.iter().map(|w| w.to_string()).collect()
}

#[test]
fn comparators_parse() {
    assert_eq!(Comp::from_str("<"), Some(Comp::Lesser));
    assert_eq!(Comp::from_str("<="), Some(Comp::LesserEqual));
    assert_eq!(Comp::from_str("=="), Some(Comp::Equal));
    assert_eq!(Comp::from_str(">="), Some(Comp::GreaterEqual));
    assert_eq!(Comp::from_str(">"), Some(Comp::Greater));
    assert_eq!(Comp::from_str("="), None);
    assert_eq!(Comp::from_str("<>"), None);
}

#[test]
fn comparison_functions() {
    assert!(lesser(1, 2) && !lesser(2, 2) && !lesser(3, 2));
    assert!(lesser_equal(2, 2) && lesser_equal(1, 2) && !lesser_equal(3, 2));
    assert!(equal(2, 2) && !equal(1, 2));
    assert!(greater_equal(2, 2) && greater_equal(3, 2) && !greater_equal(1, 2));
    assert!(greater(3, 2) && !greater(2, 2) && !greater(1, 2));
}

#[test]
fn no_trigger_word_means_no_clauses() {
    let ps = parse_query(&toks(&["year", "==", "2023"]));
    assert_eq!(ps, PredicateSet::empty());
    // and an empty predicate set accepts anything
    let t = Timestamp::new(1999, 7, 4, 4).unwrap();
    assert!(ps.evaluate(t, -5_000_000));
}

#[test]
fn clauses_form_around_comparators() {
    let ps = parse_query(&toks(&["where", "year", "==", "2023", "hour", "<", "10"]));
    assert_eq!(ps.year, Some(Clause { comp: Comp::Equal, rhs: 2023 }));
    assert_eq!(ps.hour, Some(Clause { comp: Comp::Lesser, rhs: 10 }));
    assert_eq!(ps.month, None);
    assert_eq!(ps.day, None);
    assert_eq!(ps.price, None);
}

#[test]
fn trigger_and_fields_are_case_insensitive() {
    let ps = parse_query(&toks(&["WHERE", "Year", ">=", "2020"]));
    assert_eq!(ps.year, Some(Clause { comp: Comp::GreaterEqual, rhs: 2020 }));
    let ps2 = parse_query(&toks(&["If", "PRICE", ">", "5"]));
    assert_eq!(ps2.price, Some(Clause { comp: Comp::Greater, rhs: 5_000_000 }));
}

#[test]
fn malformed_operand_drops_only_its_clause() {
    let ps = parse_query(&toks(&["where", "price", ">", "abc", "year", "==", "2023"]));
    assert_eq!(ps.price, None);
    assert_eq!(ps.year, Some(Clause { comp: Comp::Equal, rhs: 2023 }));
}

#[test]
fn unknown_field_is_dropped() {
    let ps = parse_query(&toks(&["where", "minute", "<", "30", "day", "<=", "15"]));
    assert_eq!(ps, PredicateSet { day: Some(Clause { comp: Comp::LesserEqual, rhs: 15 }), ..PredicateSet::empty() });
}

#[test]
fn out_of_domain_operand_is_dropped() {
    let ps = parse_query(&toks(&["where", "month", ">", "13", "hour", "<", "24"]));
    assert_eq!(ps, PredicateSet::empty());
}

#[test]
fn later_clause_for_a_field_wins() {
    let ps = parse_query(&toks(&["where", "hour", "<", "5", "hour", "<", "7"]));
    assert_eq!(ps.hour, Some(Clause { comp: Comp::Lesser, rhs: 7 }));
}

#[test]
fn comparator_at_the_edges_forms_no_clause() {
    let ps = parse_query(&toks(&["<", "where", "year", "=="]));
    assert_eq!(ps, PredicateSet::empty());
}

#[test]
fn evaluate_is_a_conjunction() {
    let ps = parse_query(&toks(&["where", "year", "==", "2023", "hour", "<", "10"]));
    let yes = Timestamp::new(2023, 5, 20, 9).unwrap();
    let wrong_year = Timestamp::new(2024, 5, 20, 9).unwrap();
    let wrong_hour = Timestamp::new(2023, 5, 20, 10).unwrap();
    assert!(ps.evaluate(yes, 0));
    assert!(!ps.evaluate(wrong_year, 0));
    assert!(!ps.evaluate(wrong_hour, 0));
}

#[test]
fn price_equality_is_exact() {
    let ps = parse_query(&toks(&["where", "price", "==", "3.5"]));
    let t = Timestamp::new(2024, 1, 1, 0).unwrap();
    assert!(ps.evaluate(t, 3_500_000));
    assert!(!ps.evaluate(t, 3_500_001));
}
