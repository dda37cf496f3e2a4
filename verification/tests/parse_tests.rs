use cgol::parse::{init, parse_pattern, ParseError};
use cgol::sim::LiveSet;

fn parsed_cells_sorted(ls: &LiveSet) -> Vec<(isize, isize)> {
    let mut v = ls.iterate();
    v.sort();
    v.dedup();
    v
}

#[test]
fn malformed_seed_without_brackets_is_rejected() {
    assert!(matches!(
        parse_pattern(b"(0,1),(1,1)"),
        Err(ParseError::Malformed)
    ));
}

#[test]
fn well_formed_seed_parses_to_its_cells() {
    let ls = match parse_pattern(b"[(0,1),(1,1),(2,1)]") {
        Ok(ls) => ls,
        Err(_) => panic!("seed should parse"),
    };
    assert_eq!(parsed_cells_sorted(&ls), vec![(0, 1), (1, 1), (2, 1)]);
}

#[test]
fn single_pair_parses() {
    let ls = match parse_pattern(b"[(4,9)]") {
        Ok(ls) => ls,
        Err(_) => panic!("seed should parse"),
    };
    assert_eq!(parsed_cells_sorted(&ls), vec![(4, 9)]);
}

#[test]
fn leading_zeros_are_accepted() {
    let ls = match parse_pattern(b"[(007,05)]") {
        Ok(ls) => ls,
        Err(_) => panic!("seed should parse"),
    };
    assert_eq!(parsed_cells_sorted(&ls), vec![(7, 5)]);
}

#[test]
fn duplicate_coordinates_collapse() {
    let ls = match parse_pattern(b"[(1,1),(1,1),(2,2)]") {
        Ok(ls) => ls,
        Err(_) => panic!("seed should parse"),
    };
    assert_eq!(parsed_cells_sorted(&ls), vec![(1, 1), (2, 2)]);
}

#[test]
fn empty_list_is_rejected() {
    assert!(matches!(parse_pattern(b"[]"), Err(ParseError::Malformed)));
}

#[test]
fn empty_string_is_rejected() {
    assert!(matches!(parse_pattern(b""), Err(ParseError::Malformed)));
}

#[test]
fn trailing_text_is_rejected() {
    assert!(matches!(
        parse_pattern(b"[(0,0)] "),
        Err(ParseError::Malformed)
    ));
}

#[test]
fn inner_space_is_rejected() {
    assert!(matches!(
        parse_pattern(b"[(0, 1)]"),
        Err(ParseError::Malformed)
    ));
}

#[test]
fn missing_closing_bracket_is_rejected() {
    assert!(matches!(
        parse_pattern(b"[(0,0)"),
        Err(ParseError::Malformed)
    ));
}

#[test]
fn negative_coordinate_is_rejected() {
    assert!(matches!(
        parse_pattern(b"[(-1,0)]"),
        Err(ParseError::Malformed)
    ));
}

#[test]
fn oversized_coordinate_is_out_of_range() {
    assert!(matches!(
        parse_pattern(b"[(99999999999999999999999999999,0)]"),
        Err(ParseError::OutOfRange)
    ));
}

#[test]
fn largest_machine_integer_fits() {
    let ls = match parse_pattern(b"[(9223372036854775807,0)]") {
        Ok(ls) => ls,
        Err(_) => panic!("seed should parse"),
    };
    assert_eq!(parsed_cells_sorted(&ls), vec![(isize::MAX, 0)]);
}

#[test]
fn one_past_largest_machine_integer_is_out_of_range() {
    assert!(matches!(
        parse_pattern(b"[(9223372036854775808,0)]"),
        Err(ParseError::OutOfRange)
    ));
}

#[test]
fn syntax_error_outranks_oversized_coordinate() {
    assert!(matches!(
        parse_pattern(b"[(99999999999999999999999999999,0)"),
        Err(ParseError::Malformed)
    ));
}

#[test]
fn init_rejects_malformed_seed_before_any_tick() {
    assert!(matches!(
        init(5, 5, b"(0,1),(1,1)"),
        Err(ParseError::Malformed)
    ));
}

#[test]
fn init_sets_dimensions_and_both_buffers() {
    let w = match init(3, 4, b"[(0,0),(2,1)]") {
        Ok(w) => w,
        Err(_) => panic!("seed should parse"),
    };
    assert_eq!(w.height, 3);
    assert_eq!(w.width, 4);
    assert_eq!(parsed_cells_sorted(&w.current), vec![(0, 0), (2, 1)]);
    assert_eq!(parsed_cells_sorted(&w.next), vec![(0, 0), (2, 1)]);
}
