use dimacs_unify::cnf::CNF;
use dimacs_unify::dimacs::{parse_dimacs, FormatError};

fn strings(items: &[&str]) -> Vec<String> {
    items.iter().map(|s| s.to_string()).collect()
}

fn text_of(cnf: &CNF) -> String {
    let mut out = String::new();
    cnf.write_dimacs(&mut out);
    out
}

#[test]
fn parse_reads_comments_header_and_clauses() {
    let cnf = parse_dimacs("c 1 X\nc   free text  \np cnf 3 2\n1 -2 0\n\n3 0\n").unwrap();
    assert_eq!(cnf.num_vars, 3);
    assert_eq!(cnf.num_clauses, 2);
    assert_eq!(cnf.clauses, vec![vec![1, -2], vec![3]]);
    assert_eq!(cnf.comments, strings(&["1 X", "free text"]));
}

#[test]
fn parse_of_empty_text_is_the_empty_formula() {
    let cnf = parse_dimacs("").unwrap();
    assert_eq!(cnf, CNF { num_vars: 0, num_clauses: 0, clauses: vec![], comments: vec![] });
    let blank = parse_dimacs("\n  \n\t\n").unwrap();
    assert_eq!(blank, cnf);
}

#[test]
fn parse_records_the_declared_count_as_it_stands() {
    let cnf = parse_dimacs("p cnf 4 7\n1 0\n").unwrap();
    assert_eq!(cnf.num_vars, 4);
    assert_eq!(cnf.num_clauses, 7);
    assert_eq!(cnf.clauses.len(), 1);
}

#[test]
fn parse_stops_a_clause_at_the_first_zero() {
    let cnf = parse_dimacs("p cnf 5 3\n1 2 0 3 junk\n0\n-4 +5").unwrap();
    assert_eq!(cnf.clauses, vec![vec![1, 2], vec![], vec![-4, 5]]);
}

#[test]
fn parse_accepts_other_line_ends_and_white_space() {
    let cnf = parse_dimacs("c note\r\n p cnf 2 1 \r\n\t1\u{a0}-2   0\r\n").unwrap();
    assert_eq!(cnf.comments, strings(&["note"]));
    assert_eq!(cnf.num_vars, 2);
    assert_eq!(cnf.clauses, vec![vec![1, -2]]);
}

#[test]
fn parse_takes_every_line_that_begins_with_c_as_a_comment() {
    let cnf = parse_dimacs("cnf\nc\nc7 x\n").unwrap();
    assert_eq!(cnf.comments, strings(&["nf", "", "7 x"]));
    assert!(cnf.clauses.is_empty());
}

#[test]
fn the_last_header_decides() {
    let cnf = parse_dimacs("p cnf 1 1\np cnf 9 8 7\n").unwrap();
    assert_eq!(cnf.num_vars, 9);
    assert_eq!(cnf.num_clauses, 8);
}

#[test]
fn a_header_without_its_numbers_is_malformed() {
    assert_eq!(parse_dimacs("p cnf 3\n"), Err(FormatError::MalformedHeader));
    assert_eq!(parse_dimacs("p cnf\n"), Err(FormatError::MalformedHeader));
    assert_eq!(parse_dimacs("p cnf x 2\n"), Err(FormatError::MalformedHeader));
    assert_eq!(parse_dimacs("p cnf 2 -1\n"), Err(FormatError::MalformedHeader));
    assert_eq!(
        parse_dimacs("p cnf 2 99999999999999999999999999\n"),
        Err(FormatError::MalformedHeader)
    );
}

#[test]
fn a_token_that_is_no_number_is_a_malformed_literal() {
    assert_eq!(parse_dimacs("1 x 0\n"), Err(FormatError::MalformedLiteral));
    assert_eq!(parse_dimacs("p  cnf 1 1\n"), Err(FormatError::MalformedLiteral));
    assert_eq!(parse_dimacs("1 2147483648 0\n"), Err(FormatError::MalformedLiteral));
    assert_eq!(parse_dimacs("1 - 0\n"), Err(FormatError::MalformedLiteral));
    assert_eq!(parse_dimacs("1.5 0\n"), Err(FormatError::MalformedLiteral));
}

#[test]
fn the_first_malformed_line_decides_the_error() {
    assert_eq!(parse_dimacs("1 y\np cnf\n"), Err(FormatError::MalformedLiteral));
    assert_eq!(parse_dimacs("p cnf\n1 y\n"), Err(FormatError::MalformedHeader));
}

#[test]
fn literals_at_the_ends_of_the_range_are_read() {
    let cnf = parse_dimacs("-2147483648 2147483647 -0000000001 0").unwrap();
    assert_eq!(cnf.clauses, vec![vec![i32::MIN, i32::MAX, -1]]);
}

#[test]
fn errors_describe_themselves() {
    assert_eq!(FormatError::MalformedHeader.message(), "malformed problem header");
    assert_eq!(FormatError::MalformedLiteral.message(), "malformed literal in clause");
}

#[test]
fn write_gives_comments_header_and_clauses() {
    let cnf = CNF {
        num_vars: 3,
        num_clauses: 9,
        clauses: vec![vec![1, -2], vec![], vec![3]],
        comments: strings(&["1 X", "", "text"]),
    };
    assert_eq!(text_of(&cnf), "c 1 X\nc \nc text\np cnf 3 3\n1 -2 0\n 0\n3 0\n");
}

#[test]
fn write_appends_to_what_is_there() {
    let cnf = CNF::from_clauses(vec![vec![-10, 200]]);
    let mut out = String::from("c first\n");
    cnf.write_dimacs(&mut out);
    assert_eq!(out, "c first\np cnf 200 1\n-10 200 0\n");
}

#[test]
fn write_of_the_empty_formula_is_the_header() {
    let cnf = CNF::from_clauses(vec![]);
    assert_eq!(text_of(&cnf), "p cnf 0 0\n");
}

#[test]
fn write_spells_the_extreme_literals() {
    let cnf = CNF { num_vars: 0, num_clauses: 0, clauses: vec![vec![i32::MIN, i32::MAX, 0]], comments: vec![] };
    assert_eq!(text_of(&cnf), "p cnf 0 1\n-2147483648 2147483647 0 0\n");
}

#[test]
fn what_is_written_is_read_back() {
    let cnf = CNF {
        num_vars: 12,
        num_clauses: 3,
        clauses: vec![vec![1, -12, 7], vec![], vec![-3]],
        comments: strings(&["1 X", "", "12 long name with spaces", "cnf", "p cnf 1 1"]),
    };
    let back = parse_dimacs(&text_of(&cnf)).unwrap();
    assert_eq!(back.num_vars, cnf.num_vars);
    assert_eq!(back.clauses, cnf.clauses);
    assert_eq!(back.comments, cnf.comments);
    assert_eq!(back.num_clauses, 3);
}

#[test]
fn unified_models_survive_the_codec() {
    let mut cnfs = vec![
        parse_dimacs("c 1 X\nc 2 Y\np cnf 2 1\n1 -2 0\n").unwrap(),
        parse_dimacs("c 1 Y\np cnf 1 1\n1 0\n").unwrap(),
    ];
    let map = dimacs_unify::unify::unify_variable_mappings(&mut cnfs);
    assert_eq!(map.len(), 2);
    assert_eq!(text_of(&cnfs[0]), "c 1 X\nc 2 Y\np cnf 2 1\n1 -2 0\n");
    assert_eq!(text_of(&cnfs[1]), "c 2 Y\nc 1 X\np cnf 2 2\n2 0\n-1 0\n");
}
