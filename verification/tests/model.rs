use dimacs_unify::cnf::CNF;
use std::collections::HashMap;

fn strings(items: &[&str]) -> Vec<String> {
    items.iter().map(|s| s.to_string()).collect()
}

#[test]
fn test_from_clauses() {
    let clauses = vec![];
    let cnf = CNF::from_clauses(clauses);
    assert_eq!(cnf.num_vars, 0);
    assert_eq!(cnf.num_clauses, 0);

    let clauses = vec![vec![1, -2], vec![3]];
    let cnf = CNF::from_clauses(clauses);
    assert_eq!(cnf.num_vars, 3);
    assert_eq!(cnf.num_clauses, 2);
}

#[test]
fn test_remap_variable_ids() {
    let mut cnf = CNF {
        num_vars: 3,
        num_clauses: 2,
        clauses: vec![vec![1, -2, 3], vec![-1, 2, -3]],
        comments: vec!["1 X".to_string(), "2 Y".to_string(), "3 Z".to_string()],
    };

    let id_mapping = HashMap::from([(1, 10), (3, 30)]);

    cnf.remap_variable_ids(&id_mapping);

    // Expected clauses after remapping
    let expected_clauses = vec![vec![10, -2, 30], vec![-10, 2, -30]];
    assert_eq!(cnf.clauses, expected_clauses);

    // Expected comments after remapping
    let expected_comments = vec!["10 X".to_string(), "2 Y".to_string(), "30 Z".to_string()];
    assert_eq!(cnf.comments, expected_comments);

    // num_vars should be updated to the highest new ID
    assert_eq!(cnf.num_vars, 30);
}

#[test]
fn from_clauses_keeps_clauses_and_has_no_comments() {
    let cnf = CNF::from_clauses(vec![vec![4, -7], vec![], vec![-2]]);
    assert_eq!(cnf.clauses, vec![vec![4, -7], vec![], vec![-2]]);
    assert!(cnf.comments.is_empty());
    assert_eq!(cnf.num_vars, 7);
    assert_eq!(cnf.num_clauses, 3);
}

#[test]
fn from_clauses_takes_the_magnitude_of_the_smallest_literal() {
    let cnf = CNF::from_clauses(vec![vec![i32::MIN, 5]]);
    assert_eq!(cnf.num_vars, 2147483648);
}

#[test]
fn add_clause_appends_and_counts() {
    let mut cnf = CNF { num_vars: 3, num_clauses: 0, clauses: Vec::new(), comments: Vec::new() };
    cnf.add_clause(vec![1, -2, 3]);
    cnf.add_clause(vec![-3]);
    assert_eq!(cnf.clauses, vec![vec![1, -2, 3], vec![-3]]);
    assert_eq!(cnf.num_clauses, 2);
    assert_eq!(cnf.num_vars, 3);
}

#[test]
fn add_comment_appends_any_text() {
    let mut cnf = CNF::from_clauses(vec![vec![1]]);
    cnf.add_comment("1 X".to_string());
    cnf.add_comment("not a name".to_string());
    cnf.add_comment(String::new());
    assert_eq!(cnf.comments, strings(&["1 X", "not a name", ""]));
    assert_eq!(cnf.num_clauses, 1);
}

#[test]
fn names_come_in_comment_order_and_other_comments_are_skipped() {
    let cnf = CNF {
        num_vars: 9,
        num_clauses: 0,
        clauses: Vec::new(),
        comments: strings(&["7 seven", "free text", "2 two words", "x 3", "", "12", "+5 plus", "3 "]),
    };
    let names = cnf.get_names_from_comments();
    assert_eq!(
        names,
        vec![
            (7, "seven".to_string()),
            (2, "two words".to_string()),
            (5, "plus".to_string()),
            (3, String::new()),
        ]
    );
}

#[test]
fn names_need_an_id_that_fits() {
    let cnf = CNF {
        num_vars: 0,
        num_clauses: 0,
        clauses: Vec::new(),
        comments: strings(&["99999999999999999999999999 big", "-1 neg", "0 zero", "007 bond", "1\tX"]),
    };
    let names = cnf.get_names_from_comments();
    assert_eq!(names, vec![(0, "zero".to_string()), (7, "bond".to_string())]);
}

#[test]
fn remap_leaves_unmapped_literals_and_zero_alone() {
    let mut cnf = CNF {
        num_vars: 5,
        num_clauses: 1,
        clauses: vec![vec![0, 4, -5, 1]],
        comments: strings(&["4 D", "plain", "5 E"]),
    };
    let id_mapping = HashMap::from([(0, 8), (5, 2)]);
    cnf.remap_variable_ids(&id_mapping);
    assert_eq!(cnf.clauses, vec![vec![0, 4, -2, 1]]);
    assert_eq!(cnf.comments, strings(&["4 D", "plain", "2 E"]));
    assert_eq!(cnf.num_vars, 8);
    assert_eq!(cnf.num_clauses, 1);
}

#[test]
fn remap_with_an_empty_map_declares_no_variables() {
    let mut cnf = CNF::from_clauses(vec![vec![1, 2]]);
    cnf.add_comment("1 A".to_string());
    let id_mapping: HashMap<usize, usize> = HashMap::new();
    cnf.remap_variable_ids(&id_mapping);
    assert_eq!(cnf.num_vars, 0);
    assert_eq!(cnf.clauses, vec![vec![1, 2]]);
    assert_eq!(cnf.comments, strings(&["1 A"]));
}

#[test]
fn remap_rewrites_the_id_in_its_shortest_form() {
    let mut cnf = CNF {
        num_vars: 7,
        num_clauses: 0,
        clauses: Vec::new(),
        comments: strings(&["+007 bond girl"]),
    };
    let id_mapping = HashMap::from([(7, 120)]);
    cnf.remap_variable_ids(&id_mapping);
    assert_eq!(cnf.comments, strings(&["120 bond girl"]));
}
