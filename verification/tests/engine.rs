use dimacs_unify::cnf::CNF;
use dimacs_unify::unify::unify_variable_mappings;

fn strings(items: &[&str]) -> Vec<String> {
    items.iter().map(|s| s.to_string()).collect()
}

fn model(num_vars: usize, clauses: Vec<Vec<i32>>, comments: &[&str]) -> CNF {
    CNF { num_vars, num_clauses: clauses.len(), clauses, comments: strings(comments) }
}

#[test]
fn two_models_share_one_naming() {
    let mut cnfs = vec![
        model(2, vec![vec![1, -2]], &["1 X", "2 Y"]),
        model(1, vec![vec![1]], &["1 Y"]),
    ];
    let map = unify_variable_mappings(&mut cnfs);
    assert_eq!(map.len(), 2);
    assert_eq!(map.get("X"), Some(&1));
    assert_eq!(map.get("Y"), Some(&2));
    assert_eq!(map.get("Z"), None);

    assert_eq!(cnfs[0].num_vars, 2);
    assert_eq!(cnfs[0].clauses, vec![vec![1, -2]]);
    assert_eq!(cnfs[0].comments, strings(&["1 X", "2 Y"]));
    assert_eq!(cnfs[0].num_clauses, 1);

    assert_eq!(cnfs[1].num_vars, 2);
    assert_eq!(cnfs[1].clauses, vec![vec![2], vec![-1]]);
    assert_eq!(cnfs[1].comments, strings(&["2 Y", "1 X"]));
    assert_eq!(cnfs[1].num_clauses, 2);
}

#[test]
fn no_models_give_an_empty_naming() {
    let mut cnfs: Vec<CNF> = Vec::new();
    let map = unify_variable_mappings(&mut cnfs);
    assert_eq!(map.len(), 0);
    assert!(map.is_empty());
}

#[test]
fn models_without_names_lose_their_declared_variables() {
    let mut cnfs = vec![model(3, vec![vec![1, 2, 3]], &["just text"])];
    let map = unify_variable_mappings(&mut cnfs);
    assert_eq!(map.len(), 0);
    assert_eq!(cnfs[0].num_vars, 0);
    assert_eq!(cnfs[0].clauses, vec![vec![1, 2, 3]]);
    assert_eq!(cnfs[0].comments, strings(&["just text"]));
}

#[test]
fn ids_follow_first_sight_and_padding_follows_ids() {
    let mut cnfs = vec![
        model(2, vec![vec![-2, 1]], &["2 beta", "1 alpha"]),
        model(3, vec![vec![3], vec![-1, 2]], &["1 gamma", "note", "3 alpha", "2 delta"]),
        model(0, vec![], &[]),
    ];
    let map = unify_variable_mappings(&mut cnfs);
    assert_eq!(map.len(), 4);
    assert_eq!(map.get("beta"), Some(&1));
    assert_eq!(map.get("alpha"), Some(&2));
    assert_eq!(map.get("gamma"), Some(&3));
    assert_eq!(map.get("delta"), Some(&4));

    assert_eq!(cnfs[0].num_vars, 4);
    assert_eq!(cnfs[0].clauses, vec![vec![-1, 2], vec![-3], vec![-4]]);
    assert_eq!(cnfs[0].comments, strings(&["1 beta", "2 alpha", "3 gamma", "4 delta"]));
    assert_eq!(cnfs[0].num_clauses, 3);

    assert_eq!(cnfs[1].num_vars, 4);
    assert_eq!(cnfs[1].clauses, vec![vec![2], vec![-3, 4], vec![-1]]);
    assert_eq!(cnfs[1].comments, strings(&["3 gamma", "note", "2 alpha", "4 delta", "1 beta"]));
    assert_eq!(cnfs[1].num_clauses, 3);

    assert_eq!(cnfs[2].num_vars, 4);
    assert_eq!(cnfs[2].clauses, vec![vec![-1], vec![-2], vec![-3], vec![-4]]);
    assert_eq!(cnfs[2].comments, strings(&["1 beta", "2 alpha", "3 gamma", "4 delta"]));
    assert_eq!(cnfs[2].num_clauses, 4);
}

#[test]
fn the_size_of_the_naming_is_its_largest_id() {
    let mut cnfs = vec![
        model(3, vec![vec![1, 2, 3]], &["1 a", "2 b", "3 c"]),
        model(2, vec![vec![1, 2]], &["1 c", "2 d"]),
    ];
    let map = unify_variable_mappings(&mut cnfs);
    let mut largest = 0;
    for name in ["a", "b", "c", "d"] {
        let id = *map.get(name).unwrap();
        assert!(1 <= id && id <= map.len());
        if id > largest {
            largest = id;
        }
    }
    assert_eq!(map.len(), 4);
    assert_eq!(largest, map.len());
}

#[test]
fn two_runs_on_equal_input_agree() {
    let input = vec![
        model(2, vec![vec![1, -2]], &["1 X", "2 Y"]),
        model(2, vec![vec![2, 1]], &["1 Z", "2 X"]),
    ];
    let mut first = input.clone();
    let mut second = input.clone();
    let map_first = unify_variable_mappings(&mut first);
    let map_second = unify_variable_mappings(&mut second);
    assert_eq!(first, second);
    for name in ["X", "Y", "Z"] {
        assert_eq!(map_first.get(name), map_second.get(name));
    }
    assert_eq!(map_first.len(), map_second.len());
}

#[test]
fn a_second_run_changes_nothing() {
    let mut cnfs = vec![
        model(2, vec![vec![1, -2]], &["1 X", "2 Y"]),
        model(1, vec![vec![1]], &["1 Y"]),
        model(1, vec![vec![-1]], &["1 W"]),
    ];
    let first = unify_variable_mappings(&mut cnfs);
    let once = cnfs.clone();
    let second = unify_variable_mappings(&mut cnfs);
    assert_eq!(cnfs, once);
    assert_eq!(first.len(), second.len());
    for name in ["X", "Y", "W"] {
        assert_eq!(first.get(name), second.get(name));
    }
}

#[test]
fn the_later_of_two_names_for_one_id_decides_the_literal() {
    let mut cnfs = vec![model(1, vec![vec![1]], &["1 X", "1 Y"])];
    let map = unify_variable_mappings(&mut cnfs);
    assert_eq!(map.get("X"), Some(&1));
    assert_eq!(map.get("Y"), Some(&2));
    assert_eq!(cnfs[0].clauses, vec![vec![2], vec![-1]]);
    assert_eq!(cnfs[0].comments, strings(&["2 X", "2 Y", "1 X"]));
    assert_eq!(cnfs[0].num_vars, 2);
}

#[test]
fn a_variable_without_a_name_keeps_its_id() {
    let mut cnfs = vec![
        model(3, vec![vec![1, 3]], &["1 b"]),
        model(1, vec![vec![1]], &["1 a"]),
    ];
    unify_variable_mappings(&mut cnfs);
    assert_eq!(cnfs[0].clauses, vec![vec![1, 3], vec![-2]]);
    assert_eq!(cnfs[1].clauses, vec![vec![2], vec![-1]]);
}

fn satisfying(clauses: &[Vec<i32>], num_vars: usize) -> Vec<Vec<bool>> {
    let mut found = Vec::new();
    for bits in 0..(1u32 << num_vars) {
        let value = |var: usize| bits & (1 << (var - 1)) != 0;
        let ok = clauses.iter().all(|clause| {
            clause.iter().any(|&lit| {
                let var = lit.unsigned_abs() as usize;
                lit != 0 && value(var) == (lit > 0)
            })
        });
        if ok {
            found.push((1..=num_vars).map(value).collect());
        }
    }
    found
}

#[test]
fn padding_keeps_the_satisfying_assignments() {
    let source = model(2, vec![vec![1, 2], vec![-1, -2]], &["1 p", "2 q"]);
    let mut cnfs = vec![
        model(3, vec![vec![1], vec![2, 3]], &["1 a", "2 q", "3 b"]),
        source.clone(),
    ];
    unify_variable_mappings(&mut cnfs);
    // a = 1, q = 2, b = 3, p = 4; the second model is padded with a and b
    assert_eq!(cnfs[1].clauses, vec![vec![4, 2], vec![-4, -2], vec![-1], vec![-3]]);
    let before = satisfying(&source.clauses, 2);
    let after = satisfying(&cnfs[1].clauses, 4);
    assert_eq!(before, vec![vec![true, false], vec![false, true]]);
    let seen: Vec<Vec<bool>> = after.iter().map(|a| vec![a[3], a[1]]).collect();
    assert_eq!(seen, vec![vec![false, true], vec![true, false]]);
    assert_eq!(after.len(), before.len());
    for assignment in &after {
        assert!(!assignment[0] && !assignment[2]);
    }
}

#[test]
fn room_is_counted_in_comments() {
    let cnfs = vec![model(1, vec![vec![1]], &["1 a", "text"])];
    assert!(dimacs_unify::unify::has_room_for_unification(&cnfs));
    let full = vec![CNF {
        num_vars: 1,
        num_clauses: usize::MAX - 1,
        clauses: vec![vec![1]],
        comments: strings(&["1 a", "text"]),
    }];
    assert!(!dimacs_unify::unify::has_room_for_unification(&full));
    let none: Vec<CNF> = Vec::new();
    assert!(dimacs_unify::unify::has_room_for_unification(&none));
}

#[test]
fn a_model_that_names_everything_is_not_padded() {
    let mut cnfs = vec![
        model(2, vec![vec![1, -2]], &["2 Y", "1 X"]),
        model(2, vec![vec![-1], vec![2]], &["1 X", "2 Y"]),
    ];
    unify_variable_mappings(&mut cnfs);
    assert_eq!(cnfs[0].clauses, vec![vec![2, -1]]);
    assert_eq!(cnfs[0].comments, strings(&["1 Y", "2 X"]));
    assert_eq!(cnfs[1].clauses, vec![vec![-2], vec![1]]);
    assert_eq!(cnfs[1].comments, strings(&["2 X", "1 Y"]));
    assert_eq!(cnfs[0].num_clauses, 1);
    assert_eq!(cnfs[1].num_clauses, 2);
}
