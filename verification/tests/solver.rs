use algorithmx::{run, set_condition, Problem, RunError};

fn problem_from(rows: &[(u32, &[u32])]) -> Problem {
    let mut p = Problem::new();
    for (item, conds) in rows {
        for c in *conds {
            set_condition(&mut p, *item, *c);
        }
    }
    p
}

fn normalized(mut sols: Vec<Vec<u32>>) -> Vec<Vec<u32>> {
    for s in sols.iter_mut() {
        s.sort();
    }
    sols.sort();
    sols
}

/// Exhaustively enumerates the exact covers of a small problem: every
/// referenced condition must be covered by exactly one chosen item.
fn brute_force(rows: &[(u32, &[u32])]) -> Vec<Vec<u32>> {
    let mut conditions: Vec<u32> = Vec::new();
    for (_, conds) in rows {
        for c in *conds {
            if !conditions.contains(c) {
                conditions.push(*c);
            }
        }
    }
    let n = rows.len();
    let mut found: Vec<Vec<u32>> = Vec::new();
    for mask in 0u32..(1u32 << n) {
        let chosen: Vec<usize> = (0..n).filter(|b| mask & (1 << b) != 0).collect();
        let exact = conditions.iter().all(|c| {
            chosen
                .iter()
                .filter(|b| rows[**b].1.contains(c))
                .count()
                == 1
        });
        if exact {
            let mut sol: Vec<u32> = chosen.iter().map(|b| rows[*b].0).collect();
            sol.sort();
            found.push(sol);
        }
    }
    found.sort();
    found
}

#[test]
fn minimal_unique_cover() {
    let p = problem_from(&[(1, &[10]), (2, &[20]), (3, &[10, 20])]);
    let sols = run(&p, None, None).unwrap();
    assert_eq!(normalized(sols), vec![vec![1, 2], vec![3]]);
}

#[test]
fn invalid_optional_condition() {
    let p = problem_from(&[(1, &[10])]);
    let optional = vec![20];
    let r = run(&p, None, Some(&optional));
    assert_eq!(r.unwrap_err(), RunError::UnknownOptionalCondition);
}

#[test]
fn item_with_only_optional_conditions() {
    let p = problem_from(&[(1, &[10])]);
    let optional = vec![10];
    let r = run(&p, None, Some(&optional));
    assert_eq!(r.unwrap_err(), RunError::ItemWithOnlyOptionalConditions);
}

#[test]
fn unknown_preselected_item() {
    let p = problem_from(&[(1, &[10])]);
    let preselected = vec![2];
    let r = run(&p, Some(&preselected), None);
    assert_eq!(r.unwrap_err(), RunError::UnknownPreselectedItem);
}

#[test]
fn error_priority_optional_before_preselected() {
    let p = problem_from(&[(1, &[10])]);
    let optional = vec![20];
    let preselected = vec![9];
    let r = run(&p, Some(&preselected), Some(&optional));
    assert_eq!(r.unwrap_err(), RunError::UnknownOptionalCondition);
}

#[test]
fn empty_problem_emits_empty_solution() {
    let p = Problem::new();
    let sols = run(&p, None, None).unwrap();
    assert_eq!(sols, vec![Vec::<u32>::new()]);
}

#[test]
fn set_condition_appends_and_creates() {
    let mut p = Problem::new();
    set_condition(&mut p, 1, 10);
    set_condition(&mut p, 1, 20);
    set_condition(&mut p, 2, 10);
    set_condition(&mut p, 3, 20);
    let sols = run(&p, None, None).unwrap();
    assert_eq!(normalized(sols), vec![vec![1], vec![2, 3]]);
}

#[test]
fn completeness_matches_brute_force_unique() {
    // Knuth's classic seven-column example; the only cover is {2, 4, 6}.
    let rows: &[(u32, &[u32])] = &[
        (1, &[1, 4, 7]),
        (2, &[1, 4]),
        (3, &[4, 5, 7]),
        (4, &[3, 5, 6]),
        (5, &[2, 3, 6, 7]),
        (6, &[2, 7]),
    ];
    let p = problem_from(rows);
    let sols = normalized(run(&p, None, None).unwrap());
    assert_eq!(sols, brute_force(rows));
    assert_eq!(sols, vec![vec![2, 4, 6]]);
}

#[test]
fn completeness_matches_brute_force_multiple() {
    let rows: &[(u32, &[u32])] = &[
        (1, &[10]),
        (2, &[20]),
        (3, &[10, 20]),
        (4, &[10, 20]),
        (5, &[10, 30]),
        (6, &[30]),
        (7, &[20, 30]),
    ];
    let p = problem_from(rows);
    let sols = normalized(run(&p, None, None).unwrap());
    assert_eq!(sols, brute_force(rows));
}

#[test]
fn optional_condition_covered_at_most_once() {
    let rows: &[(u32, &[u32])] = &[(1, &[10, 30]), (2, &[20, 30]), (3, &[10]), (4, &[20])];
    let p = problem_from(rows);
    let optional = vec![30];
    let sols = normalized(run(&p, None, Some(&optional)).unwrap());
    // {1, 2} would cover the optional condition twice and must not appear.
    assert_eq!(sols, vec![vec![1, 4], vec![2, 3], vec![3, 4]]);
}

#[test]
fn determinism_of_solution_set() {
    let rows: &[(u32, &[u32])] = &[
        (1, &[10]),
        (2, &[20]),
        (3, &[10, 20]),
        (4, &[10, 20]),
        (5, &[10, 30]),
        (6, &[30]),
        (7, &[20, 30]),
    ];
    let p = problem_from(rows);
    let first = normalized(run(&p, None, None).unwrap());
    let second = normalized(run(&p, None, None).unwrap());
    assert_eq!(first, second);
}

#[test]
fn preselection_containment() {
    let rows: &[(u32, &[u32])] = &[(1, &[10]), (2, &[20]), (3, &[10, 20]), (4, &[10, 20])];
    let p = problem_from(rows);
    let all = normalized(run(&p, None, None).unwrap());
    let preselected = vec![1];
    let with_pre = normalized(run(&p, Some(&preselected), None).unwrap());
    for sol in &with_pre {
        assert!(sol.contains(&1));
    }
    let containing: Vec<Vec<u32>> = all.into_iter().filter(|s| s.contains(&1)).collect();
    assert_eq!(with_pre, containing);
}

#[test]
fn preselection_starts_every_solution() {
    let rows: &[(u32, &[u32])] = &[(1, &[10]), (2, &[20]), (3, &[30]), (4, &[20, 30])];
    let p = problem_from(rows);
    let preselected = vec![1];
    let sols = run(&p, Some(&preselected), None).unwrap();
    assert!(!sols.is_empty());
    for sol in &sols {
        assert_eq!(sol[0], 1);
    }
    assert_eq!(
        normalized(sols),
        vec![vec![1, 2, 3], vec![1, 4]]
    );
}

#[test]
fn five_queens_has_ten_solutions() {
    let n: u32 = 5;
    let mut problem = Problem::new();
    for row in 0..n {
        for col in 0..n {
            let r = col * n + row;
            set_condition(&mut problem, r, row);
            set_condition(&mut problem, r, col + n);
            set_condition(&mut problem, r, col + row + 2 * n);
            set_condition(&mut problem, r, col + 5 * n - row);
        }
    }
    let mut optional = Vec::<u32>::new();
    optional.extend(2 * n..4 * n - 1);
    optional.extend(4 * n + 1..6 * n);
    let first = normalized(run(&problem, None, Some(&optional)).unwrap());
    assert_eq!(first.len(), 10);
    let second = normalized(run(&problem, None, Some(&optional)).unwrap());
    assert_eq!(first, second);
}
