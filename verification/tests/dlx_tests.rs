use dlx::solve::{DlxIteratorImpl, StepwiseDlxIterResult};
use dlx::{ColorItem, Constraint, Dlx, DlxError, HeaderType};

fn collect_solutions<I, N>(mut it: DlxIteratorImpl<I, N>) -> Vec<Vec<usize>> {
    let mut out = Vec::new();
    while let Some(s) = it.next() {
        out.push(s);
    }
    out
}

fn choose_two_grid() -> Dlx<char, i32> {
    Dlx::new(
        vec![
            ('p', HeaderType::Primary),
            ('q', HeaderType::Primary),
            ('r', HeaderType::Primary),
        ],
        vec![
            (0, vec![Constraint::Primary('p'), Constraint::Primary('q')]),
            (1, vec![Constraint::Primary('p'), Constraint::Primary('r')]),
            (2, vec![Constraint::Primary('p')]),
            (3, vec![Constraint::Primary('q')]),
        ],
    )
    .unwrap()
}

#[test]
fn test_empty() {
    let mut dlx: Dlx<u32, u32> = Dlx::new(vec![], vec![]).unwrap();
    let solutions = collect_solutions(dlx.find_solutions());
    assert_eq!(solutions, vec![Vec::<usize>::new()]);
}

#[test]
fn test_simple() {
    let mut dlx = Dlx::new(
        vec![(1, HeaderType::Primary)],
        vec![(0, vec![Constraint::Primary(1)])],
    )
    .unwrap();

    assert!(dlx
        .find_solutions()
        .with_names()
        .next()
        .is_some_and(|solution| solution.eq(&vec![0])));
}

#[test]
fn test_choose_two() {
    let mut dlx = choose_two_grid();

    assert!(dlx
        .find_solutions()
        .with_names()
        .next()
        .is_some_and(|mut solution| {
            solution.sort();
            solution.eq(&vec![1, 3])
        }));
}

#[test]
fn test_solve_twice() {
    let mut dlx = choose_two_grid();

    let solutions1 = collect_solutions(dlx.find_solutions());
    let solutions2 = collect_solutions(dlx.find_solutions());
    assert_eq!(solutions1, solutions2);
}

#[test]
fn test_solve_partial_twice() {
    let mut dlx = choose_two_grid();

    let solution1 = dlx.find_solutions().next();
    let solution2 = dlx.find_solutions().next();
    assert_eq!(solution1, solution2);
}

#[test]
fn test_simple_colors() {
    let mut dlx = Dlx::new(
        vec![
            ('p', HeaderType::Primary),
            ('q', HeaderType::Primary),
            ('a', HeaderType::Secondary),
        ],
        vec![
            (
                0,
                vec![
                    Constraint::Primary('p'),
                    Constraint::Secondary(ColorItem::new('a', 1)),
                ],
            ),
            (
                1,
                vec![
                    Constraint::Primary('p'),
                    Constraint::Secondary(ColorItem::new('a', 2)),
                ],
            ),
            (
                2,
                vec![
                    Constraint::Primary('q'),
                    Constraint::Secondary(ColorItem::new('a', 3)),
                ],
            ),
            (
                3,
                vec![
                    Constraint::Primary('q'),
                    Constraint::Secondary(ColorItem::new('a', 1)),
                ],
            ),
        ],
    )
    .unwrap();

    assert!(dlx
        .find_solutions()
        .with_names()
        .next()
        .is_some_and(|mut solution| {
            solution.sort();
            solution.eq(&vec![0, 3])
        }));
}

#[test]
fn test_stepwise() {
    let mut dlx = choose_two_grid();

    let mut stepwise_iter = dlx.find_solutions_stepwise().with_names();
    match stepwise_iter.next() {
        Some(StepwiseDlxIterResult::Step(v)) => assert_eq!(v, Vec::<i32>::new()),
        other => panic!("unexpected step: {other:?}"),
    }
    match stepwise_iter.next() {
        Some(StepwiseDlxIterResult::Step(v)) => assert_eq!(v, vec![1]),
        other => panic!("unexpected step: {other:?}"),
    }
    match stepwise_iter.next() {
        Some(StepwiseDlxIterResult::Solution(v)) => assert_eq!(v, vec![1, 3]),
        other => panic!("unexpected step: {other:?}"),
    }
    assert!(stepwise_iter.next().is_none());
}

#[test]
fn test_stepwise_two_solutions() {
    let mut dlx = Dlx::new(
        vec![
            ('p', HeaderType::Primary),
            ('q', HeaderType::Primary),
            ('r', HeaderType::Primary),
        ],
        vec![
            (0, vec![Constraint::Primary('p'), Constraint::Primary('q')]),
            (1, vec![Constraint::Primary('p')]),
            (2, vec![Constraint::Primary('p'), Constraint::Primary('q')]),
            (3, vec![Constraint::Primary('r')]),
        ],
    )
    .unwrap();

    let mut stepwise_iter = dlx.find_solutions_stepwise().with_names();
    match stepwise_iter.next() {
        Some(StepwiseDlxIterResult::Step(v)) => assert_eq!(v, Vec::<i32>::new()),
        other => panic!("unexpected step: {other:?}"),
    }
    match stepwise_iter.next() {
        Some(StepwiseDlxIterResult::Step(v)) => assert_eq!(v, vec![3]),
        other => panic!("unexpected step: {other:?}"),
    }
    match stepwise_iter.next() {
        Some(StepwiseDlxIterResult::Solution(v)) => assert_eq!(v, vec![3, 0]),
        other => panic!("unexpected step: {other:?}"),
    }
    match stepwise_iter.next() {
        Some(StepwiseDlxIterResult::Solution(v)) => assert_eq!(v, vec![3, 2]),
        other => panic!("unexpected step: {other:?}"),
    }
    assert!(stepwise_iter.next().is_none());
}

#[test]
fn test_into_solutions_and_reuse() {
    let dlx = choose_two_grid();

    let mut it = dlx.into_solutions();
    let first = it.next();
    assert!(first.is_some());
    // Hand the grid back mid-search and run the search again in full.
    let mut dlx = it.into_dlx();
    let run1 = collect_solutions(dlx.find_solutions());
    let mut it2 = dlx.into_solutions();
    let mut run2 = Vec::new();
    while let Some(s) = it2.next() {
        run2.push(s);
    }
    assert_eq!(run1, run2);
    assert_eq!(run1.len(), 1);
}

#[test]
fn test_duplicate_item() {
    let r: Result<Dlx<u32, u32>, DlxError> = Dlx::new(
        vec![(7, HeaderType::Primary), (7, HeaderType::Primary)],
        vec![],
    );
    assert_eq!(r.unwrap_err(), DlxError::DuplicateItem);
}

#[test]
fn test_duplicate_subset_name() {
    let r: Result<Dlx<u32, u32>, DlxError> = Dlx::new(
        vec![(1, HeaderType::Primary), (2, HeaderType::Primary)],
        vec![
            (5, vec![Constraint::Primary(1)]),
            (5, vec![Constraint::Primary(2)]),
        ],
    );
    assert_eq!(r.unwrap_err(), DlxError::DuplicateSubsetName);
}

#[test]
fn test_unknown_item() {
    let r: Result<Dlx<u32, u32>, DlxError> = Dlx::new(
        vec![(1, HeaderType::Primary)],
        vec![(0, vec![Constraint::Primary(9)])],
    );
    assert_eq!(r.unwrap_err(), DlxError::UnknownItem);
}

#[test]
fn test_kind_mismatch() {
    let r: Result<Dlx<u32, u32>, DlxError> = Dlx::new(
        vec![(1, HeaderType::Secondary)],
        vec![(0, vec![Constraint::Primary(1)])],
    );
    assert_eq!(r.unwrap_err(), DlxError::KindMismatch);
}

#[test]
fn test_no_solution() {
    let mut dlx: Dlx<u32, u32> = Dlx::new(vec![(1, HeaderType::Primary)], vec![]).unwrap();
    assert!(dlx.find_solutions().next().is_none());
}

#[test]
fn test_stepwise_result_accessors() {
    let step = StepwiseDlxIterResult::Step(vec![1usize, 2]);
    assert_eq!(step.result(), &vec![1usize, 2]);
    assert_eq!(step.take_result(), vec![1usize, 2]);
    let sol = StepwiseDlxIterResult::Solution(vec![3usize]);
    assert_eq!(sol.result(), &vec![3usize]);
    assert_eq!(sol.take_result(), vec![3usize]);
}

#[test]
fn test_color_item_accessors() {
    let ci = ColorItem::new('a', 4);
    assert_eq!(*ci.item(), 'a');
    assert_eq!(ci.color(), 4);
}

#[test]
fn test_constraint_accessors() {
    let p: Constraint<char> = Constraint::Primary('x');
    assert_eq!(*p.item(), 'x');
    assert_eq!(p.color(), None);
    let s: Constraint<char> = Constraint::Secondary(ColorItem::new('y', 9));
    assert_eq!(*s.item(), 'y');
    assert_eq!(s.color(), Some(9));
}

#[test]
fn test_secondary_left_uncovered() {
    // A secondary item may stay uncovered: the only subset covers just `p`.
    let mut dlx = Dlx::new(
        vec![('p', HeaderType::Primary), ('a', HeaderType::Secondary)],
        vec![(0, vec![Constraint::Primary('p')])],
    )
    .unwrap();
    let mut it = dlx.find_solutions().with_names();
    assert_eq!(it.next(), Some(vec![0]));
    assert!(it.next().is_none());
}

#[test]
fn test_with_colors() {
    let mut dlx = Dlx::new(
        vec![
            ('p', HeaderType::Primary),
            ('q', HeaderType::Primary),
            ('a', HeaderType::Secondary),
        ],
        vec![
            (
                0,
                vec![
                    Constraint::Primary('p'),
                    Constraint::Secondary(ColorItem::new('a', 1)),
                ],
            ),
            (
                1,
                vec![
                    Constraint::Primary('p'),
                    Constraint::Secondary(ColorItem::new('a', 2)),
                ],
            ),
            (
                2,
                vec![
                    Constraint::Primary('q'),
                    Constraint::Secondary(ColorItem::new('a', 3)),
                ],
            ),
            (
                3,
                vec![
                    Constraint::Primary('q'),
                    Constraint::Secondary(ColorItem::new('a', 1)),
                ],
            ),
        ],
    )
    .unwrap();

    let mut it = dlx.find_solutions().with_colors();
    assert_eq!(it.next(), Some(vec![('a', 1)]));
    assert!(it.next().is_none());
}

#[test]
fn test_mapped() {
    let mut dlx = choose_two_grid();
    // Project each solution to its selection-stack length: the single
    // solution selects two subsets, one committed cell each.
    let mut it = dlx
        .find_solutions()
        .mapped(|_g: &Dlx<char, i32>, s: Vec<usize>| s.len());
    assert_eq!(it.next(), Some(2));
    assert!(it.next().is_none());
}
