use maths::matrix::DenseMatrix;
use maths::rational::Rational;
use maths::simplex::{
    advance, Progress,
    apply_row_operations, create_augmented_mat, get_next_pivot, simplex_method, PivotStep,
    SimplexError,
};

fn r(v: i64) -> Rational {
    Rational::from_int(v)
}

fn rows(m: &[&[i64]]) -> DenseMatrix {
    let ncols = m.first().map_or(0, |row| row.len());
    let flat: Vec<Rational> = m.iter().flat_map(|row| row.iter().map(|&v| r(v))).collect();
    DenseMatrix::from_row_slice(m.len(), ncols, &flat)
}

fn ints(v: &[i64]) -> Vec<Rational> {
    v.iter().map(|&x| r(x)).collect()
}

fn is_int(x: &Rational, v: i64) -> bool {
    x.numer() == v && x.denom() == 1
}

#[test]
fn simplex_test_problem1() {
    // max 20000x + 45000y + 85000z
    // 10x + 15y + 10z <= 720
    // 13x + 5y + 5z <= 680
    // 20x + 5y + 10z <= 550
    // z <= 7
    let obj_f = ints(&[20_000, 45_000, 85_000]);
    let constraints = rows(&[&[10, 15, 10], &[13, 5, 5], &[20, 5, 10], &[0, 0, 1]]);
    let req = ints(&[720, 680, 550, 7]);
    let res_table = simplex_method(constraints, req, obj_f).unwrap();
    assert!(
        is_int(&res_table.get(0, 8), 2_545_000),
        "The expected optimal value: 254_5000, the value we got: {:?}",
        res_table.get(0, 8)
    );
}

#[test]
fn simplex_test_problem2() {
    // max 7x + 5y
    // 2x + 3y <= 90
    // 3x + 2y <= 120
    let obj_f = ints(&[7, 5]);
    let constraints = rows(&[&[2, 3], &[3, 2]]);
    let req = ints(&[90, 120]);
    let res_table = simplex_method(constraints, req, obj_f).unwrap();
    assert!(
        is_int(&res_table.get(0, 5), 282),
        "The expected optimal value: 282, the value we got: {:?}",
        res_table.get(0, 5)
    );
}

#[test]
fn unbounded_is_reported() {
    let res = simplex_method(rows(&[&[-1]]), ints(&[5]), ints(&[1]));
    assert!(matches!(res, Err(SimplexError::Unbounded)));
    let res = simplex_method(rows(&[&[0, -2]]), ints(&[4]), ints(&[1, 1]));
    assert!(matches!(res, Err(SimplexError::Unbounded)));
}

#[test]
fn dimension_mismatch_is_reported() {
    let constraints = rows(&[&[1, 2], &[3, 4], &[5, 6]]);
    let res = simplex_method(constraints, ints(&[1, 2]), ints(&[1, 1]));
    assert!(matches!(res, Err(SimplexError::InvalidDimensions)));
}

#[test]
fn constraint_width_mismatch_is_reported() {
    let constraints = rows(&[&[1], &[3]]);
    let res = create_augmented_mat(ints(&[1, 1]), constraints, ints(&[1, 2]));
    assert!(matches!(res, Err(SimplexError::InvalidDimensions)));
}

#[test]
fn objective_at_i64_min_overflows() {
    let res = create_augmented_mat(vec![r(i64::MIN)], rows(&[&[1]]), ints(&[1]));
    assert!(matches!(res, Err(SimplexError::Overflow)));
}

#[test]
fn builder_shape_and_slack_identity() {
    let t = create_augmented_mat(ints(&[7, 5]), rows(&[&[2, 3], &[3, 2]]), ints(&[90, 120]))
        .unwrap();
    assert_eq!(t.nrows(), 3);
    assert_eq!(t.ncols(), 6);
    let expected: [[i64; 6]; 3] = [[1, -7, -5, 0, 0, 0], [0, 2, 3, 1, 0, 90], [0, 3, 2, 0, 1, 120]];
    for i in 0..3 {
        for j in 0..6 {
            assert!(is_int(&t.get(i, j), expected[i][j]), "entry ({}, {})", i, j);
        }
    }
}

#[test]
fn empty_problem_is_optimal_at_once() {
    let t = simplex_method(rows(&[]), vec![], vec![]).unwrap();
    assert_eq!(t.nrows(), 1);
    assert_eq!(t.ncols(), 2);
    assert!(is_int(&t.get(0, 0), 1) && is_int(&t.get(0, 1), 0));
}

#[test]
fn pivot_selection_on_second_example() {
    let t = create_augmented_mat(ints(&[7, 5]), rows(&[&[2, 3], &[3, 2]]), ints(&[90, 120]))
        .unwrap();
    // -7 is most negative; ratios 90/2 = 45 and 120/3 = 40.
    assert_eq!(get_next_pivot(&t), Ok(PivotStep::Pivot { col: 1, row: 2 }));
}

#[test]
fn entering_ties_take_first_column_and_leaving_ties_first_row() {
    let t = create_augmented_mat(ints(&[3, 3]), rows(&[&[1, 1], &[2, 1]]), ints(&[4, 8]))
        .unwrap();
    // Columns 1 and 2 tie at -3; rows 1 and 2 tie at ratio 4.
    assert_eq!(get_next_pivot(&t), Ok(PivotStep::Pivot { col: 1, row: 1 }));
}

#[test]
fn optimal_tableau_selects_nothing() {
    let t = rows(&[&[1, 0, 2, 5], &[0, 1, 1, 3]]);
    assert_eq!(get_next_pivot(&t), Ok(PivotStep::Optimal));
}

#[test]
fn row_operations_eliminate_the_entering_column() {
    let t = create_augmented_mat(ints(&[7, 5]), rows(&[&[2, 3], &[3, 2]]), ints(&[90, 120]))
        .unwrap();
    let u = apply_row_operations((1, 2), t).unwrap();
    // Row 2 is kept; rows 0 and 1 lose column 1.
    let kept: [i64; 6] = [0, 3, 2, 0, 1, 120];
    for j in 0..6 {
        assert!(is_int(&u.get(2, j), kept[j]));
    }
    assert!(is_int(&u.get(0, 1), 0));
    assert!(is_int(&u.get(1, 1), 0));
    // Row 0: 0 + 7/3 * 120 = 280 on the right-hand side; -5 + 7/3*2 = -1/3.
    assert!(is_int(&u.get(0, 5), 280));
    assert_eq!((u.get(0, 2).numer(), u.get(0, 2).denom()), (-1, 3));
    // Row 1: 90 - 2/3 * 120 = 10; 3 - 2/3 * 2 = 5/3.
    assert!(is_int(&u.get(1, 5), 10));
    assert_eq!((u.get(1, 2).numer(), u.get(1, 2).denom()), (5, 3));
}

#[test]
fn objective_never_decreases_along_a_solve() {
    let mut t = create_augmented_mat(
        ints(&[20_000, 45_000, 85_000]),
        rows(&[&[10, 15, 10], &[13, 5, 5], &[20, 5, 10], &[0, 0, 1]]),
        ints(&[720, 680, 550, 7]),
    )
    .unwrap();
    let last = t.ncols() - 1;
    let mut steps = 0;
    while let Ok(PivotStep::Pivot { col, row }) = get_next_pivot(&t) {
        let before = t.get(0, last);
        t = apply_row_operations((col, row), t).unwrap();
        let after = t.get(0, last);
        assert!(!after.lt(&before));
        steps += 1;
    }
    assert!(steps > 0);
    assert!(is_int(&t.get(0, last), 2_545_000));
}

#[test]
fn unit_columns_survive_a_pivot() {
    let t = create_augmented_mat(ints(&[7, 5]), rows(&[&[2, 3], &[3, 2]]), ints(&[90, 120]))
        .unwrap();
    let u = apply_row_operations((1, 2), t).unwrap();
    // Column 0 (one in row 0) and column 3 (one in row 1) stay unit columns.
    assert!(is_int(&u.get(0, 0), 1) && is_int(&u.get(1, 0), 0) && is_int(&u.get(2, 0), 0));
    assert!(is_int(&u.get(0, 3), 0) && is_int(&u.get(1, 3), 1) && is_int(&u.get(2, 3), 0));
}

#[test]
fn unbounded_column_is_selected_as_unbounded() {
    let t = rows(&[&[1, -1, 0, 0], &[0, -1, 1, 5]]);
    assert_eq!(get_next_pivot(&t), Ok(PivotStep::Unbounded));
}

#[test]
fn fractional_entries_stay_exact() {
    let half = Rational::new(1, 2).unwrap();
    let third = Rational::new(1, 3).unwrap();
    let obj = vec![half, third];
    let constraints = rows(&[&[1, 1]]);
    let req = ints(&[6]);
    let t = simplex_method(constraints, req, obj).unwrap();
    // max x/2 + y/3 with x + y <= 6 is 3, at x = 6.
    assert!(is_int(&t.get(0, 4), 3));
}

#[test]
fn zero_rows_with_wrong_objective_length_is_reported() {
    let constraints = DenseMatrix::from_row_slice(0, 2, &[]);
    let res = simplex_method(constraints, vec![], ints(&[1]));
    assert!(matches!(res, Err(SimplexError::InvalidDimensions)));
}

#[test]
fn pivot_cap_is_ten_per_dimension() {
    assert_eq!(maths::simplex::pivot_cap(3, 4), 70);
    assert_eq!(maths::simplex::pivot_cap(usize::MAX, 1), usize::MAX);
}

#[test]
fn advance_walks_the_second_example() {
    let mut t = create_augmented_mat(ints(&[7, 5]), rows(&[&[2, 3], &[3, 2]]), ints(&[90, 120]))
        .unwrap();
    let mut pivots = 0;
    loop {
        match advance(t).unwrap() {
            Progress::Optimal(done) => {
                assert!(is_int(&done.get(0, 5), 282));
                break;
            }
            Progress::Pivoted { table, .. } => {
                t = table;
                pivots += 1;
            }
        }
    }
    assert_eq!(pivots, 2);
}
