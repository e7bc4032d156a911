use exact_simplex::fraction::Frac;
use exact_simplex::simplex::{PivotChoice, Tableau};

fn worked_example() -> Tableau {
    let mut tableau: Tableau = Tableau::new(3, 3);
    tableau.add_i(vec![5, -3, 4, 0], 0);
    tableau.add_i(vec![-1, -1, -1, 10], 1);
    tableau.add_i(vec![-2, 1, 0, 0], 2);
    tableau.add_i(vec![1, 3, -1, 6], 3);
    tableau
}

#[test]
fn tableau() {
    let mut tableau = worked_example();
    for _ in 0..4 {
        tableau.iteration();
    }
    assert_eq!(tableau.get_cost(), Frac::new(174, 5));
}

#[test]
fn first_step_choices() {
    let tableau = worked_example();
    // objective coefficients stored negated: -5, 3, -4 in columns 1..=3
    assert_eq!(tableau.column(), 1);
    // column 1 holds 1, 2, -1 in rows 1..=3 with right-hand sides 10, 0, 6
    assert_eq!(tableau.row(1), 2);
    assert_eq!(tableau.get_cost(), Frac::from_i(0));
}

#[test]
fn pivot_normalizes_pivot_row() {
    let mut tableau: Tableau = Tableau::new(1, 1);
    tableau.add(vec![Frac::from_i(3), Frac::from_i(0)], 0);
    tableau.add(vec![Frac::from_i(-2), Frac::from_i(8)], 1);
    assert_eq!(tableau.column(), 1);
    assert_eq!(tableau.row(1), 1);
    tableau.pivot(1, 1);
    // row 1 was [0, 2, 1 | 8]; divided by 2 it is [0, 1, 1/2 | 4]
    // row 0 was [1, -3, 0 | 0]; plus 3 times row 1 it is [1, 0, 3/2 | 12]
    assert_eq!(tableau.get_cost(), Frac::from_i(12));
    assert_eq!(tableau.column(), 0);
}

#[test]
fn optimal_tableau_selects_column_zero() {
    let mut tableau: Tableau = Tableau::new(1, 2);
    tableau.add_i(vec![-1, -2, 0], 0);
    tableau.add_i(vec![-1, -1, 4], 1);
    assert_eq!(tableau.column(), 0);
}

#[test]
fn unbounded_column_selects_row_zero() {
    let mut tableau: Tableau = Tableau::new(1, 1);
    tableau.add_i(vec![1, 0], 0);
    tableau.add_i(vec![1, 5], 1);
    assert_eq!(tableau.column(), 1);
    assert_eq!(tableau.row(1), 0);
}

#[test]
fn ratio_ties_keep_first_row() {
    let mut tableau: Tableau = Tableau::new(2, 1);
    tableau.add_i(vec![1, 0], 0);
    tableau.add_i(vec![-2, 4], 1);
    tableau.add_i(vec![-1, 2], 2);
    assert_eq!(tableau.row(1), 1);
}

#[test]
fn worked_example_steps_are_computable() {
    let mut tableau = worked_example();
    for _ in 0..4 {
        let c = tableau.column();
        assert!(tableau.ratios_computable(c));
        let r = tableau.row(c);
        assert!(tableau.pivot_computable(r, c));
        tableau.pivot(r, c);
    }
    assert_eq!(tableau.get_cost(), Frac::new(174, 5));
    assert_eq!(tableau.get_rhs(0), Frac::new(174, 5));
}

#[test]
fn huge_coefficients_are_not_computable() {
    let mut tableau: Tableau = Tableau::new(1, 1);
    tableau.add(vec![Frac::from_i(1), Frac::from_i(0)], 0);
    tableau.add(vec![Frac::new(-65536, 1), Frac::new(1, 65536)], 1);
    assert_eq!(tableau.column(), 1);
    assert!(!tableau.ratios_computable(1));
    assert!(!tableau.pivot_computable(1, 1));
}

#[test]
fn accessors_read_cells() {
    let tableau = worked_example();
    assert_eq!((tableau.get_rows(), tableau.get_cols()), (4, 7));
    assert_eq!(tableau.get(0, 0), Frac::from_i(1));
    assert_eq!(tableau.get(0, 1), Frac::from_i(-5));
    assert_eq!(tableau.get(2, 5), Frac::from_i(1));
    assert_eq!(tableau.get(3, 2), Frac::from_i(-3));
    assert_eq!(tableau.get_rhs(1), Frac::from_i(10));
}

#[test]
fn pivot_makes_unit_column() {
    let mut tableau = worked_example();
    let c = tableau.column();
    let r = tableau.row(c);
    tableau.pivot(r, c);
    for i in 0..tableau.get_rows() {
        let expected = if i == r { Frac::from_i(1) } else { Frac::from_i(0) };
        assert_eq!(tableau.get(i, c), expected);
    }
}

#[test]
fn next_pivot_reports_each_outcome() {
    let tableau = worked_example();
    assert_eq!(tableau.next_pivot(), PivotChoice::Pivot { column: 1, row: 2 });

    let mut optimal: Tableau = Tableau::new(1, 2);
    optimal.add_i(vec![-1, -2, 0], 0);
    optimal.add_i(vec![-1, -1, 4], 1);
    assert_eq!(optimal.next_pivot(), PivotChoice::Optimal);

    let mut unbounded: Tableau = Tableau::new(1, 1);
    unbounded.add_i(vec![1, 0], 0);
    unbounded.add_i(vec![1, 5], 1);
    assert_eq!(unbounded.next_pivot(), PivotChoice::Unbounded);
}
