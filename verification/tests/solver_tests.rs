use linsolve::linear::{Allocator, Expression, RelOp, Variable};
use linsolve::num::Ratio;
use linsolve::solver::{Solver, SolverError};
use linsolve::strength::{Strength, REQUIRED_MAGNITUDE};

fn var_expr(v: Variable) -> Expression {
    Expression::from_variable(v)
}

fn minus_const(v: Variable, k: i64) -> Expression {
    var_expr(v)
        .minus(&Expression::from_constant(Ratio::from_int(k)))
        .unwrap()
}

fn assert_value(s: &Solver, v: Variable, num: i64, den: i64) {
    let r = s.value_of(v);
    assert_eq!(r.num as i128 * den as i128, num as i128 * r.den as i128);
}

#[test]
fn strength_combination_formula() {
    let s = Strength::create(1, 2, 3);
    assert_eq!(s.value, 1_000_000 + 2_000 + 3);
    let clamped = Strength::create(5000, 5000, 5000);
    assert_eq!(clamped.value, 1_001_001_000);
    assert!(clamped.value < REQUIRED_MAGNITUDE);
    assert_eq!(Strength::strong().value, 1_000_000);
    assert_eq!(Strength::medium().value, 1_000);
    assert_eq!(Strength::weak().value, 1);
}

#[test]
fn ratio_arithmetic_exact() {
    let half = Ratio::new(1, 2).unwrap();
    let third = Ratio::new(1, 3).unwrap();
    let sum = half.add(third).unwrap();
    assert_eq!((sum.num, sum.den), (5, 6));
    let prod = half.mul(third).unwrap();
    assert_eq!((prod.num, prod.den), (1, 6));
    let quot = half.div(third).unwrap();
    assert_eq!((quot.num, quot.den), (3, 2));
    let diff = half.sub(third).unwrap();
    assert_eq!((diff.num, diff.den), (1, 6));
    assert!(third.lt(half));
    assert!(Ratio::new(2, 4).unwrap().eq_value(half));
    assert!(Ratio::new(0, 0).is_none());
    assert_eq!(Ratio::new(-3, -6).unwrap().num, 1);
}

#[test]
fn required_constraints_satisfied_exactly() {
    let mut alloc = Allocator::new();
    let mut solver = Solver::new();
    let x = alloc.new_variable();
    let y = alloc.new_variable();
    // x == 7, y == x + 3, both required.
    let c1 = alloc.new_constraint(minus_const(x, 7), RelOp::Equal, Strength::required());
    let c2 = alloc.new_constraint(
        var_expr(x)
            .plus(&Expression::from_constant(Ratio::from_int(3)))
            .unwrap()
            .minus(&var_expr(y))
            .unwrap(),
        RelOp::Equal,
        Strength::required(),
    );
    solver.add_constraint(&c1).unwrap();
    solver.add_constraint(&c2).unwrap();
    let _ = solver.fetch_changes();
    assert_value(&solver, x, 7, 1);
    assert_value(&solver, y, 10, 1);
}

#[test]
fn strength_dominance_between_conflicting_constraints() {
    // Two mutually exclusive non-required constraints: the stronger wins,
    // in either insertion order.
    for flip in [false, true] {
        let mut alloc = Allocator::new();
        let mut solver = Solver::new();
        let x = alloc.new_variable();
        let strong = alloc.new_constraint(minus_const(x, 100), RelOp::Equal, Strength::strong());
        let medium = alloc.new_constraint(minus_const(x, 50), RelOp::Equal, Strength::medium());
        if flip {
            solver.add_constraint(&medium).unwrap();
            solver.add_constraint(&strong).unwrap();
        } else {
            solver.add_constraint(&strong).unwrap();
            solver.add_constraint(&medium).unwrap();
        }
        let _ = solver.fetch_changes();
        assert_value(&solver, x, 100, 1);
    }
}

#[test]
fn fetch_changes_is_idempotent() {
    let mut alloc = Allocator::new();
    let mut solver = Solver::new();
    let x = alloc.new_variable();
    let c = alloc.new_constraint(minus_const(x, 4), RelOp::Equal, Strength::required());
    solver.add_constraint(&c).unwrap();
    let first = solver.fetch_changes();
    assert!(!first.is_empty());
    let second = solver.fetch_changes();
    assert!(second.is_empty());
}

#[test]
fn duplicate_and_unknown_constraints() {
    let mut alloc = Allocator::new();
    let mut solver = Solver::new();
    let x = alloc.new_variable();
    let c = alloc.new_constraint(minus_const(x, 1), RelOp::Equal, Strength::required());
    let other = alloc.new_constraint(minus_const(x, 1), RelOp::Equal, Strength::required());
    solver.add_constraint(&c).unwrap();
    assert_eq!(solver.add_constraint(&c), Err(SolverError::DuplicateConstraint));
    // A structurally identical but separately built constraint is distinct.
    solver.add_constraint(&other).unwrap();
    assert_eq!(solver.remove_constraint(&other), Ok(()));
    assert_eq!(solver.remove_constraint(&other), Err(SolverError::UnknownConstraint));
}

#[test]
fn edit_variable_errors() {
    let mut alloc = Allocator::new();
    let mut solver = Solver::new();
    let x = alloc.new_variable();
    assert_eq!(
        solver.add_edit_variable(x, Strength::required()),
        Err(SolverError::BadRequiredStrength)
    );
    solver.add_edit_variable(x, Strength::strong()).unwrap();
    assert_eq!(
        solver.add_edit_variable(x, Strength::strong()),
        Err(SolverError::DuplicateEditVariable)
    );
    let y = alloc.new_variable();
    assert_eq!(
        solver.suggest_value(y, Ratio::from_int(1)),
        Err(SolverError::UnknownEditVariable)
    );
    assert_eq!(solver.remove_edit_variable(y), Err(SolverError::UnknownEditVariable));
    solver.remove_edit_variable(x).unwrap();
}

#[test]
fn unsatisfiable_required_rolls_back() {
    let mut alloc = Allocator::new();
    let mut solver = Solver::new();
    let x = alloc.new_variable();
    let c1 = alloc.new_constraint(minus_const(x, 1), RelOp::Equal, Strength::required());
    let c2 = alloc.new_constraint(minus_const(x, 2), RelOp::Equal, Strength::required());
    solver.add_constraint(&c1).unwrap();
    let _ = solver.fetch_changes();
    assert_value(&solver, x, 1, 1);
    assert_eq!(
        solver.add_constraint(&c2),
        Err(SolverError::UnsatisfiableConstraint)
    );
    // Previously solved values and constraints are intact.
    let changes = solver.fetch_changes();
    assert!(changes.is_empty());
    assert_value(&solver, x, 1, 1);
    assert_eq!(solver.add_constraint(&c1), Err(SolverError::DuplicateConstraint));
}

#[test]
fn removal_restores_prior_feasibility() {
    let mut alloc = Allocator::new();
    let mut solver = Solver::new();
    let x = alloc.new_variable();
    let c1 = alloc.new_constraint(minus_const(x, 1), RelOp::Equal, Strength::required());
    let c2 = alloc.new_constraint(minus_const(x, 2), RelOp::Equal, Strength::required());
    solver.add_constraint(&c1).unwrap();
    assert_eq!(
        solver.add_constraint(&c2),
        Err(SolverError::UnsatisfiableConstraint)
    );
    solver.remove_constraint(&c1).unwrap();
    solver.add_constraint(&c2).unwrap();
    let _ = solver.fetch_changes();
    assert_value(&solver, x, 2, 1);
}

#[test]
fn suggest_value_reports_only_changed_variables() {
    let mut alloc = Allocator::new();
    let mut solver = Solver::new();
    let a = alloc.new_variable();
    let b = alloc.new_variable();
    // Two unrelated constraint graphs: a is edited, b is pinned.
    let cb = alloc.new_constraint(minus_const(b, 9), RelOp::Equal, Strength::required());
    solver.add_constraint(&cb).unwrap();
    solver.add_edit_variable(a, Strength::strong()).unwrap();
    let _ = solver.fetch_changes();
    solver.suggest_value(a, Ratio::from_int(5)).unwrap();
    let changes = solver.fetch_changes();
    assert!(changes.iter().all(|(v, _)| v.id != b.id));
    assert!(changes.iter().any(|(v, _)| v.id == a.id));
    assert_value(&solver, a, 5, 1);
}

#[test]
fn end_to_end_proportional_layout() {
    // Three elements laid end to end in a container of width 50, each with
    // a strong fixed width (60, 30, 10) and medium 2:1 and 3:1 width ties.
    let mut alloc = Allocator::new();
    let mut solver = Solver::new();
    let cw = alloc.new_variable();
    let xs = [alloc.new_variable(), alloc.new_variable(), alloc.new_variable()];
    let ws = [alloc.new_variable(), alloc.new_variable(), alloc.new_variable()];

    let mut cs = Vec::new();
    // Required geometry: nonnegative sizes, first at origin, end to end,
    // total bounded by the container width.
    cs.push(alloc.new_constraint(var_expr(xs[0]), RelOp::Equal, Strength::required()));
    for i in 0..3 {
        cs.push(alloc.new_constraint(var_expr(ws[i]), RelOp::GreaterOrEqual, Strength::required()));
    }
    for i in 0..2 {
        // x[i] + w[i] == x[i+1]
        cs.push(alloc.new_constraint(
            var_expr(xs[i])
                .plus(&var_expr(ws[i]))
                .unwrap()
                .minus(&var_expr(xs[i + 1]))
                .unwrap(),
            RelOp::Equal,
            Strength::required(),
        ));
    }
    // x[2] + w[2] <= cw
    cs.push(alloc.new_constraint(
        var_expr(xs[2])
            .plus(&var_expr(ws[2]))
            .unwrap()
            .minus(&var_expr(cw))
            .unwrap(),
        RelOp::LessOrEqual,
        Strength::required(),
    ));
    // Strong fixed widths.
    for (i, w) in [60i64, 30, 10].iter().enumerate() {
        cs.push(alloc.new_constraint(minus_const(ws[i], *w), RelOp::Equal, Strength::strong()));
    }
    // Medium proportional ties: w0 / 2 == w1, w1 / 3 == w2.
    for (i, ratio) in [2i64, 3].iter().enumerate() {
        cs.push(alloc.new_constraint(
            var_expr(ws[i])
                .divided_by(Ratio::from_int(*ratio))
                .unwrap()
                .minus(&var_expr(ws[i + 1]))
                .unwrap(),
            RelOp::Equal,
            Strength::medium(),
        ));
    }
    solver.add_constraints(&cs).unwrap();
    solver
        .add_edit_variable(cw, Strength::create(1000, 1000, 1000))
        .unwrap();
    solver.suggest_value(cw, Ratio::from_int(50)).unwrap();
    let _ = solver.fetch_changes();
    assert_value(&solver, ws[0], 30, 1);
    assert_value(&solver, ws[1], 15, 1);
    assert_value(&solver, ws[2], 5, 1);
    assert_value(&solver, xs[0], 0, 1);
    assert_value(&solver, xs[1], 30, 1);
    assert_value(&solver, xs[2], 45, 1);
}

#[test]
fn expression_builders_fold_exactly() {
    let mut alloc = Allocator::new();
    let v = alloc.new_variable();
    let w = alloc.new_variable();
    let e = var_expr(v).plus(&var_expr(w)).unwrap();
    assert_eq!(e.terms.len(), 2);
    let scaled = e.times(Ratio::from_int(3)).unwrap();
    assert_eq!(scaled.terms[0].coefficient.num, 3);
    assert_eq!(scaled.terms[1].coefficient.num, 3);
    let halved = scaled.divided_by(Ratio::from_int(6)).unwrap();
    assert_eq!(
        (halved.terms[0].coefficient.num, halved.terms[0].coefficient.den),
        (1, 2)
    );
    assert!(scaled.divided_by(Ratio::zero()).is_none());
}

#[test]
fn edit_target_starts_at_current_value() {
    let mut alloc = Allocator::new();
    let mut solver = Solver::new();
    let x = alloc.new_variable();
    let c = alloc.new_constraint(minus_const(x, 7), RelOp::Equal, Strength::required());
    solver.add_constraint(&c).unwrap();
    let _ = solver.fetch_changes();
    // The stay constraint is created at x's current solved value, so the
    // solution must not move.
    solver.add_edit_variable(x, Strength::medium()).unwrap();
    let changes = solver.fetch_changes();
    assert!(changes.is_empty());
    assert_value(&solver, x, 7, 1);
}

#[test]
fn fetch_changes_reports_each_variable_once() {
    let mut alloc = Allocator::new();
    let mut solver = Solver::new();
    let x = alloc.new_variable();
    let y = alloc.new_variable();
    let c1 = alloc.new_constraint(minus_const(x, 3), RelOp::Equal, Strength::required());
    let c2 = alloc.new_constraint(
        var_expr(x)
            .plus(&var_expr(y))
            .unwrap()
            .minus(&Expression::from_constant(Ratio::from_int(10)))
            .unwrap(),
        RelOp::Equal,
        Strength::required(),
    );
    // Two mutations before one fetch: each variable appears at most once,
    // with its final value.
    solver.add_constraint(&c1).unwrap();
    solver.add_constraint(&c2).unwrap();
    let changes = solver.fetch_changes();
    for (i, (u, _)) in changes.iter().enumerate() {
        for (v, _) in changes.iter().skip(i + 1) {
            assert_ne!(u.id, v.id);
        }
    }
    assert_value(&solver, x, 3, 1);
    assert_value(&solver, y, 7, 1);
}

#[test]
fn non_required_conflicts_are_never_unsatisfiable() {
    let mut alloc = Allocator::new();
    let mut solver = Solver::new();
    let x = alloc.new_variable();
    // Conflicting non-required constraints are violable, so both adds
    // succeed; UnsatisfiableConstraint is reserved for required conflicts.
    let c1 = alloc.new_constraint(minus_const(x, 1), RelOp::Equal, Strength::strong());
    let c2 = alloc.new_constraint(minus_const(x, 2), RelOp::Equal, Strength::weak());
    assert_eq!(solver.add_constraint(&c1), Ok(()));
    assert_eq!(solver.add_constraint(&c2), Ok(()));
}
