//! Handing an integer linear program to the `good_lp` solver.

use good_lp::solvers::microlp::{MicroLpProblem, MicroLpSolution};
use good_lp::{constraint, default_solver, variable};
use good_lp::{Expression, ProblemVariables, Solution, SolverModel, Variable};
use vstd::prelude::*;

use crate::program::{
    feasible, well_formed, Column, LinearProgram, ProgramView, Relation, Row, RowView,
};

verus! {

/// The variables of a problem under construction.
#[verifier::external_type_specification]
#[verifier::external_body]
pub struct ExProblemVariables(ProblemVariables);

/// A variable of a problem.
#[verifier::external_type_specification]
#[verifier::external_body]
pub struct ExVariable(Variable);

/// An affine expression over variables.
#[verifier::external_type_specification]
#[verifier::external_body]
pub struct ExExpression(Expression);

/// A problem that has been handed to the solver.
#[verifier::external_type_specification]
#[verifier::external_body]
pub struct ExMicroLpProblem(MicroLpProblem);

/// What the solver found.
#[verifier::external_type_specification]
#[verifier::external_body]
pub struct ExMicroLpSolution(MicroLpSolution);

/// A constraint over the solver's variables.
pub struct SolverRow {
    pub terms: Seq<(Variable, int)>,
    pub constant: int,
    pub relation: Relation,
    pub bound: int,
}

/// The variable that `ProblemVariables::add` returns when there are `n` variables already.
pub uninterp spec fn nth_variable(n: nat) -> Variable;

/// What the variables may be, in the order in which they were added.
pub uninterp spec fn declared(variables: ProblemVariables) -> Seq<Column>;

/// The terms that were put into an expression, in that order.
pub uninterp spec fn expression_terms(expression: Expression) -> Seq<(Variable, int)>;

/// The constant of an expression.
pub uninterp spec fn expression_constant(expression: Expression) -> int;

/// What the variables of a problem may be, in the order in which they were added.
pub uninterp spec fn problem_columns(problem: MicroLpProblem) -> Seq<Column>;

/// The variable whose value a problem minimises.
pub uninterp spec fn problem_objective(problem: MicroLpProblem) -> Variable;

/// The constraints of a problem, in the order in which they were added.
pub uninterp spec fn problem_rows(problem: MicroLpProblem) -> Seq<SolverRow>;

/// What the solver answers for a problem: `None` when it finds no solution, else the value of
/// each variable, rounded to the nearest integer.
pub uninterp spec fn optimum(
    columns: Seq<Column>,
    objective: Variable,
    rows: Seq<SolverRow>,
) -> Option<Map<Variable, int>>;

/// The value of each variable in a solution, rounded to the nearest integer.
pub uninterp spec fn answers(solution: MicroLpSolution) -> Map<Variable, int>;

/// `v` is one of the first `n` variables.
pub open spec fn is_among(v: Variable, n: nat) -> bool {
    exists|i: nat| i < n && v == #[trigger] nth_variable(i)
}

/// `good_lp::ProblemVariables::new`: there are no variables yet.
pub assume_specification[ ProblemVariables::new ]() -> (variables: ProblemVariables)
    ensures
        declared(variables) == Seq::<Column>::empty(),
;

/// `good_lp::ProblemVariables::add` with an integer variable whose least value is zero: the
/// variable stands behind those that were there, and is named by its position.
#[verifier::external_body]
fn add_natural(variables: &mut ProblemVariables) -> (v: Variable)
    ensures
        v == nth_variable(declared(*old(variables)).len()),
        declared(*final(variables)) == declared(*old(variables)).push(Column::Natural),
{
    variables.add(variable().integer().min(0))
}

/// `good_lp::ProblemVariables::add` with an integer variable that is zero or one: the variable
/// stands behind those that were there, and is named by its position.
#[verifier::external_body]
fn add_binary(variables: &mut ProblemVariables) -> (v: Variable)
    ensures
        v == nth_variable(declared(*old(variables)).len()),
        declared(*final(variables)) == declared(*old(variables)).push(Column::Binary),
{
    variables.add(variable().binary())
}

/// `good_lp::Expression::from`: a constant without terms.
#[verifier::external_body]
fn constant_expression(constant: i32) -> (e: Expression)
    ensures
        expression_terms(e) == Seq::<(Variable, int)>::empty(),
        expression_constant(e) == constant,
{
    Expression::from(constant)
}

/// `good_lp::Expression::add_mul` with a variable: one more term, the same constant.
#[verifier::external_body]
fn add_term(e: &mut Expression, coefficient: i32, v: Variable)
    ensures
        expression_terms(*final(e)) == expression_terms(*old(e)).push((v, coefficient as int)),
        expression_constant(*final(e)) == expression_constant(*old(e)),
{
    e.add_mul(coefficient, v)
}

/// `good_lp::ProblemVariables::minimise` and `UnsolvedProblem::using` with
/// `good_lp::default_solver`: a problem with these variables and this objective, and no
/// constraints yet.
#[verifier::external_body]
fn minimise(variables: ProblemVariables, objective: Variable) -> (problem: MicroLpProblem)
    requires
        is_among(objective, declared(variables).len()),
    ensures
        problem_columns(problem) == declared(variables),
        problem_objective(problem) == objective,
        problem_rows(problem) == Seq::<SolverRow>::empty(),
{
    variables.minimise(objective).using(default_solver)
}

/// The problem with one more constraint.
pub open spec fn with_row(
    before: MicroLpProblem,
    after: MicroLpProblem,
    e: Expression,
    relation: Relation,
    bound: int,
) -> bool {
    &&& problem_columns(after) == problem_columns(before)
    &&& problem_objective(after) == problem_objective(before)
    &&& problem_rows(after) == problem_rows(before).push(
        SolverRow {
            terms: expression_terms(e),
            constant: expression_constant(e),
            relation,
            bound,
        },
    )
}

/// The terms of an expression are over the first `n` variables.
pub open spec fn is_over(e: Expression, n: nat) -> bool {
    forall|i: int|
        0 <= i < expression_terms(e).len() ==> is_among(
            (#[trigger] expression_terms(e)[i]).0,
            n,
        )
}

/// `good_lp::SolverModel::add_constraint` with `good_lp::constraint::eq`: the expression is to
/// equal the bound.
#[verifier::external_body]
fn require_equal(problem: &mut MicroLpProblem, e: Expression, bound: i32)
    requires
        is_over(e, problem_columns(*old(problem)).len()),
    ensures
        with_row(*old(problem), *final(problem), e, Relation::Equal, bound as int),
{
    problem.add_constraint(constraint::eq(e, bound));
}

/// `good_lp::SolverModel::add_constraint` with `good_lp::constraint::leq`: the expression is
/// not to exceed the bound.
#[verifier::external_body]
fn require_at_most(problem: &mut MicroLpProblem, e: Expression, bound: i32)
    requires
        is_over(e, problem_columns(*old(problem)).len()),
    ensures
        with_row(*old(problem), *final(problem), e, Relation::AtMost, bound as int),
{
    problem.add_constraint(constraint::leq(e, bound));
}

/// `good_lp::SolverModel::add_constraint` with `good_lp::constraint::geq`: the expression is
/// not to fall below the bound.
#[verifier::external_body]
fn require_at_least(problem: &mut MicroLpProblem, e: Expression, bound: i32)
    requires
        is_over(e, problem_columns(*old(problem)).len()),
    ensures
        with_row(*old(problem), *final(problem), e, Relation::AtLeast, bound as int),
{
    problem.add_constraint(constraint::geq(e, bound));
}

/// `good_lp::SolverModel::solve`: the answer depends on the variables, the objective and the
/// constraints alone, and an answer has a value for every variable. That the rounded values
/// meet the constraints is not claimed: the solver computes with rounding errors.
#[verifier::external_body]
fn solve(problem: MicroLpProblem) -> (r: Option<MicroLpSolution>)
    ensures
        r is Some <==> optimum(
            problem_columns(problem),
            problem_objective(problem),
            problem_rows(problem),
        ) is Some,
        r matches Some(s) ==> optimum(
            problem_columns(problem),
            problem_objective(problem),
            problem_rows(problem),
        ) == Some(answers(s)),
        r matches Some(s) ==> forall|v: Variable|
            is_among(v, problem_columns(problem).len()) ==> #[trigger] answers(s).contains_key(v),
{
    problem.solve().ok()
}

/// `good_lp::Solution::value`, rounded to the nearest integer.
#[verifier::external_body]
fn value(solution: &MicroLpSolution, v: Variable) -> (r: i64)
    requires
        answers(*solution).contains_key(v),
    ensures
        r == answers(*solution)[v],
{
    solution.value(v).round() as i64
}

/// The terms over the solver's variables.
pub open spec fn solver_terms(terms: Seq<(int, int)>) -> Seq<(Variable, int)> {
    Seq::new(terms.len(), |i: int| (nth_variable(terms[i].0 as nat), terms[i].1))
}

/// The constraint over the solver's variables.
pub open spec fn solver_row(row: RowView) -> SolverRow {
    SolverRow {
        terms: solver_terms(row.terms),
        constant: row.constant,
        relation: row.relation,
        bound: row.bound,
    }
}

/// The solver's answer to a program: a value for each column, or `None`.
pub open spec fn solution(program: ProgramView) -> Option<Seq<int>> {
    match optimum(
        program.columns,
        nth_variable(program.objective as nat),
        Seq::new(program.rows.len(), |i: int| solver_row(program.rows[i])),
    ) {
        Some(values) => Some(
            Seq::new(program.columns.len(), |i: int| values[nth_variable(i as nat)]),
        ),
        None => None,
    }
}

/// The solver's answer to a program is exact: it has one where there is a feasible point, and then
/// it is a feasible point with the least objective.
pub open spec fn answers_exactly(program: ProgramView) -> bool {
    &&& solution(program) is Some <==> exists|values: Seq<int>| #[trigger] feasible(program, values)
    &&& solution(program) matches Some(answer) ==> feasible(program, answer)
    &&& solution(program) matches Some(answer) ==> forall|values: Seq<int>| #[trigger]
        feasible(program, values) ==> answer[program.objective] <= values[program.objective]
}

/// The values over mathematical integers.
pub open spec fn value_views(values: Seq<i64>) -> Seq<int> {
    Seq::new(values.len(), |i: int| values[i] as int)
}

/// Puts the left side of a row into an expression.
fn left_side(handles: &Vec<Variable>, row: &Row) -> (e: Expression)
    requires
        forall|i: int| 0 <= i < handles@.len() ==> #[trigger] handles@[i] == nth_variable(i as nat),
        forall|i: int|
            0 <= i < row.terms@.len() ==> (#[trigger] row.terms@[i]).0 < handles@.len(),
    ensures
        expression_terms(e) == solver_terms(row@.terms),
        expression_constant(e) == row.constant,
        is_over(e, handles@.len()),
{
    let mut e = constant_expression(row.constant);
    let mut i: usize = 0;
    while i < row.terms.len()
        invariant
            forall|i: int|
                0 <= i < handles@.len() ==> #[trigger] handles@[i] == nth_variable(i as nat),
            forall|i: int|
                0 <= i < row.terms@.len() ==> (#[trigger] row.terms@[i]).0 < handles@.len(),
            i <= row.terms@.len(),
            expression_terms(e) == solver_terms(row@.terms).take(i as int),
            expression_constant(e) == row.constant,
            is_over(e, handles@.len()),
        decreases row.terms.len() - i,
    {
        let (column, coefficient) = row.terms[i];
        add_term(&mut e, coefficient, handles[column]);
        proof {
            assert(solver_terms(row@.terms).take(i + 1) =~= solver_terms(row@.terms).take(
                i as int,
            ).push((nth_variable(column as nat), coefficient as int)));
            assert(is_among(nth_variable(column as nat), handles@.len()));
        }
        i = i + 1;
    }
    proof {
        assert(solver_terms(row@.terms).take(i as int) =~= solver_terms(row@.terms));
    }
    e
}

/// Declares the columns of a program.
fn declare(columns: &Vec<Column>) -> (r: (ProblemVariables, Vec<Variable>))
    ensures
        declared(r.0) == columns@,
        r.1@.len() == columns@.len(),
        forall|i: int| 0 <= i < r.1@.len() ==> #[trigger] r.1@[i] == nth_variable(i as nat),
{
    let mut variables = ProblemVariables::new();
    let mut handles: Vec<Variable> = Vec::new();
    let mut i: usize = 0;
    while i < columns.len()
        invariant
            i <= columns@.len(),
            declared(variables) == columns@.take(i as int),
            handles@.len() == i,
            forall|k: int| 0 <= k < i ==> #[trigger] handles@[k] == nth_variable(k as nat),
        decreases columns.len() - i,
    {
        let handle = match columns[i] {
            Column::Natural => add_natural(&mut variables),
            Column::Binary => add_binary(&mut variables),
        };
        handles.push(handle);
        proof {
            assert(columns@.take(i + 1) =~= columns@.take(i as int).push(columns@[i as int]));
        }
        i = i + 1;
    }
    proof {
        assert(columns@.take(i as int) =~= columns@);
    }
    (variables, handles)
}

/// Solves a program: a value for each column, or `None` when the solver finds no solution.
pub fn optimise(program: &LinearProgram) -> (r: Option<Vec<i64>>)
    requires
        well_formed(program@),
    ensures
        r is Some <==> solution(program@) is Some,
        r matches Some(values) ==> solution(program@) == Some(value_views(values@)),
{
    let (variables, handles) = declare(&program.columns);
    let ghost rows = Seq::new(program@.rows.len(), |i: int| solver_row(program@.rows[i]));
    proof {
        assert(nth_variable(program.objective as nat) == handles@[program.objective as int]);
        assert(is_among(nth_variable(program.objective as nat), declared(variables).len()));
    }
    let mut problem = minimise(variables, handles[program.objective]);
    let mut i: usize = 0;
    while i < program.rows.len()
        invariant
            well_formed(program@),
            handles@.len() == program.columns@.len(),
            forall|i: int|
                0 <= i < handles@.len() ==> #[trigger] handles@[i] == nth_variable(i as nat),
            i <= program.rows@.len(),
            rows == Seq::new(program@.rows.len(), |i: int| solver_row(program@.rows[i])),
            problem_columns(problem) == program.columns@,
            problem_objective(problem) == nth_variable(program.objective as nat),
            problem_rows(problem) == rows.take(i as int),
        decreases program.rows.len() - i,
    {
        let row = &program.rows[i];
        proof {
            assert(row@ == program@.rows[i as int]);
            assert forall|k: int| 0 <= k < row.terms@.len() implies (#[trigger] row.terms@[k]).0
                < handles@.len() by {
                assert(0 <= row@.terms[k].0 < program.columns@.len());
            }
        }
        let e = left_side(&handles, row);
        match row.relation {
            Relation::Equal => require_equal(&mut problem, e, row.bound),
            Relation::AtMost => require_at_most(&mut problem, e, row.bound),
            Relation::AtLeast => require_at_least(&mut problem, e, row.bound),
        }
        proof {
            assert(rows.take(i + 1) =~= rows.take(i as int).push(solver_row(row@)));
        }
        i = i + 1;
    }
    proof {
        assert(rows.take(i as int) =~= rows);
    }
    let found = match solve(problem) {
        Some(found) => found,
        None => return None,
    };
    let mut values: Vec<i64> = Vec::new();
    let mut k: usize = 0;
    while k < handles.len()
        invariant
            handles@.len() == program.columns@.len(),
            forall|i: int|
                0 <= i < handles@.len() ==> #[trigger] handles@[i] == nth_variable(i as nat),
            forall|v: Variable|
                is_among(v, program.columns@.len()) ==> #[trigger] answers(found).contains_key(v),
            k <= handles@.len(),
            value_views(values@) == Seq::new(
                k as nat,
                |i: int| answers(found)[nth_variable(i as nat)],
            ),
        decreases handles.len() - k,
    {
        proof {
            assert(handles@[k as int] == nth_variable(k as nat));
            assert(is_among(nth_variable(k as nat), program.columns@.len()));
        }
        let ghost before = values@;
        values.push(value(&found, handles[k]));
        proof {
            assert(value_views(values@) =~= value_views(before).push(values@.last() as int));
            assert(value_views(values@) =~= Seq::new(
                (k + 1) as nat,
                |i: int| answers(found)[nth_variable(i as nat)],
            ));
        }
        k = k + 1;
    }
    Some(values)
}

} // verus!
