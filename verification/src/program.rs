//! Integer linear programs as plain values.

use vstd::prelude::*;

verus! {

/// The values that a column may take.
#[derive(Debug, Clone, Copy, PartialEq, Eq, Structural)]
pub enum Column {
    /// Any integer from zero up.
    Natural,
    /// Zero or one.
    Binary,
}

/// How the left side of a row compares with its bound.
#[derive(Debug, Clone, Copy, PartialEq, Eq, Structural)]
pub enum Relation {
    Equal,
    AtMost,
    AtLeast,
}

/// One constraint: the terms, each a column and its coefficient, and the constant add up to
/// something that stands in `relation` to `bound`.
#[derive(Debug)]
pub struct Row {
    pub terms: Vec<(usize, i32)>,
    pub constant: i32,
    pub relation: Relation,
    pub bound: i32,
}

/// The columns, the one whose value is to be as small as possible, and the constraints.
#[derive(Debug)]
pub struct LinearProgram {
    pub columns: Vec<Column>,
    pub objective: usize,
    pub rows: Vec<Row>,
}

/// A row over mathematical integers.
#[verifier::ext_equal]
pub struct RowView {
    pub terms: Seq<(int, int)>,
    pub constant: int,
    pub relation: Relation,
    pub bound: int,
}

/// A program over mathematical integers.
#[verifier::ext_equal]
pub struct ProgramView {
    pub columns: Seq<Column>,
    pub objective: int,
    pub rows: Seq<RowView>,
}

/// A term over mathematical integers.
pub open spec fn term_view(term: (usize, i32)) -> (int, int) {
    (term.0 as int, term.1 as int)
}

/// The terms over mathematical integers.
pub open spec fn term_views(terms: Seq<(usize, i32)>) -> Seq<(int, int)> {
    Seq::new(terms.len(), |i: int| term_view(terms[i]))
}

impl View for Row {
    type V = RowView;

    open spec fn view(&self) -> RowView {
        RowView {
            terms: term_views(self.terms@),
            constant: self.constant as int,
            relation: self.relation,
            bound: self.bound as int,
        }
    }
}

/// The rows over mathematical integers.
pub open spec fn row_views(rows: Seq<Row>) -> Seq<RowView> {
    Seq::new(rows.len(), |i: int| rows[i]@)
}

impl View for LinearProgram {
    type V = ProgramView;

    open spec fn view(&self) -> ProgramView {
        ProgramView {
            columns: self.columns@,
            objective: self.objective as int,
            rows: row_views(self.rows@),
        }
    }
}

/// What the terms add up to when column `i` has the value `values[i]`.
pub open spec fn total(terms: Seq<(int, int)>, values: Seq<int>) -> int
    decreases terms.len(),
{
    if terms.len() == 0 {
        0
    } else {
        total(terms.drop_last(), values) + terms.last().1 * values[terms.last().0]
    }
}

/// `values` meets the constraint.
pub open spec fn holds(row: RowView, values: Seq<int>) -> bool {
    let left = total(row.terms, values) + row.constant;
    match row.relation {
        Relation::Equal => left == row.bound,
        Relation::AtMost => left <= row.bound,
        Relation::AtLeast => left >= row.bound,
    }
}

/// `values` meets every constraint.
pub open spec fn all_hold(rows: Seq<RowView>, values: Seq<int>) -> bool {
    forall|i: int| 0 <= i < rows.len() ==> holds(#[trigger] rows[i], values)
}

/// `value` is one that the column may take.
pub open spec fn in_domain(column: Column, value: int) -> bool {
    match column {
        Column::Natural => 0 <= value,
        Column::Binary => value == 0 || value == 1,
    }
}

/// `values` gives every column a value that it may take and meets every constraint.
pub open spec fn feasible(program: ProgramView, values: Seq<int>) -> bool {
    &&& values.len() == program.columns.len()
    &&& forall|i: int|
        0 <= i < values.len() ==> in_domain(#[trigger] program.columns[i], values[i])
    &&& all_hold(program.rows, values)
}

/// The terms name columns below `width`.
pub open spec fn terms_within(terms: Seq<(int, int)>, width: int) -> bool {
    forall|i: int| 0 <= i < terms.len() ==> 0 <= (#[trigger] terms[i]).0 < width
}

/// The objective and every term name columns of the program.
pub open spec fn well_formed(program: ProgramView) -> bool {
    &&& 0 <= program.objective < program.columns.len()
    &&& forall|i: int|
        0 <= i < program.rows.len() ==> terms_within(
            (#[trigger] program.rows[i]).terms,
            program.columns.len() as int,
        )
}

/// Totals add up over a concatenation.
pub proof fn total_of_sum(a: Seq<(int, int)>, b: Seq<(int, int)>, values: Seq<int>)
    ensures
        total(a + b, values) == total(a, values) + total(b, values),
    decreases b.len(),
{
    if b.len() == 0 {
        assert(a + b =~= a);
    } else {
        assert((a + b).drop_last() =~= a + b.drop_last());
        total_of_sum(a, b.drop_last(), values);
    }
}

/// The total of one more term.
pub proof fn total_of_push(terms: Seq<(int, int)>, term: (int, int), values: Seq<int>)
    ensures
        total(terms.push(term), values) == total(terms, values) + term.1 * values[term.0],
{
    assert(terms.push(term).drop_last() =~= terms);
}

/// A concatenation holds exactly when both parts do.
pub proof fn all_hold_of_sum(a: Seq<RowView>, b: Seq<RowView>, values: Seq<int>)
    ensures
        all_hold(a + b, values) <==> all_hold(a, values) && all_hold(b, values),
{
    if all_hold(a + b, values) {
        assert forall|i: int| 0 <= i < a.len() implies holds(#[trigger] a[i], values) by {
            assert((a + b)[i] == a[i]);
        }
        assert forall|i: int| 0 <= i < b.len() implies holds(#[trigger] b[i], values) by {
            assert((a + b)[a.len() + i] == b[i]);
        }
    }
}

} // verus!
