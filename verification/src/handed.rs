//! What the solver is asked, field by field.

use vstd::prelude::*;

use crate::extract::{decodes, is_outcome, picks, SwpExtractor, SwpFailure, SwpSolution};
use crate::faithful::added;
use crate::graph::ClassGraph;
use crate::model::{fits, lag, x_col, BIG_M};
use crate::plain::nodes_before_adds_up;
use crate::program::{
    feasible, holds, in_domain, total, Column, LinearProgram, ProgramView, Relation,
};
use crate::schedule::{begins, chosen, is_selected, relaxes};
use crate::solver::{nth_variable, optimum, solution, solver_row, SolverRow};
use crate::tile::{edge_at, edge_count};

verus! {

/// The terms with their coefficients, added up.
pub open spec fn left_of(terms: Seq<(int, int)>, values: Seq<int>) -> int {
    added(Seq::new(terms.len(), |i: int| terms[i].1 * values[terms[i].0]))
}

proof fn total_is_left(terms: Seq<(int, int)>, values: Seq<int>)
    ensures
        total(terms, values) == left_of(terms, values),
    decreases terms.len(),
{
    reveal_with_fuel(Seq::fold_left, 2);
    if terms.len() > 0 {
        let front = terms.drop_last();
        total_is_left(front, values);
        assert(Seq::new(terms.len(), |i: int| terms[i].1 * values[terms[i].0]).drop_last()
            =~= Seq::new(front.len(), |i: int| front[i].1 * values[front[i].0]));
    }
}

/// What a program asks of the values of its columns.
pub proof fn what_a_program_asks(program: ProgramView, values: Seq<int>)
    ensures
        feasible(program, values) <==> {
            &&& values.len() == program.columns.len()
            &&& forall|i: int|
                0 <= i < values.len() ==> 0 <= #[trigger] values[i] && (program.columns[i]
                    == Column::Binary ==> values[i] <= 1)
            &&& forall|i: int|
                0 <= i < program.rows.len() ==> {
                    let row = #[trigger] program.rows[i];
                    let left = left_of(row.terms, values) + row.constant;
                    match row.relation {
                        Relation::Equal => left == row.bound,
                        Relation::AtMost => left <= row.bound,
                        Relation::AtLeast => left >= row.bound,
                    }
                }
        },
{
    assert forall|i: int| 0 <= i < program.rows.len() implies #[trigger] holds(
        program.rows[i],
        values,
    ) == {
        let row = program.rows[i];
        let left = left_of(row.terms, values) + row.constant;
        match row.relation {
            Relation::Equal => left == row.bound,
            Relation::AtMost => left <= row.bound,
            Relation::AtLeast => left >= row.bound,
        }
    } by {
        total_is_left(program.rows[i].terms, values);
    }
    if feasible(program, values) {
        assert forall|i: int| 0 <= i < values.len() implies 0 <= #[trigger] values[i] && (
        program.columns[i] == Column::Binary ==> values[i] <= 1) by {
            assert(in_domain(program.columns[i], values[i]));
        }
        assert forall|i: int| 0 <= i < program.rows.len() implies {
            let row = #[trigger] program.rows[i];
            let left = left_of(row.terms, values) + row.constant;
            match row.relation {
                Relation::Equal => left == row.bound,
                Relation::AtMost => left <= row.bound,
                Relation::AtLeast => left >= row.bound,
            }
        } by {
            assert(holds(program.rows[i], values));
        }
    }
    if values.len() == program.columns.len() && forall|i: int|
        0 <= i < values.len() ==> 0 <= #[trigger] values[i] && (program.columns[i]
            == Column::Binary ==> values[i] <= 1) {
        assert forall|i: int| 0 <= i < values.len() implies in_domain(
            #[trigger] program.columns[i],
            values[i],
        ) by {
            assert(0 <= values[i]);
        }
    }
}

/// The rows have the terms, constants, relations and bounds of those of the program.
pub open spec fn are_rows_of(program: ProgramView, rows: Seq<SolverRow>) -> bool {
    &&& rows.len() == program.rows.len()
    &&& forall|i: int|
        0 <= i < rows.len() ==> {
            let row = program.rows[i];
            &&& (#[trigger] rows[i]).relation == row.relation
            &&& rows[i].constant == row.constant
            &&& rows[i].bound == row.bound
            &&& rows[i].terms.len() == row.terms.len()
            &&& forall|k: int|
                0 <= k < row.terms.len() ==> (#[trigger] rows[i].terms[k]).0 == nth_variable(
                    row.terms[k].0 as nat,
                ) && rows[i].terms[k].1 == row.terms[k].1
        }
}

/// The answer to a program is the solver's to the problem with the same columns, the same objective
/// and the same rows: the value of each column is that of its variable.
pub proof fn what_the_solver_is_handed(program: ProgramView)
    ensures
        exists|rows: Seq<SolverRow>| #[trigger]
            are_rows_of(program, rows) && {
                let answer = optimum(program.columns, nth_variable(program.objective as nat), rows);
                &&& solution(program) is Some <==> answer is Some
                &&& solution(program) matches Some(values) ==> values.len()
                    == program.columns.len() && forall|i: int|
                    0 <= i < values.len() ==> #[trigger] values[i] == answer->0[nth_variable(
                        i as nat,
                    )]
            },
{
    let rows = Seq::new(
        program.rows.len(),
        |i: int| solver_row(program.rows[i]),
    );
    assert(are_rows_of(program, rows));
}

/// A program is seen as what its fields hold.
pub proof fn programs_are_seen_field_by_field(program: LinearProgram)
    ensures
        program@.columns == program.columns@,
        program@.objective == program.objective,
        program@.rows.len() == program.rows@.len(),
        forall|i: int|
            0 <= i < program.rows@.len() ==> {
                let row = program.rows@[i];
                &&& (#[trigger] program@.rows[i]).constant == row.constant
                &&& program@.rows[i].relation == row.relation
                &&& program@.rows[i].bound == row.bound
                &&& program@.rows[i].terms.len() == row.terms@.len()
                &&& forall|k: int|
                    0 <= k < row.terms@.len() ==> (#[trigger] program@.rows[i].terms[k]).0
                        == row.terms@[k].0 && program@.rows[i].terms[k].1 == row.terms@[k].1
            },
{
}

/// The longest initiation interval that is found has 64 cycles.
pub proof fn intervals_have_at_most_64_cycles(
    extractor: SwpExtractor,
    roots: Seq<usize>,
    found: SwpSolution,
)
    requires
        is_outcome(extractor, roots, Ok::<SwpSolution, SwpFailure>(found)),
    ensures
        1 <= found.ii <= 64,
        extractor.answer(found.ii as int, roots) is Some,
{
}

/// A graph is refused at the first interval for which it is not accepted, where no shorter one has
/// an answer.
pub proof fn what_is_out_of_range(extractor: SwpExtractor, roots: Seq<usize>)
    requires
        is_outcome(
            extractor,
            roots,
            Err::<SwpSolution, SwpFailure>(SwpFailure::OutOfRange),
        ),
    ensures
        exists|ii: int| #[trigger]
            is_refused_at(extractor, roots, ii),
{
    let ii = choose|ii: int| #[trigger]
        extractor.reaches(ii, roots) && !extractor.accepts(ii, roots);
    assert(is_refused_at(extractor, roots, ii));
}

/// The graph is accepted for all shorter intervals, which have no answer, and not for this one: it
/// is not well formed, its numbers do not fit the machine, or a root is not one of its ids.
pub open spec fn is_refused_at(extractor: SwpExtractor, roots: Seq<usize>, ii: int) -> bool {
    let g = extractor.graph();
    &&& 1 <= ii <= 64
    &&& forall|shorter: int|
        1 <= shorter < ii ==> #[trigger] extractor.answer(shorter, roots) is None
    &&& !(g.wf() && fits(g, extractor.limits().len() as int, ii) && forall|i: int|
        0 <= i < roots.len() ==> (#[trigger] roots[i]) < g.leaders@.len())
}

/// How far the dependences of what is not selected are relaxed: by a thousand cycles.
pub proof fn what_is_relaxed(
    g: ClassGraph,
    ii: int,
    end: int,
    selected: Map<usize, (usize, i32)>,
    idle: Seq<int>,
)
    requires
        g.wf(),
    ensures
        relaxes(g, ii, end, selected, idle) <==> {
            &&& forall|c: int|
                0 <= c < g.classes@.len() && !selected.contains_key((#[trigger] g.classes@[c]).id)
                    ==> 0 <= idle[c] && ii * idle[c] <= end
            &&& forall|c: int, j: int, k: int, b: int|
                0 <= c < g.classes@.len() && 0 <= j < g.classes@[c].nodes@.len() && 0 <= k
                    < g.classes@[c].nodes@[j].children@.len() && k
                    < g.classes@[c].nodes@[j].edge_data@.len() && 0 <= b < g.classes@.len()
                    && g.leaders@[(#[trigger] g.classes@[c].nodes@[j].children@[k]) as int] == (
                #[trigger] g.classes@[b]).id && !(selected.contains_key(g.classes@[c].id)
                    && selected[g.classes@[c].id].0 == j) ==> first_cycle(g, ii, selected, idle, c)
                    - first_cycle(g, ii, selected, idle, b) + 1000
                    >= g.classes@[c].nodes@[j].edge_data@[k].0 - ii
                    * g.classes@[c].nodes@[j].edge_data@[k].1
        },
{
    assert forall|c: int| 0 <= c < g.classes@.len() implies #[trigger] begins(
        g,
        ii,
        selected,
        idle,
        c,
    ) == first_cycle(g, ii, selected, idle, c) by {}
    if relaxes(g, ii, end, selected, idle) {
        assert forall|c: int|
            0 <= c < g.classes@.len() && !selected.contains_key(
                (#[trigger] g.classes@[c]).id,
            ) implies 0 <= idle[c] && ii * idle[c] <= end by {
            assert(!chosen(g, selected, c));
        }
        assert forall|c: int, j: int, k: int, b: int|
            0 <= c < g.classes@.len() && 0 <= j < g.classes@[c].nodes@.len() && 0 <= k
                < g.classes@[c].nodes@[j].children@.len() && k
                < g.classes@[c].nodes@[j].edge_data@.len() && 0 <= b < g.classes@.len()
                && g.leaders@[(#[trigger] g.classes@[c].nodes@[j].children@[k]) as int] == (
            #[trigger] g.classes@[b]).id && !(selected.contains_key(g.classes@[c].id)
                && selected[g.classes@[c].id].0 == j) implies first_cycle(g, ii, selected, idle, c)
            - first_cycle(g, ii, selected, idle, b) + 1000
            >= g.classes@[c].nodes@[j].edge_data@[k].0 - ii
            * g.classes@[c].nodes@[j].edge_data@[k].1 by {
            let edge = edge_at(g.nodes(c)[j], k);
            assert(g.nodes(c)[j].children@[k] < g.leaders@.len());
            g.class_index_is_unique(edge.id, b);
            assert(!is_selected(g, selected, c, j));
            assert(k < edge_count(g.nodes(c)[j]));
        }
    } else {
        if forall|c: int|
            0 <= c < g.classes@.len() && !selected.contains_key((#[trigger] g.classes@[c]).id)
                ==> 0 <= idle[c] && ii * idle[c] <= end {
            assert forall|c: int|
                0 <= c < g.classes@.len() && !#[trigger] chosen(
                    g,
                    selected,
                    c,
                ) implies 0 <= idle[c] && ii * idle[c] <= end by {
                let _ = g.classes@[c];
            }
            let (c, j, k) = choose|c: int, j: int, k: int|
                0 <= c < g.classes@.len() && 0 <= j < g.nodes(c).len() && 0 <= k < edge_count(
                    g.nodes(c)[j],
                ) && !is_selected(g, selected, c, j) && !{
                    let edge = #[trigger] edge_at(g.nodes(c)[j], k);
                    begins(g, ii, selected, idle, c) - begins(
                        g,
                        ii,
                        selected,
                        idle,
                        g.class_index(edge.id),
                    ) + BIG_M >= lag(edge, ii)
                };
            let edge = edge_at(g.nodes(c)[j], k);
            let child = g.classes@[c].nodes@[j].children@[k];
            assert(g.nodes(c)[j].children@[k] < g.leaders@.len());
            g.class_index_is_unique(child, 0);
            let b = g.class_index(child);
            assert(g.classes@[b].id == g.leaders@[child as int]);
        }
    }
}

/// The cycle in which a class starts, where one that is not selected starts with an interval.
pub open spec fn first_cycle(
    g: ClassGraph,
    ii: int,
    selected: Map<usize, (usize, i32)>,
    idle: Seq<int>,
    c: int,
) -> int {
    if selected.contains_key(g.classes@[c].id) {
        selected[g.classes@[c].id].1 as int
    } else {
        ii * idle[c]
    }
}

/// The position of the column of node `j` of the class at position `c`: behind three columns for
/// each class and, for each node before it, one column and one for each slot.
pub open spec fn node_column(g: ClassGraph, ii: int, c: int, j: int) -> int {
    3 * g.classes@.len() + (added(
        Seq::new(c as nat, |b: int| g.classes@[b].nodes@.len() as int),
    ) + j) * (ii + 1)
}

/// What is read off the values of the columns: the first node of each class that is needed whose
/// column is one, and the cycle in which the class starts.
pub proof fn what_is_read_off(g: ClassGraph, ii: int, values: Seq<int>, r: SwpSolution)
    requires
        g.wf(),
        decodes(g, ii, values, r),
    ensures
        r.ii == ii,
        forall|c: int, j: int|
            0 <= c < g.classes@.len() && 0 <= j < g.classes@[c].nodes@.len() && values[3 * c + 2]
                != 0 && values[#[trigger] node_column(g, ii, c, j)] == 1 && (forall|i: int|
                0 <= i < j ==> values[#[trigger] node_column(g, ii, c, i)] != 1)
                ==> r.selected@.contains_key(g.classes@[c].id)
                && r.selected@[g.classes@[c].id].0 == j && (-0x8000_0000 <= values[3 * c]
                <= 0x7fff_ffff ==> r.selected@[g.classes@[c].id].1 == values[3 * c]),
        forall|c: int|
            0 <= c < g.classes@.len() && r.selected@.contains_key((#[trigger] g.classes@[c]).id)
                ==> values[3 * c + 2] != 0 && values[node_column(
                g,
                ii,
                c,
                r.selected@[g.classes@[c].id].0 as int,
            )] == 1,
{
    assert forall|c: int, j: int| 0 <= c implies #[trigger] node_column(g, ii, c, j) == x_col(
        g,
        ii,
        c,
        j,
    ) by {
        nodes_before_adds_up(g, c);
    }
    assert forall|c: int, j: int|
        0 <= c < g.classes@.len() && 0 <= j < g.classes@[c].nodes@.len() && values[3 * c + 2] != 0
            && values[#[trigger] node_column(g, ii, c, j)] == 1 && (forall|i: int|
            0 <= i < j ==> values[#[trigger] node_column(g, ii, c, i)]
                != 1) implies r.selected@.contains_key(g.classes@[c].id)
        && r.selected@[g.classes@[c].id].0 == j && (-0x8000_0000 <= values[3 * c] <= 0x7fff_ffff
        ==> r.selected@[g.classes@[c].id].1 == values[3 * c]) by {
        assert forall|i: int| 0 <= i < j implies values[#[trigger] x_col(g, ii, c, i)] != 1 by {
            assert(node_column(g, ii, c, i) == x_col(g, ii, c, i));
        }
        assert(picks(g, ii, values, c, j));
    }
    assert forall|c: int|
        0 <= c < g.classes@.len() && r.selected@.contains_key(
            (#[trigger] g.classes@[c]).id,
        ) implies values[3 * c + 2] != 0 && values[node_column(
        g,
        ii,
        c,
        r.selected@[g.classes@[c].id].0 as int,
    )] == 1 by {
        let (b, j) = choose|b: int, j: int| #[trigger]
            picks(g, ii, values, b, j) && g.classes@[b].id == g.classes@[c].id;
        assert(b == c) by {
            if b < c {
                assert(g.classes@[b].id != g.classes@[c].id);
            }
            if c < b {
                assert(g.classes@[c].id != g.classes@[b].id);
            }
        }
        assert(node_column(g, ii, c, j) == x_col(g, ii, c, j));
    }
}

} // verus!
