//! That the initiation interval that is found is the shortest.

use vstd::prelude::*;

use crate::demands::{is_plan, plans_are_schedules, schedules_are_plans, starts_of};
use crate::dep::DepGraph;
use crate::egraph::TileGraph;
use crate::extract::{is_outcome, SwpExtractor, SwpFailure, SwpSolution};
use crate::graph::ClassGraph;
use crate::model::{last_col, model};
use crate::operations::{class_holds_its_operation, op_of, operation_has_a_class};
use crate::plain::{is_plain_schedule, what_a_schedule_is};
use crate::plan::{represents, unfolds_with_roots};
use crate::program::feasible;
use crate::schedule::{
    chosen, feasible_points_are_schedules, is_selected, point, relaxes,
    schedules_are_feasible_points,
};
use crate::solver::answers_exactly;
use crate::swp::{is_sound, SwpProblem};

verus! {

/// The initiation interval that is found is no longer than any that has an answer, and it has one.
pub proof fn the_interval_found_is_the_least(
    extractor: SwpExtractor,
    roots: Seq<usize>,
    found: SwpSolution,
    ii: int,
)
    requires
        is_outcome(extractor, roots, Ok::<SwpSolution, SwpFailure>(found)),
        1 <= ii <= 64,
        extractor.answer(ii, roots) is Some,
    ensures
        1 <= found.ii <= ii,
        extractor.answer(found.ii as int, roots) is Some,
{
    if ii < found.ii {
        assert(extractor.answer(ii, roots) is None);
    }
}

/// Where no initiation interval up to the longest has an answer, none is found.
pub proof fn nothing_is_found_without_an_answer(
    extractor: SwpExtractor,
    roots: Seq<usize>,
    r: Result<SwpSolution, SwpFailure>,
)
    requires
        is_outcome(extractor, roots, r),
        forall|ii: int|
            1 <= ii <= 64 ==> extractor.accepts(ii, roots) && #[trigger] extractor.answer(
                ii,
                roots,
            ) is None,
    ensures
        r == Err::<SwpSolution, SwpFailure>(SwpFailure::Infeasible),
{
    match r {
        Ok(found) => {
            assert(extractor.answer(found.ii as int, roots) is Some);
        },
        Err(SwpFailure::OutOfRange) => {
            let ii = choose|ii: int| #[trigger]
                extractor.reaches(ii, roots) && !extractor.accepts(ii, roots);
            assert(extractor.answer(ii, roots) is None);
        },
        Err(SwpFailure::Infeasible) => {},
    }
}

/// Each root with the only node of its class and the cycle in which it starts.
spec fn selection(roots: Seq<usize>, starts: Seq<int>) -> Map<usize, (usize, i32)> {
    Map::new(
        |id: usize| roots.contains(id),
        |id: usize| (0usize, starts[roots.index_of(id)] as i32),
    )
}

proof fn plan_has_a_point(
    p: SwpProblem,
    dep: DepGraph,
    g: TileGraph,
    ids: Seq<nat>,
    graph: ClassGraph,
    roots: Seq<usize>,
    ii: int,
    end: int,
    starts: Seq<int>,
) -> (values: Seq<int>)
    requires
        is_sound(p@),
        represents(p@, dep),
        unfolds_with_roots(dep, g, ids, graph, roots),
        0 < ii,
        0 <= end <= i32::MAX,
        is_plan(p, ii, end, starts),
    ensures
        feasible(model(graph, dep.resource_limits@, ii, roots), values),
        values[last_col(graph, ii)] == end,
{
    let selected = selection(roots, starts);
    let n = roots.len();
    assert forall|i: int, j: int| 0 <= i < j < n implies roots[i] != roots[j] by {
        let c = operation_has_a_class(dep, g, ids, graph, i);
        class_holds_its_operation(dep, g, ids, graph, c);
        assert(ids[j] != ids[i]);
    }
    assert forall|i: int| 0 <= i < n implies selected.contains_key(#[trigger] roots[i])
        && selected[roots[i]].1 == starts[i] by {
        assert(roots.contains(roots[i]));
        let q = roots.index_of(roots[i]);
        assert(roots[q] == roots[i]);
        assert(!(q < i) && !(i < q));
        assert(0 <= starts[i] && starts[i] + p.nodes@[i].cost <= end);
    }
    assert(starts_of(roots, selected) =~= starts);
    plans_are_schedules(p, dep, g, ids, graph, roots, ii, end, selected);
    assert forall|i: int| 0 <= i < n implies (#[trigger] roots[i]) < graph.leaders@.len() by {
        let c = operation_has_a_class(dep, g, ids, graph, i);
        assert(graph.classes@[c].id == roots[i]);
    }
    let idle = Seq::new(graph.classes@.len(), |c: int| 0int);
    assert forall|c: int| 0 <= c < graph.classes@.len() implies #[trigger] chosen(
        graph,
        selected,
        c,
    ) && graph.nodes(c).len() == 1 && is_selected(graph, selected, c, 0) by {
        class_holds_its_operation(dep, g, ids, graph, c);
        let i = op_of(ids, graph, c);
        assert(roots[i] == graph.classes@[c].id);
        assert(selected.contains_key(roots[i]));
    }
    assert(relaxes(graph, ii, end, selected, idle)) by {
        assert forall|c: int, j: int|
            0 <= c < graph.classes@.len() && 0 <= j < graph.nodes(c).len() implies is_selected(
            graph,
            selected,
            c,
            j,
        ) by {
            assert(chosen(graph, selected, c));
        }
    }
    schedules_are_feasible_points(
        graph,
        dep.resource_limits@,
        ii,
        roots,
        end,
        selected,
        idle,
    );
    point(graph, ii, end, selected, idle)
}

/// Where the solver answers exactly, what is found for a problem is a plan, no plan has a shorter
/// initiation interval, and of those with the same none ends earlier. Where nothing is found though
/// no number is out of range, there is no plan.
pub proof fn the_plan_found_is_the_shortest(
    p: SwpProblem,
    dep: DepGraph,
    g: TileGraph,
    ids: Seq<nat>,
    graph: ClassGraph,
    roots: Seq<usize>,
    extractor: SwpExtractor,
    r: Result<SwpSolution, SwpFailure>,
)
    requires
        is_sound(p@),
        represents(p@, dep),
        unfolds_with_roots(dep, g, ids, graph, roots),
        extractor.graph() == graph,
        extractor.limits() == dep.resource_limits@,
        is_outcome(extractor, roots, r),
        forall|ii: int|
            1 <= ii <= 64 ==> #[trigger] answers_exactly(
                model(graph, dep.resource_limits@, ii, roots),
            ),
    ensures
        r matches Ok(found) ==> found.end <= i32::MAX ==> is_plan(
            p,
            found.ii as int,
            found.end as int,
            starts_of(roots, found.selected@),
        ),
        r matches Ok(found) ==> forall|ii: int, end: int, starts: Seq<int>|
            1 <= ii <= 64 && 0 <= end <= i32::MAX && #[trigger] is_plan(p, ii, end, starts)
                ==> found.ii <= ii && (found.ii == ii ==> found.end <= end),
        r == Err::<SwpSolution, SwpFailure>(SwpFailure::Infeasible) ==> forall|
            ii: int,
            end: int,
            starts: Seq<int>,
        |
            1 <= ii <= 64 && 0 <= end <= i32::MAX ==> !#[trigger] is_plan(p, ii, end, starts),
{
    let limits = dep.resource_limits@;
    assert forall|i: int| 0 <= i < roots.len() implies (#[trigger] roots[i])
        < graph.leaders@.len() by {
        let c = operation_has_a_class(dep, g, ids, graph, i);
        assert(graph.classes@[c].id == roots[i]);
    }
    assert forall|ii: int, end: int, starts: Seq<int>|
        1 <= ii <= 64 && 0 <= end <= i32::MAX && #[trigger] is_plan(
            p,
            ii,
            end,
            starts,
        ) implies extractor.answer(ii, roots) is Some && extractor.answer(ii, roots)->0[last_col(
        graph,
        ii,
    )] <= end by {
        let values = plan_has_a_point(p, dep, g, ids, graph, roots, ii, end, starts);
        assert(answers_exactly(model(graph, limits, ii, roots)));
        assert(feasible(model(graph, limits, ii, roots), values));
    }
    match r {
        Ok(found) => {
            let ii = found.ii as int;
            let values = extractor.answer(ii, roots)->0;
            assert(answers_exactly(model(graph, limits, ii, roots)));
            assert(feasible(model(graph, limits, ii, roots), values));
            if found.end <= i32::MAX {
                assert(values[last_col(graph, ii)] <= i32::MAX);
                feasible_points_are_schedules(graph, limits, ii, roots, values, found);
                schedules_are_plans(
                    p,
                    dep,
                    g,
                    ids,
                    graph,
                    roots,
                    ii,
                    found.end as int,
                    found.selected@,
                );
            }
            assert forall|ii: int, end: int, starts: Seq<int>|
                1 <= ii <= 64 && 0 <= end <= i32::MAX && #[trigger] is_plan(
                    p,
                    ii,
                    end,
                    starts,
                ) implies found.ii <= ii && (found.ii == ii ==> found.end <= end) by {
                the_interval_found_is_the_least(extractor, roots, found, ii);
            }
        },
        Err(SwpFailure::Infeasible) => {
            assert forall|ii: int, end: int, starts: Seq<int>|
                1 <= ii <= 64 && 0 <= end <= i32::MAX implies !#[trigger] is_plan(
                p,
                ii,
                end,
                starts,
            ) by {}
        },
        Err(SwpFailure::OutOfRange) => {},
    }
}

/// Where the solver answers exactly, what is found for the roots of a graph is a schedule of them, and
/// no schedule whose other classes can wait has a shorter initiation interval, or the same and an
/// earlier end.
pub proof fn the_schedule_found_is_the_shortest(
    extractor: SwpExtractor,
    roots: Seq<usize>,
    found: SwpSolution,
)
    requires
        extractor.graph().wf(),
        forall|i: int|
            0 <= i < roots.len() ==> (#[trigger] roots[i]) < extractor.graph().leaders@.len(),
        is_outcome(extractor, roots, Ok::<SwpSolution, SwpFailure>(found)),
        forall|ii: int|
            1 <= ii <= 64 ==> #[trigger] answers_exactly(
                model(extractor.graph(), extractor.limits(), ii, roots),
            ),
    ensures
        found.end <= i32::MAX ==> is_plain_schedule(
            extractor.graph(),
            extractor.limits(),
            found.ii as int,
            roots,
            found.end as int,
            found.selected@,
        ),
        forall|ii: int, end: int, selected: Map<usize, (usize, i32)>, idle: Seq<int>|
            1 <= ii <= 64 && 0 <= end && #[trigger] relaxes(
                extractor.graph(),
                ii,
                end,
                selected,
                idle,
            ) && is_plain_schedule(
                extractor.graph(),
                extractor.limits(),
                ii,
                roots,
                end,
                selected,
            ) ==> found.ii <= ii && (found.ii == ii ==> found.end <= end),
{
    let graph = extractor.graph();
    let limits = extractor.limits();
    let values = extractor.answer(found.ii as int, roots)->0;
    assert(answers_exactly(model(graph, limits, found.ii as int, roots)));
    assert(feasible(model(graph, limits, found.ii as int, roots), values));
    if found.end <= i32::MAX {
        assert(values[last_col(graph, found.ii as int)] <= i32::MAX);
        feasible_points_are_schedules(graph, limits, found.ii as int, roots, values, found);
        what_a_schedule_is(
            graph,
            limits,
            found.ii as int,
            roots,
            found.end as int,
            found.selected@,
        );
    }
    assert forall|ii: int, end: int, selected: Map<usize, (usize, i32)>, idle: Seq<int>|
        1 <= ii <= 64 && 0 <= end && #[trigger] relaxes(graph, ii, end, selected, idle)
            && is_plain_schedule(graph, limits, ii, roots, end, selected) implies found.ii <= ii
        && (found.ii == ii ==> found.end <= end) by {
        what_a_schedule_is(graph, limits, ii, roots, end, selected);
        schedules_are_feasible_points(graph, limits, ii, roots, end, selected, idle);
        assert(answers_exactly(model(graph, limits, ii, roots)));
        assert(feasible(
            model(graph, limits, ii, roots),
            point(graph, ii, end, selected, idle),
        ));
        the_interval_found_is_the_least(extractor, roots, found, ii);
    }
}

} // verus!
