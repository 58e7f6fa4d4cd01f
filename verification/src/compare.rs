//! Schedules with other roots and other limits.

use vstd::prelude::*;

use crate::extract::{decodes, SwpExtractor, SwpSolution};
use crate::graph::ClassGraph;
use crate::model::{model, model_columns, resource_row, root_row};
use crate::program::{feasible, holds};
use crate::schedule::{chosen, demand, is_schedule, model_rows_hold};
use crate::solver::answers_exactly;

verus! {

/// The ids are ones of the graph.
pub open spec fn are_ids(g: ClassGraph, roots: Seq<usize>) -> bool {
    forall|i: int| 0 <= i < roots.len() ==> (#[trigger] roots[i]) < g.leaders@.len()
}

/// One of the roots is in the class.
pub open spec fn has_root_in(g: ClassGraph, roots: Seq<usize>, class: usize) -> bool {
    exists|j: int| 0 <= j < roots.len() && g.leaders@[(#[trigger] roots[j]) as int] == class
}

/// The class of every root has one of the other roots.
pub open spec fn leads_into(g: ClassGraph, roots: Seq<usize>, others: Seq<usize>) -> bool {
    forall|i: int|
        0 <= i < roots.len() ==> has_root_in(g, others, g.leaders@[(#[trigger] roots[i]) as int])
}

/// There are as many units of every resource, or more.
pub open spec fn no_fewer_units(limits: Seq<i32>, others: Seq<i32>) -> bool {
    &&& limits.len() == others.len()
    &&& forall|s: int| 0 <= s < limits.len() ==> #[trigger] limits[s] <= others[s]
}

/// A root of the other roots is in the class of a root.
proof fn root_in_class(g: ClassGraph, roots: Seq<usize>, others: Seq<usize>, i: int) -> (j: int)
    requires
        g.wf(),
        are_ids(g, roots),
        are_ids(g, others),
        leads_into(g, roots, others),
        0 <= i < roots.len(),
    ensures
        0 <= j < others.len(),
        g.class_index(roots[i]) == g.class_index(others[j]),
{
    let class = g.leaders@[roots[i] as int];
    assert(has_root_in(g, others, class));
    let j = choose|j: int|
        0 <= j < others.len() && g.leaders@[(#[trigger] others[j]) as int] == class;
    assert(others[j] < g.leaders@.len());
    g.class_index_is_unique(roots[i], 0);
    g.class_index_is_unique(others[j], g.class_index(roots[i]));
    j
}

/// More units and fewer roots keep every feasible point and every schedule.
pub proof fn more_units_or_fewer_roots_keep_schedules(
    g: ClassGraph,
    ii: int,
    limits: Seq<i32>,
    roots: Seq<usize>,
    more: Seq<i32>,
    fewer: Seq<usize>,
)
    requires
        g.wf(),
        0 < ii,
        are_ids(g, roots),
        are_ids(g, fewer),
        no_fewer_units(limits, more),
        leads_into(g, fewer, roots),
    ensures
        forall|values: Seq<int>| #[trigger]
            feasible(model(g, limits, ii, roots), values) ==> feasible(
                model(g, more, ii, fewer),
                values,
            ),
        forall|end: int, selected: Map<usize, (usize, i32)>| #[trigger]
            is_schedule(g, limits, ii, roots, end, selected) ==> is_schedule(
                g,
                more,
                ii,
                fewer,
                end,
                selected,
            ),
{
    assert forall|values: Seq<int>| #[trigger]
        feasible(model(g, limits, ii, roots), values) implies feasible(
        model(g, more, ii, fewer),
        values,
    ) by {
        point_is_kept(g, ii, limits, roots, more, fewer, values);
    }
    assert forall|end: int, selected: Map<usize, (usize, i32)>| #[trigger]
        is_schedule(g, limits, ii, roots, end, selected) implies is_schedule(
        g,
        more,
        ii,
        fewer,
        end,
        selected,
    ) by {
        assert forall|i: int| 0 <= i < fewer.len() implies chosen(
            g,
            selected,
            g.class_index(#[trigger] fewer[i]),
        ) by {
            let j = root_in_class(g, fewer, roots, i);
            assert(chosen(g, selected, g.class_index(roots[j])));
        }
        assert forall|s: int, at: int| 0 <= s < more.len() && 0 <= at < ii implies #[trigger] demand(
            g,
            ii,
            selected,
            s,
            at,
            g.classes@.len(),
        ) <= more[s] by {
            assert(limits[s] <= more[s]);
        }
    }
}

proof fn point_is_kept(
    g: ClassGraph,
    ii: int,
    limits: Seq<i32>,
    roots: Seq<usize>,
    more: Seq<i32>,
    fewer: Seq<usize>,
    values: Seq<int>,
)
    requires
        g.wf(),
        0 < ii,
        are_ids(g, roots),
        are_ids(g, fewer),
        no_fewer_units(limits, more),
        leads_into(g, fewer, roots),
        feasible(model(g, limits, ii, roots), values),
    ensures
        feasible(model(g, more, ii, fewer), values),
{
    model_rows_hold(g, limits, ii, roots, values);
    model_rows_hold(g, more, ii, fewer, values);
    assert forall|i: int| 0 <= i < fewer.len() implies holds(
        root_row(g, #[trigger] fewer[i]),
        values,
    ) by {
        let j = root_in_class(g, fewer, roots, i);
        assert(holds(root_row(g, roots[j]), values));
    }
    assert forall|s: int, at: int| 0 <= s < more.len() && 0 <= at < ii implies holds(
        #[trigger] resource_row(g, more, ii, s, at),
        values,
    ) by {
        assert(limits[s] <= more[s]);
        assert(holds(resource_row(g, limits, ii, s, at), values));
    }
    assert(model(g, more, ii, fewer).columns == model_columns(g, ii));
}

/// Roots of the same classes have the same feasible points and the same schedules, in whatever order
/// and however often they come, and whichever ids of the classes they are.
pub proof fn roots_of_the_same_classes_are_alike(
    g: ClassGraph,
    ii: int,
    limits: Seq<i32>,
    roots: Seq<usize>,
    others: Seq<usize>,
)
    requires
        g.wf(),
        0 < ii,
        are_ids(g, roots),
        are_ids(g, others),
        leads_into(g, roots, others),
        leads_into(g, others, roots),
    ensures
        forall|values: Seq<int>| #[trigger]
            feasible(model(g, limits, ii, roots), values) <==> feasible(
                model(g, limits, ii, others),
                values,
            ),
        forall|end: int, selected: Map<usize, (usize, i32)>| #[trigger]
            is_schedule(g, limits, ii, roots, end, selected) <==> is_schedule(
                g,
                limits,
                ii,
                others,
                end,
                selected,
            ),
{
    more_units_or_fewer_roots_keep_schedules(g, ii, limits, roots, limits, others);
    more_units_or_fewer_roots_keep_schedules(g, ii, limits, others, limits, roots);
    assert forall|values: Seq<int>| #[trigger]
        feasible(model(g, limits, ii, roots), values) <==> feasible(
        model(g, limits, ii, others),
        values,
    ) by {
        let _ = feasible(model(g, limits, ii, others), values);
    }
    assert forall|end: int, selected: Map<usize, (usize, i32)>| #[trigger]
        is_schedule(g, limits, ii, roots, end, selected) <==> is_schedule(
        g,
        limits,
        ii,
        others,
        end,
        selected,
    ) by {
        let _ = is_schedule(g, limits, ii, others, end, selected);
    }
}

/// Where the solver answers exactly, more units and fewer roots leave an answer, and the schedule
/// that it describes ends no later.
pub proof fn more_units_or_fewer_roots_end_no_later(
    extractor: SwpExtractor,
    other: SwpExtractor,
    ii: int,
    roots: Seq<usize>,
    fewer: Seq<usize>,
)
    requires
        other.graph() == extractor.graph(),
        extractor.accepts(ii, roots),
        other.accepts(ii, fewer),
        no_fewer_units(extractor.limits(), other.limits()),
        leads_into(extractor.graph(), fewer, roots),
        answers_exactly(model(extractor.graph(), extractor.limits(), ii, roots)),
        answers_exactly(model(other.graph(), other.limits(), ii, fewer)),
        extractor.answer(ii, roots) is Some,
    ensures
        other.answer(ii, fewer) is Some,
        forall|found: SwpSolution, shorter: SwpSolution|
            decodes(extractor.graph(), ii, extractor.answer(ii, roots)->0, found) && decodes(
                other.graph(),
                ii,
                other.answer(ii, fewer)->0,
                shorter,
            ) ==> (#[trigger] shorter.end) <= (#[trigger] found.end),
{
    let g = extractor.graph();
    more_units_or_fewer_roots_keep_schedules(
        g,
        ii,
        extractor.limits(),
        roots,
        other.limits(),
        fewer,
    );
    let values = extractor.answer(ii, roots)->0;
    assert(feasible(model(g, extractor.limits(), ii, roots), values));
    assert(feasible(model(g, other.limits(), ii, fewer), values));
}

/// Where the solver answers exactly, roots of the same classes have an answer for the same initiation
/// intervals, and the schedules that the answers describe end in the same cycle.
pub proof fn roots_of_the_same_classes_end_together(
    extractor: SwpExtractor,
    ii: int,
    roots: Seq<usize>,
    others: Seq<usize>,
)
    requires
        extractor.accepts(ii, roots),
        extractor.accepts(ii, others),
        leads_into(extractor.graph(), roots, others),
        leads_into(extractor.graph(), others, roots),
        answers_exactly(model(extractor.graph(), extractor.limits(), ii, roots)),
        answers_exactly(model(extractor.graph(), extractor.limits(), ii, others)),
    ensures
        extractor.answer(ii, roots) is Some <==> extractor.answer(ii, others) is Some,
        forall|a: SwpSolution, b: SwpSolution|
            extractor.answer(ii, roots) is Some && decodes(
                extractor.graph(),
                ii,
                extractor.answer(ii, roots)->0,
                a,
            ) && decodes(extractor.graph(), ii, extractor.answer(ii, others)->0, b) ==> (
            #[trigger] a.end) == (#[trigger] b.end) && a.ii == b.ii,
{
    if extractor.answer(ii, roots) is Some {
        more_units_or_fewer_roots_end_no_later(extractor, extractor, ii, roots, others);
    }
    if extractor.answer(ii, others) is Some {
        more_units_or_fewer_roots_end_no_later(extractor, extractor, ii, others, roots);
    }
}

} // verus!
