//! Choosing one operation of each needed class and the cycle in which it starts.

use std::collections::HashMap;

use vstd::prelude::*;

use crate::assemble::{build_model, node_columns_in_range, Layout};
use crate::capacity::fits_machine;
use crate::bounds::{last_column_is_last, model_is_well_formed};
use crate::graph::ClassGraph;
use crate::model::{fits, has_columns, last_col, model, t_col, x_col, y_col};
use crate::solver::{optimise, solution, value_views};
use crate::tile::ResourceLimit;

verus! {

/// The longest initiation interval that is tried.
pub const MAX_II: usize = 64;

/// A modulo schedule.
#[derive(Debug)]
pub struct SwpSolution {
    /// The initiation interval.
    pub ii: usize,
    /// The cycle in which everything has finished.
    pub end: usize,
    /// For the id of each selected class, the position of the selected node and its start cycle.
    pub selected: HashMap<usize, (usize, i32)>,
}

/// The nearest value in the range of `i32`.
pub open spec fn clamp_i32(value: int) -> int {
    if value < i32::MIN {
        i32::MIN as int
    } else if value > i32::MAX {
        i32::MAX as int
    } else {
        value
    }
}

/// The nearest value in the range of `usize`.
pub open spec fn clamp_usize(value: int) -> int {
    if value < 0 {
        0
    } else if value > usize::MAX {
        usize::MAX as int
    } else {
        value
    }
}

/// The values select the class at position `c`, and `j` is the first of its nodes that they
/// select.
pub open spec fn picks(g: ClassGraph, ii: int, values: Seq<int>, c: int, j: int) -> bool {
    &&& 0 <= c < g.classes@.len()
    &&& 0 <= j < g.nodes(c).len()
    &&& values[y_col(c)] != 0
    &&& values[x_col(g, ii, c, j)] == 1
    &&& forall|i: int| 0 <= i < j ==> values[#[trigger] x_col(g, ii, c, i)] != 1
}

/// `selected` holds, under the id of each class of which the values select a node, the position
/// of that node and the class's start cycle, and nothing else.
pub open spec fn selects(
    g: ClassGraph,
    ii: int,
    values: Seq<int>,
    selected: Map<usize, (usize, i32)>,
) -> bool {
    &&& forall|c: int, j: int| #[trigger]
        picks(g, ii, values, c, j) ==> selected.contains_key(g.classes@[c].id)
            && selected[g.classes@[c].id].0 == j && selected[g.classes@[c].id].1 == clamp_i32(
            values[t_col(c)],
        )
    &&& forall|id: usize| #[trigger]
        selected.contains_key(id) ==> exists|c: int, j: int| #[trigger]
            picks(g, ii, values, c, j) && g.classes@[c].id == id
}

/// `r` is the schedule that the values of the program's columns describe.
pub open spec fn decodes(g: ClassGraph, ii: int, values: Seq<int>, r: SwpSolution) -> bool {
    &&& r.ii == ii
    &&& r.end == clamp_usize(values[last_col(g, ii)])
    &&& selects(g, ii, values, r.selected@)
}

fn to_i32(value: i64) -> (r: i32)
    ensures
        r == clamp_i32(value as int),
{
    if value < i32::MIN as i64 {
        i32::MIN
    } else if value > i32::MAX as i64 {
        i32::MAX
    } else {
        value as i32
    }
}

fn to_usize(value: i64) -> (r: usize)
    ensures
        r == clamp_usize(value as int),
{
    if value < 0 {
        0
    } else if value as u64 > usize::MAX as u64 {
        usize::MAX
    } else {
        value as usize
    }
}

/// Reads a schedule off the values of the program's columns: for each class that is selected,
/// the first of its nodes that is.
pub fn decode(graph: &ClassGraph, ii: usize, values: &Vec<i64>) -> (r: SwpSolution)
    requires
        graph.wf(),
        has_columns(*graph, ii as int),
        values@.len() == last_col(*graph, ii as int) + 1,
    ensures
        decodes(*graph, ii as int, value_views(values@), r),
{
    let ghost g = *graph;
    let ghost v = value_views(values@);
    let layout = Layout::new(graph, ii, 0);
    proof {
        last_column_is_last(g, ii as int);
    }
    let mut selected: HashMap<usize, (usize, i32)> = HashMap::new();
    let n = graph.classes.len();
    let mut c: usize = 0;
    while c < n
        invariant
            g == *graph,
            g.wf(),
            0 < ii,
            layout.wf(),
            layout.g() == g,
            layout.interval() == ii,
            v == value_views(values@),
            values@.len() == last_col(g, ii as int) + 1,
            3 * g.classes@.len() <= last_col(g, ii as int),
            n == g.classes@.len(),
            c <= n,
            forall|b: int, j: int|
                b < c && #[trigger] picks(g, ii as int, v, b, j) ==> selected@.contains_key(
                    g.classes@[b].id,
                ) && selected@[g.classes@[b].id].0 == j && selected@[g.classes@[b].id].1
                    == clamp_i32(v[t_col(b)]),
            forall|id: usize| #[trigger]
                selected@.contains_key(id) ==> exists|b: int, j: int| #[trigger]
                    picks(g, ii as int, v, b, j) && b < c && g.classes@[b].id == id,
        decreases n - c,
    {
        let ghost before = selected@;
        if values[layout.y(c)] != 0 {
            let t = to_i32(values[layout.t(c)]);
            let n_nodes = graph.classes[c].nodes.len();
            let mut j: usize = 0;
            while j < n_nodes
                invariant_except_break
                    selected@ == before,
                    forall|i: int|
                        0 <= i < j ==> v[#[trigger] x_col(g, ii as int, c as int, i)] != 1,
                invariant
                    g == *graph,
                    0 < ii,
                    layout.wf(),
                    layout.g() == g,
                    layout.interval() == ii,
                    v == value_views(values@),
                    values@.len() == last_col(g, ii as int) + 1,
                    3 * g.classes@.len() <= last_col(g, ii as int),
                    c < g.classes@.len(),
                    v[y_col(c as int)] != 0,
                    t == clamp_i32(v[t_col(c as int)]),
                    n_nodes == g.nodes(c as int).len(),
                    j <= n_nodes,
                ensures
                    (selected@ == before && forall|i: int|
                        0 <= i < n_nodes ==> v[#[trigger] x_col(g, ii as int, c as int, i)] != 1)
                        || (picks(g, ii as int, v, c as int, j as int) && selected@
                        == before.insert(g.classes@[c as int].id, (j, t))),
                decreases n_nodes - j,
            {
                proof {
                    node_columns_in_range(g, ii as int, c as int, j as int);
                }
                if values[layout.x(c, j)] == 1 {
                    selected.insert(graph.classes[c].id, (j, t));
                    break;
                }
                j = j + 1;
            }
            proof {
                assert forall|b: int, i: int|
                    b < c + 1 && #[trigger] picks(g, ii as int, v, b, i) implies selected@.contains_key(
                    g.classes@[b].id,
                ) && selected@[g.classes@[b].id].0 == i && selected@[g.classes@[b].id].1
                    == clamp_i32(v[t_col(b)]) by {
                    if b == c {
                        assert(v[x_col(g, ii as int, c as int, i)] == 1);
                        if i < j {
                            assert(v[x_col(g, ii as int, c as int, i)] != 1);
                        }
                        if j < i {
                            assert(v[x_col(g, ii as int, c as int, j as int)] != 1);
                        }
                    } else {
                        assert(g.classes@[b].id != g.classes@[c as int].id);
                    }
                }
                assert forall|id: usize| #[trigger] selected@.contains_key(id) implies exists|
                    b: int,
                    i: int,
                | #[trigger]
                    picks(g, ii as int, v, b, i) && b < c + 1 && g.classes@[b].id == id by {
                    if before.contains_key(id) {
                        let (b, i) = choose|b: int, i: int| #[trigger]
                            picks(g, ii as int, v, b, i) && b < c && g.classes@[b].id == id;
                        assert(picks(g, ii as int, v, b, i));
                    } else {
                        assert(picks(g, ii as int, v, c as int, j as int));
                    }
                }
            }
        }
        c = c + 1;
    }
    let end = to_usize(values[layout.last()]);
    SwpSolution { ii, end, selected }
}

/// Why a problem has no schedule.
#[derive(Debug, PartialEq, Eq, Structural, Clone, Copy)]
pub enum SwpFailure {
    /// A number of the integer program is too large for the machine.
    OutOfRange,
    /// The solver has no answer for any initiation interval that is tried.
    Infeasible,
}

/// The outcome of scheduling the classes of the roots: the schedule with the shortest initiation
/// interval for which the solver has an answer, or why there is none.
pub open spec fn is_outcome(
    extractor: SwpExtractor,
    roots: Seq<usize>,
    r: Result<SwpSolution, SwpFailure>,
) -> bool {
    match r {
        Ok(found) => {
            &&& extractor.is_shortest(found.ii as int, roots)
            &&& decodes(
                extractor.graph(),
                found.ii as int,
                extractor.answer(found.ii as int, roots)->0,
                found,
            )
        },
        Err(SwpFailure::OutOfRange) => exists|ii: int| #[trigger]
            extractor.reaches(ii, roots) && !extractor.accepts(ii, roots),
        Err(SwpFailure::Infeasible) => {
            &&& forall|ii: int| 1 <= ii <= MAX_II ==> #[trigger] extractor.accepts(ii, roots)
            &&& !extractor.schedulable(roots)
        },
    }
}

/// Finds modulo schedules of a graph on a machine.
pub struct SwpExtractor<'a> {
    egraph: &'a ClassGraph,
    resource_limits: &'a ResourceLimit,
}

impl<'a> SwpExtractor<'a> {
    pub closed spec fn graph(&self) -> ClassGraph {
        *self.egraph
    }

    pub closed spec fn limits(&self) -> Seq<i32> {
        self.resource_limits@
    }

    /// The graph is well formed, has the roots, and its numbers fit the machine for an
    /// initiation interval of `ii` cycles.
    pub open spec fn accepts(&self, ii: int, roots: Seq<usize>) -> bool {
        &&& self.graph().wf()
        &&& fits(self.graph(), self.limits().len() as int, ii)
        &&& forall|i: int|
            0 <= i < roots.len() ==> (#[trigger] roots[i]) < self.graph().leaders@.len()
    }

    /// The solver's answer for an initiation interval of `ii` cycles.
    pub open spec fn answer(&self, ii: int, roots: Seq<usize>) -> Option<Seq<int>> {
        solution(model(self.graph(), self.limits(), ii, roots))
    }

    /// `ii` is the shortest initiation interval for which the solver has an answer.
    pub open spec fn is_shortest(&self, ii: int, roots: Seq<usize>) -> bool {
        &&& 1 <= ii <= MAX_II
        &&& self.answer(ii, roots) is Some
        &&& forall|shorter: int|
            1 <= shorter < ii ==> #[trigger] self.answer(shorter, roots) is None
    }

    /// The initiation interval is tried: the graph and the roots are accepted for every shorter
    /// one, and the solver has no answer for it.
    pub open spec fn reaches(&self, ii: int, roots: Seq<usize>) -> bool {
        &&& 1 <= ii <= MAX_II
        &&& forall|shorter: int|
            1 <= shorter < ii ==> self.accepts(shorter, roots) && #[trigger] self.answer(
                shorter,
                roots,
            ) is None
    }

    /// The graph and the roots are accepted for every initiation interval that is tried.
    pub open spec fn accepts_reached(&self, roots: Seq<usize>) -> bool {
        forall|ii: int| #[trigger] self.reaches(ii, roots) ==> self.accepts(ii, roots)
    }

    /// The solver has an answer for some initiation interval that is tried.
    pub open spec fn schedulable(&self, roots: Seq<usize>) -> bool {
        exists|ii: int| 1 <= ii <= MAX_II && #[trigger] self.answer(ii, roots) is Some
    }

    pub fn new(egraph: &'a ClassGraph, resource_limits: &'a ResourceLimit) -> (r: Self)
        ensures
            r.graph() == *egraph,
            r.limits() == resource_limits@,
    {
        SwpExtractor { egraph, resource_limits }
    }

    /// Schedules the classes of the roots with an initiation interval of `ii` cycles, or gives
    /// `None` when the solver has no answer.
    pub fn solve_at(&self, ii: usize, roots: &[usize]) -> (r: Option<SwpSolution>)
        requires
            self.accepts(ii as int, roots@),
        ensures
            r is Some <==> self.answer(ii as int, roots@) is Some,
            r matches Some(found) ==> decodes(
                self.graph(),
                ii as int,
                self.answer(ii as int, roots@)->0,
                found,
            ),
    {
        let program = build_model(self.egraph, self.resource_limits, ii, roots);
        proof {
            model_is_well_formed(self.graph(), self.limits(), ii as int, roots@);
        }
        match optimise(&program) {
            Some(values) => {
                proof {
                    last_column_is_last(self.graph(), ii as int);
                    assert(value_views(values@).len() == program@.columns.len());
                }
                Some(decode(self.egraph, ii, &values))
            },
            None => None,
        }
    }

    /// Schedules the classes of the roots with the shortest initiation interval for which the
    /// solver has an answer.
    pub fn solve(&self, roots: &[usize]) -> (r: SwpSolution)
        requires
            self.accepts_reached(roots@),
            self.schedulable(roots@),
        ensures
            self.is_shortest(r.ii as int, roots@),
            decodes(self.graph(), r.ii as int, self.answer(r.ii as int, roots@)->0, r),
    {
        let mut ii: usize = 1;
        loop
            invariant
                self.reaches(ii as int, roots@),
                self.accepts_reached(roots@),
                self.schedulable(roots@),
            decreases MAX_II - ii,
        {
            assert(self.accepts(ii as int, roots@));
            if let Some(found) = self.solve_at(ii, roots) {
                return found;
            }
            ii = ii + 1;
        }
    }

    /// Whether the graph has the roots and its numbers fit the machine for an initiation interval
    /// of `ii` cycles.
    pub fn admits(&self, ii: usize, roots: &[usize]) -> (r: bool)
        requires
            self.graph().wf(),
        ensures
            r == self.accepts(ii as int, roots@),
    {
        let n_ids = self.egraph.leaders.len();
        let n = roots.len();
        let mut i: usize = 0;
        while i < n
            invariant
                i <= n,
                n == roots@.len(),
                n_ids == self.graph().leaders@.len(),
                forall|k: int| 0 <= k < i ==> (#[trigger] roots@[k]) < n_ids,
            decreases n - i,
        {
            if roots[i] >= n_ids {
                assert(!(roots@[i as int] < n_ids));
                return false;
            }
            i = i + 1;
        }
        fits_machine(self.egraph, self.resource_limits.len(), ii)
    }

    /// Schedules the classes of the roots with the shortest initiation interval for which the
    /// solver has an answer, or says why there is none.
    pub fn schedule(&self, roots: &[usize]) -> (r: Result<SwpSolution, SwpFailure>)
        requires
            self.graph().wf(),
        ensures
            is_outcome(*self, roots@, r),
    {
        let mut ii: usize = 1;
        while ii <= MAX_II
            invariant
                1 <= ii <= MAX_II + 1,
                self.graph().wf(),
                forall|shorter: int|
                    1 <= shorter < ii ==> self.accepts(shorter, roots@) && #[trigger] self.answer(
                        shorter,
                        roots@,
                    ) is None,
            decreases MAX_II + 1 - ii,
        {
            assert(self.reaches(ii as int, roots@));
            if !self.admits(ii, roots) {
                return Err(SwpFailure::OutOfRange);
            }
            if let Some(found) = self.solve_at(ii, roots) {
                return Ok(found);
            }
            ii = ii + 1;
        }
        proof {
            assert forall|ii: int| 1 <= ii <= MAX_II implies #[trigger] self.accepts(
                ii,
                roots@,
            ) by {
                assert(self.answer(ii, roots@) is None);
            }
        }
        Err(SwpFailure::Infeasible)
    }
}

} // verus!
