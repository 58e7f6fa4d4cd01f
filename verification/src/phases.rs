//! The phases of a software pipeline.

use vstd::prelude::*;

use crate::number::in_i32;

verus! {

/// The cycles of a pipeline: iterations start one after the other in the prologue, run alongside
/// each other in the steady state and end in the epilogue.
#[derive(Debug)]
pub struct Phases {
    pub n_iters: i32,
    pub prologue: i32,
    pub steady: i32,
    pub epilogue: i32,
    pub total_cycles: i32,
}

/// The iterations of `l` cycles that run alongside each other when one starts every `ii` cycles.
pub open spec fn n_iterations(ii: int, l: int) -> int {
    if (l + ii - 1) / ii < 1 {
        1
    } else {
        (l + ii - 1) / ii
    }
}

/// The cycles before the last of these iterations starts.
pub open spec fn prologue(ii: int, l: int) -> int {
    (n_iterations(ii, l) - 1) * ii
}

/// The cycles of an iteration after the next one would start.
pub open spec fn epilogue(ii: int, l: int) -> int {
    if l < ii {
        0
    } else {
        l - ii
    }
}

/// The cycles of all phases.
pub open spec fn total_cycles(ii: int, l: int) -> int {
    prologue(ii, l) + ii + epilogue(ii, l)
}

/// Counts the iterations that run alongside each other.
pub fn iteration_count(ii: i32, l: i32) -> (r: i32)
    requires
        1 <= ii,
        0 <= l,
        in_i32(l + ii),
    ensures
        r == n_iterations(ii as int, l as int),
{
    let rounded: i32 = (l + ii - 1) / ii;
    if rounded < 1 {
        1
    } else {
        rounded
    }
}

/// The phases of a pipeline of iterations of `l` cycles of which one starts every `ii` cycles.
pub fn phases(ii: i32, l: i32) -> (r: Phases)
    requires
        1 <= ii <= l,
        in_i32(l + ii),
        in_i32(total_cycles(ii as int, l as int)),
    ensures
        r.n_iters == n_iterations(ii as int, l as int),
        r.prologue == prologue(ii as int, l as int),
        r.steady == ii,
        r.epilogue == epilogue(ii as int, l as int),
        r.total_cycles == total_cycles(ii as int, l as int),
        r.total_cycles == l + (r.n_iters - 1) * ii,
        1 <= r.n_iters,
        (r.n_iters - 1) * ii < l,
        l <= r.n_iters * ii,
        r.prologue == (r.n_iters - 1) * ii,
        r.epilogue == l - ii,
        r.prologue + r.steady + r.epilogue == r.total_cycles,
{
    proof {
        iterations_cover(ii as int, l as int);
    }
    let n_iters = iteration_count(ii, l);
    assert((1 - 1) * ii == 0) by (nonlinear_arith);
    let prologue: i32 = (n_iters - 1) * ii;
    let epilogue: i32 = if l < ii {
        0
    } else {
        l - ii
    };
    Phases { n_iters, prologue, steady: ii, epilogue, total_cycles: prologue + ii + epilogue }
}

/// There are as many iterations as it takes to cover the cycles of one, and at least one.
pub proof fn iterations_cover(ii: int, l: int)
    requires
        1 <= ii,
        0 <= l,
    ensures
        1 <= n_iterations(ii, l),
        l <= n_iterations(ii, l) * ii,
        n_iterations(ii, l) > 1 ==> (n_iterations(ii, l) - 1) * ii < l,
        0 <= prologue(ii, l),
        prologue(ii, l) <= l,
{
    let n = (l + ii - 1) / ii;
    assert(n * ii <= l + ii - 1 < n * ii + ii && 0 <= n) by (nonlinear_arith)
        requires
            n == (l + ii - 1) / ii,
            1 <= ii,
            0 <= l,
    ;
    assert((n - 1) * ii == n * ii - ii) by (nonlinear_arith);
    if n < 1 {
        assert(n * ii == 0) by (nonlinear_arith)
            requires
                n == 0,
        ;
        assert(1 * ii == ii) by (nonlinear_arith);
        assert(0 * ii == 0) by (nonlinear_arith);
    } else {
        assert(0 <= (n - 1) * ii) by (nonlinear_arith)
            requires
                1 <= n,
                1 <= ii,
        ;
    }
}

/// Where an iteration is no shorter than the initiation interval, the phases last until the last
/// of the iterations that run alongside each other has ended.
pub proof fn phases_add_up(ii: int, l: int)
    requires
        1 <= ii <= l,
    ensures
        total_cycles(ii, l) == l + (n_iterations(ii, l) - 1) * ii,
{
}

} // verus!
