//! Laws of the engine, proved over the grid model: the single-cell link
//! primitives are exact inverses of each other, and the solutions-only
//! stream agrees with the solutions of the stepwise stream.

use vstd::prelude::*;

use crate::grid::GridView;
use crate::ops::{hide_step, unhide_step};
use crate::search::{step_model, DlxStepResult};
use crate::solve::{names_of, sol_model};

verus! {

/// The body cell at `q` is stitched into its ring: its neighbors point back
/// at it.
pub open spec fn linked<I, N>(g: GridView<I, N>, q: int) -> bool {
    &&& g.body[g.body[q].spec_prev()].spec_next() == q
    &&& g.body[g.body[q].spec_next()].spec_prev() == q
}

/// Reversibility of the cell primitive: on a well-formed grid, re-inserting a
/// body cell right after removing it restores the grid byte for byte,
/// provided the cell was stitched in (which removal requires to make sense).
pub proof fn lemma_unhide_step_reverses_hide_step<I, N>(g: GridView<I, N>, q: int)
    requires
        g.wf(),
        g.body_cell(q),
        g.headers[g.body[q].spec_top()].spec_is_primary() || g.body[q].spec_color() is Some
            ==> linked(g, q),
    ensures
        unhide_step(hide_step(g, q), q) == g,
{
    let pq = g.body[q].spec_prev();
    let nq = g.body[q].spec_next();
    let t = g.body[q].spec_top();
    assert(g.on_ring(t, pq) && g.on_ring(t, nq) && 1 <= t <= g.m());
    let g1 = hide_step(g, q);
    assert(g1.body[q] == g.body[q]) by {
        assert(q != t);
    }
    let g2 = unhide_step(g1, q);
    assert(g2.body =~= g.body) by {
        assert forall|j: int| 0 <= j < g.blen() implies g2.body[j] == g.body[j] by {}
    }
    assert(g2 == g);
}

/// Reversibility of the color primitive: clearing a cell's color and then
/// restoring the color it had leaves the grid unchanged.
pub proof fn lemma_recolor_reverses<I, N>(g: GridView<I, N>, p: int, c: u32)
    requires
        0 <= p < g.blen(),
        g.body[p].is_body_cell(),
        g.body[p].spec_color() == Some(c),
    ensures
        g.with_color(p, None).with_color(p, Some(c)) == g,
{
    let g2 = g.with_color(p, None).with_color(p, Some(c));
    assert(g2.body =~= g.body) by {
        assert forall|j: int| 0 <= j < g.blen() implies g2.body[j] == g.body[j] by {}
    }
    assert(g2 == g);
}

/// Reversibility of the other cell primitive, in the other direction:
/// removing a body cell right after re-inserting it restores the grid byte
/// for byte.
pub proof fn lemma_hide_step_reverses_unhide_step<I, N>(g: GridView<I, N>, q: int)
    requires
        g.wf(),
        g.body_cell(q),
        g.body[q].spec_prev() != q,
        g.body[q].spec_next() != q,
        g.headers[g.body[q].spec_top()].spec_is_primary() || g.body[q].spec_color() is Some
            ==> g.body[g.body[q].spec_prev()].spec_next() == g.body[q].spec_next()
            && g.body[g.body[q].spec_next()].spec_prev() == g.body[q].spec_prev(),
    ensures
        hide_step(unhide_step(g, q), q) == g,
{
    let pq = g.body[q].spec_prev();
    let nq = g.body[q].spec_next();
    let t = g.body[q].spec_top();
    assert(g.on_ring(t, pq) && g.on_ring(t, nq) && 1 <= t <= g.m());
    let g1 = unhide_step(g, q);
    assert(g1.body[q] == g.body[q]) by {
        assert(q != t);
    }
    let g2 = hide_step(g1, q);
    assert(g2.body =~= g.body) by {
        assert forall|j: int| 0 <= j < g.blen() implies g2.body[j] == g.body[j] by {}
    }
    assert(g2 == g);
}

/// Reversibility of the header-list primitive: relinking a primary header
/// right after unlinking it — the list halves of `cover` and `uncover` —
/// restores the header array, provided the header was stitched into the
/// active list.
pub proof fn lemma_header_relink_reverses_unlink<I, N>(g: GridView<I, N>, i: int)
    requires
        g.wf(),
        1 <= i <= g.num_primary,
        g.headers[g.headers[i].prev as int].next == i,
        g.headers[g.headers[i].next as int].prev == i,
    ensures
        ({
            let hp = g.headers[i].prev as int;
            let hn = g.headers[i].next as int;
            let g1 = g.with_header_next(hp, hn).with_header_prev(hn, hp);
            g1.with_header_next(g1.headers[i].prev as int, i).with_header_prev(
                g1.headers[i].next as int,
                i,
            ) == g
        }),
{
    let hp = g.headers[i].prev as int;
    let hn = g.headers[i].next as int;
    let g1 = g.with_header_next(hp, hn).with_header_prev(hn, hp);
    assert(g1.headers[i] == g.headers[i]) by {
        if hp == i {
            assert(g.headers[i].next == i);
        }
        if hn == i {
            assert(g.headers[i].prev == i);
        }
    }
    let g2 = g1.with_header_next(g1.headers[i].prev as int, i).with_header_prev(
        g1.headers[i].next as int,
        i,
    );
    assert(g2.headers =~= g.headers) by {
        assert forall|j: int| 0 <= j < g.headers.len() implies g2.headers[j] == g.headers[j] by {}
    }
    assert(g2 == g);
}

/// The first complete solution in the stepwise stream, with the grid it
/// leaves behind: scan `step_model` exactly as the stepwise iterator yields
/// its elements, and stop at the first `FoundSolution`.
pub open spec fn stepwise_first_solution<I, N>(
    g: GridView<I, N>,
    stack: Seq<usize>,
    started: bool,
    fuel: nat,
) -> Option<(GridView<I, N>, Seq<usize>)>
    decreases fuel,
{
    if fuel == 0 {
        None
    } else {
        let (g1, st1, r) = step_model(g, stack, started);
        match r {
            DlxStepResult::Continue => stepwise_first_solution(g1, st1, true, (fuel - 1) as nat),
            DlxStepResult::FoundSolution => Some((g1, st1)),
            DlxStepResult::Done => None,
        }
    }
}

/// Projection agreement: from any driver state, the solutions-only stream
/// yields a solution exactly when the stepwise stream reaches a
/// `FoundSolution` step, it is the same selection against the same grid, and
/// so its name projection is the same sequence of names.
pub proof fn lemma_projection_agreement<I, N>(
    g: GridView<I, N>,
    stack: Seq<usize>,
    started: bool,
    fuel: nat,
)
    ensures
        ({
            let m = sol_model(g, stack, started, fuel);
            let s = stepwise_first_solution(g, stack, started, fuel);
            &&& (m.4 is Some <==> s is Some)
            &&& (m.4 matches Some(v) ==> s == Some((m.0, v)) && (s matches Some(pr)
                && names_of(m.0, v) == names_of(pr.0, pr.1)))
        }),
    decreases fuel,
{
    if fuel > 0 {
        let (g1, st1, r) = step_model(g, stack, started);
        if r == DlxStepResult::Continue {
            lemma_projection_agreement(g1, st1, true, (fuel - 1) as nat);
        }
    }
}

} // verus!
