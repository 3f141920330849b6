//! The search driver: the least-remaining-values branching heuristic and the
//! explorer that advances or retracts a partial selection one step at a time,
//! mutating the grid reversibly as it goes.

use vstd::prelude::*;

use crate::grid::{Dlx, GridView};
use crate::ops::{
    spec_cover, spec_cover_remaining, spec_uncover, spec_uncover_remaining,
};

verus! {

/// One unit of search progress: the driver either extended or retracted the
/// partial selection, completed a solution, or exhausted the search space.
#[derive(Clone, Copy, Debug, PartialEq, Eq, Structural)]
pub enum DlxStepResult {
    Continue,
    FoundSolution,
    Done,
}

/// The walk of `choose_item` along the active primary ring from header `opt`,
/// keeping the first item of least size.
pub open spec fn choose_from<I, N>(
    g: GridView<I, N>,
    opt: int,
    best: Option<int>,
    best_len: usize,
    fuel: nat,
) -> Option<int>
    decreases fuel,
{
    if fuel == 0 || opt == 0 {
        best
    } else {
        let l = g.body[opt].spec_len();
        let b2 = if best is Some {
            if best_len > l {
                (Some(opt), l)
            } else {
                (best, best_len)
            }
        } else {
            (Some(opt), l)
        };
        choose_from(g, g.headers[opt].next as int, b2.0, b2.1, (fuel - 1) as nat)
    }
}

/// The item `choose_item` picks: the first active primary item of least
/// remaining size, or `None` when no primary item is active (a solution).
pub open spec fn spec_choose<I, N>(g: GridView<I, N>) -> Option<int> {
    choose_from(g, g.headers[0].next as int, None, 0, g.headers.len())
}

/// A legal entry of the selection stack: a chosen primary header, or a body
/// cell of a primary item's ring.
pub open spec fn entry_ok<I, N>(g: GridView<I, N>, e: usize) -> bool {
    (1 <= e <= g.num_primary) || (g.body_cell(e as int) && g.body[e as int].spec_top()
        <= g.num_primary)
}

pub open spec fn stack_ok<I, N>(g: GridView<I, N>, stack: Seq<usize>) -> bool {
    forall|k: int| 0 <= k < stack.len() ==> entry_ok(g, #[trigger] stack[k])
}

/// The model of `choose_next_item`: cover the chosen item and push it, or
/// report a complete solution. The boolean is true while the search goes on.
pub open spec fn choose_model<I, N>(g: GridView<I, N>, stack: Seq<usize>) -> (
    GridView<I, N>,
    Seq<usize>,
    bool,
) {
    match spec_choose(g) {
        Some(i) => (spec_cover(g, i), stack.push(i as usize), true),
        None => (g, stack, false),
    }
}

/// The model of `explore_next_choice`: retract the latest choice, advance it
/// to the next cell of its item's ring, backtracking further whenever a ring
/// is exhausted. The boolean is false when the whole stack unwound.
pub open spec fn explore_model<I, N>(g: GridView<I, N>, stack: Seq<usize>) -> (
    GridView<I, N>,
    Seq<usize>,
    bool,
)
    decreases stack.len(),
{
    if stack.len() == 0 {
        (g, stack, false)
    } else {
        let p = stack.last() as int;
        let st2 = stack.drop_last();
        let g1 = if g.body_cell(p) {
            spec_uncover_remaining(g, p)
        } else {
            g
        };
        let p2 = g1.body[p].spec_next();
        if g1.body[p2].is_header_cell() {
            explore_model(spec_uncover(g1, p2), st2)
        } else if g1.body[p2].is_body_cell() {
            (spec_cover_remaining(g1, p2), st2.push(p2 as usize), true)
        } else {
            (g1, st2, false)
        }
    }
}

/// The model of one `step()`.
pub open spec fn step_model<I, N>(g: GridView<I, N>, stack: Seq<usize>, started: bool) -> (
    GridView<I, N>,
    Seq<usize>,
    DlxStepResult,
) {
    if started {
        let (g1, st1, go) = explore_model(g, stack);
        if !go {
            (g1, st1, DlxStepResult::Done)
        } else {
            let (g2, st2, cont) = choose_model(g1, st1);
            if cont {
                (g2, st2, DlxStepResult::Continue)
            } else {
                (g2, st2, DlxStepResult::FoundSolution)
            }
        }
    } else {
        let (g2, st2, cont) = choose_model(g, stack);
        if cont {
            (g2, st2, DlxStepResult::Continue)
        } else {
            (g2, st2, DlxStepResult::FoundSolution)
        }
    }
}

impl<I, N> Dlx<I, N> {
    /// The header index of the item whose ring the body cell at `p` sits on,
    /// found by walking the ring to its header cell.
    pub(crate) fn to_top(&self, p: usize) -> (r: usize)
        requires
            self@.wf(),
            self@.body_cell(p as int),
        ensures
            r as int == self@.body[p as int].spec_top(),
            1 <= r <= self@.m(),
    {
        let ghost t = self@.body[p as int].spec_top();
        let mut q = self.node(p).next();
        let mut fuel = self.body.len();
        while fuel > 0
            invariant
                self@.wf(),
                self@.body_cell(p as int),
                t == self@.body[p as int].spec_top(),
                self@.on_ring(t, q as int),
            decreases fuel,
        {
            proof {
                assert(q as int == t || self@.body_cell(q as int));
            }
            match self.node(q).ty() {
                crate::defs::NodeType::Header { .. } => {
                    proof {
                        assert(q as int == t);
                    }
                    return q;
                },
                crate::defs::NodeType::Body { .. } => {
                    q = self.node(q).next();
                },
            }
            fuel = fuel - 1;
        }
        match self.node(q).ty() {
            crate::defs::NodeType::Header { .. } => {
                proof {
                    assert(q as int == t);
                }
                q
            },
            crate::defs::NodeType::Body { .. } => self.node(q).top(),
        }
    }

    /// Choose the next item to branch on: the active primary item with the
    /// fewest remaining choices, earliest first; `None` when every primary
    /// item is covered, which signals a complete solution.
    pub(crate) fn choose_item(&self) -> (r: Option<usize>)
        requires
            self@.wf(),
        ensures
            (r is Some) <==> (spec_choose(self@) is Some),
            r matches Some(u) ==> Some(u as int) == spec_choose(self@) && 1 <= u
                <= self@.num_primary,
            r is None ==> self@.headers[0].next == 0,
    {
        let ghost g = self@;
        let mut opt = self.header(0).next;
        let mut best: Option<usize> = None;
        let mut best_len: usize = 0;
        let mut fuel = self.num_items();
        while opt != 0 && fuel > 0
            invariant
                self@ == g,
                g.wf(),
                opt <= g.num_primary,
                best matches Some(b) ==> 1 <= b <= g.num_primary,
                spec_choose(g) == choose_from(
                    g,
                    opt as int,
                    match best {
                        Some(b) => Some(b as int),
                        None => None,
                    },
                    best_len,
                    fuel as nat,
                ),
                best is None && opt != 0 ==> fuel > 0,
                best is None ==> opt == g.headers[0].next,
            decreases fuel,
        {
            let l = self.node(opt).len();
            match best {
                Some(_) => {
                    if best_len > l {
                        best = Some(opt);
                        best_len = l;
                    }
                },
                None => {
                    best = Some(opt);
                    best_len = l;
                },
            }
            opt = self.header(opt).next;
            fuel = fuel - 1;
        }
        best
    }
}

/// The backtracking driver: the grid, the selection stack of committed
/// choices, and whether the first step was taken.
pub struct DlxExplorer<I, N> {
    pub dlx: Dlx<I, N>,
    pub partial_solution: Vec<usize>,
    pub started: bool,
}

impl<I, N> DlxExplorer<I, N> {
    /// The driver is over a well-formed grid and every stack entry is a
    /// chosen primary header or a body cell on a primary item's ring.
    pub open spec fn inv(&self) -> bool {
        &&& self.dlx@.wf()
        &&& stack_ok(self.dlx@, self.partial_solution@)
    }

    pub(crate) fn new(dlx: Dlx<I, N>) -> (r: Self)
        requires
            dlx@.wf(),
        ensures
            r.inv(),
            r.dlx == dlx,
            r.partial_solution@ == Seq::<usize>::empty(),
            !r.started,
    {
        DlxExplorer { dlx, partial_solution: Vec::new(), started: false }
    }

    /// The currently committed choices, alternating chosen headers and the
    /// body cells selected under them.
    pub(crate) fn partial_solution(&self) -> (r: &Vec<usize>)
        ensures
            r == &self.partial_solution,
    {
        &self.partial_solution
    }

    pub(crate) fn dlx(&self) -> (r: &Dlx<I, N>)
        ensures
            r == &self.dlx,
    {
        &self.dlx
    }

    /// Cover the heuristic's chosen item and push it, or report that the
    /// stack is a complete solution.
    fn choose_next_item(&mut self) -> (r: bool)
        requires
            old(self).inv(),
        ensures
            final(self).inv(),
            final(self).started == old(self).started,
            (final(self).dlx@, final(self).partial_solution@, r) == choose_model(
                old(self).dlx@,
                old(self).partial_solution@,
            ),
    {
        match self.dlx.choose_item() {
            Some(item) => {
                self.dlx.cover(item);
                self.partial_solution.push(item);
                proof {
                    assert forall|k: int|
                        0 <= k < self.partial_solution@.len() implies entry_ok(
                        self.dlx@,
                        #[trigger] self.partial_solution@[k],
                    ) by {
                        if k < self.partial_solution@.len() - 1 {
                            assert(entry_ok(old(self).dlx@, old(self).partial_solution@[k]));
                            assert(crate::grid::same_frame(old(self).dlx@, self.dlx@));
                        }
                    }
                }
                true
            },
            None => false,
        }
    }

    /// Retract the latest choice and advance it to the next cell of its
    /// item's ring, backtracking across exhausted items; false when the stack
    /// has fully unwound, i.e. the search space is exhausted.
    fn explore_next_choice(&mut self) -> (r: bool)
        requires
            old(self).inv(),
        ensures
            final(self).inv(),
            final(self).started == old(self).started,
            (final(self).dlx@, final(self).partial_solution@, r) == explore_model(
                old(self).dlx@,
                old(self).partial_solution@,
            ),
    {
        let ghost g0 = self.dlx@;
        let ghost st0 = self.partial_solution@;
        while self.partial_solution.len() > 0
            invariant
                self.inv(),
                self.started == old(self).started,
                g0 == old(self).dlx@,
                st0 == old(self).partial_solution@,
                explore_model(g0, st0) == explore_model(self.dlx@, self.partial_solution@),
            decreases self.partial_solution@.len(),
        {
            let ghost gc = self.dlx@;
            let ghost stc = self.partial_solution@;
            let p = match self.partial_solution.pop() {
                Some(p) => p,
                None => vstd::pervasive::unreached(),
            };
            proof {
                assert(entry_ok(gc, p));
            }
            let is_body = self.dlx.node(p).ty() matches crate::defs::NodeType::Body { .. };
            proof {
                assert(is_body == gc.body_cell(p as int)) by {
                    if 1 <= p <= gc.num_primary {
                        assert(gc.body[p as int].is_header_cell());
                    }
                }
            }
            if is_body {
                self.dlx.uncover_remaining_choices(p);
            }
            let ghost g1 = self.dlx@;
            let ghost t = g1.item_of(p as int);
            proof {
                assert(g1.body[p as int].is_normal());
                assert(1 <= t <= g1.num_primary) by {
                    if gc.body_cell(p as int) {
                        assert(crate::grid::same_frame(gc, g1));
                        assert(g1.body[p as int].spec_top() == gc.body[p as int].spec_top());
                    }
                }
                assert(g1.on_ring(t, g1.body[p as int].spec_next()));
            }
            let p2 = self.dlx.node(p).next();
            let is_hdr = self.dlx.node(p2).ty() matches crate::defs::NodeType::Header { .. };
            if is_hdr {
                proof {
                    assert(p2 as int == t);
                }
                self.dlx.uncover(p2);
                proof {
                    assert forall|k: int|
                        0 <= k < self.partial_solution@.len() implies entry_ok(
                        self.dlx@,
                        #[trigger] self.partial_solution@[k],
                    ) by {
                        assert(entry_ok(gc, stc[k]));
                        assert(crate::grid::same_frame(gc, self.dlx@)) by {
                            crate::grid::lemma_frame_trans(gc, g1, self.dlx@);
                        }
                    }
                }
            } else {
                proof {
                    assert(g1.body_cell(p2 as int));
                    assert(g1.body[p2 as int].spec_top() == t);
                }
                self.dlx.cover_remaining_choices(p2);
                self.partial_solution.push(p2);
                proof {
                    assert forall|k: int|
                        0 <= k < self.partial_solution@.len() implies entry_ok(
                        self.dlx@,
                        #[trigger] self.partial_solution@[k],
                    ) by {
                        assert(crate::grid::same_frame(gc, self.dlx@)) by {
                            crate::grid::lemma_frame_trans(gc, g1, self.dlx@);
                        }
                        if k < self.partial_solution@.len() - 1 {
                            assert(entry_ok(gc, stc[k]));
                        } else {
                            assert(entry_ok(g1, p2));
                        }
                    }
                    assert(stc.last() == p && stc.drop_last() == self.partial_solution@.drop_last());
                    assert(self.partial_solution@ == stc.drop_last().push(p2));
                    assert((self.dlx@, self.partial_solution@, true) == explore_model(gc, stc));
                }
                return true;
            }
        }
        false
    }

    /// One atomic unit of search progress: retract and advance if a step was
    /// already taken, then branch on the next item; reports a complete
    /// solution or the end of the search.
    pub(crate) fn step(&mut self) -> (r: DlxStepResult)
        requires
            old(self).inv(),
        ensures
            final(self).inv(),
            final(self).started,
            (final(self).dlx@, final(self).partial_solution@, r) == step_model(
                old(self).dlx@,
                old(self).partial_solution@,
                old(self).started,
            ),
    {
        if self.started {
            if !self.explore_next_choice() {
                return DlxStepResult::Done;
            }
        } else {
            self.started = true;
        }

        if !self.choose_next_item() {
            return DlxStepResult::FoundSolution;
        }
        DlxStepResult::Continue
    }
}

} // verus!
