//! The iterator facade over the search driver: a lazy stream of complete
//! solutions, a stepwise stream that also surfaces every partial selection,
//! the name projection, and the restoration that hands the grid back intact.

use vstd::prelude::*;

use crate::defs::{Node, NodeType};
use crate::grid::{Dlx, GridView};
use crate::ops::{spec_uncover, spec_uncover_remaining};
use crate::search::{
    step_model, DlxExplorer, DlxStepResult, stack_ok,
};

verus! {

/// The model of the solutions-only stream: run `step_model` until it reports
/// a solution or the end, spending one unit of the step budget per step.
/// Yields the grid, stack, started flag and budget left behind, and the
/// solution found, if any.
pub open spec fn sol_model<I, N>(
    g: GridView<I, N>,
    stack: Seq<usize>,
    started: bool,
    fuel: nat,
) -> (GridView<I, N>, Seq<usize>, bool, nat, Option<Seq<usize>>)
    decreases fuel,
{
    if fuel == 0 {
        (g, stack, started, fuel, None)
    } else {
        let (g1, st1, r) = step_model(g, stack, started);
        match r {
            DlxStepResult::Continue => sol_model(g1, st1, true, (fuel - 1) as nat),
            DlxStepResult::FoundSolution => (g1, st1, true, fuel, Some(st1)),
            DlxStepResult::Done => (g1, st1, true, fuel, None),
        }
    }
}

/// A found solution is the stack the stream leaves behind.
pub proof fn lemma_sol_model_stack<I, N>(
    g: GridView<I, N>,
    stack: Seq<usize>,
    started: bool,
    fuel: nat,
)
    ensures
        ({
            let m = sol_model(g, stack, started, fuel);
            m.4 is Some ==> m.4 == Some(m.1)
        }),
    decreases fuel,
{
    if fuel > 0 {
        let (g1, st1, r) = step_model(g, stack, started);
        if r == DlxStepResult::Continue {
            lemma_sol_model_stack(g1, st1, true, (fuel - 1) as nat);
        }
    }
}

/// The model of restoring the grid from a partial selection: undo the stack
/// entries newest first, exactly as the search itself would retract them.
pub open spec fn restore_model<I, N>(g: GridView<I, N>, stack: Seq<usize>) -> GridView<I, N>
    decreases stack.len(),
{
    if stack.len() == 0 {
        g
    } else {
        let p = stack.last() as int;
        let g1 = if g.body_cell(p) {
            spec_uncover(spec_uncover_remaining(g, p), g.body[p].spec_top())
        } else {
            spec_uncover(g, p)
        };
        restore_model(g1, stack.drop_last())
    }
}

/// The name of the subset whose run contains the body cell at `p`: the name
/// carried by the boundary cell that closes the run.
pub open spec fn name_at<I, N>(g: GridView<I, N>, p: int) -> N {
    g.body[g.run_end(p) + 1].spec_name()->0
}

/// The names projection of one selection: each body cell becomes its
/// subset's name; chosen header entries are dropped.
pub open spec fn names_of<I, N>(g: GridView<I, N>, sol: Seq<usize>) -> Seq<N>
    decreases sol.len(),
{
    if sol.len() == 0 {
        Seq::empty()
    } else {
        let rest = names_of(g, sol.drop_first());
        if g.body_cell(sol[0] as int) {
            seq![name_at(g, sol[0] as int)] + rest
        } else {
            rest
        }
    }
}

/// Copy a selection stack.
fn copy_stack(v: &Vec<usize>) -> (r: Vec<usize>)
    ensures
        r@ == v@,
{
    let mut r: Vec<usize> = Vec::new();
    let mut k: usize = 0;
    while k < v.len()
        invariant
            k <= v@.len(),
            r@ == v@.take(k as int),
        decreases v@.len() - k,
    {
        r.push(v[k]);
        k = k + 1;
        proof {
            assert(r@ =~= v@.take(k as int));
        }
    }
    proof {
        assert(v@.take(v@.len() as int) =~= v@);
    }
    r
}

impl<I, N> Dlx<I, N> {
    /// The name of the subset containing the body cell at `idx`, read off the
    /// boundary cell that closes its run.
    pub(crate) fn set_name_for_node(&self, idx: usize) -> (r: N)
        where N: Copy
        requires
            self@.wf(),
            self@.body_cell(idx as int),
        ensures
            r == name_at(self@, idx as int),
    {
        let ghost e = self@.run_end(idx as int);
        let bl = self.body.len();
        proof {
            assert(idx < bl && e + 1 < bl);
        }
        let mut j = idx + 1;
        while !self.node(j).is_boundary_cell()
            invariant
                self@.wf(),
                self@.body_cell(idx as int),
                e == self@.run_end(idx as int),
                idx < j <= e + 1,
                e + 1 < self@.blen(),
            decreases e + 1 - j,
        {
            proof {
                assert(j as int <= e);
                crate::ops::lemma_run_span(self@, idx as int, j as int);
            }
            let bl2 = self.body.len();
            proof {
                assert(j < bl2);
            }
            j = j + 1;
        }
        proof {
            if j as int <= e {
                crate::ops::lemma_run_span(self@, idx as int, j as int);
            }
            assert(j as int == e + 1);
            assert(self@.body[j as int].spec_name() is Some);
        }
        match self.node(j) {
            Node::Boundary { name: Some(nm), .. } => *nm,
            _ => vstd::pervasive::unreached(),
        }
    }

    /// Project a selection onto the names of its chosen subsets, skipping the
    /// chosen-header entries.
    pub(crate) fn project_names(&self, sol: &Vec<usize>) -> (r: Vec<N>)
        where N: Copy
        requires
            self@.wf(),
            stack_ok(self@, sol@),
        ensures
            r@ == names_of(self@, sol@),
    {
        let mut r: Vec<N> = Vec::new();
        let mut k: usize = 0;
        proof {
            assert(sol@.skip(0) =~= sol@);
            assert(Seq::<N>::empty() + names_of(self@, sol@) =~= names_of(self@, sol@));
        }
        while k < sol.len()
            invariant
                self@.wf(),
                stack_ok(self@, sol@),
                k <= sol@.len(),
                names_of(self@, sol@) == r@ + names_of(self@, sol@.skip(k as int)),
            decreases sol@.len() - k,
        {
            let ghost rpre = r@;
            let p = sol[k];
            proof {
                assert(crate::search::entry_ok(self@, p));
                assert(sol@.skip(k as int)[0] == p);
                assert(sol@.skip(k as int).drop_first() =~= sol@.skip(k as int + 1));
            }
            let is_body = self.node(p).ty() matches NodeType::Body { .. };
            proof {
                assert(is_body == self@.body_cell(p as int)) by {
                    if 1 <= p <= self@.num_primary {
                        assert(self@.body[p as int].is_header_cell());
                    }
                }
            }
            if is_body {
                let nm = self.set_name_for_node(p);
                r.push(nm);
                proof {
                    assert(rpre + (seq![nm] + names_of(self@, sol@.skip(k as int + 1))) =~= r@
                        + names_of(self@, sol@.skip(k as int + 1)));
                }
            }
            k = k + 1;
        }
        proof {
            assert(sol@.skip(sol@.len() as int) =~= Seq::<usize>::empty());
            assert(r@ + Seq::<N>::empty() =~= r@);
        }
        r
    }

    /// A structurally identical copy of the grid.
    pub(crate) fn duplicate(&self) -> (r: Self)
        where I: Copy, N: Copy
        ensures
            r@ == self@,
    {
        let mut headers: Vec<crate::defs::Header<I>> = Vec::new();
        let mut k: usize = 0;
        while k < self.headers.len()
            invariant
                k <= self@.headers.len(),
                headers@ == self@.headers.take(k as int),
            decreases self@.headers.len() - k,
        {
            let h = &self.headers[k];
            headers.push(crate::defs::Header {
                item: h.item,
                prev: h.prev,
                next: h.next,
                header_type: h.header_type,
            });
            k = k + 1;
            proof {
                assert(headers@ =~= self@.headers.take(k as int));
            }
        }
        let mut body: Vec<Node<N>> = Vec::new();
        let mut j: usize = 0;
        while j < self.body.len()
            invariant
                j <= self@.body.len(),
                body@ == self@.body.take(j as int),
            decreases self@.body.len() - j,
        {
            let n = match &self.body[j] {
                Node::Boundary { name, first_for_prev, last_for_next } => Node::Boundary {
                    name: *name,
                    first_for_prev: *first_for_prev,
                    last_for_next: *last_for_next,
                },
                Node::Normal { prev, next, node_type } => Node::Normal {
                    prev: *prev,
                    next: *next,
                    node_type: *node_type,
                },
            };
            proof {
                assert(n == self@.body[j as int]);
            }
            body.push(n);
            j = j + 1;
            proof {
                assert(body@ =~= self@.body.take(j as int));
            }
        }
        proof {
            assert(headers@ =~= self@.headers);
            assert(body@ =~= self@.body);
        }
        let r = Dlx { num_primary_items: self.num_primary_items, headers, body };
        proof {
            assert(r@ == self@);
        }
        r
    }

    /// A lazy stream of the complete solutions of this grid, leaving the grid
    /// itself untouched.
    pub fn find_solutions(&mut self) -> (r: DlxIteratorImpl<I, N>)
        where I: Copy, N: Copy
        requires
            old(self)@.wf(),
        ensures
            *final(self) == *old(self),
            r.inv(),
            r.explorer.dlx@ == old(self)@,
            r.explorer.partial_solution@ == Seq::<usize>::empty(),
            !r.explorer.started,
            r.budget == u64::MAX,
    {
        DlxIteratorImpl::new(self.duplicate())
    }

    /// A lazy stream of the complete solutions, consuming the grid; it can be
    /// recovered, restored, with [`DlxIteratorImpl::into_dlx`].
    pub fn into_solutions(self) -> (r: DlxIteratorImpl<I, N>)
        requires
            self@.wf(),
        ensures
            r.inv(),
            r.explorer.dlx@ == self@,
            r.explorer.partial_solution@ == Seq::<usize>::empty(),
            !r.explorer.started,
            r.budget == u64::MAX,
    {
        DlxIteratorImpl::new(self)
    }

    /// A lazy stream that yields every search step — partial selections as
    /// `Step`, complete ones as `Solution` — leaving the grid untouched.
    pub fn find_solutions_stepwise(&mut self) -> (r: StepwiseDlxIteratorImpl<I, N>)
        where I: Copy, N: Copy
        requires
            old(self)@.wf(),
        ensures
            *final(self) == *old(self),
            r.inv(),
            r.explorer.dlx@ == old(self)@,
            r.explorer.partial_solution@ == Seq::<usize>::empty(),
            !r.explorer.started,
    {
        StepwiseDlxIteratorImpl::new(self.duplicate())
    }

    /// The stepwise stream, consuming the grid.
    pub fn into_solutions_stepwise(self) -> (r: StepwiseDlxIteratorImpl<I, N>)
        requires
            self@.wf(),
        ensures
            r.inv(),
            r.explorer.dlx@ == self@,
            r.explorer.partial_solution@ == Seq::<usize>::empty(),
            !r.explorer.started,
    {
        StepwiseDlxIteratorImpl::new(self)
    }
}

/// The solutions-only iterator: drives the search until the next complete
/// solution. A step budget bounds the walk; it is far beyond what any search
/// that finishes could spend.
pub struct DlxIteratorImpl<I, N> {
    pub explorer: DlxExplorer<I, N>,
    pub budget: u64,
}

impl<I, N> DlxIteratorImpl<I, N> {
    pub open spec fn inv(&self) -> bool {
        self.explorer.inv()
    }

    pub(crate) fn new(dlx: Dlx<I, N>) -> (r: Self)
        requires
            dlx@.wf(),
        ensures
            r.inv(),
            r.explorer.dlx@ == dlx@,
            r.explorer.partial_solution@ == Seq::<usize>::empty(),
            !r.explorer.started,
            r.budget == u64::MAX,
    {
        DlxIteratorImpl { explorer: DlxExplorer::new(dlx), budget: u64::MAX }
    }

    /// The grid as the search currently holds it.
    pub fn dlx(&self) -> (r: &Dlx<I, N>)
        ensures
            r == &self.explorer.dlx,
    {
        self.explorer.dlx()
    }

    /// The next complete solution, as the body-cell indices the search
    /// committed (with the chosen header before each), or `None` once the
    /// search space is exhausted.
    pub fn next(&mut self) -> (r: Option<Vec<usize>>)
        requires
            old(self).inv(),
        ensures
            final(self).inv(),
            ({
                let (g, st, started, fuel, res) = sol_model(
                    old(self).explorer.dlx@,
                    old(self).explorer.partial_solution@,
                    old(self).explorer.started,
                    old(self).budget as nat,
                );
                &&& final(self).explorer.dlx@ == g
                &&& final(self).explorer.partial_solution@ == st
                &&& final(self).explorer.started == started
                &&& final(self).budget == fuel
                &&& match r {
                    Some(v) => res == Some(v@),
                    None => res is None,
                }
            }),
    {
        let ghost m0 = sol_model(
            self.explorer.dlx@,
            self.explorer.partial_solution@,
            self.explorer.started,
            self.budget as nat,
        );
        while self.budget > 0
            invariant
                self.inv(),
                m0 == sol_model(
                    old(self).explorer.dlx@,
                    old(self).explorer.partial_solution@,
                    old(self).explorer.started,
                    old(self).budget as nat,
                ),
                m0 == sol_model(
                    self.explorer.dlx@,
                    self.explorer.partial_solution@,
                    self.explorer.started,
                    self.budget as nat,
                ),
            decreases self.budget,
        {
            match self.explorer.step() {
                DlxStepResult::Continue => {
                    self.budget = self.budget - 1;
                },
                DlxStepResult::FoundSolution => {
                    let v = copy_stack(self.explorer.partial_solution());
                    return Some(v);
                },
                DlxStepResult::Done => {
                    return None;
                },
            }
        }
        None
    }

    /// Undo every pending choice and hand the grid back.
    pub fn into_dlx(self) -> (r: Dlx<I, N>)
        requires
            self.inv(),
        ensures
            r@ == restore_model(self.explorer.dlx@, self.explorer.partial_solution@),
    {
        let DlxIteratorImpl { explorer, .. } = self;
        restore(explorer)
    }

    /// The same stream with each solution projected onto its subset names.
    pub fn with_names(self) -> (r: NamedDlxIterator<I, N>)
        requires
            self.inv(),
        ensures
            r.inner == self,
    {
        NamedDlxIterator { inner: self }
    }

    /// The same stream with each solution passed through `f`, which also
    /// receives a read-only view of the grid.
    pub fn mapped<F, S>(self, f: F) -> (r: MappedDlxIterator<I, N, F, S>)
        where F: Fn(&Dlx<I, N>, Vec<usize>) -> S
        requires
            self.inv(),
        ensures
            r.inner == self,
            r.f == f,
    {
        MappedDlxIterator { inner: self, f }
    }
}

/// Undo every pending choice of the explorer and hand the grid back.
fn restore<I, N>(explorer: DlxExplorer<I, N>) -> (r: Dlx<I, N>)
    requires
        explorer.inv(),
    ensures
        r@ == restore_model(explorer.dlx@, explorer.partial_solution@),
{
    let DlxExplorer { mut dlx, mut partial_solution, .. } = explorer;
    let ghost g0 = dlx@;
    let ghost st0 = partial_solution@;
    while partial_solution.len() > 0
        invariant
            dlx@.wf(),
            stack_ok(dlx@, partial_solution@),
            restore_model(g0, st0) == restore_model(dlx@, partial_solution@),
        decreases partial_solution@.len(),
    {
        let ghost gc = dlx@;
        let ghost stc = partial_solution@;
        let p = match partial_solution.pop() {
            Some(p) => p,
            None => vstd::pervasive::unreached(),
        };
        proof {
            assert(crate::search::entry_ok(gc, p));
        }
        let is_body = dlx.node(p).ty() matches NodeType::Body { .. };
        proof {
            assert(is_body == gc.body_cell(p as int)) by {
                if 1 <= p <= gc.num_primary {
                    assert(gc.body[p as int].is_header_cell());
                }
            }
        }
        if is_body {
            dlx.uncover_remaining_choices(p);
            let ghost g1 = dlx@;
            let t = dlx.to_top(p);
            proof {
                assert(g1.body[p as int].spec_top() == gc.body[p as int].spec_top());
                assert(t <= g1.num_primary);
            }
            dlx.uncover(t);
            proof {
                crate::grid::lemma_frame_trans(gc, g1, dlx@);
            }
        } else {
            dlx.uncover(p);
            proof {
                assert(crate::grid::same_frame(gc, dlx@));
            }
        }
        proof {
            assert forall|k: int|
                0 <= k < partial_solution@.len() implies crate::search::entry_ok(
                dlx@,
                #[trigger] partial_solution@[k],
            ) by {
                assert(crate::search::entry_ok(gc, stc[k]));
            }
        }
    }
    dlx
}

/// A complete solution, or one intermediate step of the search, carrying the
/// current selection.
#[derive(Clone, Debug)]
pub enum StepwiseDlxIterResult<T> {
    /// A partial selection the search is still extending.
    Step(T),
    /// A complete solution.
    Solution(T),
}

impl<T> StepwiseDlxIterResult<T> {
    /// The carried selection, consuming the wrapper.
    pub fn take_result(self) -> (r: T)
        ensures
            (self matches StepwiseDlxIterResult::Step(v) ==> r == v) && (self
                matches StepwiseDlxIterResult::Solution(v) ==> r == v),
    {
        match self {
            Self::Step(result) => result,
            Self::Solution(result) => result,
        }
    }

    /// The carried selection.
    pub fn result(&self) -> (r: &T)
        ensures
            (self matches StepwiseDlxIterResult::Step(v) ==> *r == v) && (self
                matches StepwiseDlxIterResult::Solution(v) ==> *r == v),
    {
        match self {
            Self::Step(result) => result,
            Self::Solution(result) => result,
        }
    }
}

/// The stepwise iterator: yields every search step, tagging complete
/// solutions.
pub struct StepwiseDlxIteratorImpl<I, N> {
    pub explorer: DlxExplorer<I, N>,
}

impl<I, N> StepwiseDlxIteratorImpl<I, N> {
    pub open spec fn inv(&self) -> bool {
        self.explorer.inv()
    }

    pub(crate) fn new(dlx: Dlx<I, N>) -> (r: Self)
        requires
            dlx@.wf(),
        ensures
            r.inv(),
            r.explorer.dlx@ == dlx@,
            r.explorer.partial_solution@ == Seq::<usize>::empty(),
            !r.explorer.started,
    {
        StepwiseDlxIteratorImpl { explorer: DlxExplorer::new(dlx) }
    }

    /// The grid as the search currently holds it.
    pub fn dlx(&self) -> (r: &Dlx<I, N>)
        ensures
            r == &self.explorer.dlx,
    {
        self.explorer.dlx()
    }

    /// One search step: the selection it leaves, tagged `Solution` when it is
    /// complete; `None` once the search space is exhausted.
    pub fn next(&mut self) -> (r: Option<StepwiseDlxIterResult<Vec<usize>>>)
        requires
            old(self).inv(),
        ensures
            final(self).inv(),
            ({
                let (g, st, sr) = step_model(
                    old(self).explorer.dlx@,
                    old(self).explorer.partial_solution@,
                    old(self).explorer.started,
                );
                &&& final(self).explorer.dlx@ == g
                &&& final(self).explorer.partial_solution@ == st
                &&& final(self).explorer.started
                &&& match r {
                    Some(StepwiseDlxIterResult::Step(v)) => sr == DlxStepResult::Continue && v@
                        == st,
                    Some(StepwiseDlxIterResult::Solution(v)) => sr == DlxStepResult::FoundSolution
                        && v@ == st,
                    None => sr == DlxStepResult::Done,
                }
            }),
    {
        match self.explorer.step() {
            DlxStepResult::Continue => Some(
                StepwiseDlxIterResult::Step(copy_stack(self.explorer.partial_solution())),
            ),
            DlxStepResult::FoundSolution => Some(
                StepwiseDlxIterResult::Solution(copy_stack(self.explorer.partial_solution())),
            ),
            DlxStepResult::Done => None,
        }
    }

    /// Undo every pending choice and hand the grid back.
    pub fn into_dlx(self) -> (r: Dlx<I, N>)
        requires
            self.inv(),
        ensures
            r@ == restore_model(self.explorer.dlx@, self.explorer.partial_solution@),
    {
        let StepwiseDlxIteratorImpl { explorer } = self;
        restore(explorer)
    }

    /// The same stream with each selection projected onto its subset names.
    pub fn with_names(self) -> (r: NamedStepwiseDlxIterator<I, N>)
        requires
            self.inv(),
        ensures
            r.inner == self,
    {
        NamedStepwiseDlxIterator { inner: self }
    }
}

/// `sv` is an output the projection `f` may produce from the grid `g` and
/// the selection `s`.
pub open spec fn mapped_output<I, N, F, S>(f: F, g: GridView<I, N>, s: Seq<usize>, sv: S) -> bool
    where F: Fn(&Dlx<I, N>, Vec<usize>) -> S
{
    exists|d: &Dlx<I, N>, v: Vec<usize>|
        d@ == g && v@ == s && #[trigger] call_ensures(f, (d, v), sv)
}

/// The solutions-only stream projected through a caller-supplied function,
/// which may read the grid alongside each solution.
#[verifier::reject_recursive_types(S)]
pub struct MappedDlxIterator<I, N, F, S> where F: Fn(&Dlx<I, N>, Vec<usize>) -> S {
    pub inner: DlxIteratorImpl<I, N>,
    pub f: F,
}

impl<I, N, F, S> MappedDlxIterator<I, N, F, S> where F: Fn(&Dlx<I, N>, Vec<usize>) -> S {
    pub open spec fn inv(&self) -> bool {
        self.inner.inv()
    }

    /// The next complete solution, passed through the projection together
    /// with the grid as the search holds it at that point.
    pub fn next(&mut self) -> (r: Option<S>)
        requires
            old(self).inv(),
            forall|d: &Dlx<I, N>, v: Vec<usize>| #[trigger] call_requires(old(self).f, (d, v)),
        ensures
            final(self).inv(),
            final(self).f == old(self).f,
            ({
                let (g, st, started, fuel, res) = sol_model(
                    old(self).inner.explorer.dlx@,
                    old(self).inner.explorer.partial_solution@,
                    old(self).inner.explorer.started,
                    old(self).inner.budget as nat,
                );
                &&& final(self).inner.explorer.dlx@ == g
                &&& final(self).inner.explorer.partial_solution@ == st
                &&& final(self).inner.explorer.started == started
                &&& final(self).inner.budget == fuel
                &&& (r is Some <==> res is Some)
                &&& (r is Some ==> mapped_output(old(self).f, g, res->0, r->0))
            }),
    {
        match self.inner.next() {
            Some(sol) => {
                proof {
                    lemma_sol_model_stack(
                        old(self).inner.explorer.dlx@,
                        old(self).inner.explorer.partial_solution@,
                        old(self).inner.explorer.started,
                        old(self).inner.budget as nat,
                    );
                }
                let ghost solg = sol;
                let dref = &self.inner.explorer.dlx;
                let out = (self.f)(dref, sol);
                proof {
                    assert(solg@ == self.inner.explorer.partial_solution@);
                    assert(call_ensures(old(self).f, (dref, solg), out));
                    assert(mapped_output(
                        old(self).f,
                        self.inner.explorer.dlx@,
                        solg@,
                        out,
                    ));
                }
                Some(out)
            },
            None => None,
        }
    }
}

/// The solutions-only stream projected onto subset names.
pub struct NamedDlxIterator<I, N> {
    pub inner: DlxIteratorImpl<I, N>,
}

impl<I, N: Copy> NamedDlxIterator<I, N> {
    pub open spec fn inv(&self) -> bool {
        self.inner.inv()
    }

    /// The next complete solution, as the names of its chosen subsets.
    pub fn next(&mut self) -> (r: Option<Vec<N>>)
        requires
            old(self).inv(),
        ensures
            final(self).inv(),
            ({
                let (g, st, started, fuel, res) = sol_model(
                    old(self).inner.explorer.dlx@,
                    old(self).inner.explorer.partial_solution@,
                    old(self).inner.explorer.started,
                    old(self).inner.budget as nat,
                );
                &&& final(self).inner.explorer.dlx@ == g
                &&& final(self).inner.explorer.partial_solution@ == st
                &&& final(self).inner.explorer.started == started
                &&& final(self).inner.budget == fuel
                &&& match r {
                    Some(v) => res matches Some(s) && v@ == names_of(g, s),
                    None => res is None,
                }
            }),
    {
        match self.inner.next() {
            Some(sol) => {
                proof {
                    lemma_sol_model_stack(
                        old(self).inner.explorer.dlx@,
                        old(self).inner.explorer.partial_solution@,
                        old(self).inner.explorer.started,
                        old(self).inner.budget as nat,
                    );
                    assert(sol@ == self.inner.explorer.partial_solution@);
                }
                Some(self.inner.explorer.dlx.project_names(&sol))
            },
            None => None,
        }
    }
}

/// The stepwise stream projected onto subset names.
pub struct NamedStepwiseDlxIterator<I, N> {
    pub inner: StepwiseDlxIteratorImpl<I, N>,
}

impl<I, N: Copy> NamedStepwiseDlxIterator<I, N> {
    pub open spec fn inv(&self) -> bool {
        self.inner.inv()
    }

    /// One search step, its selection projected onto subset names.
    pub fn next(&mut self) -> (r: Option<StepwiseDlxIterResult<Vec<N>>>)
        requires
            old(self).inv(),
        ensures
            final(self).inv(),
            ({
                let (g, st, sr) = step_model(
                    old(self).inner.explorer.dlx@,
                    old(self).inner.explorer.partial_solution@,
                    old(self).inner.explorer.started,
                );
                &&& final(self).inner.explorer.dlx@ == g
                &&& final(self).inner.explorer.partial_solution@ == st
                &&& final(self).inner.explorer.started
                &&& match r {
                    Some(StepwiseDlxIterResult::Step(v)) => sr == DlxStepResult::Continue && v@
                        == names_of(g, st),
                    Some(StepwiseDlxIterResult::Solution(v)) => sr == DlxStepResult::FoundSolution
                        && v@ == names_of(g, st),
                    None => sr == DlxStepResult::Done,
                }
            }),
    {
        match self.inner.next() {
            Some(StepwiseDlxIterResult::Step(sol)) => Some(
                StepwiseDlxIterResult::Step(self.inner.explorer.dlx.project_names(&sol)),
            ),
            Some(StepwiseDlxIterResult::Solution(sol)) => Some(
                StepwiseDlxIterResult::Solution(self.inner.explorer.dlx.project_names(&sol)),
            ),
            None => None,
        }
    }
}

} // verus!
