//! The color projection: reading the constraints of a selected subset back
//! out of the grid, and aggregating the color every solution assigns to each
//! secondary item it touches.

use vstd::prelude::*;
use vstd::pervasive::VecAdditionalExecFns;
use vstd::std_specs::cmp::PartialEqSpec;

use crate::defs::{ColorItem, Constraint, Node, NodeType};
use crate::grid::{Dlx, GridView};
use crate::search::stack_ok;
use crate::solve::{sol_model, DlxIteratorImpl};

verus! {

/// The positions of the other cells of the subset containing the body cell
/// at `p`, in the order a forward walk visits them.
pub open spec fn subset_cells<I, N>(g: GridView<I, N>, p: int) -> Seq<int> {
    let s = g.run_start(p);
    let e = g.run_end(p);
    Seq::new((e - p) as nat, |i: int| p + 1 + i) + Seq::new((p - s) as nat, |i: int| s + i)
}

/// The identifier of the item whose header is at `t`.
pub open spec fn hitem<I, N>(g: GridView<I, N>, t: int) -> I {
    g.headers[t].item->0
}

/// The constraint recorded by the body cell at `c`.
pub open spec fn constraint_at<I, N>(g: GridView<I, N>, c: int) -> Constraint<I> {
    match g.body[c].spec_color() {
        Some(col) => Constraint::Secondary(
            ColorItem { item: hitem(g, g.body[c].spec_top()), color: col },
        ),
        None => Constraint::Primary(hitem(g, g.body[c].spec_top())),
    }
}

/// Record that `it` has color `c`: replace the color of the first entry for
/// an equal item, or append a new entry.
pub open spec fn colors_insert<I: PartialEq>(acc: Seq<(I, u32)>, it: I, c: u32) -> Seq<(I, u32)>
    decreases acc.len(),
{
    if acc.len() == 0 {
        seq![(it, c)]
    } else if acc[0].0.eq_spec(&it) {
        seq![(acc[0].0, c)] + acc.drop_first()
    } else {
        seq![acc[0]] + colors_insert(acc.drop_first(), it, c)
    }
}

/// Fold the color assignments of the cells at `cells` into `acc`.
pub open spec fn colors_of_cells<I: PartialEq, N>(
    g: GridView<I, N>,
    acc: Seq<(I, u32)>,
    cells: Seq<int>,
) -> Seq<(I, u32)>
    decreases cells.len(),
{
    if cells.len() == 0 {
        acc
    } else {
        let acc1 = match g.body[cells[0]].spec_color() {
            Some(col) => colors_insert(acc, hitem(g, g.body[cells[0]].spec_top()), col),
            None => acc,
        };
        colors_of_cells(g, acc1, cells.drop_first())
    }
}

/// The color assignments of a selection: for each selected body cell, the
/// colors of the other cells of its subset, later entries for an equal item
/// overriding earlier ones.
pub open spec fn colors_of<I: PartialEq, N>(
    g: GridView<I, N>,
    acc: Seq<(I, u32)>,
    sol: Seq<usize>,
) -> Seq<(I, u32)>
    decreases sol.len(),
{
    if sol.len() == 0 {
        acc
    } else {
        let acc1 = if g.body_cell(sol[0] as int) {
            colors_of_cells(g, acc, subset_cells(g, sol[0] as int))
        } else {
            acc
        };
        colors_of(g, acc1, sol.drop_first())
    }
}

impl<I, N> Dlx<I, N> {
    /// The positions of the other cells of the subset containing the body
    /// cell at `idx`, walking forward around the subset.
    pub(crate) fn iterate_items(&self, idx: usize) -> (r: Vec<usize>)
        requires
            self@.wf(),
            self@.body_cell(idx as int),
        ensures
            r@.len() == subset_cells(self@, idx as int).len(),
            forall|k: int|
                0 <= k < r@.len() ==> #[trigger] r@[k] as int == subset_cells(
                    self@,
                    idx as int,
                )[k],
            forall|k: int| 0 <= k < r@.len() ==> self@.body_cell(#[trigger] r@[k] as int),
    {
        let ghost s = self@.run_start(idx as int);
        let ghost e = self@.run_end(idx as int);
        let ghost cells = subset_cells(self@, idx as int);
        let mut r: Vec<usize> = Vec::new();
        let bl = self.body.len();
        proof {
            assert(idx < bl && e + 1 < bl && s >= 2);
        }
        // Find the boundary closing the run, then its stored run start.
        let mut j = idx + 1;
        while !self.node(j).is_boundary_cell()
            invariant
                self@.wf(),
                self@.body_cell(idx as int),
                e == self@.run_end(idx as int),
                idx < j <= e + 1,
                e + 1 < self@.blen(),
            decreases e + 1 - j,
        {
            proof {
                assert(j as int <= e);
                crate::ops::lemma_run_span(self@, idx as int, j as int);
            }
            let bl2 = self.body.len();
            proof {
                assert(j < bl2);
            }
            j = j + 1;
        }
        proof {
            if j as int <= e {
                crate::ops::lemma_run_span(self@, idx as int, j as int);
            }
            assert(j as int == e + 1);
        }
        let bend = j;
        let bstart = self.node(bend).first_for_prev();
        proof {
            assert(bstart as int == s);
        }
        let mut k = idx + 1;
        while k < bend
            invariant
                self@.wf(),
                self@.body_cell(idx as int),
                s == self@.run_start(idx as int),
                e == self@.run_end(idx as int),
                cells == subset_cells(self@, idx as int),
                bend as int == e + 1,
                idx < k <= e + 1,
                r@.len() == k - idx - 1,
                forall|t: int| 0 <= t < r@.len() ==> #[trigger] r@[t] as int == cells[t],
                forall|t: int| 0 <= t < r@.len() ==> self@.body_cell(#[trigger] r@[t] as int),
            decreases e + 1 - k,
        {
            proof {
                crate::ops::lemma_run_span(self@, idx as int, k as int);
                assert(cells[k - idx - 1] == k as int);
            }
            r.push(k);
            k = k + 1;
        }
        let mut k2 = bstart;
        while k2 < idx
            invariant
                self@.wf(),
                self@.body_cell(idx as int),
                s == self@.run_start(idx as int),
                e == self@.run_end(idx as int),
                cells == subset_cells(self@, idx as int),
                bstart as int == s,
                s <= k2 <= idx,
                r@.len() == (e - idx) + (k2 - s),
                forall|t: int| 0 <= t < r@.len() ==> #[trigger] r@[t] as int == cells[t],
                forall|t: int| 0 <= t < r@.len() ==> self@.body_cell(#[trigger] r@[t] as int),
            decreases idx - k2,
        {
            proof {
                crate::ops::lemma_run_span(self@, idx as int, k2 as int);
                assert(cells[(e - idx) + (k2 - s)] == k2 as int);
            }
            r.push(k2);
            k2 = k2 + 1;
        }
        r
    }

    /// The identifier of the item covered by the body cell at `idx`.
    pub(crate) fn item_name(&self, idx: usize) -> (r: I)
        where I: Copy
        requires
            self@.wf(),
            self@.body_cell(idx as int),
        ensures
            r == hitem(self@, self@.body[idx as int].spec_top()),
    {
        let t = self.node(idx).top();
        proof {
            assert(1 <= t <= self@.m());
        }
        match self.header(t).item {
            Some(it) => it,
            None => vstd::pervasive::unreached(),
        }
    }

    /// The constraints of the subset containing the body cell at `idx`, other
    /// than the one at `idx` itself.
    pub(crate) fn items_for_node(&self, idx: usize) -> (r: Vec<Constraint<I>>)
        where I: Copy
        requires
            self@.wf(),
            self@.body_cell(idx as int),
        ensures
            r@.len() == subset_cells(self@, idx as int).len(),
            forall|k: int|
                0 <= k < r@.len() ==> #[trigger] r@[k] == constraint_at(
                    self@,
                    subset_cells(self@, idx as int)[k],
                ),
    {
        let ghost cells = subset_cells(self@, idx as int);
        let positions = self.iterate_items(idx);
        let mut r: Vec<Constraint<I>> = Vec::new();
        let mut k: usize = 0;
        while k < positions.len()
            invariant
                self@.wf(),
                cells == subset_cells(self@, idx as int),
                positions@.len() == cells.len(),
                forall|t: int|
                    0 <= t < positions@.len() ==> #[trigger] positions@[t] as int == cells[t],
                forall|t: int|
                    0 <= t < positions@.len() ==> self@.body_cell(#[trigger] positions@[t] as int),
                k <= positions@.len(),
                r@.len() == k,
                forall|t: int|
                    0 <= t < k ==> #[trigger] r@[t] == constraint_at(self@, cells[t]),
            decreases positions@.len() - k,
        {
            let c = positions[k];
            let nm = self.item_name(c);
            let con = match self.node(c).color() {
                Some(col) => Constraint::Secondary(ColorItem { item: nm, color: col }),
                None => Constraint::Primary(nm),
            };
            r.push(con);
            k = k + 1;
        }
        r
    }

    /// Fold the color assignments of the subset containing `idx` into `acc`.
    pub(crate) fn collect_colors(&self, idx: usize, acc: &mut Vec<(I, u32)>)
        where I: Copy + PartialEq
        requires
            self@.wf(),
            self@.body_cell(idx as int),
        ensures
            I::obeys_eq_spec() ==> final(acc)@ == colors_of_cells(
                self@,
                old(acc)@,
                subset_cells(self@, idx as int),
            ),
    {
        let ghost cells = subset_cells(self@, idx as int);
        let constraints = self.items_for_node(idx);
        let mut k: usize = 0;
        proof {
            assert(cells.skip(0) =~= cells);
        }
        while k < constraints.len()
            invariant
                self@.wf(),
                cells == subset_cells(self@, idx as int),
                constraints@.len() == cells.len(),
                forall|t: int|
                    0 <= t < constraints@.len() ==> #[trigger] constraints@[t] == constraint_at(
                        self@,
                        cells[t],
                    ),
                k <= constraints@.len(),
                I::obeys_eq_spec() ==> colors_of_cells(self@, old(acc)@, cells) == colors_of_cells(
                    self@,
                    acc@,
                    cells.skip(k as int),
                ),
            decreases constraints@.len() - k,
        {
            proof {
                assert(cells.skip(k as int)[0] == cells[k as int]);
                assert(cells.skip(k as int).drop_first() =~= cells.skip(k as int + 1));
                assert(constraints@[k as int] == constraint_at(self@, cells[k as int]));
            }
            match &constraints[k] {
                Constraint::Secondary(ci) => {
                    insert_color(acc, ci.item, ci.color);
                },
                Constraint::Primary(_) => {},
            }
            k = k + 1;
        }
        proof {
            assert(cells.skip(cells.len() as int) =~= Seq::<int>::empty());
        }
    }
}

/// Record that `it` has color `c` in the assignment list: replace the color
/// of the first entry whose item equals `it`, or append a new entry.
fn insert_color<I: Copy + PartialEq>(acc: &mut Vec<(I, u32)>, it: I, c: u32)
    ensures
        I::obeys_eq_spec() ==> final(acc)@ == colors_insert(old(acc)@, it, c),
{
    let ghost a0 = acc@;
    let mut k: usize = 0;
    proof {
        assert(a0.take(0) =~= Seq::<(I, u32)>::empty());
        assert(a0.skip(0) =~= a0);
        assert(Seq::<(I, u32)>::empty() + colors_insert(a0, it, c) =~= colors_insert(a0, it, c));
    }
    while k < acc.len()
        invariant
            k <= acc@.len(),
            acc@ == a0,
            a0 == old(acc)@,
            I::obeys_eq_spec() ==> colors_insert(a0, it, c) == a0.take(k as int) + colors_insert(
                a0.skip(k as int),
                it,
                c,
            ),
        decreases acc@.len() - k,
    {
        let hit = acc[k].0 == it;
        proof {
            assert(a0.skip(k as int)[0] == a0[k as int]);
            assert(a0.skip(k as int).drop_first() =~= a0.skip(k as int + 1));
        }
        if hit {
            let v = (acc[k].0, c);
            acc.set(k, v);
            proof {
                if I::obeys_eq_spec() {
                    assert(colors_insert(a0.skip(k as int), it, c) =~= seq![(a0[k as int].0, c)]
                        + a0.skip(k as int + 1));
                    assert(acc@ =~= a0.take(k as int) + (seq![(a0[k as int].0, c)] + a0.skip(
                        k as int + 1,
                    )));
                }
            }
            return ;
        }
        proof {
            if I::obeys_eq_spec() {
                assert(a0.take(k as int).push(a0[k as int]) =~= a0.take(k as int + 1));
                assert(a0.take(k as int) + (seq![a0[k as int]] + colors_insert(
                    a0.skip(k as int + 1),
                    it,
                    c,
                )) =~= a0.take(k as int + 1) + colors_insert(a0.skip(k as int + 1), it, c));
            }
        }
        k = k + 1;
    }
    acc.push((it, c));
    proof {
        if I::obeys_eq_spec() {
            assert(colors_insert(a0.skip(a0.len() as int), it, c) =~= seq![(it, c)]);
            assert(acc@ =~= a0.take(a0.len() as int) + seq![(it, c)]);
            assert(acc@ =~= colors_insert(a0, it, c));
        }
    }
}

/// The solutions-only stream projected onto the color assignments of each
/// solution's secondary items.
pub struct ColoredDlxIterator<I, N> {
    pub inner: DlxIteratorImpl<I, N>,
}

impl<I, N> DlxIteratorImpl<I, N> {
    /// The same stream with each solution projected onto the colors it
    /// assigns to the secondary items it touches.
    pub fn with_colors(self) -> (r: ColoredDlxIterator<I, N>)
        requires
            self.inv(),
        ensures
            r.inner == self,
    {
        ColoredDlxIterator { inner: self }
    }
}

impl<I: Copy + PartialEq, N> ColoredDlxIterator<I, N> {
    pub open spec fn inv(&self) -> bool {
        self.inner.inv()
    }

    /// The next complete solution, as the color each touched secondary item
    /// is assigned.
    pub fn next(&mut self) -> (r: Option<Vec<(I, u32)>>)
        requires
            old(self).inv(),
        ensures
            final(self).inv(),
            ({
                let (g, st, started, fuel, res) = sol_model(
                    old(self).inner.explorer.dlx@,
                    old(self).inner.explorer.partial_solution@,
                    old(self).inner.explorer.started,
                    old(self).inner.budget as nat,
                );
                &&& final(self).inner.explorer.dlx@ == g
                &&& final(self).inner.explorer.partial_solution@ == st
                &&& final(self).inner.explorer.started == started
                &&& final(self).inner.budget == fuel
                &&& match r {
                    Some(v) => res is Some && (I::obeys_eq_spec() ==> (res matches Some(s) && v@
                        == colors_of(g, Seq::empty(), s))),
                    None => res is None,
                }
            }),
    {
        match self.inner.next() {
            Some(sol) => {
                proof {
                    crate::solve::lemma_sol_model_stack(
                        old(self).inner.explorer.dlx@,
                        old(self).inner.explorer.partial_solution@,
                        old(self).inner.explorer.started,
                        old(self).inner.budget as nat,
                    );
                    assert(sol@ == self.inner.explorer.partial_solution@);
                }
                Some(self.inner.explorer.dlx.project_colors(&sol))
            },
            None => None,
        }
    }
}

impl<I, N> Dlx<I, N> {
    /// Project a selection onto the color assignments of its secondary items.
    pub(crate) fn project_colors(&self, sol: &Vec<usize>) -> (r: Vec<(I, u32)>)
        where I: Copy + PartialEq
        requires
            self@.wf(),
            stack_ok(self@, sol@),
        ensures
            I::obeys_eq_spec() ==> r@ == colors_of(self@, Seq::empty(), sol@),
    {
        let mut r: Vec<(I, u32)> = Vec::new();
        let mut k: usize = 0;
        proof {
            assert(sol@.skip(0) =~= sol@);
        }
        while k < sol.len()
            invariant
                self@.wf(),
                stack_ok(self@, sol@),
                k <= sol@.len(),
                I::obeys_eq_spec() ==> colors_of(self@, Seq::empty(), sol@) == colors_of(
                    self@,
                    r@,
                    sol@.skip(k as int),
                ),
            decreases sol@.len() - k,
        {
            let p = sol[k];
            proof {
                assert(crate::search::entry_ok(self@, p));
                assert(sol@.skip(k as int)[0] == p);
                assert(sol@.skip(k as int).drop_first() =~= sol@.skip(k as int + 1));
            }
            let is_body = self.node(p).ty() matches NodeType::Body { .. };
            proof {
                assert(is_body == self@.body_cell(p as int)) by {
                    if 1 <= p <= self@.num_primary {
                        assert(self@.body[p as int].is_header_cell());
                    }
                }
            }
            if is_body {
                self.collect_colors(p, &mut r);
            }
            k = k + 1;
        }
        proof {
            assert(sol@.skip(sol@.len() as int) =~= Seq::<usize>::empty());
        }
        r
    }
}

} // verus!
