//! The reversible link primitives: `hide`/`unhide` remove and restore a
//! subset's cells from their items' vertical rings, `cover`/`uncover` remove
//! and restore a primary item with every subset that touches it,
//! `purify`/`unpurify` fix a secondary item's color, and the `commit` /
//! `remaining choices` layers drive them across a chosen subset.
//!
//! Every primitive's exact effect is stated by a specification mirror over
//! the grid model, so a caller knows the resulting grid, byte for byte.

use vstd::prelude::*;

use crate::grid::{lemma_frame_trans, same_frame, same_kind, Dlx, GridView};

verus! {

/// The effect of removing one body cell `q` from its item's vertical ring:
/// the cell is stitched out (unless its item is secondary and its color
/// spent) and its item's size count drops by one.
pub open spec fn hide_step<I, N>(g: GridView<I, N>, q: int) -> GridView<I, N> {
    let pq = g.body[q].spec_prev();
    let nq = g.body[q].spec_next();
    let t = g.body[q].spec_top();
    let g1 = if g.headers[t].spec_is_primary() || g.body[q].spec_color() is Some {
        g.with_next(pq, nq).with_prev(nq, pq)
    } else {
        g
    };
    g1.with_size(t, vstd::wrapping::usize_specs::wrapping_sub(g1.body[t].spec_len(), 1))
}

/// The effect of re-inserting one body cell `q` into its item's vertical
/// ring; the exact inverse of `hide_step` on a grid `hide_step` produced.
pub open spec fn unhide_step<I, N>(g: GridView<I, N>, q: int) -> GridView<I, N> {
    let pq = g.body[q].spec_prev();
    let nq = g.body[q].spec_next();
    let t = g.body[q].spec_top();
    let g1 = if g.headers[t].spec_is_primary() || g.body[q].spec_color() is Some {
        g.with_next(pq, q).with_prev(nq, q)
    } else {
        g
    };
    g1.with_size(t, vstd::wrapping::usize_specs::wrapping_add(g1.body[t].spec_len(), 1))
}

/// The forward horizontal walk of `hide`: from `q`, looping at boundaries via
/// `first_for_prev`, applying `hide_step` to every body cell until the walk
/// returns to `p`.
pub open spec fn hide_from<I, N>(g: GridView<I, N>, p: int, q: int, fuel: nat) -> GridView<I, N>
    decreases fuel,
{
    if fuel == 0 || q == p {
        g
    } else if g.body[q].is_boundary() {
        hide_from(g, p, g.body[q].spec_first_for_prev(), (fuel - 1) as nat)
    } else if g.body[q].is_body_cell() {
        hide_from(hide_step(g, q), p, q + 1, (fuel - 1) as nat)
    } else {
        g
    }
}

/// The grid after `hide(p)`.
pub open spec fn spec_hide<I, N>(g: GridView<I, N>, p: int) -> GridView<I, N> {
    hide_from(g, p, p + 1, g.blen() as nat)
}

/// The backward horizontal walk of `unhide`: from `q`, looping at boundaries
/// via `last_for_next`, applying `unhide_step` to every body cell until the
/// walk returns to `p`.
pub open spec fn unhide_from<I, N>(g: GridView<I, N>, p: int, q: int, fuel: nat) -> GridView<I, N>
    decreases fuel,
{
    if fuel == 0 || q == p {
        g
    } else if g.body[q].is_boundary() {
        unhide_from(g, p, g.body[q].spec_last_for_next(), (fuel - 1) as nat)
    } else if g.body[q].is_body_cell() {
        unhide_from(unhide_step(g, q), p, q - 1, (fuel - 1) as nat)
    } else {
        g
    }
}

/// The grid after `unhide(p)`.
pub open spec fn spec_unhide<I, N>(g: GridView<I, N>, p: int) -> GridView<I, N> {
    unhide_from(g, p, p - 1, g.blen() as nat)
}

/// The vertical walk of `cover`: hide every subset on item `i`'s ring, moving
/// along the `next` links as they stand after each hide.
pub open spec fn cover_from<I, N>(g: GridView<I, N>, i: int, p: int, fuel: nat) -> GridView<I, N>
    decreases fuel,
{
    if fuel == 0 || p == i {
        g
    } else if g.body_cell(p) {
        let g1 = spec_hide(g, p);
        cover_from(g1, i, g1.body[p].spec_next(), (fuel - 1) as nat)
    } else {
        g
    }
}

/// The grid after `cover(i)`: every subset on item `i`'s ring hidden, then
/// the header unlinked from the active primary list.
pub open spec fn spec_cover<I, N>(g: GridView<I, N>, i: int) -> GridView<I, N> {
    let g1 = cover_from(g, i, g.body[i].spec_next(), g.blen() as nat);
    let hp = g1.headers[i].prev as int;
    let hn = g1.headers[i].next as int;
    g1.with_header_next(hp, hn).with_header_prev(hn, hp)
}

/// The vertical walk of `uncover`, unhiding along the `prev` links as they
/// stand after each unhide.
pub open spec fn uncover_from<I, N>(g: GridView<I, N>, i: int, p: int, fuel: nat) -> GridView<
    I,
    N,
>
    decreases fuel,
{
    if fuel == 0 || p == i {
        g
    } else if g.body_cell(p) {
        let g1 = spec_unhide(g, p);
        uncover_from(g1, i, g1.body[p].spec_prev(), (fuel - 1) as nat)
    } else {
        g
    }
}

/// The grid after `uncover(i)`: the header relinked into the active primary
/// list, then every subset on item `i`'s ring unhidden, bottom to top.
pub open spec fn spec_uncover<I, N>(g: GridView<I, N>, i: int) -> GridView<I, N> {
    let hp = g.headers[i].prev as int;
    let hn = g.headers[i].next as int;
    let g1 = g.with_header_next(hp, i).with_header_prev(hn, i);
    uncover_from(g1, i, g1.body[i].spec_prev(), g1.blen() as nat)
}

/// The vertical walk of `purify` over item `t`'s ring: a cell of the chosen
/// color is marked spent (color cleared), any other cell's subset is hidden.
pub open spec fn purify_from<I, N>(g: GridView<I, N>, t: int, c: u32, p: int, fuel: nat) -> GridView<
    I,
    N,
>
    decreases fuel,
{
    if fuel == 0 || p == t {
        g
    } else if g.body_cell(p) {
        let g1 = if g.body[p].spec_color() == Some(c) {
            g.with_color(p, None)
        } else {
            spec_hide(g, p)
        };
        purify_from(g1, t, c, g1.body[p].spec_next(), (fuel - 1) as nat)
    } else {
        g
    }
}

/// The grid after `purify(p)` for a secondary cell `p` with color `c`.
pub open spec fn spec_purify<I, N>(g: GridView<I, N>, p: int) -> GridView<I, N> {
    let t = g.body[p].spec_top();
    let c = g.body[p].spec_color()->0;
    purify_from(g, t, c, g.body[t].spec_next(), g.blen() as nat)
}

/// The vertical walk of `unpurify`, backward: a spent cell gets its color
/// back, any other cell's subset is unhidden.
pub open spec fn unpurify_from<I, N>(
    g: GridView<I, N>,
    t: int,
    c: u32,
    p: int,
    fuel: nat,
) -> GridView<I, N>
    decreases fuel,
{
    if fuel == 0 || p == t {
        g
    } else if g.body_cell(p) {
        let g1 = if g.body[p].spec_color() is None {
            g.with_color(p, Some(c))
        } else {
            spec_unhide(g, p)
        };
        unpurify_from(g1, t, c, g1.body[p].spec_prev(), (fuel - 1) as nat)
    } else {
        g
    }
}

/// The grid after `unpurify(p)` for a secondary cell `p` with color `c`.
pub open spec fn spec_unpurify<I, N>(g: GridView<I, N>, p: int) -> GridView<I, N> {
    let t = g.body[p].spec_top();
    let c = g.body[p].spec_color()->0;
    unpurify_from(g, t, c, g.body[t].spec_prev(), g.blen() as nat)
}

/// The grid after `commit(p, t)`: cover a primary item, purify a colored
/// secondary cell, do nothing for a spent one.
pub open spec fn spec_commit<I, N>(g: GridView<I, N>, p: int, t: int) -> GridView<I, N> {
    if g.headers[t].spec_is_primary() {
        spec_cover(g, t)
    } else if g.body[p].spec_color() is Some {
        spec_purify(g, p)
    } else {
        g
    }
}

/// The grid after `uncommit(p, t)`.
pub open spec fn spec_uncommit<I, N>(g: GridView<I, N>, p: int, t: int) -> GridView<I, N> {
    if g.headers[t].spec_is_primary() {
        spec_uncover(g, t)
    } else if g.body[p].spec_color() is Some {
        spec_unpurify(g, p)
    } else {
        g
    }
}

/// The forward horizontal walk of `cover_remaining_choices`: commit every
/// other cell of `p`'s subset.
pub open spec fn crc_from<I, N>(g: GridView<I, N>, p: int, q: int, fuel: nat) -> GridView<I, N>
    decreases fuel,
{
    if fuel == 0 || q == p {
        g
    } else if g.body[q].is_boundary() {
        crc_from(g, p, g.body[q].spec_first_for_prev(), (fuel - 1) as nat)
    } else if g.body[q].is_body_cell() {
        crc_from(spec_commit(g, q, g.body[q].spec_top()), p, q + 1, (fuel - 1) as nat)
    } else {
        g
    }
}

/// The grid after `cover_remaining_choices(p)`.
pub open spec fn spec_cover_remaining<I, N>(g: GridView<I, N>, p: int) -> GridView<I, N> {
    crc_from(g, p, p + 1, g.blen() as nat)
}

/// The backward horizontal walk of `uncover_remaining_choices`: uncommit
/// every other cell of `p`'s subset.
pub open spec fn urc_from<I, N>(g: GridView<I, N>, p: int, q: int, fuel: nat) -> GridView<I, N>
    decreases fuel,
{
    if fuel == 0 || q == p {
        g
    } else if g.body[q].is_boundary() {
        urc_from(g, p, g.body[q].spec_last_for_next(), (fuel - 1) as nat)
    } else if g.body[q].is_body_cell() {
        urc_from(spec_uncommit(g, q, g.body[q].spec_top()), p, q - 1, (fuel - 1) as nat)
    } else {
        g
    }
}

/// The grid after `uncover_remaining_choices(p)`.
pub open spec fn spec_uncover_remaining<I, N>(g: GridView<I, N>, p: int) -> GridView<I, N> {
    urc_from(g, p, p - 1, g.blen() as nat)
}

/// Inside a run, every position is a body cell and shares the run's bounds.
pub proof fn lemma_run_span<I, N>(g: GridView<I, N>, q: int, j: int)
    requires
        g.wf(),
        g.body_cell(q),
        g.run_start(q) <= j <= g.run_end(q),
    ensures
        g.body_cell(j),
        g.run_start(j) == g.run_start(q),
        g.run_end(j) == g.run_end(q),
    decreases (if j < q { q - j } else { j - q }),
{
    if j < q {
        assert(g.run_start(q) < q);
        assert(!g.body[q - 1].is_boundary());
        assert(g.run_start(q - 1) == g.run_start(q) && g.run_end(q - 1) == g.run_end(q)) by {
            g.lemma_run_step(q - 1);
        }
        assert(g.body_cell(q - 1)) by {
            assert(g.m() + 2 <= g.run_start(q));
            assert(!g.body[q - 1].is_header_cell());
        }
        lemma_run_span(g, q - 1, j);
    } else if j > q {
        assert(g.run_end(q) > q);
        assert(!g.body[q + 1].is_boundary());
        assert(g.run_start(q + 1) == g.run_start(q) && g.run_end(q + 1) == g.run_end(q)) by {
            g.lemma_run_step(q);
        }
        assert(g.body_cell(q + 1)) by {
            assert(!g.body[q + 1].is_header_cell());
        }
        lemma_run_span(g, q + 1, j);
    }
}


impl<I, N> Dlx<I, N> {
    /// Stitch the body cell at `q` out of its vertical ring (if its item is
    /// primary or its color alive) and decrement its item's size count.
    #[verifier::rlimit(100)]
    #[verifier::spinoff_prover]
    fn hide_cell(&mut self, q: usize)
        requires
            old(self)@.wf(),
            old(self)@.body_cell(q as int),
        ensures
            final(self)@.wf(),
            same_frame(old(self)@, final(self)@),
            final(self)@ == hide_step(old(self)@, q as int),
    {
        let ghost gc = self@;
        let tt = self.node(q).top();
        self.hide_links(q);
        let ghost g1 = self@;
        let sz = self.node(tt).len();
        self.set_node_size(tt, sz.wrapping_sub(1));
        proof {
            assert(self@ == hide_step(gc, q as int));
            assert(same_frame(gc, self@)) by {
                lemma_frame_trans(gc, g1, self@);
            }
        }
    }

    /// Stitch the body cell at `q` out from between its neighbors, if its
    /// item is primary or its color alive.
    #[verifier::rlimit(100)]
    #[verifier::spinoff_prover]
    fn hide_links(&mut self, q: usize)
        requires
            old(self)@.wf(),
            old(self)@.body_cell(q as int),
        ensures
            final(self)@.wf(),
            same_frame(old(self)@, final(self)@),
            final(self)@ == ({
                let g = old(self)@;
                let pq = g.body[q as int].spec_prev();
                let nq = g.body[q as int].spec_next();
                let t = g.body[q as int].spec_top();
                if g.headers[t].spec_is_primary() || g.body[q as int].spec_color() is Some {
                    g.with_next(pq, nq).with_prev(nq, pq)
                } else {
                    g
                }
            }),
    {
        let ghost gc = self@;
        let pq = self.node(q).prev();
        let nq = self.node(q).next();
        let tt = self.node(q).top();
        let col = self.node(q).color();
        proof {
            assert(gc.on_ring(tt as int, pq as int) && gc.on_ring(tt as int, nq as int));
            assert(1 <= tt <= gc.m());
        }
        let hp = self.header(tt).is_primary();
        if hp || col.is_some() {
            self.set_node_next(pq, nq);
            proof {
                assert(self@.on_ring(tt as int, nq as int));
                assert(self@.body[nq as int].is_normal());
                assert(self@.item_of(nq as int) == tt as int);
                assert(self@.on_ring(tt as int, pq as int));
            }
            self.set_node_prev(nq, pq);
        }
        proof {
            assert(same_frame(gc, self@));
        }
    }

    /// Stitch the body cell at `q` back into its vertical ring (if its item
    /// is primary or its color alive) and increment its item's size count;
    /// the exact inverse of `hide_cell(q)` on the state it produced.
    #[verifier::rlimit(100)]
    #[verifier::spinoff_prover]
    fn unhide_cell(&mut self, q: usize)
        requires
            old(self)@.wf(),
            old(self)@.body_cell(q as int),
        ensures
            final(self)@.wf(),
            same_frame(old(self)@, final(self)@),
            final(self)@ == unhide_step(old(self)@, q as int),
    {
        let ghost gc = self@;
        let tt = self.node(q).top();
        self.unhide_links(q);
        let ghost g1 = self@;
        let sz = self.node(tt).len();
        self.set_node_size(tt, sz.wrapping_add(1));
        proof {
            assert(self@ == unhide_step(gc, q as int));
            assert(same_frame(gc, self@)) by {
                lemma_frame_trans(gc, g1, self@);
            }
        }
    }

    /// Stitch the body cell at `q` back between its recorded neighbors, if
    /// its item is primary or its color alive.
    #[verifier::rlimit(100)]
    #[verifier::spinoff_prover]
    fn unhide_links(&mut self, q: usize)
        requires
            old(self)@.wf(),
            old(self)@.body_cell(q as int),
        ensures
            final(self)@.wf(),
            same_frame(old(self)@, final(self)@),
            final(self)@ == ({
                let g = old(self)@;
                let pq = g.body[q as int].spec_prev();
                let nq = g.body[q as int].spec_next();
                let t = g.body[q as int].spec_top();
                if g.headers[t].spec_is_primary() || g.body[q as int].spec_color() is Some {
                    g.with_next(pq, q as int).with_prev(nq, q as int)
                } else {
                    g
                }
            }),
    {
        let ghost gc = self@;
        let pq = self.node(q).prev();
        let nq = self.node(q).next();
        let tt = self.node(q).top();
        let col = self.node(q).color();
        proof {
            assert(gc.on_ring(tt as int, pq as int) && gc.on_ring(tt as int, nq as int));
            assert(1 <= tt <= gc.m());
        }
        let hp = self.header(tt).is_primary();
        if hp || col.is_some() {
            self.set_node_next(pq, q);
            proof {
                assert(self@.on_ring(tt as int, q as int)) by {
                    assert(gc.on_ring(tt as int, q as int));
                    assert(self@.body[q as int].spec_top() == gc.body[q as int].spec_top());
                }
                assert(self@.body[nq as int].is_normal());
                assert(self@.item_of(nq as int) == tt as int);
            }
            self.set_node_prev(nq, q);
        }
        proof {
            assert(same_frame(gc, self@));
        }
    }
}

impl<I, N> Dlx<I, N> {
    /// Remove from their vertical rings all cells of the subset containing
    /// `idx`, except `idx` itself.
    #[verifier::rlimit(100)]
    pub(crate) fn hide_subset(&mut self, idx: usize)
        requires
            old(self)@.wf(),
            old(self)@.body_cell(idx as int),
        ensures
            final(self)@.wf(),
            same_frame(old(self)@, final(self)@),
            final(self)@ == spec_hide(old(self)@, idx as int),
    {
        let ghost g0 = self@;
        proof {
            assert(g0.body_cell(idx as int));
        }
        let mut fuel = self.body.len();
        let mut q = idx + 1;
        while q != idx && fuel > 0
            invariant
                self@.wf(),
                self@.body_cell(idx as int),
                ({
                    let s = self@.run_start(idx as int);
                    let e = self@.run_end(idx as int);
                    (idx < q <= e + 1) || (s <= q && q <= idx)
                }),
                same_frame(g0, self@),
                spec_hide(g0, idx as int) == hide_from(self@, idx as int, q as int, fuel as nat),
            decreases fuel,
        {
            let ghost gc = self@;
            let ghost s = gc.run_start(idx as int);
            let ghost e = gc.run_end(idx as int);
            proof {
                if q != e + 1 {
                    lemma_run_span(gc, idx as int, q as int);
                }
            }
            let is_b = self.node(q).is_boundary_cell();
            if is_b {
                proof {
                    assert(q == e + 1);
                }
                q = self.node(q).first_for_prev();
                proof {
                    assert(q == s);
                }
            } else {
                proof {
                    assert(gc.body[e + 1].is_boundary());
                    assert(q as int != e + 1);
                    assert(gc.body_cell(q as int));
                    assert(q as int <= e && e + 1 < gc.blen());
                }
                self.hide_cell(q);
                proof {
                    lemma_frame_trans(g0, gc, self@);
                    assert(self@.run_start(idx as int) == s && self@.run_end(idx as int) == e) by {
                        GridView::lemma_run_stable(gc, self@, idx as int);
                    }
                    assert(same_kind(gc.body[idx as int], self@.body[idx as int]));
                    assert(self@.body_cell(idx as int));
                }
                let bl = self.body.len();
                proof {
                    assert(q < bl);
                }
                q = q + 1;
            }
            fuel = fuel - 1;
            proof {
                assert(hide_from(gc, idx as int, (if is_b { e + 1 } else { q - 1 }) as int, (fuel
                    + 1) as nat) == hide_from(self@, idx as int, q as int, fuel as nat));
            }
        }
    }

    /// Restore all cells of the subset containing `idx` to their vertical
    /// rings; the exact inverse of `hide(idx)` run on the state `hide(idx)`
    /// left behind.
    #[verifier::rlimit(100)]
    pub(crate) fn unhide_subset(&mut self, idx: usize)
        requires
            old(self)@.wf(),
            old(self)@.body_cell(idx as int),
        ensures
            final(self)@.wf(),
            same_frame(old(self)@, final(self)@),
            final(self)@ == spec_unhide(old(self)@, idx as int),
    {
        let ghost g0 = self@;
        proof {
            assert(idx as int >= g0.m() + 2 >= 2);
        }
        let mut fuel = self.body.len();
        let mut q = idx - 1;
        while q != idx && fuel > 0
            invariant
                self@.wf(),
                self@.body_cell(idx as int),
                ({
                    let s = self@.run_start(idx as int);
                    let e = self@.run_end(idx as int);
                    (s - 1 <= q && q <= idx) || (idx < q <= e)
                }),
                same_frame(g0, self@),
                spec_unhide(g0, idx as int) == unhide_from(
                    self@,
                    idx as int,
                    q as int,
                    fuel as nat,
                ),
            decreases fuel,
        {
            let ghost gc = self@;
            let ghost s = gc.run_start(idx as int);
            let ghost e = gc.run_end(idx as int);
            proof {
                if q != s - 1 {
                    lemma_run_span(gc, idx as int, q as int);
                }
                assert(s >= gc.m() + 2 >= 2);
            }
            let is_b = self.node(q).is_boundary_cell();
            if is_b {
                proof {
                    assert(q == s - 1);
                }
                q = self.node(q).last_for_next();
                proof {
                    assert(q == e);
                }
            } else {
                proof {
                    assert(gc.body[s - 1].is_boundary());
                    assert(q as int != s - 1);
                    assert(gc.body_cell(q as int));
                    assert(q as int >= s >= 2);
                }
                self.unhide_cell(q);
                proof {
                    lemma_frame_trans(g0, gc, self@);
                    assert(self@.run_start(idx as int) == s && self@.run_end(idx as int) == e) by {
                        GridView::lemma_run_stable(gc, self@, idx as int);
                    }
                    assert(same_kind(gc.body[idx as int], self@.body[idx as int]));
                    assert(self@.body_cell(idx as int));
                }
                q = q - 1;
            }
            fuel = fuel - 1;
            proof {
                assert(unhide_from(gc, idx as int, (if is_b { s - 1 } else { q + 1 }) as int, (
                fuel + 1) as nat) == unhide_from(self@, idx as int, q as int, fuel as nat));
            }
        }
    }

    /// Remove every subset that covers the primary item `idx`, then unlink
    /// the item from the active primary list.
    pub(crate) fn cover(&mut self, idx: usize)
        requires
            old(self)@.wf(),
            1 <= idx <= old(self)@.num_primary,
        ensures
            final(self)@.wf(),
            same_frame(old(self)@, final(self)@),
            final(self)@ == spec_cover(old(self)@, idx as int),
    {
        let ghost g0 = self@;
        let mut fuel = self.body.len();
        let mut p = self.node(idx).next();
        while p != idx && fuel > 0
            invariant
                self@.wf(),
                self@.num_primary == g0.num_primary,
                1 <= idx <= self@.num_primary,
                self@.on_ring(idx as int, p as int),
                same_frame(g0, self@),
                cover_from(g0, idx as int, g0.body[idx as int].spec_next(), g0.blen() as nat)
                    == cover_from(self@, idx as int, p as int, fuel as nat),
            decreases fuel,
        {
            let ghost gc = self@;
            proof {
                assert(gc.body_cell(p as int));
            }
            self.hide_subset(p);
            proof {
                lemma_frame_trans(g0, gc, self@);
                assert(same_kind(gc.body[p as int], self@.body[p as int]));
                assert(self@.body_cell(p as int));
                assert(self@.body[p as int].spec_top() == idx as int);
            }
            p = self.node(p).next();
            fuel = fuel - 1;
            proof {
                assert(self@.on_ring(idx as int, p as int));
            }
        }
        proof {
            assert(self@ == cover_from(
                g0,
                idx as int,
                g0.body[idx as int].spec_next(),
                g0.blen() as nat,
            ));
        }
        let hp = self.header(idx).prev;
        let hn = self.header(idx).next;
        self.set_header_next(hp, hn);
        self.set_header_prev(hn, hp);
        proof {
            assert(self@ == spec_cover(g0, idx as int));
        }
    }

    /// Relink the primary item `idx` into the active primary list and restore
    /// every subset that covers it; the exact inverse of `cover(idx)` run on
    /// the state `cover(idx)` left behind.
    pub(crate) fn uncover(&mut self, idx: usize)
        requires
            old(self)@.wf(),
            1 <= idx <= old(self)@.num_primary,
        ensures
            final(self)@.wf(),
            same_frame(old(self)@, final(self)@),
            final(self)@ == spec_uncover(old(self)@, idx as int),
    {
        let ghost g0 = self@;
        let hp = self.header(idx).prev;
        let hn = self.header(idx).next;
        self.set_header_next(hp, idx);
        self.set_header_prev(hn, idx);
        let ghost g1 = self@;
        let mut fuel = self.body.len();
        let mut p = self.node(idx).prev();
        while p != idx && fuel > 0
            invariant
                self@.wf(),
                self@.on_ring(idx as int, p as int),
                1 <= idx <= self@.m(),
                same_frame(g1, self@),
                uncover_from(g1, idx as int, g1.body[idx as int].spec_prev(), g1.blen() as nat)
                    == uncover_from(self@, idx as int, p as int, fuel as nat),
            decreases fuel,
        {
            let ghost gc = self@;
            proof {
                assert(gc.body_cell(p as int));
            }
            self.unhide_subset(p);
            proof {
                lemma_frame_trans(g1, gc, self@);
                assert(same_kind(gc.body[p as int], self@.body[p as int]));
                assert(self@.body_cell(p as int));
                assert(self@.body[p as int].spec_top() == idx as int);
            }
            p = self.node(p).prev();
            fuel = fuel - 1;
            proof {
                assert(self@.on_ring(idx as int, p as int));
            }
        }
        proof {
            assert(self@ == spec_uncover(g0, idx as int));
        }
    }

    /// Fix the color of the secondary cell at `idx`: spend matching cells on
    /// its item's ring, hide every conflicting subset.
    pub(crate) fn purify(&mut self, idx: usize)
        requires
            old(self)@.wf(),
            old(self)@.body_cell(idx as int),
            old(self)@.body[idx as int].spec_color() is Some,
        ensures
            final(self)@.wf(),
            same_frame(old(self)@, final(self)@),
            final(self)@ == spec_purify(old(self)@, idx as int),
    {
        let ghost g0 = self@;
        let color = match self.node(idx).color() {
            Some(c) => c,
            None => vstd::pervasive::unreached(),
        };
        let top = self.node(idx).top();
        proof {
            assert(1 <= top <= g0.m());
        }
        let mut fuel = self.body.len();
        let mut p = self.node(top).next();
        while p != top && fuel > 0
            invariant
                self@.wf(),
                1 <= top <= self@.m(),
                self@.on_ring(top as int, p as int),
                same_frame(g0, self@),
                purify_from(g0, top as int, color, g0.body[top as int].spec_next(), g0.blen() as nat)
                    == purify_from(self@, top as int, color, p as int, fuel as nat),
            decreases fuel,
        {
            let ghost gc = self@;
            proof {
                assert(gc.body_cell(p as int));
            }
            let pc = self.node(p).color();
            let matches_color = match pc {
                Some(c2) => c2 == color,
                None => false,
            };
            if matches_color {
                self.set_node_color(p, None);
            } else {
                self.hide_subset(p);
            }
            proof {
                assert(same_frame(gc, self@));
                lemma_frame_trans(g0, gc, self@);
                assert(same_kind(gc.body[p as int], self@.body[p as int]));
                assert(self@.body_cell(p as int));
                assert(self@.body[p as int].spec_top() == top as int);
            }
            p = self.node(p).next();
            fuel = fuel - 1;
            proof {
                assert(self@.on_ring(top as int, p as int));
            }
        }
        proof {
            assert(self@ == spec_purify(g0, idx as int));
        }
    }

    /// Release the color fixed by `purify(idx)`: restore spent cells' color,
    /// unhide conflicting subsets; the exact inverse of `purify(idx)` run on
    /// the state it left behind.
    pub(crate) fn unpurify(&mut self, idx: usize)
        requires
            old(self)@.wf(),
            old(self)@.body_cell(idx as int),
            old(self)@.body[idx as int].spec_color() is Some,
        ensures
            final(self)@.wf(),
            same_frame(old(self)@, final(self)@),
            final(self)@ == spec_unpurify(old(self)@, idx as int),
    {
        let ghost g0 = self@;
        let color = match self.node(idx).color() {
            Some(c) => c,
            None => vstd::pervasive::unreached(),
        };
        let top = self.node(idx).top();
        let mut fuel = self.body.len();
        let mut p = self.node(top).prev();
        while p != top && fuel > 0
            invariant
                self@.wf(),
                1 <= top <= self@.m(),
                self@.on_ring(top as int, p as int),
                same_frame(g0, self@),
                unpurify_from(
                    g0,
                    top as int,
                    color,
                    g0.body[top as int].spec_prev(),
                    g0.blen() as nat,
                ) == unpurify_from(self@, top as int, color, p as int, fuel as nat),
            decreases fuel,
        {
            let ghost gc = self@;
            proof {
                assert(gc.body_cell(p as int));
            }
            let pc = self.node(p).color();
            if pc.is_none() {
                self.set_node_color(p, Some(color));
            } else {
                self.unhide_subset(p);
            }
            proof {
                assert(same_frame(gc, self@));
                lemma_frame_trans(g0, gc, self@);
                assert(same_kind(gc.body[p as int], self@.body[p as int]));
                assert(self@.body_cell(p as int));
                assert(self@.body[p as int].spec_top() == top as int);
            }
            p = self.node(p).prev();
            fuel = fuel - 1;
            proof {
                assert(self@.on_ring(top as int, p as int));
            }
        }
        proof {
            assert(self@ == spec_unpurify(g0, idx as int));
        }
    }

    /// Commit the implied constraint of body cell `idx` on item `top`: cover
    /// a primary item, purify a colored secondary cell, skip a spent one.
    pub(crate) fn commit(&mut self, idx: usize, top: usize)
        requires
            old(self)@.wf(),
            old(self)@.body_cell(idx as int),
            old(self)@.body[idx as int].spec_top() == top as int,
        ensures
            final(self)@.wf(),
            same_frame(old(self)@, final(self)@),
            final(self)@ == spec_commit(old(self)@, idx as int, top as int),
    {
        proof {
            assert(1 <= top <= old(self)@.m());
        }
        if self.header(top).is_primary() {
            proof {
                assert(top <= self@.num_primary);
            }
            self.cover(top);
        } else if self.node(idx).color().is_some() {
            self.purify(idx);
        }
    }

    /// Undo `commit(idx, top)` on the state it left behind.
    pub(crate) fn uncommit(&mut self, idx: usize, top: usize)
        requires
            old(self)@.wf(),
            old(self)@.body_cell(idx as int),
            old(self)@.body[idx as int].spec_top() == top as int,
        ensures
            final(self)@.wf(),
            same_frame(old(self)@, final(self)@),
            final(self)@ == spec_uncommit(old(self)@, idx as int, top as int),
    {
        proof {
            assert(1 <= top <= old(self)@.m());
        }
        if self.header(top).is_primary() {
            proof {
                assert(top <= self@.num_primary);
            }
            self.uncover(top);
        } else if self.node(idx).color().is_some() {
            self.unpurify(idx);
        }
    }

    /// Commit every other constraint of the subset containing `idx`.
    pub(crate) fn cover_remaining_choices(&mut self, idx: usize)
        requires
            old(self)@.wf(),
            old(self)@.body_cell(idx as int),
        ensures
            final(self)@.wf(),
            same_frame(old(self)@, final(self)@),
            final(self)@ == spec_cover_remaining(old(self)@, idx as int),
    {
        let ghost g0 = self@;
        let mut fuel = self.body.len();
        let mut q = idx + 1;
        while q != idx && fuel > 0
            invariant
                self@.wf(),
                self@.body_cell(idx as int),
                ({
                    let s = self@.run_start(idx as int);
                    let e = self@.run_end(idx as int);
                    (idx < q <= e + 1) || (s <= q && q <= idx)
                }),
                same_frame(g0, self@),
                spec_cover_remaining(g0, idx as int) == crc_from(
                    self@,
                    idx as int,
                    q as int,
                    fuel as nat,
                ),
            decreases fuel,
        {
            let ghost gc = self@;
            let ghost s = gc.run_start(idx as int);
            let ghost e = gc.run_end(idx as int);
            proof {
                if q != e + 1 {
                    lemma_run_span(gc, idx as int, q as int);
                }
            }
            let is_b = self.node(q).is_boundary_cell();
            if is_b {
                proof {
                    assert(q == e + 1);
                }
                q = self.node(q).first_for_prev();
                proof {
                    assert(q == s);
                }
            } else {
                proof {
                    assert(gc.body[e + 1].is_boundary());
                    assert(q as int != e + 1);
                    assert(gc.body_cell(q as int));
                    assert(q as int <= e && e + 1 < gc.blen());
                }
                let tt = self.node(q).top();
                self.commit(q, tt);
                proof {
                    lemma_frame_trans(g0, gc, self@);
                    assert(self@.run_start(idx as int) == s && self@.run_end(idx as int) == e) by {
                        GridView::lemma_run_stable(gc, self@, idx as int);
                    }
                    assert(same_kind(gc.body[idx as int], self@.body[idx as int]));
                    assert(same_kind(gc.body[q as int], self@.body[q as int]));
                    assert(self@.body_cell(idx as int));
                    assert(self@.body_cell(q as int));
                }
                let bl = self.body.len();
                proof {
                    assert(q < bl);
                }
                q = q + 1;
            }
            fuel = fuel - 1;
        }
    }

    /// Undo `cover_remaining_choices(idx)` on the state it left behind.
    pub(crate) fn uncover_remaining_choices(&mut self, idx: usize)
        requires
            old(self)@.wf(),
            old(self)@.body_cell(idx as int),
        ensures
            final(self)@.wf(),
            same_frame(old(self)@, final(self)@),
            final(self)@ == spec_uncover_remaining(old(self)@, idx as int),
    {
        let ghost g0 = self@;
        proof {
            assert(idx as int >= g0.m() + 2 >= 2);
        }
        let mut fuel = self.body.len();
        let mut q = idx - 1;
        while q != idx && fuel > 0
            invariant
                self@.wf(),
                self@.body_cell(idx as int),
                ({
                    let s = self@.run_start(idx as int);
                    let e = self@.run_end(idx as int);
                    (s - 1 <= q && q <= idx) || (idx < q <= e)
                }),
                same_frame(g0, self@),
                spec_uncover_remaining(g0, idx as int) == urc_from(
                    self@,
                    idx as int,
                    q as int,
                    fuel as nat,
                ),
            decreases fuel,
        {
            let ghost gc = self@;
            let ghost s = gc.run_start(idx as int);
            let ghost e = gc.run_end(idx as int);
            proof {
                if q != s - 1 {
                    lemma_run_span(gc, idx as int, q as int);
                }
                assert(s >= gc.m() + 2 >= 2);
            }
            let is_b = self.node(q).is_boundary_cell();
            if is_b {
                proof {
                    assert(q == s - 1);
                }
                q = self.node(q).last_for_next();
                proof {
                    assert(q == e);
                }
            } else {
                proof {
                    assert(gc.body[s - 1].is_boundary());
                    assert(q as int != s - 1);
                    assert(gc.body_cell(q as int));
                    assert(q as int >= s >= 2);
                }
                let tt = self.node(q).top();
                self.uncommit(q, tt);
                proof {
                    lemma_frame_trans(g0, gc, self@);
                    assert(self@.run_start(idx as int) == s && self@.run_end(idx as int) == e) by {
                        GridView::lemma_run_stable(gc, self@, idx as int);
                    }
                    assert(same_kind(gc.body[idx as int], self@.body[idx as int]));
                    assert(same_kind(gc.body[q as int], self@.body[q as int]));
                    assert(self@.body_cell(idx as int));
                    assert(self@.body_cell(q as int));
                }
                q = q - 1;
            }
            fuel = fuel - 1;
        }
    }
}

} // verus!
