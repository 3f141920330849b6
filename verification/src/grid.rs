//! The grid: two parallel arrays (item headers and node cells) encoding the
//! sparse incidence between items and subsets as interleaved circular
//! doubly-linked lists, together with its well-formedness invariant.

use vstd::prelude::*;
use vstd::pervasive::VecAdditionalExecFns;

use crate::defs::{Header, HeaderType, Node, NodeType};

verus! {

/// Mathematical model of a grid: the header sequence, the node-cell sequence
/// and the number of primary items.
pub struct GridView<I, N> {
    pub headers: Seq<Header<I>>,
    pub body: Seq<Node<N>>,
    pub num_primary: int,
}

/// Two cells of the same kind; boundary cells must be identical. Search-time
/// mutations only rewrite links, sizes and colors of normal cells, so every
/// state the search reaches is kind-identical to the freshly built grid.
pub open spec fn same_kind<N>(a: Node<N>, b: Node<N>) -> bool {
    &&& a.is_boundary() <==> b.is_boundary()
    &&& a.is_header_cell() <==> b.is_header_cell()
    &&& a.is_body_cell() <==> b.is_body_cell()
    &&& a.is_boundary() ==> b == a
}

impl<I, N> GridView<I, N> {
    /// Number of items (primary and secondary).
    pub open spec fn m(&self) -> int {
        self.headers.len() - 2
    }

    /// Length of the node-cell array.
    pub open spec fn blen(&self) -> int {
        self.body.len() as int
    }

    /// `j` holds a body cell (one (subset, constraint) pair).
    pub open spec fn body_cell(&self, j: int) -> bool {
        self.m() + 2 <= j < self.blen() && self.body[j].is_body_cell()
    }

    /// `k` may sit on item `t`'s vertical ring: the header cell itself or a
    /// body cell of that item.
    pub open spec fn on_ring(&self, t: int, k: int) -> bool {
        k == t || (self.body_cell(k) && self.body[k].spec_top() == t)
    }

    /// The item whose vertical ring the normal cell at `j` belongs to.
    pub open spec fn item_of(&self, j: int) -> int {
        if self.body[j].is_header_cell() {
            j
        } else {
            self.body[j].spec_top()
        }
    }

    /// First index of the maximal run of non-boundary cells containing `q`.
    pub open spec fn run_start(&self, q: int) -> int
        decreases q,
    {
        if q <= 0 {
            0
        } else if self.body[q - 1].is_boundary() {
            q
        } else {
            self.run_start(q - 1)
        }
    }

    /// Last index of the maximal run of non-boundary cells containing `q`.
    pub open spec fn run_end(&self, q: int) -> int
        decreases self.blen() - q,
    {
        if q >= self.blen() - 1 {
            q
        } else if self.body[q + 1].is_boundary() {
            q
        } else {
            self.run_end(q + 1)
        }
    }

    pub open spec fn wf_counts(&self) -> bool {
        &&& self.headers.len() >= 2
        &&& 0 <= self.num_primary <= self.m()
        &&& self.blen() >= self.m() + 2
    }

    /// Kind facts that hold even while the last subset's run is still being
    /// appended.
    pub open spec fn wf_kinds_open(&self) -> bool {
        &&& self.body[0].is_boundary()
        &&& forall|i: int| 1 <= i <= self.m() ==> (#[trigger] self.body[i]).is_header_cell()
        &&& self.body[self.m() + 1].is_boundary()
        &&& forall|j: int|
            self.m() + 2 <= j < self.blen() ==> !(#[trigger] self.body[j]).is_header_cell()
        &&& forall|j: int|
            self.m() + 2 <= j < self.blen() && (#[trigger] self.body[j]).is_boundary()
                ==> self.body[j].spec_name() is Some
    }

    pub open spec fn wf_kinds(&self) -> bool {
        &&& self.wf_kinds_open()
        &&& self.body[self.blen() - 1].is_boundary()
    }

    /// Every normal cell's vertical links stay on its own item's ring.
    pub open spec fn wf_links(&self) -> bool {
        forall|j: int|
            0 <= j < self.blen() && (#[trigger] self.body[j]).is_normal() ==> {
                &&& 1 <= self.item_of(j) <= self.m()
                &&& self.on_ring(self.item_of(j), self.body[j].spec_prev())
                &&& self.on_ring(self.item_of(j), self.body[j].spec_next())
            }
    }

    /// The horizontal item lists: primary headers (and their sentinel, index
    /// 0) link only among themselves, secondary headers likewise.
    pub open spec fn wf_headers(&self) -> bool {
        forall|i: int|
            0 <= i < self.headers.len() ==> {
                &&& ((#[trigger] self.headers[i]).spec_is_primary() <==> i <= self.num_primary)
                &&& (i <= self.num_primary ==> self.headers[i].prev <= self.num_primary
                    && self.headers[i].next <= self.num_primary)
                &&& (i > self.num_primary ==> self.num_primary < self.headers[i].prev
                    < self.headers.len() && self.num_primary < self.headers[i].next
                    < self.headers.len())
            }
    }

    /// Each subset's run of body cells is fenced by boundary cells whose
    /// `first_for_prev` / `last_for_next` fields point back into the run.
    pub open spec fn wf_layout(&self) -> bool {
        forall|q: int| #[trigger] self.body_cell(q) ==> {
            let s = self.run_start(q);
            let e = self.run_end(q);
            &&& self.m() + 2 <= s <= q
            &&& q <= e < self.blen() - 1
            &&& self.body[e + 1].is_boundary()
            &&& self.body[e + 1].spec_first_for_prev() == s
            &&& self.body[s - 1].is_boundary()
            &&& self.body[s - 1].spec_last_for_next() == e
        }
    }

    /// Every item header carries an identifier; only the two sentinels do
    /// not.
    pub open spec fn wf_items(&self) -> bool {
        forall|i: int| 1 <= i <= self.m() ==> (#[trigger] self.headers[i]).item is Some
    }

    pub open spec fn wf(&self) -> bool {
        &&& self.wf_counts()
        &&& self.wf_kinds()
        &&& self.wf_links()
        &&& self.wf_headers()
        &&& self.wf_items()
        &&& self.wf_layout()
    }

    /// The body array after replacing cell `j`'s `next` link.
    pub open spec fn with_next(&self, j: int, v: int) -> Self {
        GridView {
            body: self.body.update(
                j,
                Node::Normal {
                    prev: self.body[j].spec_prev() as usize,
                    next: v as usize,
                    node_type: self.body[j].spec_node_type(),
                },
            ),
            ..*self
        }
    }

    /// The body array after replacing cell `j`'s `prev` link.
    pub open spec fn with_prev(&self, j: int, v: int) -> Self {
        GridView {
            body: self.body.update(
                j,
                Node::Normal {
                    prev: v as usize,
                    next: self.body[j].spec_next() as usize,
                    node_type: self.body[j].spec_node_type(),
                },
            ),
            ..*self
        }
    }

    /// The body array after replacing header cell `j`'s ring size.
    pub open spec fn with_size(&self, j: int, s: usize) -> Self {
        GridView {
            body: self.body.update(
                j,
                Node::Normal {
                    prev: self.body[j].spec_prev() as usize,
                    next: self.body[j].spec_next() as usize,
                    node_type: NodeType::Header { size: s },
                },
            ),
            ..*self
        }
    }

    /// The body array after replacing body cell `j`'s color.
    pub open spec fn with_color(&self, j: int, c: Option<u32>) -> Self {
        GridView {
            body: self.body.update(
                j,
                Node::Normal {
                    prev: self.body[j].spec_prev() as usize,
                    next: self.body[j].spec_next() as usize,
                    node_type: NodeType::Body {
                        color: c,
                        top: self.body[j].spec_top() as usize,
                    },
                },
            ),
            ..*self
        }
    }

    /// The header array after replacing header `i`'s `next` link.
    pub open spec fn with_header_next(&self, i: int, v: int) -> Self {
        GridView {
            headers: self.headers.update(
                i,
                Header {
                    next: v as usize,
                    ..self.headers[i]
                },
            ),
            ..*self
        }
    }

    /// The header array after replacing header `i`'s `prev` link.
    pub open spec fn with_header_prev(&self, i: int, v: int) -> Self {
        GridView {
            headers: self.headers.update(
                i,
                Header {
                    prev: v as usize,
                    ..self.headers[i]
                },
            ),
            ..*self
        }
    }

    /// Kind-identical bodies give the same run boundaries.
    pub proof fn lemma_run_stable(g1: Self, g2: Self, q: int)
        requires
            g1.blen() == g2.blen(),
            forall|j: int| 0 <= j < g1.blen() ==> same_kind(#[trigger] g1.body[j], g2.body[j]),
            0 <= q < g1.blen(),
        ensures
            g1.run_start(q) == g2.run_start(q),
            g1.run_end(q) == g2.run_end(q),
    {
        Self::lemma_run_stable_start(g1, g2, q);
        Self::lemma_run_stable_end(g1, g2, q);
    }

    pub proof fn lemma_run_stable_start(g1: Self, g2: Self, q: int)
        requires
            g1.blen() == g2.blen(),
            forall|j: int| 0 <= j < g1.blen() ==> same_kind(#[trigger] g1.body[j], g2.body[j]),
            0 <= q < g1.blen(),
        ensures
            g1.run_start(q) == g2.run_start(q),
        decreases q,
    {
        if q > 0 && !g1.body[q - 1].is_boundary() {
            Self::lemma_run_stable_start(g1, g2, q - 1);
        }
    }

    pub proof fn lemma_run_stable_end(g1: Self, g2: Self, q: int)
        requires
            g1.blen() == g2.blen(),
            forall|j: int| 0 <= j < g1.blen() ==> same_kind(#[trigger] g1.body[j], g2.body[j]),
            0 <= q < g1.blen(),
        ensures
            g1.run_end(q) == g2.run_end(q),
        decreases g1.blen() - q,
    {
        if q < g1.blen() - 1 && !g1.body[q + 1].is_boundary() {
            Self::lemma_run_stable_end(g1, g2, q + 1);
        }
    }

    /// Kind-identical bodies (with equal header arrays and counts) carry the
    /// layout invariant across.
    pub proof fn lemma_layout_stable(g1: Self, g2: Self)
        requires
            g1.blen() == g2.blen(),
            g1.headers.len() == g2.headers.len(),
            forall|j: int| 0 <= j < g1.blen() ==> same_kind(#[trigger] g1.body[j], g2.body[j]),
            g1.wf_counts(),
            g1.wf_layout(),
        ensures
            g2.wf_layout(),
    {
        assert forall|q: int| #[trigger] g2.body_cell(q) implies {
            let s = g2.run_start(q);
            let e = g2.run_end(q);
            &&& g2.m() + 2 <= s <= q
            &&& q <= e < g2.blen() - 1
            &&& g2.body[e + 1].is_boundary()
            &&& g2.body[e + 1].spec_first_for_prev() == s
            &&& g2.body[s - 1].is_boundary()
            &&& g2.body[s - 1].spec_last_for_next() == e
        } by {
            assert(same_kind(g1.body[q], g2.body[q]));
            assert(g1.body_cell(q));
            Self::lemma_run_stable(g1, g2, q);
            let s = g1.run_start(q);
            let e = g1.run_end(q);
            assert(g1.m() + 2 <= s <= q && q <= e < g1.blen() - 1);
            assert(same_kind(g1.body[e + 1], g2.body[e + 1]));
            assert(same_kind(g1.body[s - 1], g2.body[s - 1]));
        }
    }

    /// Run boundaries of any two cells of one run agree: `run_start` and
    /// `run_end` are constant on a run of non-boundary cells.
    pub proof fn lemma_run_step(&self, q: int)
        requires
            0 <= q < self.blen() - 1,
            !self.body[q].is_boundary(),
            !self.body[q + 1].is_boundary(),
        ensures
            self.run_start(q + 1) == self.run_start(q),
            self.run_end(q + 1) == self.run_end(q),
    {
    }

    /// Replacing one normal cell by a normal cell of the same kind, same item
    /// and with links that stay on that item's ring preserves the invariant.
    pub proof fn lemma_update_wf(g: Self, g2: Self, j: int)
        requires
            g.wf(),
            0 <= j < g.blen(),
            g.body[j].is_normal(),
            g2.headers == g.headers,
            g2.num_primary == g.num_primary,
            g2.body == g.body.update(j, g2.body[j]),
            same_kind(g.body[j], g2.body[j]),
            g2.body[j].is_body_cell() ==> g2.body[j].spec_top() == g.body[j].spec_top(),
            g.on_ring(g.item_of(j), g2.body[j].spec_prev()),
            g.on_ring(g.item_of(j), g2.body[j].spec_next()),
        ensures
            g2.wf(),
    {
        assert(g2.blen() == g.blen());
        assert forall|k: int| 0 <= k < g.blen() implies same_kind(
            #[trigger] g.body[k],
            g2.body[k],
        ) by {}
        assert(g2.wf_kinds()) by {
            assert(g2.body[0].is_boundary());
            assert(g2.body[g2.m() + 1].is_boundary());
            assert(g2.body[g2.blen() - 1].is_boundary());
        }
        assert forall|k: int|
            0 <= k < g2.blen() && (#[trigger] g2.body[k]).is_normal() implies {
            &&& 1 <= g2.item_of(k) <= g2.m()
            &&& g2.on_ring(g2.item_of(k), g2.body[k].spec_prev())
            &&& g2.on_ring(g2.item_of(k), g2.body[k].spec_next())
        } by {
            assert(g.body[k].is_normal());
            assert(g2.item_of(k) == g.item_of(k));
            let t = g.item_of(k);
            let pv = g2.body[k].spec_prev();
            let nx = g2.body[k].spec_next();
            assert(g.on_ring(t, pv) && g.on_ring(t, nx));
            assert forall|x: int| g.on_ring(t, x) implies g2.on_ring(t, x) by {
                if x != t {
                    assert(same_kind(g.body[x], g2.body[x]));
                }
            }
        }
        Self::lemma_layout_stable(g, g2);
    }
}

/// What every search-time mutation leaves untouched: the array lengths, the
/// primary count, every cell's kind (boundary cells byte for byte) and every
/// body cell's item.
pub open spec fn same_frame<I, N>(g1: GridView<I, N>, g2: GridView<I, N>) -> bool {
    &&& g2.blen() == g1.blen()
    &&& g2.headers.len() == g1.headers.len()
    &&& g2.num_primary == g1.num_primary
    &&& forall|j: int| 0 <= j < g1.blen() ==> same_kind(#[trigger] g1.body[j], g2.body[j])
    &&& forall|j: int|
        0 <= j < g1.blen() && (#[trigger] g1.body[j]).is_body_cell() ==> g2.body[j].spec_top()
            == g1.body[j].spec_top()
}

pub proof fn lemma_frame_trans<I, N>(a: GridView<I, N>, b: GridView<I, N>, c: GridView<I, N>)
    requires
        same_frame(a, b),
        same_frame(b, c),
    ensures
        same_frame(a, c),
{
    assert forall|j: int| 0 <= j < a.blen() implies same_kind(#[trigger] a.body[j], c.body[j])
        && (a.body[j].is_body_cell() ==> c.body[j].spec_top() == a.body[j].spec_top()) by {
        assert(same_kind(a.body[j], b.body[j]));
        assert(same_kind(b.body[j], c.body[j]));
    }
}

/// The grid. Owns the header and node-cell arrays; primitives mutate links
/// reversibly during search and restore them on backtracking.
#[derive(Debug)]
pub struct Dlx<I, N> {
    pub num_primary_items: usize,
    pub headers: Vec<Header<I>>,
    pub body: Vec<Node<N>>,
}

impl<I, N> View for Dlx<I, N> {
    type V = GridView<I, N>;

    open spec fn view(&self) -> GridView<I, N> {
        GridView {
            headers: self.headers@,
            body: self.body@,
            num_primary: self.num_primary_items as int,
        }
    }
}

impl<I, N> Dlx<I, N> {
    pub fn header(&self, idx: usize) -> (r: &Header<I>)
        requires
            idx < self@.headers.len(),
        ensures
            *r == self@.headers[idx as int],
    {
        &self.headers[idx]
    }

    pub fn node(&self, idx: usize) -> (r: &Node<N>)
        requires
            idx < self@.blen(),
        ensures
            *r == self@.body[idx as int],
    {
        &self.body[idx]
    }

    pub fn num_items(&self) -> (r: usize)
        ensures
            r == self@.headers.len(),
    {
        self.headers.len()
    }

    pub fn body_len(&self) -> (r: usize)
        ensures
            r == self@.blen(),
    {
        self.body.len()
    }

    /// Rewrite the `next` link of the normal cell at `idx`; the new target
    /// must lie on the same item's ring.
    pub(crate) fn set_node_next(&mut self, idx: usize, v: usize)
        requires
            old(self)@.wf(),
            idx < old(self)@.blen(),
            old(self)@.body[idx as int].is_normal(),
            old(self)@.on_ring(old(self)@.item_of(idx as int), v as int),
        ensures
            final(self)@ == old(self)@.with_next(idx as int, v as int),
            final(self)@.wf(),
    {
        let ghost g = self@;
        let pv = self.body[idx].prev();
        let t = self.body[idx].ty();
        self.body.set(idx, Node::Normal { prev: pv, next: v, node_type: t });
        proof {
            assert(self@.body == g.body.update(idx as int, self@.body[idx as int]));
            assert(self@ == g.with_next(idx as int, v as int));
            GridView::lemma_update_wf(g, self@, idx as int);
        }
    }

    /// Rewrite the `prev` link of the normal cell at `idx`; the new target
    /// must lie on the same item's ring.
    pub(crate) fn set_node_prev(&mut self, idx: usize, v: usize)
        requires
            old(self)@.wf(),
            idx < old(self)@.blen(),
            old(self)@.body[idx as int].is_normal(),
            old(self)@.on_ring(old(self)@.item_of(idx as int), v as int),
        ensures
            final(self)@ == old(self)@.with_prev(idx as int, v as int),
            final(self)@.wf(),
    {
        let ghost g = self@;
        let nx = self.body[idx].next();
        let t = self.body[idx].ty();
        self.body.set(idx, Node::Normal { prev: v, next: nx, node_type: t });
        proof {
            assert(self@.body == g.body.update(idx as int, self@.body[idx as int]));
            assert(self@ == g.with_prev(idx as int, v as int));
            GridView::lemma_update_wf(g, self@, idx as int);
        }
    }

    /// Rewrite the ring size stored in the header cell at `idx`.
    pub(crate) fn set_node_size(&mut self, idx: usize, s: usize)
        requires
            old(self)@.wf(),
            idx < old(self)@.blen(),
            old(self)@.body[idx as int].is_header_cell(),
        ensures
            final(self)@ == old(self)@.with_size(idx as int, s),
            final(self)@.wf(),
    {
        let ghost g = self@;
        let pv = self.body[idx].prev();
        let nx = self.body[idx].next();
        self.body.set(
            idx,
            Node::Normal { prev: pv, next: nx, node_type: NodeType::Header { size: s } },
        );
        proof {
            assert(self@.body == g.body.update(idx as int, self@.body[idx as int]));
            assert(self@ == g.with_size(idx as int, s));
            GridView::lemma_update_wf(g, self@, idx as int);
        }
    }

    /// Rewrite the color of the body cell at `idx`.
    pub(crate) fn set_node_color(&mut self, idx: usize, c: Option<u32>)
        requires
            old(self)@.wf(),
            idx < old(self)@.blen(),
            old(self)@.body[idx as int].is_body_cell(),
        ensures
            final(self)@ == old(self)@.with_color(idx as int, c),
            final(self)@.wf(),
    {
        let ghost g = self@;
        let pv = self.body[idx].prev();
        let nx = self.body[idx].next();
        let tp = self.body[idx].top();
        self.body.set(
            idx,
            Node::Normal { prev: pv, next: nx, node_type: NodeType::Body { color: c, top: tp } },
        );
        proof {
            assert(self@.body == g.body.update(idx as int, self@.body[idx as int]));
            assert(self@ == g.with_color(idx as int, c));
            GridView::lemma_update_wf(g, self@, idx as int);
        }
    }

    /// Rewrite the `next` link of header `idx`; the target must stay on the
    /// same (primary or secondary) header list.
    pub(crate) fn set_header_next(&mut self, idx: usize, v: usize)
        requires
            old(self)@.wf(),
            idx < old(self)@.headers.len(),
            v < old(self)@.headers.len(),
            idx <= old(self)@.num_primary ==> v <= old(self)@.num_primary,
            idx > old(self)@.num_primary ==> v > old(self)@.num_primary,
        ensures
            final(self)@ == old(self)@.with_header_next(idx as int, v as int),
            final(self)@.wf(),
    {
        let ghost g = self@;
        let mut h = Header {
            item: None,
            prev: 0,
            next: 0,
            header_type: HeaderType::Primary,
        };
        self.headers.set_and_swap(idx, &mut h);
        h.next = v;
        self.headers.set(idx, h);
        proof {
            assert(self@.headers == g.headers.update(
                idx as int,
                Header { next: v, ..g.headers[idx as int] },
            ));
            assert(self@ == g.with_header_next(idx as int, v as int));
            assert(self@.wf()) by {
                assert(self@.wf_headers());
                assert(self@.wf_kinds()) by {
                    assert(forall|j: int|
                        0 <= j < g.blen() ==> self@.body[j] == #[trigger] g.body[j]);
                }
                assert(self@.wf_links());
                GridView::lemma_layout_stable(g, self@);
            }
        }
    }

    /// Rewrite the `prev` link of header `idx`; the target must stay on the
    /// same (primary or secondary) header list.
    pub(crate) fn set_header_prev(&mut self, idx: usize, v: usize)
        requires
            old(self)@.wf(),
            idx < old(self)@.headers.len(),
            v < old(self)@.headers.len(),
            idx <= old(self)@.num_primary ==> v <= old(self)@.num_primary,
            idx > old(self)@.num_primary ==> v > old(self)@.num_primary,
        ensures
            final(self)@ == old(self)@.with_header_prev(idx as int, v as int),
            final(self)@.wf(),
    {
        let ghost g = self@;
        let mut h = Header {
            item: None,
            prev: 0,
            next: 0,
            header_type: HeaderType::Primary,
        };
        self.headers.set_and_swap(idx, &mut h);
        h.prev = v;
        self.headers.set(idx, h);
        proof {
            assert(self@.headers == g.headers.update(
                idx as int,
                Header { prev: v, ..g.headers[idx as int] },
            ));
            assert(self@ == g.with_header_prev(idx as int, v as int));
            assert(self@.wf()) by {
                assert(self@.wf_headers());
                assert(self@.wf_kinds()) by {
                    assert(forall|j: int|
                        0 <= j < g.blen() ==> self@.body[j] == #[trigger] g.body[j]);
                }
                assert(self@.wf_links());
                GridView::lemma_layout_stable(g, self@);
            }
        }
    }
}

} // verus!
