//! Building the grid from an item list and a subset list: stable partition of
//! the items (primaries first), the header array with its two sentinel rings,
//! and one run of body cells per subset, fenced by boundary cells.

use vstd::prelude::*;
use vstd::pervasive::VecAdditionalExecFns;
use vstd::std_specs::cmp::PartialEqSpec;

use crate::defs::{Constraint, DlxError, Header, HeaderType, Node, NodeType};
use crate::grid::{same_kind, Dlx, GridView};

verus! {

/// The sub-sequence of `s` whose kind is `t`, in input order.
pub open spec fn keep<I>(s: Seq<(I, HeaderType)>, t: HeaderType) -> Seq<(I, HeaderType)>
    decreases s.len(),
{
    if s.len() == 0 {
        Seq::empty()
    } else if s[0].1 == t {
        seq![s[0]] + keep(s.drop_first(), t)
    } else {
        keep(s.drop_first(), t)
    }
}

/// Stable partition: primary items first, secondary items after, both in
/// input order.
pub open spec fn partitioned<I>(s: Seq<(I, HeaderType)>) -> Seq<(I, HeaderType)> {
    keep(s, HeaderType::Primary) + keep(s, HeaderType::Secondary)
}

/// Some identifier occurs twice (by the `==` of the identifier type).
pub open spec fn items_dup<I: PartialEq>(items: Seq<I>) -> bool {
    exists|i: int, j: int| 0 <= i < j < items.len() && items[i].eq_spec(&items[j])
}

/// `n` equals one of the names in `prev`.
pub open spec fn name_dup<N: PartialEq>(prev: Seq<N>, n: N) -> bool {
    exists|i: int| 0 <= i < prev.len() && prev[i].eq_spec(&n)
}

/// Index of the first declared item equal to `x`, scanning from `k`;
/// `-1` if there is none.
pub open spec fn find_from<I: PartialEq>(items: Seq<I>, x: I, k: int) -> int
    decreases items.len() - k,
{
    if k < 0 || k >= items.len() {
        -1
    } else if items[k].eq_spec(&x) {
        k
    } else {
        find_from(items, x, k + 1)
    }
}

/// First construction error among the constraints of one subset, if any:
/// a constraint naming an undeclared item, or one whose kind does not match
/// its item's kind.
pub open spec fn con_err<I: PartialEq>(
    hitems: Seq<I>,
    hkinds: Seq<HeaderType>,
    cs: Seq<Constraint<I>>,
) -> Option<DlxError>
    decreases cs.len(),
{
    if cs.len() == 0 {
        None
    } else {
        let f = find_from(hitems, cs[0].spec_item(), 0);
        if f == -1 {
            Some(DlxError::UnknownItem)
        } else if hkinds[f] != cs[0].spec_kind() {
            Some(DlxError::KindMismatch)
        } else {
            con_err(hitems, hkinds, cs.drop_first())
        }
    }
}

/// First construction error among the subsets, processed in order: for each
/// subset first its name is checked against all earlier names, then its
/// constraints in order.
pub open spec fn sub_err<I: PartialEq, N: PartialEq>(
    hitems: Seq<I>,
    hkinds: Seq<HeaderType>,
    prev: Seq<N>,
    subs: Seq<(N, Vec<Constraint<I>>)>,
) -> Option<DlxError>
    decreases subs.len(),
{
    if subs.len() == 0 {
        None
    } else if name_dup(prev, subs[0].0) {
        Some(DlxError::DuplicateSubsetName)
    } else {
        match con_err(hitems, hkinds, subs[0].1@) {
            Some(e) => Some(e),
            None => sub_err(hitems, hkinds, prev.push(subs[0].0), subs.drop_first()),
        }
    }
}

/// The identifiers of the partitioned item list.
pub open spec fn part_items<I>(items: Seq<(I, HeaderType)>) -> Seq<I> {
    partitioned(items).map_values(|p: (I, HeaderType)| p.0)
}

/// The kinds of the partitioned item list.
pub open spec fn part_kinds<I>(items: Seq<(I, HeaderType)>) -> Seq<HeaderType> {
    partitioned(items).map_values(|p: (I, HeaderType)| p.1)
}

/// The construction error the builder reports, if any: duplicate items are
/// detected first (over the partitioned order), then the subsets in order.
pub open spec fn build_err<I: PartialEq, N: PartialEq>(
    items: Seq<(I, HeaderType)>,
    subsets: Seq<(N, Vec<Constraint<I>>)>,
) -> Option<DlxError> {
    if items_dup(part_items(items)) {
        Some(DlxError::DuplicateItem)
    } else {
        sub_err(part_items(items), part_kinds(items), Seq::empty(), subsets)
    }
}

/// A cell array with the `prev` link of the normal cell at `i` rewritten.
pub open spec fn bupd_prev<N>(b: Seq<Node<N>>, i: int, x: int) -> Seq<Node<N>> {
    b.update(
        i,
        Node::Normal {
            prev: x as usize,
            next: b[i].spec_next() as usize,
            node_type: b[i].spec_node_type(),
        },
    )
}

/// A cell array with the `next` link of the normal cell at `i` rewritten.
pub open spec fn bupd_next<N>(b: Seq<Node<N>>, i: int, x: int) -> Seq<Node<N>> {
    b.update(
        i,
        Node::Normal {
            prev: b[i].spec_prev() as usize,
            next: x as usize,
            node_type: b[i].spec_node_type(),
        },
    )
}

/// A cell array with the size of the header cell at `i` rewritten.
pub open spec fn bupd_size<N>(b: Seq<Node<N>>, i: int, s: usize) -> Seq<Node<N>> {
    b.update(
        i,
        Node::Normal {
            prev: b[i].spec_prev() as usize,
            next: b[i].spec_next() as usize,
            node_type: NodeType::Header { size: s },
        },
    )
}

/// A cell array with the `last_for_next` field of the boundary at `i`
/// rewritten.
pub open spec fn bupd_lfn<N>(b: Seq<Node<N>>, i: int, x: int) -> Seq<Node<N>> {
    b.update(
        i,
        Node::Boundary {
            name: b[i].spec_name(),
            first_for_prev: b[i].spec_first_for_prev() as usize,
            last_for_next: x as usize,
        },
    )
}

/// The header array the builder produces from the partitioned items: the
/// primary sentinel at index 0 rings the `np` primary headers, the secondary
/// sentinel after the last item header rings the secondary headers.
pub open spec fn built_headers<I>(parts: Seq<(I, HeaderType)>, np: int) -> Seq<Header<I>> {
    let m = parts.len() as int;
    Seq::new(
        (m + 2) as nat,
        |i: int|
            if i == 0 {
                Header {
                    item: None,
                    prev: np as usize,
                    next: (if np == 0 {
                        0int
                    } else {
                        1int
                    }) as usize,
                    header_type: HeaderType::Primary,
                }
            } else if i == m + 1 {
                Header {
                    item: None,
                    prev: (if np == m {
                        m + 1
                    } else {
                        m
                    }) as usize,
                    next: (np + 1) as usize,
                    header_type: HeaderType::Secondary,
                }
            } else {
                Header {
                    item: Some(parts[i - 1].0),
                    prev: (if i == np + 1 {
                        m + 1
                    } else {
                        i - 1
                    }) as usize,
                    next: (if i == np {
                        0int
                    } else {
                        i + 1
                    }) as usize,
                    header_type: parts[i - 1].1,
                }
            },
    )
}

/// The cell array before any subset is appended: a boundary sentinel, one
/// solitary header cell per item, and a second boundary sentinel.
pub open spec fn initial_body<N>(m: int) -> Seq<Node<N>> {
    Seq::new(
        (m + 2) as nat,
        |i: int|
            if i == 0 || i == m + 1 {
                Node::Boundary { name: None, first_for_prev: 0, last_for_next: 0 }
            } else {
                Node::Normal {
                    prev: i as usize,
                    next: i as usize,
                    node_type: NodeType::Header { size: 0 },
                }
            },
    )
}

/// Appending one body cell for a constraint on the item with header index
/// `hidx`: the cell goes at the tail of the item's vertical ring, and the
/// ring's size count grows by one.
pub open spec fn add_constraint<N>(b: Seq<Node<N>>, hidx: int, color: Option<u32>) -> Seq<
    Node<N>,
> {
    let new_idx = b.len() as int;
    let prev_tail = b[hidx].spec_prev();
    let b1 = b.push(
        Node::Normal {
            prev: prev_tail as usize,
            next: hidx as usize,
            node_type: NodeType::Body { color, top: hidx as usize },
        },
    );
    let b2 = bupd_prev(b1, hidx, new_idx);
    let b3 = bupd_size(b2, hidx, vstd::wrapping::usize_specs::wrapping_add(b2[hidx].spec_len(), 1));
    bupd_next(b3, prev_tail, new_idx)
}

/// Appending the body cells of one subset's constraints, in order, each on
/// the ring of the first declared item its identifier equals.
pub open spec fn add_constraints<I: PartialEq, N>(
    b: Seq<Node<N>>,
    hitems: Seq<I>,
    cs: Seq<Constraint<I>>,
) -> Seq<Node<N>>
    decreases cs.len(),
{
    if cs.len() == 0 {
        b
    } else {
        let hidx = find_from(hitems, cs[0].spec_item(), 0) + 1;
        add_constraints(add_constraint(b, hidx, cs[0].spec_color()), hitems, cs.drop_first())
    }
}

/// Appending one whole subset: its run of body cells, the patch that points
/// the previous boundary at the run's last cell, and the named boundary that
/// closes the run.
pub open spec fn add_subset<I: PartialEq, N>(
    b: Seq<Node<N>>,
    hitems: Seq<I>,
    name: N,
    cs: Seq<Constraint<I>>,
) -> Seq<Node<N>> {
    let start = b.len() as int;
    let b1 = add_constraints(b, hitems, cs);
    let b2 = bupd_lfn(b1, start - 1, b1.len() - 1);
    b2.push(
        Node::Boundary { name: Some(name), first_for_prev: start as usize, last_for_next: 0 },
    )
}

/// Appending every subset in order.
pub open spec fn add_subsets<I: PartialEq, N>(
    b: Seq<Node<N>>,
    hitems: Seq<I>,
    subs: Seq<(N, Vec<Constraint<I>>)>,
) -> Seq<Node<N>>
    decreases subs.len(),
{
    if subs.len() == 0 {
        b
    } else {
        add_subsets(add_subset(b, hitems, subs[0].0, subs[0].1@), hitems, subs.drop_first())
    }
}

/// The grid the builder produces from valid inputs: the partitioned headers
/// with their two sentinel rings, and one fenced run of body cells per
/// subset. This determines the whole grid — and with it the entire
/// enumeration, which is deterministic — from the inputs alone.
pub open spec fn built_grid<I: PartialEq, N>(
    items: Seq<(I, HeaderType)>,
    subsets: Seq<(N, Vec<Constraint<I>>)>,
) -> GridView<I, N> {
    let parts = partitioned(items);
    let np = keep(items, HeaderType::Primary).len() as int;
    GridView {
        headers: built_headers(parts, np),
        body: add_subsets(initial_body(parts.len() as int), part_items(items), subsets),
        num_primary: np,
    }
}

/// The names on the subset boundaries of a built grid, from position `j` up.
pub open spec fn boundary_names<I, N>(g: GridView<I, N>, j: int) -> Seq<N>
    decreases g.blen() - j,
{
    if j < 0 || j >= g.blen() {
        Seq::empty()
    } else if g.body[j].is_boundary() {
        match g.body[j].spec_name() {
            Some(n) => seq![n] + boundary_names(g, j + 1),
            None => boundary_names(g, j + 1),
        }
    } else {
        boundary_names(g, j + 1)
    }
}

/// The body array is tiled, from the boundary after the header cells to its
/// last cell, into runs fenced by the boundary positions `bnds`, whose
/// link-around fields point at the runs they fence.
pub open spec fn segs_open<I, N>(g: GridView<I, N>, bnds: Seq<int>) -> bool {
    &&& bnds.len() >= 1
    &&& bnds[0] == g.m() + 1
    &&& bnds.last() < g.blen()
    &&& forall|i: int| 0 <= i < bnds.len() ==> g.m() + 1 <= #[trigger] bnds[i] < g.blen()
    &&& forall|i: int| 0 <= i < bnds.len() ==> g.body[#[trigger] bnds[i]].is_boundary()
    &&& forall|i: int| 0 <= i < bnds.len() - 1 ==> #[trigger] bnds[i] < bnds[i + 1]
    &&& forall|i: int, j: int|
        0 <= i < bnds.len() - 1 && #[trigger] bnds[i] < j < bnds[i + 1]
            ==> !(#[trigger] g.body[j]).is_boundary()
    &&& forall|i: int|
        0 <= i < bnds.len() - 1 ==> g.body[#[trigger] bnds[i + 1]].spec_first_for_prev()
            == bnds[i] + 1 && g.body[bnds[i]].spec_last_for_next() == bnds[i + 1] - 1
}

pub open spec fn segs<I, N>(g: GridView<I, N>, bnds: Seq<int>) -> bool {
    &&& segs_open(g, bnds)
    &&& bnds.last() == g.blen() - 1
}

/// Below a position fenced from above by a boundary at `a`, `run_start` is
/// `a + 1`.
pub proof fn lemma_run_after_boundary<I, N>(g: GridView<I, N>, a: int, q: int)
    requires
        0 <= a < q < g.blen(),
        g.body[a].is_boundary(),
        forall|j: int| a < j <= q ==> !(#[trigger] g.body[j]).is_boundary(),
    ensures
        g.run_start(q) == a + 1,
    decreases q - a,
{
    if q == a + 1 {
    } else {
        lemma_run_after_boundary(g, a, q - 1);
    }
}

/// Above a position fenced from below by a boundary at `b`, `run_end` is
/// `b - 1`.
pub proof fn lemma_run_before_boundary<I, N>(g: GridView<I, N>, q: int, b: int)
    requires
        0 <= q < b < g.blen(),
        g.body[b].is_boundary(),
        forall|j: int| q <= j < b ==> !(#[trigger] g.body[j]).is_boundary(),
    ensures
        g.run_end(q) == b - 1,
    decreases b - q,
{
    if q == b - 1 {
    } else {
        lemma_run_before_boundary(g, q + 1, b);
    }
}

/// Every non-boundary position between the first and last fence lies strictly
/// inside one run.
pub proof fn lemma_find_seg<I, N>(g: GridView<I, N>, bnds: Seq<int>, q: int, k: int)
    requires
        segs(g, bnds),
        0 <= k < bnds.len() - 1,
        bnds[k] < q < bnds.last(),
        !g.body[q].is_boundary(),
    ensures
        exists|i: int| 0 <= i < bnds.len() - 1 && #[trigger] bnds[i] < q < bnds[i + 1],
    decreases bnds.len() - k,
{
    if q < bnds[k + 1] {
        assert(bnds[k] < q < bnds[k + 1]);
    } else {
        assert(q != bnds[k + 1]);
        assert(k + 1 < bnds.len() - 1) by {
            if k + 1 == bnds.len() - 1 {
                assert(bnds[k + 1] == bnds.last());
            }
        }
        lemma_find_seg(g, bnds, q, k + 1);
    }
}

/// A tiled body array satisfies the layout invariant.
pub proof fn lemma_segs_layout<I, N>(g: GridView<I, N>, bnds: Seq<int>)
    requires
        segs(g, bnds),
        g.wf_counts(),
    ensures
        g.wf_layout(),
{
    assert forall|q: int| #[trigger] g.body_cell(q) implies {
        let s = g.run_start(q);
        let e = g.run_end(q);
        &&& g.m() + 2 <= s <= q
        &&& q <= e < g.blen() - 1
        &&& g.body[e + 1].is_boundary()
        &&& g.body[e + 1].spec_first_for_prev() == s
        &&& g.body[s - 1].is_boundary()
        &&& g.body[s - 1].spec_last_for_next() == e
    } by {
        assert(bnds[0] == g.m() + 1 && bnds.last() == g.blen() - 1);
        assert(bnds[0] < q < bnds.last());
        lemma_find_seg(g, bnds, q, 0);
        let i = choose|i: int| 0 <= i < bnds.len() - 1 && #[trigger] bnds[i] < q < bnds[i + 1];
        assert forall|j: int| bnds[i] < j <= q implies !(#[trigger] g.body[j]).is_boundary() by {}
        lemma_run_after_boundary(g, bnds[i], q);
        assert forall|j: int| q <= j < bnds[i + 1] implies !(#[trigger] g.body[j]).is_boundary() by {}
        lemma_run_before_boundary(g, q, bnds[i + 1]);
        assert(g.run_start(q) == bnds[i] + 1);
        assert(g.run_end(q) == bnds[i + 1] - 1);
    }
}

/// A grid model assembled from raw parts, before a `Dlx` value exists.
pub open spec fn mk_gv<I, N>(h: Seq<Header<I>>, b: Seq<Node<N>>, np: int) -> GridView<I, N> {
    GridView { headers: h, body: b, num_primary: np }
}

/// In a tiled body array whose subset boundaries carry `names`, the boundary
/// names read off from just inside segment `i` are the names from `i` on.
/// Positions with no boundary strictly before the next boundary contribute
/// no names.
pub proof fn lemma_bnames_skip_run<I, N>(g: GridView<I, N>, j: int, b: int)
    requires
        0 <= j <= b < g.blen(),
        forall|x: int| j <= x < b ==> !(#[trigger] g.body[x]).is_boundary(),
    ensures
        boundary_names(g, j) == boundary_names(g, b),
    decreases b - j,
{
    if j < b {
        lemma_bnames_skip_run(g, j + 1, b);
    }
}

/// In a tiled body array whose subset boundaries carry `names`, the boundary
/// names read off from just inside segment `i` are the names from `i` on.
#[verifier::rlimit(100)]
#[verifier::spinoff_prover]
pub proof fn lemma_bnames_seg<I, N>(g: GridView<I, N>, bnds: Seq<int>, names: Seq<N>, i: int)
    requires
        segs(g, bnds),
        names.len() == bnds.len() - 1,
        forall|t: int|
            0 <= t < names.len() ==> g.body[#[trigger] bnds[t + 1]].spec_name() == Some(names[t]),
        0 <= i < bnds.len() - 1,
    ensures
        boundary_names(g, bnds[i] + 1) == names.skip(i),
    decreases bnds.len() - i,
{
    let b = bnds[i + 1];
    assert forall|x: int| bnds[i] + 1 <= x < b implies !(#[trigger] g.body[x]).is_boundary() by {}
    lemma_bnames_skip_run(g, bnds[i] + 1, b);
    assert(g.body[b].is_boundary());
    assert(g.body[b].spec_name() == Some(names[i]));
    assert(boundary_names(g, b) == seq![names[i]] + boundary_names(g, b + 1));
    if i == bnds.len() - 2 {
        assert(b == g.blen() - 1);
        assert(boundary_names(g, b + 1) =~= Seq::<N>::empty());
        assert(seq![names[i]] + Seq::<N>::empty() =~= names.skip(i));
    } else {
        lemma_bnames_seg(g, bnds, names, i + 1);
        assert(boundary_names(g, b + 1) == names.skip(i + 1));
        assert(seq![names[i]] + names.skip(i + 1) =~= names.skip(i));
    }
}

/// Rewrite the `last_for_next` field of the boundary cell at `i`.
pub(crate) fn vset_lfn<N>(v: &mut Vec<Node<N>>, i: usize, x: usize)
    requires
        i < old(v)@.len(),
        old(v)@[i as int].is_boundary(),
    ensures
        final(v)@ == old(v)@.update(
            i as int,
            Node::Boundary {
                name: old(v)@[i as int].spec_name(),
                first_for_prev: old(v)@[i as int].spec_first_for_prev() as usize,
                last_for_next: x,
            },
        ),
{
    let mut tmp: Node<N> = Node::Boundary { name: None, first_for_prev: 0, last_for_next: 0 };
    v.set_and_swap(i, &mut tmp);
    match &mut tmp {
        Node::Boundary { last_for_next, .. } => {
            *last_for_next = x;
        },
        _ => {
            proof {
                assert(false);
            }
        },
    }
    v.set_and_swap(i, &mut tmp);
    proof {
        assert(v@ =~= old(v)@.update(
            i as int,
            Node::Boundary {
                name: old(v)@[i as int].spec_name(),
                first_for_prev: old(v)@[i as int].spec_first_for_prev() as usize,
                last_for_next: x,
            },
        ));
    }
}

/// Rewrite one link of the normal cell at `i` in a raw cell array.
pub(crate) fn vset_prev<N>(v: &mut Vec<Node<N>>, i: usize, x: usize)
    requires
        i < old(v)@.len(),
        old(v)@[i as int].is_normal(),
    ensures
        final(v)@ == old(v)@.update(
            i as int,
            Node::Normal {
                prev: x,
                next: old(v)@[i as int].spec_next() as usize,
                node_type: old(v)@[i as int].spec_node_type(),
            },
        ),
{
    let nx = v[i].next();
    let t = v[i].ty();
    v.set(i, Node::Normal { prev: x, next: nx, node_type: t });
}

/// Rewrite one link of the normal cell at `i` in a raw cell array.
pub(crate) fn vset_next<N>(v: &mut Vec<Node<N>>, i: usize, x: usize)
    requires
        i < old(v)@.len(),
        old(v)@[i as int].is_normal(),
    ensures
        final(v)@ == old(v)@.update(
            i as int,
            Node::Normal {
                prev: old(v)@[i as int].spec_prev() as usize,
                next: x,
                node_type: old(v)@[i as int].spec_node_type(),
            },
        ),
{
    let pv = v[i].prev();
    let t = v[i].ty();
    v.set(i, Node::Normal { prev: pv, next: x, node_type: t });
}

/// Rewrite the stored ring size of the header cell at `i` in a raw cell array.
pub(crate) fn vset_size<N>(v: &mut Vec<Node<N>>, i: usize, s: usize)
    requires
        i < old(v)@.len(),
        old(v)@[i as int].is_header_cell(),
    ensures
        final(v)@ == old(v)@.update(
            i as int,
            Node::Normal {
                prev: old(v)@[i as int].spec_prev() as usize,
                next: old(v)@[i as int].spec_next() as usize,
                node_type: NodeType::Header { size: s },
            },
        ),
{
    let pv = v[i].prev();
    let nx = v[i].next();
    v.set(i, Node::Normal { prev: pv, next: nx, node_type: NodeType::Header { size: s } });
}

impl<I: PartialEq, N: PartialEq> Dlx<I, N> {
    /// Build a grid from declared items and named subsets, or report the
    /// first construction error: a duplicate item, a duplicate subset name, a
    /// constraint on an undeclared item, or a constraint whose kind does not
    /// match its item's kind.
    pub fn new(items: Vec<(I, HeaderType)>, subsets: Vec<(N, Vec<Constraint<I>>)>) -> (r: Result<
        Self,
        DlxError,
    >)
        ensures
            I::obeys_eq_spec() && N::obeys_eq_spec() ==> ((r matches Ok(d)) <==> build_err(
                items@,
                subsets@,
            ) is None),
            I::obeys_eq_spec() && N::obeys_eq_spec() ==> (r matches Err(e) ==> Some(e)
                == build_err(items@, subsets@)),
            r matches Ok(d) ==> {
                &&& d@.wf()
                &&& d@.m() == partitioned(items@).len()
                &&& d@.num_primary == keep(items@, HeaderType::Primary).len()
                &&& forall|i: int|
                    1 <= i <= d@.m() ==> (#[trigger] d@.headers[i]).item == Some(
                        part_items(items@)[i - 1],
                    ) && d@.headers[i].header_type == part_kinds(items@)[i - 1]
                &&& boundary_names(d@, d@.m() + 2) == subsets@.map_values(
                    |s: (N, Vec<Constraint<I>>)| s.0,
                )
            },
            r matches Ok(d) ==> d@.headers == built_headers(
                partitioned(items@),
                keep(items@, HeaderType::Primary).len() as int,
            ),
            I::obeys_eq_spec() ==> (r matches Ok(d) ==> d@ == built_grid(items@, subsets@)),
    {
        Self::construct(items, subsets)
    }

    #[verifier::rlimit(100)]
    #[verifier::spinoff_prover]
    fn construct(items: Vec<(I, HeaderType)>, subsets: Vec<(N, Vec<Constraint<I>>)>) -> (r: Result<
        Self,
        DlxError,
    >)
        ensures
            I::obeys_eq_spec() && N::obeys_eq_spec() ==> ((r matches Ok(d)) <==> build_err(
                items@,
                subsets@,
            ) is None),
            I::obeys_eq_spec() && N::obeys_eq_spec() ==> (r matches Err(e) ==> Some(e)
                == build_err(items@, subsets@)),
            r matches Ok(d) ==> {
                &&& d@.wf()
                &&& d@.m() == partitioned(items@).len()
                &&& d@.num_primary == keep(items@, HeaderType::Primary).len()
                &&& forall|i: int|
                    1 <= i <= d@.m() ==> (#[trigger] d@.headers[i]).item == Some(
                        part_items(items@)[i - 1],
                    ) && d@.headers[i].header_type == part_kinds(items@)[i - 1]
                &&& boundary_names(d@, d@.m() + 2) == subsets@.map_values(
                    |s: (N, Vec<Constraint<I>>)| s.0,
                )
            },
            r matches Ok(d) ==> d@.headers == built_headers(
                partitioned(items@),
                keep(items@, HeaderType::Primary).len() as int,
            ),
            I::obeys_eq_spec() ==> (r matches Ok(d) ==> d@ == built_grid(items@, subsets@)),
    {
        let ghost items0 = items@;
        let ghost subs0 = subsets@;

        // Stable partition: primaries first, secondaries after, input order
        // kept inside each class.
        let mut rest = items;
        let mut prim: Vec<(I, HeaderType)> = Vec::new();
        let mut sec: Vec<(I, HeaderType)> = Vec::new();
        while rest.len() > 0
            invariant
                keep(items0, HeaderType::Primary) == prim@ + keep(rest@, HeaderType::Primary),
                keep(items0, HeaderType::Secondary) == sec@ + keep(rest@, HeaderType::Secondary),
                forall|k: int| 0 <= k < prim@.len() ==> (#[trigger] prim@[k]).1 is Primary,
                forall|k: int| 0 <= k < sec@.len() ==> (#[trigger] sec@[k]).1 is Secondary,
            decreases rest.len(),
        {
            let ghost rest_pre = rest@;
            let x = rest.remove(0);
            proof {
                assert(rest@ =~= rest_pre.drop_first());
                assert(keep(rest_pre, HeaderType::Primary) == if x.1 is Primary {
                    seq![x] + keep(rest@, HeaderType::Primary)
                } else {
                    keep(rest@, HeaderType::Primary)
                });
                assert(keep(rest_pre, HeaderType::Secondary) == if x.1 is Secondary {
                    seq![x] + keep(rest@, HeaderType::Secondary)
                } else {
                    keep(rest@, HeaderType::Secondary)
                });
            }
            match x.1 {
                HeaderType::Primary => {
                    let ghost prim_pre = prim@;
                    prim.push(x);
                    proof {
                        assert(prim_pre + (seq![x] + keep(rest@, HeaderType::Primary)) =~= prim@
                            + keep(rest@, HeaderType::Primary));
                    }
                },
                HeaderType::Secondary => {
                    let ghost sec_pre = sec@;
                    sec.push(x);
                    proof {
                        assert(sec_pre + (seq![x] + keep(rest@, HeaderType::Secondary)) =~= sec@
                            + keep(rest@, HeaderType::Secondary));
                    }
                },
            }
        }
        let np = prim.len();
        let mut part = prim;
        part.append(&mut sec);
        proof {
            assert(keep(items0, HeaderType::Primary) =~= keep(
                items0,
                HeaderType::Primary,
            ) + keep(rest@, HeaderType::Primary));
        }
        let ghost parts = part@;
        let ghost hitems = part_items(items0);
        let ghost hkinds = part_kinds(items0);
        proof {
            assert(parts == partitioned(items0));
            assert(hitems.len() == parts.len() && hkinds.len() == parts.len());
            assert(forall|k: int|
                0 <= k < parts.len() ==> hitems[k] == (#[trigger] parts[k]).0 && hkinds[k]
                    == parts[k].1);
            assert(forall|k: int| 0 <= k < np ==> (#[trigger] hkinds[k]) is Primary);
            assert(forall|k: int|
                np <= k < parts.len() ==> (#[trigger] hkinds[k]) is Secondary) by {
                assert(forall|k: int|
                    0 <= k < keep(items0, HeaderType::Secondary).len() ==> (#[trigger] keep(
                        items0,
                        HeaderType::Secondary,
                    )[k]).1 is Secondary);
            }
        }

        // Header array and the per-item header cells, with duplicate
        // detection against the already placed items.
        let m = part.len();
        let mut headers: Vec<Header<I>> = Vec::new();
        let mut body: Vec<Node<N>> = Vec::new();
        headers.push(Header { item: None, prev: 0, next: 1, header_type: HeaderType::Primary });
        body.push(Node::Boundary { name: None, first_for_prev: 0, last_for_next: 0 });
        let mut rest2 = part;
        let mut k: usize = 0;
        while k < m
            invariant
                m == parts.len(),
                k <= m,
                items0 == items@,
                subs0 == subsets@,
                hitems == part_items(items0),
                hkinds == part_kinds(items0),
                rest2@ == parts.skip(k as int),
                headers@.len() == k + 1,
                body@.len() == k + 1,
                headers@[0] == (Header::<I> {
                    item: None,
                    prev: 0,
                    next: 1,
                    header_type: HeaderType::Primary,
                }),
                forall|i: int|
                    1 <= i <= k ==> (#[trigger] headers@[i]).item == Some(hitems[i - 1])
                        && headers@[i].header_type == hkinds[i - 1] && headers@[i].prev == i - 1
                        && headers@[i].next == i + 1,
                body@[0] == (Node::<N>::Boundary {
                    name: None,
                    first_for_prev: 0,
                    last_for_next: 0,
                }),
                forall|i: int|
                    1 <= i <= k ==> #[trigger] body@[i] == (Node::<N>::Normal {
                        prev: i as usize,
                        next: i as usize,
                        node_type: NodeType::Header { size: 0 },
                    }),
                I::obeys_eq_spec() ==> forall|a: int, b: int|
                    0 <= a < b < k ==> !hitems[a].eq_spec(&hitems[b]),
                hitems.len() == parts.len(),
                forall|t: int|
                    0 <= t < parts.len() ==> hitems[t] == (#[trigger] parts[t]).0 && hkinds[t]
                        == parts[t].1,
            decreases m - k,
        {
            let ghost rest2_pre = rest2@;
            let x = rest2.remove(0);
            proof {
                assert(rest2@ =~= parts.skip(k as int + 1));
                assert(x == parts[k as int]);
            }
            let mut j: usize = 1;
            while j < headers.len()
                invariant
                    1 <= j <= headers@.len(),
                    headers@.len() == k + 1,
                    k < m == parts.len() == hitems.len(),
                    items0 == items@,
                    subs0 == subsets@,
                    hitems == part_items(items0),
                    hkinds == part_kinds(items0),
                    x == parts[k as int],
                    forall|t: int|
                        0 <= t < parts.len() ==> hitems[t] == (#[trigger] parts[t]).0,
                    forall|i: int|
                        1 <= i <= k ==> (#[trigger] headers@[i]).item == Some(hitems[i - 1]),
                    I::obeys_eq_spec() ==> forall|a: int|
                        0 <= a < j - 1 ==> !(#[trigger] hitems[a]).eq_spec(&hitems[k as int]),
                decreases headers@.len() - j,
            {
                let hit = match &headers[j].item {
                    Some(it) => *it == x.0,
                    None => {
                        proof {
                            assert(false);
                        }
                        false
                    },
                };
                if hit {
                    proof {
                        if I::obeys_eq_spec() && N::obeys_eq_spec() {
                            assert(hitems[j - 1].eq_spec(&hitems[k as int]));
                            assert(items_dup(hitems));
                            assert(build_err(items0, subs0) == Some(DlxError::DuplicateItem));
                        }
                    }
                    return Err(DlxError::DuplicateItem);
                }
                j += 1;
            }
            let idx = headers.len();
            headers.push(Header {
                item: Some(x.0),
                prev: idx - 1,
                next: 0,
                header_type: x.1,
            });
            let nlen = headers.len();
            hset_next(&mut headers, idx, nlen);
            body.push(Node::Normal {
                prev: idx,
                next: idx,
                node_type: NodeType::Header { size: 0 },
            });
            k += 1;
        }
        proof {
            if I::obeys_eq_spec() {
                assert(!items_dup(hitems));
            }
        }

        // Close the two sentinel rings: primaries with sentinel 0, secondaries
        // with the trailing sentinel.
        let last_idx = headers.len();
        headers.push(Header {
            item: None,
            prev: last_idx - 1,
            next: np + 1,
            header_type: HeaderType::Secondary,
        });
        hset_prev(&mut headers, 0, np);
        hset_next(&mut headers, np, 0);
        hset_prev(&mut headers, np + 1, last_idx);
        hset_next(&mut headers, last_idx, np + 1);
        body.push(Node::Boundary { name: None, first_for_prev: 0, last_for_next: 0 });
        let ghost ghdrs = headers@;
        proof {
            let gv = mk_gv(ghdrs, body@, np as int);
            assert(gv.m() == m);
            assert(gv.wf_counts());
            assert forall|i: int| 0 <= i < ghdrs.len() implies {
                &&& ((#[trigger] ghdrs[i]).spec_is_primary() <==> i <= np)
                &&& (i <= np ==> ghdrs[i].prev <= np && ghdrs[i].next <= np)
                &&& (i > np ==> np < ghdrs[i].prev < ghdrs.len() && np < ghdrs[i].next
                    < ghdrs.len())
            } by {
                if 1 <= i <= m {
                    assert(ghdrs[i].header_type == hkinds[i - 1]);
                }
            }
            assert(gv.wf_headers());
            assert(gv.wf_kinds());
            assert forall|j: int|
                0 <= j < gv.blen() && (#[trigger] gv.body[j]).is_normal() implies {
                &&& 1 <= gv.item_of(j) <= gv.m()
                &&& gv.on_ring(gv.item_of(j), gv.body[j].spec_prev())
                &&& gv.on_ring(gv.item_of(j), gv.body[j].spec_next())
            } by {
                assert(1 <= j <= m);
                assert(gv.body[j] == (Node::<N>::Normal {
                    prev: j as usize,
                    next: j as usize,
                    node_type: NodeType::Header { size: 0 },
                }));
            }
            assert(gv.wf_links());
            assert forall|i: int|
                0 <= i < ghdrs.len() implies ghdrs[i] == built_headers::<I>(
                parts,
                np as int,
            )[i] by {
                let bh = built_headers::<I>(parts, np as int);
                if i == 0 {
                    assert(ghdrs[i] == bh[i]);
                } else if i == m + 1 {
                    assert(ghdrs[i] == bh[i]);
                } else {
                    assert(ghdrs[i] == bh[i]);
                }
            }
            assert(ghdrs =~= built_headers::<I>(parts, np as int));
            assert forall|i: int|
                0 <= i < body@.len() implies body@[i] == initial_body::<N>(m as int)[i] by {}
            assert(body@ =~= initial_body::<N>(m as int));
        }
        let ghost ib: Seq<Node<N>> = body@;

        // One run of body cells per subset, closed by a named boundary.
        let mut bpos: Vec<usize> = Vec::new();
        let ghost mut bnds: Seq<int> = seq![m as int + 1];
        let ghost mut names_done: Seq<N> = Seq::empty();
        let mut subs = subsets;
        while subs.len() > 0
            invariant
                headers@ == ghdrs,
                m == parts.len() == hitems.len() == hkinds.len(),
                items0 == items@,
                subs0 == subsets@,
                hitems == part_items(items0),
                hkinds == part_kinds(items0),
                names_done.len() <= subs0.len(),
                ib == initial_body::<N>(m as int),
                I::obeys_eq_spec() ==> add_subsets(ib, hitems, subs0) == add_subsets(
                    body@,
                    hitems,
                    subs@,
                ),
                np <= m,
                mk_gv(ghdrs, body@, np as int).m() == m,
                mk_gv(ghdrs, body@, np as int).wf_counts(),
                mk_gv(ghdrs, body@, np as int).wf_kinds(),
                mk_gv(ghdrs, body@, np as int).wf_links(),
                mk_gv(ghdrs, body@, np as int).wf_headers(),
                segs(mk_gv(ghdrs, body@, np as int), bnds),
                bpos@.len() + 1 == bnds.len(),
                forall|t: int| 0 <= t < bpos@.len() ==> #[trigger] bpos@[t] as int == bnds[t + 1],
                names_done.len() == bpos@.len(),
                forall|t: int|
                    0 <= t < names_done.len() ==> body@[#[trigger] bnds[t + 1]].spec_name()
                        == Some(names_done[t]),
                subs@ == subs0.skip(names_done.len() as int),
                names_done == subs0.map_values(|s: (N, Vec<Constraint<I>>)| s.0).take(
                    names_done.len() as int,
                ),
                I::obeys_eq_spec() && N::obeys_eq_spec() ==> {
                    &&& !items_dup(hitems)
                    &&& sub_err(hitems, hkinds, Seq::empty(), subs0) == sub_err(
                        hitems,
                        hkinds,
                        names_done,
                        subs@,
                    )
                },
                forall|i: int|
                    1 <= i <= m ==> (#[trigger] ghdrs[i]).item == Some(hitems[i - 1])
                        && ghdrs[i].header_type == hkinds[i - 1],
                forall|k2: int| 0 <= k2 < np ==> (#[trigger] hkinds[k2]) is Primary,
                forall|k2: int| np <= k2 < m ==> (#[trigger] hkinds[k2]) is Secondary,
            decreases subs.len(),
        {
            let ghost subs_pre = subs@;
            let (name, cs) = subs.remove(0);
            proof {
                assert(subs@ =~= subs_pre.drop_first());
                assert(subs_pre[0] == (name, cs));
            }
            // Reject a name already used by an earlier subset.
            let mut t: usize = 0;
            let mut dup = false;
            while t < bpos.len() && !dup
                invariant
                    t <= bpos@.len(),
                    bpos@.len() + 1 == bnds.len(),
                    names_done.len() == bpos@.len(),
                    forall|t2: int|
                        0 <= t2 < bpos@.len() ==> #[trigger] bpos@[t2] as int == bnds[t2 + 1],
                    forall|t2: int|
                        0 <= t2 < names_done.len() ==> body@[#[trigger] bnds[t2
                            + 1]].spec_name() == Some(names_done[t2]),
                    forall|i: int|
                        0 <= i < bnds.len() ==> 0 <= #[trigger] bnds[i] < body@.len(),
                    forall|i: int|
                        0 <= i < bnds.len() ==> body@[#[trigger] bnds[i]].is_boundary(),
                    N::obeys_eq_spec() ==> (if dup {
                        name_dup(names_done, name)
                    } else {
                        forall|i: int| 0 <= i < t ==> !(#[trigger] names_done[i]).eq_spec(&name)
                    }),
                decreases bpos@.len() - t + (if dup { 0int } else { 1int }),
            {
                let b = bpos[t];
                let hit = match &body[b] {
                    Node::Boundary { name: Some(nm), .. } => *nm == name,
                    _ => {
                        proof {
                            assert(false);
                        }
                        false
                    },
                };
                if hit {
                    dup = true;
                    proof {
                        if N::obeys_eq_spec() {
                            assert(names_done[t as int].eq_spec(&name));
                        }
                    }
                } else {
                    t += 1;
                }
            }
            if dup {
                proof {
                    if I::obeys_eq_spec() && N::obeys_eq_spec() {
                        assert(sub_err(hitems, hkinds, names_done, subs_pre) == Some(
                            DlxError::DuplicateSubsetName,
                        ));
                        assert(build_err(items0, subs0) == Some(DlxError::DuplicateSubsetName));
                    }
                }
                return Err(DlxError::DuplicateSubsetName);
            }
            let ghost b_start: Seq<Node<N>> = body@;
            proof {
                if I::obeys_eq_spec() {
                    assert(add_subsets(ib, hitems, subs0) == add_subsets(
                        b_start,
                        hitems,
                        subs_pre,
                    ));
                }
            }
            let last_start_index = body.len();
            let ghost cs0 = cs@;
            let mut cs_rest = cs;
            while cs_rest.len() > 0
                invariant
                    headers@ == ghdrs,
                    m == parts.len() == hitems.len() == hkinds.len(),
                    np <= m,
                    mk_gv(ghdrs, body@, np as int).m() == m,
                    mk_gv(ghdrs, body@, np as int).wf_counts(),
                    mk_gv(ghdrs, body@, np as int).wf_kinds_open(),
                    mk_gv(ghdrs, body@, np as int).wf_links(),
                    segs_open(mk_gv(ghdrs, body@, np as int), bnds),
                    bnds.last() + 1 == last_start_index,
                    last_start_index <= body@.len(),
                    forall|j: int|
                        last_start_index <= j < body@.len() ==> (#[trigger] body@[j]).is_body_cell(),
                    forall|t2: int|
                        0 <= t2 < names_done.len() ==> body@[#[trigger] bnds[t2
                            + 1]].spec_name() == Some(names_done[t2]),
                    bpos@.len() + 1 == bnds.len(),
                    names_done.len() == bpos@.len(),
                    I::obeys_eq_spec() ==> con_err(hitems, hkinds, cs0) == con_err(
                        hitems,
                        hkinds,
                        cs_rest@,
                    ),
                    I::obeys_eq_spec() ==> add_constraints(b_start, hitems, cs0)
                        == add_constraints(body@, hitems, cs_rest@),
                    forall|i: int|
                        1 <= i <= m ==> (#[trigger] ghdrs[i]).item == Some(hitems[i - 1])
                            && ghdrs[i].header_type == hkinds[i - 1],
                    subs_pre.len() > 0,
                    subs_pre[0].0 == name,
                    subs_pre[0].1@ == cs0,
                    subs@ == subs_pre.drop_first(),
                    items0 == items@,
                    subs0 == subsets@,
                    hitems == part_items(items0),
                    hkinds == part_kinds(items0),
                    N::obeys_eq_spec() ==> !name_dup(names_done, name),
                    I::obeys_eq_spec() && N::obeys_eq_spec() ==> {
                        &&& !items_dup(hitems)
                        &&& sub_err(hitems, hkinds, Seq::empty(), subs0) == sub_err(
                            hitems,
                            hkinds,
                            names_done,
                            subs_pre,
                        )
                    },
                decreases cs_rest@.len(),
            {
                let ghost cs_pre = cs_rest@;
                let c = cs_rest.remove(0);
                proof {
                    assert(cs_rest@ =~= cs_pre.drop_first());
                    assert(c == cs_pre[0]);
                }
                // Look the constraint's item up among the declared items.
                let hl = headers.len();
                let mut i: usize = 1;
                let mut found: usize = 0;
                while i < hl - 1 && found == 0
                    invariant
                        1 <= i <= m + 1,
                        found <= m,
                        headers@ == ghdrs,
                        m == hitems.len(),
                        m + 2 == ghdrs.len(),
                        hl == ghdrs.len(),
                        hl >= 2,
                        forall|i2: int|
                            1 <= i2 <= m ==> (#[trigger] ghdrs[i2]).item == Some(hitems[i2 - 1]),
                        found == 0 ==> (I::obeys_eq_spec() ==> find_from(hitems, c.spec_item(), 0)
                            == find_from(hitems, c.spec_item(), i - 1)),
                        found != 0 ==> 1 <= found <= m && (I::obeys_eq_spec() ==> find_from(
                            hitems,
                            c.spec_item(),
                            0,
                        ) == found - 1),
                    decreases m + 1 - i + (if found == 0 { 1int } else { 0int }),
                {
                    let citem = c.item();
                    let hmatch = match &headers[i].item {
                        Some(it) => *it == *citem,
                        None => {
                            proof {
                                assert(false);
                            }
                            false
                        },
                    };
                    if hmatch {
                        found = i;
                        proof {
                            if I::obeys_eq_spec() {
                                assert(hitems[i - 1].eq_spec(&c.spec_item()));
                                assert(find_from(hitems, c.spec_item(), i - 1) == i - 1);
                            }
                        }
                    } else {
                        i += 1;
                    }
                }
                proof {
                    if I::obeys_eq_spec() && found == 0 {
                        assert(i == m + 1);
                        assert(find_from(hitems, c.spec_item(), m as int) == -1);
                    }
                }
                if found == 0 {
                    proof {
                        if I::obeys_eq_spec() && N::obeys_eq_spec() {
                            assert(con_err(hitems, hkinds, cs_pre) == Some(DlxError::UnknownItem));
                            assert(con_err(hitems, hkinds, cs0) == Some(DlxError::UnknownItem));
                            assert(sub_err(hitems, hkinds, names_done, subs_pre) == Some(
                                DlxError::UnknownItem,
                            ));
                            assert(build_err(items0, subs0) == Some(DlxError::UnknownItem));
                        }
                    }
                    return Err(DlxError::UnknownItem);
                }
                let hidx = found;
                let cprimary = match &c {
                    Constraint::Primary(_) => true,
                    Constraint::Secondary(_) => false,
                };
                let hprimary = headers[hidx].is_primary();
                if cprimary != hprimary {
                    proof {
                        if I::obeys_eq_spec() && N::obeys_eq_spec() {
                            assert(hkinds[hidx - 1] != c.spec_kind());
                            assert(con_err(hitems, hkinds, cs_pre) == Some(DlxError::KindMismatch));
                            assert(con_err(hitems, hkinds, cs0) == Some(DlxError::KindMismatch));
                            assert(sub_err(hitems, hkinds, names_done, subs_pre) == Some(
                                DlxError::KindMismatch,
                            ));
                            assert(build_err(items0, subs0) == Some(DlxError::KindMismatch));
                        }
                    }
                    return Err(DlxError::KindMismatch);
                }
                proof {
                    if I::obeys_eq_spec() {
                        assert(con_err(hitems, hkinds, cs_pre) == con_err(
                            hitems,
                            hkinds,
                            cs_rest@,
                        ));
                    }
                }
                // Append the body cell at the tail of its item's ring.
                let ghost gpre = mk_gv(ghdrs, body@, np as int);
                let new_idx = body.len();
                let prev_tail = body[hidx].prev();
                let col = c.color();
                body.push(Node::Normal {
                    prev: prev_tail,
                    next: hidx,
                    node_type: NodeType::Body { color: col, top: hidx },
                });
                vset_prev(&mut body, hidx, new_idx);
                let old_sz = body[hidx].len();
                vset_size(&mut body, hidx, old_sz.wrapping_add(1));
                vset_next(&mut body, prev_tail, new_idx);
                proof {
                    let gv = mk_gv(ghdrs, body@, np as int);
                    assert(gv.blen() == gpre.blen() + 1);
                    assert(forall|j: int|
                        0 <= j < gpre.blen() && j != hidx && j != prev_tail
                            ==> gv.body[j] == #[trigger] gpre.body[j]);
                    assert(gv.body[new_idx as int].is_body_cell());
                    assert(gpre.on_ring(hidx as int, prev_tail as int));
                    assert(gv.wf_kinds_open()) by {
                        assert(forall|j: int|
                            0 <= j < gpre.blen() ==> same_kind(
                                #[trigger] gpre.body[j],
                                gv.body[j],
                            ));
                    }
                    assert(gv.wf_links()) by {
                        assert forall|j: int|
                            0 <= j < gv.blen() && (#[trigger] gv.body[j]).is_normal() implies {
                            &&& 1 <= gv.item_of(j) <= gv.m()
                            &&& gv.on_ring(gv.item_of(j), gv.body[j].spec_prev())
                            &&& gv.on_ring(gv.item_of(j), gv.body[j].spec_next())
                        } by {
                            assert forall|x2: int, t2: int|
                                gpre.on_ring(t2, x2) implies gv.on_ring(t2, x2) by {
                                if x2 != t2 {
                                    assert(same_kind(gpre.body[x2], gv.body[x2]));
                                }
                            }
                            if j == new_idx as int {
                                assert(gv.item_of(j) == hidx as int);
                            } else if j == hidx as int {
                                assert(gv.on_ring(hidx as int, new_idx as int));
                            } else if j == prev_tail as int {
                                assert(gpre.body[j].is_normal());
                                assert(gv.item_of(j) == gpre.item_of(j));
                                assert(gpre.item_of(j) == hidx as int);
                                assert(gv.on_ring(hidx as int, new_idx as int));
                            } else {
                                assert(gpre.body[j].is_normal());
                                assert(gv.item_of(j) == gpre.item_of(j));
                            }
                        }
                    }
                    assert(segs_open(gv, bnds)) by {
                        assert(forall|i2: int|
                            0 <= i2 < bnds.len() ==> gv.body[#[trigger] bnds[i2]]
                                == gpre.body[bnds[i2]]);
                        assert(forall|j2: int|
                            0 <= j2 < gpre.blen() && j2 != hidx && j2 != prev_tail
                                ==> #[trigger] gv.body[j2] == gpre.body[j2]);
                        assert(gv.body[hidx as int].is_header_cell());
                        assert(gv.body[prev_tail as int].is_normal());
                    }
                    assert(forall|t2: int|
                        0 <= t2 < names_done.len() ==> body@[#[trigger] bnds[t2
                            + 1]].spec_name() == Some(names_done[t2]));
                    if I::obeys_eq_spec() {
                        assert(body@ == add_constraint(gpre.body, hidx as int, col));
                        assert(add_constraints(b_start, hitems, cs0) == add_constraints(
                            body@,
                            hitems,
                            cs_rest@,
                        )) by {
                            assert(cs_pre[0] == c);
                            assert(find_from(hitems, c.spec_item(), 0) + 1 == hidx as int);
                            assert(col == c.spec_color());
                            assert(add_constraints(gpre.body, hitems, cs_pre) == add_constraints(
                                add_constraint(gpre.body, hidx as int, c.spec_color()),
                                hitems,
                                cs_pre.drop_first(),
                            ));
                        }
                    }
                }
            }
            // Close the subset: point the previous boundary at the run's last
            // cell and append the named trailing boundary.
            let ghost gpre = mk_gv(ghdrs, body@, np as int);
            let last_cell = body.len() - 1;
            let prev_bnd = last_start_index - 1;
            vset_lfn(&mut body, prev_bnd, last_cell);
            let bpos_new = body.len();
            body.push(Node::Boundary {
                name: Some(name),
                first_for_prev: last_start_index,
                last_for_next: 0,
            });
            bpos.push(bpos_new);
            proof {
                let gv = mk_gv(ghdrs, body@, np as int);
                let bnds_new = bnds.push(bpos_new as int);
                assert(gv.body[prev_bnd as int].is_boundary());
                assert(gv.body[bpos_new as int].is_boundary());
                assert(forall|j: int|
                    0 <= j < gpre.blen() && j != prev_bnd ==> gv.body[j]
                        == #[trigger] gpre.body[j]);
                assert(gv.wf_kinds());
                assert(gv.wf_links()) by {
                    assert forall|j: int|
                        0 <= j < gv.blen() && (#[trigger] gv.body[j]).is_normal() implies {
                        &&& 1 <= gv.item_of(j) <= gv.m()
                        &&& gv.on_ring(gv.item_of(j), gv.body[j].spec_prev())
                        &&& gv.on_ring(gv.item_of(j), gv.body[j].spec_next())
                    } by {
                        assert(gv.body[j] == gpre.body[j]);
                        assert(gpre.body[j].is_normal());
                        assert(gv.item_of(j) == gpre.item_of(j));
                        assert forall|x2: int, t2: int|
                            gpre.on_ring(t2, x2) implies gv.on_ring(t2, x2) by {
                            if x2 != t2 {
                                assert(gv.body[x2] == gpre.body[x2]);
                            }
                        }
                    }
                }
                assert(segs(gv, bnds_new)) by {
                    assert(bnds_new.last() == gv.blen() - 1);
                    assert(forall|i2: int|
                        0 <= i2 < bnds.len() - 1 ==> #[trigger] bnds_new[i2] == bnds[i2]
                            && bnds_new[i2 + 1] == bnds[i2 + 1]);
                    assert forall|i2: int|
                        0 <= i2 < bnds_new.len() - 1 implies g_seg_pair(gv, bnds_new, i2) by {
                        if i2 < bnds.len() - 1 {
                            assert(bnds[i2] < bnds.last());
                            assert(gv.body[bnds_new[i2]] == gpre.body[bnds[i2]]);
                            if bnds[i2 + 1] == prev_bnd {
                                assert(gv.body[prev_bnd as int].spec_first_for_prev()
                                    == gpre.body[prev_bnd as int].spec_first_for_prev());
                            } else {
                                assert(gv.body[bnds_new[i2 + 1]] == gpre.body[bnds[i2 + 1]]);
                            }
                            assert(gv.body[bnds_new[i2]].spec_last_for_next() == bnds_new[i2 + 1]
                                - 1);
                        } else {
                            assert(i2 == bnds.len() - 1);
                            assert(bnds_new[i2] == bnds.last());
                            assert(bnds_new[i2 + 1] == bpos_new as int);
                            assert(gv.body[bnds_new[i2 + 1]].spec_first_for_prev()
                                == last_start_index as int);
                            assert(gv.body[bnds_new[i2]].spec_last_for_next() == last_cell as int);
                        }
                    }
                    assert forall|i2: int, j2: int|
                        0 <= i2 < bnds_new.len() - 1 && #[trigger] bnds_new[i2] < j2 < bnds_new[i2
                            + 1] implies !(#[trigger] gv.body[j2]).is_boundary() by {
                        if i2 < bnds.len() - 1 {
                            assert(gv.body[j2] == gpre.body[j2]);
                        } else {
                            assert(last_start_index <= j2 < bpos_new);
                            assert(gpre.body[j2].is_body_cell());
                            assert(gv.body[j2] == gpre.body[j2]);
                        }
                    }
                }
                bnds = bnds_new;
                let ghost names_pre = names_done;
                names_done = names_done.push(name);
                assert(forall|t2: int|
                    0 <= t2 < names_pre.len() ==> body@[#[trigger] bnds[t2 + 1]].spec_name()
                        == Some(names_done[t2]));
                assert(body@[bnds[names_done.len() - 1 + 1]].spec_name() == Some(
                    names_done[names_done.len() - 1],
                ));
                let ghost nm_seq = subs0.map_values(|s: (N, Vec<Constraint<I>>)| s.0);
                let ghost lpre = names_pre.len() as int;
                assert(subs_pre == subs0.skip(lpre));
                assert(subs_pre[0] == subs0[lpre]);
                assert(nm_seq[lpre] == subs0[lpre].0);
                assert(names_done =~= nm_seq.take(lpre + 1)) by {
                    assert(names_pre == nm_seq.take(lpre));
                    assert(forall|t2: int|
                        0 <= t2 < lpre ==> nm_seq.take(lpre + 1)[t2] == #[trigger] nm_seq.take(
                            lpre,
                        )[t2]);
                }
                assert(subs@ =~= subs0.skip(names_done.len() as int)) by {
                    assert(subs@ == subs_pre.drop_first());
                }
                if I::obeys_eq_spec() && N::obeys_eq_spec() {
                    assert(!name_dup(names_pre, name));
                    assert(con_err(hitems, hkinds, cs0) == None::<DlxError>);
                    assert(sub_err(hitems, hkinds, names_pre, subs_pre) == sub_err(
                        hitems,
                        hkinds,
                        names_done,
                        subs@,
                    ));
                }
                if I::obeys_eq_spec() {
                    assert(gpre.body == add_constraints(b_start, hitems, cs0));
                    assert(body@ == add_subset(b_start, hitems, name, cs0)) by {
                        assert(b_start.len() == last_start_index as int);
                        assert(body@ =~= bupd_lfn(
                            gpre.body,
                            last_start_index as int - 1,
                            gpre.body.len() - 1,
                        ).push(
                            Node::Boundary {
                                name: Some(name),
                                first_for_prev: last_start_index,
                                last_for_next: 0,
                            },
                        ));
                    }
                    assert(add_subsets(ib, hitems, subs0) == add_subsets(
                        body@,
                        hitems,
                        subs@,
                    )) by {
                        assert(subs_pre[0].0 == name && subs_pre[0].1@ == cs0);
                        assert(add_subsets(b_start, hitems, subs_pre) == add_subsets(
                            add_subset(b_start, hitems, subs_pre[0].0, subs_pre[0].1@),
                            hitems,
                            subs_pre.drop_first(),
                        ));
                    }
                }
            }
        }

        let dlx = Dlx { num_primary_items: np, headers, body };
        proof {
            let g = dlx@;
            assert(g == mk_gv(ghdrs, dlx.body@, np as int));
            lemma_segs_layout(g, bnds);
            assert(g.wf());
            assert(subs0.len() == names_done.len()) by {
                assert(subs0.skip(names_done.len() as int).len() == 0);
            }
            assert(subs0.map_values(|s: (N, Vec<Constraint<I>>)| s.0) =~= names_done);
            if bnds.len() == 1 {
                assert(g.blen() == g.m() + 2);
                assert(boundary_names(g, g.m() + 2) =~= Seq::<N>::empty());
            } else {
                lemma_bnames_seg(g, bnds, names_done, 0);
                assert(bnds[0] + 1 == g.m() + 2);
                assert(names_done.skip(0) =~= names_done);
            }
            if I::obeys_eq_spec() && N::obeys_eq_spec() {
                assert(sub_err(hitems, hkinds, names_done, subs0.skip(names_done.len() as int))
                    == None::<DlxError>);
                assert(build_err(items0, subs0) == None::<DlxError>);
            }
            if I::obeys_eq_spec() {
                assert(dlx@ == built_grid(items0, subs0)) by {
                    assert(add_subsets(ib, hitems, subs0) == add_subsets(
                        dlx.body@,
                        hitems,
                        subs@,
                    ));
                    assert(subs@.len() == 0);
                    assert(dlx.body@ == add_subsets(ib, hitems, subs0));
                    assert(built_grid(items0, subs0).headers == ghdrs);
                    assert(built_grid(items0, subs0).body == dlx.body@);
                    assert(built_grid(items0, subs0).num_primary == np as int);
                }
            }
        }
        Ok(dlx)
    }
}

/// One fence pair of a tiled body array points back at the run it fences.
pub open spec fn g_seg_pair<I, N>(g: GridView<I, N>, bnds: Seq<int>, i: int) -> bool {
    g.body[bnds[i + 1]].spec_first_for_prev() == bnds[i] + 1 && g.body[bnds[i]].spec_last_for_next()
        == bnds[i + 1] - 1
}

/// Rewrite the `prev` link of the header record at `i`.
pub(crate) fn hset_prev<I>(v: &mut Vec<Header<I>>, i: usize, x: usize)
    requires
        i < old(v)@.len(),
    ensures
        final(v)@ == old(v)@.update(i as int, Header { prev: x, ..old(v)@[i as int] }),
{
    let mut tmp: Header<I> = Header {
        item: None,
        prev: 0,
        next: 0,
        header_type: HeaderType::Primary,
    };
    v.set_and_swap(i, &mut tmp);
    tmp.prev = x;
    v.set_and_swap(i, &mut tmp);
    proof {
        assert(v@ =~= old(v)@.update(i as int, Header { prev: x, ..old(v)@[i as int] }));
    }
}

/// Rewrite the `next` link of the header record at `i`.
pub(crate) fn hset_next<I>(v: &mut Vec<Header<I>>, i: usize, x: usize)
    requires
        i < old(v)@.len(),
    ensures
        final(v)@ == old(v)@.update(i as int, Header { next: x, ..old(v)@[i as int] }),
{
    let mut tmp: Header<I> = Header {
        item: None,
        prev: 0,
        next: 0,
        header_type: HeaderType::Primary,
    };
    v.set_and_swap(i, &mut tmp);
    tmp.next = x;
    v.set_and_swap(i, &mut tmp);
    proof {
        assert(v@ =~= old(v)@.update(i as int, Header { next: x, ..old(v)@[i as int] }));
    }
}

} // verus!
