//! Laws of the derived topology structures: completeness and counting of
//! the incidence map, symmetry and single-representation of the edge
//! adjacency, absence of self-loops, and determinism of both builders.

use vstd::prelude::*;
use crate::adjacency::adjacency_post;
use crate::adjacency::edge_node0;
use crate::adjacency::edge_node1;
use crate::adjacency::edge_yields;
use crate::adjacency::elem_size;
use crate::adjacency::elem_yields;
use crate::adjacency::endpoint0;
use crate::adjacency::endpoint1;
use crate::adjacency::group_has;
use crate::adjacency::is_adjacent;
use crate::adjacency::num_edges_of;
use crate::csr::count_eq;
use crate::csr::count_eq_range;
use crate::csr::count_lt;
use crate::csr::lemma_count_eq_exists;
use crate::csr::lemma_count_eq_prefix;
use crate::csr::lemma_count_eq_range_exists;
use crate::csr::lemma_count_lt_bounds;
use crate::csr::lemma_count_lt_split;
use crate::csr::lemma_offsets_mono;
use crate::csr::lemma_owner_exists;
use crate::csr::lemma_owner_unique;
use crate::csr::owner_of;
use crate::csr::owns;
use crate::csr::valid_offsets;
use crate::incidence::incidence_group;
use crate::incidence::incidence_post;
use crate::incidence::lemma_incidence_group_len;

verus! {

/// Number of positions below `n` holding vertex `v` and owned by element `e`.
spec fn count_inc(off: Seq<usize>, s: Seq<usize>, v: int, e: int, n: int) -> int
    decreases n,
{
    if n <= 0 {
        0
    } else {
        count_inc(off, s, v, e, n - 1) + if s[n - 1] as int == v && owns(off, e, n - 1) {
            1int
        } else {
            0int
        }
    }
}

proof fn lemma_group_count(off: Seq<usize>, s: Seq<usize>, v: int, e: int, n: int)
    requires
        valid_offsets(off, s.len() as int),
        off.len() <= usize::MAX,
        0 <= e < off.len() - 1,
        0 <= n <= s.len(),
    ensures
        count_eq(
            incidence_group(off, s, v, n),
            e,
            incidence_group(off, s, v, n).len() as int,
        ) == count_inc(off, s, v, e, n),
    decreases n,
{
    if n > 0 {
        lemma_group_count(off, s, v, e, n - 1);
        let g1 = incidence_group(off, s, v, n - 1);
        let g = incidence_group(off, s, v, n);
        if s[n - 1] as int == v {
            lemma_owner_exists(off, s.len() as int, n - 1);
            let o = owner_of(off, n - 1);
            assert(g == g1.push(o as usize));
            lemma_count_eq_prefix(g, g1, e, g1.len() as int);
            if owns(off, e, n - 1) {
                lemma_owner_unique(off, s.len() as int, o, e, n - 1);
                assert(g[g.len() - 1] as int == e);
            } else {
                assert(o != e);
                assert(g[g.len() - 1] as int != e);
            }
        } else {
            assert(g == g1);
        }
    }
}

proof fn lemma_count_inc_low(off: Seq<usize>, s: Seq<usize>, v: int, e: int, m: int)
    requires
        0 <= e < off.len() - 1,
        m <= off[e] as int,
    ensures
        count_inc(off, s, v, e, m) == 0,
    decreases m,
{
    if m > 0 {
        lemma_count_inc_low(off, s, v, e, m - 1);
        assert(!owns(off, e, m - 1));
    }
}

proof fn lemma_count_inc_mid(off: Seq<usize>, s: Seq<usize>, v: int, e: int, m: int)
    requires
        0 <= e < off.len() - 1,
        off[e] as int <= m <= off[e + 1] as int,
    ensures
        count_inc(off, s, v, e, m) == count_eq_range(s, v, off[e] as int, m),
    decreases m - off[e],
{
    if m == off[e] as int {
        lemma_count_inc_low(off, s, v, e, m);
    } else {
        lemma_count_inc_mid(off, s, v, e, m - 1);
        assert(owns(off, e, m - 1));
    }
}

proof fn lemma_count_inc_high(off: Seq<usize>, s: Seq<usize>, v: int, e: int, m: int)
    requires
        0 <= e < off.len() - 1,
        off[e] <= off[e + 1],
        off[e + 1] as int <= m,
    ensures
        count_inc(off, s, v, e, m) == count_eq_range(s, v, off[e] as int, off[e + 1] as int),
    decreases m - off[e + 1],
{
    if m == off[e + 1] as int {
        lemma_count_inc_mid(off, s, v, e, m);
    } else {
        lemma_count_inc_high(off, s, v, e, m - 1);
        assert(!owns(off, e, m - 1));
    }
}

/// Incidence completeness: element `e` appears in vertex `v`'s incidence
/// group exactly as many times as `v` appears in `e`'s vertex list.
pub proof fn lemma_incidence_complete(
    elem2idx: Seq<usize>,
    idx2vtx: Seq<usize>,
    num_vtx: int,
    vtx2jdx: Seq<usize>,
    jdx2elem: Seq<usize>,
    v: int,
    e: int,
)
    requires
        valid_offsets(elem2idx, idx2vtx.len() as int),
        elem2idx.len() <= usize::MAX,
        incidence_post(elem2idx, idx2vtx, num_vtx, vtx2jdx, jdx2elem),
        0 <= v < num_vtx,
        0 <= e < elem2idx.len() - 1,
    ensures
        count_eq(
            jdx2elem.subrange(vtx2jdx[v] as int, vtx2jdx[v + 1] as int),
            e,
            vtx2jdx[v + 1] - vtx2jdx[v],
        ) == count_eq_range(idx2vtx, v, elem2idx[e] as int, elem2idx[e + 1] as int),
{
    let ll = idx2vtx.len() as int;
    lemma_count_lt_bounds(idx2vtx, v, ll);
    lemma_count_lt_bounds(idx2vtx, v + 1, ll);
    let g = incidence_group(elem2idx, idx2vtx, v, ll);
    let sub = jdx2elem.subrange(vtx2jdx[v] as int, vtx2jdx[v + 1] as int);
    assert(sub == g);
    lemma_incidence_group_len(elem2idx, idx2vtx, v, ll);
    lemma_count_lt_split(idx2vtx, v, ll);
    assert(vtx2jdx[v + 1] - vtx2jdx[v] == count_lt(idx2vtx, v + 1, ll) - count_lt(idx2vtx, v, ll));
    assert(g.len() == vtx2jdx[v + 1] - vtx2jdx[v]);
    lemma_group_count(elem2idx, idx2vtx, v, e, ll);
    lemma_offsets_mono(elem2idx, ll, e, e + 1);
    lemma_offsets_mono(elem2idx, ll, e + 1, elem2idx.len() - 1);
    lemma_count_inc_high(elem2idx, idx2vtx, v, e, ll);
}

/// The group sizes of the first `m` groups of a CSR offsets array, added up.
pub open spec fn group_size_sum(off: Seq<usize>, m: int) -> int
    decreases m,
{
    if m <= 0 {
        0
    } else {
        group_size_sum(off, m - 1) + (off[m] - off[m - 1])
    }
}

proof fn lemma_sum_telescopes(off: Seq<usize>, m: int)
    requires
        0 <= m < off.len(),
    ensures
        group_size_sum(off, m) == off[m] - off[0],
    decreases m,
{
    if m > 0 {
        lemma_sum_telescopes(off, m - 1);
    }
}

/// Incidence total count: the incidence group sizes add up to the total
/// number of (element, vertex) incidences of the input connectivity.
pub proof fn lemma_incidence_total_count(
    elem2idx: Seq<usize>,
    idx2vtx: Seq<usize>,
    num_vtx: int,
    vtx2jdx: Seq<usize>,
    jdx2elem: Seq<usize>,
)
    requires
        incidence_post(elem2idx, idx2vtx, num_vtx, vtx2jdx, jdx2elem),
        0 <= num_vtx,
        forall|i: int| 0 <= i < idx2vtx.len() ==> (#[trigger] idx2vtx[i] as int) < num_vtx,
    ensures
        group_size_sum(vtx2jdx, num_vtx) == idx2vtx.len(),
{
    let ll = idx2vtx.len() as int;
    crate::csr::lemma_count_lt_nonpos(idx2vtx, 0, ll);
    crate::csr::lemma_count_lt_all(idx2vtx, num_vtx, ll);
    lemma_sum_telescopes(vtx2jdx, num_vtx);
}

/// Membership form of incidence completeness: vertex `v`'s incidence
/// group lists element `e` exactly when `e`'s vertex list holds `v`.
pub proof fn lemma_incidence_has(
    elem2idx: Seq<usize>,
    idx2vtx: Seq<usize>,
    num_vtx: int,
    vtx2jdx: Seq<usize>,
    jdx2elem: Seq<usize>,
    v: int,
    e: int,
)
    requires
        valid_offsets(elem2idx, idx2vtx.len() as int),
        elem2idx.len() <= usize::MAX,
        incidence_post(elem2idx, idx2vtx, num_vtx, vtx2jdx, jdx2elem),
        0 <= v < num_vtx,
        0 <= e < elem2idx.len() - 1,
    ensures
        group_has(vtx2jdx, jdx2elem, v, e) <==> exists|idx: int|
            elem2idx[e] <= idx < elem2idx[e + 1] && (#[trigger] idx2vtx[idx] as int) == v,
{
    let ll = idx2vtx.len() as int;
    lemma_count_lt_bounds(idx2vtx, v, ll);
    lemma_count_lt_bounds(idx2vtx, v + 1, ll);
    lemma_incidence_complete(elem2idx, idx2vtx, num_vtx, vtx2jdx, jdx2elem, v, e);
    let sub = jdx2elem.subrange(vtx2jdx[v] as int, vtx2jdx[v + 1] as int);
    let len = vtx2jdx[v + 1] - vtx2jdx[v];
    lemma_incidence_group_len(elem2idx, idx2vtx, v, ll);
    lemma_count_lt_split(idx2vtx, v, ll);
    assert(sub.len() == len);
    lemma_count_eq_exists(sub, e, len as int);
    lemma_offsets_mono(elem2idx, ll, e, e + 1);
    lemma_offsets_mono(elem2idx, ll, e + 1, elem2idx.len() - 1);
    lemma_count_eq_range_exists(idx2vtx, v, elem2idx[e] as int, elem2idx[e + 1] as int);
    if group_has(vtx2jdx, jdx2elem, v, e) {
        let i = choose|i: int|
            vtx2jdx[v] <= i < vtx2jdx[v + 1] && (#[trigger] jdx2elem[i] as int) == e;
        assert(sub[i - vtx2jdx[v]] as int == e);
        assert(0 <= i - vtx2jdx[v] < len && sub[i - vtx2jdx[v]] as int == e);
    }
    if count_eq(sub, e, len as int) > 0 {
        let j = choose|j: int| 0 <= j < len && (#[trigger] sub[j] as int) == e;
        assert(jdx2elem[vtx2jdx[v] + j] as int == e);
        assert(vtx2jdx[v] <= vtx2jdx[v] + j < vtx2jdx[v + 1] && jdx2elem[vtx2jdx[v] + j] as int
            == e);
        assert(group_has(vtx2jdx, jdx2elem, v, e));
    }
}

/// Every element of the table is a triangle or a quadrilateral.
pub open spec fn all_tri_or_quad(elem2idx: Seq<usize>) -> bool {
    forall|e: int|
        0 <= e < elem2idx.len() - 1 ==> (#[trigger] elem_size(elem2idx, e) == 3 || elem_size(
            elem2idx,
            e,
        ) == 4)
}

/// No element lists the same vertex twice.
pub open spec fn elems_distinct(elem2idx: Seq<usize>, idx2vtx: Seq<usize>) -> bool {
    forall|e: int, a: int, b: int|
        #![trigger elem_size(elem2idx, e), idx2vtx[a], idx2vtx[b]]
        0 <= e < elem2idx.len() - 1 && elem2idx[e] <= a < b < elem2idx[e + 1] ==> idx2vtx[a]
            != idx2vtx[b]
}

proof fn lemma_adjacent_flip(
    elem2idx: Seq<usize>,
    idx2vtx: Seq<usize>,
    num_vtx: int,
    vtx2jdx: Seq<usize>,
    jdx2elem: Seq<usize>,
    u: int,
    w: int,
)
    requires
        valid_offsets(elem2idx, idx2vtx.len() as int),
        elem2idx.len() <= usize::MAX,
        all_tri_or_quad(elem2idx),
        forall|i: int| 0 <= i < idx2vtx.len() ==> (#[trigger] idx2vtx[i] as int) < num_vtx,
        incidence_post(elem2idx, idx2vtx, num_vtx, vtx2jdx, jdx2elem),
        0 <= u < num_vtx,
        0 <= w < num_vtx,
        is_adjacent(elem2idx, idx2vtx, vtx2jdx, jdx2elem, true, u, w),
    ensures
        is_adjacent(elem2idx, idx2vtx, vtx2jdx, jdx2elem, true, w, u),
{
    let ll = idx2vtx.len() as int;
    if u == w {
        return ;
    }
    crate::incidence::lemma_incidence_values_bounded(
        elem2idx,
        idx2vtx,
        num_vtx,
        vtx2jdx,
        jdx2elem,
    );
    crate::incidence::lemma_incidence_offsets_valid(
        elem2idx,
        idx2vtx,
        num_vtx,
        vtx2jdx,
        jdx2elem,
    );
    lemma_offsets_mono(vtx2jdx, jdx2elem.len() as int, u + 1, vtx2jdx.len() - 1);
    let jdx = choose|jdx: int|
        vtx2jdx[u] <= jdx < vtx2jdx[u + 1] && #[trigger] elem_yields(
            elem2idx,
            idx2vtx,
            jdx2elem[jdx] as int,
            true,
            u,
            w,
        );
    let e = jdx2elem[jdx] as int;
    let k = choose|k: int|
        0 <= k < num_edges_of(elem2idx, e) && #[trigger] edge_yields(
            elem2idx,
            idx2vtx,
            e,
            k,
            true,
            u,
            w,
        );
    let sz = elem_size(elem2idx, e);
    let p0 = endpoint0(elem2idx, idx2vtx, e, k);
    let p1 = endpoint1(elem2idx, idx2vtx, e, k);
    let a0 = elem2idx[e] + edge_node0(sz, k);
    let a1 = elem2idx[e] + edge_node1(sz, k);
    lemma_offsets_mono(elem2idx, ll, e + 1, elem2idx.len() - 1);
    assert(a0 < elem2idx[e + 1] && a1 < elem2idx[e + 1]);
    lemma_incidence_has(elem2idx, idx2vtx, num_vtx, vtx2jdx, jdx2elem, w, e);
    if p0 == u {
        assert(idx2vtx[a1 as int] as int == w);
        assert(elem2idx[e] <= a1 < elem2idx[e + 1] && idx2vtx[a1 as int] as int == w);
        assert(edge_yields(elem2idx, idx2vtx, e, k, true, w, u));
    } else {
        assert(p1 == u && w == p0);
        assert(idx2vtx[a0 as int] as int == w);
        assert(elem2idx[e] <= a0 < elem2idx[e + 1] && idx2vtx[a0 as int] as int == w);
        assert(edge_yields(elem2idx, idx2vtx, e, k, true, w, u));
    }
    assert(group_has(vtx2jdx, jdx2elem, w, e));
    let j2 = choose|i: int| vtx2jdx[w] <= i < vtx2jdx[w + 1] && (#[trigger] jdx2elem[i] as int) == e;
    assert(elem_yields(elem2idx, idx2vtx, jdx2elem[j2] as int, true, w, u));
    assert(is_adjacent(elem2idx, idx2vtx, vtx2jdx, jdx2elem, true, w, u));
}

/// Adjacency symmetry with both directions kept: `w` stands in `u`'s
/// adjacency group exactly when `u` stands in `w`'s.
pub proof fn lemma_adjacency_symmetric(
    elem2idx: Seq<usize>,
    idx2vtx: Seq<usize>,
    num_vtx: int,
    vtx2jdx: Seq<usize>,
    jdx2elem: Seq<usize>,
    vtx2kdx: Seq<usize>,
    kdx2vtx: Seq<usize>,
    u: int,
    w: int,
)
    requires
        valid_offsets(elem2idx, idx2vtx.len() as int),
        elem2idx.len() <= usize::MAX,
        all_tri_or_quad(elem2idx),
        forall|i: int| 0 <= i < idx2vtx.len() ==> (#[trigger] idx2vtx[i] as int) < num_vtx,
        incidence_post(elem2idx, idx2vtx, num_vtx, vtx2jdx, jdx2elem),
        adjacency_post(elem2idx, idx2vtx, vtx2jdx, jdx2elem, true, vtx2kdx, kdx2vtx),
        0 <= u < num_vtx,
        0 <= w < num_vtx,
    ensures
        group_has(vtx2kdx, kdx2vtx, u, w) <==> group_has(vtx2kdx, kdx2vtx, w, u),
{
    if group_has(vtx2kdx, kdx2vtx, u, w) {
        lemma_adjacent_flip(elem2idx, idx2vtx, num_vtx, vtx2jdx, jdx2elem, u, w);
    }
    if group_has(vtx2kdx, kdx2vtx, w, u) {
        lemma_adjacent_flip(elem2idx, idx2vtx, num_vtx, vtx2jdx, jdx2elem, w, u);
    }
}

/// Edge `k` of element `e` joins the two vertices `u` and `w`, in either
/// orientation.
pub open spec fn edge_between(
    elem2idx: Seq<usize>,
    idx2vtx: Seq<usize>,
    e: int,
    k: int,
    u: int,
    w: int,
) -> bool {
    let p0 = endpoint0(elem2idx, idx2vtx, e, k);
    let p1 = endpoint1(elem2idx, idx2vtx, e, k);
    (p0 == u && p1 == w) || (p0 == w && p1 == u)
}

/// Some element's edge template implies the undirected edge `{u, w}`.
pub open spec fn has_edge(elem2idx: Seq<usize>, idx2vtx: Seq<usize>, u: int, w: int) -> bool {
    exists|e: int, k: int|
        0 <= e < elem2idx.len() - 1 && 0 <= k < num_edges_of(elem2idx, e)
            && #[trigger] edge_between(elem2idx, idx2vtx, e, k, u, w)
}

/// Single representation without bidirection: for `u` below `w`, the edge
/// `{u, w}` stands in `u`'s adjacency group exactly when some element
/// implies it, and never in `w`'s — each undirected edge is recorded
/// exactly once, under its lower-indexed endpoint.
pub proof fn lemma_adjacency_exactly_once(
    elem2idx: Seq<usize>,
    idx2vtx: Seq<usize>,
    num_vtx: int,
    vtx2jdx: Seq<usize>,
    jdx2elem: Seq<usize>,
    vtx2kdx: Seq<usize>,
    kdx2vtx: Seq<usize>,
    u: int,
    w: int,
)
    requires
        valid_offsets(elem2idx, idx2vtx.len() as int),
        elem2idx.len() <= usize::MAX,
        all_tri_or_quad(elem2idx),
        forall|i: int| 0 <= i < idx2vtx.len() ==> (#[trigger] idx2vtx[i] as int) < num_vtx,
        incidence_post(elem2idx, idx2vtx, num_vtx, vtx2jdx, jdx2elem),
        adjacency_post(elem2idx, idx2vtx, vtx2jdx, jdx2elem, false, vtx2kdx, kdx2vtx),
        0 <= u < w < num_vtx,
    ensures
        group_has(vtx2kdx, kdx2vtx, u, w) <==> has_edge(elem2idx, idx2vtx, u, w),
        !group_has(vtx2kdx, kdx2vtx, w, u),
{
    let ll = idx2vtx.len() as int;
    crate::incidence::lemma_incidence_values_bounded(
        elem2idx,
        idx2vtx,
        num_vtx,
        vtx2jdx,
        jdx2elem,
    );
    crate::incidence::lemma_incidence_offsets_valid(
        elem2idx,
        idx2vtx,
        num_vtx,
        vtx2jdx,
        jdx2elem,
    );
    if group_has(vtx2kdx, kdx2vtx, u, w) {
        lemma_offsets_mono(vtx2jdx, jdx2elem.len() as int, u + 1, vtx2jdx.len() - 1);
        let jdx = choose|jdx: int|
            vtx2jdx[u] <= jdx < vtx2jdx[u + 1] && #[trigger] elem_yields(
                elem2idx,
                idx2vtx,
                jdx2elem[jdx] as int,
                false,
                u,
                w,
            );
        let e = jdx2elem[jdx] as int;
        let k = choose|k: int|
            0 <= k < num_edges_of(elem2idx, e) && #[trigger] edge_yields(
                elem2idx,
                idx2vtx,
                e,
                k,
                false,
                u,
                w,
            );
        assert(edge_between(elem2idx, idx2vtx, e, k, u, w));
        assert(has_edge(elem2idx, idx2vtx, u, w));
    }
    if has_edge(elem2idx, idx2vtx, u, w) {
        let (e, k) = choose|e: int, k: int|
            0 <= e < elem2idx.len() - 1 && 0 <= k < num_edges_of(elem2idx, e)
                && #[trigger] edge_between(elem2idx, idx2vtx, e, k, u, w);
        let sz = elem_size(elem2idx, e);
        let a0 = elem2idx[e] + edge_node0(sz, k);
        let a1 = elem2idx[e] + edge_node1(sz, k);
        lemma_offsets_mono(elem2idx, ll, e + 1, elem2idx.len() - 1);
        assert(a0 < elem2idx[e + 1] && a1 < elem2idx[e + 1]);
        lemma_incidence_has(elem2idx, idx2vtx, num_vtx, vtx2jdx, jdx2elem, u, e);
        if endpoint0(elem2idx, idx2vtx, e, k) == u {
            assert(idx2vtx[a0 as int] as int == u);
            assert(elem2idx[e] <= a0 < elem2idx[e + 1] && idx2vtx[a0 as int] as int == u);
        } else {
            assert(idx2vtx[a1 as int] as int == u);
            assert(elem2idx[e] <= a1 < elem2idx[e + 1] && idx2vtx[a1 as int] as int == u);
        }
        assert(edge_yields(elem2idx, idx2vtx, e, k, false, u, w));
        assert(group_has(vtx2jdx, jdx2elem, u, e));
        let j2 = choose|i: int|
            vtx2jdx[u] <= i < vtx2jdx[u + 1] && (#[trigger] jdx2elem[i] as int) == e;
        assert(elem_yields(elem2idx, idx2vtx, jdx2elem[j2] as int, false, u, w));
        assert(is_adjacent(elem2idx, idx2vtx, vtx2jdx, jdx2elem, false, u, w));
    }
    if group_has(vtx2kdx, kdx2vtx, w, u) {
        let jdx = choose|jdx: int|
            vtx2jdx[w] <= jdx < vtx2jdx[w + 1] && #[trigger] elem_yields(
                elem2idx,
                idx2vtx,
                jdx2elem[jdx] as int,
                false,
                w,
                u,
            );
        let e = jdx2elem[jdx] as int;
        let k = choose|k: int|
            0 <= k < num_edges_of(elem2idx, e) && #[trigger] edge_yields(
                elem2idx,
                idx2vtx,
                e,
                k,
                false,
                w,
                u,
            );
        assert(false);
    }
}

/// No self-adjacency: when no element lists a vertex twice, no vertex's
/// adjacency group holds its own index, with or without bidirection.
pub proof fn lemma_no_self_adjacency(
    elem2idx: Seq<usize>,
    idx2vtx: Seq<usize>,
    vtx2jdx: Seq<usize>,
    jdx2elem: Seq<usize>,
    bidir: bool,
    vtx2kdx: Seq<usize>,
    kdx2vtx: Seq<usize>,
    ip: int,
)
    requires
        valid_offsets(elem2idx, idx2vtx.len() as int),
        valid_offsets(vtx2jdx, jdx2elem.len() as int),
        all_tri_or_quad(elem2idx),
        forall|j: int|
            0 <= j < jdx2elem.len() ==> (#[trigger] jdx2elem[j] as int) < elem2idx.len() - 1,
        elems_distinct(elem2idx, idx2vtx),
        adjacency_post(elem2idx, idx2vtx, vtx2jdx, jdx2elem, bidir, vtx2kdx, kdx2vtx),
        0 <= ip < vtx2jdx.len() - 1,
    ensures
        !group_has(vtx2kdx, kdx2vtx, ip, ip),
{
    let ll = idx2vtx.len() as int;
    if group_has(vtx2kdx, kdx2vtx, ip, ip) {
        lemma_offsets_mono(vtx2jdx, jdx2elem.len() as int, ip + 1, vtx2jdx.len() - 1);
        let jdx = choose|jdx: int|
            vtx2jdx[ip] <= jdx < vtx2jdx[ip + 1] && #[trigger] elem_yields(
                elem2idx,
                idx2vtx,
                jdx2elem[jdx] as int,
                bidir,
                ip,
                ip,
            );
        let e = jdx2elem[jdx] as int;
        let k = choose|k: int|
            0 <= k < num_edges_of(elem2idx, e) && #[trigger] edge_yields(
                elem2idx,
                idx2vtx,
                e,
                k,
                bidir,
                ip,
                ip,
            );
        let sz = elem_size(elem2idx, e);
        let n0 = edge_node0(sz, k);
        let n1 = edge_node1(sz, k);
        assert(n0 != n1);
        let a0 = elem2idx[e] + n0;
        let a1 = elem2idx[e] + n1;
        lemma_offsets_mono(elem2idx, ll, e + 1, elem2idx.len() - 1);
        assert(a0 < elem2idx[e + 1] && a1 < elem2idx[e + 1]);
        assert(idx2vtx[a0 as int] as int == ip && idx2vtx[a1 as int] as int == ip);
        if a0 < a1 {
            assert(idx2vtx[a0 as int] != idx2vtx[a1 as int]);
        } else {
            assert(idx2vtx[a1 as int] != idx2vtx[a0 as int]);
        }
        assert(false);
    }
}

/// Group membership in a CSR pair, read through the group's slice.
proof fn lemma_group_seq_has(off: Seq<usize>, vals: Seq<usize>, q: int, x: int)
    requires
        valid_offsets(off, vals.len() as int),
        0 <= q < off.len() - 1,
    ensures
        group_has(off, vals, q, x) <==> crate::csr::seq_has(
            vals.subrange(off[q] as int, off[q + 1] as int),
            x,
        ),
{
    lemma_offsets_mono(off, vals.len() as int, q, q + 1);
    lemma_offsets_mono(off, vals.len() as int, q + 1, off.len() - 1);
    let sub = vals.subrange(off[q] as int, off[q + 1] as int);
    if group_has(off, vals, q, x) {
        let i = choose|i: int| off[q] <= i < off[q + 1] && (#[trigger] vals[i] as int) == x;
        assert(sub[i - off[q]] as int == x);
        assert(crate::csr::seq_has(sub, x));
    }
    if crate::csr::seq_has(sub, x) {
        let j = choose|j: int| 0 <= j < sub.len() && (#[trigger] sub[j] as int) == x;
        assert(vals[off[q] + j] as int == x);
        assert(off[q] <= off[q] + j < off[q + 1] && vals[off[q] + j] as int == x);
        assert(group_has(off, vals, q, x));
    }
}

proof fn lemma_offsets_from_sizes(o1: Seq<usize>, o2: Seq<usize>, m: int)
    requires
        0 <= m < o1.len(),
        m < o2.len(),
        o1[0] == o2[0],
        forall|q: int|
            #![trigger o1[q], o2[q]]
            0 <= q < m ==> o1[q + 1] - o1[q] == o2[q + 1] - o2[q],
    ensures
        forall|q: int| 0 <= q <= m ==> #[trigger] o1[q] == o2[q],
    decreases m,
{
    if m > 0 {
        lemma_offsets_from_sizes(o1, o2, m - 1);
        assert(o1[m - 1] == o2[m - 1]);
        assert(o1[m] - o1[m - 1] == o2[m] - o2[m - 1]);
    }
}

/// Determinism of the incidence builder: its contract pins both output
/// arrays completely, so rebuilding from the same input yields the same
/// incidence map.
pub proof fn lemma_incidence_unique(
    elem2idx: Seq<usize>,
    idx2vtx: Seq<usize>,
    num_vtx: int,
    o1: Seq<usize>,
    j1: Seq<usize>,
    o2: Seq<usize>,
    j2: Seq<usize>,
)
    requires
        incidence_post(elem2idx, idx2vtx, num_vtx, o1, j1),
        incidence_post(elem2idx, idx2vtx, num_vtx, o2, j2),
        0 <= num_vtx,
        forall|i: int| 0 <= i < idx2vtx.len() ==> (#[trigger] idx2vtx[i] as int) < num_vtx,
    ensures
        o1 == o2,
        j1 == j2,
{
    let ll = idx2vtx.len() as int;
    assert forall|v: int| 0 <= v < o1.len() implies #[trigger] o1[v] == o2[v] by {
        assert(o1[v] as int == count_lt(idx2vtx, v, ll));
        assert(o2[v] as int == count_lt(idx2vtx, v, ll));
    }
    assert(o1 =~= o2);
    crate::incidence::lemma_incidence_offsets_valid(elem2idx, idx2vtx, num_vtx, o1, j1);
    assert forall|t: int| 0 <= t < j1.len() implies #[trigger] j1[t] == j2[t] by {
        lemma_owner_exists(o1, ll, t);
        let v = owner_of(o1, t);
        lemma_offsets_mono(o1, ll, v + 1, o1.len() - 1);
        let g = incidence_group(elem2idx, idx2vtx, v, ll);
        assert(j1.subrange(o1[v] as int, o1[v + 1] as int) == g);
        assert(j2.subrange(o2[v] as int, o2[v + 1] as int) == g);
        assert(j1[t] == j1.subrange(o1[v] as int, o1[v + 1] as int)[t - o1[v]]);
        assert(j2[t] == j2.subrange(o2[v] as int, o2[v + 1] as int)[t - o2[v]]);
    }
    assert(j1 =~= j2);
}

/// Determinism of the edge extractor: its contract pins both output
/// arrays completely, so rebuilding from the same input yields the same
/// adjacency.
#[verifier::rlimit(100)]
pub proof fn lemma_adjacency_unique(
    elem2idx: Seq<usize>,
    idx2vtx: Seq<usize>,
    vtx2jdx: Seq<usize>,
    jdx2elem: Seq<usize>,
    bidir: bool,
    o1: Seq<usize>,
    k1: Seq<usize>,
    o2: Seq<usize>,
    k2: Seq<usize>,
)
    requires
        adjacency_post(elem2idx, idx2vtx, vtx2jdx, jdx2elem, bidir, o1, k1),
        adjacency_post(elem2idx, idx2vtx, vtx2jdx, jdx2elem, bidir, o2, k2),
    ensures
        o1 == o2,
        k1 == k2,
{
    let nvtx = vtx2jdx.len() - 1;
    assert forall|q: int| 0 <= q < nvtx implies (#[trigger] k1.subrange(
        o1[q] as int,
        o1[q + 1] as int,
    )) == k2.subrange(o2[q] as int, o2[q + 1] as int) by {
        let g1 = k1.subrange(o1[q] as int, o1[q + 1] as int);
        let g2 = k2.subrange(o2[q] as int, o2[q + 1] as int);
        assert forall|x: int|
            crate::csr::seq_has(g1, x) <==> crate::csr::seq_has(g2, x) by {
            lemma_group_seq_has(o1, k1, q, x);
            lemma_group_seq_has(o2, k2, q, x);
            assert(group_has(o1, k1, q, x) <==> is_adjacent(
                elem2idx,
                idx2vtx,
                vtx2jdx,
                jdx2elem,
                bidir,
                q,
                x,
            ));
            assert(group_has(o2, k2, q, x) <==> is_adjacent(
                elem2idx,
                idx2vtx,
                vtx2jdx,
                jdx2elem,
                bidir,
                q,
                x,
            ));
        }
        crate::csr::lemma_sorted_unique(g1, g2);
    }
    assert forall|q: int|
        #![trigger o1[q], o2[q]]
        0 <= q < nvtx implies o1[q + 1] - o1[q] == o2[q + 1] - o2[q] by {
        assert(k1.subrange(o1[q] as int, o1[q + 1] as int) == k2.subrange(
            o2[q] as int,
            o2[q + 1] as int,
        ));
        lemma_offsets_mono(o1, k1.len() as int, q, q + 1);
        lemma_offsets_mono(o1, k1.len() as int, q + 1, o1.len() - 1);
        lemma_offsets_mono(o2, k2.len() as int, q, q + 1);
        lemma_offsets_mono(o2, k2.len() as int, q + 1, o2.len() - 1);
    }
    lemma_offsets_from_sizes(o1, o2, nvtx);
    assert(o1 =~= o2);
    assert(k1.len() == o1[nvtx] as int && k2.len() == o2[nvtx] as int);
    assert forall|t: int| 0 <= t < k1.len() implies #[trigger] k1[t] == k2[t] by {
        lemma_owner_exists(o1, k1.len() as int, t);
        let q = owner_of(o1, t);
        lemma_offsets_mono(o1, k1.len() as int, q + 1, o1.len() - 1);
        assert(k1.subrange(o1[q] as int, o1[q + 1] as int) == k2.subrange(
            o2[q] as int,
            o2[q + 1] as int,
        ));
        assert(k1[t] == k1.subrange(o1[q] as int, o1[q + 1] as int)[t - o1[q]]);
        assert(k2[t] == k2.subrange(o2[q] as int, o2[q + 1] as int)[t - o2[q]]);
    }
    assert(k1 =~= k2);
}

} // verus!
