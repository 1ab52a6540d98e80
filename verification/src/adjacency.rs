//! The edge extractor: derives, per vertex, the sorted set of edge-adjacent
//! vertices of a mixed triangle/quadrilateral mesh, from the element table
//! and the vertex-to-element incidence.

#![verifier::loop_isolation(false)]

use vstd::prelude::*;
use crate::csr::lemma_mono_prefix;
use crate::csr::lemma_offsets_mono;
use crate::csr::seq_has;
use crate::csr::strictly_increasing;
use crate::csr::valid_offsets;

verus! {

/// Number of vertices of element `e` in the offsets array `off`.
pub open spec fn elem_size(off: Seq<usize>, e: int) -> int {
    off[e + 1] - off[e]
}

/// Number of boundary edges of element `e`: three for a triangle,
/// four for a quadrilateral.
pub open spec fn num_edges_of(off: Seq<usize>, e: int) -> int {
    if elem_size(off, e) == 3 {
        3
    } else {
        4
    }
}

/// First local corner of edge `k` of an element with `nnode` corners.
pub open spec fn edge_node0(nnode: int, k: int) -> int {
    if k == 0 {
        0
    } else if k == 1 {
        1
    } else if k == 2 {
        2
    } else {
        3
    }
}

/// Second local corner of edge `k` of an element with `nnode` corners:
/// the next corner around the boundary.
pub open spec fn edge_node1(nnode: int, k: int) -> int {
    if k == nnode - 1 {
        0
    } else {
        edge_node0(nnode, k) + 1
    }
}

/// First global endpoint of edge `k` of element `e`.
pub open spec fn endpoint0(off: Seq<usize>, val: Seq<usize>, e: int, k: int) -> int {
    val[off[e] + edge_node0(elem_size(off, e), k)] as int
}

/// Second global endpoint of edge `k` of element `e`.
pub open spec fn endpoint1(off: Seq<usize>, val: Seq<usize>, e: int, k: int) -> int {
    val[off[e] + edge_node1(elem_size(off, e), k)] as int
}

/// Edge `k` of element `e` makes `w` a recorded neighbour of `ip`: one of
/// its endpoints is `ip`, `w` is the other endpoint, and either both
/// directions are kept or `w` lies strictly above `ip`.
pub open spec fn edge_yields(
    off: Seq<usize>,
    val: Seq<usize>,
    e: int,
    k: int,
    bidir: bool,
    ip: int,
    w: int,
) -> bool {
    let p0 = endpoint0(off, val, e, k);
    let p1 = endpoint1(off, val, e, k);
    if p0 == ip {
        w == p1 && (bidir || p1 > ip)
    } else if p1 == ip {
        w == p0 && (bidir || p0 > ip)
    } else {
        false
    }
}

/// Some edge of element `e` below index `khi` makes `w` a neighbour of `ip`.
pub open spec fn edge_upto(
    off: Seq<usize>,
    val: Seq<usize>,
    e: int,
    khi: int,
    bidir: bool,
    ip: int,
    w: int,
) -> bool {
    exists|k: int| 0 <= k < khi && #[trigger] edge_yields(off, val, e, k, bidir, ip, w)
}

/// Some edge of element `e` makes `w` a neighbour of `ip`.
pub open spec fn elem_yields(
    off: Seq<usize>,
    val: Seq<usize>,
    e: int,
    bidir: bool,
    ip: int,
    w: int,
) -> bool {
    edge_upto(off, val, e, num_edges_of(off, e), bidir, ip, w)
}

/// Some element listed in `jdx2elem` at a position in `[lo, hi)` makes `w`
/// a neighbour of `ip`.
pub open spec fn adj_upto(
    off: Seq<usize>,
    val: Seq<usize>,
    jdx2elem: Seq<usize>,
    bidir: bool,
    ip: int,
    lo: int,
    hi: int,
    w: int,
) -> bool {
    exists|jdx: int|
        lo <= jdx < hi && #[trigger] elem_yields(off, val, jdx2elem[jdx] as int, bidir, ip, w)
}

/// `w` is a recorded neighbour of `ip`: some element incident to `ip`
/// contributes an edge from `ip` to `w` that the direction policy keeps.
pub open spec fn is_adjacent(
    off: Seq<usize>,
    val: Seq<usize>,
    vtx2jdx: Seq<usize>,
    jdx2elem: Seq<usize>,
    bidir: bool,
    ip: int,
    w: int,
) -> bool {
    adj_upto(off, val, jdx2elem, bidir, ip, vtx2jdx[ip] as int, vtx2jdx[ip + 1] as int, w)
}

/// Group `g` of the CSR pair `(off, vals)` holds the value `x`.
pub open spec fn group_has(off: Seq<usize>, vals: Seq<usize>, g: int, x: int) -> bool {
    exists|i: int| off[g] <= i < off[g + 1] && (#[trigger] vals[i] as int) == x
}

/// What the edge extractor returns: a well-formed CSR pair whose group
/// `ip` holds, strictly ascending and without repetition, exactly the
/// neighbours of `ip` that the direction policy keeps.
pub open spec fn adjacency_post(
    elem2idx: Seq<usize>,
    idx2vtx: Seq<usize>,
    vtx2jdx: Seq<usize>,
    jdx2elem: Seq<usize>,
    bidir: bool,
    vtx2kdx: Seq<usize>,
    kdx2vtx: Seq<usize>,
) -> bool {
    let nvtx = vtx2jdx.len() - 1;
    &&& vtx2kdx.len() == nvtx + 1
    &&& valid_offsets(vtx2kdx, kdx2vtx.len() as int)
    &&& forall|ip: int|
        0 <= ip < nvtx ==> strictly_increasing(
            #[trigger] kdx2vtx.subrange(vtx2kdx[ip] as int, vtx2kdx[ip + 1] as int),
        )
    &&& forall|ip: int, w: int|
        0 <= ip < nvtx ==> (#[trigger] group_has(vtx2kdx, kdx2vtx, ip, w) <==> is_adjacent(
            elem2idx,
            idx2vtx,
            vtx2jdx,
            jdx2elem,
            bidir,
            ip,
            w,
        ))
}

proof fn lemma_edge_upto_step(
    off: Seq<usize>,
    val: Seq<usize>,
    e: int,
    k: int,
    bidir: bool,
    ip: int,
    w: int,
)
    requires
        0 <= k,
    ensures
        edge_upto(off, val, e, k + 1, bidir, ip, w) <==> (edge_upto(off, val, e, k, bidir, ip, w)
            || edge_yields(off, val, e, k, bidir, ip, w)),
{
    if edge_upto(off, val, e, k + 1, bidir, ip, w) {
        let kk = choose|kk: int|
            0 <= kk < k + 1 && #[trigger] edge_yields(off, val, e, kk, bidir, ip, w);
        if kk < k {
            assert(edge_upto(off, val, e, k, bidir, ip, w));
        }
    }
    if edge_upto(off, val, e, k, bidir, ip, w) {
        let kk = choose|kk: int| 0 <= kk < k && #[trigger] edge_yields(off, val, e, kk, bidir, ip, w);
        assert(0 <= kk < k + 1 && edge_yields(off, val, e, kk, bidir, ip, w));
    }
    if edge_yields(off, val, e, k, bidir, ip, w) {
        assert(0 <= k < k + 1 && edge_yields(off, val, e, k, bidir, ip, w));
    }
}

proof fn lemma_adj_upto_step(
    off: Seq<usize>,
    val: Seq<usize>,
    jdx2elem: Seq<usize>,
    bidir: bool,
    ip: int,
    lo: int,
    hi: int,
    w: int,
)
    requires
        lo <= hi,
    ensures
        adj_upto(off, val, jdx2elem, bidir, ip, lo, hi + 1, w) <==> (adj_upto(
            off,
            val,
            jdx2elem,
            bidir,
            ip,
            lo,
            hi,
            w,
        ) || elem_yields(off, val, jdx2elem[hi] as int, bidir, ip, w)),
{
    if adj_upto(off, val, jdx2elem, bidir, ip, lo, hi + 1, w) {
        let jdx = choose|jdx: int|
            lo <= jdx < hi + 1 && #[trigger] elem_yields(
                off,
                val,
                jdx2elem[jdx] as int,
                bidir,
                ip,
                w,
            );
        if jdx < hi {
            assert(adj_upto(off, val, jdx2elem, bidir, ip, lo, hi, w));
        }
    }
    if adj_upto(off, val, jdx2elem, bidir, ip, lo, hi, w) {
        let jdx = choose|jdx: int|
            lo <= jdx < hi && #[trigger] elem_yields(off, val, jdx2elem[jdx] as int, bidir, ip, w);
        assert(lo <= jdx < hi + 1 && elem_yields(off, val, jdx2elem[jdx] as int, bidir, ip, w));
    }
    if elem_yields(off, val, jdx2elem[hi] as int, bidir, ip, w) {
        assert(lo <= hi < hi + 1 && elem_yields(off, val, jdx2elem[hi] as int, bidir, ip, w));
    }
}

/// Inserts `x` into the strictly increasing vector `v`, keeping it strictly
/// increasing; a value already present is not repeated.
fn sorted_insert(v: &mut Vec<usize>, x: usize)
    requires
        strictly_increasing(old(v)@),
    ensures
        strictly_increasing(final(v)@),
        forall|w: int| #![trigger seq_has(final(v)@, w)]
            seq_has(final(v)@, w) <==> (seq_has(old(v)@, w) || w == x as int),
{
    let ghost v0 = old(v)@;
    let mut i: usize = 0;
    while i < v.len() && v[i] < x
        invariant
            0 <= i <= v.len(),
            forall|j: int| 0 <= j < i ==> (#[trigger] v@[j]) < x,
        decreases v.len() - i,
    {
        i += 1;
    }
    if i == v.len() {
        v.push(x);
        proof {
            assert forall|a: int, b: int| #![trigger v@[a], v@[b]]
                0 <= a < b < v@.len() implies v@[a] < v@[b] by {
                if b < v@.len() - 1 {
                    assert(v0[a] < v0[b]);
                }
            }
            assert forall|w: int| #![trigger seq_has(v@, w)]
                seq_has(v@, w) <==> (seq_has(v0, w) || w == x as int) by {
                if seq_has(v@, w) {
                    let j = choose|j: int| 0 <= j < v@.len() && (#[trigger] v@[j] as int) == w;
                    if j < v@.len() - 1 {
                        assert(v0[j] as int == w);
                        assert(seq_has(v0, w));
                    }
                }
                if seq_has(v0, w) {
                    let j = choose|j: int| 0 <= j < v0.len() && (#[trigger] v0[j] as int) == w;
                    assert(v@[j] as int == w);
                    assert(seq_has(v@, w));
                }
                if w == x as int {
                    assert(v@[v@.len() - 1] as int == w);
                    assert(seq_has(v@, w));
                }
            }
        }
    } else if v[i] != x {
        // the scan stopped at the first entry above x
        v.insert(i, x);
        proof {
            let n1 = v@;
            assert(forall|j: int| 0 <= j < i ==> n1[j] == v0[j]);
            assert(n1[i as int] == x);
            assert(forall|j: int| i < j < n1.len() ==> n1[j] == v0[j - 1]);
            assert(v0[i as int] > x);
            assert forall|a: int, b: int| #![trigger n1[a], n1[b]]
                0 <= a < b < n1.len() implies n1[a] < n1[b] by {
                if a < i && b > i {
                    assert(v0[a] < x);
                    assert(v0[i as int] <= v0[b - 1]);
                } else if a == i && b > i {
                    assert(x < v0[i as int] && v0[i as int] <= v0[b - 1]);
                }
            }
            assert forall|w: int| #![trigger seq_has(n1, w)]
                seq_has(n1, w) <==> (seq_has(v0, w) || w == x as int) by {
                if seq_has(n1, w) {
                    let j = choose|j: int| 0 <= j < n1.len() && (#[trigger] n1[j] as int) == w;
                    if j < i {
                        assert(v0[j] as int == w);
                        assert(seq_has(v0, w));
                    } else if j > i {
                        assert(v0[j - 1] as int == w);
                        assert(seq_has(v0, w));
                    }
                }
                if seq_has(v0, w) {
                    let j = choose|j: int| 0 <= j < v0.len() && (#[trigger] v0[j] as int) == w;
                    if j < i {
                        assert(n1[j] as int == w);
                    } else {
                        assert(n1[j + 1] as int == w);
                    }
                    assert(seq_has(n1, w));
                }
                if w == x as int {
                    assert(n1[i as int] as int == w);
                    assert(seq_has(n1, w));
                }
            }
        }
    } else {
        proof {
            assert(v@[i as int] as int == x as int);
            assert(seq_has(v@, x as int));
        }
    }
}

/// Builds the vertex-to-vertex edge adjacency of a mixed triangle and
/// quadrilateral mesh (points surrounding a point along element edges).
/// With `is_bidirectional` every edge is recorded under both endpoints;
/// without it only under its lower-indexed endpoint.
pub fn psupedge_from_meshtriquad(
    elem2idx: &[usize],
    idx2vtx: &[usize],
    vtx2jdx: &[usize],
    jdx2elem: &[usize],
    is_bidirectional: bool,
) -> (r: (Vec<usize>, Vec<usize>))
    requires
        valid_offsets(elem2idx@, idx2vtx@.len() as int),
        valid_offsets(vtx2jdx@, jdx2elem@.len() as int),
        forall|e: int|
            0 <= e < elem2idx@.len() - 1 ==> (#[trigger] elem_size(elem2idx@, e) == 3 || elem_size(
                elem2idx@,
                e,
            ) == 4),
        forall|j: int|
            0 <= j < jdx2elem@.len() ==> (#[trigger] jdx2elem@[j] as int) < elem2idx@.len() - 1,
    ensures
        adjacency_post(
            elem2idx@,
            idx2vtx@,
            vtx2jdx@,
            jdx2elem@,
            is_bidirectional,
            r.0@,
            r.1@,
        ),
{
    let ghost off = elem2idx@;
    let ghost s = idx2vtx@;
    let ghost inc_off = vtx2jdx@;
    let ghost inc = jdx2elem@;
    let nvtx = vtx2jdx.len() - 1;
    let mut vtx2kdx: Vec<usize> = vec![0; nvtx + 1];
    let mut kdx2vtx: Vec<usize> = Vec::new();
    let mut ip: usize = 0;
    while ip < nvtx
        invariant
            0 <= ip <= nvtx,
            vtx2kdx.len() == nvtx + 1,
            vtx2kdx@[0] == 0,
            vtx2kdx@[ip as int] as int == kdx2vtx@.len(),
            forall|q: int| 0 <= q < ip ==> (#[trigger] vtx2kdx@[q]) <= vtx2kdx@[q + 1],
            forall|q: int|
                0 <= q < ip ==> strictly_increasing(
                    #[trigger] kdx2vtx@.subrange(vtx2kdx@[q] as int, vtx2kdx@[q + 1] as int),
                ),
            forall|q: int, w: int|
                0 <= q < ip ==> (#[trigger] group_has(vtx2kdx@, kdx2vtx@, q, w) <==> is_adjacent(
                    off,
                    s,
                    inc_off,
                    inc,
                    is_bidirectional,
                    q,
                    w,
                )),
        decreases nvtx - ip,
    {
        proof {
            lemma_offsets_mono(inc_off, inc.len() as int, ip + 1, inc_off.len() - 1);
            lemma_offsets_mono(inc_off, inc.len() as int, ip as int, ip + 1);
        }
        let mut neighbors: Vec<usize> = Vec::new();
        let ghost lo = vtx2jdx@[ip as int] as int;
        let mut jdx0 = vtx2jdx[ip];
        let hi = vtx2jdx[ip + 1];
        while jdx0 < hi
            invariant
                lo <= jdx0 <= hi,
                hi == vtx2jdx@[ip + 1],
                hi <= inc.len(),
                strictly_increasing(neighbors@),
                forall|w: int| #![trigger seq_has(neighbors@, w)]
                    seq_has(neighbors@, w) <==> adj_upto(
                        off,
                        s,
                        inc,
                        is_bidirectional,
                        ip as int,
                        lo,
                        jdx0 as int,
                        w,
                    ),
            decreases hi - jdx0,
        {
            let ielem0 = jdx2elem[jdx0];
            let ghost e = ielem0 as int;
            proof {
                lemma_offsets_mono(off, s.len() as int, e, e + 1);
                lemma_offsets_mono(off, s.len() as int, e + 1, off.len() - 1);
            }
            let base = elem2idx[ielem0];
            let nnode = elem2idx[ielem0 + 1] - elem2idx[ielem0];
            let nedge: usize = if nnode == 3 {
                3
            } else {
                4
            };
            assert(nedge as int == num_edges_of(off, e));
            let mut iedge: usize = 0;
            while iedge < nedge
                invariant
                    0 <= iedge <= nedge,
                    strictly_increasing(neighbors@),
                    forall|w: int| #![trigger seq_has(neighbors@, w)]
                        seq_has(neighbors@, w) <==> (adj_upto(
                            off,
                            s,
                            inc,
                            is_bidirectional,
                            ip as int,
                            lo,
                            jdx0 as int,
                            w,
                        ) || edge_upto(off, s, e, iedge as int, is_bidirectional, ip as int, w)),
                decreases nedge - iedge,
            {
                let ghost k = iedge as int;
                let (inode0, inode1) = if nnode == 3 {
                    if iedge == 0 {
                        (0usize, 1usize)
                    } else if iedge == 1 {
                        (1, 2)
                    } else {
                        (2, 0)
                    }
                } else {
                    if iedge == 0 {
                        (0usize, 1usize)
                    } else if iedge == 1 {
                        (1, 2)
                    } else if iedge == 2 {
                        (2, 3)
                    } else {
                        (3, 0)
                    }
                };
                assert(inode0 as int == edge_node0(elem_size(off, e), k));
                assert(inode1 as int == edge_node1(elem_size(off, e), k));
                let ip0 = idx2vtx[base + inode0];
                let ip1 = idx2vtx[base + inode1];
                assert(ip0 as int == endpoint0(off, s, e, k));
                assert(ip1 as int == endpoint1(off, s, e, k));
                let ghost ns_old = neighbors@;
                if ip0 != ip && ip1 != ip {
                    proof {
                        assert(forall|w: int|
                            !edge_yields(off, s, e, k, is_bidirectional, ip as int, w));
                    }
                } else if ip0 == ip {
                    if is_bidirectional || ip1 > ip {
                        sorted_insert(&mut neighbors, ip1);
                        proof {
                            assert(forall|w: int|
                                edge_yields(off, s, e, k, is_bidirectional, ip as int, w) <==> w
                                    == ip1 as int);
                        }
                    } else {
                        proof {
                            assert(forall|w: int|
                                !edge_yields(off, s, e, k, is_bidirectional, ip as int, w));
                        }
                    }
                } else {
                    if is_bidirectional || ip0 > ip {
                        sorted_insert(&mut neighbors, ip0);
                        proof {
                            assert(forall|w: int|
                                edge_yields(off, s, e, k, is_bidirectional, ip as int, w) <==> w
                                    == ip0 as int);
                        }
                    } else {
                        proof {
                            assert(forall|w: int|
                                !edge_yields(off, s, e, k, is_bidirectional, ip as int, w));
                        }
                    }
                }
                proof {
                    assert forall|w: int| #![trigger seq_has(neighbors@, w)]
                        seq_has(neighbors@, w) <==> (adj_upto(
                            off,
                            s,
                            inc,
                            is_bidirectional,
                            ip as int,
                            lo,
                            jdx0 as int,
                            w,
                        ) || edge_upto(off, s, e, k + 1, is_bidirectional, ip as int, w)) by {
                        lemma_edge_upto_step(off, s, e, k, is_bidirectional, ip as int, w);
                        assert(seq_has(ns_old, w) <==> (adj_upto(
                            off,
                            s,
                            inc,
                            is_bidirectional,
                            ip as int,
                            lo,
                            jdx0 as int,
                            w,
                        ) || edge_upto(off, s, e, k, is_bidirectional, ip as int, w)));
                    }
                }
                iedge += 1;
            }
            proof {
                assert forall|w: int| #![trigger seq_has(neighbors@, w)]
                    seq_has(neighbors@, w) <==> adj_upto(
                        off,
                        s,
                        inc,
                        is_bidirectional,
                        ip as int,
                        lo,
                        jdx0 as int + 1,
                        w,
                    ) by {
                    lemma_adj_upto_step(
                        off,
                        s,
                        inc,
                        is_bidirectional,
                        ip as int,
                        lo,
                        jdx0 as int,
                        w,
                    );
                }
            }
            jdx0 += 1;
        }
        // flush the sorted neighbour set into the output arrays
        let ghost kd0 = kdx2vtx@;
        let mut t: usize = 0;
        while t < neighbors.len()
            invariant
                0 <= t <= neighbors.len(),
                kdx2vtx@ == kd0 + neighbors@.subrange(0, t as int),
            decreases neighbors.len() - t,
        {
            kdx2vtx.push(neighbors[t]);
            proof {
                assert(kdx2vtx@ =~= kd0 + neighbors@.subrange(0, t as int + 1));
            }
            t += 1;
        }
        proof {
            assert(kdx2vtx@ =~= kd0 + neighbors@);
        }
        let cur = vtx2kdx[ip];
        let add = neighbors.len();
        let len_k = kdx2vtx.len();
        assert(cur as int + add as int == len_k as int);
        let ghost ofs_old = vtx2kdx@;
        vtx2kdx.set(ip + 1, cur + add);
        proof {
            let ofs = vtx2kdx@;
            let kd = kdx2vtx@;
            let ipi = ip as int;
            assert(kd.subrange(cur as int, cur as int + add as int) =~= neighbors@);
            assert forall|q: int, w: int|
                0 <= q < ipi + 1 implies (#[trigger] group_has(ofs, kd, q, w) <==> is_adjacent(
                off,
                s,
                inc_off,
                inc,
                is_bidirectional,
                q,
                w,
            )) by {
                if q == ipi {
                    if group_has(ofs, kd, q, w) {
                        let i = choose|i: int|
                            ofs[q] <= i < ofs[q + 1] && (#[trigger] kd[i] as int) == w;
                        assert(neighbors@[i - cur] as int == w);
                        assert(seq_has(neighbors@, w));
                    }
                    if seq_has(neighbors@, w) {
                        let j = choose|j: int|
                            0 <= j < neighbors@.len() && (#[trigger] neighbors@[j] as int) == w;
                        assert(kd[cur as int + j] as int == w);
                        assert(group_has(ofs, kd, q, w));
                    }
                    assert(seq_has(neighbors@, w) <==> adj_upto(
                        off,
                        s,
                        inc,
                        is_bidirectional,
                        ipi,
                        lo,
                        hi as int,
                        w,
                    ));
                } else {
                    lemma_mono_prefix(ofs, q + 1, ipi, ipi + 1);
                    assert(group_has(ofs_old, kd0, q, w) <==> is_adjacent(
                        off,
                        s,
                        inc_off,
                        inc,
                        is_bidirectional,
                        q,
                        w,
                    ));
                    if group_has(ofs, kd, q, w) {
                        let i = choose|i: int|
                            ofs[q] <= i < ofs[q + 1] && (#[trigger] kd[i] as int) == w;
                        assert(kd0[i] as int == w);
                        assert(group_has(ofs_old, kd0, q, w));
                    }
                    if group_has(ofs_old, kd0, q, w) {
                        let i = choose|i: int|
                            ofs_old[q] <= i < ofs_old[q + 1] && (#[trigger] kd0[i] as int) == w;
                        assert(kd[i] as int == w);
                        assert(group_has(ofs, kd, q, w));
                    }
                }
            }
            assert forall|q: int| 0 <= q < ipi + 1 implies strictly_increasing(
                #[trigger] kd.subrange(ofs[q] as int, ofs[q + 1] as int),
            ) by {
                if q == ipi {
                    assert(kd.subrange(ofs[q] as int, ofs[q + 1] as int) =~= neighbors@);
                } else {
                    lemma_mono_prefix(ofs, q + 1, ipi, ipi + 1);
                    assert(kd.subrange(ofs[q] as int, ofs[q + 1] as int) =~= kd0.subrange(
                        ofs_old[q] as int,
                        ofs_old[q + 1] as int,
                    ));
                }
            }
        }
        ip += 1;
    }
    (vtx2kdx, kdx2vtx)
}

} // verus!
