//! The line-mesh deriver: flattens a vertex adjacency into line (edge)
//! elements, and composes the incidence builder and the edge extractor to
//! derive the line mesh of a mixed triangle/quadrilateral mesh.

#![verifier::loop_isolation(false)]

use vstd::prelude::*;
use crate::adjacency::adjacency_post;
use crate::adjacency::elem_size;
use crate::adjacency::psupedge_from_meshtriquad;
use crate::csr::lemma_offsets_mono;
use crate::csr::valid_offsets;
use crate::incidence::elsup;
use crate::incidence::incidence_post;
use crate::incidence::lemma_incidence_offsets_valid;
use crate::incidence::lemma_incidence_values_bounded;

verus! {

/// The line elements of vertex `v` over its first `cnt` neighbours: one
/// pair `(v, w)` per neighbour `w`, in neighbour order.
pub open spec fn vtx_lines(off: Seq<usize>, val: Seq<usize>, v: int, cnt: int) -> Seq<usize>
    decreases cnt,
{
    if cnt <= 0 {
        Seq::empty()
    } else {
        vtx_lines(off, val, v, cnt - 1) + seq![(v as usize), val[off[v] + cnt - 1]]
    }
}

/// The flat line element list of the first `nv` vertices of an adjacency
/// CSR pair: every vertex paired with each of its neighbours, in order.
pub open spec fn line_list(off: Seq<usize>, val: Seq<usize>, nv: int) -> Seq<usize>
    decreases nv,
{
    if nv <= 0 {
        Seq::empty()
    } else {
        line_list(off, val, nv - 1) + vtx_lines(off, val, nv - 1, off[nv] - off[nv - 1])
    }
}

/// Flattens a vertex adjacency CSR pair into a flat line element list
/// (two vertex indices per line): one line `(v, w)` for every vertex `v`
/// and every neighbour `w` in `v`'s group, with no further deduplication.
pub fn mshline_psup(vtx2idx: &[usize], idx2vtx: &[usize]) -> (r: Vec<usize>)
    requires
        valid_offsets(vtx2idx@, idx2vtx@.len() as int),
    ensures
        r@ == line_list(vtx2idx@, idx2vtx@, vtx2idx@.len() - 1),
{
    let ghost off = vtx2idx@;
    let ghost s = idx2vtx@;
    let nvtx = vtx2idx.len() - 1;
    let mut line2vtx: Vec<usize> = Vec::new();
    let mut ivtx: usize = 0;
    while ivtx < nvtx
        invariant
            0 <= ivtx <= nvtx,
            line2vtx@ == line_list(off, s, ivtx as int),
        decreases nvtx - ivtx,
    {
        proof {
            lemma_offsets_mono(off, s.len() as int, ivtx as int, ivtx + 1);
            lemma_offsets_mono(off, s.len() as int, ivtx + 1, off.len() - 1);
        }
        let lo = vtx2idx[ivtx];
        let hi = vtx2idx[ivtx + 1];
        let mut jdx: usize = lo;
        while jdx < hi
            invariant
                lo <= jdx <= hi,
                line2vtx@ == line_list(off, s, ivtx as int) + vtx_lines(
                    off,
                    s,
                    ivtx as int,
                    jdx - lo,
                ),
            decreases hi - jdx,
        {
            line2vtx.push(ivtx);
            line2vtx.push(idx2vtx[jdx]);
            proof {
                assert(line2vtx@ =~= line_list(off, s, ivtx as int) + vtx_lines(
                    off,
                    s,
                    ivtx as int,
                    jdx + 1 - lo,
                ));
            }
            jdx += 1;
        }
        ivtx += 1;
    }
    line2vtx
}

/// What the line-mesh deriver returns: the flattened line list of the
/// single-representative (non-bidirectional) vertex adjacency derived from
/// the incidence map of the element table.
pub open spec fn meshline_post(
    elem2idx: Seq<usize>,
    idx2vtx: Seq<usize>,
    num_vtx: int,
    r: Seq<usize>,
) -> bool {
    exists|vtx2jdx: Seq<usize>, jdx2elem: Seq<usize>, vtx2kdx: Seq<usize>, kdx2vtx: Seq<usize>|
        {
            &&& incidence_post(elem2idx, idx2vtx, num_vtx, vtx2jdx, jdx2elem)
            &&& #[trigger] adjacency_post(
                elem2idx,
                idx2vtx,
                vtx2jdx,
                jdx2elem,
                false,
                vtx2kdx,
                kdx2vtx,
            )
            &&& r == line_list(vtx2kdx, kdx2vtx, num_vtx)
        }
}

/// Derives the line (edge) mesh of a mixed triangle/quadrilateral mesh:
/// each undirected element edge becomes exactly one line element, owned by
/// its lower-indexed endpoint.
pub fn meshline_from_meshtriquad(elem2idx: &[usize], idx2vtx: &[usize], num_vtx: usize) -> (r: Vec<
    usize,
>)
    requires
        valid_offsets(elem2idx@, idx2vtx@.len() as int),
        forall|i: int| 0 <= i < idx2vtx@.len() ==> (#[trigger] idx2vtx@[i] as int) < num_vtx,
        num_vtx < usize::MAX,
        forall|e: int|
            0 <= e < elem2idx@.len() - 1 ==> (#[trigger] elem_size(elem2idx@, e) == 3 || elem_size(
                elem2idx@,
                e,
            ) == 4),
    ensures
        meshline_post(elem2idx@, idx2vtx@, num_vtx as int, r@),
{
    let vtx2elem = elsup(elem2idx, idx2vtx, num_vtx);
    proof {
        lemma_incidence_offsets_valid(
            elem2idx@,
            idx2vtx@,
            num_vtx as int,
            vtx2elem.0@,
            vtx2elem.1@,
        );
        lemma_incidence_values_bounded(
            elem2idx@,
            idx2vtx@,
            num_vtx as int,
            vtx2elem.0@,
            vtx2elem.1@,
        );
    }
    let vtx2vtx = psupedge_from_meshtriquad(
        elem2idx,
        idx2vtx,
        vtx2elem.0.as_slice(),
        vtx2elem.1.as_slice(),
        false,
    );
    let r = mshline_psup(vtx2vtx.0.as_slice(), vtx2vtx.1.as_slice());
    proof {
        assert(vtx2vtx.0@.len() == num_vtx + 1);
        assert(adjacency_post(
            elem2idx@,
            idx2vtx@,
            vtx2elem.0@,
            vtx2elem.1@,
            false,
            vtx2vtx.0@,
            vtx2vtx.1@,
        ));
    }
    r
}

} // verus!
