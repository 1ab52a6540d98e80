//! The element reducer: splits a mixed triangle/quadrilateral element list
//! into an all-triangle list, each quadrilateral along its 0-2 diagonal.

#![verifier::loop_isolation(false)]

use vstd::prelude::*;
use crate::adjacency::elem_size;
use crate::csr::lemma_offsets_mono;
use crate::csr::valid_offsets;

verus! {

/// The triangles an element contributes: itself if it is a triangle; the
/// two triangles along the diagonal from corner 0 to corner 2 if it is a
/// quadrilateral; nothing for any other arity.
pub open spec fn tri_of_elem(off: Seq<usize>, val: Seq<usize>, e: int) -> Seq<usize> {
    let b = off[e] as int;
    if elem_size(off, e) == 3 {
        seq![val[b], val[b + 1], val[b + 2]]
    } else if elem_size(off, e) == 4 {
        seq![val[b], val[b + 1], val[b + 2], val[b], val[b + 2], val[b + 3]]
    } else {
        Seq::empty()
    }
}

/// The flat triangle list of the first `ne` elements, in element order.
pub open spec fn tri_list(off: Seq<usize>, val: Seq<usize>, ne: int) -> Seq<usize>
    decreases ne,
{
    if ne <= 0 {
        Seq::empty()
    } else {
        tri_list(off, val, ne - 1) + tri_of_elem(off, val, ne - 1)
    }
}

/// Converts a mixed triangle/quadrilateral element list into a flat
/// triangle list (three vertex indices per triangle): triangles are kept,
/// quadrilaterals are split along the diagonal from corner 0 to corner 2.
pub fn meshtri_from_meshtriquad(elem2idx: &[usize], idx2vtx: &[usize]) -> (r: Vec<usize>)
    requires
        valid_offsets(elem2idx@, idx2vtx@.len() as int),
    ensures
        r@ == tri_list(elem2idx@, idx2vtx@, elem2idx@.len() - 1),
{
    let ghost off = elem2idx@;
    let ghost s = idx2vtx@;
    let num_elem = elem2idx.len() - 1;
    let mut tri2vtx: Vec<usize> = Vec::new();
    let mut ielem: usize = 0;
    while ielem < num_elem
        invariant
            0 <= ielem <= num_elem,
            tri2vtx@ == tri_list(off, s, ielem as int),
        decreases num_elem - ielem,
    {
        proof {
            lemma_offsets_mono(off, s.len() as int, ielem as int, ielem + 1);
            lemma_offsets_mono(off, s.len() as int, ielem + 1, off.len() - 1);
        }
        let nnode = elem2idx[ielem + 1] - elem2idx[ielem];
        let iiv0 = elem2idx[ielem];
        if nnode == 3 {
            tri2vtx.push(idx2vtx[iiv0]);
            tri2vtx.push(idx2vtx[iiv0 + 1]);
            tri2vtx.push(idx2vtx[iiv0 + 2]);
        } else if nnode == 4 {
            tri2vtx.push(idx2vtx[iiv0]);
            tri2vtx.push(idx2vtx[iiv0 + 1]);
            tri2vtx.push(idx2vtx[iiv0 + 2]);
            tri2vtx.push(idx2vtx[iiv0]);
            tri2vtx.push(idx2vtx[iiv0 + 2]);
            tri2vtx.push(idx2vtx[iiv0 + 3]);
        }
        proof {
            assert(tri2vtx@ =~= tri_list(off, s, ielem as int) + tri_of_elem(off, s, ielem as int));
        }
        ielem += 1;
    }
    tri2vtx
}

/// Twice the signed area of the triangle `(a, b, c)`.
pub open spec fn tri_signed_area2(
    ax: int,
    ay: int,
    bx: int,
    by: int,
    cx: int,
    cy: int,
) -> int {
    (bx - ax) * (cy - ay) - (cx - ax) * (by - ay)
}

/// Twice the signed area of the quadrilateral `(p0, p1, p2, p3)`, by the
/// shoelace formula.
pub open spec fn quad_signed_area2(
    x0: int,
    y0: int,
    x1: int,
    y1: int,
    x2: int,
    y2: int,
    x3: int,
    y3: int,
) -> int {
    x0 * (y1 - y3) + x1 * (y2 - y0) + x2 * (y3 - y1) + x3 * (y0 - y2)
}

/// Splitting a quadrilateral along the diagonal from corner 0 to corner 2
/// — the split the element reducer applies — partitions its area: the two
/// triangles' signed areas add up exactly to the quadrilateral's, leaving
/// no gap and no overlap.
pub proof fn lemma_quad_split_preserves_area(
    x0: int,
    y0: int,
    x1: int,
    y1: int,
    x2: int,
    y2: int,
    x3: int,
    y3: int,
)
    ensures
        tri_signed_area2(x0, y0, x1, y1, x2, y2) + tri_signed_area2(x0, y0, x2, y2, x3, y3)
            == quad_signed_area2(x0, y0, x1, y1, x2, y2, x3, y3),
{
    assert((x1 - x0) * (y2 - y0) - (x2 - x0) * (y1 - y0) + ((x2 - x0) * (y3 - y0) - (x3 - x0) * (y2
        - y0)) == x0 * (y1 - y3) + x1 * (y2 - y0) + x2 * (y3 - y1) + x3 * (y0 - y2))
        by (nonlinear_arith);
}

} // verus!
