//! Topology of cylinder-like primitives: the triangle list of a closed
//! tube — a bottom fan, stacked rings of quadrilaterals split into
//! triangles, and a top fan.  Shape generators combine this connectivity
//! with their own coordinates.

#![verifier::loop_isolation(false)]

use vstd::prelude::*;

verus! {

/// The first `m` triangles of the bottom fan: triangle `c` joins the
/// bottom apex (vertex 0) to ring vertices `c + 1` and `(c + 1) % nc + 1`.
pub open spec fn bottom_fan(nc: int, m: int) -> Seq<usize>
    decreases m,
{
    if m <= 0 {
        Seq::empty()
    } else {
        bottom_fan(nc, m - 1) + seq![
            0usize,
            ((m - 1) + 1) as usize,
            (((m - 1) + 1) % nc + 1) as usize,
        ]
    }
}

/// The first `m` quadrilaterals of ring `ih`, each split into two
/// triangles; ring `ih` joins ring vertices `ih * nc + 1 ..` to the ring
/// above, wrapping around the circumference.
pub open spec fn ring_row(nc: int, ih: int, m: int) -> Seq<usize>
    decreases m,
{
    if m <= 0 {
        Seq::empty()
    } else {
        let c = m - 1;
        let i1 = ih * nc + 1 + c;
        let i2 = ih * nc + 1 + (c + 1) % nc;
        let i3 = (ih + 1) * nc + 1 + (c + 1) % nc;
        let i4 = (ih + 1) * nc + 1 + c;
        ring_row(nc, ih, m - 1) + seq![
            i3 as usize,
            i2 as usize,
            i1 as usize,
            i4 as usize,
            i3 as usize,
            i1 as usize,
        ]
    }
}

/// The first `m` rings of quadrilaterals, stacked bottom to top.
pub open spec fn ring_rows(nc: int, m: int) -> Seq<usize>
    decreases m,
{
    if m <= 0 {
        Seq::empty()
    } else {
        ring_rows(nc, m - 1) + ring_row(nc, m - 1, nc)
    }
}

/// The first `m` triangles of the top fan: triangle `c` joins the top apex
/// (vertex `nc * (ns + 1) + 1`) to the last ring, winding opposite to the
/// bottom fan.
pub open spec fn top_fan(nc: int, ns: int, m: int) -> Seq<usize>
    decreases m,
{
    if m <= 0 {
        Seq::empty()
    } else {
        let c = m - 1;
        top_fan(nc, ns, m - 1) + seq![
            (nc * (ns + 1) + 1) as usize,
            (ns * nc + 1 + (c + 1) % nc) as usize,
            (ns * nc + 1 + c) as usize,
        ]
    }
}

/// The whole triangle list of a closed tube with `ns + 1` rings of `nc`
/// vertices between two apex vertices: bottom fan, `ns` quadrilateral
/// rings, top fan.
pub open spec fn cylinder_like_tris(ns: int, nc: int) -> Seq<usize> {
    bottom_fan(nc, nc) + ring_rows(nc, ns) + top_fan(nc, ns, nc)
}

proof fn lemma_bottom_fan_props(nc: int, m: int)
    requires
        1 <= nc,
        0 <= m <= nc,
    ensures
        bottom_fan(nc, m).len() == 3 * m,
        forall|t: int| 0 <= t < 3 * m ==> (#[trigger] bottom_fan(nc, m)[t] as int) <= nc,
    decreases m,
{
    if m > 0 {
        lemma_bottom_fan_props(nc, m - 1);
    }
}

proof fn lemma_ring_row_props(nc: int, ih: int, m: int)
    requires
        1 <= nc,
        0 <= ih,
        0 <= m <= nc,
    ensures
        ring_row(nc, ih, m).len() == 6 * m,
        forall|t: int|
            0 <= t < 6 * m ==> (#[trigger] ring_row(nc, ih, m)[t] as int) <= (ih + 1) * nc + nc,
    decreases m,
{
    if m > 0 {
        lemma_ring_row_props(nc, ih, m - 1);
        assert(ih * nc <= (ih + 1) * nc) by (nonlinear_arith)
            requires
                nc >= 1,
                ih >= 0,
        ;
    }
}

proof fn lemma_ring_rows_props(nc: int, m: int)
    requires
        1 <= nc,
        0 <= m,
    ensures
        ring_rows(nc, m).len() == 6 * nc * m,
        forall|t: int|
            0 <= t < 6 * nc * m ==> (#[trigger] ring_rows(nc, m)[t] as int) <= m * nc + nc,
    decreases m,
{
    if m > 0 {
        lemma_ring_rows_props(nc, m - 1);
        lemma_ring_row_props(nc, m - 1, nc);
        assert(ring_rows(nc, m) == ring_rows(nc, m - 1) + ring_row(nc, m - 1, nc));
        assert(ring_row(nc, m - 1, nc).len() == 6 * nc);
        assert(ring_rows(nc, m - 1).len() == 6 * nc * (m - 1));
        assert(6 * nc * (m - 1) + 6 * nc == 6 * nc * m) by (nonlinear_arith);
        assert(ring_rows(nc, m).len() == 6 * nc * m);
        assert((m - 1) * nc + nc <= m * nc + nc) by (nonlinear_arith)
            requires
                nc >= 1,
                m >= 1,
        ;
        assert forall|t: int| 0 <= t < 6 * nc * m implies (#[trigger] ring_rows(nc, m)[t] as int)
            <= m * nc + nc by {
            if t < 6 * nc * (m - 1) {
                assert(ring_rows(nc, m)[t] == ring_rows(nc, m - 1)[t]);
            } else {
                assert(ring_rows(nc, m)[t] == ring_row(nc, m - 1, nc)[t - 6 * nc * (m - 1)]);
            }
        }
    } else {
        assert(6 * nc * m == 0 && m * nc == 0) by (nonlinear_arith)
            requires
                m == 0,
        ;
    }
}

proof fn lemma_top_fan_props(nc: int, ns: int, m: int)
    requires
        1 <= nc,
        0 <= ns,
        0 <= m <= nc,
    ensures
        top_fan(nc, ns, m).len() == 3 * m,
        forall|t: int|
            0 <= t < 3 * m ==> (#[trigger] top_fan(nc, ns, m)[t] as int) <= nc * (ns + 1) + 1,
    decreases m,
{
    if m > 0 {
        lemma_top_fan_props(nc, ns, m - 1);
        assert(ns * nc + nc == nc * (ns + 1)) by (nonlinear_arith);
    }
}

/// Builds the triangle connectivity of a closed cylinder-like surface:
/// `ns + 2` vertex rows along the axis collapse to an apex at each end,
/// giving `nc * (ns + 1) + 2` vertices in all, fanned and ringed into
/// `2 * nc * (ns + 1)` triangles.  Every triple of entries is one
/// triangle's vertex indices.
#[verifier::rlimit(100)]
pub fn cylinder_like_topology(ndiv_side: usize, ndiv_circumference: usize) -> (r: Vec<usize>)
    requires
        1 <= ndiv_circumference,
        6 * (ndiv_circumference as int) * (ndiv_side as int + 2) <= usize::MAX,
    ensures
        r@ == cylinder_like_tris(ndiv_side as int, ndiv_circumference as int),
        r@.len() == 6 * (ndiv_circumference as int) * (ndiv_side as int + 1),
        forall|t: int|
            0 <= t < r@.len() ==> (#[trigger] r@[t] as int) < (ndiv_circumference as int) * (
            ndiv_side as int + 1) + 2,
{
    let ghost ns = ndiv_side as int;
    let ghost nc = ndiv_circumference as int;
    proof {
        assert(2 * nc * (ns + 2) <= 6 * nc * (ns + 2) && nc * (ns + 2) <= 6 * nc * (ns + 2) && 6
            * nc * (ns + 1) <= 6 * nc * (ns + 2) && ns + 2 <= nc * (ns + 2) && nc <= nc * (ns + 2))
            by (nonlinear_arith)
            requires
                nc >= 1,
                ns >= 0,
        ;
    }
    let ndiv_longtitude = ndiv_side + 2;
    proof {
        assert(nc * (ns + 1) <= 6 * nc * (ns + 2) && nc * (ns + 1) * 2 <= 6 * nc * (ns + 2) && nc
            * (ns + 1) * 2 + nc * 2 <= 6 * nc * (ns + 2) && (nc * (ns + 1) * 2 + nc * 2) * 3 == 6
            * nc * (ns + 2)) by (nonlinear_arith)
            requires
                nc >= 1,
                ns >= 0,
        ;
    }
    let num_tri = ndiv_circumference * (ndiv_longtitude - 1) * 2 + ndiv_circumference * 2;
    let mut tri2vtx: Vec<usize> = Vec::with_capacity(num_tri * 3);
    let mut ic: usize = 0;
    while ic < ndiv_circumference
        invariant
            0 <= ic <= ndiv_circumference,
            tri2vtx@ == bottom_fan(nc, ic as int),
        decreases ndiv_circumference - ic,
    {
        tri2vtx.push(0);
        tri2vtx.push(ic % ndiv_circumference + 1);
        tri2vtx.push((ic + 1) % ndiv_circumference + 1);
        proof {
            assert(ic as int % nc == ic as int) by (nonlinear_arith)
                requires
                    0 <= ic as int,
                    (ic as int) < nc,
            ;
            assert(tri2vtx@ =~= bottom_fan(nc, ic as int + 1));
        }
        ic += 1;
    }
    proof {
        lemma_bottom_fan_props(nc, nc);
    }
    let mut ih: usize = 0;
    while ih < ndiv_longtitude - 2
        invariant
            0 <= ih <= ns,
            tri2vtx@ == bottom_fan(nc, nc) + ring_rows(nc, ih as int),
        decreases ndiv_longtitude - 2 - ih,
    {
        proof {
            assert(ih as int * nc <= (ih as int + 1) * nc && (ih as int + 1) * nc + nc <= (ns + 1)
                * nc && (ns + 1) * nc <= 6 * nc * (ns + 2)) by (nonlinear_arith)
                requires
                    nc >= 1,
                    ns >= 0,
                    0 <= ih as int,
                    ih as int <= ns - 1,
            ;
        }
        let mut ic: usize = 0;
        while ic < ndiv_circumference
            invariant
                0 <= ic <= ndiv_circumference,
                tri2vtx@ == bottom_fan(nc, nc) + ring_rows(nc, ih as int) + ring_row(
                    nc,
                    ih as int,
                    ic as int,
                ),
            decreases ndiv_circumference - ic,
        {
            let i1 = ih * ndiv_circumference + 1 + ic % ndiv_circumference;
            let i2 = ih * ndiv_circumference + 1 + (ic + 1) % ndiv_circumference;
            let i3 = (ih + 1) * ndiv_circumference + 1 + (ic + 1) % ndiv_circumference;
            let i4 = (ih + 1) * ndiv_circumference + 1 + ic % ndiv_circumference;
            tri2vtx.push(i3);
            tri2vtx.push(i2);
            tri2vtx.push(i1);
            tri2vtx.push(i4);
            tri2vtx.push(i3);
            tri2vtx.push(i1);
            proof {
                assert(ic as int % nc == ic as int) by (nonlinear_arith)
                requires
                    0 <= ic as int,
                    (ic as int) < nc,
            ;
                assert(tri2vtx@ =~= bottom_fan(nc, nc) + ring_rows(nc, ih as int) + ring_row(
                    nc,
                    ih as int,
                    ic as int + 1,
                ));
            }
            ic += 1;
        }
        proof {
            assert(bottom_fan(nc, nc) + ring_rows(nc, ih as int) + ring_row(nc, ih as int, nc)
                =~= bottom_fan(nc, nc) + ring_rows(nc, ih as int + 1));
        }
        ih += 1;
    }
    proof {
        lemma_ring_rows_props(nc, ns);
        assert(ns * nc + nc <= 6 * nc * (ns + 2) && nc * (ns + 1) + 1 <= 6 * nc * (ns + 2) && (ns
            + 1) * nc == nc * (ns + 1)) by (nonlinear_arith)
            requires
                nc >= 1,
                ns >= 0,
        ;
    }
    let mut ic: usize = 0;
    while ic < ndiv_circumference
        invariant
            0 <= ic <= ndiv_circumference,
            tri2vtx@ == bottom_fan(nc, nc) + ring_rows(nc, ns) + top_fan(nc, ns, ic as int),
        decreases ndiv_circumference - ic,
    {
        tri2vtx.push(ndiv_circumference * (ndiv_longtitude - 1) + 1);
        tri2vtx.push((ndiv_longtitude - 2) * ndiv_circumference + 1 + (ic + 1) % ndiv_circumference);
        tri2vtx.push((ndiv_longtitude - 2) * ndiv_circumference + 1 + ic % ndiv_circumference);
        proof {
            assert(ic as int % nc == ic as int) by (nonlinear_arith)
                requires
                    0 <= ic as int,
                    (ic as int) < nc,
            ;
            assert(nc * (ns + 1) == (ns + 1) * nc && ns * nc == (ns + 2 - 2) * nc)
                by (nonlinear_arith);
            assert(tri2vtx@ =~= bottom_fan(nc, nc) + ring_rows(nc, ns) + top_fan(
                nc,
                ns,
                ic as int + 1,
            ));
        }
        ic += 1;
    }
    proof {
        lemma_top_fan_props(nc, ns, nc);
        assert(tri2vtx@ == cylinder_like_tris(ns, nc));
        assert(tri2vtx@.len() == 3 * nc + 6 * nc * ns + 3 * nc);
        assert(3 * nc + 6 * nc * ns + 3 * nc == 6 * nc * (ns + 1)) by (nonlinear_arith);
        assert forall|t: int| 0 <= t < tri2vtx@.len() implies (#[trigger] tri2vtx@[t] as int) < nc
            * (ns + 1) + 2 by {
            let bf = bottom_fan(nc, nc);
            let rr = ring_rows(nc, ns);
            let tf = top_fan(nc, ns, nc);
            assert(nc <= nc * (ns + 1) && ns * nc + nc <= nc * (ns + 1)) by (nonlinear_arith)
                requires
                    nc >= 1,
                    ns >= 0,
            ;
            if t < bf.len() {
                assert(tri2vtx@[t] == bf[t]);
            } else if t < bf.len() + rr.len() {
                assert(tri2vtx@[t] == rr[t - bf.len()]);
            } else {
                assert(tri2vtx@[t] == tf[t - bf.len() - rr.len()]);
            }
        }
    }
    tri2vtx
}

} // verus!
