//! The incidence builder: inverts an element-to-vertex CSR table into the
//! vertex-to-element incidence map by a two-pass counting sort.

#![verifier::loop_isolation(false)]

use vstd::prelude::*;
use crate::csr::count_eq;
use crate::csr::count_lt;
use crate::csr::lemma_count_eq_absent;
use crate::csr::lemma_count_eq_bounds;
use crate::csr::lemma_count_eq_mono;
use crate::csr::lemma_count_lt_all;
use crate::csr::lemma_count_lt_bounds;
use crate::csr::lemma_count_lt_mono;
use crate::csr::lemma_count_lt_nonpos;
use crate::csr::lemma_count_lt_split;
use crate::csr::lemma_offsets_mono;
use crate::csr::lemma_owner_exists;
use crate::csr::lemma_owner_unique;
use crate::csr::owner_of;
use crate::csr::owns;
use crate::csr::valid_offsets;

verus! {

/// The incidence group of vertex `v`: for every flat position below `n`
/// whose value is `v`, the element owning that position, in position order.
pub open spec fn incidence_group(
    elem2idx: Seq<usize>,
    idx2vtx: Seq<usize>,
    v: int,
    n: int,
) -> Seq<usize>
    decreases n,
{
    if n <= 0 {
        Seq::empty()
    } else if idx2vtx[n - 1] as int == v {
        incidence_group(elem2idx, idx2vtx, v, n - 1).push(owner_of(elem2idx, n - 1) as usize)
    } else {
        incidence_group(elem2idx, idx2vtx, v, n - 1)
    }
}

pub proof fn lemma_incidence_group_len(elem2idx: Seq<usize>, idx2vtx: Seq<usize>, v: int, n: int)
    requires
        n <= idx2vtx.len(),
    ensures
        incidence_group(elem2idx, idx2vtx, v, n).len() == count_eq(idx2vtx, v, n),
    decreases n,
{
    if n > 0 {
        lemma_incidence_group_len(elem2idx, idx2vtx, v, n - 1);
    }
}

/// What the incidence builder returns: `vtx2jdx[v]` counts the incidences
/// of all vertices below `v`, and vertex `v`'s slice of `jdx2elem` lists
/// the elements incident to `v` in element order.
pub open spec fn incidence_post(
    elem2idx: Seq<usize>,
    idx2vtx: Seq<usize>,
    num_vtx: int,
    vtx2jdx: Seq<usize>,
    jdx2elem: Seq<usize>,
) -> bool {
    let n = idx2vtx.len() as int;
    &&& vtx2jdx.len() == num_vtx + 1
    &&& jdx2elem.len() == n
    &&& forall|v: int|
        0 <= v <= num_vtx ==> (#[trigger] vtx2jdx[v] as int) == count_lt(idx2vtx, v, n)
    &&& forall|v: int|
        0 <= v < num_vtx ==> #[trigger] jdx2elem.subrange(vtx2jdx[v] as int, vtx2jdx[v + 1] as int)
            == incidence_group(elem2idx, idx2vtx, v, n)
}

/// Every element index in an incidence group is a valid element index.
pub proof fn lemma_incidence_group_bounds(
    elem2idx: Seq<usize>,
    idx2vtx: Seq<usize>,
    v: int,
    n: int,
)
    requires
        valid_offsets(elem2idx, idx2vtx.len() as int),
        0 <= n <= idx2vtx.len(),
    ensures
        forall|j: int|
            0 <= j < incidence_group(elem2idx, idx2vtx, v, n).len() ==> (#[trigger] incidence_group(
                elem2idx,
                idx2vtx,
                v,
                n,
            )[j] as int) < elem2idx.len() - 1,
    decreases n,
{
    if n > 0 {
        lemma_incidence_group_bounds(elem2idx, idx2vtx, v, n - 1);
        let g = incidence_group(elem2idx, idx2vtx, v, n);
        let g1 = incidence_group(elem2idx, idx2vtx, v, n - 1);
        if idx2vtx[n - 1] as int == v {
            lemma_owner_exists(elem2idx, idx2vtx.len() as int, n - 1);
            assert forall|j: int| 0 <= j < g.len() implies (#[trigger] g[j] as int) < elem2idx.len()
                - 1 by {
                if j < g.len() - 1 {
                    assert(g[j] == g1[j]);
                } else {
                    assert(g[j] == owner_of(elem2idx, n - 1) as usize);
                }
            }
        } else {
            assert(g == g1);
        }
    }
}

/// The offsets array built by the incidence builder is well formed.
pub proof fn lemma_incidence_offsets_valid(
    elem2idx: Seq<usize>,
    idx2vtx: Seq<usize>,
    num_vtx: int,
    vtx2jdx: Seq<usize>,
    jdx2elem: Seq<usize>,
)
    requires
        incidence_post(elem2idx, idx2vtx, num_vtx, vtx2jdx, jdx2elem),
        0 <= num_vtx,
        forall|i: int| 0 <= i < idx2vtx.len() ==> (#[trigger] idx2vtx[i] as int) < num_vtx,
    ensures
        valid_offsets(vtx2jdx, jdx2elem.len() as int),
{
    let ll = idx2vtx.len() as int;
    lemma_count_lt_nonpos(idx2vtx, 0, ll);
    lemma_count_lt_all(idx2vtx, num_vtx, ll);
    assert forall|i: int| 0 <= i < vtx2jdx.len() - 1 implies #[trigger] vtx2jdx[i] <= vtx2jdx[i
        + 1] by {
        lemma_count_lt_mono(idx2vtx, i, i + 1, ll);
    }
}

/// Every entry of the incidence values array is a valid element index.
#[verifier::rlimit(50)]
pub proof fn lemma_incidence_values_bounded(
    elem2idx: Seq<usize>,
    idx2vtx: Seq<usize>,
    num_vtx: int,
    vtx2jdx: Seq<usize>,
    jdx2elem: Seq<usize>,
)
    requires
        valid_offsets(elem2idx, idx2vtx.len() as int),
        incidence_post(elem2idx, idx2vtx, num_vtx, vtx2jdx, jdx2elem),
        0 <= num_vtx,
        forall|i: int| 0 <= i < idx2vtx.len() ==> (#[trigger] idx2vtx[i] as int) < num_vtx,
    ensures
        forall|j: int|
            0 <= j < jdx2elem.len() ==> (#[trigger] jdx2elem[j] as int) < elem2idx.len() - 1,
{
    let ll = idx2vtx.len() as int;
    lemma_incidence_offsets_valid(elem2idx, idx2vtx, num_vtx, vtx2jdx, jdx2elem);
    assert forall|j: int| 0 <= j < jdx2elem.len() implies (#[trigger] jdx2elem[j] as int)
        < elem2idx.len() - 1 by {
        lemma_owner_exists(vtx2jdx, jdx2elem.len() as int, j);
        let v = owner_of(vtx2jdx, j);
        assert(v < num_vtx);
        lemma_incidence_group_bounds(elem2idx, idx2vtx, v, ll);
        let g = incidence_group(elem2idx, idx2vtx, v, ll);
        let a = vtx2jdx[v] as int;
        let b = vtx2jdx[v + 1] as int;
        lemma_offsets_mono(vtx2jdx, jdx2elem.len() as int, v + 1, vtx2jdx.len() - 1);
        assert(b <= jdx2elem.len());
        assert(jdx2elem.subrange(a, b) == g);
        assert(a <= j < b);
        assert(g.len() == b - a);
        assert(0 <= j - a < g.len());
        assert(jdx2elem.subrange(a, b)[j - a] == jdx2elem[j]);
        assert(jdx2elem[j] == g[j - a]);
    }
}

/// Builds the vertex-to-element incidence map (the elements surrounding
/// each point) for an element-to-vertex table given in CSR form.
pub fn elsup(elem2idx: &[usize], idx2vtx: &[usize], num_vtx: usize) -> (r: (Vec<usize>, Vec<usize>))
    requires
        valid_offsets(elem2idx@, idx2vtx@.len() as int),
        forall|i: int| 0 <= i < idx2vtx@.len() ==> (#[trigger] idx2vtx@[i] as int) < num_vtx,
        num_vtx < usize::MAX,
    ensures
        incidence_post(elem2idx@, idx2vtx@, num_vtx as int, r.0@, r.1@),
{
    let ghost s = idx2vtx@;
    let ghost off = elem2idx@;
    let ghost ll = s.len() as int;
    let total = idx2vtx.len();
    let num_elem = elem2idx.len() - 1;
    let mut vtx2jdx: Vec<usize> = Vec::new();
    vtx2jdx.resize(num_vtx + 1, 0);
    assert(forall|v: int| 0 <= v < vtx2jdx@.len() ==> (#[trigger] vtx2jdx@[v]) == 0);

    // counting pass: vtx2jdx[v + 1] counts the occurrences of vertex v
    let mut ielem: usize = 0;
    while ielem < num_elem
        invariant
            0 <= ielem <= num_elem,
            vtx2jdx.len() == num_vtx + 1,
            vtx2jdx[0] == 0,
            forall|v: int|
                0 <= v < num_vtx ==> (#[trigger] vtx2jdx@[v + 1] as int) == count_eq(
                    s,
                    v,
                    off[ielem as int] as int,
                ),
        decreases num_elem - ielem,
    {
        proof {
            lemma_offsets_mono(off, ll, ielem + 1, off.len() - 1);
        }
        let mut idx0 = elem2idx[ielem];
        let hi = elem2idx[ielem + 1];
        while idx0 < hi
            invariant
                off[ielem as int] <= idx0 <= hi,
                hi <= total,
                vtx2jdx.len() == num_vtx + 1,
                vtx2jdx[0] == 0,
                forall|v: int|
                    0 <= v < num_vtx ==> (#[trigger] vtx2jdx@[v + 1] as int) == count_eq(
                        s,
                        v,
                        idx0 as int,
                    ),
            decreases hi - idx0,
        {
            let ivtx0 = idx2vtx[idx0];
            proof {
                lemma_count_eq_bounds(s, ivtx0 as int, idx0 as int);
            }
            let t = vtx2jdx[ivtx0 + 1];
            vtx2jdx.set(ivtx0 + 1, t + 1);
            idx0 += 1;
        }
        ielem += 1;
    }

    // prefix-sum pass: vtx2jdx[v] becomes the number of incidences below v
    proof {
        lemma_count_lt_nonpos(s, 0, ll);
        assert forall|v: int| 0 < v <= num_vtx implies (#[trigger] vtx2jdx@[v] as int) == count_eq(
            s,
            v - 1,
            ll,
        ) by {
            assert(vtx2jdx@[(v - 1) + 1] as int == count_eq(s, v - 1, off[num_elem as int] as int));
        }
    }
    let mut ivtx: usize = 0;
    while ivtx < num_vtx
        invariant
            0 <= ivtx <= num_vtx,
            vtx2jdx.len() == num_vtx + 1,
            forall|v: int| 0 <= v <= ivtx ==> (#[trigger] vtx2jdx@[v] as int) == count_lt(s, v, ll),
            forall|v: int|
                ivtx < v <= num_vtx ==> (#[trigger] vtx2jdx@[v] as int) == count_eq(s, v - 1, ll),
        decreases num_vtx - ivtx,
    {
        let a = vtx2jdx[ivtx];
        let b = vtx2jdx[ivtx + 1];
        proof {
            lemma_count_lt_split(s, ivtx as int, ll);
            lemma_count_lt_bounds(s, ivtx as int + 1, ll);
        }
        vtx2jdx.set(ivtx + 1, a + b);
        ivtx += 1;
    }

    proof {
        lemma_count_lt_all(s, num_vtx as int, ll);
    }
    let num_jdx = vtx2jdx[num_vtx];
    let mut jdx2elem: Vec<usize> = vec![0; num_jdx];

    // scatter pass: vtx2jdx[v] serves as the write cursor of vertex v
    proof {
        assert forall|v: int| 0 <= v < num_vtx implies #[trigger] jdx2elem@.subrange(
            count_lt(s, v, ll),
            count_lt(s, v, ll) + count_eq(s, v, off[0] as int),
        ) == incidence_group(off, s, v, off[0] as int) by {
            lemma_count_lt_bounds(s, v, ll);
            assert(jdx2elem@.subrange(count_lt(s, v, ll), count_lt(s, v, ll)) =~= Seq::<
                usize,
            >::empty());
        }
    }
    let mut ielem: usize = 0;
    while ielem < num_elem
        invariant
            0 <= ielem <= num_elem,
            vtx2jdx.len() == num_vtx + 1,
            jdx2elem.len() == total,
            forall|v: int|
                0 <= v <= num_vtx ==> (#[trigger] vtx2jdx@[v] as int) == count_lt(s, v, ll)
                    + count_eq(s, v, off[ielem as int] as int),
            forall|v: int|
                0 <= v < num_vtx ==> #[trigger] jdx2elem@.subrange(
                    count_lt(s, v, ll),
                    count_lt(s, v, ll) + count_eq(s, v, off[ielem as int] as int),
                ) == incidence_group(off, s, v, off[ielem as int] as int),
        decreases num_elem - ielem,
    {
        proof {
            lemma_offsets_mono(off, ll, ielem + 1, off.len() - 1);
        }
        let mut idx0 = elem2idx[ielem];
        let hi = elem2idx[ielem + 1];
        while idx0 < hi
            invariant
                off[ielem as int] <= idx0 <= hi,
                hi <= total,
                ielem < num_elem,
                vtx2jdx.len() == num_vtx + 1,
                jdx2elem.len() == total,
                forall|v: int|
                    0 <= v <= num_vtx ==> (#[trigger] vtx2jdx@[v] as int) == count_lt(s, v, ll)
                        + count_eq(s, v, idx0 as int),
                forall|v: int|
                    0 <= v < num_vtx ==> #[trigger] jdx2elem@.subrange(
                        count_lt(s, v, ll),
                        count_lt(s, v, ll) + count_eq(s, v, idx0 as int),
                    ) == incidence_group(off, s, v, idx0 as int),
            decreases hi - idx0,
        {
            let ivtx0 = idx2vtx[idx0];
            let ghost v0 = ivtx0 as int;
            let ghost n = idx0 as int;
            let ghost jd0 = jdx2elem@;
            proof {
                lemma_count_eq_mono(s, v0, n + 1, ll);
                lemma_count_lt_split(s, v0, ll);
                lemma_count_lt_bounds(s, v0 + 1, ll);
                lemma_count_eq_bounds(s, v0, n);
            }
            let jdx0 = vtx2jdx[ivtx0];
            jdx2elem.set(jdx0, ielem);
            vtx2jdx.set(ivtx0, jdx0 + 1);
            proof {
                let jd = jdx2elem@;
                assert(owns(off, ielem as int, n));
                lemma_owner_exists(off, ll, n);
                lemma_owner_unique(off, ll, owner_of(off, n), ielem as int, n);
                assert forall|v: int| 0 <= v < num_vtx implies #[trigger] jd.subrange(
                    count_lt(s, v, ll),
                    count_lt(s, v, ll) + count_eq(s, v, n + 1),
                ) == incidence_group(off, s, v, n + 1) by {
                    let cv = count_lt(s, v, ll);
                    let ce = count_eq(s, v, n);
                    lemma_count_lt_bounds(s, v, ll);
                    lemma_count_eq_mono(s, v, n + 1, ll);
                    lemma_count_lt_split(s, v, ll);
                    lemma_count_lt_bounds(s, v + 1, ll);
                    lemma_incidence_group_len(off, s, v, n);
                    if v == v0 {
                        assert(count_eq(s, v, n + 1) == ce + 1);
                        assert(jd.subrange(cv, cv + ce + 1) =~= incidence_group(off, s, v, n).push(
                            ielem,
                        )) by {
                            assert(forall|k: int|
                                0 <= k < ce ==> #[trigger] jd.subrange(cv, cv + ce + 1)[k]
                                    == jd0.subrange(cv, cv + ce)[k]);
                        }
                        assert(incidence_group(off, s, v, n + 1) == incidence_group(off, s, v,
                            n).push(owner_of(off, n) as usize));
                    } else {
                        assert(count_eq(s, v, n + 1) == ce);
                        if v < v0 {
                            lemma_count_lt_mono(s, v + 1, v0, ll);
                            assert(cv + ce <= jdx0 as int);
                        } else {
                            lemma_count_lt_mono(s, v0 + 1, v, ll);
                            assert((jdx0 as int) < cv);
                        }
                        assert(jd.subrange(cv, cv + ce) =~= jd0.subrange(cv, cv + ce)) by {
                            assert(forall|k: int|
                                0 <= k < ce ==> #[trigger] jd.subrange(cv, cv + ce)[k]
                                    == jd0.subrange(cv, cv + ce)[k]);
                        }
                        assert(incidence_group(off, s, v, n + 1) == incidence_group(off, s, v, n));
                    }
                }
            }
            idx0 += 1;
        }
        ielem += 1;
    }

    // cursor repair: shift the consumed cursors back into offsets
    proof {
        assert forall|v: int| 0 <= v < num_vtx implies (#[trigger] vtx2jdx@[v] as int) == count_lt(
            s,
            v + 1,
            ll,
        ) by {
            lemma_count_lt_split(s, v, ll);
        }
        lemma_count_eq_absent(s, num_vtx as int, ll);
    }
    let ghost jd_done = jdx2elem@;
    let mut ivtx = num_vtx;
    while ivtx > 1
        invariant
            0 <= ivtx <= num_vtx,
            num_vtx > 0 ==> 1 <= ivtx,
            vtx2jdx.len() == num_vtx + 1,
            jdx2elem@ == jd_done,
            forall|v: int| ivtx <= v <= num_vtx ==> (#[trigger] vtx2jdx@[v] as int) == count_lt(s, v, ll),
            forall|v: int| 0 <= v < ivtx ==> (#[trigger] vtx2jdx@[v] as int) == count_lt(s, v + 1, ll),
        decreases ivtx,
    {
        ivtx -= 1;
        let t = vtx2jdx[ivtx - 1];
        vtx2jdx.set(ivtx, t);
    }
    vtx2jdx.set(0, 0);
    proof {
        lemma_count_lt_nonpos(s, 0, ll);
        assert forall|v: int| 0 <= v < num_vtx implies #[trigger] jdx2elem@.subrange(
            vtx2jdx@[v] as int,
            vtx2jdx@[v + 1] as int,
        ) == incidence_group(off, s, v, ll) by {
            lemma_count_lt_split(s, v, ll);
        }
    }
    (vtx2jdx, jdx2elem)
}

} // verus!
