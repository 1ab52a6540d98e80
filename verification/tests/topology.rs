use mesh_topology::elsup;
use mesh_topology::meshline_from_meshtriquad;
use mesh_topology::meshtri_from_meshtriquad;
use mesh_topology::mshline_psup;
use mesh_topology::psupedge_from_meshtriquad;

#[test]
fn test_psup_mshmix() {
    let elem2vtx_idx = vec![0, 3, 7, 11, 14];
    let elem2vtx = vec![0, 4, 2, 4, 3, 5, 2, 1, 6, 7, 5, 3, 1, 5];
    let (vtx2elem_idx, vtx2elem) = elsup(&elem2vtx_idx, &elem2vtx, 8);
    assert_eq!(vtx2elem_idx, vec![0, 1, 3, 5, 7, 9, 12, 13, 14]);
    assert_eq!(vtx2elem, vec![0, 2, 3, 0, 1, 1, 3, 0, 1, 1, 2, 3, 2, 2]);
}

#[test]
fn test_elsup_empty_mesh() {
    let (off, vals) = elsup(&[0], &[], 0);
    assert_eq!(off, vec![0]);
    assert_eq!(vals, Vec::<usize>::new());
}

#[test]
fn test_elsup_isolated_vertex() {
    // vertex 3 is in no element and gets an empty group
    let (off, vals) = elsup(&[0, 3], &[0, 1, 2], 4);
    assert_eq!(off, vec![0, 1, 2, 3, 3]);
    assert_eq!(vals, vec![0, 0, 0]);
}

#[test]
fn test_elsup_total_count() {
    // the group sizes add up to the number of (element, vertex) pairs
    let elem2vtx_idx = vec![0, 3, 7, 11, 14];
    let elem2vtx = vec![0, 4, 2, 4, 3, 5, 2, 1, 6, 7, 5, 3, 1, 5];
    let (off, vals) = elsup(&elem2vtx_idx, &elem2vtx, 8);
    let mut total = 0usize;
    for v in 0..8 {
        total += off[v + 1] - off[v];
    }
    assert_eq!(total, elem2vtx.len());
    assert_eq!(vals.len(), elem2vtx.len());
}

#[test]
fn test_elsup_idempotent() {
    let elem2vtx_idx = vec![0, 3, 7, 11, 14];
    let elem2vtx = vec![0, 4, 2, 4, 3, 5, 2, 1, 6, 7, 5, 3, 1, 5];
    let a = elsup(&elem2vtx_idx, &elem2vtx, 8);
    let b = elsup(&elem2vtx_idx, &elem2vtx, 8);
    assert_eq!(a.0, b.0);
    assert_eq!(a.1, b.1);
}

#[test]
fn test_psupedge_bidirectional() {
    let elem2vtx_idx = vec![0, 3, 7, 11, 14];
    let elem2vtx = vec![0, 4, 2, 4, 3, 5, 2, 1, 6, 7, 5, 3, 1, 5];
    let (vtx2jdx, jdx2elem) = elsup(&elem2vtx_idx, &elem2vtx, 8);
    let (off, adj) = psupedge_from_meshtriquad(&elem2vtx_idx, &elem2vtx, &vtx2jdx, &jdx2elem, true);
    assert_eq!(off, vec![0, 2, 5, 8, 11, 14, 18, 20, 22]);
    assert_eq!(
        adj,
        vec![2, 4, 3, 5, 6, 0, 4, 5, 1, 4, 5, 0, 2, 3, 1, 2, 3, 7, 1, 7, 5, 6]
    );
}

#[test]
fn test_psupedge_one_representative() {
    let elem2vtx_idx = vec![0, 3, 7, 11, 14];
    let elem2vtx = vec![0, 4, 2, 4, 3, 5, 2, 1, 6, 7, 5, 3, 1, 5];
    let (vtx2jdx, jdx2elem) = elsup(&elem2vtx_idx, &elem2vtx, 8);
    let (off, adj) = psupedge_from_meshtriquad(&elem2vtx_idx, &elem2vtx, &vtx2jdx, &jdx2elem, false);
    assert_eq!(off, vec![0, 2, 5, 7, 9, 9, 10, 11, 11]);
    assert_eq!(adj, vec![2, 4, 3, 5, 6, 4, 5, 4, 5, 7, 7]);
}

#[test]
fn test_psupedge_symmetry() {
    // with both directions kept, w neighbours u exactly when u neighbours w
    let elem2vtx_idx = vec![0, 3, 7, 11, 14];
    let elem2vtx = vec![0, 4, 2, 4, 3, 5, 2, 1, 6, 7, 5, 3, 1, 5];
    let (vtx2jdx, jdx2elem) = elsup(&elem2vtx_idx, &elem2vtx, 8);
    let (off, adj) = psupedge_from_meshtriquad(&elem2vtx_idx, &elem2vtx, &vtx2jdx, &jdx2elem, true);
    for u in 0..8usize {
        for w in 0..8usize {
            let u_has_w = adj[off[u]..off[u + 1]].contains(&w);
            let w_has_u = adj[off[w]..off[w + 1]].contains(&u);
            assert_eq!(u_has_w, w_has_u);
        }
    }
}

#[test]
fn test_psupedge_exactly_once() {
    // without bidirection each undirected edge appears exactly once,
    // under its lower-indexed endpoint
    let elem2vtx_idx = vec![0, 3, 7, 11, 14];
    let elem2vtx = vec![0, 4, 2, 4, 3, 5, 2, 1, 6, 7, 5, 3, 1, 5];
    let (vtx2jdx, jdx2elem) = elsup(&elem2vtx_idx, &elem2vtx, 8);
    let (bo, ba) = psupedge_from_meshtriquad(&elem2vtx_idx, &elem2vtx, &vtx2jdx, &jdx2elem, true);
    let (uo, ua) = psupedge_from_meshtriquad(&elem2vtx_idx, &elem2vtx, &vtx2jdx, &jdx2elem, false);
    for u in 0..8usize {
        for w in (u + 1)..8usize {
            let implied = ba[bo[u]..bo[u + 1]].contains(&w);
            let lower_has = ua[uo[u]..uo[u + 1]].contains(&w);
            let upper_has = ua[uo[w]..uo[w + 1]].contains(&u);
            assert_eq!(lower_has, implied);
            assert!(!upper_has);
        }
    }
}

#[test]
fn test_psupedge_no_self_and_sorted() {
    let elem2vtx_idx = vec![0, 3, 7, 11, 14];
    let elem2vtx = vec![0, 4, 2, 4, 3, 5, 2, 1, 6, 7, 5, 3, 1, 5];
    let (vtx2jdx, jdx2elem) = elsup(&elem2vtx_idx, &elem2vtx, 8);
    for bidir in [true, false] {
        let (off, adj) =
            psupedge_from_meshtriquad(&elem2vtx_idx, &elem2vtx, &vtx2jdx, &jdx2elem, bidir);
        for v in 0..8usize {
            let group = &adj[off[v]..off[v + 1]];
            for (i, &w) in group.iter().enumerate() {
                assert_ne!(w, v);
                if i + 1 < group.len() {
                    assert!(group[i] < group[i + 1]);
                }
            }
        }
    }
}

#[test]
fn test_psupedge_idempotent() {
    let elem2vtx_idx = vec![0, 3, 7, 11, 14];
    let elem2vtx = vec![0, 4, 2, 4, 3, 5, 2, 1, 6, 7, 5, 3, 1, 5];
    let (vtx2jdx, jdx2elem) = elsup(&elem2vtx_idx, &elem2vtx, 8);
    let a = psupedge_from_meshtriquad(&elem2vtx_idx, &elem2vtx, &vtx2jdx, &jdx2elem, false);
    let b = psupedge_from_meshtriquad(&elem2vtx_idx, &elem2vtx, &vtx2jdx, &jdx2elem, false);
    assert_eq!(a.0, b.0);
    assert_eq!(a.1, b.1);
}

#[test]
fn test_meshtri_mixed() {
    let elem2vtx_idx = vec![0, 3, 7, 11, 14];
    let elem2vtx = vec![0, 4, 2, 4, 3, 5, 2, 1, 6, 7, 5, 3, 1, 5];
    let tri2vtx = meshtri_from_meshtriquad(&elem2vtx_idx, &elem2vtx);
    assert_eq!(
        tri2vtx,
        vec![0, 4, 2, 4, 3, 5, 4, 5, 2, 1, 6, 7, 1, 7, 5, 3, 1, 5]
    );
}

#[test]
fn test_meshtri_single_quad() {
    let tri2vtx = meshtri_from_meshtriquad(&[0, 4], &[0, 1, 2, 3]);
    assert_eq!(tri2vtx, vec![0, 1, 2, 0, 2, 3]);
}

#[test]
fn test_quad_split_area() {
    // the two triangles of the quad split cover the quad exactly:
    // their signed areas (doubled, exact integers) add up to the quad's
    let quad = [(0i64, 0i64), (4, 0), (5, 3), (1, 2)];
    let tri2vtx = meshtri_from_meshtriquad(&[0, 4], &[0, 1, 2, 3]);
    let mut tri_area2_sum = 0i64;
    for t in tri2vtx.chunks(3) {
        let (ax, ay) = quad[t[0]];
        let (bx, by) = quad[t[1]];
        let (cx, cy) = quad[t[2]];
        tri_area2_sum += (bx - ax) * (cy - ay) - (cx - ax) * (by - ay);
    }
    let quad_area2 = quad[0].0 * (quad[1].1 - quad[3].1)
        + quad[1].0 * (quad[2].1 - quad[0].1)
        + quad[2].0 * (quad[3].1 - quad[1].1)
        + quad[3].0 * (quad[0].1 - quad[2].1);
    assert_eq!(tri_area2_sum, quad_area2);
}

#[test]
fn test_mshline_psup_flattens() {
    let line = mshline_psup(&[0, 2, 3, 3], &[1, 2, 2]);
    assert_eq!(line, vec![0, 1, 0, 2, 1, 2]);
}

#[test]
fn test_meshline_mixed() {
    let elem2vtx_idx = vec![0, 3, 7, 11, 14];
    let elem2vtx = vec![0, 4, 2, 4, 3, 5, 2, 1, 6, 7, 5, 3, 1, 5];
    let line2vtx = meshline_from_meshtriquad(&elem2vtx_idx, &elem2vtx, 8);
    assert_eq!(
        line2vtx,
        vec![0, 2, 0, 4, 1, 3, 1, 5, 1, 6, 2, 4, 2, 5, 3, 4, 3, 5, 5, 7, 6, 7]
    );
}

#[test]
fn test_meshline_idempotent() {
    let elem2vtx_idx = vec![0, 3, 7, 11, 14];
    let elem2vtx = vec![0, 4, 2, 4, 3, 5, 2, 1, 6, 7, 5, 3, 1, 5];
    let a = meshline_from_meshtriquad(&elem2vtx_idx, &elem2vtx, 8);
    let b = meshline_from_meshtriquad(&elem2vtx_idx, &elem2vtx, 8);
    assert_eq!(a, b);
}

#[test]
fn test_tri_only_mesh() {
    // two triangles sharing the edge {1, 2}
    let elem2vtx_idx = vec![0, 3, 6];
    let elem2vtx = vec![0, 1, 2, 2, 1, 3];
    let (vtx2jdx, jdx2elem) = elsup(&elem2vtx_idx, &elem2vtx, 4);
    assert_eq!(vtx2jdx, vec![0, 1, 3, 5, 6]);
    assert_eq!(jdx2elem, vec![0, 0, 1, 0, 1, 1]);
    let (off, adj) = psupedge_from_meshtriquad(&elem2vtx_idx, &elem2vtx, &vtx2jdx, &jdx2elem, true);
    assert_eq!(off, vec![0, 2, 5, 8, 10]);
    assert_eq!(adj, vec![1, 2, 0, 2, 3, 0, 1, 3, 1, 2]);
    let line = meshline_from_meshtriquad(&elem2vtx_idx, &elem2vtx, 4);
    assert_eq!(line, vec![0, 1, 0, 2, 1, 2, 1, 3, 2, 3]);
}
