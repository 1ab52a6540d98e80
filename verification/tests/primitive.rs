use mesh_topology::cylinder_like_topology;
use mesh_topology::elsup;

#[test]
fn test_cylinder_like_topology_small() {
    // one ring of quadrilaterals between the two fans, three around
    let tri2vtx = cylinder_like_topology(1, 3);
    assert_eq!(
        tri2vtx,
        vec![
            0, 1, 2, 0, 2, 3, 0, 3, 1, 5, 2, 1, 4, 5, 1, 6, 3, 2, 5, 6, 2, 4, 1, 3, 6, 4, 3, 7, 5,
            4, 7, 6, 5, 7, 4, 6
        ]
    );
}

#[test]
fn test_cylinder_like_topology_counts() {
    for (ns, nc) in [(0usize, 3usize), (1, 4), (5, 8), (16, 32)] {
        let tri2vtx = cylinder_like_topology(ns, nc);
        let num_vtx = nc * (ns + 1) + 2;
        let num_tri = 2 * nc * (ns + 1);
        assert_eq!(tri2vtx.len(), num_tri * 3);
        for &v in &tri2vtx {
            assert!(v < num_vtx);
        }
        // both apex vertices appear, each in nc triangles
        let bottom = tri2vtx.iter().filter(|&&v| v == 0).count();
        let top = tri2vtx.iter().filter(|&&v| v == num_vtx - 1).count();
        assert_eq!(bottom, nc);
        assert_eq!(top, nc);
    }
}

#[test]
fn test_cylinder_like_topology_closed_surface() {
    // on a closed surface every undirected edge borders exactly two triangles
    let nc = 8usize;
    let ns = 3usize;
    let tri2vtx = cylinder_like_topology(ns, nc);
    let num_vtx = nc * (ns + 1) + 2;
    let num_tri = tri2vtx.len() / 3;
    let mut elem2idx = Vec::with_capacity(num_tri + 1);
    for t in 0..num_tri + 1 {
        elem2idx.push(3 * t);
    }
    let (vtx2jdx, jdx2elem) = elsup(&elem2idx, &tri2vtx, num_vtx);
    assert_eq!(*vtx2jdx.last().unwrap(), tri2vtx.len());
    let mut edge_count = std::collections::BTreeMap::new();
    for t in tri2vtx.chunks(3) {
        for (a, b) in [(t[0], t[1]), (t[1], t[2]), (t[2], t[0])] {
            let key = (a.min(b), a.max(b));
            *edge_count.entry(key).or_insert(0usize) += 1;
        }
    }
    for (_, n) in edge_count {
        assert_eq!(n, 2);
    }
    // and each vertex's incidence group lists only triangles containing it
    for v in 0..num_vtx {
        for j in vtx2jdx[v]..vtx2jdx[v + 1] {
            let e = jdx2elem[j];
            assert!(tri2vtx[3 * e..3 * e + 3].contains(&v));
        }
    }
}
