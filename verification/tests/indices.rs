use icomesh::color::{arr_to_color, u8x4_to_color, Vector};
use icomesh::icosphere::{
    icosahedron_indices, icosphere_index_count, icosphere_plan, icosphere_vertex_count,
};
use icomesh::mesh::{Edge, Face};
use icomesh::shapes::{circle_indices, cube_corner_axes, cube_indices, cube_plane, square_indices};

/// The fixed CCW triangle list of the icosahedron, as tabulated.
const ICOSAHEDRON_INDICES: [u32; 60] = [
    0, 1, 2, 1, 6, 2, 2, 6, 7, 7, 6, 11, 0, 2, 3, 2, 7, 3, 3, 7, 8, 8, 7, 11, 0, 3, 4, 3, 8, 4,
    4, 8, 9, 9, 8, 11, 0, 4, 5, 4, 9, 5, 5, 9, 10, 10, 9, 11, 0, 5, 1, 5, 10, 1, 1, 10, 6, 6, 10,
    11,
];

#[test]
fn icosahedron_index_table_is_fixed() {
    let idx = icosahedron_indices();
    assert_eq!(idx.len(), 60);
    assert_eq!(idx, ICOSAHEDRON_INDICES.to_vec());
}

#[test]
fn icosahedron_has_twelve_vertices() {
    assert_eq!(icosphere_vertex_count(0), 12);
    assert_eq!(icosphere_index_count(0), 60);
}

#[test]
fn icosphere_counts_follow_closed_forms() {
    let mut expected_v: usize = 12;
    let mut expected_i: usize = 60;
    for d in 0..=5 {
        assert_eq!(icosphere_vertex_count(d), expected_v, "division {d}");
        assert_eq!(icosphere_index_count(d), expected_i, "division {d}");
        let mp = icosphere_plan(d);
        assert_eq!(mp.vertex_count, expected_v);
        assert_eq!(mp.indices.len(), expected_i);
        assert_eq!(mp.steps.len(), expected_v - 12);
        expected_v = (expected_v - 2) * 4 + 2;
        expected_i *= 4;
    }
}

#[test]
fn icosphere_plan_division_zero_is_the_icosahedron() {
    let mp = icosphere_plan(0);
    assert!(mp.steps.is_empty());
    assert_eq!(mp.vertex_count, 12);
    assert_eq!(mp.indices, icosahedron_indices());
}

#[test]
fn icosphere_plan_writes_each_slot_once_and_in_order() {
    for d in 0..=4 {
        let mp = icosphere_plan(d);
        let mut defined = vec![false; mp.vertex_count];
        for s in defined.iter_mut().take(12) {
            *s = true;
        }
        for b in &mp.steps {
            assert!(defined[b.start], "division {d}: read of unwritten slot");
            assert!(defined[b.end], "division {d}: read of unwritten slot");
            assert!(!defined[b.dest], "division {d}: slot written twice");
            defined[b.dest] = true;
        }
        assert!(defined.iter().all(|&w| w), "division {d}: unwritten slot");
        for &i in &mp.indices {
            assert!((i as usize) < mp.vertex_count);
        }
    }
}

#[test]
fn square_index_pattern_is_fixed() {
    assert_eq!(square_indices(), vec![0, 1, 2, 2, 1, 3]);
}

#[test]
fn circle_indices_fan_from_the_center() {
    let idx = circle_indices(6);
    assert_eq!(
        idx,
        vec![0, 1, 2, 0, 2, 3, 0, 3, 4, 0, 4, 5]
    );
}

#[test]
fn circle_requests_under_three_vertices_are_clamped() {
    assert_eq!(circle_indices(0), vec![0, 1, 2]);
    assert_eq!(circle_indices(1), vec![0, 1, 2]);
    assert_eq!(circle_indices(2), vec![0, 1, 2]);
    assert_eq!(circle_indices(3), vec![0, 1, 2]);
}

#[test]
fn cube_index_pattern_covers_six_faces() {
    let idx = cube_indices();
    assert_eq!(idx.len(), 36);
    for f in 0..6u32 {
        let b = 4 * f;
        let part = &idx[(6 * f) as usize..(6 * f + 6) as usize];
        assert_eq!(part, &[b, b + 1, b + 2, b + 2, b + 1, b + 3]);
    }
    for &i in &idx {
        assert!(i < 24);
    }
}

#[test]
fn cube_planes_list_every_corner_of_every_face() {
    let planes: [[u32; 4]; 6] = [
        [1, 5, 3, 7],
        [4, 0, 6, 2],
        [2, 3, 6, 7],
        [1, 0, 5, 4],
        [0, 1, 2, 3],
        [5, 4, 7, 6],
    ];
    for f in 0..6 {
        assert_eq!(cube_plane(f), planes[f]);
    }
    // each corner appears on exactly three faces
    let mut seen = [0usize; 8];
    for f in 0..6 {
        for c in cube_plane(f) {
            seen[c as usize] += 1;
        }
    }
    assert_eq!(seen, [3; 8]);
}

#[test]
fn cube_corner_axes_follow_the_corner_bits() {
    for i in 0..8usize {
        let axes = cube_corner_axes(i);
        assert_eq!(axes[0], i & 1 != 0);
        assert_eq!(axes[1], i & 2 != 0);
        assert_eq!(axes[2], i & 4 != 0);
    }
}

#[test]
fn colors_keep_their_channels() {
    let c = arr_to_color([0xFF, 0x69, 0xB4]);
    assert_eq!(c.0, [0xFF, 0x69, 0xB4, 1]);
    let c = u8x4_to_color([1, 2, 3, 4]);
    assert_eq!(c, Vector([1, 2, 3, 4]));
}

#[test]
fn shared_edges_are_owned_by_exactly_one_face() {
    // every one of the 30 edge spans is written through exactly one forward
    // tag, and read through exactly one reverse tag
    let unit = 7usize; // division 3
    let faces: Vec<Face> = icomesh::mesh::icosahedron_faces(12, unit);
    assert_eq!(faces.len(), 20);
    let mut forward = [0usize; 30];
    let mut reverse = [0usize; 30];
    for f in &faces {
        for e in &f.e {
            let (off, len, fwd) = match *e {
                Edge::Forward { off, len } => (off, len, true),
                Edge::Reverse { off, len } => (off, len, false),
            };
            assert_eq!(len, unit);
            assert_eq!((off - 12) % unit, 0);
            let slot = (off - 12) / unit;
            assert!(slot < 30);
            if fwd {
                forward[slot] += 1;
            } else {
                reverse[slot] += 1;
            }
        }
    }
    assert_eq!(forward, [1; 30]);
    assert_eq!(reverse, [1; 30]);
}

#[test]
fn reverse_edges_mirror_a_forward_edge_between_the_same_corners() {
    let unit = 3usize; // division 2
    let faces: Vec<Face> = icomesh::mesh::icosahedron_faces(12, unit);
    for f in &faces {
        for p in 0..3 {
            let (off, len) = match f.e[p] {
                Edge::Forward { .. } => continue,
                Edge::Reverse { off, len } => (off, len),
            };
            // exactly one face writes this span forward, and it runs between
            // the same two corners the other way round
            let mut owners = 0;
            for g in &faces {
                for q in 0..3 {
                    if let Edge::Forward { off: off2, len: len2 } = g.e[q] {
                        if off2 == off {
                            owners += 1;
                            assert_eq!(len2, len);
                            assert_eq!(g.v[q], f.v[(p + 1) % 3]);
                            assert_eq!(g.v[(q + 1) % 3], f.v[p]);
                        }
                    }
                }
            }
            assert_eq!(owners, 1);
        }
    }
}
