use vstd::prelude::*;

verus! {

/// The index pattern of a square given as four corner vertices in the order
/// bottom-left, bottom-right, top-left, top-right: two CCW triangles.
pub fn square_indices() -> (idx: Vec<u32>)
    ensures
        idx@ == seq![0u32, 1u32, 2u32, 2u32, 1u32, 3u32],
{
    let mut v: Vec<u32> = Vec::new();
    v.push(0);
    v.push(1);
    v.push(2);
    v.push(2);
    v.push(1);
    v.push(3);
    proof {
        assert(v@ =~= seq![0u32, 1u32, 2u32, 2u32, 1u32, 3u32]);
    }
    v
}

/// The number of perimeter vertices a circle is built with: requests under
/// three are clamped up, never rejected.
pub open spec fn circle_vertices(requested: u32) -> int {
    if requested < 3 {
        3
    } else {
        requested as int
    }
}

/// What stands at position `j` of a circle's fan triangulation: triangle
/// `j / 3` joins the center of the fan (vertex 0) to the perimeter vertices
/// `j / 3 + 1` and `j / 3 + 2`, CCW.
pub open spec fn circle_index_at(j: int) -> int {
    if j % 3 == 0 {
        0
    } else if j % 3 == 1 {
        j / 3 + 1
    } else {
        j / 3 + 2
    }
}

/// The fan triangulation of a circle with the given number of perimeter
/// vertices.
pub fn circle_indices(requested: u32) -> (idx: Vec<u32>)
    ensures
        idx@.len() == 3 * (circle_vertices(requested) - 2),
        forall|j: int| 0 <= j < idx@.len() ==> #[trigger] idx@[j] == circle_index_at(j),
{
    let n = if requested < 3 {
        3
    } else {
        requested
    };
    let mut idx: Vec<u32> = Vec::new();
    let mut i: u32 = 2;
    while i < n
        invariant
            2 <= i <= n,
            n == circle_vertices(requested),
            idx@.len() == 3 * (i - 2),
            forall|j: int| 0 <= j < idx@.len() ==> #[trigger] idx@[j] == circle_index_at(j),
        decreases n - i,
    {
        idx.push(0);
        idx.push(i - 1);
        idx.push(i);
        i = i + 1;
    }
    idx
}

/// The corner numbers of each cube face, in the fan order the index pattern
/// expects; faces run right, left, top, bottom, front, rear.
pub open spec fn cube_plane_seq(face: int) -> Seq<u32> {
    if face == 0 {
        seq![1u32, 5u32, 3u32, 7u32]
    } else if face == 1 {
        seq![4u32, 0u32, 6u32, 2u32]
    } else if face == 2 {
        seq![2u32, 3u32, 6u32, 7u32]
    } else if face == 3 {
        seq![1u32, 0u32, 5u32, 4u32]
    } else if face == 4 {
        seq![0u32, 1u32, 2u32, 3u32]
    } else {
        seq![5u32, 4u32, 7u32, 6u32]
    }
}

/// Which of the eight cube corners make up the given face.
pub fn cube_plane(face: usize) -> (corners: [u32; 4])
    requires
        face < 6,
    ensures
        corners@ == cube_plane_seq(face as int),
{
    let corners: [u32; 4] = if face == 0 {
        [1, 5, 3, 7]
    } else if face == 1 {
        [4, 0, 6, 2]
    } else if face == 2 {
        [2, 3, 6, 7]
    } else if face == 3 {
        [1, 0, 5, 4]
    } else if face == 4 {
        [0, 1, 2, 3]
    } else {
        [5, 4, 7, 6]
    };
    proof {
        assert(corners@ =~= cube_plane_seq(face as int));
    }
    corners
}

/// Which axes corner `i` of a cube is displaced along from the front
/// bottom-left corner: width, height and depth, by the bits of `i`.
pub fn cube_corner_axes(i: usize) -> (axes: [bool; 3])
    requires
        i < 8,
    ensures
        axes[0] == (i % 2 == 1),
        axes[1] == (i / 2 % 2 == 1),
        axes[2] == (i / 4 % 2 == 1),
{
    [i % 2 == 1, i / 2 % 2 == 1, i / 4 % 2 == 1]
}

/// What stands at position `j` of a cube's index pattern: face `j / 6` spans
/// the four vertices `4 * (j / 6)` to `4 * (j / 6) + 3`, fanned into the two
/// CCW triangles 0-1-2 and 2-1-3.
pub open spec fn cube_index_at(j: int) -> int {
    let corner = if j % 6 == 0 {
        0int
    } else if j % 6 == 1 || j % 6 == 4 {
        1int
    } else if j % 6 == 2 || j % 6 == 3 {
        2int
    } else {
        3int
    };
    4 * (j / 6) + corner
}

/// The index pattern of a cube: each of the six faces is four fresh vertices
/// (corners are not shared, each face needs its own normal) fanned into two
/// CCW triangles.
pub fn cube_indices() -> (idx: Vec<u32>)
    ensures
        idx@.len() == 36,
        forall|j: int| 0 <= j < idx@.len() ==> #[trigger] idx@[j] == cube_index_at(j),
{
    let mut idx: Vec<u32> = Vec::new();
    let mut f: u32 = 0;
    while f < 6
        invariant
            f <= 6,
            idx@.len() == 6 * f,
            forall|j: int| 0 <= j < idx@.len() ==> #[trigger] idx@[j] == cube_index_at(j),
        decreases 6 - f,
    {
        let b = 4 * f;
        idx.push(b);
        idx.push(b + 1);
        idx.push(b + 2);
        idx.push(b + 2);
        idx.push(b + 1);
        idx.push(b + 3);
        f = f + 1;
    }
    idx
}

} // verus!
