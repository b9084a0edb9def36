use vstd::prelude::*;
use crate::plan::two_pow;

verus! {

/// One edge of a face, as a span of subdivision slots in the shared vertex
/// buffer.  Every edge of the seed icosahedron is shared by exactly two
/// faces; only one of them owns the canonical write direction.
#[derive(Debug, Clone, Copy)]
pub enum Edge {
    /// This face owns the span: slots run from the edge's start to its end.
    Forward { off: usize, len: usize },
    /// The span belongs to the neighbouring face and must be read in reverse
    /// to traverse this face's winding; it is never written through this tag.
    Reverse { off: usize, len: usize },
}

/// A triangular face: three corner slots and the three edge spans between
/// them, each tagged with its direction relative to this face's winding.
#[derive(Debug, Clone, Copy)]
pub struct Face {
    pub v: [usize; 3],
    pub e: [Edge; 3],
}

/// The mathematical image of an `Edge`.
#[verifier::ext_equal]
pub struct EdgeM {
    pub fwd: bool,
    pub off: int,
    pub len: int,
}

/// The mathematical image of a `Face`.
#[verifier::ext_equal]
pub struct FaceM {
    pub v: Seq<int>,
    pub e: Seq<EdgeM>,
}

pub open spec fn edge_of(e: Edge) -> EdgeM {
    match e {
        Edge::Forward { off, len } => EdgeM { fwd: true, off: off as int, len: len as int },
        Edge::Reverse { off, len } => EdgeM { fwd: false, off: off as int, len: len as int },
    }
}

pub open spec fn face_of(f: Face) -> FaceM {
    FaceM {
        v: seq![f.v[0] as int, f.v[1] as int, f.v[2] as int],
        e: seq![edge_of(f.e[0]), edge_of(f.e[1]), edge_of(f.e[2])],
    }
}

/// The fixed table of the 20 icosahedron faces.  Corners are seed vertices
/// (0 is the top pole, 1..=5 the upper ring, 6..=10 the lower ring, 11 the
/// bottom pole); edge spans are laid out as 30 blocks of `unit` slots
/// starting at `shared_off`, and the direction tags give each of the 30
/// edges exactly one writing face.
pub open spec fn seed_face(i: int, shared_off: int, unit: int) -> FaceM {
    let i2 = i / 2;
    let i4 = i / 4;
    if i % 4 == 0 {
        // top cap: pole, two upper-ring corners
        FaceM {
            v: seq![0, i4 + 1, (i4 + 1) % 5 + 1],
            e: seq![
                EdgeM { fwd: true, off: shared_off + i2 * unit, len: unit },
                EdgeM { fwd: true, off: shared_off + (i2 + 1) * unit, len: unit },
                EdgeM { fwd: false, off: shared_off + ((i2 + 2) % 10) * unit, len: unit },
            ],
        }
    } else if i % 4 == 1 {
        // upper belt: points down
        FaceM {
            v: seq![i4 + 1, i4 + 6, (i4 + 1) % 5 + 1],
            e: seq![
                EdgeM { fwd: true, off: shared_off + (i2 + 10) * unit, len: unit },
                EdgeM { fwd: false, off: shared_off + (i2 + 11) * unit, len: unit },
                EdgeM { fwd: false, off: shared_off + (i2 + 1) * unit, len: unit },
            ],
        }
    } else if i % 4 == 2 {
        // lower belt: points up
        FaceM {
            v: seq![(i4 + 1) % 5 + 1, i4 + 6, (i4 + 1) % 5 + 6],
            e: seq![
                EdgeM { fwd: true, off: shared_off + (i2 + 10) * unit, len: unit },
                EdgeM { fwd: false, off: shared_off + (i2 + 19) * unit, len: unit },
                EdgeM { fwd: false, off: shared_off + ((i2 + 1) % 10 + 10) * unit, len: unit },
            ],
        }
    } else {
        // bottom cap: two lower-ring corners, pole
        FaceM {
            v: seq![(i4 + 1) % 5 + 6, i4 + 6, 11],
            e: seq![
                EdgeM { fwd: true, off: shared_off + (i2 + 19) * unit, len: unit },
                EdgeM { fwd: true, off: shared_off + (i2 + 20) * unit, len: unit },
                EdgeM { fwd: false, off: shared_off + ((i2 + 2) % 10 + 20) * unit, len: unit },
            ],
        }
    }
}

proof fn lemma_mul_le(a: int, b: int, c: int)
    by (nonlinear_arith)
    requires
        0 <= a <= b,
        0 <= c,
    ensures
        a * c <= b * c,
{
}

/// Builds the 20 seed faces, deriving each face's corner indices and the
/// slot, length and direction of its three edge spans from the face index
/// alone.
pub fn icosahedron_faces(shared_off: usize, unit: usize) -> (faces: Vec<Face>)
    requires
        shared_off + 30 * unit <= u32::MAX,
    ensures
        faces@.len() == 20,
        forall|i: int|
            0 <= i < 20 ==> face_of(#[trigger] faces@[i]) == seed_face(
                i,
                shared_off as int,
                unit as int,
            ),
{
    let mut faces: Vec<Face> = Vec::new();
    let mut i: usize = 0;
    while i < 20
        invariant
            i <= 20,
            faces@.len() == i,
            shared_off + 30 * unit <= u32::MAX,
            forall|j: int|
                0 <= j < i ==> face_of(#[trigger] faces@[j]) == seed_face(
                    j,
                    shared_off as int,
                    unit as int,
                ),
        decreases 20 - i,
    {
        let i2 = i / 2;
        let i4 = i / 4;
        proof {
            lemma_mul_le(i2 as int, 30, unit as int);
            lemma_mul_le(i2 + 1, 30, unit as int);
            lemma_mul_le((i2 + 2) % 10, 30, unit as int);
            lemma_mul_le(i2 + 10, 30, unit as int);
            lemma_mul_le(i2 + 11, 30, unit as int);
            lemma_mul_le(i2 + 19, 30, unit as int);
            lemma_mul_le(i2 + 20, 30, unit as int);
            lemma_mul_le((i2 + 1) % 10 + 10, 30, unit as int);
            lemma_mul_le((i2 + 2) % 10 + 20, 30, unit as int);
        }
        let f = if i % 4 == 0 {
            Face {
                v: [0, i4 + 1, (i4 + 1) % 5 + 1],
                e: [
                    Edge::Forward { off: shared_off + i2 * unit, len: unit },
                    Edge::Forward { off: shared_off + (i2 + 1) * unit, len: unit },
                    Edge::Reverse { off: shared_off + ((i2 + 2) % 10) * unit, len: unit },
                ],
            }
        } else if i % 4 == 1 {
            Face {
                v: [i4 + 1, i4 + 6, (i4 + 1) % 5 + 1],
                e: [
                    Edge::Forward { off: shared_off + (i2 + 10) * unit, len: unit },
                    Edge::Reverse { off: shared_off + (i2 + 11) * unit, len: unit },
                    Edge::Reverse { off: shared_off + (i2 + 1) * unit, len: unit },
                ],
            }
        } else if i % 4 == 2 {
            Face {
                v: [(i4 + 1) % 5 + 1, i4 + 6, (i4 + 1) % 5 + 6],
                e: [
                    Edge::Forward { off: shared_off + (i2 + 10) * unit, len: unit },
                    Edge::Reverse { off: shared_off + (i2 + 19) * unit, len: unit },
                    Edge::Reverse { off: shared_off + ((i2 + 1) % 10 + 10) * unit, len: unit },
                ],
            }
        } else {
            Face {
                v: [(i4 + 1) % 5 + 6, i4 + 6, 11],
                e: [
                    Edge::Forward { off: shared_off + (i2 + 19) * unit, len: unit },
                    Edge::Forward { off: shared_off + (i2 + 20) * unit, len: unit },
                    Edge::Reverse { off: shared_off + ((i2 + 2) % 10 + 20) * unit, len: unit },
                ],
            }
        };
        faces.push(f);
        i = i + 1;
    }
    faces
}

} // verus!
